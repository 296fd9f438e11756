//! SVG scrubbing logic: substitution-variable protection, color and style
//! normalisation, ID management, gradient deduplication, grouping and the
//! `<style>` block optimizer.
pub mod text;
pub mod subst;
pub mod color;
pub mod css;
pub mod ids;
pub mod gradient;
pub mod groups;
pub mod style_block;
pub mod path_clean;
pub mod path_combine;
pub mod path_data;
pub mod number_text;
pub mod transform_data;
pub mod optimizer;
pub mod document;
pub mod serialize;
pub mod writer;
pub mod xml;




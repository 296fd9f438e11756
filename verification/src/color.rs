//! Color normalisation: CSS color keywords, `#rgb`/`#rrggbb` hex and
//! `rgb(...)` functions are rewritten to the shortest lowercase hex form.
use vstd::prelude::*;
use vstd::arithmetic::div_mod::lemma_fundamental_div_mod_converse;
use crate::optimizer::{exp_index, is_decimal_number, is_f64_literal, is_mantissa};
use crate::subst::eq_str;
use crate::text::{
    all_digits, byte_len_min, byte_slice, byte_slice_exec, char_at_byte, char_at_byte_exec,
    chars_of, dec_value, eq_vec, first_index, first_index_of, hex_char, hex_digit, hex_val,
    hex_val_of, is_digit, lemma_char_at_byte_take, lemma_dec_value_bound, lemma_dec_value_concat,
    lemma_dec_value_mono, lemma_utf8_len_ascii, ascii_lower, ascii_lowercase_vec, append, lemma_utf8_len_le, lowercase_vec, parse_i32,
    parse_i32_spec, pow10, slice_vec, spec_to_lowercase, split_char, split_vec, starts_with,
    starts_with_vec, string_of, trim, trim_vec, utf8_len, all_ascii, is_ws, split_from, trim_end,
    trim_start,
};

verus! {

// ─── Keyword table ────────────────────────────────────────────────────────────

pub open spec fn keywords_a() -> Seq<(&'static str, (u8, u8, u8))> {
    seq![
        ("aliceblue", (240u8, 248u8, 255u8)),
        ("antiquewhite", (250u8, 235u8, 215u8)),
        ("aqua", (0u8, 255u8, 255u8)),
        ("aquamarine", (127u8, 255u8, 212u8)),
        ("azure", (240u8, 255u8, 255u8)),
        ("beige", (245u8, 245u8, 220u8)),
        ("bisque", (255u8, 228u8, 196u8)),
        ("black", (0u8, 0u8, 0u8)),
        ("blanchedalmond", (255u8, 235u8, 205u8)),
        ("blue", (0u8, 0u8, 255u8)),
        ("blueviolet", (138u8, 43u8, 226u8)),
        ("brown", (165u8, 42u8, 42u8)),
        ("burlywood", (222u8, 184u8, 135u8)),
        ("cadetblue", (95u8, 158u8, 160u8)),
        ("chartreuse", (127u8, 255u8, 0u8)),
        ("chocolate", (210u8, 105u8, 30u8)),
        ("coral", (255u8, 127u8, 80u8)),
        ("cornflowerblue", (100u8, 149u8, 237u8)),
        ("cornsilk", (255u8, 248u8, 220u8)),
        ("crimson", (220u8, 20u8, 60u8)),
        ("cyan", (0u8, 255u8, 255u8)),
        ("darkblue", (0u8, 0u8, 139u8)),
        ("darkcyan", (0u8, 139u8, 139u8)),
        ("darkgoldenrod", (184u8, 134u8, 11u8)),
        ("darkgray", (169u8, 169u8, 169u8)),
    ]
}

pub open spec fn keywords_b() -> Seq<(&'static str, (u8, u8, u8))> {
    seq![
        ("darkgreen", (0u8, 100u8, 0u8)),
        ("darkgrey", (169u8, 169u8, 169u8)),
        ("darkkhaki", (189u8, 183u8, 107u8)),
        ("darkmagenta", (139u8, 0u8, 139u8)),
        ("darkolivegreen", (85u8, 107u8, 47u8)),
        ("darkorange", (255u8, 140u8, 0u8)),
        ("darkorchid", (153u8, 50u8, 204u8)),
        ("darkred", (139u8, 0u8, 0u8)),
        ("darksalmon", (233u8, 150u8, 122u8)),
        ("darkseagreen", (143u8, 188u8, 143u8)),
        ("darkslateblue", (72u8, 61u8, 139u8)),
        ("darkslategray", (47u8, 79u8, 79u8)),
        ("darkslategrey", (47u8, 79u8, 79u8)),
        ("darkturquoise", (0u8, 206u8, 209u8)),
        ("darkviolet", (148u8, 0u8, 211u8)),
        ("deeppink", (255u8, 20u8, 147u8)),
        ("deepskyblue", (0u8, 191u8, 255u8)),
        ("dimgray", (105u8, 105u8, 105u8)),
        ("dimgrey", (105u8, 105u8, 105u8)),
        ("dodgerblue", (30u8, 144u8, 255u8)),
        ("firebrick", (178u8, 34u8, 34u8)),
        ("floralwhite", (255u8, 250u8, 240u8)),
        ("forestgreen", (34u8, 139u8, 34u8)),
        ("fuchsia", (255u8, 0u8, 255u8)),
        ("gainsboro", (220u8, 220u8, 220u8)),
    ]
}

pub open spec fn keywords_c() -> Seq<(&'static str, (u8, u8, u8))> {
    seq![
        ("ghostwhite", (248u8, 248u8, 255u8)),
        ("gold", (255u8, 215u8, 0u8)),
        ("goldenrod", (218u8, 165u8, 32u8)),
        ("gray", (128u8, 128u8, 128u8)),
        ("green", (0u8, 128u8, 0u8)),
        ("greenyellow", (173u8, 255u8, 47u8)),
        ("grey", (128u8, 128u8, 128u8)),
        ("honeydew", (240u8, 255u8, 240u8)),
        ("hotpink", (255u8, 105u8, 180u8)),
        ("indianred", (205u8, 92u8, 92u8)),
        ("indigo", (75u8, 0u8, 130u8)),
        ("ivory", (255u8, 255u8, 240u8)),
        ("khaki", (240u8, 230u8, 140u8)),
        ("lavender", (230u8, 230u8, 250u8)),
        ("lavenderblush", (255u8, 240u8, 245u8)),
        ("lawngreen", (124u8, 252u8, 0u8)),
        ("lemonchiffon", (255u8, 250u8, 205u8)),
        ("lightblue", (173u8, 216u8, 230u8)),
        ("lightcoral", (240u8, 128u8, 128u8)),
        ("lightcyan", (224u8, 255u8, 255u8)),
        ("lightgoldenrodyellow", (250u8, 250u8, 210u8)),
        ("lightgray", (211u8, 211u8, 211u8)),
        ("lightgreen", (144u8, 238u8, 144u8)),
        ("lightgrey", (211u8, 211u8, 211u8)),
        ("lightpink", (255u8, 182u8, 193u8)),
    ]
}

pub open spec fn keywords_d() -> Seq<(&'static str, (u8, u8, u8))> {
    seq![
        ("lightsalmon", (255u8, 160u8, 122u8)),
        ("lightseagreen", (32u8, 178u8, 170u8)),
        ("lightskyblue", (135u8, 206u8, 250u8)),
        ("lightslategray", (119u8, 136u8, 153u8)),
        ("lightslategrey", (119u8, 136u8, 153u8)),
        ("lightsteelblue", (176u8, 196u8, 222u8)),
        ("lightyellow", (255u8, 255u8, 224u8)),
        ("lime", (0u8, 255u8, 0u8)),
        ("limegreen", (50u8, 205u8, 50u8)),
        ("linen", (250u8, 240u8, 230u8)),
        ("magenta", (255u8, 0u8, 255u8)),
        ("maroon", (128u8, 0u8, 0u8)),
        ("mediumaquamarine", (102u8, 205u8, 170u8)),
        ("mediumblue", (0u8, 0u8, 205u8)),
        ("mediumorchid", (186u8, 85u8, 211u8)),
        ("mediumpurple", (147u8, 112u8, 219u8)),
        ("mediumseagreen", (60u8, 179u8, 113u8)),
        ("mediumslateblue", (123u8, 104u8, 238u8)),
        ("mediumspringgreen", (0u8, 250u8, 154u8)),
        ("mediumturquoise", (72u8, 209u8, 204u8)),
        ("mediumvioletred", (199u8, 21u8, 133u8)),
        ("midnightblue", (25u8, 25u8, 112u8)),
        ("mintcream", (245u8, 255u8, 250u8)),
        ("mistyrose", (255u8, 228u8, 225u8)),
        ("moccasin", (255u8, 228u8, 181u8)),
    ]
}

pub open spec fn keywords_e() -> Seq<(&'static str, (u8, u8, u8))> {
    seq![
        ("navajowhite", (255u8, 222u8, 173u8)),
        ("navy", (0u8, 0u8, 128u8)),
        ("oldlace", (253u8, 245u8, 230u8)),
        ("olive", (128u8, 128u8, 0u8)),
        ("olivedrab", (107u8, 142u8, 35u8)),
        ("orange", (255u8, 165u8, 0u8)),
        ("orangered", (255u8, 69u8, 0u8)),
        ("orchid", (218u8, 112u8, 214u8)),
        ("palegoldenrod", (238u8, 232u8, 170u8)),
        ("palegreen", (152u8, 251u8, 152u8)),
        ("paleturquoise", (175u8, 238u8, 238u8)),
        ("palevioletred", (219u8, 112u8, 147u8)),
        ("papayawhip", (255u8, 239u8, 213u8)),
        ("peachpuff", (255u8, 218u8, 185u8)),
        ("peru", (205u8, 133u8, 63u8)),
        ("pink", (255u8, 192u8, 203u8)),
        ("plum", (221u8, 160u8, 221u8)),
        ("powderblue", (176u8, 224u8, 230u8)),
        ("purple", (128u8, 0u8, 128u8)),
        ("rebeccapurple", (102u8, 51u8, 153u8)),
        ("red", (255u8, 0u8, 0u8)),
        ("rosybrown", (188u8, 143u8, 143u8)),
        ("royalblue", (65u8, 105u8, 225u8)),
        ("saddlebrown", (139u8, 69u8, 19u8)),
        ("salmon", (250u8, 128u8, 114u8)),
    ]
}

pub open spec fn keywords_f() -> Seq<(&'static str, (u8, u8, u8))> {
    seq![
        ("sandybrown", (244u8, 164u8, 96u8)),
        ("seagreen", (46u8, 139u8, 87u8)),
        ("seashell", (255u8, 245u8, 238u8)),
        ("sienna", (160u8, 82u8, 45u8)),
        ("silver", (192u8, 192u8, 192u8)),
        ("skyblue", (135u8, 206u8, 235u8)),
        ("slateblue", (106u8, 90u8, 205u8)),
        ("slategray", (112u8, 128u8, 144u8)),
        ("slategrey", (112u8, 128u8, 144u8)),
        ("snow", (255u8, 250u8, 250u8)),
        ("springgreen", (0u8, 255u8, 127u8)),
        ("steelblue", (70u8, 130u8, 180u8)),
        ("tan", (210u8, 180u8, 140u8)),
        ("teal", (0u8, 128u8, 128u8)),
        ("thistle", (216u8, 191u8, 216u8)),
        ("tomato", (255u8, 99u8, 71u8)),
        ("turquoise", (64u8, 224u8, 208u8)),
        ("violet", (238u8, 130u8, 238u8)),
        ("wheat", (245u8, 222u8, 179u8)),
        ("white", (255u8, 255u8, 255u8)),
        ("whitesmoke", (245u8, 245u8, 245u8)),
        ("yellow", (255u8, 255u8, 0u8)),
        ("yellowgreen", (154u8, 205u8, 50u8)),
    ]
}

/// The CSS color keywords with their RGB values.
pub open spec fn keyword_table() -> Seq<(&'static str, (u8, u8, u8))> {
    keywords_a() + keywords_b() + keywords_c() + keywords_d() + keywords_e() + keywords_f()
}

fn push_keywords_a(m: &mut Vec<(&'static str, (u8, u8, u8))>)
    ensures
        final(m)@ == old(m)@ + keywords_a(),
{
    m.push(("aliceblue", (240u8, 248u8, 255u8)));
    m.push(("antiquewhite", (250u8, 235u8, 215u8)));
    m.push(("aqua", (0u8, 255u8, 255u8)));
    m.push(("aquamarine", (127u8, 255u8, 212u8)));
    m.push(("azure", (240u8, 255u8, 255u8)));
    m.push(("beige", (245u8, 245u8, 220u8)));
    m.push(("bisque", (255u8, 228u8, 196u8)));
    m.push(("black", (0u8, 0u8, 0u8)));
    m.push(("blanchedalmond", (255u8, 235u8, 205u8)));
    m.push(("blue", (0u8, 0u8, 255u8)));
    m.push(("blueviolet", (138u8, 43u8, 226u8)));
    m.push(("brown", (165u8, 42u8, 42u8)));
    m.push(("burlywood", (222u8, 184u8, 135u8)));
    m.push(("cadetblue", (95u8, 158u8, 160u8)));
    m.push(("chartreuse", (127u8, 255u8, 0u8)));
    m.push(("chocolate", (210u8, 105u8, 30u8)));
    m.push(("coral", (255u8, 127u8, 80u8)));
    m.push(("cornflowerblue", (100u8, 149u8, 237u8)));
    m.push(("cornsilk", (255u8, 248u8, 220u8)));
    m.push(("crimson", (220u8, 20u8, 60u8)));
    m.push(("cyan", (0u8, 255u8, 255u8)));
    m.push(("darkblue", (0u8, 0u8, 139u8)));
    m.push(("darkcyan", (0u8, 139u8, 139u8)));
    m.push(("darkgoldenrod", (184u8, 134u8, 11u8)));
    m.push(("darkgray", (169u8, 169u8, 169u8)));
    assert(m@ =~= old(m)@ + keywords_a());
}

fn push_keywords_b(m: &mut Vec<(&'static str, (u8, u8, u8))>)
    ensures
        final(m)@ == old(m)@ + keywords_b(),
{
    m.push(("darkgreen", (0u8, 100u8, 0u8)));
    m.push(("darkgrey", (169u8, 169u8, 169u8)));
    m.push(("darkkhaki", (189u8, 183u8, 107u8)));
    m.push(("darkmagenta", (139u8, 0u8, 139u8)));
    m.push(("darkolivegreen", (85u8, 107u8, 47u8)));
    m.push(("darkorange", (255u8, 140u8, 0u8)));
    m.push(("darkorchid", (153u8, 50u8, 204u8)));
    m.push(("darkred", (139u8, 0u8, 0u8)));
    m.push(("darksalmon", (233u8, 150u8, 122u8)));
    m.push(("darkseagreen", (143u8, 188u8, 143u8)));
    m.push(("darkslateblue", (72u8, 61u8, 139u8)));
    m.push(("darkslategray", (47u8, 79u8, 79u8)));
    m.push(("darkslategrey", (47u8, 79u8, 79u8)));
    m.push(("darkturquoise", (0u8, 206u8, 209u8)));
    m.push(("darkviolet", (148u8, 0u8, 211u8)));
    m.push(("deeppink", (255u8, 20u8, 147u8)));
    m.push(("deepskyblue", (0u8, 191u8, 255u8)));
    m.push(("dimgray", (105u8, 105u8, 105u8)));
    m.push(("dimgrey", (105u8, 105u8, 105u8)));
    m.push(("dodgerblue", (30u8, 144u8, 255u8)));
    m.push(("firebrick", (178u8, 34u8, 34u8)));
    m.push(("floralwhite", (255u8, 250u8, 240u8)));
    m.push(("forestgreen", (34u8, 139u8, 34u8)));
    m.push(("fuchsia", (255u8, 0u8, 255u8)));
    m.push(("gainsboro", (220u8, 220u8, 220u8)));
    assert(m@ =~= old(m)@ + keywords_b());
}

fn push_keywords_c(m: &mut Vec<(&'static str, (u8, u8, u8))>)
    ensures
        final(m)@ == old(m)@ + keywords_c(),
{
    m.push(("ghostwhite", (248u8, 248u8, 255u8)));
    m.push(("gold", (255u8, 215u8, 0u8)));
    m.push(("goldenrod", (218u8, 165u8, 32u8)));
    m.push(("gray", (128u8, 128u8, 128u8)));
    m.push(("green", (0u8, 128u8, 0u8)));
    m.push(("greenyellow", (173u8, 255u8, 47u8)));
    m.push(("grey", (128u8, 128u8, 128u8)));
    m.push(("honeydew", (240u8, 255u8, 240u8)));
    m.push(("hotpink", (255u8, 105u8, 180u8)));
    m.push(("indianred", (205u8, 92u8, 92u8)));
    m.push(("indigo", (75u8, 0u8, 130u8)));
    m.push(("ivory", (255u8, 255u8, 240u8)));
    m.push(("khaki", (240u8, 230u8, 140u8)));
    m.push(("lavender", (230u8, 230u8, 250u8)));
    m.push(("lavenderblush", (255u8, 240u8, 245u8)));
    m.push(("lawngreen", (124u8, 252u8, 0u8)));
    m.push(("lemonchiffon", (255u8, 250u8, 205u8)));
    m.push(("lightblue", (173u8, 216u8, 230u8)));
    m.push(("lightcoral", (240u8, 128u8, 128u8)));
    m.push(("lightcyan", (224u8, 255u8, 255u8)));
    m.push(("lightgoldenrodyellow", (250u8, 250u8, 210u8)));
    m.push(("lightgray", (211u8, 211u8, 211u8)));
    m.push(("lightgreen", (144u8, 238u8, 144u8)));
    m.push(("lightgrey", (211u8, 211u8, 211u8)));
    m.push(("lightpink", (255u8, 182u8, 193u8)));
    assert(m@ =~= old(m)@ + keywords_c());
}

fn push_keywords_d(m: &mut Vec<(&'static str, (u8, u8, u8))>)
    ensures
        final(m)@ == old(m)@ + keywords_d(),
{
    m.push(("lightsalmon", (255u8, 160u8, 122u8)));
    m.push(("lightseagreen", (32u8, 178u8, 170u8)));
    m.push(("lightskyblue", (135u8, 206u8, 250u8)));
    m.push(("lightslategray", (119u8, 136u8, 153u8)));
    m.push(("lightslategrey", (119u8, 136u8, 153u8)));
    m.push(("lightsteelblue", (176u8, 196u8, 222u8)));
    m.push(("lightyellow", (255u8, 255u8, 224u8)));
    m.push(("lime", (0u8, 255u8, 0u8)));
    m.push(("limegreen", (50u8, 205u8, 50u8)));
    m.push(("linen", (250u8, 240u8, 230u8)));
    m.push(("magenta", (255u8, 0u8, 255u8)));
    m.push(("maroon", (128u8, 0u8, 0u8)));
    m.push(("mediumaquamarine", (102u8, 205u8, 170u8)));
    m.push(("mediumblue", (0u8, 0u8, 205u8)));
    m.push(("mediumorchid", (186u8, 85u8, 211u8)));
    m.push(("mediumpurple", (147u8, 112u8, 219u8)));
    m.push(("mediumseagreen", (60u8, 179u8, 113u8)));
    m.push(("mediumslateblue", (123u8, 104u8, 238u8)));
    m.push(("mediumspringgreen", (0u8, 250u8, 154u8)));
    m.push(("mediumturquoise", (72u8, 209u8, 204u8)));
    m.push(("mediumvioletred", (199u8, 21u8, 133u8)));
    m.push(("midnightblue", (25u8, 25u8, 112u8)));
    m.push(("mintcream", (245u8, 255u8, 250u8)));
    m.push(("mistyrose", (255u8, 228u8, 225u8)));
    m.push(("moccasin", (255u8, 228u8, 181u8)));
    assert(m@ =~= old(m)@ + keywords_d());
}

fn push_keywords_e(m: &mut Vec<(&'static str, (u8, u8, u8))>)
    ensures
        final(m)@ == old(m)@ + keywords_e(),
{
    m.push(("navajowhite", (255u8, 222u8, 173u8)));
    m.push(("navy", (0u8, 0u8, 128u8)));
    m.push(("oldlace", (253u8, 245u8, 230u8)));
    m.push(("olive", (128u8, 128u8, 0u8)));
    m.push(("olivedrab", (107u8, 142u8, 35u8)));
    m.push(("orange", (255u8, 165u8, 0u8)));
    m.push(("orangered", (255u8, 69u8, 0u8)));
    m.push(("orchid", (218u8, 112u8, 214u8)));
    m.push(("palegoldenrod", (238u8, 232u8, 170u8)));
    m.push(("palegreen", (152u8, 251u8, 152u8)));
    m.push(("paleturquoise", (175u8, 238u8, 238u8)));
    m.push(("palevioletred", (219u8, 112u8, 147u8)));
    m.push(("papayawhip", (255u8, 239u8, 213u8)));
    m.push(("peachpuff", (255u8, 218u8, 185u8)));
    m.push(("peru", (205u8, 133u8, 63u8)));
    m.push(("pink", (255u8, 192u8, 203u8)));
    m.push(("plum", (221u8, 160u8, 221u8)));
    m.push(("powderblue", (176u8, 224u8, 230u8)));
    m.push(("purple", (128u8, 0u8, 128u8)));
    m.push(("rebeccapurple", (102u8, 51u8, 153u8)));
    m.push(("red", (255u8, 0u8, 0u8)));
    m.push(("rosybrown", (188u8, 143u8, 143u8)));
    m.push(("royalblue", (65u8, 105u8, 225u8)));
    m.push(("saddlebrown", (139u8, 69u8, 19u8)));
    m.push(("salmon", (250u8, 128u8, 114u8)));
    assert(m@ =~= old(m)@ + keywords_e());
}

fn push_keywords_f(m: &mut Vec<(&'static str, (u8, u8, u8))>)
    ensures
        final(m)@ == old(m)@ + keywords_f(),
{
    m.push(("sandybrown", (244u8, 164u8, 96u8)));
    m.push(("seagreen", (46u8, 139u8, 87u8)));
    m.push(("seashell", (255u8, 245u8, 238u8)));
    m.push(("sienna", (160u8, 82u8, 45u8)));
    m.push(("silver", (192u8, 192u8, 192u8)));
    m.push(("skyblue", (135u8, 206u8, 235u8)));
    m.push(("slateblue", (106u8, 90u8, 205u8)));
    m.push(("slategray", (112u8, 128u8, 144u8)));
    m.push(("slategrey", (112u8, 128u8, 144u8)));
    m.push(("snow", (255u8, 250u8, 250u8)));
    m.push(("springgreen", (0u8, 255u8, 127u8)));
    m.push(("steelblue", (70u8, 130u8, 180u8)));
    m.push(("tan", (210u8, 180u8, 140u8)));
    m.push(("teal", (0u8, 128u8, 128u8)));
    m.push(("thistle", (216u8, 191u8, 216u8)));
    m.push(("tomato", (255u8, 99u8, 71u8)));
    m.push(("turquoise", (64u8, 224u8, 208u8)));
    m.push(("violet", (238u8, 130u8, 238u8)));
    m.push(("wheat", (245u8, 222u8, 179u8)));
    m.push(("white", (255u8, 255u8, 255u8)));
    m.push(("whitesmoke", (245u8, 245u8, 245u8)));
    m.push(("yellow", (255u8, 255u8, 0u8)));
    m.push(("yellowgreen", (154u8, 205u8, 50u8)));
    assert(m@ =~= old(m)@ + keywords_f());
}

/// Well-known CSS color keywords → RGB
fn color_keywords() -> (m: Vec<(&'static str, (u8, u8, u8))>)
    ensures
        m@ == keyword_table(),
{
    let mut m: Vec<(&'static str, (u8, u8, u8))> = Vec::new();
    push_keywords_a(&mut m);
    push_keywords_b(&mut m);
    push_keywords_c(&mut m);
    push_keywords_d(&mut m);
    push_keywords_e(&mut m);
    push_keywords_f(&mut m);
    assert(m@ =~= keyword_table());
    m
}

/// The RGB value of the first keyword from index `i` on whose name is `name`.
pub open spec fn lookup_from(
    t: Seq<(&'static str, (u8, u8, u8))>,
    name: Seq<char>,
    i: int,
) -> Option<(u8, u8, u8)>
    decreases t.len() - i,
{
    if i < 0 || i >= t.len() {
        None
    } else if t[i].0@ == name {
        Some(t[i].1)
    } else {
        lookup_from(t, name, i + 1)
    }
}

/// The RGB value of the color keyword `name`, if it is one.
pub open spec fn keyword_rgb(name: Seq<char>) -> Option<(u8, u8, u8)> {
    lookup_from(keyword_table(), name, 0)
}

fn keyword_lookup(name: &Vec<char>) -> (r: Option<(u8, u8, u8)>)
    ensures
        r == keyword_rgb(name@),
{
    let kw = color_keywords();
    let mut i: usize = 0;
    while i < kw.len()
        invariant
            i <= kw.len(),
            kw@ == keyword_table(),
            lookup_from(kw@, name@, 0) == lookup_from(kw@, name@, i as int),
        decreases kw.len() - i,
    {
        let entry = kw[i];
        let key = chars_of(entry.0);
        if eq_vec(&key, name) {
            return Some(entry.1);
        }
        i += 1;
    }
    None
}

// ─── Hex formatting ───────────────────────────────────────────────────────────

/// Whether each channel has equal nibbles, so that `#rgb` can stand for it.
pub open spec fn has_short_form(r: u8, g: u8, b: u8) -> bool {
    r % 16 == r / 16 && g % 16 == g / 16 && b % 16 == b / 16
}

pub open spec fn hex_byte(x: u8) -> Seq<char> {
    seq![hex_digit((x / 16) as nat), hex_digit((x % 16) as nat)]
}

/// The shortest lowercase hex form of an RGB triple: `#rgb` where every
/// channel repeats its nibble, `#rrggbb` otherwise.
pub open spec fn rgb_hex(r: u8, g: u8, b: u8) -> Seq<char> {
    if has_short_form(r, g, b) {
        seq!['#', hex_digit((r / 16) as nat), hex_digit((g / 16) as nat), hex_digit((b / 16) as nat)]
    } else {
        seq!['#'] + hex_byte(r) + hex_byte(g) + hex_byte(b)
    }
}

fn rgb_hex_vec(r: u8, g: u8, b: u8) -> (s: Vec<char>)
    ensures
        s@ == rgb_hex(r, g, b),
{
    assert(r & 0x0f == r % 16 && r >> 4 == r / 16) by (bit_vector);
    assert(g & 0x0f == g % 16 && g >> 4 == g / 16) by (bit_vector);
    assert(b & 0x0f == b % 16 && b >> 4 == b / 16) by (bit_vector);
    let mut s: Vec<char> = Vec::new();
    s.push('#');
    if r & 0x0f == r >> 4 && g & 0x0f == g >> 4 && b & 0x0f == b >> 4 {
        s.push(hex_char(r >> 4));
        s.push(hex_char(g >> 4));
        s.push(hex_char(b >> 4));
    } else {
        s.push(hex_char(r >> 4));
        s.push(hex_char(r & 0x0f));
        s.push(hex_char(g >> 4));
        s.push(hex_char(g & 0x0f));
        s.push(hex_char(b >> 4));
        s.push(hex_char(b & 0x0f));
    }
    assert(s@ =~= rgb_hex(r, g, b));
    s
}

/// Simplify an RGB triple to the shortest hex representation
pub fn rgb_to_hex(r: u8, g: u8, b: u8) -> (s: String)
    ensures
        s@ == rgb_hex(r, g, b),
{
    string_of(&rgb_hex_vec(r, g, b))
}

pub proof fn lemma_rgb_hex_ascii(r: u8, g: u8, b: u8)
    ensures
        utf8_len(rgb_hex(r, g, b)) == rgb_hex(r, g, b).len(),
        rgb_hex(r, g, b).len() == 4 || rgb_hex(r, g, b).len() == 7,
{
    let h = rgb_hex(r, g, b);
    assert forall|i: int| 0 <= i < h.len() implies (#[trigger] h[i] as u32) < 0x80 by {
        if i > 0 {
            assert(exists|d: nat| d < 16 && h[i] == hex_digit(d));
        }
    }
    lemma_utf8_len_ascii(h);
}

proof fn lemma_hex_digit_val(d: nat)
    requires
        d < 16,
    ensures
        hex_val(hex_digit(d)) == Some(d),
        hex_digit(d) != '#',
{
}

/// The hex form of a triple is the short `#rgb` exactly when every channel
/// is a multiple of 17, and reading its digits back (each doubled in the
/// short form, in pairs in the long one) gives the channels.
pub proof fn lemma_rgb_hex_decodes(r: u8, g: u8, b: u8)
    ensures
        ({
            let h = rgb_hex(r, g, b);
            &&& h[0] == '#'
            &&& (h.len() == 4) == (r % 17 == 0 && g % 17 == 0 && b % 17 == 0)
            &&& h.len() == 4 ==> hex_val(h[1]) == Some((r / 17) as nat) && hex_val(h[2]) == Some((g / 17) as nat)
                && hex_val(h[3]) == Some((b / 17) as nat) && r == (r / 17) * 17 && g == (g / 17) * 17 && b == (b / 17) * 17
            &&& h.len() == 7 ==> hex_val(h[1]) == Some((r / 16) as nat) && hex_val(h[2]) == Some((r % 16) as nat)
                && hex_val(h[3]) == Some((g / 16) as nat) && hex_val(h[4]) == Some((g % 16) as nat)
                && hex_val(h[5]) == Some((b / 16) as nat) && hex_val(h[6]) == Some((b % 16) as nat)
        }),
{
    lemma_hex_digit_val((r / 16) as nat);
    lemma_hex_digit_val((r % 16) as nat);
    lemma_hex_digit_val((g / 16) as nat);
    lemma_hex_digit_val((g % 16) as nat);
    lemma_hex_digit_val((b / 16) as nat);
    lemma_hex_digit_val((b % 16) as nat);
    assert((r % 16 == r / 16) == (r % 17 == 0) && (r % 17 == 0 ==> r / 16 == r / 17 && r == (r / 17) * 17))
        by (bit_vector);
    assert((g % 16 == g / 16) == (g % 17 == 0) && (g % 17 == 0 ==> g / 16 == g / 17 && g == (g / 17) * 17))
        by (bit_vector);
    assert((b % 16 == b / 16) == (b % 17 == 0) && (b % 17 == 0 ==> b / 16 == b / 17 && b == (b / 17) * 17))
        by (bit_vector);
}

// ─── Hex parsing ──────────────────────────────────────────────────────────────

/// Value of a sequence of hex digits.
pub open spec fn hex_value(s: Seq<char>) -> nat
    decreases s.len(),
{
    if s.len() == 0 {
        0
    } else {
        hex_value(s.drop_last()) * 16 + match hex_val(s.last()) {
            Some(d) => d,
            None => 0,
        }
    }
}

pub open spec fn all_hex(s: Seq<char>) -> bool {
    forall|i: int| 0 <= i < s.len() ==> (#[trigger] hex_val(s[i])) is Some
}

/// What `u8::from_str_radix(s, 16)` returns: an optional `+`, then one or
/// more hex digits whose value fits in a byte.
pub open spec fn radix16_u8(s: Seq<char>) -> Option<u8> {
    let body = if s.len() > 0 && s[0] == '+' {
        s.drop_first()
    } else {
        s
    };
    if body.len() > 0 && all_hex(body) && hex_value(body) < 256 {
        Some(hex_value(body) as u8)
    } else {
        None
    }
}

pub proof fn lemma_hex_value_mono(s: Seq<char>, k: int)
    requires
        0 <= k <= s.len(),
        all_hex(s),
    ensures
        hex_value(s.take(k)) <= hex_value(s),
    decreases s.len() - k,
{
    if k < s.len() {
        lemma_hex_value_mono(s, k + 1);
        assert(s.take(k + 1).drop_last() =~= s.take(k));
    } else {
        assert(s.take(k) =~= s);
    }
}

fn radix16(s: &Vec<char>) -> (r: Option<u8>)
    ensures
        r == radix16_u8(s@),
{
    let start: usize = if s.len() > 0 && s[0] == '+' {
        1
    } else {
        0
    };
    let ghost body = if s@.len() > 0 && s@[0] == '+' {
        s@.drop_first()
    } else {
        s@
    };
    assert(body =~= s@.skip(start as int));
    if start >= s.len() {
        return None;
    }
    let mut v: u32 = 0;
    let mut i = start;
    while i < s.len()
        invariant
            start <= i <= s.len(),
            body == s@.skip(start as int),
            body == (if s@.len() > 0 && s@[0] == '+' {
                s@.drop_first()
            } else {
                s@
            }),
            v == hex_value(body.take(i - start)),
            v < 256,
            all_hex(body.take(i - start)),
        decreases s.len() - i,
    {
        let ghost t = body.take(i - start + 1);
        assert(t.drop_last() =~= body.take(i - start));
        assert(t.last() == s@[i as int]);
        match hex_val_of(s[i]) {
            None => {
                proof {
                    assert(body[i - start] == s@[i as int]);
                    assert(!all_hex(body)) by {
                        assert(hex_val(body[i - start]) is None);
                    }
                    assert(radix16_u8(s@) is None);
                }
                return None;
            },
            Some(d) => {
                let nv = v * 16 + d as u32;
                proof {
                    assert(all_hex(t));
                }
                if nv >= 256 {
                    proof {
                        assert(hex_value(t) == nv);
                        if all_hex(body) {
                            lemma_hex_value_mono(body, i - start + 1);
                        }
                        assert(radix16_u8(s@) is None);
                    }
                    return None;
                }
                v = nv;
            },
        }
        i += 1;
    }
    assert(body.take(i - start) =~= body);
    Some(v as u8)
}

/// `&h[c*w..(c+1)*w]`, doubled for the three-digit form.
pub open spec fn hex_piece(h: Seq<char>, w: int, c: int) -> Option<Seq<char>> {
    match byte_slice(h, c * w, (c + 1) * w) {
        Some(s) => Some(
            if w == 1 {
                s + s
            } else {
                s
            },
        ),
        None => None,
    }
}

/// The three channels of a hex color whose digits take `w` bytes each;
/// `None` where a slice falls off a character boundary, `Some(None)` where a
/// channel does not parse.
pub open spec fn hex_channels(h: Seq<char>, w: int) -> Option<Option<Seq<char>>> {
    match hex_piece(h, w, 0) {
        None => None,
        Some(p0) => match radix16_u8(p0) {
            None => Some(None),
            Some(r) => match hex_piece(h, w, 1) {
                None => None,
                Some(p1) => match radix16_u8(p1) {
                    None => Some(None),
                    Some(g) => match hex_piece(h, w, 2) {
                        None => None,
                        Some(p2) => match radix16_u8(p2) {
                            None => Some(None),
                            Some(b) => Some(Some(rgb_hex(r, g, b))),
                        },
                    },
                },
            },
        },
    }
}

/// What `try_parse_hex` does on `v`: `None` where a slice falls off a
/// character boundary, else its result.
pub open spec fn parse_hex_outcome(v: Seq<char>) -> Option<Option<Seq<char>>> {
    if !(v.len() > 0 && v[0] == '#') {
        Some(None)
    } else {
        let h = v.drop_first();
        if utf8_len(h) == 3 {
            hex_channels(h, 1)
        } else if utf8_len(h) == 6 {
            hex_channels(h, 2)
        } else {
            Some(None)
        }
    }
}

fn hex_piece_exec(h: &Vec<char>, w: usize, c: usize) -> (r: Option<Vec<char>>)
    requires
        1 <= w <= 2,
        c < 3,
    ensures
        r matches Some(p) ==> hex_piece(h@, w as int, c as int) == Some(p@),
        r is None ==> hex_piece(h@, w as int, c as int) is None,
{
    match byte_slice_exec(h, c * w, (c + 1) * w) {
        Some(s) => {
            if w == 1 {
                let mut p = s.clone();
                let mut t = s.clone();
                p.append(&mut t);
                Some(p)
            } else {
                Some(s)
            }
        },
        None => None,
    }
}

fn hex_channels_exec(h: &Vec<char>, w: usize) -> (r: Option<Option<Vec<char>>>)
    requires
        1 <= w <= 2,
    ensures
        match r {
            None => hex_channels(h@, w as int) is None,
            Some(None) => hex_channels(h@, w as int) == Some(None::<Seq<char>>),
            Some(Some(v)) => hex_channels(h@, w as int) == Some(Some(v@)),
        },
{
    let p0 = match hex_piece_exec(h, w, 0) {
        None => return None,
        Some(p) => p,
    };
    let r = match radix16(&p0) {
        None => return Some(None),
        Some(x) => x,
    };
    let p1 = match hex_piece_exec(h, w, 1) {
        None => return None,
        Some(p) => p,
    };
    let g = match radix16(&p1) {
        None => return Some(None),
        Some(x) => x,
    };
    let p2 = match hex_piece_exec(h, w, 2) {
        None => return None,
        Some(p) => p,
    };
    let b = match radix16(&p2) {
        None => return Some(None),
        Some(x) => x,
    };
    Some(Some(rgb_hex_vec(r, g, b)))
}

fn try_parse_hex(v: &Vec<char>) -> (r: Option<Option<Vec<char>>>)
    ensures
        match r {
            None => parse_hex_outcome(v@) is None,
            Some(None) => parse_hex_outcome(v@) == Some(None::<Seq<char>>),
            Some(Some(x)) => parse_hex_outcome(v@) == Some(Some(x@)),
        },
{
    if v.len() == 0 || v[0] != '#' {
        return Some(None);
    }
    let h = slice_vec(v, 1, v.len());
    assert(h@ =~= v@.drop_first());
    let n = crate::text::byte_len_min(&h, 7);
    if n == 3 {
        hex_channels_exec(&h, 1)
    } else if n == 6 {
        hex_channels_exec(&h, 2)
    } else {
        Some(None)
    }
}


// ─── Function syntax ──────────────────────────────────────────────────────────

/// What `strip_func(v, name)` does: `None` where the byte slice falls off a character boundary,
/// `Some(None)` where `v` is not a call of `name`, else the text between the
/// parentheses.
pub open spec fn strip_func_outcome(v0: Seq<char>, name: Seq<char>) -> Option<Option<Seq<char>>> {
    let v = trim(v0);
    let prefix = name.push('(');
    if starts_with(spec_to_lowercase(v), prefix) && v.len() > 0 && v.last() == ')' {
        match byte_slice(v, utf8_len(prefix) as int, utf8_len(v) - 1) {
            None => None,
            Some(inner) => Some(Some(inner)),
        }
    } else {
        Some(None)
    }
}

fn strip_func(v0: &Vec<char>, name: &Vec<char>) -> (r: Option<Option<Vec<char>>>)
    requires
        name.len() < 100,
    ensures
        match r {
            None => strip_func_outcome(v0@, name@) is None,
            Some(None) => strip_func_outcome(v0@, name@) == Some(None::<Seq<char>>),
            Some(Some(x)) => strip_func_outcome(v0@, name@) == Some(Some(x@)),
        },
{
    let v = trim_vec(v0);
    let mut prefix = slice_vec(name, 0, name.len());
    prefix.push('(');
    assert(prefix@ =~= name@.push('('));
    let lower = lowercase_vec(&v);
    if starts_with_vec(&lower, &prefix) && v.len() > 0 && v[v.len() - 1] == ')' {
        proof {
            lemma_utf8_len_le(prefix@);
        }
        let plen = byte_len_min(&prefix, 0x1000);
        let ghost n = v@.len() as int;
        proof {
            assert(v@.take(n - 1) =~= v@.drop_last());
            lemma_char_at_byte_take(v@, n - 1);
        }
        match char_at_byte_exec(&v, plen as usize) {
            None => None,
            Some(i) => {
                if i <= v.len() - 1 {
                    Some(Some(slice_vec(&v, i, v.len() - 1)))
                } else {
                    None
                }
            },
        }
    } else {
        Some(None)
    }
}

// ─── Channel values ───────────────────────────────────────────────────────────

/// The value of the part of a numeral after its `e`: an optional sign, then
/// digits.
pub open spec fn exp_value(x: Seq<char>) -> int {
    if x.len() > 0 && x[0] == '-' {
        -(dec_value(x.drop_first()) as int)
    } else if x.len() > 0 && x[0] == '+' {
        dec_value(x.drop_first()) as int
    } else {
        dec_value(x) as int
    }
}

/// The digits of a mantissa with its point taken out, and how many of them
/// stood after the point.
pub open spec fn mantissa_digits(m: Seq<char>) -> (Seq<char>, int) {
    let d = first_index(m, '.');
    if d < m.len() {
        (m.take(d) + m.skip(d + 1), m.len() - d - 1)
    } else {
        (m, 0)
    }
}

/// The channel for the percentage `n / scale`: clamped to `100`, scaled to
/// `255` and rounded half up.
pub open spec fn scaled_channel(n: nat, scale: nat) -> u8 {
    let c = if n >= 100 * scale {
        100 * scale
    } else {
        n
    };
    ((51 * c + 10 * scale) / (20 * scale)) as u8
}

/// The channel for the percentage `m * 10^t`.
pub open spec fn channel_at(m: nat, t: int) -> u8 {
    if t >= 0 {
        scaled_channel(m * pow10(t as nat), 1)
    } else {
        scaled_channel(m, pow10((-t) as nat))
    }
}

/// A percentage channel, for text that `str::parse::<f64>` accepts: the
/// exact value `p` of the numeral, clamped to `0..=100`, as
/// `p / 100 * 255` rounded half away from zero. `nan` gives `0`, `inf` and
/// `infinity` the end of the range on their side.
///
/// The value is taken exactly, in integers: no `f64` stands in for the
/// numeral, its quotient by `100` or its product with `255`. Done in `f64`,
/// each of those steps rounds to the nearest double, which moves the result
/// only for a numeral with more digits than a double holds that lies within
/// a rounding error of a channel boundary: `9.99999999999999999999` is
/// `25.4999...` scaled here, so channel `25` (`#190000` for
/// `rgb(9.99999999999999999999%,0,0)`), while in `f64` it reads as `10.0`
/// and gives `26` (`#1a0000`).
pub open spec fn percent_channel(s: Seq<char>) -> Option<u8> {
    let neg = s.len() > 0 && s[0] == '-';
    let body = if s.len() > 0 && (s[0] == '+' || s[0] == '-') {
        s.drop_first()
    } else {
        s
    };
    let lower = ascii_lower(body);
    if !is_f64_literal(s) {
        None
    } else if lower == "nan"@ {
        Some(0)
    } else if lower == "inf"@ || lower == "infinity"@ {
        Some(if neg { 0 } else { 255 })
    } else if neg {
        Some(0)
    } else {
        let k = exp_index(body);
        let (digits, f) = mantissa_digits(body.take(k));
        let e = if k < body.len() {
            exp_value(body.skip(k + 1))
        } else {
            0
        };
        Some(channel_at(dec_value(digits), e - f))
    }
}

/// A channel of `rgb(...)`: a percentage, or an integer clamped to `0..=255`.
pub open spec fn channel_value(s0: Seq<char>) -> Option<u8> {
    let s = trim(s0);
    if s.len() > 0 && s.last() == '%' {
        percent_channel(trim(s.drop_last()))
    } else {
        match parse_i32_spec(s) {
            Some(v) => Some(
                if v < 0 {
                    0u8
                } else if v > 255 {
                    255u8
                } else {
                    v as u8
                },
            ),
            None => None,
        }
    }
}

/// The three channels of the inside of `rgb(...)`.
pub open spec fn parse_rgb(inner: Seq<char>) -> Option<(u8, u8, u8)> {
    let parts = split_char(inner, ',');
    if parts.len() != 3 {
        None
    } else {
        match (channel_value(parts[0]), channel_value(parts[1]), channel_value(parts[2])) {
            (Some(r), Some(g), Some(b)) => Some((r, g, b)),
            _ => None,
        }
    }
}

proof fn lemma_div_shift(p: int, a: int, r: int, m: int)
    requires
        p > 0,
        m > 0,
        a >= 0,
        0 <= r < p,
    ensures
        (p * a + r) / (m * p) == a / m,
{
    let q = a / m;
    let t = a % m;
    assert(a == m * q + t && 0 <= t < m) by {
        vstd::arithmetic::div_mod::lemma_fundamental_div_mod(a, m);
    }
    assert(p * a + r == q * (m * p) + (p * t + r)) by (nonlinear_arith)
        requires
            a == m * q + t,
    ;
    assert(p * t + r < m * p) by (nonlinear_arith)
        requires
            0 <= t < m,
            0 <= r < p,
    ;
    assert(0 <= p * t) by (nonlinear_arith)
        requires
            p > 0,
            t >= 0,
    ;
    lemma_fundamental_div_mod_converse(p * a + r, m * p, q, p * t + r);
}

/// `min(dec_value(s), 100)` for a digit string.
fn capped_value(s: &Vec<char>) -> (v: u32)
    requires
        all_digits(s@),
    ensures
        v as int == if dec_value(s@) < 100 {
            dec_value(s@) as int
        } else {
            100
        },
{
    let mut v: u32 = 0;
    let mut i: usize = 0;
    while i < s.len()
        invariant
            i <= s.len(),
            all_digits(s@),
            v as int == if dec_value(s@.take(i as int)) < 100 {
                dec_value(s@.take(i as int)) as int
            } else {
                100
            },
        decreases s.len() - i,
    {
        assert(s@.take(i + 1).drop_last() =~= s@.take(i as int));
        assert(is_digit(s@[i as int]));
        let d = ((s[i] as u32) - 48) as u32;
        if v >= 100 {
            v = 100;
        } else {
            let nv = v * 10 + d;
            v = if nv < 100 {
                nv
            } else {
                100
            };
        }
        i += 1;
    }
    assert(s@.take(i as int) =~= s@);
    v
}

/// `floor(51 * dec_value(s) / 10^len)` for a digit string, by multiplying
/// from the last digit with a carry.
fn carry51(s: &Vec<char>) -> (c: u32)
    requires
        all_digits(s@),
    ensures
        c as int == (51 * dec_value(s@)) / pow10(s@.len()),
        c < 51,
{
    let n = s.len();
    let mut c: u32 = 0;
    let mut k: usize = n;
    assert(s@.skip(n as int) =~= Seq::<char>::empty());
    while k > 0
        invariant
            k <= n == s.len(),
            all_digits(s@),
            c as int == (51 * dec_value(s@.skip(k as int))) / pow10((n - k) as nat),
            c < 51,
        decreases k,
    {
        let ghost t = s@.skip(k as int);
        k -= 1;
        assert(is_digit(s@[k as int]));
        let d = ((s[k] as u32) - 48) as u32;
        proof {
            let u = s@.skip(k as int);
            assert(u =~= seq![s@[k as int]] + t);
            lemma_dec_value_concat(seq![s@[k as int]], t);
            assert(seq![s@[k as int]].drop_last() =~= Seq::<char>::empty());
            assert(dec_value(Seq::<char>::empty()) == 0);
            assert(seq![s@[k as int]].last() == s@[k as int]);
            assert(dec_value(seq![s@[k as int]]) == dec_value(Seq::<char>::empty()) * 10 + ((s@[k as int] as u32) - 48) as nat);
            assert(dec_value(seq![s@[k as int]]) == d);
            let p = pow10((n - k - 1) as nat) as int;
            assert(p > 0) by {
                lemma_pow10_pos((n - k - 1) as nat);
            }
            assert(t.len() == n - k - 1);
            let v = dec_value(t) as int;
            let q = c as int;
            let r = (51 * v) % p;
            assert(51 * v == q * p + r && 0 <= r < p) by {
                vstd::arithmetic::div_mod::lemma_fundamental_div_mod(51 * v, p);
            }
            assert(51 * (d * p + v) == p * (51 * d + q) + r) by (nonlinear_arith)
                requires
                    51 * v == q * p + r,
            ;
            lemma_div_shift(p, 51 * d + q, r, 10);
            assert(pow10((n - k) as nat) == 10 * p);
            assert(10 * p == p * 10) by (nonlinear_arith);
        }
        c = (51 * d + c) / 10;
    }
    assert(s@.skip(0) =~= s@);
    c
}

pub proof fn lemma_pow10_pos(n: nat)
    ensures
        pow10(n) > 0,
    decreases n,
{
    if n > 0 {
        lemma_pow10_pos((n - 1) as nat);
    }
}

proof fn lemma_pow10_add(a: nat, b: nat)
    ensures
        pow10(a + b) == pow10(a) * pow10(b),
    decreases a,
{
    if a == 0 {
        assert(a + b == b);
        assert(pow10(a) == 1);
    } else {
        lemma_pow10_add((a - 1) as nat, b);
        let x = pow10((a - 1) as nat);
        let y = pow10(b);
        assert(pow10(a + b) == 10 * pow10(((a - 1) as nat + b) as nat));
        assert(pow10(a) == 10 * x);
        assert(10 * (x * y) == (10 * x) * y) by (nonlinear_arith);
    }
}

proof fn lemma_pow10_mono(a: nat, b: nat)
    requires
        a <= b,
    ensures
        pow10(a) <= pow10(b),
    decreases b,
{
    if a < b {
        lemma_pow10_mono(a, (b - 1) as nat);
        lemma_pow10_pos((b - 1) as nat);
    }
}

proof fn lemma_dec_zeros(s: Seq<char>)
    requires
        forall|k: int| 0 <= k < s.len() ==> s[k] == '0',
    ensures
        dec_value(s) == 0,
    decreases s.len(),
{
    if s.len() > 0 {
        lemma_dec_zeros(s.drop_last());
        assert(s.last() == '0');
    }
}

/// A digit string that does not start with `0` has its full length.
proof fn lemma_dec_lead(z: Seq<char>)
    requires
        z.len() > 0,
        all_digits(z),
        z[0] != '0',
    ensures
        pow10((z.len() - 1) as nat) <= dec_value(z),
{
    let h = z.take(1);
    let rest = z.skip(1);
    assert(z =~= h + rest);
    lemma_dec_value_concat(h, rest);
    assert(h.drop_last() =~= Seq::<char>::empty());
    assert(is_digit(z[0]));
    assert(dec_value(h) >= 1);
    let p = pow10(rest.len());
    let v = dec_value(h);
    assert(v * p >= p) by (nonlinear_arith)
        requires
            v >= 1,
            p >= 0,
    ;
}

/// The channel for the percentage `ip.fp` given by its digits.
fn fraction_channel(ip: &Vec<char>, fp: &Vec<char>) -> (r: u8)
    requires
        all_digits(ip@),
        all_digits(fp@),
    ensures
        r == scaled_channel(
            dec_value(ip@) * pow10(fp@.len()) + dec_value(fp@),
            pow10(fp@.len()),
        ),
{
    let ghost scale = pow10(fp@.len()) as int;
    let ghost big_i = dec_value(ip@) as int;
    let ghost f = dec_value(fp@) as int;
    proof {
        lemma_pow10_pos(fp@.len());
        lemma_dec_value_bound(fp@);
    }
    let iv = capped_value(ip);
    if iv >= 100 {
        proof {
            assert(big_i * scale + f >= 100 * scale) by (nonlinear_arith)
                requires
                    big_i >= 100,
                    scale > 0,
                    f >= 0,
            ;
            assert((51 * (100 * scale) + 10 * scale) / (20 * scale) == 255) by (nonlinear_arith)
                requires
                    scale > 0,
            ;
        }
        return 255;
    }
    let c = carry51(fp);
    proof {
        assert(big_i * scale + f < 100 * scale) by (nonlinear_arith)
            requires
                big_i < 100,
                f < scale,
                scale > 0,
        ;
        let n = big_i * scale + f;
        let r = (51 * f) % scale;
        assert(51 * f == c * scale + r && 0 <= r < scale) by {
            vstd::arithmetic::div_mod::lemma_fundamental_div_mod(51 * f, scale);
        }
        assert(51 * n + 10 * scale == scale * (51 * big_i + 10 + c) + r) by (nonlinear_arith)
            requires
                n == big_i * scale + f,
                51 * f == c * scale + r,
        ;
        lemma_div_shift(scale, 51 * big_i + 10 + c, r, 20);
    }
    ((51 * iv + 10 + c) / 20) as u8
}

/// Far outside `0..=100` a percentage gives an end of the range.
proof fn lemma_channel_ends(m: nat, l: nat, t: int)
    requires
        l >= 1,
        pow10((l - 1) as nat) <= m < pow10(l),
    ensures
        l + t >= 3 ==> channel_at(m, t) == 255,
        l + t <= -1 ==> channel_at(m, t) == 0,
{
    lemma_pow10_pos(l);
    assert(pow10(2) == 100) by {
        reveal_with_fuel(pow10, 3);
    }
    if l + t >= 3 {
        let l1 = (l - 1) as nat;
        if t >= 0 {
            let tt = t as nat;
            let w = l1 + tt;
            lemma_pow10_add(l1, tt);
            lemma_pow10_mono(2, w);
            let p = pow10(tt);
            let a = pow10(l1);
            assert(m * p >= a * p) by (nonlinear_arith)
                requires
                    m >= a,
                    p >= 0,
            ;
            assert(m * p >= 100);
            assert((51 * (100 * 1) + 10 * 1) / (20 * 1) == 255) by (nonlinear_arith);
            assert(scaled_channel(m * p, 1) == 255);
            assert(channel_at(m, t) == scaled_channel(m * p, 1));
        } else {
            let u = (-t) as nat;
            let w = 2 + u;
            let s = pow10(u);
            lemma_pow10_pos(u);
            lemma_pow10_add(2, u);
            lemma_pow10_mono(w, l1);
            assert(m >= 100 * s);
            assert((51 * (100 * s) + 10 * s) / (20 * s) == 255) by (nonlinear_arith)
                requires
                    s > 0,
            ;
            assert(scaled_channel(m, s) == 255);
            assert(channel_at(m, t) == scaled_channel(m, s));
        }
    } else if l + t <= -1 {
        let u = (-t) as nat;
        let s = pow10(u);
        let l2 = l + 1;
        lemma_pow10_mono(l2, u);
        assert(pow10(l2) == 10 * pow10(l));
        assert((51 * m + 10 * s) / (20 * s) == 0) by (nonlinear_arith)
            requires
                m < pow10(l),
                s >= 10 * pow10(l),
                pow10(l) > 0,
        ;
        assert(m < 100 * s);
        assert(channel_at(m, t) == scaled_channel(m, s));
    }
}

/// Exponents beyond this bound put a percentage far outside `0..=100`.
const EXP_CAP: u128 = 0x1_0000_0000_0000_0000_0000;

/// `min(dec_value(s), EXP_CAP)` for a digit string.
fn capped_exponent(s: &Vec<char>) -> (v: u128)
    requires
        all_digits(s@),
    ensures
        v as int == if dec_value(s@) < EXP_CAP {
            dec_value(s@) as int
        } else {
            EXP_CAP as int
        },
{
    let mut v: u128 = 0;
    let mut i: usize = 0;
    while i < s.len()
        invariant
            i <= s.len(),
            all_digits(s@),
            v as int == if dec_value(s@.take(i as int)) < EXP_CAP {
                dec_value(s@.take(i as int)) as int
            } else {
                EXP_CAP as int
            },
        decreases s.len() - i,
    {
        assert(s@.take(i + 1).drop_last() =~= s@.take(i as int));
        assert(is_digit(s@[i as int]));
        let d = ((s[i] as u32) - 48) as u128;
        if v >= EXP_CAP {
            v = EXP_CAP;
        } else {
            let nv = v * 10 + d;
            v = if nv < EXP_CAP {
                nv
            } else {
                EXP_CAP
            };
        }
        i += 1;
    }
    assert(s@.take(i as int) =~= s@);
    v
}

fn percent_channel_exec(s: &Vec<char>) -> (r: Option<u8>)
    ensures
        r == percent_channel(s@),
{
    if !crate::optimizer::f64_literal(s) {
        return None;
    }
    let neg = s.len() > 0 && s[0] == '-';
    let start: usize = if s.len() > 0 && (s[0] == '+' || s[0] == '-') {
        1
    } else {
        0
    };
    let body = slice_vec(s, start, s.len());
    assert(body@ =~= (if s@.len() > 0 && (s@[0] == '+' || s@[0] == '-') {
        s@.drop_first()
    } else {
        s@
    }));
    let lower = ascii_lowercase_vec(&body);
    if eq_str(&lower, "nan") {
        return Some(0);
    }
    if eq_str(&lower, "inf") || eq_str(&lower, "infinity") {
        return Some(
            if neg {
                0
            } else {
                255
            },
        );
    }
    if neg {
        return Some(0);
    }
    assert(is_decimal_number(body@));
    let k = crate::optimizer::exp_index_exec(&body);
    let m = slice_vec(&body, 0, k);
    assert(m@ =~= body@.take(k as int));
    assert(is_mantissa(m@)) by {
        if k >= body.len() {
            assert(m@ =~= body@);
        }
    }
    let d = first_index_of(&m, '.');
    let mut digits = slice_vec(&m, 0, d);
    let f: usize = if d < m.len() {
        let b = slice_vec(&m, d + 1, m.len());
        append(&mut digits, &b);
        m.len() - d - 1
    } else {
        0
    };
    assert(digits@ == mantissa_digits(m@).0 && f as int == mantissa_digits(m@).1) by {
        if d >= m.len() {
            assert(m@.take(d as int) =~= m@);
        }
    }
    assert(all_digits(digits@)) by {
        if d < m.len() {
            assert forall|j: int| 0 <= j < digits@.len() implies is_digit(#[trigger] digits@[j]) by {
                if j >= d {
                    assert(digits@[j] == m@.skip(d + 1)[j - d]);
                } else {
                    assert(digits@[j] == m@.take(d as int)[j]);
                }
            }
        } else {
            assert(m@.take(d as int) =~= m@);
        }
    }
    // The exponent, its magnitude capped.
    let mut eneg = false;
    let mut emag: u128 = 0;
    let ghost mut ey: Seq<char> = Seq::<char>::empty();
    if k < body.len() {
        let x = slice_vec(&body, k + 1, body.len());
        assert(x@ =~= body@.skip(k + 1));
        eneg = x.len() > 0 && x[0] == '-';
        let st: usize = if x.len() > 0 && (x[0] == '+' || x[0] == '-') {
            1
        } else {
            0
        };
        let y = slice_vec(&x, st, x.len());
        assert(y@ =~= (if x@.len() > 0 && (x@[0] == '+' || x@[0] == '-') {
            x@.drop_first()
        } else {
            x@
        }));
        emag = capped_exponent(&y);
        proof {
            ey = y@;
        }
    }
    let ghost e: int = if k < body.len() {
        exp_value(body@.skip(k + 1))
    } else {
        0
    };
    assert(e == (if eneg {
        -(dec_value(ey) as int)
    } else {
        dec_value(ey) as int
    }));
    assert(emag as int == if dec_value(ey) < EXP_CAP {
        dec_value(ey) as int
    } else {
        EXP_CAP as int
    }) by {
        if k >= body.len() {
            assert(dec_value(Seq::<char>::empty()) == 0);
        }
    }
    assert(percent_channel(s@) == Some(channel_at(dec_value(digits@), e - f)));
    Some(digits_channel(&digits, f, eneg, emag, Ghost(e)))
}

/// `|e|`, or `EXP_CAP` where it is larger.
spec fn capped_magnitude(e: int) -> int {
    let a = if e < 0 {
        -e
    } else {
        e
    };
    if a < EXP_CAP {
        a
    } else {
        EXP_CAP as int
    }
}

/// The channel for the percentage `dec_value(digits) * 10^(e - f)`, the
/// exponent `e` given by its sign and its magnitude capped at `EXP_CAP`.
#[verifier::spinoff_prover]
fn digits_channel(digits: &Vec<char>, f: usize, eneg: bool, emag: u128, Ghost(e): Ghost<int>) -> (r: u8)
    requires
        all_digits(digits@),
        eneg ==> e <= 0,
        !eneg ==> e >= 0,
        emag as int == capped_magnitude(e),
    ensures
        r == channel_at(dec_value(digits@), e - f),
{
    // Leading zeros do not count.
    let mut lz: usize = 0;
    while lz < digits.len() && digits[lz] == '0'
        invariant
            lz <= digits.len(),
            forall|j: int| 0 <= j < lz ==> digits@[j] == '0',
        decreases digits.len() - lz,
    {
        lz += 1;
    }
    let z = slice_vec(&digits, lz, digits.len());
    let ghost mv = dec_value(z@);
    let ghost t = e - f;
    proof {
        assert(digits@ =~= digits@.take(lz as int) + z@);
        lemma_dec_value_concat(digits@.take(lz as int), z@);
        let h = digits@.take(lz as int);
        assert forall|k: int| 0 <= k < h.len() implies h[k] == '0' by {
            assert(h[k] == digits@[k]);
        }
        lemma_dec_zeros(h);
        assert(dec_value(h) * pow10(z@.len()) == 0);
        assert(dec_value(digits@) == mv);
        assert(all_digits(z@));
    }
    if z.len() == 0 {
        proof {
            assert(mv == 0);
            if t >= 0 {
                assert(0 * pow10(t as nat) == 0);
            } else {
                let sc = pow10((-t) as nat);
                lemma_pow10_pos((-t) as nat);
                assert((51 * 0 + 10 * sc) / (20 * sc) == 0) by (nonlinear_arith)
                    requires
                        sc > 0,
                ;
            }
        }
        return 0;
    }
    proof {
        lemma_dec_lead(z@);
        lemma_dec_value_bound(z@);
        lemma_channel_ends(mv, z@.len(), t);
    }
    let ev: i128 = if eneg {
        -(emag as i128)
    } else {
        emag as i128
    };
    let p: i128 = z.len() as i128 + ev - f as i128;
    if p >= 3 {
        return 255;
    }
    if p <= -1 {
        return 0;
    }
    assert(p == z@.len() + t);
    let pu = p as usize;
    if pu >= z.len() {
        let zv = capped_value(&z);
        proof {
            lemma_pow10_mono(z@.len(), 2);
            assert(pow10(2) == 100) by {
                reveal_with_fuel(pow10, 3);
            }
            lemma_pow10_add(z@.len(), t as nat);
            lemma_pow10_mono((z@.len() + t) as nat, 2);
            let q = pow10(t as nat);
            assert(mv * q < pow10(z@.len()) * q) by (nonlinear_arith)
                requires
                    mv < pow10(z@.len()),
                    q > 0,
            ;
            lemma_pow10_pos(t as nat);
        }
        let ghost tt = t as nat;
        assert(zv == mv);
        let v: u32 = if pu == z.len() {
            assert(tt == 0);
            assert(pow10(tt) == 1);
            assert(mv * pow10(tt) == mv) by (nonlinear_arith)
                requires
                    pow10(tt) == 1,
            ;
            zv
        } else if pu == z.len() + 1 {
            assert(tt == 1);
            assert(pow10(tt) == 10) by {
                reveal_with_fuel(pow10, 2);
            }
            assert(mv * pow10(tt) == mv * 10) by (nonlinear_arith)
                requires
                    pow10(tt) == 10,
            ;
            zv * 10
        } else {
            assert(tt == 2);
            assert(mv * pow10(tt) == mv * 100) by (nonlinear_arith)
                requires
                    pow10(tt) == 100,
            ;
            zv * 100
        };
        assert(v == mv * pow10(tt));
        ((51 * v + 10) / 20) as u8
    } else {
        let ip = slice_vec(&z, 0, pu);
        let fp = slice_vec(&z, pu, z.len());
        proof {
            assert(z@ =~= ip@ + fp@);
            lemma_dec_value_concat(ip@, fp@);
            assert(fp@.len() == -t);
        }
        fraction_channel(&ip, &fp)
    }
}

fn channel(s0: &Vec<char>) -> (r: Option<u8>)
    ensures
        r == channel_value(s0@),
{
    let s = trim_vec(s0);
    if s.len() > 0 && s[s.len() - 1] == '%' {
        let body = slice_vec(&s, 0, s.len() - 1);
        assert(body@ =~= s@.drop_last());
        let t = trim_vec(&body);
        percent_channel_exec(&t)
    } else {
        match parse_i32(&s) {
            Some(n) => Some(
                if n < 0 {
                    0u8
                } else if n > 255 {
                    255u8
                } else {
                    n as u8
                },
            ),
            None => None,
        }
    }
}

fn parse_rgb_func(inner: &Vec<char>) -> (r: Option<(u8, u8, u8)>)
    ensures
        r == parse_rgb(inner@),
{
    let parts = split_vec(inner, ',');
    let ghost ps = parts@.map_values(|v: Vec<char>| v@);
    if parts.len() != 3 {
        return None;
    }
    assert(ps[0] == parts@[0]@ && ps[1] == parts@[1]@ && ps[2] == parts@[2]@);
    let r = match channel(&parts[0]) {
        Some(x) => x,
        None => return None,
    };
    let g = match channel(&parts[1]) {
        Some(x) => x,
        None => return None,
    };
    let b = match channel(&parts[2]) {
        Some(x) => x,
        None => return None,
    };
    Some((r, g, b))
}

// ─── Simplification ───────────────────────────────────────────────────────────

pub open spec fn rgb_name() -> Seq<char> {
    seq!['r', 'g', 'b']
}

/// What `simplify_color` does on `value`: `None` where a byte slice
/// falls off a character boundary, else the simplified text.
pub open spec fn simplify_color_outcome(value: Seq<char>) -> Option<Seq<char>> {
    let v = trim(value);
    match parse_hex_outcome(v) {
        None => None,
        Some(Some(h)) => Some(h),
        Some(None) => {
            let lower = spec_to_lowercase(v);
            match keyword_rgb(lower) {
                Some(c) => {
                    let hex = rgb_hex(c.0, c.1, c.2);
                    Some(
                        if utf8_len(hex) <= utf8_len(v) {
                            hex
                        } else {
                            lower
                        },
                    )
                },
                None => match strip_func_outcome(v, rgb_name()) {
                    None => None,
                    Some(None) => Some(v),
                    Some(Some(inner)) => match parse_rgb(inner) {
                        Some(c) => Some(rgb_hex(c.0, c.1, c.2)),
                        None => Some(v),
                    },
                },
            }
        },
    }
}

/// An ASCII value with no whitespace around it that holds `{`, such as one
/// with a `{{...}}` substitution variable in it.
pub open spec fn brace_value(value: Seq<char>) -> bool {
    &&& all_ascii(value)
    &&& trim(value) == value
    &&& value.contains('{')
}

fn simplify_color_opt(value: &Vec<char>) -> (r: Option<Vec<char>>)
    ensures
        match r {
            Some(x) => simplify_color_outcome(value@) == Some(x@),
            None => simplify_color_outcome(value@) is None,
        },
        brace_value(value@) ==> (r matches Some(x) ==> x@ == value@),
{
    let v = trim_vec(value);
    match try_parse_hex(&v) {
        None => return None,
        Some(Some(h)) => {
            proof {
                if brace_value(value@) {
                    lemma_hex_no_brace(v@);
                }
            }
            return Some(h);
        },
        Some(None) => {},
    }
    let lower = lowercase_vec(&v);
    match keyword_lookup(&lower) {
        Some((r, g, b)) => {
            let hex = rgb_hex_vec(r, g, b);
            proof {
                lemma_rgb_hex_ascii(r, g, b);
                if brace_value(value@) {
                    let i = choose|i: int| 0 <= i < v@.len() && v@[i] == '{';
                    assert(lower@[i] == '{');
                    lemma_keyword_no_brace(lower@);
                }
            }
            let vl = byte_len_min(&v, 8);
            if (hex.len() as u64) <= vl {
                Some(hex)
            } else {
                Some(lower)
            }
        },
        None => {
            let mut name: Vec<char> = Vec::new();
            name.push('r');
            name.push('g');
            name.push('b');
            assert(name@ =~= rgb_name());
            match strip_func(&v, &name) {
                None => {
                    proof {
                        assert(trim(v@) == v@) by {
                            crate::text::lemma_trim_idempotent(value@);
                        }
                    }
                    None
                },
                Some(None) => {
                    proof {
                        crate::text::lemma_trim_idempotent(value@);
                    }
                    Some(v)
                },
                Some(Some(inner)) => {
                    proof {
                        crate::text::lemma_trim_idempotent(value@);
                        if brace_value(value@) {
                            lemma_rgb_no_brace(v@);
                        }
                    }
                    match parse_rgb_func(&inner) {
                        Some((r, g, b)) => Some(rgb_hex_vec(r, g, b)),
                        None => Some(v),
                    }
                },
            }
        },
    }
}

/// Parse and simplify a color value. Returns the simplified form, or the
/// input unchanged where it cannot be simplified.
/// Substitution variables ({{...}}) are returned as-is.
pub fn simplify_color(value: &str) -> (r: String)
    requires
        simplify_color_outcome(value@) is Some,
    ensures
        simplify_color_outcome(value@) == Some(r@),
        brace_value(value@) ==> r@ == value@,
{
    let v = chars_of(value);
    match simplify_color_opt(&v) {
        Some(x) => string_of(&x),
        None => string_of(&v),
    }
}

/// `simplify_color` on every input: `None` exactly where `simplify_color`
/// has no result: a byte slice off a character boundary.
pub fn try_simplify_color(value: &str) -> (r: Option<String>)
    ensures
        match r {
            Some(x) => simplify_color_outcome(value@) == Some(x@),
            None => simplify_color_outcome(value@) is None,
        },
        brace_value(value@) ==> (r matches Some(x) ==> x@ == value@),
{
    let v = chars_of(value);
    match simplify_color_opt(&v) {
        Some(_) => Some(simplify_color(value)),
        None => None,
    }
}


// ─── Values that hold `{` ─────────────────────────────────────────────────────

proof fn lemma_keywords_a_plain()
    ensures
        forall|i: int| 0 <= i < keywords_a().len() ==> !(#[trigger] keywords_a()[i]).0@.contains('{'),
{
    reveal_strlit("aliceblue");
    reveal_strlit("antiquewhite");
    reveal_strlit("aqua");
    reveal_strlit("aquamarine");
    reveal_strlit("azure");
    reveal_strlit("beige");
    reveal_strlit("bisque");
    reveal_strlit("black");
    reveal_strlit("blanchedalmond");
    reveal_strlit("blue");
    reveal_strlit("blueviolet");
    reveal_strlit("brown");
    reveal_strlit("burlywood");
    reveal_strlit("cadetblue");
    reveal_strlit("chartreuse");
    reveal_strlit("chocolate");
    reveal_strlit("coral");
    reveal_strlit("cornflowerblue");
    reveal_strlit("cornsilk");
    reveal_strlit("crimson");
    reveal_strlit("cyan");
    reveal_strlit("darkblue");
    reveal_strlit("darkcyan");
    reveal_strlit("darkgoldenrod");
    reveal_strlit("darkgray");
}

proof fn lemma_keywords_b_plain()
    ensures
        forall|i: int| 0 <= i < keywords_b().len() ==> !(#[trigger] keywords_b()[i]).0@.contains('{'),
{
    reveal_strlit("darkgreen");
    reveal_strlit("darkgrey");
    reveal_strlit("darkkhaki");
    reveal_strlit("darkmagenta");
    reveal_strlit("darkolivegreen");
    reveal_strlit("darkorange");
    reveal_strlit("darkorchid");
    reveal_strlit("darkred");
    reveal_strlit("darksalmon");
    reveal_strlit("darkseagreen");
    reveal_strlit("darkslateblue");
    reveal_strlit("darkslategray");
    reveal_strlit("darkslategrey");
    reveal_strlit("darkturquoise");
    reveal_strlit("darkviolet");
    reveal_strlit("deeppink");
    reveal_strlit("deepskyblue");
    reveal_strlit("dimgray");
    reveal_strlit("dimgrey");
    reveal_strlit("dodgerblue");
    reveal_strlit("firebrick");
    reveal_strlit("floralwhite");
    reveal_strlit("forestgreen");
    reveal_strlit("fuchsia");
    reveal_strlit("gainsboro");
}

proof fn lemma_keywords_c_plain()
    ensures
        forall|i: int| 0 <= i < keywords_c().len() ==> !(#[trigger] keywords_c()[i]).0@.contains('{'),
{
    reveal_strlit("ghostwhite");
    reveal_strlit("gold");
    reveal_strlit("goldenrod");
    reveal_strlit("gray");
    reveal_strlit("green");
    reveal_strlit("greenyellow");
    reveal_strlit("grey");
    reveal_strlit("honeydew");
    reveal_strlit("hotpink");
    reveal_strlit("indianred");
    reveal_strlit("indigo");
    reveal_strlit("ivory");
    reveal_strlit("khaki");
    reveal_strlit("lavender");
    reveal_strlit("lavenderblush");
    reveal_strlit("lawngreen");
    reveal_strlit("lemonchiffon");
    reveal_strlit("lightblue");
    reveal_strlit("lightcoral");
    reveal_strlit("lightcyan");
    reveal_strlit("lightgoldenrodyellow");
    reveal_strlit("lightgray");
    reveal_strlit("lightgreen");
    reveal_strlit("lightgrey");
    reveal_strlit("lightpink");
}

proof fn lemma_keywords_d_plain()
    ensures
        forall|i: int| 0 <= i < keywords_d().len() ==> !(#[trigger] keywords_d()[i]).0@.contains('{'),
{
    reveal_strlit("lightsalmon");
    reveal_strlit("lightseagreen");
    reveal_strlit("lightskyblue");
    reveal_strlit("lightslategray");
    reveal_strlit("lightslategrey");
    reveal_strlit("lightsteelblue");
    reveal_strlit("lightyellow");
    reveal_strlit("lime");
    reveal_strlit("limegreen");
    reveal_strlit("linen");
    reveal_strlit("magenta");
    reveal_strlit("maroon");
    reveal_strlit("mediumaquamarine");
    reveal_strlit("mediumblue");
    reveal_strlit("mediumorchid");
    reveal_strlit("mediumpurple");
    reveal_strlit("mediumseagreen");
    reveal_strlit("mediumslateblue");
    reveal_strlit("mediumspringgreen");
    reveal_strlit("mediumturquoise");
    reveal_strlit("mediumvioletred");
    reveal_strlit("midnightblue");
    reveal_strlit("mintcream");
    reveal_strlit("mistyrose");
    reveal_strlit("moccasin");
}

proof fn lemma_keywords_e_plain()
    ensures
        forall|i: int| 0 <= i < keywords_e().len() ==> !(#[trigger] keywords_e()[i]).0@.contains('{'),
{
    reveal_strlit("navajowhite");
    reveal_strlit("navy");
    reveal_strlit("oldlace");
    reveal_strlit("olive");
    reveal_strlit("olivedrab");
    reveal_strlit("orange");
    reveal_strlit("orangered");
    reveal_strlit("orchid");
    reveal_strlit("palegoldenrod");
    reveal_strlit("palegreen");
    reveal_strlit("paleturquoise");
    reveal_strlit("palevioletred");
    reveal_strlit("papayawhip");
    reveal_strlit("peachpuff");
    reveal_strlit("peru");
    reveal_strlit("pink");
    reveal_strlit("plum");
    reveal_strlit("powderblue");
    reveal_strlit("purple");
    reveal_strlit("rebeccapurple");
    reveal_strlit("red");
    reveal_strlit("rosybrown");
    reveal_strlit("royalblue");
    reveal_strlit("saddlebrown");
    reveal_strlit("salmon");
}

proof fn lemma_keywords_f_plain()
    ensures
        forall|i: int| 0 <= i < keywords_f().len() ==> !(#[trigger] keywords_f()[i]).0@.contains('{'),
{
    reveal_strlit("sandybrown");
    reveal_strlit("seagreen");
    reveal_strlit("seashell");
    reveal_strlit("sienna");
    reveal_strlit("silver");
    reveal_strlit("skyblue");
    reveal_strlit("slateblue");
    reveal_strlit("slategray");
    reveal_strlit("slategrey");
    reveal_strlit("snow");
    reveal_strlit("springgreen");
    reveal_strlit("steelblue");
    reveal_strlit("tan");
    reveal_strlit("teal");
    reveal_strlit("thistle");
    reveal_strlit("tomato");
    reveal_strlit("turquoise");
    reveal_strlit("violet");
    reveal_strlit("wheat");
    reveal_strlit("white");
    reveal_strlit("whitesmoke");
    reveal_strlit("yellow");
    reveal_strlit("yellowgreen");
}

proof fn lemma_lookup_from_none(t: Seq<(&'static str, (u8, u8, u8))>, name: Seq<char>, i: int)
    requires
        0 <= i,
        forall|k: int| i <= k < t.len() ==> (#[trigger] t[k]).0@ != name,
    ensures
        lookup_from(t, name, i) is None,
    decreases t.len() - i,
{
    if i < t.len() {
        lemma_lookup_from_none(t, name, i + 1);
    }
}

/// No color keyword holds `{`.
proof fn lemma_keyword_no_brace(name: Seq<char>)
    requires
        name.contains('{'),
    ensures
        keyword_rgb(name) is None,
{
    lemma_keywords_a_plain();
    lemma_keywords_b_plain();
    lemma_keywords_c_plain();
    lemma_keywords_d_plain();
    lemma_keywords_e_plain();
    lemma_keywords_f_plain();
    let t = keyword_table();
    let a = keywords_a();
    let b = keywords_b();
    let c = keywords_c();
    let d = keywords_d();
    let e = keywords_e();
    let f = keywords_f();
    assert forall|i: int| 0 <= i < t.len() implies (#[trigger] t[i]).0@ != name by {
        let x = if i < a.len() {
            a[i]
        } else if i < a.len() + b.len() {
            b[i - a.len()]
        } else if i < a.len() + b.len() + c.len() {
            c[i - a.len() - b.len()]
        } else if i < a.len() + b.len() + c.len() + d.len() {
            d[i - a.len() - b.len() - c.len()]
        } else if i < a.len() + b.len() + c.len() + d.len() + e.len() {
            e[i - a.len() - b.len() - c.len() - d.len()]
        } else {
            f[i - a.len() - b.len() - c.len() - d.len() - e.len()]
        };
        assert(t[i] == x);
        assert(!x.0@.contains('{'));
    }
    lemma_lookup_from_none(t, name, 0);
}


proof fn lemma_trim_start_keeps(s: Seq<char>, i: int)
    requires
        0 <= i < s.len(),
        !is_ws(s[i]),
    ensures
        trim_start(s).contains(s[i]),
    decreases s.len(),
{
    if s.len() > 0 && is_ws(s[0]) {
        assert(s.drop_first()[i - 1] == s[i]);
        lemma_trim_start_keeps(s.drop_first(), i - 1);
    } else {
        assert(trim_start(s)[i] == s[i]);
    }
}

proof fn lemma_trim_end_keeps(s: Seq<char>, i: int)
    requires
        0 <= i < s.len(),
        !is_ws(s[i]),
    ensures
        trim_end(s).contains(s[i]),
    decreases s.len(),
{
    if s.len() > 0 && is_ws(s.last()) {
        assert(s.drop_last()[i] == s[i]);
        lemma_trim_end_keeps(s.drop_last(), i);
    } else {
        assert(trim_end(s)[i] == s[i]);
    }
}

/// Trimming keeps every character that is not whitespace.
proof fn lemma_trim_keeps(s: Seq<char>, c: char)
    requires
        !is_ws(c),
        s.contains(c),
    ensures
        trim(s).contains(c),
{
    let i = choose|i: int| 0 <= i < s.len() && s[i] == c;
    lemma_trim_start_keeps(s, i);
    let t = trim_start(s);
    let j = choose|j: int| 0 <= j < t.len() && t[j] == c;
    lemma_trim_end_keeps(t, j);
}

/// Splitting keeps every character but the separator in some piece.
proof fn lemma_split_keeps(s: Seq<char>, sep: char, cur: Seq<char>, c: char)
    requires
        c != sep,
        s.contains(c) || cur.contains(c),
    ensures
        exists|j: int|
            0 <= j < split_from(s, sep, cur).len() && (#[trigger] split_from(s, sep, cur)[j]).contains(c),
    decreases s.len(),
{
    let r = split_from(s, sep, cur);
    if s.len() == 0 {
        assert(r[0] == cur);
    } else if s[0] == sep {
        let rest = split_from(s.drop_first(), sep, seq![]);
        assert(r == seq![cur] + rest);
        if cur.contains(c) {
            assert(r[0] == cur);
        } else {
            let i = choose|i: int| 0 <= i < s.len() && s[i] == c;
            assert(s.drop_first()[i - 1] == c);
            lemma_split_keeps(s.drop_first(), sep, seq![], c);
            let j = choose|j: int| 0 <= j < rest.len() && (#[trigger] rest[j]).contains(c);
            assert(r[j + 1] == rest[j]);
        }
    } else {
        let cur2 = cur.push(s[0]);
        if cur.contains(c) {
            let k = choose|k: int| 0 <= k < cur.len() && cur[k] == c;
            assert(cur2[k] == c);
        } else {
            let i = choose|i: int| 0 <= i < s.len() && s[i] == c;
            if i == 0 {
                assert(cur2[cur.len() as int] == c);
            } else {
                assert(s.drop_first()[i - 1] == c);
            }
        }
        lemma_split_keeps(s.drop_first(), sep, cur2, c);
    }
}

proof fn lemma_exp_index_bound(s: Seq<char>)
    ensures
        0 <= exp_index(s) <= s.len(),
        exp_index(s) < s.len() ==> (s[exp_index(s)] == 'e' || s[exp_index(s)] == 'E'),
    decreases s.len(),
{
    if s.len() > 0 && s[0] != 'e' && s[0] != 'E' {
        lemma_exp_index_bound(s.drop_first());
    }
}

proof fn lemma_mantissa_no_brace(m: Seq<char>, i: int)
    requires
        0 <= i < m.len(),
        m[i] == '{',
    ensures
        !is_mantissa(m),
{
    let d = first_index(m, '.');
    crate::style_block::lemma_first_index_bound(m, '.');
    if d >= m.len() {
        assert(!is_digit(m[i]));
    } else if i < d {
        assert(m.take(d)[i] == '{');
        assert(!is_digit(m.take(d)[i]));
    } else {
        assert(i != d);
        assert(m.skip(d + 1)[i - d - 1] == '{');
        assert(!is_digit(m.skip(d + 1)[i - d - 1]));
    }
}

/// No numeral `str::parse::<f64>` accepts holds `{`.
proof fn lemma_f64_no_brace(s: Seq<char>)
    requires
        s.contains('{'),
    ensures
        !is_f64_literal(s),
{
    let i = choose|i: int| 0 <= i < s.len() && s[i] == '{';
    let signed = s.len() > 0 && (s[0] == '+' || s[0] == '-');
    let body = if signed {
        s.drop_first()
    } else {
        s
    };
    let q = if signed {
        i - 1
    } else {
        i
    };
    assert(0 <= q < body.len() && body[q] == '{');
    let lower = ascii_lower(body);
    assert(lower[q] == '{');
    reveal_strlit("inf");
    reveal_strlit("infinity");
    reveal_strlit("nan");
    assert(lower != "inf"@ && lower != "infinity"@ && lower != "nan"@) by {
        assert(lower.len() == body.len());
        if lower == "inf"@ || lower == "nan"@ {
            assert(q == 0 || q == 1 || q == 2);
        } else if lower == "infinity"@ {
            assert(0 <= q < 8);
            assert(q == 0 || q == 1 || q == 2 || q == 3 || q == 4 || q == 5 || q == 6 || q == 7);
        }
    }
    lemma_exp_index_bound(body);
    let k = exp_index(body);
    if k >= body.len() {
        lemma_mantissa_no_brace(body, q);
    } else if q < k {
        assert(body.take(k)[q] == '{');
        lemma_mantissa_no_brace(body.take(k), q);
    } else {
        assert(q != k);
        let x = body.skip(k + 1);
        assert(x[q - k - 1] == '{');
        let y = if x.len() > 0 && (x[0] == '+' || x[0] == '-') {
            x.drop_first()
        } else {
            x
        };
        if x.len() > 0 && (x[0] == '+' || x[0] == '-') {
            assert(y[q - k - 2] == '{');
            assert(!is_digit(y[q - k - 2]));
        } else {
            assert(!is_digit(y[q - k - 1]));
        }
    }
}

/// A channel of `rgb(...)` that holds `{` does not parse.
proof fn lemma_channel_no_brace(part: Seq<char>)
    requires
        part.contains('{'),
    ensures
        channel_value(part) is None,
{
    lemma_trim_keeps(part, '{');
    let s = trim(part);
    let i = choose|i: int| 0 <= i < s.len() && s[i] == '{';
    if s.len() > 0 && s.last() == '%' {
        assert(s.drop_last()[i] == '{');
        lemma_trim_keeps(s.drop_last(), '{');
        lemma_f64_no_brace(trim(s.drop_last()));
    } else {
        let signed = s.len() > 0 && (s[0] == '+' || s[0] == '-');
        let body = if signed {
            s.drop_first()
        } else {
            s
        };
        if signed {
            assert(body[i - 1] == '{');
            assert(!is_digit(body[i - 1]));
        } else {
            assert(!is_digit(body[i]));
        }
    }
}

proof fn lemma_ascii_char_at_byte(s: Seq<char>, k: int)
    requires
        all_ascii(s),
        0 <= k <= s.len(),
    ensures
        char_at_byte(s, k) == Some(k),
{
    lemma_char_at_byte_take(s, k);
    assert forall|i: int| 0 <= i < s.take(k).len() implies (#[trigger] s.take(k)[i] as u32) < 0x80 by {
        assert(s.take(k)[i] == s[i]);
    }
    lemma_utf8_len_ascii(s.take(k));
}

proof fn lemma_radix16_no_brace(s: Seq<char>)
    requires
        s.contains('{'),
    ensures
        radix16_u8(s) is None,
{
    let i = choose|i: int| 0 <= i < s.len() && s[i] == '{';
    if s.len() > 0 && s[0] == '+' {
        assert(s.drop_first()[i - 1] == '{');
        assert(hex_val(s.drop_first()[i - 1]) is None);
    } else {
        assert(hex_val(s[i]) is None);
    }
}

/// An ASCII value that holds `{` is no hex color.
proof fn lemma_hex_no_brace(v: Seq<char>)
    requires
        all_ascii(v),
        v.contains('{'),
    ensures
        !(parse_hex_outcome(v) matches Some(Some(_))),
{
    if v.len() > 0 && v[0] == '#' {
        let h = v.drop_first();
        let i = choose|i: int| 0 <= i < v.len() && v[i] == '{';
        let q = i - 1;
        assert(h[q] == '{');
        assert(all_ascii(h)) by {
            assert forall|j: int| 0 <= j < h.len() implies (h[j] as u32) < 128 by {
                assert(h[j] == v[j + 1]);
            }
        }
        assert forall|j: int| 0 <= j < h.len() implies (#[trigger] h[j] as u32) < 0x80 by {}
        lemma_utf8_len_ascii(h);
        if h.len() == 3 || h.len() == 6 {
            let w: int = if h.len() == 3 {
                1
            } else {
                2
            };
            let c = q / w;
            assert(0 <= c < 3 && c * w <= q < (c + 1) * w) by (nonlinear_arith)
                requires
                    w == 1 || w == 2,
                    0 <= q < 3 * w,
                    c == q / w,
            ;
            lemma_ascii_char_at_byte(h, c * w);
            lemma_ascii_char_at_byte(h, (c + 1) * w);
            let sub = h.subrange(c * w, (c + 1) * w);
            assert(sub[q - c * w] == '{');
            let piece = if w == 1 {
                sub + sub
            } else {
                sub
            };
            assert(hex_piece(h, w, c) == Some(piece));
            assert(piece[q - c * w] == '{');
            lemma_radix16_no_brace(piece);
        }
    }
}

/// `rgb(...)` around a value that holds `{` does not parse.
proof fn lemma_rgb_no_brace(v: Seq<char>)
    requires
        all_ascii(v),
        v.contains('{'),
        trim(v) == v,
        spec_to_lowercase(v) == ascii_lower(v),
    ensures
        strip_func_outcome(v, rgb_name()) matches Some(Some(inner)) ==> parse_rgb(inner) is None,
{
    let prefix = rgb_name().push('(');
    let lower = ascii_lower(v);
    if starts_with(lower, prefix) && v.len() > 0 && v.last() == ')' {
        let n = v.len() as int;
        let i = choose|i: int| 0 <= i < v.len() && v[i] == '{';
        assert(lower[i] == '{');
        assert(i >= 4) by {
            if i < 4 {
                assert(lower.subrange(0, 4)[i] == prefix[i]);
            }
        }
        assert(lower[3] == '(');
        assert(n >= 5);
        assert forall|j: int| 0 <= j < prefix.len() implies (#[trigger] prefix[j] as u32) < 0x80 by {}
        lemma_utf8_len_ascii(prefix);
        assert forall|j: int| 0 <= j < v.len() implies (#[trigger] v[j] as u32) < 0x80 by {}
        lemma_utf8_len_ascii(v);
        lemma_ascii_char_at_byte(v, 4);
        lemma_ascii_char_at_byte(v, n - 1);
        let inner = v.subrange(4, n - 1);
        assert(byte_slice(v, utf8_len(prefix) as int, utf8_len(v) - 1) == Some(inner));
        assert(i < n - 1);
        assert(inner[i - 4] == '{');
        lemma_split_keeps(inner, ',', seq![], '{');
        let parts = split_char(inner, ',');
        let j = choose|j: int| 0 <= j < parts.len() && (#[trigger] parts[j]).contains('{');
        lemma_channel_no_brace(parts[j]);
    }
}

} // verus!

//! The optimizer's options and statistics, and the text-level helpers of
//! serialization: escaping, indentation, whitespace collapsing, ID reference
//! collection and remapping, and unit stripping.
use vstd::prelude::*;
use crate::style_block::{renamed, renamed_id};
use crate::ids::entries_view;
use crate::text::{
    all_digits, ascii_lower, ascii_lowercase_vec, ends_with, ends_with_vec,
    append, chars_of, contains, contains_vec, find_from, find_vec, first_index, first_index_of,
    has_char, in_names, is_whitespace, is_ws, lemma_find_from, matches_at, names_contain, replace_all,
    replace_vec, slice_vec, lemma_replace_no_match, string_of, trim, trim_vec,
};

verus! {

// ─── Public types ─────────────────────────────────────────────────────────────

#[derive(Debug, Clone, Copy, PartialEq, Eq, Structural)]
pub enum Indent {
    NoIndent,
    Space,
    Tab,
}

#[derive(Debug, Clone)]
pub struct ScourOptions {
    pub precision: u8,
    pub c_precision: u8,
    pub simplify_colors: bool,
    pub style_to_xml: bool,
    pub group_collapsing: bool,
    pub create_groups: bool,
    pub keep_editor_data: bool,
    pub keep_unreferenced_defs: bool,
    pub renderer_workaround: bool,
    pub strip_xml_prolog: bool,
    pub remove_titles: bool,
    pub remove_descriptions: bool,
    pub remove_metadata: bool,
    pub strip_comments: bool,
    pub embed_rasters: bool,
    pub enable_viewboxing: bool,
    pub indent: Indent,
    pub nindent: u8,
    pub no_line_breaks: bool,
    pub strip_xml_space: bool,
    pub strip_ids: bool,
    pub shorten_ids: bool,
    pub shorten_ids_prefix: Option<String>,
    pub protect_ids_noninkscape: bool,
    pub protect_ids_list: Vec<String>,
    pub protect_ids_prefix: Option<String>,
    pub error_on_flowtext: bool,
    pub simplify_paths: bool,
    pub combine_paths: bool,
    pub quiet: bool,
    pub verbose: bool,
}

#[derive(Debug, Default)]
pub struct OptimizeStats {
    pub has_flowtext: bool,
    pub subst_vars_preserved: usize,
    pub gradients_deduplicated: usize,
    pub paths_simplified: usize,
    pub paths_combined: usize,
    pub empty_defs_removed: usize,
}

// ─── Editor namespaces ────────────────────────────────────────────────────────

pub open spec fn editor_namespaces_0() -> Seq<&'static str> {
    seq!["http://www.inkscape.org/namespaces/inkscape", "http://sodipodi.sourceforge.net/DTD/sodipodi-0.0.dtd", "http://ns.adobe.com/AdobeIllustrator/10.0/", "http://ns.adobe.com/AdobeSVGViewerExtensions/3.0/", "http://ns.adobe.com/Variables/1.0/", "http://ns.adobe.com/SaveForWeb/1.0/", "http://ns.adobe.com/Extensibility/1.0/", "http://ns.adobe.com/Flows/1.0/", "http://ns.adobe.com/ImageReplacement/1.0/", "http://ns.adobe.com/GenericCustomNamespace/1.0/", "http://ns.adobe.com/XPath/1.0/", "http://sketchtool.com", "http://ns.adobe.com/pdf/1.3/", "http://ns.adobe.com/illustrator/1.0/"]
}

fn push_editor_namespaces_0(m: &mut Vec<&'static str>)
    ensures
        final(m)@ == old(m)@ + editor_namespaces_0(),
{
    m.push("http://www.inkscape.org/namespaces/inkscape");
    m.push("http://sodipodi.sourceforge.net/DTD/sodipodi-0.0.dtd");
    m.push("http://ns.adobe.com/AdobeIllustrator/10.0/");
    m.push("http://ns.adobe.com/AdobeSVGViewerExtensions/3.0/");
    m.push("http://ns.adobe.com/Variables/1.0/");
    m.push("http://ns.adobe.com/SaveForWeb/1.0/");
    m.push("http://ns.adobe.com/Extensibility/1.0/");
    m.push("http://ns.adobe.com/Flows/1.0/");
    m.push("http://ns.adobe.com/ImageReplacement/1.0/");
    m.push("http://ns.adobe.com/GenericCustomNamespace/1.0/");
    m.push("http://ns.adobe.com/XPath/1.0/");
    m.push("http://sketchtool.com");
    m.push("http://ns.adobe.com/pdf/1.3/");
    m.push("http://ns.adobe.com/illustrator/1.0/");
    assert(m@ =~= old(m)@ + editor_namespaces_0());
}

/// Namespaces of editor-private data (Inkscape, Sodipodi, Illustrator, Sketch).
pub open spec fn editor_namespaces() -> Seq<&'static str> {
    editor_namespaces_0()
}

fn editor_namespaces_vec() -> (m: Vec<&'static str>)
    ensures
        m@ == editor_namespaces(),
{
    let mut m: Vec<&'static str> = Vec::new();
    push_editor_namespaces_0(&mut m);
    assert(m@ =~= editor_namespaces());
    m
}

pub open spec fn is_editor_namespace(ns: Seq<char>) -> bool {
    names_contain(editor_namespaces(), ns)
}

pub fn is_editor_ns(ns: &str) -> (b: bool)
    ensures
        b == is_editor_namespace(ns@),
{
    in_names(&editor_namespaces_vec(), &chars_of(ns))
}

// ─── Indentation ──────────────────────────────────────────────────────────────

/// The indentation unit: empty without line breaks or indentation, else
/// `nindent` spaces or tabs.
pub open spec fn indent_unit_spec(no_line_breaks: bool, indent: Indent, nindent: nat) -> Seq<char> {
    if no_line_breaks || indent == Indent::NoIndent {
        seq![]
    } else {
        crate::groups::repeat_spec(
            if indent == Indent::Tab {
                seq!['\t']
            } else {
                seq![' ']
            },
            nindent,
        )
    }
}

pub fn make_indent_unit(opts: &ScourOptions) -> (r: String)
    ensures
        r@ == indent_unit_spec(opts.no_line_breaks, opts.indent, opts.nindent as nat),
{
    if opts.no_line_breaks || opts.indent == Indent::NoIndent {
        return String::new();
    }
    let mut unit: Vec<char> = Vec::new();
    unit.push(
        match opts.indent {
            Indent::Tab => '\t',
            _ => ' ',
        },
    );
    let mut r: Vec<char> = Vec::new();
    let mut i: u8 = 0;
    while i < opts.nindent
        invariant
            i <= opts.nindent,
            unit@ == (if opts.indent == Indent::Tab {
                seq!['\t']
            } else {
                seq![' ']
            }),
            r@ == crate::groups::repeat_spec(unit@, i as nat),
        decreases opts.nindent - i,
    {
        append(&mut r, &unit);
        i += 1;
    }
    string_of(&r)
}

/// The indentation written before a line at `depth`.
pub open spec fn indent_spec(no_line_breaks: bool, indent: Indent, nindent: nat, depth: nat) -> Seq<char> {
    if no_line_breaks || indent == Indent::NoIndent || depth == 0 {
        seq![]
    } else {
        crate::groups::repeat_spec(
            if indent == Indent::Tab {
                seq!['\t']
            } else {
                seq![' ']
            },
            depth * nindent,
        )
    }
}

pub fn indent(out: &mut Vec<char>, opts: &ScourOptions, depth: usize)
    requires
        depth * (opts.nindent as nat) <= usize::MAX,
    ensures
        final(out)@ == old(out)@ + indent_spec(
            opts.no_line_breaks,
            opts.indent,
            opts.nindent as nat,
            depth as nat,
        ),
{
    if opts.no_line_breaks || opts.indent == Indent::NoIndent || depth == 0 {
        assert(old(out)@ + Seq::<char>::empty() =~= old(out)@);
        return;
    }
    let unit = match opts.indent {
        Indent::Tab => '\t',
        _ => ' ',
    };
    let total: usize = depth * (opts.nindent as usize);
    let ghost u = if opts.indent == Indent::Tab {
        seq!['\t']
    } else {
        seq![' ']
    };
    let ghost o0 = out@;
    let mut i: usize = 0;
    while i < total
        invariant
            i <= total,
            u == seq![unit],
            out@ == o0 + crate::groups::repeat_spec(u, i as nat),
        decreases total - i,
    {
        out.push(unit);
        assert(out@ =~= o0 + crate::groups::repeat_spec(u, (i + 1) as nat));
        i += 1;
    }
}

pub fn maybe_newline(out: &mut Vec<char>, opts: &ScourOptions)
    ensures
        final(out)@ == if opts.no_line_breaks {
            old(out)@
        } else {
            old(out)@.push('\n')
        },
{
    if !opts.no_line_breaks {
        out.push('\n');
    }
}

pub open spec fn comment_spec(text: Seq<char>) -> Seq<char> {
    seq!['<', '!', '-', '-'] + text + seq!['-', '-', '>']
}

pub fn write_comment(text: &str, out: &mut Vec<char>)
    ensures
        final(out)@ == old(out)@ + comment_spec(text@),
{
    let ghost o0 = out@;
    out.push('<');
    out.push('!');
    out.push('-');
    out.push('-');
    append(out, &chars_of(text));
    out.push('-');
    out.push('-');
    out.push('>');
    assert(out@ =~= o0 + comment_spec(text@));
}

// ─── Escaping ─────────────────────────────────────────────────────────────────

pub open spec fn escape_xml_text_spec(s: Seq<char>) -> Seq<char> {
    replace_all(
        replace_all(replace_all(s, seq!['&'], "&amp;"@), seq!['<'], "&lt;"@),
        seq!['>'],
        "&gt;"@,
    )
}

pub open spec fn escape_xml_attr_spec(s: Seq<char>) -> Seq<char> {
    replace_all(escape_xml_text_spec(s), seq!['"'], "&quot;"@)
}

fn one(c: char) -> (r: Vec<char>)
    ensures
        r@ == seq![c],
{
    let mut r: Vec<char> = Vec::new();
    r.push(c);
    assert(r@ =~= seq![c]);
    r
}

pub fn escape_xml_text(s: &str) -> (r: String)
    ensures
        r@ == escape_xml_text_spec(s@),
{
    string_of(&escape_text_chars(&chars_of(s)))
}

fn escape_text_chars(s: &Vec<char>) -> (r: Vec<char>)
    ensures
        r@ == escape_xml_text_spec(s@),
{
    let a = replace_vec(s, &one('&'), &chars_of("&amp;"));
    let b = replace_vec(&a, &one('<'), &chars_of("&lt;"));
    replace_vec(&b, &one('>'), &chars_of("&gt;"))
}

pub fn escape_xml_attr(s: &str) -> (r: String)
    ensures
        r@ == escape_xml_attr_spec(s@),
{
    let t = escape_text_chars(&chars_of(s));
    string_of(&replace_vec(&t, &one('"'), &chars_of("&quot;")))
}

proof fn lemma_replace_char_free(s: Seq<char>, c: char, rep: Seq<char>, d: char)
    requires
        !rep.contains(d),
        d == c || !s.contains(d),
    ensures
        !replace_all(s, seq![c], rep).contains(d),
    decreases s.len(),
{
    if s.len() > 0 {
        let r = replace_all(s, seq![c], rep);
        if matches_at(s, seq![c], 0) {
            assert(s.subrange(0, 1) =~= seq![s[0]]);
            assert(s.skip(1) =~= s.drop_first());
            if d != c {
                assert forall|i: int| 0 <= i < s.drop_first().len() implies s.drop_first()[i] != d by {
                    assert(s.drop_first()[i] == s[i + 1]);
                }
            }
            lemma_replace_char_free(s.drop_first(), c, rep, d);
            let t = replace_all(s.drop_first(), seq![c], rep);
            assert(r == rep + t);
            assert forall|i: int| 0 <= i < r.len() implies r[i] != d by {
                if i < rep.len() {
                    assert(r[i] == rep[i]);
                } else {
                    assert(r[i] == t[i - rep.len()]);
                }
            }
        } else {
            if s[0] == c {
                assert(s.subrange(0, 1) =~= seq![c]);
            }
            if d != c {
                assert forall|i: int| 0 <= i < s.drop_first().len() implies s.drop_first()[i] != d by {
                    assert(s.drop_first()[i] == s[i + 1]);
                }
                assert(s[0] != d);
            }
            lemma_replace_char_free(s.drop_first(), c, rep, d);
            let t = replace_all(s.drop_first(), seq![c], rep);
            assert(r == seq![s[0]] + t);
            assert forall|i: int| 0 <= i < r.len() implies r[i] != d by {
                if i > 0 {
                    assert(r[i] == t[i - 1]);
                }
            }
        }
    }
}

/// Escaped text holds no `<` or `>`, and an escaped attribute value also no
/// `"`: neither can end a tag or an attribute early.
pub proof fn lemma_escaped_is_safe(s: Seq<char>)
    ensures
        !escape_xml_text_spec(s).contains('<'),
        !escape_xml_text_spec(s).contains('>'),
        !escape_xml_attr_spec(s).contains('<'),
        !escape_xml_attr_spec(s).contains('>'),
        !escape_xml_attr_spec(s).contains('"'),
{
    reveal_strlit("&amp;");
    reveal_strlit("&lt;");
    reveal_strlit("&gt;");
    reveal_strlit("&quot;");
    let a = replace_all(s, seq!['&'], "&amp;"@);
    let b = replace_all(a, seq!['<'], "&lt;"@);
    let t = replace_all(b, seq!['>'], "&gt;"@);
    assert(!"&lt;"@.contains('<')) by {
        assert forall|i: int| 0 <= i < "&lt;"@.len() implies "&lt;"@[i] != '<' by {}
    }
    assert(!"&gt;"@.contains('<') && !"&gt;"@.contains('>')) by {
        assert forall|i: int| 0 <= i < "&gt;"@.len() implies "&gt;"@[i] != '<' && "&gt;"@[i] != '>' by {}
    }
    assert(!"&quot;"@.contains('<') && !"&quot;"@.contains('>') && !"&quot;"@.contains('"')) by {
        assert forall|i: int| 0 <= i < "&quot;"@.len() implies "&quot;"@[i] != '<' && "&quot;"@[i] != '>'
            && "&quot;"@[i] != '"' by {}
    }
    lemma_replace_char_free(a, '<', "&lt;"@, '<');
    lemma_replace_char_free(b, '>', "&gt;"@, '<');
    lemma_replace_char_free(b, '>', "&gt;"@, '>');
    lemma_replace_char_free(t, '"', "&quot;"@, '<');
    lemma_replace_char_free(t, '"', "&quot;"@, '>');
    lemma_replace_char_free(t, '"', "&quot;"@, '"');
}

proof fn lemma_char_free_no_match(s: Seq<char>, c: char)
    requires
        !s.contains(c),
    ensures
        forall|q: int| !matches_at(s, seq![c], q),
{
    assert forall|q: int| !matches_at(s, seq![c], q) by {
        if matches_at(s, seq![c], q) {
            assert(s.subrange(q, q + 1)[0] == s[q]);
            assert(s[q] == c);
        }
    }
}

/// Text without `&`, `<` and `>` comes through escaping unchanged, and so
/// does such an attribute value without `"`; the substitution placeholders,
/// made of letters, digits and `_`, are such text.
pub proof fn lemma_plain_text_unescaped(s: Seq<char>)
    requires
        !s.contains('&'),
        !s.contains('<'),
        !s.contains('>'),
    ensures
        escape_xml_text_spec(s) == s,
        !s.contains('"') ==> escape_xml_attr_spec(s) == s,
{
    lemma_char_free_no_match(s, '&');
    lemma_replace_no_match(s, seq!['&'], "&amp;"@);
    lemma_char_free_no_match(s, '<');
    lemma_replace_no_match(s, seq!['<'], "&lt;"@);
    lemma_char_free_no_match(s, '>');
    lemma_replace_no_match(s, seq!['>'], "&gt;"@);
    if !s.contains('"') {
        lemma_char_free_no_match(s, '"');
        lemma_replace_no_match(s, seq!['"'], "&quot;"@);
    }
}

// ─── Whitespace ───────────────────────────────────────────────────────────────

/// The non-empty runs of non-whitespace characters from index `i` on, with
/// `cur` the run read so far.
pub open spec fn words_from(s: Seq<char>, i: int, cur: Seq<char>) -> Seq<Seq<char>>
    decreases s.len() - i,
{
    if i < 0 || i >= s.len() {
        if cur.len() > 0 {
            seq![cur]
        } else {
            seq![]
        }
    } else if is_ws(s[i]) {
        if cur.len() > 0 {
            seq![cur] + words_from(s, i + 1, seq![])
        } else {
            words_from(s, i + 1, seq![])
        }
    } else {
        words_from(s, i + 1, cur.push(s[i]))
    }
}

/// `split_whitespace().join(" ")`.
pub open spec fn collapse_ws_spec(s: Seq<char>) -> Seq<char> {
    crate::style_block::join_with(words_from(s, 0, seq![]), ' ')
}

pub fn collapse_ws(s: &str) -> (r: String)
    ensures
        r@ == collapse_ws_spec(s@),
{
    let v = chars_of(s);
    let n = v.len();
    let mut out: Vec<char> = Vec::new();
    let ghost mut words: Seq<Seq<char>> = seq![];
    let mut count: usize = 0;
    let mut cur: Vec<char> = Vec::new();
    let mut i: usize = 0;
    while i < n
        invariant
            i <= n == v.len(),
            v@ == s@,
            count == words.len(),
            count <= i,
            out@ == crate::style_block::join_with(words, ' '),
            words + words_from(v@, i as int, cur@) == words_from(v@, 0, seq![]),
        decreases n - i,
    {
        if is_whitespace(v[i]) {
            if cur.len() > 0 {
                let ghost o0 = out@;
                if count > 0 {
                    out.push(' ');
                }
                append(&mut out, &cur);
                proof {
                    let w2 = words.push(cur@);
                    assert(w2.drop_last() =~= words);
                    if count == 0 {
                        assert(out@ =~= cur@);
                    } else {
                        assert(out@ =~= o0 + seq![' '] + cur@);
                    }
                    assert(w2 + words_from(v@, i + 1, seq![]) =~= words + (seq![cur@] + words_from(v@, i + 1, seq![])));
                    words = w2;
                }
                count += 1;
                cur = Vec::new();
                assert(cur@ =~= Seq::<char>::empty());
            } else {
                assert(cur@ =~= Seq::<char>::empty());
            }
        } else {
            cur.push(v[i]);
        }
        i += 1;
    }
    if cur.len() > 0 {
        let ghost o0 = out@;
        if count > 0 {
            out.push(' ');
        }
        append(&mut out, &cur);
        proof {
            let w2 = words.push(cur@);
            assert(w2.drop_last() =~= words);
            if count == 0 {
                assert(out@ =~= cur@);
            } else {
                assert(out@ =~= o0 + seq![' '] + cur@);
            }
            assert(words + seq![cur@] =~= w2);
            words = w2;
        }
    } else {
        assert(words + Seq::<Seq<char>>::empty() =~= words);
    }
    string_of(&out)
}


// ─── ID references ────────────────────────────────────────────────────────────

pub open spec fn url_open() -> Seq<char> {
    seq!['u', 'r', 'l', '(', '#']
}

/// Every `url(#id)` with `id` renamed through the map (the id trimmed); text
/// after an unclosed `url(#` is copied.
pub open spec fn remap_urls(s: Seq<char>, m: Seq<(Seq<char>, Option<Seq<char>>)>) -> Seq<char>
    decreases s.len(),
{
    match find_from(s, url_open(), 0) {
        None => s,
        Some(p) => {
            proof {
                lemma_find_from(s, url_open(), 0);
            }
            let rest = s.skip(p + 5);
            let e = first_index(rest, ')');
            proof {
                crate::style_block::lemma_first_index_bound(rest, ')');
            }
            if e >= rest.len() {
                s.take(p) + url_open() + rest
            } else {
                s.take(p) + url_open() + renamed(m, trim(rest.take(e))) + seq![')'] + remap_urls(
                    rest.skip(e + 1),
                    m,
                )
            }
        },
    }
}

pub open spec fn remap_url_spec(val: Seq<char>, m: Seq<(Seq<char>, Option<Seq<char>>)>) -> Seq<char> {
    if !contains(val, url_open()) {
        val
    } else {
        remap_urls(val, m)
    }
}

fn remap_url_refs(val: &Vec<char>, id_map: &[(String, Option<String>)]) -> (r: Vec<char>)
    ensures
        r@ == remap_url_spec(val@, entries_view(id_map@)),
{
    let ghost m = entries_view(id_map@);
    let pat = chars_of("url(#");
    proof {
        reveal_strlit("url(#");
        assert(pat@ =~= url_open());
    }
    if !contains_vec(val, &pat) {
        return slice_vec(val, 0, val.len());
    }
    let mut out: Vec<char> = Vec::new();
    let mut s = slice_vec(val, 0, val.len());
    assert(s@ =~= val@);
    loop
        invariant
            pat@ == url_open(),
            m == entries_view(id_map@),
            contains(val@, url_open()),
            out@ + remap_urls(s@, m) == remap_urls(val@, m),
        decreases s.len(),
    {
        match find_vec(&s, &pat, 0) {
            None => {
                let ghost o0 = out@;
                append(&mut out, &s);
                assert(out@ =~= o0 + remap_urls(s@, m));
                return out;
            },
            Some(p) => {
                proof {
                    lemma_find_from(s@, url_open(), 0);
                }
                let ghost o0 = out@;
                let ghost s0 = s@;
                append(&mut out, &slice_vec(&s, 0, p));
                let rest = slice_vec(&s, p + 5, s.len());
                let e = first_index_of(&rest, ')');
                proof {
                    crate::style_block::lemma_first_index_bound(rest@, ')');
                    assert(rest@ =~= s0.skip(p + 5));
                    assert(s0.take(p as int) =~= s0.subrange(0, p as int));
                }
                if e >= rest.len() {
                    append(&mut out, &pat);
                    append(&mut out, &rest);
                    assert(out@ =~= o0 + remap_urls(s0, m));
                    return out;
                }
                let kpart = slice_vec(&rest, 0, e);
                assert(kpart@ =~= rest@.take(e as int));
                let idc = trim_vec(&kpart);
                let nid = renamed_id(id_map, &idc);
                append(&mut out, &pat);
                append(&mut out, &nid);
                out.push(')');
                let next = slice_vec(&rest, e + 1, rest.len());
                proof {
                    assert(next@ =~= rest@.skip(e + 1));
                    assert(out@ + remap_urls(next@, m) =~= o0 + remap_urls(s0, m));
                }
                s = next;
            },
        }
    }
}


/// End of a quoted ID that starts at `i`: the next `q`, or the length.
pub open spec fn quote_end(s: Seq<char>, i: int, q: char) -> int
    decreases s.len() - i,
{
    if i < 0 || i >= s.len() || s[i] == q {
        i
    } else {
        quote_end(s, i + 1, q)
    }
}

pub proof fn lemma_quote_end(s: Seq<char>, i: int, q: char)
    requires
        0 <= i <= s.len(),
    ensures
        i <= quote_end(s, i, q) <= s.len(),
    decreases s.len() - i,
{
    if i < s.len() && s[i] != q {
        lemma_quote_end(s, i + 1, q);
    }
}

pub open spec fn href_at(s: Seq<char>, i: int) -> bool {
    i + 2 < s.len() && s[i] == '=' && (s[i + 1] == '"' || s[i + 1] == '\'') && s[i + 2] == '#'
}

/// Every `="#id"` or `='#id'` from index `i` on with `id` renamed.
pub open spec fn href_from(s: Seq<char>, i: int, m: Seq<(Seq<char>, Option<Seq<char>>)>) -> Seq<char>
    decreases s.len() - i,
{
    if i < 0 || i >= s.len() {
        seq![]
    } else if href_at(s, i) {
        let q = s[i + 1];
        proof {
            lemma_quote_end(s, i + 3, q);
        }
        let e = quote_end(s, i + 3, q);
        seq!['=', q, '#'] + renamed(m, s.subrange(i + 3, e)) + href_from(s, e, m)
    } else {
        seq![s[i]] + href_from(s, i + 1, m)
    }
}

pub open spec fn remap_href_spec(val: Seq<char>, m: Seq<(Seq<char>, Option<Seq<char>>)>) -> Seq<char> {
    if !contains(val, seq!['=', '"', '#']) && !contains(val, seq!['=', '\'', '#']) {
        val
    } else {
        href_from(val, 0, m)
    }
}

/// Every reference to an ID in an attribute value renamed through the map:
/// `url(#id)` first, then `="#id"` and `='#id'`.
pub open spec fn remap_id_spec(val: Seq<char>, m: Seq<(Seq<char>, Option<Seq<char>>)>) -> Seq<char> {
    if m.len() == 0 || !val.contains('#') {
        val
    } else {
        remap_href_spec(remap_url_spec(val, m), m)
    }
}

fn remap_href_refs(val: &Vec<char>, id_map: &[(String, Option<String>)]) -> (r: Vec<char>)
    ensures
        r@ == remap_href_spec(val@, entries_view(id_map@)),
{
    let ghost m = entries_view(id_map@);
    let mut p1: Vec<char> = Vec::new();
    p1.push('=');
    p1.push('"');
    p1.push('#');
    let mut p2: Vec<char> = Vec::new();
    p2.push('=');
    p2.push('\'');
    p2.push('#');
    assert(p1@ =~= seq!['=', '"', '#']);
    assert(p2@ =~= seq!['=', '\'', '#']);
    if !contains_vec(val, &p1) && !contains_vec(val, &p2) {
        return slice_vec(val, 0, val.len());
    }
    let n = val.len();
    let mut out: Vec<char> = Vec::new();
    let mut i: usize = 0;
    while i < n
        invariant
            i <= n == val.len(),
            m == entries_view(id_map@),
            out@ + href_from(val@, i as int, m) == href_from(val@, 0, m),
        decreases n - i,
    {
        let ghost o0 = out@;
        if n - i > 2 && val[i] == '=' && (val[i + 1] == '"' || val[i + 1] == '\'') && val[i + 2] == '#' {
            let q = val[i + 1];
            out.push('=');
            out.push(q);
            out.push('#');
            let start = i + 3;
            let mut j = start;
            while j < n && val[j] != q
                invariant
                    start <= j <= n == val.len(),
                    quote_end(val@, start as int, q) == quote_end(val@, j as int, q),
                decreases n - j,
            {
                j += 1;
            }
            let id = slice_vec(val, start, j);
            let nid = renamed_id(id_map, &id);
            append(&mut out, &nid);
            proof {
                lemma_quote_end(val@, start as int, q);
                assert(out@ + href_from(val@, j as int, m) =~= o0 + href_from(val@, i as int, m));
            }
            i = j;
        } else {
            out.push(val[i]);
            proof {
                assert(out@ + href_from(val@, i + 1, m) =~= o0 + href_from(val@, i as int, m));
            }
            i += 1;
        }
    }
    assert(out@ + Seq::<char>::empty() =~= out@);
    out
}

/// Rename the ID references in an attribute value.
pub fn remap_id_refs(val: &str, id_map: &[(String, Option<String>)]) -> (r: String)
    ensures
        r@ == remap_id_spec(val@, entries_view(id_map@)),
{
    let v = chars_of(val);
    if id_map.len() == 0 || !has_char(&v, '#') {
        return string_of(&v);
    }
    let s1 = remap_url_refs(&v, id_map);
    string_of(&remap_href_refs(&s1, id_map))
}

// ─── Reference collection ─────────────────────────────────────────────────────

/// The trimmed, non-empty IDs of the closed `url(#id)` references, up to the
/// first unclosed one.
pub open spec fn url_refs(s: Seq<char>) -> Seq<Seq<char>>
    decreases s.len(),
{
    match find_from(s, url_open(), 0) {
        None => seq![],
        Some(p) => {
            proof {
                lemma_find_from(s, url_open(), 0);
            }
            let rest = s.skip(p + 5);
            let e = first_index(rest, ')');
            proof {
                crate::style_block::lemma_first_index_bound(rest, ')');
            }
            if e >= rest.len() {
                seq![]
            } else {
                let id = trim(rest.take(e));
                (if id.len() > 0 {
                    seq![id]
                } else {
                    seq![]
                }) + url_refs(rest.skip(e + 1))
            }
        },
    }
}

pub open spec fn is_ref_end(c: char) -> bool {
    is_ws(c) || c == '"' || c == '\'' || c == ')' || c == '.'
}

/// Index of the first character that ends a `#id` reference, or the length.
pub open spec fn ref_end(s: Seq<char>) -> int
    decreases s.len(),
{
    if s.len() == 0 || is_ref_end(s[0]) {
        0
    } else {
        1 + ref_end(s.drop_first())
    }
}

pub proof fn lemma_ref_end(s: Seq<char>)
    ensures
        0 <= ref_end(s) <= s.len(),
        ref_end(s) < s.len() ==> is_ref_end(s[ref_end(s)]),
        forall|q: int| 0 <= q < ref_end(s) ==> !is_ref_end(s[q]),
    decreases s.len(),
{
    if s.len() > 0 && !is_ref_end(s[0]) {
        lemma_ref_end(s.drop_first());
        assert forall|q: int| 0 <= q < ref_end(s) implies !is_ref_end(s[q]) by {
            if q > 0 {
                assert(s[q] == s.drop_first()[q - 1]);
            }
        }
    }
}

/// The non-empty `#id` references: the text after each `#` up to whitespace,
/// a quote, `)` or `.`.
pub open spec fn hash_refs(s: Seq<char>) -> Seq<Seq<char>>
    decreases s.len(),
{
    proof {
        crate::style_block::lemma_first_index_bound(s, '#');
    }
    let p = first_index(s, '#');
    if p >= s.len() {
        seq![]
    } else {
        let rest = s.skip(p + 1);
        proof {
            lemma_ref_end(rest);
        }
        let end = ref_end(rest);
        (if end > 0 {
            seq![rest.take(end)]
        } else {
            seq![]
        }) + (if end >= rest.len() {
            seq![]
        } else {
            hash_refs(rest.skip(end))
        })
    }
}

/// Every ID an attribute value refers to, `url(#id)` ones first.
pub open spec fn id_refs(val: Seq<char>) -> Seq<Seq<char>> {
    url_refs(val) + hash_refs(val)
}

pub open spec fn strings_of(v: Seq<String>) -> Seq<Seq<char>> {
    v.map_values(|s: String| s@)
}

fn push_all(dst: &mut Vec<String>, items: Vec<Vec<char>>)
    ensures
        strings_of(final(dst)@) == strings_of(old(dst)@) + items@.map_values(|v: Vec<char>| v@),
{
    let ghost d0 = strings_of(dst@);
    let ghost iv = items@.map_values(|v: Vec<char>| v@);
    let mut i: usize = 0;
    while i < items.len()
        invariant
            i <= items.len(),
            iv == items@.map_values(|v: Vec<char>| v@),
            strings_of(dst@) == d0 + iv.take(i as int),
        decreases items.len() - i,
    {
        let ghost before = strings_of(dst@);
        dst.push(string_of(&items[i]));
        assert(strings_of(dst@) =~= before.push(iv[i as int]));
        assert(iv.take(i + 1) =~= iv.take(i as int).push(iv[i as int]));
        i += 1;
    }
    assert(iv.take(i as int) =~= iv);
}

fn collect_url_refs(val: &Vec<char>) -> (r: Vec<Vec<char>>)
    ensures
        r@.map_values(|v: Vec<char>| v@) == url_refs(val@),
{
    let pat = chars_of("url(#");
    proof {
        reveal_strlit("url(#");
        assert(pat@ =~= url_open());
    }
    let mut out: Vec<Vec<char>> = Vec::new();
    let mut s = slice_vec(val, 0, val.len());
    assert(s@ =~= val@);
    loop
        invariant
            pat@ == url_open(),
            out@.map_values(|v: Vec<char>| v@) + url_refs(s@) == url_refs(val@),
        decreases s.len(),
    {
        let ghost o0 = out@.map_values(|v: Vec<char>| v@);
        match find_vec(&s, &pat, 0) {
            None => {
                assert(o0 + url_refs(s@) =~= o0);
                return out;
            },
            Some(p) => {
                proof {
                    lemma_find_from(s@, url_open(), 0);
                }
                let ghost s0 = s@;
                let rest = slice_vec(&s, p + 5, s.len());
                assert(rest@ =~= s0.skip(p + 5));
                let e = first_index_of(&rest, ')');
                proof {
                    crate::style_block::lemma_first_index_bound(rest@, ')');
                }
                if e >= rest.len() {
                    assert(o0 + url_refs(s0) =~= o0);
                    return out;
                }
                let kpart = slice_vec(&rest, 0, e);
                assert(kpart@ =~= rest@.take(e as int));
                let id = trim_vec(&kpart);
                let next = slice_vec(&rest, e + 1, rest.len());
                assert(next@ =~= rest@.skip(e + 1));
                if id.len() > 0 {
                    let ghost idv = id@;
                    out.push(id);
                    assert(out@.map_values(|v: Vec<char>| v@) =~= o0.push(idv));
                    assert(o0.push(idv) + url_refs(next@) =~= o0 + (seq![idv] + url_refs(next@)));
                } else {
                    assert(o0 + url_refs(next@) =~= o0 + (Seq::<Seq<char>>::empty() + url_refs(next@)));
                }
                s = next;
            },
        }
    }
}

fn ref_end_exec(s: &Vec<char>) -> (e: usize)
    ensures
        e as int == ref_end(s@),
{
    let mut j: usize = 0;
    assert(s@.skip(0) =~= s@);
    while j < s.len() && !(is_whitespace(s[j]) || s[j] == '"' || s[j] == '\'' || s[j] == ')' || s[j] == '.')
        invariant
            j <= s.len(),
            ref_end(s@) == j + ref_end(s@.skip(j as int)),
        decreases s.len() - j,
    {
        assert(s@.skip(j as int)[0] == s@[j as int]);
        assert(s@.skip(j as int).drop_first() =~= s@.skip(j + 1));
        j += 1;
    }
    if j < s.len() {
        assert(s@.skip(j as int)[0] == s@[j as int]);
    }
    j
}

fn collect_hash_refs(val: &Vec<char>) -> (r: Vec<Vec<char>>)
    ensures
        r@.map_values(|v: Vec<char>| v@) == hash_refs(val@),
{
    let mut out: Vec<Vec<char>> = Vec::new();
    let mut s = slice_vec(val, 0, val.len());
    assert(s@ =~= val@);
    loop
        invariant
            out@.map_values(|v: Vec<char>| v@) + hash_refs(s@) == hash_refs(val@),
        decreases s.len(),
    {
        let ghost o0 = out@.map_values(|v: Vec<char>| v@);
        let ghost s0 = s@;
        let p = first_index_of(&s, '#');
        proof {
            crate::style_block::lemma_first_index_bound(s0, '#');
        }
        if p >= s.len() {
            assert(o0 + hash_refs(s0) =~= o0);
            return out;
        }
        let rest = slice_vec(&s, p + 1, s.len());
        assert(rest@ =~= s0.skip(p + 1));
        let end = ref_end_exec(&rest);
        proof {
            lemma_ref_end(rest@);
        }
        let ghost first: Seq<Seq<char>> = if end > 0 {
            seq![rest@.take(end as int)]
        } else {
            seq![]
        };
        if end > 0 {
            let id = slice_vec(&rest, 0, end);
            assert(id@ =~= rest@.take(end as int));
            out.push(id);
        }
        assert(out@.map_values(|v: Vec<char>| v@) =~= o0 + first);
        if end >= rest.len() {
            assert(out@.map_values(|v: Vec<char>| v@) + Seq::<Seq<char>>::empty() =~= o0 + hash_refs(s0));
            return out;
        }
        let next = slice_vec(&rest, end, rest.len());
        assert(next@ =~= rest@.skip(end as int));
        assert(out@.map_values(|v: Vec<char>| v@) + hash_refs(next@) =~= o0 + hash_refs(s0));
        s = next;
    }
}

/// The IDs an attribute value refers to.
pub fn extract_id_refs(val: &str, referenced: &mut Vec<String>)
    ensures
        strings_of(final(referenced)@) == strings_of(old(referenced)@) + id_refs(val@),
{
    let v = chars_of(val);
    let a = collect_url_refs(&v);
    let b = collect_hash_refs(&v);
    let ghost r0 = strings_of(referenced@);
    push_all(referenced, a);
    push_all(referenced, b);
    assert(strings_of(referenced@) =~= r0 + id_refs(val@));
}


// ─── Numbers and units ────────────────────────────────────────────────────────

/// `[0-9]*` with a `.` in it, or `[0-9]+`: at least one digit in all.
pub open spec fn is_mantissa(m: Seq<char>) -> bool {
    let d = first_index(m, '.');
    if d >= m.len() {
        m.len() > 0 && all_digits(m)
    } else {
        all_digits(m.take(d)) && all_digits(m.skip(d + 1)) && d + (m.len() - d - 1) > 0
    }
}

pub open spec fn is_exponent(x: Seq<char>) -> bool {
    let y = if x.len() > 0 && (x[0] == '+' || x[0] == '-') {
        x.drop_first()
    } else {
        x
    };
    y.len() > 0 && all_digits(y)
}

/// Index of the first `e` or `E`, or the length.
pub open spec fn exp_index(s: Seq<char>) -> int
    decreases s.len(),
{
    if s.len() == 0 || s[0] == 'e' || s[0] == 'E' {
        0
    } else {
        1 + exp_index(s.drop_first())
    }
}

pub open spec fn is_decimal_number(s: Seq<char>) -> bool {
    let k = exp_index(s);
    if k >= s.len() {
        is_mantissa(s)
    } else {
        is_mantissa(s.take(k)) && is_exponent(s.skip(k + 1))
    }
}

/// What `str::parse::<f64>` accepts: an optional sign, then `inf`,
/// `infinity` or `nan` (any case), or a decimal number with an optional
/// exponent.
pub open spec fn is_f64_literal(s: Seq<char>) -> bool {
    let body = if s.len() > 0 && (s[0] == '+' || s[0] == '-') {
        s.drop_first()
    } else {
        s
    };
    let lower = ascii_lower(body);
    lower == "inf"@ || lower == "infinity"@ || lower == "nan"@ || is_decimal_number(body)
}

fn all_digits_chars(s: &Vec<char>) -> (b: bool)
    ensures
        b == all_digits(s@),
{
    let mut i: usize = 0;
    while i < s.len()
        invariant
            i <= s.len(),
            forall|k: int| 0 <= k < i ==> crate::text::is_digit(#[trigger] s@[k]),
        decreases s.len() - i,
    {
        if !('0' <= s[i] && s[i] <= '9') {
            return false;
        }
        i += 1;
    }
    true
}

fn mantissa(m: &Vec<char>) -> (b: bool)
    ensures
        b == is_mantissa(m@),
{
    let d = first_index_of(m, '.');
    if d >= m.len() {
        m.len() > 0 && all_digits_chars(m)
    } else {
        let a = slice_vec(m, 0, d);
        let b = slice_vec(m, d + 1, m.len());
        assert(a@ =~= m@.take(d as int));
        assert(b@ =~= m@.skip(d + 1));
        all_digits_chars(&a) && all_digits_chars(&b) && (a.len() > 0 || b.len() > 0)
    }
}

fn exponent(x: &Vec<char>) -> (b: bool)
    ensures
        b == is_exponent(x@),
{
    let start: usize = if x.len() > 0 && (x[0] == '+' || x[0] == '-') {
        1
    } else {
        0
    };
    let y = slice_vec(x, start, x.len());
    assert(y@ =~= (if x@.len() > 0 && (x@[0] == '+' || x@[0] == '-') {
        x@.drop_first()
    } else {
        x@
    }));
    y.len() > 0 && all_digits_chars(&y)
}

pub(crate) fn exp_index_exec(s: &Vec<char>) -> (k: usize)
    ensures
        k as int == exp_index(s@),
        k <= s.len(),
{
    let mut j: usize = 0;
    assert(s@.skip(0) =~= s@);
    while j < s.len() && s[j] != 'e' && s[j] != 'E'
        invariant
            j <= s.len(),
            exp_index(s@) == j + exp_index(s@.skip(j as int)),
        decreases s.len() - j,
    {
        assert(s@.skip(j as int)[0] == s@[j as int]);
        assert(s@.skip(j as int).drop_first() =~= s@.skip(j + 1));
        j += 1;
    }
    if j < s.len() {
        assert(s@.skip(j as int)[0] == s@[j as int]);
    }
    j
}

pub fn f64_literal(s: &Vec<char>) -> (b: bool)
    ensures
        b == is_f64_literal(s@),
{
    let start: usize = if s.len() > 0 && (s[0] == '+' || s[0] == '-') {
        1
    } else {
        0
    };
    let body = slice_vec(s, start, s.len());
    assert(body@ =~= (if s@.len() > 0 && (s@[0] == '+' || s@[0] == '-') {
        s@.drop_first()
    } else {
        s@
    }));
    let lower = ascii_lowercase_vec(&body);
    if crate::subst::eq_str(&lower, "inf") || crate::subst::eq_str(&lower, "infinity")
        || crate::subst::eq_str(&lower, "nan") {
        return true;
    }
    let k = exp_index_exec(&body);
    if k >= body.len() {
        mantissa(&body)
    } else {
        let m = slice_vec(&body, 0, k);
        let x = slice_vec(&body, k + 1, body.len());
        assert(m@ =~= body@.take(k as int));
        assert(x@ =~= body@.skip(k + 1));
        mantissa(&m) && exponent(&x)
    }
}

pub open spec fn length_units() -> Seq<Seq<char>> {
    seq!["px"@, "pt"@, "pc"@, "mm"@, "cm"@, "in"@, "em"@, "ex"@]
}

fn length_units_vec() -> (r: Vec<Vec<char>>)
    ensures
        r@.map_values(|v: Vec<char>| v@) == length_units(),
{
    let mut r: Vec<Vec<char>> = Vec::new();
    r.push(chars_of("px"));
    r.push(chars_of("pt"));
    r.push(chars_of("pc"));
    r.push(chars_of("mm"));
    r.push(chars_of("cm"));
    r.push(chars_of("in"));
    r.push(chars_of("em"));
    r.push(chars_of("ex"));
    assert(r@.map_values(|v: Vec<char>| v@) =~= length_units());
    r
}

/// The text without the first listed unit it ends with whose removal leaves a
/// number, or the text itself.
pub open spec fn without_unit(v: Seq<char>, units: Seq<Seq<char>>, k: int) -> (Seq<char>, Seq<char>)
    decreases units.len() - k,
{
    if k < 0 || k >= units.len() {
        (v, seq![])
    } else if ends_with(v, units[k]) && is_f64_literal(v.take(v.len() - units[k].len())) {
        (v.take(v.len() - units[k].len()), units[k])
    } else {
        without_unit(v, units, k + 1)
    }
}

fn without_unit_exec(v: &Vec<char>, units: &Vec<Vec<char>>) -> (r: (Vec<char>, Vec<char>))
    ensures
        (r.0@, r.1@) == without_unit(v@, units@.map_values(|u: Vec<char>| u@), 0),
{
    let ghost uv = units@.map_values(|u: Vec<char>| u@);
    let mut k: usize = 0;
    while k < units.len()
        invariant
            k <= units.len(),
            uv == units@.map_values(|u: Vec<char>| u@),
            without_unit(v@, uv, 0) == without_unit(v@, uv, k as int),
        decreases units.len() - k,
    {
        let u = &units[k];
        assert(uv[k as int] == u@);
        if ends_with_vec(v, u) {
            let c = slice_vec(v, 0, v.len() - u.len());
            assert(c@ =~= v@.take(v@.len() - u@.len()));
            if f64_literal(&c) {
                return (c, slice_vec(u, 0, u.len()));
            }
        }
        k += 1;
    }
    (slice_vec(v, 0, v.len()), Vec::new())
}

/// What `strip_units` returns: the trimmed value without a length unit, when
/// it is a number.
pub open spec fn strip_units_spec(val: Seq<char>) -> Option<Seq<char>> {
    let v = without_unit(trim(val), length_units(), 0).0;
    if is_f64_literal(v) {
        Some(v)
    } else {
        None
    }
}

pub fn strip_units(val: &str) -> (r: Option<String>)
    ensures
        match r {
            Some(s) => strip_units_spec(val@) == Some(s@),
            None => strip_units_spec(val@) is None,
        },
{
    let v = trim_vec(&chars_of(val));
    let (c, _) = without_unit_exec(&v, &length_units_vec());
    if f64_literal(&c) {
        Some(string_of(&c))
    } else {
        None
    }
}

pub open spec fn number_units() -> Seq<Seq<char>> {
    length_units().push(seq!['%'])
}

/// A number and its unit: `(number, unit)` for the first unit the text ends
/// with whose removal leaves a number, else `(text, "")`.
pub open spec fn split_number_unit_spec(s: Seq<char>) -> (Seq<char>, Seq<char>) {
    without_unit(s, number_units(), 0)
}

pub fn split_number_unit(s: &str) -> (r: (String, String))
    ensures
        (r.0@, r.1@) == split_number_unit_spec(s@),
{
    let mut units = length_units_vec();
    let mut pct: Vec<char> = Vec::new();
    pct.push('%');
    let ghost u0 = units@.map_values(|v: Vec<char>| v@);
    units.push(pct);
    assert(units@.map_values(|v: Vec<char>| v@) =~= u0.push(seq!['%']));
    let (a, b) = without_unit_exec(&chars_of(s), &units);
    (string_of(&a), string_of(&b))
}


/// A comma or whitespace: what separates the numbers of a list.
pub open spec fn is_list_sep(c: char) -> bool {
    c == ',' || is_ws(c)
}

/// `cur` as a list item, where it is not empty.
pub open spec fn item_if_any(cur: Seq<char>) -> Seq<Seq<char>> {
    if cur.len() > 0 {
        seq![cur]
    } else {
        seq![]
    }
}

/// The nonempty pieces of `s` between list separators, after the piece
/// `cur` read so far.
pub open spec fn list_items_from(s: Seq<char>, cur: Seq<char>) -> Seq<Seq<char>>
    decreases s.len(),
{
    if s.len() == 0 {
        item_if_any(cur)
    } else if is_list_sep(s[0]) {
        item_if_any(cur) + list_items_from(s.drop_first(), seq![])
    } else {
        list_items_from(s.drop_first(), cur.push(s[0]))
    }
}

/// The numbers of a list, as the nonempty pieces between commas and
/// whitespace, and the separator to join them with again: a comma where the
/// list has one, else a space.
pub fn number_list_items(val: &str) -> (r: (Vec<String>, char))
    ensures
        strings_of(r.0@) == list_items_from(val@, seq![]),
        r.1 == if val@.contains(',') {
            ','
        } else {
            ' '
        },
{
    let s = chars_of(val);
    let mut items: Vec<String> = Vec::new();
    let mut cur: Vec<char> = Vec::new();
    let mut i: usize = 0;
    assert(s@.skip(0) =~= s@);
    while i < s.len()
        invariant
            i <= s.len(),
            s@ == val@,
            strings_of(items@) + list_items_from(s@.skip(i as int), cur@) == list_items_from(val@, seq![]),
        decreases s.len() - i,
    {
        let ghost rest = s@.skip(i as int);
        assert(rest[0] == s@[i as int]);
        assert(rest.drop_first() =~= s@.skip(i + 1));
        let c = s[i];
        if c == ',' || is_whitespace(c) {
            let ghost before = strings_of(items@);
            if cur.len() > 0 {
                items.push(string_of(&cur));
                assert(strings_of(items@) =~= before + item_if_any(cur@));
            } else {
                assert(strings_of(items@) =~= before + item_if_any(cur@));
            }
            cur = Vec::new();
        } else {
            cur.push(c);
        }
        i += 1;
    }
    let ghost before = strings_of(items@);
    assert(s@.skip(i as int) =~= Seq::<char>::empty());
    if cur.len() > 0 {
        items.push(string_of(&cur));
    }
    assert(strings_of(items@) =~= before + item_if_any(cur@));
    let sep = if has_char(&s, ',') {
        ','
    } else {
        ' '
    };
    (items, sep)
}

// ─── Attribute and text output ────────────────────────────────────────────────

/// ` name="value"` with the value's ID references renamed (when IDs are
/// stripped or shortened and it holds a `#`) and escaped.
pub open spec fn attr_out(
    name: Seq<char>,
    val: Seq<char>,
    rename: bool,
    m: Seq<(Seq<char>, Option<Seq<char>>)>,
) -> Seq<char> {
    let v = if rename && val.contains('#') {
        remap_id_spec(val, m)
    } else {
        val
    };
    seq![' '] + name + seq!['=', '"'] + escape_xml_attr_spec(v) + seq!['"']
}

pub fn write_attr(
    out: &mut Vec<char>,
    name: &str,
    val: &str,
    opts: &ScourOptions,
    id_map: &[(String, Option<String>)],
)
    ensures
        final(out)@ == old(out)@ + attr_out(
            name@,
            val@,
            opts.strip_ids || opts.shorten_ids,
            entries_view(id_map@),
        ),
{
    let vc = chars_of(val);
    let v = if (opts.strip_ids || opts.shorten_ids) && has_char(&vc, '#') {
        remap_id_refs(val, id_map)
    } else {
        string_of(&vc)
    };
    let ghost o0 = out@;
    out.push(' ');
    append(out, &chars_of(name));
    out.push('=');
    out.push('"');
    append(out, &chars_of(escape_xml_attr(v.as_str()).as_str()));
    out.push('"');
    assert(out@ =~= o0 + attr_out(name@, val@, opts.strip_ids || opts.shorten_ids, entries_view(id_map@)));
}

/// A text node: whitespace collapsed without line breaks, skipped when blank,
/// else indented, escaped and ended with a line break.
pub open spec fn text_out(text: Seq<char>, opts_no_lb: bool, indent_mode: Indent, nindent: nat, depth: nat) -> Seq<char> {
    let t = if opts_no_lb {
        collapse_ws_spec(text)
    } else {
        text
    };
    if trim(t).len() == 0 {
        seq![]
    } else {
        indent_spec(opts_no_lb, indent_mode, nindent, depth) + escape_xml_text_spec(t) + (if opts_no_lb {
            seq![]
        } else {
            seq!['\n']
        })
    }
}

pub fn emit_text(text: &str, out: &mut Vec<char>, opts: &ScourOptions, depth: usize)
    requires
        depth * (opts.nindent as nat) <= usize::MAX,
    ensures
        final(out)@ == old(out)@ + text_out(
            text@,
            opts.no_line_breaks,
            opts.indent,
            opts.nindent as nat,
            depth as nat,
        ),
{
    let t = if opts.no_line_breaks {
        collapse_ws(text)
    } else {
        string_of(&chars_of(text))
    };
    let tc = chars_of(t.as_str());
    let ghost o0 = out@;
    if trim_vec(&tc).len() > 0 {
        indent(out, opts, depth);
        append(out, &chars_of(escape_xml_text(t.as_str()).as_str()));
        maybe_newline(out, opts);
        assert(out@ =~= o0 + text_out(text@, opts.no_line_breaks, opts.indent, opts.nindent as nat, depth as nat));
    } else {
        assert(out@ =~= o0 + text_out(text@, opts.no_line_breaks, opts.indent, opts.nindent as nat, depth as nat));
    }
}

// ─── Element decisions ────────────────────────────────────────────────────────

/// Whether an element is written: not editor data (unless kept), and not a
/// title, description or metadata element that is being removed.
pub open spec fn emit_element(local: Seq<char>, ns: Seq<char>, keep_editor_data: bool, remove_titles: bool, remove_descriptions: bool, remove_metadata: bool) -> bool {
    if !keep_editor_data && ns.len() > 0 && is_editor_namespace(ns) {
        false
    } else if local == "title"@ && remove_titles {
        false
    } else if local == "desc"@ && remove_descriptions {
        false
    } else if local == "metadata"@ && remove_metadata {
        false
    } else {
        true
    }
}

pub fn should_emit_element(local: &str, ns: &str, opts: &ScourOptions) -> (b: bool)
    ensures
        b == emit_element(local@, ns@, opts.keep_editor_data, opts.remove_titles, opts.remove_descriptions, opts.remove_metadata),
{
    let l = chars_of(local);
    let n = chars_of(ns);
    if !opts.keep_editor_data && n.len() > 0 && is_editor_ns(ns) {
        return false;
    }
    if crate::subst::eq_str(&l, "title") && opts.remove_titles {
        return false;
    }
    if crate::subst::eq_str(&l, "desc") && opts.remove_descriptions {
        return false;
    }
    if crate::subst::eq_str(&l, "metadata") && opts.remove_metadata {
        return false;
    }
    true
}

/// The ID written for an element: kept when it holds a placeholder; renamed,
/// removed or kept through the map when IDs are stripped or shortened.
pub open spec fn resolve_id_spec(
    raw: Option<Seq<char>>,
    rename: bool,
    m: Seq<(Seq<char>, Option<Seq<char>>)>,
    cvs: Seq<crate::subst::CapView>,
) -> Option<Seq<char>> {
    match raw {
        None => None,
        Some(r) => if crate::subst::has_placeholder(r, cvs) {
            Some(r)
        } else if rename {
            match crate::style_block::id_lookup(m, r) {
                Some(Some(n)) => Some(n),
                Some(None) => None,
                None => Some(r),
            }
        } else {
            Some(r)
        },
    }
}

pub fn resolve_id(
    raw: Option<&str>,
    opts: &ScourOptions,
    id_map: &[(String, Option<String>)],
    vars: &[crate::subst::CapturedVar],
) -> (r: Option<String>)
    ensures
        crate::gradient::opt_string_view(r) == resolve_id_spec(
            crate::ids::opt_view(raw),
            opts.strip_ids || opts.shorten_ids,
            entries_view(id_map@),
            crate::subst::caps_view(vars@),
        ),
{
    let rid = match raw {
        None => return None,
        Some(r) => r,
    };
    if crate::subst::value_has_subst(rid, vars) {
        return Some(string_of(&chars_of(rid)));
    }
    if opts.strip_ids || opts.shorten_ids {
        let ghost m = entries_view(id_map@);
        let rc = chars_of(rid);
        let mut j: usize = 0;
        assert(m.skip(0) =~= m);
        while j < id_map.len()
            invariant
                j <= id_map.len(),
                m == entries_view(id_map@),
                rc@ == rid@,
                raw == Some(rid),
                opts.strip_ids || opts.shorten_ids,
                !crate::subst::has_placeholder(rid@, crate::subst::caps_view(vars@)),
                crate::style_block::id_lookup(m, rid@) == crate::style_block::id_lookup(m.skip(j as int), rid@),
            decreases id_map.len() - j,
        {
            assert(m.skip(j as int)[0] == m[j as int]);
            if crate::text::eq_vec(&chars_of(id_map[j].0.as_str()), &rc) {
                return match &id_map[j].1 {
                    Some(n) => Some(n.clone()),
                    None => None,
                };
            }
            assert(m.skip(j as int).drop_first() =~= m.skip(j + 1));
            j += 1;
        }
        Some(string_of(&rc))
    } else {
        Some(string_of(&chars_of(rid)))
    }
}


// ─── Style attribute processing ───────────────────────────────────────────────

/// A declaration that stays: it holds a placeholder or is not a default.
pub open spec fn keep_decl(p: (Seq<char>, Seq<char>), cvs: Seq<crate::subst::CapView>) -> bool {
    crate::subst::has_placeholder(p.1, cvs) || !crate::css::default_value(p.0, p.1)
}

/// The parsed declarations of a style value with their colors simplified.
pub open spec fn style_decls(s: Seq<char>, simplify: bool) -> Seq<(Seq<char>, Seq<char>)> {
    let d0 = match crate::css::parse_style_outcome(s) {
        Some(d) => d,
        None => seq![],
    };
    if simplify {
        d0.map_values(|p: (Seq<char>, Seq<char>)| crate::css::simplified_decl(p))
    } else {
        d0
    }
}

/// Whether processing a style value has a result.
pub open spec fn style_ok(style: Option<Seq<char>>, simplify: bool) -> bool {
    match style {
        Some(s) => trim(s).len() == 0 || (crate::css::parse_style_outcome(s) is Some && (simplify
            ==> crate::css::colors_simplifiable(crate::css::parse_style_outcome(s)->Some_0))),
        None => true,
    }
}

/// The presentation properties moved to attributes, and the rest of the
/// style serialized, defaults dropped from both.
pub open spec fn process_style_spec(
    style: Option<Seq<char>>,
    simplify: bool,
    to_xml: bool,
    cvs: Seq<crate::subst::CapView>,
) -> (Seq<(Seq<char>, Seq<char>)>, Option<Seq<char>>) {
    match style {
        Some(s) => if trim(s).len() == 0 {
            (seq![], None)
        } else {
            let d1 = style_decls(s, simplify);
            let pres = if to_xml {
                d1.filter(|p: (Seq<char>, Seq<char>)| crate::css::is_pres_decl(p)).filter(
                    |p: (Seq<char>, Seq<char>)| keep_decl(p, cvs),
                )
            } else {
                seq![]
            };
            let rest = if to_xml {
                d1.filter(|p: (Seq<char>, Seq<char>)| crate::css::is_not_pres_decl(p))
            } else {
                d1
            };
            let rest2 = rest.filter(|p: (Seq<char>, Seq<char>)| keep_decl(p, cvs));
            (
                pres,
                if rest2.len() == 0 {
                    None
                } else {
                    Some(crate::css::join_decls(crate::css::sort_by_prop(rest2)))
                },
            )
        },
        None => (seq![], None),
    }
}

pub(crate) fn filter_kept(decls: Vec<(String, String)>, vars: &[crate::subst::CapturedVar]) -> (r: Vec<(String, String)>)
    ensures
        crate::css::decls_view(r@) == crate::css::decls_view(decls@).filter(
            |p: (Seq<char>, Seq<char>)| keep_decl(p, crate::subst::caps_view(vars@)),
        ),
{
    let ghost dv = crate::css::decls_view(decls@);
    let ghost cvs = crate::subst::caps_view(vars@);
    let mut out: Vec<(String, String)> = Vec::new();
    let mut i: usize = 0;
    while i < decls.len()
        invariant
            i <= decls.len(),
            dv == crate::css::decls_view(decls@),
            cvs == crate::subst::caps_view(vars@),
            crate::css::decls_view(out@) == dv.take(i as int).filter(
                |p: (Seq<char>, Seq<char>)| keep_decl(p, cvs),
            ),
        decreases decls.len() - i,
    {
        let ghost o0 = out@;
        proof {
            assert(dv.take(i + 1) =~= dv.take(i as int).push(dv[i as int]));
            dv.take(i as int).lemma_filter_push(dv[i as int], |p: (Seq<char>, Seq<char>)| keep_decl(p, cvs));
        }
        let k = decls[i].0.as_str();
        let v = decls[i].1.as_str();
        if crate::subst::value_has_subst(v, vars) || !crate::css::is_default_value(k, v) {
            out.push((decls[i].0.clone(), decls[i].1.clone()));
            assert(crate::css::decls_view(out@) =~= crate::css::decls_view(o0).push(dv[i as int]));
        }
        i += 1;
    }
    assert(dv.take(i as int) =~= dv);
    out
}

/// Whether processing a style value has a result.
pub fn style_processable(style: Option<&str>, simplify: bool) -> (b: bool)
    ensures
        b == style_ok(crate::ids::opt_view(style), simplify),
{
    match style {
        None => true,
        Some(s) => {
            if trim_vec(&chars_of(s)).len() == 0 {
                return true;
            }
            match crate::css::try_parse_style(s) {
                None => false,
                Some(d) => !simplify || crate::css::colors_simplifiable_exec(&d),
            }
        },
    }
}

pub fn process_style(
    style: Option<&str>,
    opts: &ScourOptions,
    vars: &[crate::subst::CapturedVar],
) -> (r: (Vec<(String, String)>, Option<String>))
    requires
        style_ok(crate::ids::opt_view(style), opts.simplify_colors),
    ensures
        (crate::css::decls_view(r.0@), crate::gradient::opt_string_view(r.1)) == process_style_spec(
            crate::ids::opt_view(style),
            opts.simplify_colors,
            opts.style_to_xml,
            crate::subst::caps_view(vars@),
        ),
{
    let style_val = match style {
        Some(s) => {
            if trim_vec(&chars_of(s)).len() == 0 {
                return (Vec::new(), None);
            }
            s
        },
        None => return (Vec::new(), None),
    };
    let mut decls = crate::css::parse_style(style_val);
    crate::css::simplify_style_colors(&mut decls, opts.simplify_colors);
    let presentation_xml = if opts.style_to_xml {
        let extracted = crate::css::extract_presentation_attrs(&mut decls);
        filter_kept(extracted, vars)
    } else {
        Vec::new()
    };
    let kept = filter_kept(decls, vars);
    let remaining = if kept.len() == 0 {
        None
    } else {
        Some(crate::css::serialize_style(&kept))
    };
    (presentation_xml, remaining)
}

// ─── Viewboxing ───────────────────────────────────────────────────────────────

/// The `viewBox` added to the root `<svg>`: from its width and height with
/// their units removed, when both are numbers without placeholders.
pub open spec fn viewbox_spec(
    enable: bool,
    local: Seq<char>,
    has_viewbox: bool,
    w: Option<Seq<char>>,
    h: Option<Seq<char>>,
    cvs: Seq<crate::subst::CapView>,
) -> Option<Seq<char>> {
    if !enable || local != "svg"@ || has_viewbox {
        None
    } else {
        match (w, h) {
            (Some(wv), Some(hv)) => if crate::subst::has_placeholder(wv, cvs)
                || crate::subst::has_placeholder(hv, cvs) {
                None
            } else {
                match (strip_units_spec(wv), strip_units_spec(hv)) {
                    (Some(a), Some(b)) => Some(seq!['0', ' ', '0', ' '] + a + seq![' '] + b),
                    _ => None,
                }
            },
            _ => None,
        }
    }
}

/// The attributes after viewboxing: `width` and `height` become `100%` and
/// the `viewBox` is appended.
pub open spec fn viewboxed(attrs: Seq<(Seq<char>, Seq<char>)>, vb: Seq<char>) -> Seq<(Seq<char>, Seq<char>)> {
    attrs.map_values(
        |a: (Seq<char>, Seq<char>)|
            if a.0 == "width"@ || a.0 == "height"@ {
                (a.0, "100%"@)
            } else {
                a
            },
    ).push(("viewBox"@, vb))
}

pub fn apply_viewboxing(
    has_viewbox: bool,
    local: &str,
    opts: &ScourOptions,
    width: Option<&str>,
    height: Option<&str>,
    xml_attrs: &mut Vec<(String, String)>,
    vars: &[crate::subst::CapturedVar],
)
    ensures
        crate::css::decls_view(final(xml_attrs)@) == match viewbox_spec(
            opts.enable_viewboxing,
            local@,
            has_viewbox,
            crate::ids::opt_view(width),
            crate::ids::opt_view(height),
            crate::subst::caps_view(vars@),
        ) {
            Some(vb) => viewboxed(crate::css::decls_view(old(xml_attrs)@), vb),
            None => crate::css::decls_view(old(xml_attrs)@),
        },
{
    if !opts.enable_viewboxing || !crate::subst::eq_str(&chars_of(local), "svg") || has_viewbox {
        return;
    }
    let (w, h) = match (width, height) {
        (Some(w), Some(h)) => (w, h),
        _ => return,
    };
    if crate::subst::value_has_subst(w, vars) || crate::subst::value_has_subst(h, vars) {
        return;
    }
    let (wv, hv) = match (strip_units(w), strip_units(h)) {
        (Some(a), Some(b)) => (a, b),
        _ => return,
    };
    let mut vb: Vec<char> = Vec::new();
    vb.push('0');
    vb.push(' ');
    vb.push('0');
    vb.push(' ');
    append(&mut vb, &chars_of(wv.as_str()));
    vb.push(' ');
    append(&mut vb, &chars_of(hv.as_str()));
    assert(vb@ =~= seq!['0', ' ', '0', ' '] + wv@ + seq![' '] + hv@);
    let ghost av = crate::css::decls_view(xml_attrs@);
    let mut out: Vec<(String, String)> = Vec::new();
    let mut i: usize = 0;
    while i < xml_attrs.len()
        invariant
            i <= xml_attrs.len(),
            av == crate::css::decls_view(xml_attrs@),
            crate::css::decls_view(out@) == av.take(i as int).map_values(
                |a: (Seq<char>, Seq<char>)|
                    if a.0 == "width"@ || a.0 == "height"@ {
                        (a.0, "100%"@)
                    } else {
                        a
                    },
            ),
        decreases xml_attrs.len() - i,
    {
        let ghost o0 = out@;
        let k = chars_of(xml_attrs[i].0.as_str());
        let v = if crate::subst::eq_str(&k, "width") || crate::subst::eq_str(&k, "height") {
            string_of(&chars_of("100%"))
        } else {
            xml_attrs[i].1.clone()
        };
        out.push((xml_attrs[i].0.clone(), v));
        proof {
            assert(crate::css::decls_view(out@) =~= crate::css::decls_view(o0).push(
                if av[i as int].0 == "width"@ || av[i as int].0 == "height"@ {
                    (av[i as int].0, "100%"@)
                } else {
                    av[i as int]
                },
            ));
            assert(av.take(i + 1).map_values(
                |a: (Seq<char>, Seq<char>)|
                    if a.0 == "width"@ || a.0 == "height"@ {
                        (a.0, "100%"@)
                    } else {
                        a
                    },
            ) =~= av.take(i as int).map_values(
                |a: (Seq<char>, Seq<char>)|
                    if a.0 == "width"@ || a.0 == "height"@ {
                        (a.0, "100%"@)
                    } else {
                        a
                    },
            ).push(
                if av[i as int].0 == "width"@ || av[i as int].0 == "height"@ {
                    (av[i as int].0, "100%"@)
                } else {
                    av[i as int]
                },
            ));
        }
        i += 1;
    }
    assert(av.take(i as int) =~= av);
    let ghost o1 = crate::css::decls_view(out@);
    out.push((string_of(&chars_of("viewBox")), string_of(&vb)));
    assert(crate::css::decls_view(out@) =~= o1.push(("viewBox"@, vb@)));
    *xml_attrs = out;
}

} // verus!

//! Transform lists (`transform`, `gradientTransform`, ...) as text: the
//! functions of a list with their numeric arguments.
//!
//! Arguments stay text; simplifying the functions (dropping identities,
//! turning matrices into translations or scales) is floating-point work done
//! by the caller.
use vstd::prelude::*;
use crate::optimizer::{f64_literal, is_f64_literal};
use crate::text::{
    chars_of, first_index, first_index_of, is_whitespace, is_ws, slice_vec, spec_to_lowercase,
    str_to_lowercase, string_of, trim, trim_start, trim_start_vec, trim_vec,
};

verus! {

pub open spec fn is_arg_sep(c: char) -> bool {
    c == ',' || c == ' ' || c == '\t'
}

/// The pieces of `s` between separators, empty ones included, the first
/// one starting with `cur`.
pub open spec fn arg_pieces(s: Seq<char>, cur: Seq<char>) -> Seq<Seq<char>>
    decreases s.len(),
{
    if s.len() == 0 {
        seq![cur]
    } else if is_arg_sep(s[0]) {
        seq![cur] + arg_pieces(s.drop_first(), seq![])
    } else {
        arg_pieces(s.drop_first(), cur.push(s[0]))
    }
}

pub open spec fn is_number_piece(x: Seq<char>) -> bool {
    x.len() > 0 && is_f64_literal(x)
}

/// The arguments of a function: the pieces that parse as numbers.
pub open spec fn numeric_args(a: Seq<char>) -> Seq<Seq<char>> {
    arg_pieces(a, seq![]).filter(|x: Seq<char>| is_number_piece(x))
}

/// `s` without leading commas and whitespace.
pub open spec fn trim_start_sep(s: Seq<char>) -> Seq<char>
    decreases s.len(),
{
    if s.len() > 0 && (s[0] == ',' || is_ws(s[0])) {
        trim_start_sep(s.drop_first())
    } else {
        s
    }
}

pub proof fn lemma_trim_start_len(s: Seq<char>)
    ensures
        trim_start(s).len() <= s.len(),
        trim_start_sep(s).len() <= s.len(),
    decreases s.len(),
{
    if s.len() > 0 {
        lemma_trim_start_len(s.drop_first());
    }
}

/// The functions of a transform list from `s` on: a name before `(`,
/// lowercased and trimmed, with the numeric arguments up to `)`. Reading
/// stops where no `(` or no `)` follows.
pub open spec fn transforms_from(s: Seq<char>) -> Seq<(Seq<char>, Seq<Seq<char>>)>
    decreases s.len(),
{
    let s1 = trim_start(s);
    if s1.len() == 0 {
        seq![]
    } else {
        let p = first_index(s1, '(');
        if p < 0 || p >= s1.len() {
            seq![]
        } else {
            let rest = s1.skip(p + 1);
            let c = first_index(rest, ')');
            if c < 0 || c >= rest.len() {
                seq![]
            } else {
                proof {
                    lemma_trim_start_len(s);
                    lemma_trim_start_len(rest.skip(c + 1));
                }
                seq![(spec_to_lowercase(trim(s1.take(p))), numeric_args(rest.take(c)))] + transforms_from(
                    trim_start_sep(rest.skip(c + 1)),
                )
            }
        }
    }
}

pub open spec fn parse_transforms_spec(t: Seq<char>) -> Seq<(Seq<char>, Seq<Seq<char>>)> {
    transforms_from(trim(t))
}

pub open spec fn strings_view(v: Seq<String>) -> Seq<Seq<char>> {
    v.map_values(|s: String| s@)
}

pub open spec fn transforms_view(v: Seq<(String, Vec<String>)>) -> Seq<(Seq<char>, Seq<Seq<char>>)> {
    v.map_values(|e: (String, Vec<String>)| (e.0@, strings_view(e.1@)))
}

fn numeric_args_exec(a: &Vec<char>) -> (r: Vec<String>)
    ensures
        strings_view(r@) == numeric_args(a@),
{
    let ghost av = a@;
    let mut out: Vec<String> = Vec::new();
    let mut cur: Vec<char> = Vec::new();
    let mut i: usize = 0;
    assert(av.skip(0) =~= av);
    assert(strings_view(out@) =~= Seq::<Seq<char>>::empty());
    while i < a.len()
        invariant
            i <= a.len(),
            av == a@,
            numeric_args(av) == strings_view(out@) + arg_pieces(av.skip(i as int), cur@).filter(
                |x: Seq<char>| is_number_piece(x),
            ),
        decreases a.len() - i,
    {
        let c = a[i];
        let ghost rest = av.skip(i as int);
        assert(rest[0] == c);
        assert(rest.drop_first() =~= av.skip(i + 1));
        if c == ',' || c == ' ' || c == '\t' {
            let ghost o0 = strings_view(out@);
            let ghost piece = cur@;
            proof {
                arg_pieces(av.skip(i + 1), seq![]).lemma_filter_prepend(piece, |x: Seq<char>| is_number_piece(x));
            }
            if cur.len() > 0 && f64_literal(&cur) {
                out.push(string_of(&cur));
                assert(strings_view(out@) =~= o0.push(piece));
            }
            cur = Vec::new();
        } else {
            cur.push(c);
        }
        i += 1;
    }
    proof {
        assert(av.skip(i as int) =~= Seq::<char>::empty());
        Seq::<Seq<char>>::empty().lemma_filter_prepend(cur@, |x: Seq<char>| is_number_piece(x));
        assert(seq![cur@] + Seq::<Seq<char>>::empty() =~= seq![cur@]);
        assert(Seq::<Seq<char>>::empty().filter(|x: Seq<char>| is_number_piece(x)) =~= Seq::<Seq<char>>::empty());
    }
    if cur.len() > 0 && f64_literal(&cur) {
        let ghost o0 = strings_view(out@);
        out.push(string_of(&cur));
        assert(strings_view(out@) =~= o0.push(cur@));
    }
    out
}

fn trim_start_sep_exec(s: &Vec<char>) -> (r: Vec<char>)
    ensures
        r@ == trim_start_sep(s@),
{
    let mut a: usize = 0;
    assert(s@.skip(0) =~= s@);
    while a < s.len() && (s[a] == ',' || is_whitespace(s[a]))
        invariant
            a <= s.len(),
            trim_start_sep(s@) == trim_start_sep(s@.skip(a as int)),
        decreases s.len() - a,
    {
        assert(s@.skip(a as int).drop_first() =~= s@.skip(a + 1));
        a += 1;
    }
    let r = slice_vec(s, a, s.len());
    assert(r@ =~= s@.skip(a as int));
    r
}

/// The functions of a transform list, each with its name (trimmed and
/// lowercased) and its arguments that parse as numbers, in order.
pub fn parse_transforms(t: &str) -> (r: Vec<(String, Vec<String>)>)
    ensures
        transforms_view(r@) == parse_transforms_spec(t@),
{
    let mut cur = trim_vec(&chars_of(t));
    let mut out: Vec<(String, Vec<String>)> = Vec::new();
    assert(transforms_view(out@) + transforms_from(cur@) =~= transforms_from(cur@));
    loop
        invariant_except_break
            parse_transforms_spec(t@) == transforms_view(out@) + transforms_from(cur@),
        ensures
            parse_transforms_spec(t@) == transforms_view(out@),
        decreases cur.len(),
    {
        let ghost c0 = cur@;
        let s1 = trim_start_vec(&cur);
        if s1.len() == 0 {
            assert(transforms_view(out@) + Seq::<(Seq<char>, Seq<Seq<char>>)>::empty() =~= transforms_view(out@));
            break;
        }
        let p = first_index_of(&s1, '(');
        if p >= s1.len() {
            assert(transforms_view(out@) + Seq::<(Seq<char>, Seq<Seq<char>>)>::empty() =~= transforms_view(out@));
            break;
        }
        let rest = slice_vec(&s1, p + 1, s1.len());
        assert(rest@ =~= s1@.skip(p + 1));
        let c = first_index_of(&rest, ')');
        if c >= rest.len() {
            assert(transforms_view(out@) + Seq::<(Seq<char>, Seq<Seq<char>>)>::empty() =~= transforms_view(out@));
            break;
        }
        let head = slice_vec(&s1, 0, p);
        assert(head@ =~= s1@.take(p as int));
        let name_raw = trim_vec(&head);
        let name = str_to_lowercase(string_of(&name_raw).as_str());
        let inner = slice_vec(&rest, 0, c);
        assert(inner@ =~= rest@.take(c as int));
        let args = numeric_args_exec(&inner);
        let tail = slice_vec(&rest, c + 1, rest.len());
        assert(tail@ =~= rest@.skip(c + 1));
        let ghost o0 = transforms_view(out@);
        let ghost item = (name@, strings_view(args@));
        out.push((name, args));
        assert(transforms_view(out@) =~= o0.push(item));
        let next = trim_start_sep_exec(&tail);
        proof {
            lemma_trim_start_len(c0);
            lemma_trim_start_len(tail@);
            assert(transforms_from(c0) == seq![item] + transforms_from(next@));
            assert(o0.push(item) + transforms_from(next@) =~= o0 + (seq![item] + transforms_from(next@)));
        }
        cur = next;
    }
    out
}

} // verus!

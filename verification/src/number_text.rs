//! Compacting the decimal text of a number: trailing zeros and a bare point
//! dropped, and the zero before the point left out.
use vstd::prelude::*;
use crate::text::{append, chars_of, slice_vec, string_of};

verus! {

/// `s` without the run of `c` at its end.
pub open spec fn trim_end_char(s: Seq<char>, c: char) -> Seq<char>
    decreases s.len(),
{
    if s.len() > 0 && s.last() == c {
        trim_end_char(s.drop_last(), c)
    } else {
        s
    }
}

/// Trailing zeros, then trailing points, dropped; a leading `0.` written as
/// `.` and a leading `-0.` as `-.`.
pub open spec fn tidy_decimal_spec(s: Seq<char>) -> Seq<char> {
    let t = trim_end_char(trim_end_char(s, '0'), '.');
    if t.len() >= 3 && t[0] == '-' && t[1] == '0' && t[2] == '.' {
        seq!['-', '.'] + t.skip(3)
    } else if t.len() >= 2 && t[0] == '0' && t[1] == '.' {
        seq!['.'] + t.skip(2)
    } else {
        t
    }
}

fn trim_end_vec(s: &Vec<char>, c: char) -> (r: Vec<char>)
    ensures
        r@ == trim_end_char(s@, c),
{
    let mut j: usize = s.len();
    assert(s@.take(j as int) =~= s@);
    while j > 0 && s[j - 1] == c
        invariant
            j <= s.len(),
            trim_end_char(s@.take(j as int), c) == trim_end_char(s@, c),
        decreases j,
    {
        assert(s@.take(j as int).drop_last() =~= s@.take(j - 1));
        j -= 1;
    }
    let r = slice_vec(s, 0, j);
    assert(r@ =~= s@.take(j as int));
    r
}

/// The decimal text `s` made compact: `"1.5000000000"` becomes `"1.5"`,
/// `"-0.2500000000"` becomes `"-.25"`.
pub fn tidy_decimal(s: &str) -> (r: String)
    ensures
        r@ == tidy_decimal_spec(s@),
{
    let t = trim_end_vec(&trim_end_vec(&chars_of(s), '0'), '.');
    let n = t.len();
    let mut out: Vec<char> = Vec::new();
    if n >= 3 && t[0] == '-' && t[1] == '0' && t[2] == '.' {
        out.push('-');
        out.push('.');
        append(&mut out, &slice_vec(&t, 3, n));
        assert(t@.subrange(3, n as int) =~= t@.skip(3));
    } else if n >= 2 && t[0] == '0' && t[1] == '.' {
        out.push('.');
        append(&mut out, &slice_vec(&t, 2, n));
        assert(t@.subrange(2, n as int) =~= t@.skip(2));
    } else {
        append(&mut out, &t);
    }
    string_of(&out)
}

} // verus!

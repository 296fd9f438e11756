//! Character-sequence helpers shared by the scrubber passes: whitespace
//! trimming, substring search, replacement, decimal and hex formatting, and
//! the conversions between `str`/`String` and `Vec<char>`.
use vstd::prelude::*;

verus! {

// ─── Character classes ────────────────────────────────────────────────────────

/// Unicode `White_Space`, the set `char::is_whitespace` tests.
pub open spec fn is_ws(c: char) -> bool {
    ||| ('\u{9}' <= c && c <= '\u{d}')
    ||| c == ' '
    ||| c == '\u{85}'
    ||| c == '\u{a0}'
    ||| c == '\u{1680}'
    ||| ('\u{2000}' <= c && c <= '\u{200a}')
    ||| c == '\u{2028}'
    ||| c == '\u{2029}'
    ||| c == '\u{202f}'
    ||| c == '\u{205f}'
    ||| c == '\u{3000}'
}

pub fn is_whitespace(c: char) -> (b: bool)
    ensures
        b == is_ws(c),
{
    ('\u{9}' <= c && c <= '\u{d}') || c == ' ' || c == '\u{85}' || c == '\u{a0}' || c
        == '\u{1680}' || ('\u{2000}' <= c && c <= '\u{200a}') || c == '\u{2028}' || c
        == '\u{2029}' || c == '\u{202f}' || c == '\u{205f}' || c == '\u{3000}'
}

pub open spec fn is_digit(c: char) -> bool {
    '0' <= c && c <= '9'
}

pub open spec fn ascii_lower_char(c: char) -> char {
    if 'A' <= c && c <= 'Z' {
        ((c as u32) + 32) as char
    } else {
        c
    }
}

pub open spec fn ascii_lower(s: Seq<char>) -> Seq<char> {
    s.map_values(|c: char| ascii_lower_char(c))
}

pub open spec fn all_ascii(s: Seq<char>) -> bool {
    forall|i: int| 0 <= i < s.len() ==> (s[i] as u32) < 128
}

/// What `str::to_lowercase` returns for a string: the Unicode lowercase
/// mapping, which depends on the whole string (final sigma).
pub uninterp spec fn spec_to_lowercase(s: Seq<char>) -> Seq<char>;

/// What `char::is_alphanumeric` returns (Unicode Alphabetic or Numeric).
pub uninterp spec fn spec_is_alphanumeric(c: char) -> bool;

/// Calls `str::to_lowercase`. Claimed: the result is `spec_to_lowercase` of
/// the input, and on an all-ASCII input it is the ASCII lowercase of the
/// input (the Unicode mapping restricted to ASCII).
#[verifier::external_body]
pub(crate) fn str_to_lowercase(s: &str) -> (r: String)
    ensures
        r@ == spec_to_lowercase(s@),
        all_ascii(s@) ==> r@ == ascii_lower(s@),
{
    s.to_lowercase()
}

/// What `char::is_alphanumeric` returns, with the ASCII case spelled out.
pub open spec fn alphanumeric(c: char) -> bool {
    if (c as u32) < 128 {
        ('a' <= c && c <= 'z') || ('A' <= c && c <= 'Z') || ('0' <= c && c <= '9')
    } else {
        spec_is_alphanumeric(c)
    }
}

/// Calls `char::is_alphanumeric`. Claimed: the result is
/// `spec_is_alphanumeric` of the character, and on an ASCII character it
/// holds exactly for the letters and digits.
#[verifier::external_body]
pub(crate) fn char_is_alphanumeric(c: char) -> (b: bool)
    ensures
        b == spec_is_alphanumeric(c),
        (c as u32) < 128 ==> (b <==> ('a' <= c <= 'z' || 'A' <= c <= 'Z' || '0' <= c <= '9')),
{
    c.is_alphanumeric()
}

/// Builds a `String` from characters with `Iterator::collect`. Claimed: the
/// string holds exactly those characters in order.
#[verifier::external_body]
pub(crate) fn string_of(v: &Vec<char>) -> (r: String)
    ensures
        r@ == v@,
{
    v.iter().collect()
}

pub fn chars_of(s: &str) -> (r: Vec<char>)
    ensures
        r@ == s@,
{
    let mut r: Vec<char> = Vec::new();
    for c in it: s.chars()
        invariant
            r@ == it.seq().take(it.index() as int),
            it.seq() == s@,
    {
        r.push(c);
    }
    r
}

/// What `str::to_lowercase` returns, with the ASCII case spelled out.
pub open spec fn lowercased(s: Seq<char>) -> Seq<char> {
    if all_ascii(s) {
        ascii_lower(s)
    } else {
        spec_to_lowercase(s)
    }
}

pub fn lowercase_vec(v: &Vec<char>) -> (r: Vec<char>)
    ensures
        r@ == spec_to_lowercase(v@),
        all_ascii(v@) ==> r@ == ascii_lower(v@),
        r@ == lowercased(v@),
{
    let s = string_of(v);
    let l = str_to_lowercase(s.as_str());
    chars_of(l.as_str())
}

pub fn ascii_lowercase_vec(v: &Vec<char>) -> (r: Vec<char>)
    ensures
        r@ == ascii_lower(v@),
{
    let mut r: Vec<char> = Vec::new();
    let mut i: usize = 0;
    while i < v.len()
        invariant
            i <= v.len(),
            r@ == ascii_lower(v@.take(i as int)),
        decreases v.len() - i,
    {
        let c = v[i];
        let lc = if 'A' <= c && c <= 'Z' {
            (((c as u32) + 32) as u8) as char
        } else {
            c
        };
        r.push(lc);
        proof {
            assert(v@.take(i + 1) == v@.take(i as int).push(c));
        }
        i += 1;
    }
    proof {
        assert(v@.take(i as int) == v@);
    }
    r
}

// ─── Trimming ─────────────────────────────────────────────────────────────────

pub open spec fn trim_start(s: Seq<char>) -> Seq<char>
    decreases s.len(),
{
    if s.len() > 0 && is_ws(s[0]) {
        trim_start(s.drop_first())
    } else {
        s
    }
}

pub open spec fn trim_end(s: Seq<char>) -> Seq<char>
    decreases s.len(),
{
    if s.len() > 0 && is_ws(s.last()) {
        trim_end(s.drop_last())
    } else {
        s
    }
}

/// `str::trim`: whitespace removed from both ends.
pub open spec fn trim(s: Seq<char>) -> Seq<char> {
    trim_end(trim_start(s))
}

/// First index at or after `i` holding a non-whitespace character.
pub open spec fn first_non_ws(s: Seq<char>, i: int) -> int
    decreases s.len() - i,
{
    if i < s.len() && is_ws(s[i]) {
        first_non_ws(s, i + 1)
    } else {
        i
    }
}

pub proof fn lemma_trim_start_skip(s: Seq<char>, i: int)
    requires
        0 <= i <= s.len(),
    ensures
        trim_start(s.skip(i)) == s.skip(first_non_ws(s, i)),
        i <= first_non_ws(s, i) <= s.len(),
    decreases s.len() - i,
{
    if i < s.len() && is_ws(s[i]) {
        assert(s.skip(i).drop_first() == s.skip(i + 1));
        lemma_trim_start_skip(s, i + 1);
    } else {
    }
}

/// One past the last non-whitespace character at or before `j` (exclusive end).
pub open spec fn last_non_ws(s: Seq<char>, j: int) -> int
    decreases j,
{
    if j > 0 && is_ws(s[j - 1]) {
        last_non_ws(s, j - 1)
    } else {
        j
    }
}

pub proof fn lemma_trim_end_take(s: Seq<char>, j: int)
    requires
        0 <= j <= s.len(),
    ensures
        trim_end(s.take(j)) == s.take(last_non_ws(s, j)),
        0 <= last_non_ws(s, j) <= j,
    decreases j,
{
    if j > 0 && is_ws(s[j - 1]) {
        assert(s.take(j).drop_last() == s.take(j - 1));
        lemma_trim_end_take(s, j - 1);
    } else {
    }
}

pub proof fn lemma_trim_start_empty_or_nonws(s: Seq<char>)
    ensures
        trim_start(s).len() == 0 || !is_ws(trim_start(s)[0]),
    decreases s.len(),
{
    if s.len() > 0 && is_ws(s[0]) {
        lemma_trim_start_empty_or_nonws(s.drop_first());
    }
}


pub proof fn lemma_trim_end_empty_or_nonws(s: Seq<char>)
    ensures
        trim_end(s).len() == 0 || !is_ws(trim_end(s).last()),
    decreases s.len(),
{
    if s.len() > 0 && is_ws(s.last()) {
        lemma_trim_end_empty_or_nonws(s.drop_last());
    }
}

/// Trimming twice is trimming once.
pub proof fn lemma_trim_idempotent(s: Seq<char>)
    ensures
        trim(trim(s)) == trim(s),
{
    let t = trim_start(s);
    lemma_trim_start_empty_or_nonws(s);
    lemma_trim_end_take(t, t.len() as int);
    assert(t.take(t.len() as int) =~= t);
    let u = trim_end(t);
    lemma_trim_end_empty_or_nonws(t);
    if u.len() > 0 {
        assert(u[0] == t[0]);
    }
    assert(trim_start(u) == u);
    assert(trim_end(u) == u);
}

/// Bounds `[a, b)` of the trimmed part of `s[lo..hi]`.
pub fn trim_bounds(s: &Vec<char>, lo: usize, hi: usize) -> (r: (usize, usize))
    requires
        lo <= hi <= s.len(),
    ensures
        lo <= r.0 <= r.1 <= hi,
        s@.subrange(r.0 as int, r.1 as int) == trim(s@.subrange(lo as int, hi as int)),
{
    let mut a = lo;
    while a < hi && is_whitespace(s[a])
        invariant
            lo <= a <= hi <= s.len(),
            trim_start(s@.subrange(lo as int, hi as int)) == trim_start(
                s@.subrange(a as int, hi as int),
            ),
        decreases hi - a,
    {
        assert(s@.subrange(a as int, hi as int).drop_first() == s@.subrange(a + 1, hi as int));
        a += 1;
    }
    assert(trim_start(s@.subrange(a as int, hi as int)) == s@.subrange(a as int, hi as int));
    let mut b = hi;
    while b > a && is_whitespace(s[b - 1])
        invariant
            lo <= a <= b <= hi <= s.len(),
            trim_end(s@.subrange(a as int, hi as int)) == trim_end(
                s@.subrange(a as int, b as int),
            ),
        decreases b - a,
    {
        assert(s@.subrange(a as int, b as int).drop_last() == s@.subrange(a as int, b - 1));
        b -= 1;
    }
    (a, b)
}

pub fn slice_vec(s: &Vec<char>, lo: usize, hi: usize) -> (r: Vec<char>)
    requires
        lo <= hi <= s.len(),
    ensures
        r@ == s@.subrange(lo as int, hi as int),
{
    let mut r: Vec<char> = Vec::new();
    let mut i = lo;
    while i < hi
        invariant
            lo <= i <= hi <= s.len(),
            r@ == s@.subrange(lo as int, i as int),
        decreases hi - i,
    {
        r.push(s[i]);
        assert(s@.subrange(lo as int, i + 1) == s@.subrange(lo as int, i as int).push(s@[i as int]));
        i += 1;
    }
    r
}


pub fn trim_start_vec(s: &Vec<char>) -> (r: Vec<char>)
    ensures
        r@ == trim_start(s@),
{
    let mut a: usize = 0;
    assert(s@.skip(0) =~= s@);
    while a < s.len() && is_whitespace(s[a])
        invariant
            a <= s.len(),
            trim_start(s@) == trim_start(s@.skip(a as int)),
        decreases s.len() - a,
    {
        assert(s@.skip(a as int).drop_first() =~= s@.skip(a + 1));
        a += 1;
    }
    let r = slice_vec(s, a, s.len());
    assert(r@ =~= s@.skip(a as int));
    r
}

pub fn trim_vec(s: &Vec<char>) -> (r: Vec<char>)
    ensures
        r@ == trim(s@),
{
    let (a, b) = trim_bounds(s, 0, s.len());
    assert(s@.subrange(0, s@.len() as int) == s@);
    slice_vec(s, a, b)
}

pub fn append(dst: &mut Vec<char>, src: &Vec<char>)
    ensures
        final(dst)@ == old(dst)@ + src@,
{
    let mut i: usize = 0;
    while i < src.len()
        invariant
            i <= src.len(),
            dst@ == old(dst)@ + src@.take(i as int),
        decreases src.len() - i,
    {
        dst.push(src[i]);
        assert(src@.take(i + 1) == src@.take(i as int).push(src@[i as int]));
        i += 1;
    }
    assert(src@.take(src@.len() as int) == src@);
}

// ─── Searching ────────────────────────────────────────────────────────────────

pub open spec fn matches_at(s: Seq<char>, pat: Seq<char>, i: int) -> bool {
    0 <= i && i + pat.len() <= s.len() && s.subrange(i, i + pat.len()) == pat
}

pub open spec fn contains(s: Seq<char>, pat: Seq<char>) -> bool {
    exists|i: int| matches_at(s, pat, i)
}

pub open spec fn starts_with(s: Seq<char>, pat: Seq<char>) -> bool {
    matches_at(s, pat, 0)
}

pub open spec fn ends_with(s: Seq<char>, pat: Seq<char>) -> bool {
    matches_at(s, pat, s.len() - pat.len())
}

pub fn match_at(s: &Vec<char>, pat: &Vec<char>, i: usize) -> (b: bool)
    ensures
        b == matches_at(s@, pat@, i as int),
{
    if i > s.len() || pat.len() > s.len() - i {
        return false;
    }
    let mut k: usize = 0;
    while k < pat.len()
        invariant
            k <= pat.len(),
            i + pat.len() <= s.len(),
            forall|t: int| 0 <= t < k ==> s@[i + t] == pat@[t],
        decreases pat.len() - k,
    {
        if s[i + k] != pat[k] {
            assert(s@.subrange(i as int, i + pat.len())[k as int] != pat@[k as int]);
            return false;
        }
        k += 1;
    }
    assert(s@.subrange(i as int, i + pat.len()) =~= pat@);
    true
}

/// Index of the first occurrence of `pat` at or after `from`.
pub open spec fn find_from(s: Seq<char>, pat: Seq<char>, from: int) -> Option<int>
    decreases s.len() + 1 - from,
{
    if from < 0 || from + pat.len() > s.len() {
        None
    } else if matches_at(s, pat, from) {
        Some(from)
    } else {
        find_from(s, pat, from + 1)
    }
}

pub proof fn lemma_find_from(s: Seq<char>, pat: Seq<char>, from: int)
    requires
        0 <= from,
    ensures
        find_from(s, pat, from) matches Some(p) ==> from <= p && matches_at(s, pat, p) && (
        forall|q: int| from <= q < p ==> !matches_at(s, pat, q)),
        find_from(s, pat, from) is None ==> forall|q: int|
            from <= q ==> !matches_at(s, pat, q),
    decreases s.len() + 1 - from,
{
    if from + pat.len() > s.len() {
    } else if matches_at(s, pat, from) {
    } else {
        lemma_find_from(s, pat, from + 1);
    }
}

pub fn find_vec(s: &Vec<char>, pat: &Vec<char>, from: usize) -> (r: Option<usize>)
    ensures
        r matches Some(p) ==> find_from(s@, pat@, from as int) == Some(p as int),
        r is None ==> find_from(s@, pat@, from as int) is None,
{
    if pat.len() > s.len() || from > s.len() - pat.len() {
        return None;
    }
    let last = s.len() - pat.len();
    let mut i = from;
    while i <= last
        invariant
            from <= i,
            last == s.len() - pat.len(),
            find_from(s@, pat@, from as int) == find_from(s@, pat@, i as int),
        decreases last + 1 - i,
    {
        if match_at(s, pat, i) {
            return Some(i);
        }
        if i == last {
            proof {
                assert(find_from(s@, pat@, i + 1) is None);
            }
            return None;
        }
        i += 1;
    }
    None
}

pub fn contains_vec(s: &Vec<char>, pat: &Vec<char>) -> (b: bool)
    ensures
        b == contains(s@, pat@),
{
    proof {
        lemma_find_from(s@, pat@, 0);
    }
    match find_vec(s, pat, 0) {
        Some(_) => true,
        None => false,
    }
}

pub fn find_char(s: &Vec<char>, c: char, from: usize) -> (r: Option<usize>)
    ensures
        r matches Some(p) ==> from <= p < s.len() && s@[p as int] == c && forall|q: int|
            from <= q < p ==> s@[q] != c,
        r is None ==> forall|q: int| from <= q < s.len() ==> s@[q] != c,
{
    let mut i = from;
    while i < s.len()
        invariant
            from <= i,
            forall|q: int| from <= q < i ==> s@[q] != c,
        decreases s.len() - i,
    {
        if s[i] == c {
            return Some(i);
        }
        i += 1;
    }
    None
}

pub fn has_char(s: &Vec<char>, c: char) -> (b: bool)
    ensures
        b == s@.contains(c),
{
    match find_char(s, c, 0) {
        Some(p) => {
            assert(s@[p as int] == c);
            true
        },
        None => false,
    }
}

pub fn starts_with_vec(s: &Vec<char>, pat: &Vec<char>) -> (b: bool)
    ensures
        b == starts_with(s@, pat@),
{
    match_at(s, pat, 0)
}

pub fn ends_with_vec(s: &Vec<char>, pat: &Vec<char>) -> (b: bool)
    ensures
        b == ends_with(s@, pat@),
{
    if pat.len() > s.len() {
        false
    } else {
        match_at(s, pat, s.len() - pat.len())
    }
}

pub fn eq_vec(a: &Vec<char>, b: &Vec<char>) -> (r: bool)
    ensures
        r == (a@ == b@),
{
    if a.len() != b.len() {
        return false;
    }
    let r = match_at(a, b, 0);
    proof {
        if r {
            assert(a@.subrange(0, a@.len() as int) == a@);
        } else {
            assert(a@.subrange(0, a@.len() as int) == a@);
        }
    }
    r
}

// ─── Replacement ──────────────────────────────────────────────────────────────

/// `str::replace`: every non-overlapping occurrence of `pat`, scanned left to
/// right, replaced by `rep`; an empty pattern matches before every character
/// and at the end.
pub open spec fn replace_all(s: Seq<char>, pat: Seq<char>, rep: Seq<char>) -> Seq<char>
    decreases s.len(),
{
    if pat.len() == 0 {
        if s.len() == 0 {
            rep
        } else {
            rep + seq![s[0]] + replace_all(s.drop_first(), pat, rep)
        }
    } else if s.len() == 0 {
        s
    } else if matches_at(s, pat, 0) {
        rep + replace_all(s.skip(pat.len() as int), pat, rep)
    } else {
        seq![s[0]] + replace_all(s.drop_first(), pat, rep)
    }
}

fn replace_empty_pat(s: &Vec<char>, pat: &Vec<char>, rep: &Vec<char>) -> (r: Vec<char>)
    requires
        pat.len() == 0,
    ensures
        r@ == replace_all(s@, pat@, rep@),
{
    let mut out: Vec<char> = Vec::new();
    let mut i: usize = 0;
    assert(s@.skip(0) == s@);
    while i < s.len()
        invariant
            i <= s.len(),
            pat.len() == 0,
            out@ + replace_all(s@.skip(i as int), pat@, rep@) == replace_all(s@, pat@, rep@),
        decreases s.len() - i,
    {
        append(&mut out, rep);
        out.push(s[i]);
        proof {
            assert(s@.skip(i as int).drop_first() == s@.skip(i + 1));
            assert(s@.skip(i as int)[0] == s@[i as int]);
        }
        i += 1;
    }
    append(&mut out, rep);
    proof {
        assert(s@.skip(i as int).len() == 0);
    }
    out
}

pub fn replace_vec(s: &Vec<char>, pat: &Vec<char>, rep: &Vec<char>) -> (r: Vec<char>)
    ensures
        r@ == replace_all(s@, pat@, rep@),
{
    if pat.len() == 0 {
        return replace_empty_pat(s, pat, rep);
    }
    let mut out: Vec<char> = Vec::new();
    let mut i: usize = 0;
    assert(s@.skip(0) == s@);
    while i < s.len()
        invariant
            i <= s.len(),
            pat.len() > 0,
            out@ + replace_all(s@.skip(i as int), pat@, rep@) == replace_all(s@, pat@, rep@),
        decreases s.len() - i,
    {
        let m = match_at(s, pat, i);
        proof {
            let t = s@.skip(i as int);
            assert(matches_at(t, pat@, 0) == matches_at(s@, pat@, i as int)) by {
                if i + pat@.len() <= s@.len() {
                    assert(t.subrange(0, pat@.len() as int) == s@.subrange(
                        i as int,
                        i + pat@.len(),
                    ));
                }
            }
        }
        if m {
            append(&mut out, rep);
            proof {
                assert(s@.skip(i as int).skip(pat@.len() as int) == s@.skip(i + pat@.len()));
            }
            i += pat.len();
        } else {
            out.push(s[i]);
            proof {
                assert(s@.skip(i as int).drop_first() == s@.skip(i + 1));
                assert(s@.skip(i as int)[0] == s@[i as int]);
            }
            i += 1;
        }
    }
    proof {
        assert(s@.skip(i as int).len() == 0);
    }
    out
}

pub proof fn lemma_replace_no_match(s: Seq<char>, pat: Seq<char>, rep: Seq<char>)
    requires
        pat.len() > 0,
        forall|q: int| !matches_at(s, pat, q),
    ensures
        replace_all(s, pat, rep) == s,
    decreases s.len(),
{
    if s.len() > 0 {
        let t = s.drop_first();
        assert forall|q: int| !matches_at(t, pat, q) by {
            if matches_at(t, pat, q) {
                assert(s.subrange(q + 1, q + 1 + pat.len()) == t.subrange(q, q + pat.len()));
                assert(matches_at(s, pat, q + 1));
            }
        }
        lemma_replace_no_match(t, pat, rep);
        assert(seq![s[0]] + t == s);
    }
}

/// With a single occurrence at `p` before which nothing matches, replacing
/// splices `rep` in at `p` and the rest is replaced on its own.
pub proof fn lemma_replace_first_match(s: Seq<char>, pat: Seq<char>, rep: Seq<char>, p: int)
    requires
        pat.len() > 0,
        matches_at(s, pat, p),
        forall|q: int| 0 <= q < p ==> !matches_at(s, pat, q),
    ensures
        replace_all(s, pat, rep) == s.take(p) + rep + replace_all(
            s.skip(p + pat.len()),
            pat,
            rep,
        ),
    decreases p,
{
    if p == 0 {
        assert(s.take(0) + rep == rep);
    } else {
        let t = s.drop_first();
        assert(!matches_at(s, pat, 0));
        assert(matches_at(t, pat, p - 1)) by {
            assert(t.subrange(p - 1, p - 1 + pat.len()) == s.subrange(p, p + pat.len()));
        }
        assert forall|q: int| 0 <= q < p - 1 implies !matches_at(t, pat, q) by {
            if matches_at(t, pat, q) {
                assert(s.subrange(q + 1, q + 1 + pat.len()) == t.subrange(q, q + pat.len()));
                assert(matches_at(s, pat, q + 1));
            }
        }
        lemma_replace_first_match(t, pat, rep, p - 1);
        assert(t.skip(p - 1 + pat.len()) == s.skip(p + pat.len()));
        assert(seq![s[0]] + t.take(p - 1) == s.take(p));
    }
}

// ─── Decimal and hex formatting ───────────────────────────────────────────────

pub open spec fn digit_char(d: nat) -> char {
    ((d % 10) + 48) as char
}

/// Decimal representation of `n` without leading zeros (`"0"` for zero).
pub open spec fn dec(n: nat) -> Seq<char>
    decreases n,
{
    if n < 10 {
        seq![digit_char(n)]
    } else {
        dec(n / 10).push(digit_char(n % 10))
    }
}

pub open spec fn all_digits(s: Seq<char>) -> bool {
    forall|i: int| 0 <= i < s.len() ==> is_digit(#[trigger] s[i])
}

pub open spec fn dec_value(s: Seq<char>) -> nat
    decreases s.len(),
{
    if s.len() == 0 {
        0
    } else {
        dec_value(s.drop_last()) * 10 + ((s.last() as u32) - 48) as nat
    }
}

pub proof fn lemma_dec_props(n: nat)
    ensures
        dec(n).len() >= 1,
        all_digits(dec(n)),
        dec_value(dec(n)) == n,
    decreases n,
{
    let d = digit_char(n % 10);
    assert(d as u32 == (n % 10) + 48);
    if n >= 10 {
        lemma_dec_props(n / 10);
        assert(dec(n).drop_last() == dec(n / 10));
        assert(dec(n).last() == d);
        assert(dec_value(dec(n)) == dec_value(dec(n / 10)) * 10 + (n % 10));
        assert((n / 10) * 10 + n % 10 == n);
    } else {
        assert(dec(n).drop_last() =~= Seq::<char>::empty());
        assert(digit_char(n) == d);
        assert(dec_value(dec(n)) == dec_value(Seq::<char>::empty()) * 10 + (n % 10));
    }
}

pub proof fn lemma_dec_injective(a: nat, b: nat)
    requires
        dec(a) == dec(b),
    ensures
        a == b,
{
    lemma_dec_props(a);
    lemma_dec_props(b);
}

/// Two decimal numerals that each end where the same `'_'` follows agree.
pub proof fn lemma_dec_before_underscore(a: nat, b: nat, y: Seq<char>)
    requires
        y.len() >= dec(a).len() + 1,
        y.len() >= dec(b).len() + 1,
        y.take(dec(a).len() as int + 1) == dec(a).push('_'),
        y.take(dec(b).len() as int + 1) == dec(b).push('_'),
    ensures
        a == b,
{
    lemma_dec_props(a);
    lemma_dec_props(b);
    let la = dec(a).len() as int;
    let lb = dec(b).len() as int;
    if la < lb {
        assert(y.take(la + 1)[la] == '_');
        assert(y.take(lb + 1)[la] == dec(b)[la]);
        assert(is_digit(dec(b)[la]));
    } else if lb < la {
        assert(y.take(lb + 1)[lb] == '_');
        assert(y.take(la + 1)[lb] == dec(a)[lb]);
        assert(is_digit(dec(a)[lb]));
    } else {
        assert(dec(a) =~= y.take(la));
        assert(dec(b) =~= y.take(lb));
        lemma_dec_injective(a, b);
    }
}

pub fn decimal(n: usize) -> (r: Vec<char>)
    ensures
        r@ == dec(n as nat),
    decreases n,
{
    if n < 10 {
        let mut v: Vec<char> = Vec::new();
        v.push(((n as u8) + 48) as char);
        proof {
            assert(v@ =~= seq![digit_char(n as nat)]);
        }
        v
    } else {
        let mut v = decimal(n / 10);
        v.push((((n % 10) as u8) + 48) as char);
        v
    }
}

pub open spec fn hex_digit(d: nat) -> char {
    if d < 10 {
        (d + 48) as char
    } else {
        (d - 10 + 97) as char
    }
}

pub fn hex_char(d: u8) -> (c: char)
    requires
        d < 16,
    ensures
        c == hex_digit(d as nat),
{
    if d < 10 {
        (d + 48) as char
    } else {
        (d - 10 + 97) as char
    }
}


/// The value of a hexadecimal digit character.
pub open spec fn hex_val(c: char) -> Option<nat> {
    if '0' <= c && c <= '9' {
        Some((c as nat - 48) as nat)
    } else if 'a' <= c && c <= 'f' {
        Some((c as nat - 87) as nat)
    } else if 'A' <= c && c <= 'F' {
        Some((c as nat - 55) as nat)
    } else {
        None
    }
}

pub fn hex_val_of(c: char) -> (r: Option<u8>)
    ensures
        r matches Some(d) ==> hex_val(c) == Some(d as nat) && d < 16,
        r is None ==> hex_val(c) is None,
{
    if '0' <= c && c <= '9' {
        Some(((c as u32) - 48) as u8)
    } else if 'a' <= c && c <= 'f' {
        Some(((c as u32) - 87) as u8)
    } else if 'A' <= c && c <= 'F' {
        Some(((c as u32) - 55) as u8)
    } else {
        None
    }
}

// ─── UTF-8 byte offsets ───────────────────────────────────────────────────────

/// Bytes a character takes in UTF-8.
pub open spec fn utf8_width(c: char) -> nat {
    let v = c as u32;
    if v < 0x80 {
        1
    } else if v < 0x800 {
        2
    } else if v < 0x10000 {
        3
    } else {
        4
    }
}

/// Bytes a character sequence takes in UTF-8 (what `str::len` returns).
pub open spec fn utf8_len(s: Seq<char>) -> nat
    decreases s.len(),
{
    if s.len() == 0 {
        0
    } else {
        utf8_len(s.drop_last()) + utf8_width(s.last())
    }
}

pub proof fn lemma_utf8_len_take(s: Seq<char>, k: int)
    requires
        0 <= k < s.len(),
    ensures
        utf8_len(s.take(k + 1)) == utf8_len(s.take(k)) + utf8_width(s[k]),
{
    assert(s.take(k + 1).drop_last() =~= s.take(k));
}

pub proof fn lemma_utf8_len_ascii(s: Seq<char>)
    requires
        forall|i: int| 0 <= i < s.len() ==> (#[trigger] s[i] as u32) < 0x80,
    ensures
        utf8_len(s) == s.len(),
    decreases s.len(),
{
    if s.len() > 0 {
        lemma_utf8_len_ascii(s.drop_last());
    }
}

/// The character index where byte offset `b` falls on a character boundary,
/// searching from character `k` on.
pub open spec fn boundary_from(s: Seq<char>, b: int, k: int) -> Option<int>
    decreases s.len() - k,
{
    if k < 0 || k > s.len() {
        None
    } else if utf8_len(s.take(k)) == b {
        Some(k)
    } else if k == s.len() || utf8_len(s.take(k)) > b {
        None
    } else {
        boundary_from(s, b, k + 1)
    }
}

/// The character index at byte offset `b`, when `b` is a character boundary.
pub open spec fn char_at_byte(s: Seq<char>, b: int) -> Option<int> {
    boundary_from(s, b, 0)
}

/// `&s[a..b]` on the UTF-8 text: `None` where the slice is refused (an offset off a
/// character boundary or past the end, or `a > b`).
pub open spec fn byte_slice(s: Seq<char>, a: int, b: int) -> Option<Seq<char>> {
    match (char_at_byte(s, a), char_at_byte(s, b)) {
        (Some(i), Some(j)) => if i <= j {
            Some(s.subrange(i, j))
        } else {
            None
        },
        _ => None,
    }
}

pub fn char_width(c: char) -> (w: usize)
    ensures
        w == utf8_width(c),
{
    let v = c as u32;
    if v < 0x80 {
        1
    } else if v < 0x800 {
        2
    } else if v < 0x10000 {
        3
    } else {
        4
    }
}

pub proof fn lemma_utf8_len_take_mono(s: Seq<char>, j: int, k: int)
    requires
        0 <= j <= k <= s.len(),
    ensures
        utf8_len(s.take(j)) + (k - j) <= utf8_len(s.take(k)),
    decreases k - j,
{
    if j < k {
        lemma_utf8_len_take_mono(s, j, k - 1);
        lemma_utf8_len_take(s, k - 1);
    }
}

/// `min(utf8_len(s), cap)`.
pub fn byte_len_min(s: &Vec<char>, cap: u64) -> (n: u64)
    requires
        cap < 0x1_0000,
    ensures
        n as int == if utf8_len(s@) < cap {
            utf8_len(s@) as int
        } else {
            cap as int
        },
{
    let mut n: u64 = 0;
    let mut k: usize = 0;
    while k < s.len() && n < cap
        invariant
            k <= s.len(),
            n == utf8_len(s@.take(k as int)),
            cap < 0x1_0000,
            n < cap + 4,
        decreases s.len() - k,
    {
        proof {
            lemma_utf8_len_take(s@, k as int);
        }
        n = n + char_width(s[k]) as u64;
        k += 1;
    }
    proof {
        lemma_utf8_len_take_mono(s@, k as int, s@.len() as int);
        assert(s@.take(s@.len() as int) =~= s@);
    }
    if n < cap {
        n
    } else {
        cap
    }
}

pub fn char_at_byte_exec(s: &Vec<char>, b: usize) -> (r: Option<usize>)
    ensures
        r matches Some(k) ==> char_at_byte(s@, b as int) == Some(k as int),
        r is None ==> char_at_byte(s@, b as int) is None,
{
    let mut k: usize = 0;
    let mut acc: usize = 0;
    loop
        invariant
            k <= s.len(),
            acc == utf8_len(s@.take(k as int)),
            boundary_from(s@, b as int, 0) == boundary_from(s@, b as int, k as int),
            acc <= b,
        decreases s.len() - k,
    {
        if acc == b {
            return Some(k);
        }
        if k == s.len() {
            return None;
        }
        proof {
            lemma_utf8_len_take(s@, k as int);
        }
        let w = char_width(s[k]);
        if w > b - acc {
            proof {
                assert(boundary_from(s@, b as int, k + 1) is None);
            }
            return None;
        }
        acc = acc + w;
        k += 1;
    }
}

pub fn byte_slice_exec(s: &Vec<char>, a: usize, b: usize) -> (r: Option<Vec<char>>)
    ensures
        r matches Some(v) ==> byte_slice(s@, a as int, b as int) == Some(v@),
        r is None ==> byte_slice(s@, a as int, b as int) is None,
{
    match (char_at_byte_exec(s, a), char_at_byte_exec(s, b)) {
        (Some(i), Some(j)) => {
            if i <= j {
                proof {
                    lemma_boundary_le(s@, a as int, 0);
                    lemma_boundary_le(s@, b as int, 0);
                }
                Some(slice_vec(s, i, j))
            } else {
                None
            }
        },
        _ => None,
    }
}

pub proof fn lemma_boundary_le(s: Seq<char>, b: int, k: int)
    ensures
        boundary_from(s, b, k) matches Some(i) ==> k <= i <= s.len(),
    decreases s.len() - k,
{
    if k < 0 || k > s.len() {
    } else if utf8_len(s.take(k)) == b {
    } else if k == s.len() || utf8_len(s.take(k)) > b {
    } else {
        lemma_boundary_le(s, b, k + 1);
    }
}

// ─── Splitting ────────────────────────────────────────────────────────────────

/// `str::split` on a single character: the pieces between separators,
/// including empty ones; `cur` is the piece read so far.
pub open spec fn split_from(s: Seq<char>, sep: char, cur: Seq<char>) -> Seq<Seq<char>>
    decreases s.len(),
{
    if s.len() == 0 {
        seq![cur]
    } else if s[0] == sep {
        seq![cur] + split_from(s.drop_first(), sep, seq![])
    } else {
        split_from(s.drop_first(), sep, cur.push(s[0]))
    }
}

pub open spec fn split_char(s: Seq<char>, sep: char) -> Seq<Seq<char>> {
    split_from(s, sep, seq![])
}

pub fn split_vec(s: &Vec<char>, sep: char) -> (r: Vec<Vec<char>>)
    ensures
        r@.map_values(|v: Vec<char>| v@) == split_char(s@, sep),
{
    let mut parts: Vec<Vec<char>> = Vec::new();
    let mut cur: Vec<char> = Vec::new();
    let mut i: usize = 0;
    assert(s@.skip(0) == s@);
    while i < s.len()
        invariant
            i <= s.len(),
            parts@.map_values(|v: Vec<char>| v@) + split_from(s@.skip(i as int), sep, cur@)
                == split_char(s@, sep),
        decreases s.len() - i,
    {
        let ghost t = s@.skip(i as int);
        assert(t[0] == s@[i as int]);
        assert(t.drop_first() == s@.skip(i + 1));
        if s[i] == sep {
            let ghost old_parts = parts@;
            let done = cur;
            cur = Vec::new();
            parts.push(done);
            proof {
                assert(parts@.map_values(|v: Vec<char>| v@) =~= old_parts.map_values(
                    |v: Vec<char>| v@,
                ).push(done@));
                assert(cur@ =~= Seq::<char>::empty());
            }
        } else {
            cur.push(s[i]);
        }
        i += 1;
    }
    let ghost old_parts = parts@;
    proof {
        assert(s@.skip(i as int) =~= Seq::<char>::empty());
    }
    parts.push(cur);
    proof {
        assert(parts@.map_values(|v: Vec<char>| v@) =~= old_parts.map_values(|v: Vec<char>| v@)
            + seq![cur@]);
    }
    parts
}


pub proof fn lemma_utf8_len_le(s: Seq<char>)
    ensures
        utf8_len(s) <= 4 * s.len(),
    decreases s.len(),
{
    if s.len() > 0 {
        lemma_utf8_len_le(s.drop_last());
    }
}

/// The byte offset of every character start is a boundary at that character.
pub proof fn lemma_char_at_byte_take(s: Seq<char>, k: int)
    requires
        0 <= k <= s.len(),
    ensures
        char_at_byte(s, utf8_len(s.take(k)) as int) == Some(k),
{
    lemma_boundary_take_from(s, k, 0);
}

proof fn lemma_boundary_take_from(s: Seq<char>, k: int, j: int)
    requires
        0 <= j <= k <= s.len(),
    ensures
        boundary_from(s, utf8_len(s.take(k)) as int, j) == Some(k),
    decreases k - j,
{
    if j < k {
        lemma_utf8_len_take_mono(s, j, k);
        lemma_boundary_take_from(s, k, j + 1);
    }
}

// ─── Positions ────────────────────────────────────────────────────────────────

/// Index of the first `c` in `s`, or `s.len()` when there is none.
pub open spec fn first_index(s: Seq<char>, c: char) -> int
    decreases s.len(),
{
    if s.len() == 0 {
        0
    } else if s[0] == c {
        0
    } else {
        1 + first_index(s.drop_first(), c)
    }
}

pub proof fn lemma_first_index(s: Seq<char>, c: char, p: int)
    requires
        0 <= p <= s.len(),
        p < s.len() ==> s[p] == c,
        forall|q: int| 0 <= q < p ==> s[q] != c,
    ensures
        first_index(s, c) == p,
    decreases p,
{
    if p > 0 {
        lemma_first_index(s.drop_first(), c, p - 1);
    }
}

pub fn first_index_of(s: &Vec<char>, c: char) -> (p: usize)
    ensures
        p as int == first_index(s@, c),
        p <= s.len(),
{
    match find_char(s, c, 0) {
        Some(p) => {
            proof {
                lemma_first_index(s@, c, p as int);
            }
            p
        },
        None => {
            proof {
                lemma_first_index(s@, c, s@.len() as int);
            }
            s.len()
        },
    }
}

// ─── Decimal values ───────────────────────────────────────────────────────────

pub open spec fn pow10(n: nat) -> nat
    decreases n,
{
    if n == 0 {
        1
    } else {
        10 * pow10((n - 1) as nat)
    }
}

pub proof fn lemma_dec_value_mono(s: Seq<char>, k: int)
    requires
        0 <= k <= s.len(),
        all_digits(s),
    ensures
        dec_value(s.take(k)) <= dec_value(s),
    decreases s.len() - k,
{
    if k < s.len() {
        lemma_dec_value_mono(s, k + 1);
        assert(s.take(k + 1).drop_last() =~= s.take(k));
    } else {
        assert(s.take(k) =~= s);
    }
}

pub proof fn lemma_dec_value_concat(a: Seq<char>, b: Seq<char>)
    ensures
        dec_value(a + b) == dec_value(a) * pow10(b.len()) + dec_value(b),
    decreases b.len(),
{
    if b.len() == 0 {
        assert(a + b =~= a);
        assert(pow10(0) == 1);
        assert(dec_value(b) == 0);
        assert(dec_value(a) * 1 == dec_value(a));
    } else {
        lemma_dec_value_concat(a, b.drop_last());
        assert(b.drop_last().len() == b.len() - 1);
        assert((a + b).drop_last() =~= a + b.drop_last());
        assert((a + b).last() == b.last());
        let x = dec_value(a);
        let p = pow10((b.len() - 1) as nat);
        let y = dec_value(b.drop_last());
        let d = ((b.last() as u32) - 48) as nat;
        assert(pow10(b.len()) == 10 * p);
        assert(dec_value(b) == y * 10 + d);
        assert(dec_value(a + b) == dec_value(a + b.drop_last()) * 10 + d);
        assert((x * p + y) * 10 == x * (10 * p) + y * 10) by (nonlinear_arith);
        assert(dec_value(a + b.drop_last()) == x * p + y);
    }
}

pub proof fn lemma_dec_value_bound(s: Seq<char>)
    requires
        all_digits(s),
    ensures
        dec_value(s) < pow10(s.len()),
    decreases s.len(),
{
    if s.len() > 0 {
        lemma_dec_value_bound(s.drop_last());
        let x = dec_value(s.drop_last());
        let p = pow10((s.len() - 1) as nat);
        assert(is_digit(s[s.len() - 1]));
        let d = ((s.last() as u32) - 48) as nat;
        assert(x * 10 + d < 10 * p) by (nonlinear_arith)
            requires
                x < p,
                d < 10,
        ;
    }
}

/// What `str::parse::<i32>` accepts: an optional sign, then one or more ASCII
/// digits whose value is in `i32`'s range.
pub open spec fn parse_i32_spec(s: Seq<char>) -> Option<int> {
    let neg = s.len() > 0 && s[0] == '-';
    let body = if s.len() > 0 && (s[0] == '+' || s[0] == '-') {
        s.drop_first()
    } else {
        s
    };
    if body.len() > 0 && all_digits(body) {
        let v: int = if neg {
            -(dec_value(body) as int)
        } else {
            dec_value(body) as int
        };
        if -0x8000_0000 <= v && v <= 0x7fff_ffff {
            Some(v)
        } else {
            None
        }
    } else {
        None
    }
}

pub fn parse_i32(s: &Vec<char>) -> (r: Option<i32>)
    ensures
        r matches Some(v) ==> parse_i32_spec(s@) == Some(v as int),
        r is None ==> parse_i32_spec(s@) is None,
{
    let neg = s.len() > 0 && s[0] == '-';
    let start: usize = if s.len() > 0 && (s[0] == '+' || s[0] == '-') {
        1
    } else {
        0
    };
    let ghost body = if s@.len() > 0 && (s@[0] == '+' || s@[0] == '-') {
        s@.drop_first()
    } else {
        s@
    };
    assert(body =~= s@.skip(start as int));
    if start >= s.len() {
        return None;
    }
    let mut v: u64 = 0;
    let mut i = start;
    while i < s.len()
        invariant
            start <= i <= s.len(),
            body == s@.skip(start as int),
            body == (if s@.len() > 0 && (s@[0] == '+' || s@[0] == '-') {
                s@.drop_first()
            } else {
                s@
            }),
            v == dec_value(body.take(i - start)),
            v <= 0x8000_0000,
            all_digits(body.take(i - start)),
        decreases s.len() - i,
    {
        let ghost t = body.take(i - start + 1);
        assert(t.drop_last() =~= body.take(i - start));
        assert(t.last() == s@[i as int]);
        assert(body[i - start] == s@[i as int]);
        let c = s[i];
        if !('0' <= c && c <= '9') {
            proof {
                assert(!all_digits(body)) by {
                    assert(!is_digit(body[i - start]));
                }
            }
            return None;
        }
        let nv = v * 10 + ((c as u32) - 48) as u64;
        proof {
            assert(all_digits(t));
        }
        if nv > 0x8000_0000 {
            proof {
                assert(dec_value(t) == nv);
                if all_digits(body) {
                    lemma_dec_value_mono(body, i - start + 1);
                }
            }
            return None;
        }
        v = nv;
        i += 1;
    }
    assert(body.take(i - start) =~= body);
    if neg {
        Some((0 - (v as i64)) as i32)
    } else if v <= 0x7fff_ffff {
        Some(v as i32)
    } else {
        None
    }
}


/// `&s[..b]`: `None` where the slice is refused.
pub open spec fn byte_prefix(s: Seq<char>, b: int) -> Option<Seq<char>> {
    match char_at_byte(s, b) {
        Some(i) => Some(s.take(i)),
        None => None,
    }
}

/// `&s[a..]`: `None` where the slice is refused.
pub open spec fn byte_suffix(s: Seq<char>, a: int) -> Option<Seq<char>> {
    match char_at_byte(s, a) {
        Some(i) => Some(s.skip(i)),
        None => None,
    }
}

pub fn byte_prefix_exec(s: &Vec<char>, b: usize) -> (r: Option<Vec<char>>)
    ensures
        r matches Some(v) ==> byte_prefix(s@, b as int) == Some(v@),
        r is None ==> byte_prefix(s@, b as int) is None,
{
    match char_at_byte_exec(s, b) {
        Some(i) => {
            proof {
                lemma_boundary_le(s@, b as int, 0);
            }
            let v = slice_vec(s, 0, i);
            assert(v@ =~= s@.take(i as int));
            Some(v)
        },
        None => None,
    }
}

pub fn byte_suffix_exec(s: &Vec<char>, a: usize) -> (r: Option<Vec<char>>)
    ensures
        r matches Some(v) ==> byte_suffix(s@, a as int) == Some(v@),
        r is None ==> byte_suffix(s@, a as int) is None,
{
    match char_at_byte_exec(s, a) {
        Some(i) => {
            proof {
                lemma_boundary_le(s@, a as int, 0);
            }
            let v = slice_vec(s, i, s.len());
            assert(v@ =~= s@.skip(i as int));
            Some(v)
        },
        None => None,
    }
}

// ─── Name lists ───────────────────────────────────────────────────────────────

/// Whether `name` is one of the names in `list`.
pub open spec fn names_contain(list: Seq<&'static str>, name: Seq<char>) -> bool {
    exists|i: int| 0 <= i < list.len() && (#[trigger] list[i])@ == name
}

pub fn in_names(list: &Vec<&'static str>, name: &Vec<char>) -> (b: bool)
    ensures
        b == names_contain(list@, name@),
{
    let mut i: usize = 0;
    while i < list.len()
        invariant
            i <= list.len(),
            forall|k: int| 0 <= k < i ==> (#[trigger] list@[k])@ != name@,
        decreases list.len() - i,
    {
        let l = chars_of(list[i]);
        if eq_vec(&l, name) {
            return true;
        }
        i += 1;
    }
    false
}

} // verus!

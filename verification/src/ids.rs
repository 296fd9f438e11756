//! ID management: the short-ID sequence, which IDs are protected, and the
//! rename map that strips or shortens the others.
use vstd::prelude::*;
use vstd::set_lib::lemma_len_subset;
use crate::text::{chars_of, eq_vec, is_digit, starts_with, starts_with_vec, string_of};

verus! {

// ─── ID generation ────────────────────────────────────────────────────────────

/// Digit `d` (`0 <= d < 52`) of the short-ID alphabet `a..z A..Z`.
pub open spec fn alpha_char(d: nat) -> char {
    if d < 26 {
        (97 + d) as char
    } else {
        (65 + d - 26) as char
    }
}

/// The `n`-th word of `a, b, …, z, A, …, Z, aa, ab, …`: bijective base 52.
pub open spec fn short_digits(n: nat) -> Seq<char>
    decreases n,
{
    if n < 52 {
        seq![alpha_char(n)]
    } else {
        short_digits((n / 52 - 1) as nat).push(alpha_char(n % 52))
    }
}

pub open spec fn opt_view(o: Option<&str>) -> Option<Seq<char>> {
    match o {
        Some(p) => Some(p@),
        None => None,
    }
}

/// The `n`-th short ID with an optional prefix.
pub open spec fn short_id_spec(n: nat, prefix: Option<Seq<char>>) -> Seq<char> {
    match prefix {
        Some(p) => p + short_digits(n),
        None => short_digits(n),
    }
}

proof fn lemma_alpha_injective(a: nat, b: nat)
    requires
        a < 52,
        b < 52,
        alpha_char(a) == alpha_char(b),
    ensures
        a == b,
{
}

proof fn lemma_short_digits_len(n: nat)
    ensures
        short_digits(n).len() >= 1,
        n >= 52 ==> short_digits(n).len() >= 2,
    decreases n,
{
    if n >= 52 {
        lemma_short_digits_len((n / 52 - 1) as nat);
    }
}

/// Different numbers give different short IDs.
pub proof fn lemma_short_digits_injective(a: nat, b: nat)
    requires
        short_digits(a) == short_digits(b),
    ensures
        a == b,
    decreases a,
{
    lemma_short_digits_len(a);
    lemma_short_digits_len(b);
    if a < 52 && b < 52 {
        assert(short_digits(a)[0] == alpha_char(a));
        assert(short_digits(b)[0] == alpha_char(b));
        lemma_alpha_injective(a, b);
    } else if a < 52 {
        assert(short_digits(a).len() == 1);
    } else if b < 52 {
        assert(short_digits(b).len() == 1);
    } else {
        assert(short_digits(a).last() == alpha_char(a % 52));
        assert(short_digits(b).last() == alpha_char(b % 52));
        lemma_alpha_injective(a % 52, b % 52);
        assert(short_digits(a).drop_last() == short_digits((a / 52 - 1) as nat));
        assert(short_digits(b).drop_last() == short_digits((b / 52 - 1) as nat));
        lemma_short_digits_injective((a / 52 - 1) as nat, (b / 52 - 1) as nat);
    }
}

/// Later short IDs are never shorter: the sequence lists the one-letter
/// words first, then the two-letter ones, and so on.
pub proof fn lemma_short_digits_len_mono(a: nat, b: nat)
    requires
        a <= b,
    ensures
        short_digits(a).len() <= short_digits(b).len(),
    decreases b,
{
    lemma_short_digits_len(a);
    lemma_short_digits_len(b);
    if a >= 52 {
        assert(a / 52 <= b / 52) by (nonlinear_arith)
            requires
                a <= b,
        ;
        lemma_short_digits_len_mono((a / 52 - 1) as nat, (b / 52 - 1) as nat);
    }
}

/// The short-ID sequence never repeats an ID.
pub proof fn lemma_short_id_injective(a: nat, b: nat, prefix: Option<Seq<char>>)
    requires
        short_id_spec(a, prefix) == short_id_spec(b, prefix),
    ensures
        a == b,
{
    match prefix {
        Some(p) => {
            assert(short_digits(a) =~= short_id_spec(a, prefix).skip(p.len() as int));
            assert(short_digits(b) =~= short_id_spec(b, prefix).skip(p.len() as int));
        },
        None => {},
    }
    lemma_short_digits_injective(a, b);
}

fn alpha(d: usize) -> (c: char)
    requires
        d < 52,
    ensures
        c == alpha_char(d as nat),
{
    if d < 26 {
        ((97 + d) as u8) as char
    } else {
        ((65 + d - 26) as u8) as char
    }
}

fn short_digits_vec(n: usize) -> (r: Vec<char>)
    ensures
        r@ == short_digits(n as nat),
{
    let mut result: Vec<char> = Vec::new();
    let mut m = n;
    loop
        invariant
            short_digits(n as nat) == short_digits(m as nat) + result@,
        decreases m,
    {
        let ghost r0 = result@;
        result.insert(0, alpha(m % 52));
        assert(result@ =~= seq![alpha_char((m % 52) as nat)] + r0);
        if m / 52 == 0 {
            assert(short_digits(m as nat) =~= seq![alpha_char((m % 52) as nat)]);
            return result;
        }
        assert(short_digits(m as nat) =~= short_digits((m / 52 - 1) as nat) + seq![
            alpha_char((m % 52) as nat),
        ]);
        m = m / 52 - 1;
    }
}

/// Generate the n-th short ID in the sequence a, b, …, z, A, B, …, Z, aa, ab, …
/// An optional prefix is prepended.
pub fn short_id(n: usize, prefix: Option<&str>) -> (r: String)
    ensures
        r@ == short_id_spec(n as nat, opt_view(prefix)),
{
    string_of(&short_id_chars(n, prefix))
}

fn short_id_chars(n: usize, prefix: Option<&str>) -> (r: Vec<char>)
    ensures
        r@ == short_id_spec(n as nat, opt_view(prefix)),
{
    let s = short_digits_vec(n);
    match prefix {
        Some(p) => {
            let mut v = chars_of(p);
            crate::text::append(&mut v, &s);
            v
        },
        None => s,
    }
}

// ─── Protection check ─────────────────────────────────────────────────────────

pub open spec fn strings_view(v: Seq<String>) -> Seq<Seq<char>> {
    v.map_values(|s: String| s@)
}

/// Whether an ID is never removed or renamed: it is listed, has the protected
/// prefix, or (with `noninkscape`) does not end in an ASCII digit.
pub open spec fn protected_id(
    id: Seq<char>,
    noninkscape: bool,
    list: Seq<Seq<char>>,
    prefix: Option<Seq<char>>,
) -> bool {
    ||| list.contains(id)
    ||| (prefix matches Some(p) && starts_with(id, p))
    ||| (noninkscape && !(id.len() > 0 && is_digit(id.last())))
}

fn list_contains(list: &[String], id: &Vec<char>) -> (b: bool)
    ensures
        b == strings_view(list@).contains(id@),
{
    let ghost lv = strings_view(list@);
    let mut i: usize = 0;
    while i < list.len()
        invariant
            i <= list.len(),
            lv == strings_view(list@),
            forall|k: int| 0 <= k < i ==> lv[k] != id@,
        decreases list.len() - i,
    {
        let l = chars_of(list[i].as_str());
        if eq_vec(&l, id) {
            assert(lv[i as int] == id@);
            return true;
        }
        i += 1;
    }
    false
}

/// Return true if this ID should never be removed or renamed.
fn should_protect(
    id: &Vec<char>,
    protect_noninkscape: bool,
    protect_list: &[String],
    protect_prefix: Option<&str>,
) -> (b: bool)
    ensures
        b == protected_id(id@, protect_noninkscape, strings_view(protect_list@), opt_view(protect_prefix)),
{
    if list_contains(protect_list, id) {
        return true;
    }
    match protect_prefix {
        Some(pfx) => {
            if starts_with_vec(id, &chars_of(pfx)) {
                return true;
            }
        },
        None => {},
    }
    if protect_noninkscape {
        if !(id.len() > 0 && '0' <= id[id.len() - 1] && id[id.len() - 1] <= '9') {
            return true;
        }
    }
    false
}


// ─── Rename map ───────────────────────────────────────────────────────────────

/// The inputs of `build_id_map` as plain values.
pub struct IdParams {
    pub ids: Seq<Seq<char>>,
    pub referenced: Seq<Seq<char>>,
    pub strip: bool,
    pub shorten: bool,
    pub prefix: Option<Seq<char>>,
    pub noninkscape: bool,
    pub protect_list: Seq<Seq<char>>,
    pub protect_prefix: Option<Seq<char>>,
}

/// The rename map built so far: entries in first-insertion order, the next
/// short-ID number to try, and how many IDs were removed.
pub struct IdMapState {
    pub entries: Seq<(Seq<char>, Option<Seq<char>>)>,
    pub counter: nat,
    pub removed: nat,
}

/// Index of the entry with key `k`, or the length when there is none.
pub open spec fn key_index(m: Seq<(Seq<char>, Option<Seq<char>>)>, k: Seq<char>) -> int
    decreases m.len(),
{
    if m.len() == 0 {
        0
    } else if m[0].0 == k {
        0
    } else {
        1 + key_index(m.drop_first(), k)
    }
}

/// `HashMap::insert` on the entry list: replace the value of key `k`, or
/// append a new entry.
pub open spec fn map_insert(
    m: Seq<(Seq<char>, Option<Seq<char>>)>,
    k: Seq<char>,
    v: Option<Seq<char>>,
) -> Seq<(Seq<char>, Option<Seq<char>>)> {
    let j = key_index(m, k);
    if j < m.len() {
        m.update(j, (k, v))
    } else {
        m.push((k, v))
    }
}

/// Whether short ID number `m` does not collide with an ID of the document.
pub open spec fn is_free(m: nat, p: IdParams) -> bool {
    !p.ids.contains(short_id_spec(m, p.prefix))
}

/// The first free short-ID number from `c` on.
pub open spec fn next_free(c: nat, p: IdParams) -> nat {
    choose|m: nat| c <= m && is_free(m, p) && forall|j: nat| c <= j < m ==> !is_free(j, p)
}

/// One ID of the document entering the map.
pub open spec fn id_step(st: IdMapState, id: Seq<char>, p: IdParams) -> IdMapState {
    if protected_id(id, p.noninkscape, p.protect_list, p.protect_prefix) {
        IdMapState { entries: map_insert(st.entries, id, Some(id)), ..st }
    } else if p.strip && !p.referenced.contains(id) {
        IdMapState { entries: map_insert(st.entries, id, None), removed: st.removed + 1, ..st }
    } else if p.shorten {
        let m = next_free(st.counter, p);
        IdMapState {
            entries: map_insert(st.entries, id, Some(short_id_spec(m, p.prefix))),
            counter: m + 1,
            ..st
        }
    } else {
        IdMapState { entries: map_insert(st.entries, id, Some(id)), ..st }
    }
}

/// The map after the IDs `ids`, in order.
pub open spec fn id_map_of(ids: Seq<Seq<char>>, p: IdParams) -> IdMapState
    decreases ids.len(),
{
    if ids.len() == 0 {
        IdMapState { entries: seq![], counter: 0, removed: 0 }
    } else {
        id_step(id_map_of(ids.drop_last(), p), ids.last(), p)
    }
}

pub open spec fn entries_view(v: Seq<(String, Option<String>)>) -> Seq<
    (Seq<char>, Option<Seq<char>>),
> {
    v.map_values(
        |e: (String, Option<String>)|
            (
                e.0@,
                match e.1 {
                    Some(s) => Some(s@),
                    None => None,
                },
            ),
    )
}

pub open spec fn params_of(
    all_ids: Seq<String>,
    referenced_ids: Seq<String>,
    strip_unreferenced: bool,
    shorten: bool,
    shorten_prefix: Option<&str>,
    protect_noninkscape: bool,
    protect_list: Seq<String>,
    protect_prefix: Option<&str>,
) -> IdParams {
    IdParams {
        ids: strings_view(all_ids),
        referenced: strings_view(referenced_ids),
        strip: strip_unreferenced,
        shorten,
        prefix: opt_view(shorten_prefix),
        noninkscape: protect_noninkscape,
        protect_list: strings_view(protect_list),
        protect_prefix: opt_view(protect_prefix),
    }
}

/// Skipped short-ID numbers, all taken by IDs of the document and all
/// different, are no more than the IDs.
proof fn lemma_skipped_bound(skipped: Seq<nat>, p: IdParams)
    requires
        forall|i: int, j: int| 0 <= i < j < skipped.len() ==> skipped[i] < skipped[j],
        forall|i: int| 0 <= i < skipped.len() ==> !is_free(#[trigger] skipped[i], p),
    ensures
        skipped.len() <= p.ids.len(),
{
    let img = skipped.map_values(|m: nat| short_id_spec(m, p.prefix));
    assert(img.no_duplicates()) by {
        assert forall|i: int, j: int| 0 <= i < img.len() && 0 <= j < img.len() && i != j implies img[i]
            != img[j] by {
            if img[i] == img[j] {
                lemma_short_id_injective(skipped[i], skipped[j], p.prefix);
                if i < j {
                    assert(skipped[i] < skipped[j]);
                } else {
                    assert(skipped[j] < skipped[i]);
                }
            }
        }
    }
    img.unique_seq_to_set();
    assert(img.to_set().subset_of(p.ids.to_set())) by {
        assert forall|x: Seq<char>| img.to_set().contains(x) implies p.ids.to_set().contains(x) by {
            let i = choose|i: int| 0 <= i < img.len() && img[i] == x;
            assert(!is_free(skipped[i], p));
        }
    }
    p.ids.lemma_cardinality_of_set();
    lemma_len_subset(img.to_set(), p.ids.to_set());
}

fn key_position(m: &Vec<(String, Option<String>)>, k: &Vec<char>) -> (j: usize)
    ensures
        j as int == key_index(entries_view(m@), k@),
        j <= m.len(),
{
    let ghost mv = entries_view(m@);
    let mut j: usize = 0;
    assert(mv.skip(0) =~= mv);
    while j < m.len()
        invariant
            j <= m.len(),
            mv == entries_view(m@),
            j + key_index(mv.skip(j as int), k@) == key_index(mv, k@),
        decreases m.len() - j,
    {
        assert(mv.skip(j as int)[0] == mv[j as int]);
        let key = chars_of(m[j].0.as_str());
        if eq_vec(&key, k) {
            return j;
        }
        assert(mv.skip(j as int).drop_first() =~= mv.skip(j + 1));
        j += 1;
    }
    j
}

pub fn insert_entry(m: &mut Vec<(String, Option<String>)>, k: &String, v: Option<String>)
    ensures
        entries_view(final(m)@) == map_insert(
            entries_view(old(m)@),
            k@,
            match v {
                Some(s) => Some(s@),
                None => None,
            },
        ),
{
    let kc = chars_of(k.as_str());
    let j = key_position(m, &kc);
    let ghost vv = match &v {
        Some(s) => Some(s@),
        None => None::<Seq<char>>,
    };
    let ghost m0 = m@;
    if j < m.len() {
        m.set(j, (k.clone(), v));
        assert(entries_view(m@) =~= entries_view(m0).update(j as int, (k@, vv)));
    } else {
        m.push((k.clone(), v));
        assert(entries_view(m@) =~= entries_view(m0).push((k@, vv)));
    }
}

/// Build a map from every defined ID to its new value:
///   - `Some(same_id)` — keep as-is
///   - `Some(new_id)`  — rename to new_id
///   - `None`          — remove (strip)
///
/// Returns `(map, count_removed)`.
pub fn build_id_map(
    all_ids: &[String],
    referenced_ids: &[String],
    strip_unreferenced: bool,
    shorten: bool,
    shorten_prefix: Option<&str>,
    protect_noninkscape: bool,
    protect_list: &[String],
    protect_prefix: Option<&str>,
) -> (r: (Vec<(String, Option<String>)>, usize))
    requires
        all_ids.len() < usize::MAX / 2,
    ensures
        ({
            let p = params_of(
                all_ids@,
                referenced_ids@,
                strip_unreferenced,
                shorten,
                shorten_prefix,
                protect_noninkscape,
                protect_list@,
                protect_prefix,
            );
            &&& entries_view(r.0@) == id_map_of(p.ids, p).entries
            &&& r.1 as nat == id_map_of(p.ids, p).removed
        }),
{
    let ghost p = params_of(
        all_ids@,
        referenced_ids@,
        strip_unreferenced,
        shorten,
        shorten_prefix,
        protect_noninkscape,
        protect_list@,
        protect_prefix,
    );
    let mut map: Vec<(String, Option<String>)> = Vec::new();
    let mut counter: usize = 0;
    let mut removed: usize = 0;
    let ghost mut skipped: Seq<nat> = seq![];
    let n = all_ids.len();
    let mut k: usize = 0;
    while k < n
        invariant
            k <= n == all_ids.len() < usize::MAX / 2,
            p == params_of(
                all_ids@,
                referenced_ids@,
                strip_unreferenced,
                shorten,
                shorten_prefix,
                protect_noninkscape,
                protect_list@,
                protect_prefix,
            ),
            entries_view(map@) == id_map_of(p.ids.take(k as int), p).entries,
            counter as nat == id_map_of(p.ids.take(k as int), p).counter,
            removed as nat == id_map_of(p.ids.take(k as int), p).removed,
            removed <= k,
            forall|i: int, j: int| 0 <= i < j < skipped.len() ==> skipped[i] < skipped[j],
            forall|i: int| 0 <= i < skipped.len() ==> !is_free(#[trigger] skipped[i], p),
            forall|i: int| 0 <= i < skipped.len() ==> #[trigger] skipped[i] < counter,
            counter <= k + skipped.len(),
        decreases n - k,
    {
        let ghost st = id_map_of(p.ids.take(k as int), p);
        proof {
            assert(p.ids.take(k + 1).drop_last() =~= p.ids.take(k as int));
            assert(p.ids.take(k + 1).last() == all_ids@[k as int]@);
        }
        let id = &all_ids[k];
        let idc = chars_of(id.as_str());
        if should_protect(&idc, protect_noninkscape, protect_list, protect_prefix) {
            insert_entry(&mut map, id, Some(id.clone()));
        } else if strip_unreferenced && !list_contains(referenced_ids, &idc) {
            insert_entry(&mut map, id, None);
            removed += 1;
        } else if shorten {
            let ghost c0 = counter as nat;
            proof {
                lemma_skipped_bound(skipped, p);
            }
            let mut cand = short_id_chars(counter, shorten_prefix);
            while list_contains(all_ids, &cand)
                invariant
                    k < n == all_ids.len() < usize::MAX / 2,
                    p.ids == strings_view(all_ids@),
                    p.prefix == opt_view(shorten_prefix),
                    cand@ == short_id_spec(counter as nat, p.prefix),
                    c0 <= counter,
                    forall|j: nat| c0 <= j < counter ==> !is_free(j, p),
                    forall|i: int, j: int| 0 <= i < j < skipped.len() ==> skipped[i] < skipped[j],
                    forall|i: int| 0 <= i < skipped.len() ==> !is_free(#[trigger] skipped[i], p),
                    forall|i: int| 0 <= i < skipped.len() ==> #[trigger] skipped[i] < counter,
                    counter <= k + skipped.len(),
                    skipped.len() <= n,
                decreases n - skipped.len(),
            {
                proof {
                    let s2 = skipped.push(counter as nat);
                    assert forall|i: int| 0 <= i < s2.len() implies !is_free(#[trigger] s2[i], p) by {
                        if i < skipped.len() {
                            assert(s2[i] == skipped[i]);
                        }
                    }
                    assert forall|i: int, j: int| 0 <= i < j < s2.len() implies s2[i] < s2[j] by {
                        if j < skipped.len() {
                            assert(s2[i] == skipped[i] && s2[j] == skipped[j]);
                        } else {
                            assert(s2[i] == skipped[i]);
                        }
                    }
                    lemma_skipped_bound(s2, p);
                    skipped = s2;
                }
                counter += 1;
                cand = short_id_chars(counter, shorten_prefix);
            }
            proof {
                let m = counter as nat;
                assert(is_free(m, p));
                let q = next_free(c0, p);
                assert(c0 <= q && is_free(q, p) && forall|j: nat| c0 <= j < q ==> !is_free(j, p));
                if q < m {
                    assert(!is_free(q, p));
                } else if m < q {
                    assert(!is_free(m, p));
                }
            }
            counter += 1;
            let new_id = string_of(&cand);
            insert_entry(&mut map, id, Some(new_id));
        } else {
            insert_entry(&mut map, id, Some(id.clone()));
        }
        k += 1;
    }
    assert(p.ids.take(n as int) =~= p.ids);
    (map, removed)
}


// ─── Laws of the rename map ───────────────────────────────────────────────────

proof fn lemma_key_index(m: Seq<(Seq<char>, Option<Seq<char>>)>, k: Seq<char>)
    ensures
        0 <= key_index(m, k) <= m.len(),
        key_index(m, k) < m.len() ==> m[key_index(m, k)].0 == k,
        forall|i: int| 0 <= i < key_index(m, k) ==> m[i].0 != k,
    decreases m.len(),
{
    if m.len() > 0 && m[0].0 != k {
        lemma_key_index(m.drop_first(), k);
        assert forall|i: int| 0 <= i < key_index(m, k) implies m[i].0 != k by {
            if i > 0 {
                assert(m[i] == m.drop_first()[i - 1]);
            }
        }
    }
}

/// There is always a free short-ID number within the number of IDs.
proof fn lemma_free_exists(c: nat, p: IdParams)
    ensures
        exists|m: nat| c <= m <= c + p.ids.len() && is_free(m, p),
{
    if !exists|m: nat| c <= m <= c + p.ids.len() && is_free(m, p) {
        let s = Seq::new((p.ids.len() + 1) as nat, |i: int| (c + i) as nat);
        assert forall|i: int| 0 <= i < s.len() implies !is_free(#[trigger] s[i], p) by {
            assert(c <= s[i] <= c + p.ids.len());
        }
        lemma_skipped_bound(s, p);
    }
}

proof fn lemma_next_free(c: nat, p: IdParams)
    ensures
        c <= next_free(c, p),
        is_free(next_free(c, p), p),
        forall|j: nat| c <= j < next_free(c, p) ==> !is_free(j, p),
{
    lemma_free_exists(c, p);
    let m0 = choose|m: nat| c <= m <= c + p.ids.len() && is_free(m, p);
    lemma_least_free(c, m0, p);
}

proof fn lemma_least_free(c: nat, m0: nat, p: IdParams)
    requires
        c <= m0,
        is_free(m0, p),
    ensures
        exists|m: nat| c <= m && is_free(m, p) && forall|j: nat| c <= j < m ==> !is_free(j, p),
    decreases m0 - c,
{
    if forall|j: nat| c <= j < m0 ==> !is_free(j, p) {
    } else {
        let j0 = choose|j: nat| c <= j < m0 && is_free(j, p);
        lemma_least_free(c, j0, p);
    }
}

/// What holds of the map after any prefix of the IDs.
pub open spec fn id_map_inv(st: IdMapState, p: IdParams) -> bool {
    let e = st.entries;
    &&& forall|i: int, j: int| 0 <= i < j < e.len() ==> e[i].0 != e[j].0
    &&& forall|i: int| 0 <= i < e.len() ==> p.ids.contains(#[trigger] e[i].0)
    &&& forall|i: int|
        0 <= i < e.len() ==> match #[trigger] e[i].1 {
            Some(x) => x == e[i].0 || exists|m: nat|
                m < st.counter && x == short_id_spec(m, p.prefix) && is_free(m, p),
            None => true,
        }
    &&& forall|i: int, j: int|
        0 <= i < j < e.len() && e[i].1 is Some && e[j].1 is Some ==> e[i].1 != e[j].1
}

proof fn lemma_short_not_id(m: nat, x: Seq<char>, p: IdParams)
    requires
        is_free(m, p),
        p.ids.contains(x),
    ensures
        short_id_spec(m, p.prefix) != x,
{
}

#[verifier::spinoff_prover]
#[verifier::rlimit(60)]
proof fn lemma_id_map_inv(t: Seq<Seq<char>>, p: IdParams)
    requires
        forall|i: int| 0 <= i < t.len() ==> p.ids.contains(#[trigger] t[i]),
    ensures
        id_map_inv(id_map_of(t, p), p),
    decreases t.len(),
{
    if t.len() > 0 {
        let t0 = t.drop_last();
        assert forall|i: int| 0 <= i < t0.len() implies p.ids.contains(#[trigger] t0[i]) by {
            assert(t0[i] == t[i]);
        }
        lemma_id_map_inv(t0, p);
        let st = id_map_of(t0, p);
        let id = t.last();
        assert(p.ids.contains(id)) by {
            assert(t[t.len() - 1] == id);
        }
        let e = st.entries;
        lemma_key_index(e, id);
        let ji = key_index(e, id);
        let st2 = id_step(st, id, p);
        let v: Option<Seq<char>> = if protected_id(id, p.noninkscape, p.protect_list, p.protect_prefix) {
            Some(id)
        } else if p.strip && !p.referenced.contains(id) {
            None
        } else if p.shorten {
            Some(short_id_spec(next_free(st.counter, p), p.prefix))
        } else {
            Some(id)
        };
        if p.shorten && !protected_id(id, p.noninkscape, p.protect_list, p.protect_prefix) && !(
        p.strip && !p.referenced.contains(id)) {
            lemma_next_free(st.counter, p);
        }
        assert(st2.entries == map_insert(e, id, v));
        assert(st2.counter >= st.counter);
        let e2 = st2.entries;
        // Every entry other than the one for `id` is unchanged.
        assert forall|i: int| 0 <= i < e2.len() && e2[i].0 != id implies i < e.len() && e2[i]
            == e[i] by {}
        // The entry for `id`.
        assert(exists|jn: int| 0 <= jn < e2.len() && e2[jn] == (id, v)) by {
            if ji < e.len() {
                assert(e2[ji] == (id, v));
            } else {
                assert(e2[e.len() as int] == (id, v));
            }
        }
        // The new value differs from every other value.
        assert forall|i: int| 0 <= i < e2.len() && e2[i].0 != id && e2[i].1 is Some && v is Some implies e2[i].1
            != v by {
            assert(e2[i] == e[i]);
            let y = e[i].1->Some_0;
            let x = v->Some_0;
            if y == e[i].0 {
                if x == id {
                } else {
                    lemma_short_not_id(next_free(st.counter, p), e[i].0, p);
                }
            } else {
                let m1 = choose|m: nat|
                    m < st.counter && y == short_id_spec(m, p.prefix) && is_free(m, p);
                if x == id {
                    lemma_short_not_id(m1, id, p);
                } else {
                    if y == x {
                        lemma_short_id_injective(m1, next_free(st.counter, p), p.prefix);
                    }
                }
            }
        }
        assert(id_map_inv(st2, p)) by {
            assert forall|i: int, j: int| 0 <= i < j < e2.len() implies e2[i].0 != e2[j].0 by {
                if e2[i].0 == id && e2[j].0 == id {
                    if ji < e.len() {
                        assert(i < e.len() && j < e.len());
                    }
                }
            }
            assert forall|i: int| 0 <= i < e2.len() implies match #[trigger] e2[i].1 {
                Some(x) => x == e2[i].0 || exists|m: nat|
                    m < st2.counter && x == short_id_spec(m, p.prefix) && is_free(m, p),
                None => true,
            } by {
                if e2[i].0 != id {
                    assert(e2[i] == e[i]);
                    match e[i].1 {
                        Some(x) => {
                            if x != e[i].0 {
                                let m1 = choose|m: nat|
                                    m < st.counter && x == short_id_spec(m, p.prefix) && is_free(m, p);
                                assert(m1 < st2.counter);
                            }
                        },
                        None => {},
                    }
                } else {
                    if ji < e.len() {
                        assert(i == ji);
                    } else {
                        assert(i == e.len());
                    }
                    assert(e2[i] == (id, v));
                    if p.shorten && !protected_id(id, p.noninkscape, p.protect_list, p.protect_prefix)
                        && !(p.strip && !p.referenced.contains(id)) {
                        assert(next_free(st.counter, p) < st2.counter);
                    }
                }
            }
            assert forall|i: int, j: int|
                0 <= i < j < e2.len() && e2[i].1 is Some && e2[j].1 is Some implies e2[i].1
                != e2[j].1 by {
                if e2[i].0 != id && e2[j].0 != id {
                    assert(e2[i] == e[i] && e2[j] == e[j]);
                } else if e2[i].0 == id {
                    assert(e2[i].1 == v);
                } else {
                    assert(e2[j].0 == id);
                    if ji < e.len() {
                        assert(j == ji);
                    } else {
                        assert(j == e.len());
                    }
                    assert(e2[j].1 == v);
                }
            }
        }
    }
}

/// No two IDs end up with the same name: the rename map never gives two of
/// its entries the same new ID, and a shortened ID never collides with an ID
/// of the document.
pub proof fn lemma_id_map_names_distinct(p: IdParams)
    ensures
        ({
            let e = id_map_of(p.ids, p).entries;
            &&& forall|i: int, j: int|
                0 <= i < j < e.len() && e[i].1 is Some && e[j].1 is Some ==> e[i].1 != e[j].1
            &&& forall|i: int|
                0 <= i < e.len() && (#[trigger] e[i].1) is Some && e[i].1->Some_0 != e[i].0
                    ==> !p.ids.contains(e[i].1->Some_0)
        }),
{
    assert forall|i: int| 0 <= i < p.ids.len() implies p.ids.contains(#[trigger] p.ids[i]) by {}
    lemma_id_map_inv(p.ids, p);
}

/// What the map records for one ID: a protected ID keeps its name; an ID is
/// removed exactly when it is unprotected, IDs are stripped and nothing
/// refers to it; without shortening, a kept ID keeps its name.
pub open spec fn verdict_ok(k: Seq<char>, v: Option<Seq<char>>, p: IdParams) -> bool {
    let prot = protected_id(k, p.noninkscape, p.protect_list, p.protect_prefix);
    &&& (prot ==> v == Some(k))
    &&& (v is None <==> (!prot && p.strip && !p.referenced.contains(k)))
    &&& (!p.shorten && v is Some ==> v == Some(k))
}

proof fn lemma_map_insert(m: Seq<(Seq<char>, Option<Seq<char>>)>, k: Seq<char>, v: Option<Seq<char>>)
    ensures
        ({
            let m2 = map_insert(m, k, v);
            &&& exists|i: int| 0 <= i < m2.len() && m2[i] == (k, v)
            &&& forall|i: int| 0 <= i < m2.len() ==> m2[i] == (k, v) || m.contains(m2[i])
            &&& forall|i: int| 0 <= i < m.len() ==> exists|j: int| 0 <= j < m2.len() && m2[j].0 == (#[trigger] m[i]).0
        }),
{
    lemma_key_index(m, k);
    let j = key_index(m, k);
    let m2 = map_insert(m, k, v);
    if j < m.len() {
        assert(m2[j] == (k, v));
        assert forall|i: int| 0 <= i < m2.len() implies m2[i] == (k, v) || m.contains(m2[i]) by {
            if i != j {
                assert(m2[i] == m[i]);
            }
        }
        assert forall|i: int| 0 <= i < m.len() implies exists|t: int| 0 <= t < m2.len() && m2[t].0 == (#[trigger] m[i]).0 by {
            assert(m2[i].0 == m[i].0);
        }
    } else {
        assert(m2[m.len() as int] == (k, v));
        assert forall|i: int| 0 <= i < m2.len() implies m2[i] == (k, v) || m.contains(m2[i]) by {
            if i < m.len() {
                assert(m2[i] == m[i]);
            }
        }
        assert forall|i: int| 0 <= i < m.len() implies exists|t: int| 0 <= t < m2.len() && m2[t].0 == (#[trigger] m[i]).0 by {
            assert(m2[i].0 == m[i].0);
        }
    }
}

proof fn lemma_verdicts(t: Seq<Seq<char>>, p: IdParams)
    ensures
        ({
            let e = id_map_of(t, p).entries;
            &&& forall|i: int| 0 <= i < e.len() ==> verdict_ok(e[i].0, e[i].1, p)
            &&& forall|j: int| 0 <= j < t.len() ==> exists|i: int| 0 <= i < e.len() && e[i].0 == #[trigger] t[j]
        }),
    decreases t.len(),
{
    if t.len() > 0 {
        let t0 = t.drop_last();
        lemma_verdicts(t0, p);
        let st = id_map_of(t0, p);
        let id = t.last();
        let st2 = id_step(st, id, p);
        assert(id_map_of(t, p) == st2);
        let v = if protected_id(id, p.noninkscape, p.protect_list, p.protect_prefix) {
            Some(id)
        } else if p.strip && !p.referenced.contains(id) {
            None
        } else if p.shorten {
            Some(short_id_spec(next_free(st.counter, p), p.prefix))
        } else {
            Some(id)
        };
        assert(st2.entries == map_insert(st.entries, id, v));
        assert(verdict_ok(id, v, p));
        lemma_map_insert(st.entries, id, v);
        let e = st2.entries;
        assert forall|i: int| 0 <= i < e.len() implies verdict_ok(e[i].0, e[i].1, p) by {
            if e[i] != (id, v) {
                let k = choose|k: int| 0 <= k < st.entries.len() && st.entries[k] == e[i];
            }
        }
        assert forall|j: int| 0 <= j < t.len() implies exists|i: int| 0 <= i < e.len() && e[i].0 == #[trigger] t[j] by {
            if j < t0.len() {
                assert(t[j] == t0[j]);
                let i0 = choose|i: int| 0 <= i < st.entries.len() && st.entries[i].0 == t0[j];
            } else {
                let i1 = choose|i: int| 0 <= i < e.len() && e[i] == (id, v);
            }
        }
    }
}

/// Stripping and shortening decide each ID as documented: every ID of the
/// document has an entry in the rename map; a protected ID keeps its name; an
/// ID is removed exactly when it is unprotected, IDs are stripped and nothing
/// refers to it; without shortening, every kept ID keeps its name.
pub proof fn lemma_id_map_verdicts(p: IdParams)
    ensures
        ({
            let e = id_map_of(p.ids, p).entries;
            &&& forall|i: int| 0 <= i < e.len() ==> verdict_ok(e[i].0, e[i].1, p)
            &&& forall|j: int| 0 <= j < p.ids.len() ==> exists|i: int| 0 <= i < e.len() && e[i].0 == #[trigger] p.ids[j]
        }),
{
    lemma_verdicts(p.ids, p);
}


/// Whether the ID gets a short name: it is unprotected, not stripped, and
/// IDs are shortened.
pub open spec fn renamed_id(id: Seq<char>, p: IdParams) -> bool {
    &&& p.shorten
    &&& !protected_id(id, p.noninkscape, p.protect_list, p.protect_prefix)
    &&& !(p.strip && !p.referenced.contains(id))
}

/// How many of the IDs `t` get a short name.
pub open spec fn renamed_count(t: Seq<Seq<char>>, p: IdParams) -> nat
    decreases t.len(),
{
    if t.len() == 0 {
        0
    } else {
        renamed_count(t.drop_last(), p) + if renamed_id(t.last(), p) {
            1nat
        } else {
            0nat
        }
    }
}

/// The `j`-th free short-ID number, counting from `0`.
pub open spec fn nth_free(j: nat, p: IdParams) -> nat
    decreases j,
{
    if j == 0 {
        next_free(0, p)
    } else {
        next_free(nth_free((j - 1) as nat, p) + 1, p)
    }
}

/// How many entries of the map remove their ID.
pub open spec fn none_count(e: Seq<(Seq<char>, Option<Seq<char>>)>) -> nat
    decreases e.len(),
{
    if e.len() == 0 {
        0
    } else {
        none_count(e.drop_last()) + if e.last().1 is None {
            1nat
        } else {
            0nat
        }
    }
}

/// The free short-ID numbers in increasing order, none left out: `nth_free`
/// is free, grows, and no free number lies below the first or between two
/// successive ones.
pub proof fn lemma_nth_free(j: nat, p: IdParams)
    ensures
        is_free(nth_free(j, p), p),
        nth_free(j, p) < nth_free(j + 1, p),
        forall|m: nat| nth_free(j, p) < m < nth_free(j + 1, p) ==> !is_free(m, p),
        forall|m: nat| m < nth_free(0, p) ==> !is_free(m, p),
{
    if j == 0 {
        lemma_next_free(0, p);
    } else {
        lemma_next_free(nth_free((j - 1) as nat, p) + 1, p);
    }
    assert(nth_free(j + 1, p) == next_free(nth_free(j, p) + 1, p));
    lemma_next_free(nth_free(j, p) + 1, p);
    lemma_next_free(0, p);
}

#[verifier::rlimit(40)]
proof fn lemma_id_map_prefix(t: Seq<Seq<char>>, p: IdParams)
    requires
        t.no_duplicates(),
    ensures
        ({
            let st = id_map_of(t, p);
            let rc = renamed_count(t, p);
            &&& st.entries.len() == t.len()
            &&& forall|i: int| 0 <= i < t.len() ==> (#[trigger] st.entries[i]).0 == t[i]
            &&& st.removed == none_count(st.entries)
            &&& st.counter == (if rc == 0 {
                0
            } else {
                nth_free((rc - 1) as nat, p) + 1
            })
            &&& forall|i: int|
                0 <= i < t.len() && renamed_id(#[trigger] t[i], p) ==> st.entries[i].1 == Some(
                    short_id_spec(nth_free(renamed_count(t.take(i), p), p), p.prefix),
                )
        }),
    decreases t.len(),
{
    if t.len() > 0 {
        let t0 = t.drop_last();
        assert(t0.no_duplicates()) by {
            assert forall|i: int, j: int| 0 <= i < t0.len() && 0 <= j < t0.len() && i != j implies t0[i]
                != t0[j] by {
                assert(t0[i] == t[i] && t0[j] == t[j]);
            }
        }
        lemma_id_map_prefix(t0, p);
        let st = id_map_of(t0, p);
        let id = t.last();
        let e = st.entries;
        lemma_key_index(e, id);
        assert(key_index(e, id) == e.len()) by {
            let j = key_index(e, id);
            if j < e.len() {
                assert(e[j].0 == t0[j]);
                assert(t0[j] == t[j]);
                assert(t[t.len() - 1] == id);
            }
        }
        let v: Option<Seq<char>> = if protected_id(id, p.noninkscape, p.protect_list, p.protect_prefix) {
            Some(id)
        } else if p.strip && !p.referenced.contains(id) {
            None
        } else if p.shorten {
            Some(short_id_spec(next_free(st.counter, p), p.prefix))
        } else {
            Some(id)
        };
        let st2 = id_map_of(t, p);
        assert(st2 == id_step(st, id, p));
        let e2 = e.push((id, v));
        assert(st2.entries == e2);
        assert(e2.drop_last() =~= e);
        let rc0 = renamed_count(t0, p);
        assert(renamed_count(t, p) == rc0 + if renamed_id(id, p) {
            1nat
        } else {
            0nat
        });
        if renamed_id(id, p) {
            if rc0 == 0 {
                assert(next_free(st.counter, p) == nth_free(0, p));
            } else {
                assert(next_free(st.counter, p) == nth_free(rc0, p));
            }
        }
        assert forall|i: int| 0 <= i < t.len() implies (#[trigger] e2[i]).0 == t[i] by {
            if i < t0.len() {
                assert(e2[i] == e[i] && t[i] == t0[i]);
            }
        }
        assert forall|i: int|
            0 <= i < t.len() && renamed_id(#[trigger] t[i], p) implies e2[i].1 == Some(
            short_id_spec(nth_free(renamed_count(t.take(i), p), p), p.prefix),
        ) by {
            if i < t0.len() {
                assert(e2[i] == e[i] && t[i] == t0[i]);
                assert(t.take(i) =~= t0.take(i));
            } else {
                assert(t.take(i) =~= t0);
            }
        }
    }
}

/// The rename map of IDs that are all different: one entry per ID, in
/// document order; the count of removed IDs is the number of entries that
/// remove their ID; and the IDs that get a short name get, in document
/// order, the short IDs of the successive free numbers (`lemma_nth_free`),
/// the first one first.
pub proof fn lemma_id_map_order(p: IdParams)
    requires
        p.ids.no_duplicates(),
    ensures
        ({
            let st = id_map_of(p.ids, p);
            &&& st.entries.len() == p.ids.len()
            &&& forall|i: int| 0 <= i < p.ids.len() ==> (#[trigger] st.entries[i]).0 == p.ids[i]
            &&& st.removed == none_count(st.entries)
            &&& forall|i: int|
                0 <= i < p.ids.len() && renamed_id(#[trigger] p.ids[i], p) ==> st.entries[i].1
                    == Some(short_id_spec(nth_free(renamed_count(p.ids.take(i), p), p), p.prefix))
        }),
{
    lemma_id_map_prefix(p.ids, p);
}

} // verus!

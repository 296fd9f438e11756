//! Structural clean-up of absolute path commands. The commands carry
//! floating-point coordinates, so they are given here by their letters
//! (`M`, `L`, `C`, `Q`, `A`, `Z`), and each pass answers with the indices of
//! the commands it keeps, in order.
use vstd::prelude::*;

verus! {

/// Command `i` is an `M` directly followed by another `M`.
pub open spec fn move_before_move(k: Seq<char>, i: int) -> bool {
    k[i] == 'M' && i + 1 < k.len() && k[i + 1] == 'M'
}

/// The indices below `n` that survive dropping every `M` directly followed
/// by another `M`.
pub open spec fn moves_kept(k: Seq<char>, n: int) -> Seq<usize>
    decreases n,
{
    if n <= 0 {
        Seq::empty()
    } else if move_before_move(k, n - 1) {
        moves_kept(k, n - 1)
    } else {
        moves_kept(k, n - 1).push((n - 1) as usize)
    }
}

/// Drop all but the last of consecutive `M` commands (the earlier ones draw
/// nothing): the indices of the commands kept.
pub fn remove_consecutive_moves(kinds: &[char]) -> (r: Vec<usize>)
    ensures
        r@ == moves_kept(kinds@, kinds@.len() as int),
{
    let n = kinds.len();
    let mut out: Vec<usize> = Vec::new();
    let mut i: usize = 0;
    while i < n
        invariant
            i <= n == kinds@.len(),
            out@ == moves_kept(kinds@, i as int),
        decreases n - i,
    {
        if !(kinds[i] == 'M' && i + 1 < n && kinds[i + 1] == 'M') {
            out.push(i);
        }
        i += 1;
    }
    out
}

/// The indices from `i` on that survive dropping each `M` directly followed
/// by `Z` together with that `Z`, scanning from the left.
pub open spec fn subpaths_kept(k: Seq<char>, i: int) -> Seq<usize>
    decreases k.len() - i,
{
    if i < 0 || i >= k.len() {
        Seq::empty()
    } else if k[i] == 'M' && i + 1 < k.len() && k[i + 1] == 'Z' {
        subpaths_kept(k, i + 2)
    } else {
        seq![i as usize] + subpaths_kept(k, i + 1)
    }
}

/// Remove each `M` immediately followed by `Z`, with the `Z` (together they
/// draw nothing): the indices of the commands kept.
pub fn remove_empty_subpaths(kinds: &[char]) -> (r: Vec<usize>)
    ensures
        r@ == subpaths_kept(kinds@, 0),
{
    let n = kinds.len();
    let mut out: Vec<usize> = Vec::new();
    let mut i: usize = 0;
    while i < n
        invariant
            i <= n == kinds@.len(),
            out@ + subpaths_kept(kinds@, i as int) == subpaths_kept(kinds@, 0),
        decreases n - i,
    {
        if kinds[i] == 'M' && i + 1 < n && kinds[i + 1] == 'Z' {
            i += 2;
        } else {
            let ghost before = out@;
            out.push(i);
            assert(out@ + subpaths_kept(kinds@, i + 1) =~= before + subpaths_kept(kinds@, i as int));
            i += 1;
        }
    }
    assert(out@ + subpaths_kept(kinds@, i as int) =~= out@);
    out
}

} // verus!

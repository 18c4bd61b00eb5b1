//! The relative-path resolver: from two canonical component sequences, the
//! parent-directory steps and trailing components that lead from the first
//! file's directory to the second file.

use vstd::prelude::*;

verus! {

/// A relative path from the directory holding some base file to a target
/// file: `ups` parent-directory steps followed by the `tail` components.
pub struct RelPath {
    pub ups: usize,
    pub tail: Vec<String>,
}

/// `k` is the length of the longest common leading prefix of `a` and `b`.
pub open spec fn is_lcp(a: Seq<Seq<char>>, b: Seq<Seq<char>>, k: int) -> bool {
    &&& 0 <= k <= a.len()
    &&& k <= b.len()
    &&& (forall|i: int| 0 <= i < k ==> a[i] == b[i])
    &&& (k < a.len() && k < b.len() ==> a[k] != b[k])
}

/// `a` is a leading prefix of `b`.
pub open spec fn is_prefix(a: Seq<Seq<char>>, b: Seq<Seq<char>>) -> bool {
    a.len() <= b.len() && forall|i: int| 0 <= i < a.len() ==> a[i] == b[i]
}

/// The components reached by starting in the directory `dir`, stepping up
/// `ups` times, and descending through `tail`.
pub open spec fn resolve(dir: Seq<Seq<char>>, ups: int, tail: Seq<Seq<char>>) -> Seq<Seq<char>> {
    dir.take(dir.len() - ups) + tail
}

/// Computes the relative path from the directory holding `base` to `target`.
/// Both are canonical absolute paths given as their component sequences (no
/// root marker, no `.` or `..` segments, no symbolic links left unresolved).
/// Beyond the longest common prefix, one `..` is emitted for every residual
/// base component except the first — the first stands for the base file
/// itself, which the relative path is resolved from — and the residual target
/// components follow verbatim.
pub fn relative_path(base: &Vec<String>, target: &Vec<String>) -> (r: RelPath)
    ensures
        forall|k: int|
            is_lcp(base.deep_view(), target.deep_view(), k) ==> {
                &&& r.ups == (if k < base.deep_view().len() {
                    base.deep_view().len() - k - 1
                } else {
                    0
                })
                &&& r.tail.deep_view() == target.deep_view().skip(k)
            },
        exists|k: int| is_lcp(base.deep_view(), target.deep_view(), k),
{
    let ghost bs: Seq<Seq<char>> = base.deep_view();
    let ghost ts: Seq<Seq<char>> = target.deep_view();
    let mut k: usize = 0;
    while k < base.len() && k < target.len() && base[k] == target[k]
        invariant
            0 <= k <= bs.len(),
            k <= ts.len(),
            bs == base.deep_view(),
            ts == target.deep_view(),
            forall|i: int| 0 <= i < k ==> bs[i] == ts[i],
        decreases bs.len() - k,
    {
        k += 1;
    }
    proof {
        assert(is_lcp(bs, ts, k as int));
        assert(forall|k2: int| is_lcp(bs, ts, k2) ==> k2 == k as int) by {
            assert forall|k2: int| is_lcp(bs, ts, k2) implies k2 == k as int by {
                if k2 < k as int {
                    assert(bs[k2] == ts[k2]);
                } else if k2 > k as int {
                    assert(bs[k as int] == ts[k as int]);
                }
            }
        }
    }
    let ups: usize = if k < base.len() { base.len() - k - 1 } else { 0 };
    let mut tail: Vec<String> = Vec::new();
    let mut j: usize = k;
    while j < target.len()
        invariant
            k <= j <= ts.len(),
            ts == target.deep_view(),
            tail@.len() == j - k,
            forall|i: int| 0 <= i < tail@.len() ==> #[trigger] tail@[i]@ == ts[k + i],
        decreases ts.len() - j,
    {
        tail.push(target[j].clone());
        j += 1;
    }
    proof {
        assert forall|i: int| 0 <= i < tail.deep_view().len() implies #[trigger] tail.deep_view()[i]
            == ts.skip(k as int)[i] by {
            assert(tail.deep_view()[i] == tail@[i]@);
        }
        assert(tail.deep_view() =~= ts.skip(k as int));
    }
    RelPath { ups, tail }
}

/// Law: resolving the computed relative path from the base file's directory
/// yields the target. Holds whenever the base path is not itself a leading
/// prefix of the target (a base file cannot be an ancestor directory of the
/// target on a real filesystem).
pub proof fn lemma_relative_path_resolves(bs: Seq<Seq<char>>, ts: Seq<Seq<char>>, k: int)
    requires
        is_lcp(bs, ts, k),
        !is_prefix(bs, ts),
    ensures
        k < bs.len(),
        resolve(bs.take(bs.len() - 1), bs.len() - k - 1, ts.skip(k)) == ts,
{
    if k == bs.len() {
        assert(is_prefix(bs, ts));
    }
    assert(k < bs.len());
    let dir = bs.take(bs.len() - 1);
    let ups = bs.len() - k - 1;
    assert(dir.take(dir.len() - ups) =~= bs.take(k));
    assert(bs.take(k) =~= ts.take(k));
    assert(ts.take(k) + ts.skip(k) =~= ts);
}

} // verus!

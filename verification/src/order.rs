//! Stable orderings of rows: by a text key (ascending) and by a time stamp
//! (newest first). Both hand back the permutation of row positions, so that a
//! caller can lay its own rows out in that order.

use vstd::prelude::*;
use crate::text::{lemma_text_le_transitive, lemma_text_lt_asymmetric, lemma_text_lt_irreflexive, text_le, text_less, text_lt};

verus! {

/// `idx` lists each of the positions `0..n` exactly once.
pub open spec fn is_perm(idx: Seq<usize>, n: nat) -> bool {
    &&& idx.len() == n
    &&& forall|i: int| 0 <= i < n ==> #[trigger] idx[i] < n
    &&& forall|i: int, j: int| 0 <= i < j < n ==> idx[i] != idx[j]
    &&& forall|k: usize| k < n ==> #[trigger] idx.contains(k)
}

/// `idx` is the stable ascending order of the rows whose keys are `keys`.
pub open spec fn text_order(idx: Seq<usize>, keys: Seq<Seq<char>>) -> bool {
    &&& is_perm(idx, keys.len())
    &&& forall|i: int, j: int|
        0 <= i < j < idx.len() ==> text_le(#[trigger] keys[idx[i] as int], #[trigger] keys[idx[j] as int])
    &&& forall|i: int, j: int|
        0 <= i < j < idx.len() && keys[idx[i] as int] == keys[idx[j] as int] ==> idx[i] < idx[j]
}

/// `idx` is the stable newest-first order of the rows stamped `stamps`.
pub open spec fn newest_first_order(idx: Seq<usize>, stamps: Seq<i64>) -> bool {
    &&& is_perm(idx, stamps.len())
    &&& forall|i: int, j: int|
        0 <= i < j < idx.len() ==> #[trigger] stamps[idx[i] as int] >= #[trigger] stamps[idx[j] as int]
    &&& forall|i: int, j: int|
        0 <= i < j < idx.len() && stamps[idx[i] as int] == stamps[idx[j] as int] ==> idx[i] < idx[j]
}

/// Values that can be copied exactly.
pub trait Duplicate: Sized {
    fn duplicate(&self) -> (r: Self)
        ensures
            r == *self,
    ;
}

/// `out` holds the rows `rows` in the order `idx`.
pub open spec fn laid_out<T>(out: Seq<T>, rows: Seq<T>, idx: Seq<usize>) -> bool {
    &&& out.len() == idx.len()
    &&& forall|k: int| 0 <= k < idx.len() ==> out[k] == rows[#[trigger] idx[k] as int]
}

/// `out` is `rows` sorted stably by the text key `key`.
pub open spec fn sorted_by_text<T>(out: Seq<T>, rows: Seq<T>, key: spec_fn(T) -> Seq<char>) -> bool {
    exists|idx: Seq<usize>| text_order(idx, rows.map_values(key)) && laid_out(out, rows, idx)
}

/// `out` is `rows` sorted stably newest first by the stamp `stamp`.
pub open spec fn sorted_newest_first<T>(out: Seq<T>, rows: Seq<T>, stamp: spec_fn(T) -> i64) -> bool {
    exists|idx: Seq<usize>| newest_first_order(idx, rows.map_values(stamp)) && laid_out(out, rows, idx)
}

/// `out` holds, in the order `idx`, one entry for each row of `src`, each
/// standing in the relation `rel` to its row.
pub open spec fn arranged<A, B>(out: Seq<A>, src: Seq<B>, idx: Seq<usize>, rel: spec_fn(A, B) -> bool) -> bool {
    &&& out.len() == idx.len()
    &&& forall|k: int| 0 <= k < idx.len() ==> #[trigger] rel(out[k], src[idx[k] as int])
}

/// `out` renders the rows `src`, sorted stably by the text key `key`; each
/// entry stands in the relation `rel` to its row.
pub open spec fn text_sorted_as<A, B>(
    out: Seq<A>,
    src: Seq<B>,
    key: spec_fn(B) -> Seq<char>,
    rel: spec_fn(A, B) -> bool,
) -> bool {
    exists|idx: Seq<usize>| text_order(idx, src.map_values(key)) && arranged(out, src, idx, rel)
}

/// Copies the rows in the order `idx`.
pub fn lay_out<T: Duplicate>(rows: &Vec<T>, idx: &Vec<usize>) -> (out: Vec<T>)
    requires
        forall|k: int| 0 <= k < idx.len() ==> #[trigger] idx@[k] < rows.len(),
    ensures
        laid_out(out@, rows@, idx@),
{
    let mut out: Vec<T> = Vec::new();
    let mut k: usize = 0;
    while k < idx.len()
        invariant
            k <= idx.len(),
            forall|m: int| 0 <= m < idx.len() ==> #[trigger] idx@[m] < rows.len(),
            out.len() == k,
            forall|m: int| 0 <= m < k ==> out@[m] == rows@[#[trigger] idx@[m] as int],
        decreases idx.len() - k,
    {
        out.push(rows[idx[k]].duplicate());
        k = k + 1;
    }
    out
}

/// The stable ascending order of rows by their text keys (a stable
/// `sort_by(|a, b| a.key.cmp(&b.key))`).
pub fn order_by_text(keys: &Vec<Vec<char>>) -> (idx: Vec<usize>)
    ensures
        text_order(idx@, keys@.map_values(|k: Vec<char>| k@)),
{
    let ghost ks = keys@.map_values(|k: Vec<char>| k@);
    let mut idx: Vec<usize> = Vec::new();
    let mut i: usize = 0;
    while i < keys.len()
        invariant
            i <= keys.len(),
            ks == keys@.map_values(|k: Vec<char>| k@),
            idx.len() == i,
            forall|a: int| 0 <= a < i ==> #[trigger] idx@[a] < i,
            forall|a: int, b: int| 0 <= a < b < i ==> idx@[a] != idx@[b],
            forall|k: usize| k < i ==> #[trigger] idx@.contains(k),
            forall|a: int, b: int|
                0 <= a < b < i ==> text_le(#[trigger] ks[idx@[a] as int], #[trigger] ks[idx@[b] as int]),
            forall|a: int, b: int|
                0 <= a < b < i && ks[idx@[a] as int] == ks[idx@[b] as int] ==> idx@[a] < idx@[b],
        decreases keys.len() - i,
    {
        let mut j: usize = idx.len();
        while j > 0 && text_less(&keys[i], &keys[idx[j - 1]])
            invariant
                i < keys.len(),
                ks == keys@.map_values(|k: Vec<char>| k@),
                idx.len() == i,
                j <= i,
                forall|a: int| 0 <= a < i ==> #[trigger] idx@[a] < i,
                forall|m: int| j <= m < i ==> text_lt(ks[i as int], #[trigger] ks[idx@[m] as int]),
            decreases j,
        {
            j = j - 1;
        }
        let ghost old_idx = idx@;
        proof {
            assert forall|a: int| 0 <= a < j implies text_le(#[trigger] ks[old_idx[a] as int], ks[i as int]) by {
                if a < j - 1 {
                    lemma_text_le_transitive(ks[old_idx[a] as int], ks[old_idx[j - 1] as int], ks[i as int]);
                }
            }
            assert forall|m: int| j <= m < i implies text_le(ks[i as int], #[trigger] ks[old_idx[m] as int]) by {
                lemma_text_lt_asymmetric(ks[i as int], ks[old_idx[m] as int]);
            }
            assert forall|m: int| j <= m < i implies ks[i as int] != #[trigger] ks[old_idx[m] as int] by {
                lemma_text_lt_irreflexive(ks[i as int]);
            }
        }
        idx.insert(j, i);
        proof {
            let n = idx@;
            assert(n == old_idx.insert(j as int, i));
            assert forall|a: int| 0 <= a < i + 1 implies #[trigger] n[a] < i + 1 by {
                if a > j {
                    assert(n[a] == old_idx[a - 1]);
                }
            }
            assert forall|k: usize| k < i + 1 implies #[trigger] n.contains(k) by {
                if k == i {
                    assert(n[j as int] == k);
                } else {
                    assert(old_idx.contains(k));
                    let p = choose|p: int| 0 <= p < old_idx.len() && old_idx[p] == k;
                    if p < j {
                        assert(n[p] == k);
                    } else {
                        assert(n[p + 1] == k);
                    }
                }
            }
            assert forall|a: int, b: int|
                0 <= a < b < i + 1 implies text_le(#[trigger] ks[n[a] as int], #[trigger] ks[n[b] as int]) by {
                if b < j {
                } else if b == j {
                } else if a < j {
                    assert(n[b] == old_idx[b - 1]);
                    lemma_text_le_transitive(ks[n[a] as int], ks[i as int], ks[n[b] as int]);
                } else if a == j {
                    assert(n[b] == old_idx[b - 1]);
                } else {
                    assert(n[a] == old_idx[a - 1]);
                    assert(n[b] == old_idx[b - 1]);
                }
            }
            assert forall|a: int, b: int| 0 <= a < b < i + 1 implies n[a] != n[b] by {
                if a > j {
                    assert(n[a] == old_idx[a - 1]);
                }
                if b > j {
                    assert(n[b] == old_idx[b - 1]);
                }
            }
            assert forall|a: int, b: int|
                0 <= a < b < i + 1 && ks[n[a] as int] == ks[n[b] as int] implies n[a] < n[b] by {
                if a > j {
                    assert(n[a] == old_idx[a - 1]);
                }
                if b > j {
                    assert(n[b] == old_idx[b - 1]);
                }
            }
        }
        i = i + 1;
    }
    idx
}

/// The stable newest-first order of rows by their time stamps (a stable
/// `sort_by(|a, b| b.at.cmp(&a.at))`).
pub fn order_newest_first(stamps: &Vec<i64>) -> (idx: Vec<usize>)
    ensures
        newest_first_order(idx@, stamps@),
{
    let mut idx: Vec<usize> = Vec::new();
    let mut i: usize = 0;
    while i < stamps.len()
        invariant
            i <= stamps.len(),
            idx.len() == i,
            forall|a: int| 0 <= a < i ==> #[trigger] idx@[a] < i,
            forall|a: int, b: int| 0 <= a < b < i ==> idx@[a] != idx@[b],
            forall|k: usize| k < i ==> #[trigger] idx@.contains(k),
            forall|a: int, b: int|
                0 <= a < b < i ==> #[trigger] stamps@[idx@[a] as int] >= #[trigger] stamps@[idx@[b] as int],
            forall|a: int, b: int|
                0 <= a < b < i && stamps@[idx@[a] as int] == stamps@[idx@[b] as int] ==> idx@[a] < idx@[b],
        decreases stamps.len() - i,
    {
        let mut j: usize = idx.len();
        while j > 0 && stamps[idx[j - 1]] < stamps[i]
            invariant
                i < stamps.len(),
                idx.len() == i,
                j <= i,
                forall|a: int| 0 <= a < i ==> #[trigger] idx@[a] < i,
                forall|m: int| j <= m < i ==> stamps@[i as int] > #[trigger] stamps@[idx@[m] as int],
            decreases j,
        {
            j = j - 1;
        }
        let ghost old_idx = idx@;
        idx.insert(j, i);
        proof {
            let n = idx@;
            assert(n == old_idx.insert(j as int, i));
            assert forall|a: int| 0 <= a < i + 1 implies #[trigger] n[a] < i + 1 by {
                if a > j {
                    assert(n[a] == old_idx[a - 1]);
                }
            }
            assert forall|k: usize| k < i + 1 implies #[trigger] n.contains(k) by {
                if k == i {
                    assert(n[j as int] == k);
                } else {
                    assert(old_idx.contains(k));
                    let p = choose|p: int| 0 <= p < old_idx.len() && old_idx[p] == k;
                    if p < j {
                        assert(n[p] == k);
                    } else {
                        assert(n[p + 1] == k);
                    }
                }
            }
            assert forall|a: int, b: int|
                0 <= a < b < i + 1 implies #[trigger] stamps@[n[a] as int] >= #[trigger] stamps@[n[b] as int] by {
                if b < j {
                } else if b == j {
                    if j > 0 {
                        assert(stamps@[old_idx[a] as int] >= stamps@[old_idx[j - 1] as int]);
                    }
                } else if a < j {
                    assert(n[b] == old_idx[b - 1]);
                } else if a == j {
                    assert(n[b] == old_idx[b - 1]);
                } else {
                    assert(n[a] == old_idx[a - 1]);
                    assert(n[b] == old_idx[b - 1]);
                }
            }
            assert forall|a: int, b: int| 0 <= a < b < i + 1 implies n[a] != n[b] by {
                if a > j {
                    assert(n[a] == old_idx[a - 1]);
                }
                if b > j {
                    assert(n[b] == old_idx[b - 1]);
                }
            }
            assert forall|a: int, b: int|
                0 <= a < b < i + 1 && stamps@[n[a] as int] == stamps@[n[b] as int] implies n[a] < n[b] by {
                if a > j {
                    assert(n[a] == old_idx[a - 1]);
                }
                if b > j {
                    assert(n[b] == old_idx[b - 1]);
                }
            }
        }
        i = i + 1;
    }
    idx
}

} // verus!

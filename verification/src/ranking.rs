//! The ranking every count-carrying list is drawn in: largest count first,
//! then name, then two slot numbers, each ascending.
use vstd::prelude::*;

use crate::text::{lemma_lex_order, lex_lt, text_order};

verus! {

/// What a ranked entry is ordered by.
#[derive(Debug, Clone)]
pub struct RankKey {
    pub count: u64,
    pub name: String,
    pub first: u32,
    pub second: u32,
}

/// `s` read in the order `p` gives.
pub open spec fn reorder<A>(s: Seq<A>, p: Seq<int>) -> Seq<A> {
    Seq::new(p.len(), |k: int| s[p[k]])
}

/// `a` ranks strictly before `b`.
pub open spec fn rank_before(a: RankKey, b: RankKey) -> bool {
    ||| a.count > b.count
    ||| a.count == b.count && lex_lt(a.name@, b.name@)
    ||| a.count == b.count && a.name@ == b.name@ && a.first < b.first
    ||| a.count == b.count && a.name@ == b.name@ && a.first == b.first && a.second < b.second
}

/// `a` and `b` tie in the ranking.
pub open spec fn same_rank(a: RankKey, b: RankKey) -> bool {
    a.count == b.count && a.name@ == b.name@ && a.first == b.first && a.second == b.second
}

/// `p` lists every index of `keys` once, in ranking order, ties in their
/// original order.
pub open spec fn ranked(keys: Seq<RankKey>, p: Seq<int>) -> bool {
    &&& p.len() == keys.len()
    &&& forall|k: int| 0 <= k < p.len() ==> 0 <= #[trigger] p[k] < keys.len()
    &&& forall|k: int, l: int| 0 <= k < l < p.len() ==> #[trigger] p[k] != #[trigger] p[l]
    &&& forall|k: int, l: int|
        0 <= k < l < p.len() ==> rank_before(keys[#[trigger] p[k]], keys[#[trigger] p[l]]) || (
        same_rank(keys[p[k]], keys[p[l]]) && p[k] < p[l])
}

/// The ranking is a strict weak order whose ties are exactly `same_rank`.
pub proof fn lemma_rank_order(x: RankKey, y: RankKey, z: RankKey)
    ensures
        !rank_before(x, x),
        rank_before(x, y) ==> !rank_before(y, x),
        rank_before(x, y) && rank_before(y, z) ==> rank_before(x, z),
        rank_before(x, y) || rank_before(y, x) || same_rank(x, y),
        same_rank(x, y) ==> !rank_before(x, y) && same_rank(y, x),
        rank_before(x, y) && same_rank(y, z) ==> rank_before(x, z),
        same_rank(x, y) && rank_before(y, z) ==> rank_before(x, z),
{
    lemma_lex_order(x.name@, y.name@, z.name@);
    lemma_lex_order(y.name@, x.name@, z.name@);
    lemma_lex_order(x.name@, z.name@, y.name@);
    lemma_lex_order(y.name@, z.name@, x.name@);
}

fn ranks_before(a: &RankKey, b: &RankKey) -> (r: bool)
    ensures
        r == rank_before(*a, *b),
{
    if a.count != b.count {
        return a.count > b.count;
    }
    let by_name = text_order(a.name.as_str(), b.name.as_str());
    if by_name != 0 {
        return by_name < 0;
    }
    if a.first != b.first {
        return a.first < b.first;
    }
    a.second < b.second
}

/// The indices of `keys` in ranking order; entries that tie keep their
/// order. As a stable sort, the answer is the only one `ranked` admits.
pub fn rank_order(keys: &Vec<RankKey>) -> (p: Vec<usize>)
    ensures
        ranked(keys@, p@.map_values(|i: usize| i as int)),
{
    let mut out: Vec<usize> = Vec::new();
    let mut i: usize = 0;
    while i < keys.len()
        invariant
            i <= keys@.len(),
            out@.len() == i,
            forall|k: int| 0 <= k < out@.len() ==> #[trigger] out@[k] < i,
            forall|k: int, l: int| 0 <= k < l < out@.len() ==> #[trigger] out@[k] != #[trigger] out@[l],
            forall|k: int, l: int|
                0 <= k < l < out@.len() ==> rank_before(
                    keys@[#[trigger] out@[k] as int],
                    keys@[#[trigger] out@[l] as int],
                ) || (same_rank(keys@[out@[k] as int], keys@[out@[l] as int]) && out@[k] < out@[l]),
        decreases keys@.len() - i,
    {
        let ghost x = keys@[i as int];
        let mut pos: usize = out.len();
        while pos > 0 && ranks_before(&keys[i], &keys[out[pos - 1]])
            invariant
                i < keys@.len(),
                x == keys@[i as int],
                pos <= out@.len(),
                forall|k: int| 0 <= k < out@.len() ==> #[trigger] out@[k] < i,
                forall|l: int| pos <= l < out@.len() ==> rank_before(x, keys@[#[trigger] out@[l] as int]),
            decreases pos,
        {
            pos = pos - 1;
        }
        let ghost old_out = out@;
        proof {
            if pos > 0 {
                assert(!rank_before(x, keys@[old_out[pos - 1] as int]));
                assert forall|k: int| 0 <= k < pos implies !rank_before(
                    x,
                    keys@[#[trigger] old_out[k] as int],
                ) by {
                    if k < pos - 1 {
                        let a = keys@[old_out[k] as int];
                        let b = keys@[old_out[pos - 1] as int];
                        lemma_rank_order(x, a, b);
                        lemma_rank_order(a, b, x);
                    }
                }
            }
        }
        out.insert(pos, i);
        proof {
            assert forall|k: int| 0 <= k < out@.len() implies #[trigger] out@[k] < i + 1 by {
                if k < pos {
                    assert(out@[k] == old_out[k]);
                } else if k > pos {
                    assert(out@[k] == old_out[k - 1]);
                }
            }
            assert forall|k: int, l: int| 0 <= k < l < out@.len() implies #[trigger] out@[k]
                != #[trigger] out@[l] by {
                if k == pos {
                    assert(out@[l] == old_out[l - 1]);
                } else if l == pos {
                    assert(out@[k] == old_out[k]);
                } else {
                    let k0 = if k < pos { k } else { k - 1 };
                    let l0 = if l < pos { l } else { l - 1 };
                    assert(out@[k] == old_out[k0]);
                    assert(out@[l] == old_out[l0]);
                }
            }
            assert forall|k: int, l: int| 0 <= k < l < out@.len() implies rank_before(
                keys@[#[trigger] out@[k] as int],
                keys@[#[trigger] out@[l] as int],
            ) || (same_rank(keys@[out@[k] as int], keys@[out@[l] as int]) && out@[k] < out@[l]) by {
                if k == pos {
                    assert(out@[l] == old_out[l - 1]);
                } else if l == pos {
                    assert(out@[k] == old_out[k]);
                    let a = keys@[old_out[k] as int];
                    assert(!rank_before(x, a));
                    lemma_rank_order(a, x, x);
                } else {
                    let k0 = if k < pos { k } else { k - 1 };
                    let l0 = if l < pos { l } else { l - 1 };
                    assert(out@[k] == old_out[k0]);
                    assert(out@[l] == old_out[l0]);
                }
            }
        }
        i = i + 1;
    }
    proof {
        let p = out@.map_values(|j: usize| j as int);
        assert forall|k: int, l: int| 0 <= k < l < p.len() implies rank_before(
            keys@[#[trigger] p[k]],
            keys@[#[trigger] p[l]],
        ) || (same_rank(keys@[p[k]], keys@[p[l]]) && p[k] < p[l]) by {
            assert(p[k] == out@[k] as int);
            assert(p[l] == out@[l] as int);
        }
        assert forall|k: int, l: int| 0 <= k < l < p.len() implies #[trigger] p[k]
            != #[trigger] p[l] by {
            assert(out@[k] != out@[l]);
        }
    }
    out
}

} // verus!

//! Laws of dense ranking, stated over the model that `rank_by` and
//! `RankedBy::collect` are specified by.

use crate::rank::{
    is_ranking, is_stable_sort, key_le, keys_of, lemma_key_order, lemma_ranks_len,
    rank_step, ranks_from, sorts_stably, Rank,
};
use vstd::laws_cmp::obeys_cmp;
use vstd::laws_eq::obeys_concrete_eq;
use vstd::set_lib::{lemma_int_range, lemma_map_size, set_int_range};
use vstd::prelude::*;
use vstd::std_specs::cmp::{OrdSpec, PartialEqSpec};

verus! {

/// Keys in non-decreasing order.
pub open spec fn keys_sorted<K: Ord>(keys: Seq<K>) -> bool {
    forall|i: int, j: int| 0 <= i < j < keys.len() ==> key_le(#[trigger] keys[i], #[trigger] keys[j])
}

/// The scan over sorted keys: ranks start at `rank` or `rank + 1`, grow by at
/// most one per step, never fall, and two positions share a rank exactly when
/// their keys are equal.
proof fn lemma_scan<K: Ord>(keys: Seq<K>, prev: Option<K>, rank: nat)
    requires
        obeys_cmp::<K>(),
        keys_sorted(keys),
        prev is Some ==> forall|i: int| 0 <= i < keys.len() ==> key_le(prev->Some_0, #[trigger] keys[i]),
    ensures
        ranks_from(keys, prev, rank).len() == keys.len(),
        keys.len() > 0 ==> ranks_from(keys, prev, rank)[0] == rank_step(prev, rank, keys[0]).1,
        forall|i: int| 0 <= i < keys.len() ==> rank <= #[trigger] ranks_from(keys, prev, rank)[i],
        forall|i: int|
            0 <= i < keys.len() ==> (#[trigger] ranks_from(keys, prev, rank)[i] == rank <==> (prev is Some
                && prev->Some_0.eq_spec(&keys[i]))),
        forall|i: int|
            0 < i < keys.len() ==> #[trigger] ranks_from(keys, prev, rank)[i] == ranks_from(
                keys,
                prev,
                rank,
            )[i - 1] || ranks_from(keys, prev, rank)[i] == ranks_from(keys, prev, rank)[i - 1] + 1,
        forall|i: int, j: int|
            0 <= i < j < keys.len() ==> #[trigger] ranks_from(keys, prev, rank)[i] <= #[trigger] ranks_from(
                keys,
                prev,
                rank,
            )[j],
        forall|i: int, j: int|
            0 <= i < keys.len() && 0 <= j < keys.len() ==> (#[trigger] ranks_from(keys, prev, rank)[i]
                == #[trigger] ranks_from(keys, prev, rank)[j] <==> keys[i].eq_spec(&keys[j])),
    decreases keys.len(),
{
    lemma_key_order::<K>();
    lemma_ranks_len(keys, prev, rank);
    if keys.len() > 0 {
        let (p, r0) = rank_step(prev, rank, keys[0]);
        let tail = keys.drop_first();
        let rk = ranks_from(keys, prev, rank);
        let rest = ranks_from(tail, p, r0);
        assert(rk == seq![r0] + rest);
        assert(p->Some_0.eq_spec(&keys[0]));
        assert forall|i: int, j: int| 0 <= i < j < tail.len() implies key_le(
            #[trigger] tail[i],
            #[trigger] tail[j],
        ) by {
            assert(key_le(keys[i + 1], keys[j + 1]));
        }
        assert forall|i: int| 0 <= i < tail.len() implies key_le(p->Some_0, #[trigger] tail[i]) by {
            assert(key_le(keys[0], keys[i + 1]));
        }
        lemma_scan(tail, p, r0);
        assert forall|i: int| 0 <= i < keys.len() implies rank <= #[trigger] rk[i] by {
            if i > 0 {
                assert(rk[i] == rest[i - 1]);
            }
        }
        assert forall|i: int| 0 <= i < keys.len() implies (#[trigger] rk[i] == rank <==> (prev is Some
            && prev->Some_0.eq_spec(&keys[i]))) by {
            if i > 0 {
                assert(rk[i] == rest[i - 1]);
                assert(tail[i - 1] == keys[i]);
                if prev is Some && prev->Some_0.eq_spec(&keys[i]) {
                    assert(key_le(prev->Some_0, keys[0]));
                    assert(key_le(keys[0], keys[i]));
                    assert(key_le(keys[i], prev->Some_0));
                    assert(key_le(keys[0], prev->Some_0));
                    assert(prev->Some_0.eq_spec(&keys[0]));
                }
            }
        }
        assert forall|i: int| 0 < i < keys.len() implies #[trigger] rk[i] == rk[i - 1] || rk[i] == rk[i
            - 1] + 1 by {
            assert(rk[i] == rest[i - 1]);
            if i > 1 {
                assert(rk[i - 1] == rest[i - 2]);
            }
        }
        assert forall|i: int, j: int| 0 <= i < j < keys.len() implies #[trigger] rk[i] <= #[trigger] rk[j] by {
            assert(rk[j] == rest[j - 1]);
            if i > 0 {
                assert(rk[i] == rest[i - 1]);
            }
        }
        assert forall|i: int, j: int| 0 <= i < keys.len() && 0 <= j < keys.len() implies (#[trigger] rk[i]
            == #[trigger] rk[j] <==> keys[i].eq_spec(&keys[j])) by {
            if i > 0 {
                assert(rk[i] == rest[i - 1]);
                assert(tail[i - 1] == keys[i]);
            }
            if j > 0 {
                assert(rk[j] == rest[j - 1]);
                assert(tail[j - 1] == keys[j]);
            }
        }
    }
}

/// The sorted entries carry their keys in non-decreasing order.
proof fn lemma_sorted_keys<T, K: Ord>(input: Seq<T>, keys: Seq<K>, sorted: Seq<(K, T)>)
    requires
        sorts_stably(input, keys, sorted),
    ensures
        keys_sorted(keys_of(sorted)),
        keys_of(sorted).len() == sorted.len(),
        sorted.len() == input.len(),
{
    let perm = choose|perm: Seq<int>| is_stable_sort(input, keys, sorted, perm);
    let ks = keys_of(sorted);
    assert forall|i: int, j: int| 0 <= i < j < ks.len() implies key_le(#[trigger] ks[i], #[trigger] ks[j]) by {
        assert(key_le(sorted[i].0, sorted[j].0));
    }
}

/// The rank values that occur in a ranked output.
pub open spec fn rank_values<T>(out: Seq<(Rank, T)>) -> Set<int> {
    Set::new(|r: int| exists|j: int| 0 <= j < out.len() && (#[trigger] out[j]).0.0 == r)
}

/// Length preservation: the output has one entry per input item.
pub proof fn lemma_length_preserved<T, K: Ord>(
    input: Seq<T>,
    keys: Seq<K>,
    sorted: Seq<(K, T)>,
    out: Seq<(Rank, T)>,
)
    requires
        sorts_stably(input, keys, sorted),
        is_ranking(sorted, out),
    ensures
        out.len() == input.len(),
{
    let perm = choose|perm: Seq<int>| is_stable_sort(input, keys, sorted, perm);
}

/// Ranking an empty sequence yields an empty sequence.
pub proof fn lemma_empty_input<T, K: Ord>(
    input: Seq<T>,
    keys: Seq<K>,
    sorted: Seq<(K, T)>,
    out: Seq<(Rank, T)>,
)
    requires
        input.len() == 0,
        sorts_stably(input, keys, sorted),
        is_ranking(sorted, out),
    ensures
        out == Seq::<(Rank, T)>::empty(),
{
    lemma_length_preserved(input, keys, sorted, out);
    assert(out =~= Seq::<(Rank, T)>::empty());
}

/// Monotonicity: ranks never decrease in the order the items are handed out,
/// and the first item has rank 1.
pub proof fn lemma_ranks_non_decreasing<T, K: Ord>(
    input: Seq<T>,
    keys: Seq<K>,
    sorted: Seq<(K, T)>,
    out: Seq<(Rank, T)>,
)
    requires
        obeys_cmp::<K>(),
        sorts_stably(input, keys, sorted),
        is_ranking(sorted, out),
    ensures
        out.len() > 0 ==> out[0].0 == Rank(1),
        forall|i: int, j: int| 0 <= i < j < out.len() ==> (#[trigger] out[i]).0.0 <= (#[trigger] out[j]).0.0,
{
    lemma_sorted_keys(input, keys, sorted);
    let ks = keys_of(sorted);
    lemma_scan(ks, None, 0);
    let rk = ranks_from(ks, None, 0);
    assert forall|i: int, j: int| 0 <= i < j < out.len() implies (#[trigger] out[i]).0.0 <= (
    #[trigger] out[j]).0.0 by {
        assert(rk[i] <= rk[j]);
    }
}

/// Grouping: two output items share a rank exactly when their keys are equal.
pub proof fn lemma_equal_rank_iff_equal_key<T, K: Ord>(
    input: Seq<T>,
    keys: Seq<K>,
    sorted: Seq<(K, T)>,
    out: Seq<(Rank, T)>,
)
    requires
        obeys_cmp::<K>(),
        sorts_stably(input, keys, sorted),
        is_ranking(sorted, out),
    ensures
        forall|i: int, j: int|
            0 <= i < out.len() && 0 <= j < out.len() ==> ((#[trigger] out[i]).0 == (#[trigger] out[j]).0
                <==> sorted[i].0.eq_spec(&sorted[j].0)),
{
    lemma_sorted_keys(input, keys, sorted);
    let ks = keys_of(sorted);
    lemma_scan(ks, None, 0);
    let rk = ranks_from(ks, None, 0);
    assert forall|i: int, j: int| 0 <= i < out.len() && 0 <= j < out.len() implies ((
    #[trigger] out[i]).0 == (#[trigger] out[j]).0 <==> sorted[i].0.eq_spec(&sorted[j].0)) by {
        assert(rk[i] == rk[j] <==> ks[i].eq_spec(&ks[j]));
        assert(out[i].0.0 == rk[i] && out[j].0.0 == rk[j]);
    }
}

/// Stability: each output item comes from one input position, and output
/// items with equal keys keep the order they had in the input.
pub proof fn lemma_stable<T, K: Ord>(
    input: Seq<T>,
    keys: Seq<K>,
    sorted: Seq<(K, T)>,
    out: Seq<(Rank, T)>,
)
    requires
        sorts_stably(input, keys, sorted),
        is_ranking(sorted, out),
    ensures
        exists|src: Seq<int>|
            {
                &&& src.len() == out.len()
                &&& forall|j: int|
                    0 <= j < out.len() ==> 0 <= #[trigger] src[j] < input.len() && out[j].1
                        == input[src[j]]
                &&& forall|j1: int, j2: int|
                    0 <= j1 < j2 < out.len() && keys[#[trigger] src[j1]].eq_spec(
                        &keys[#[trigger] src[j2]],
                    ) ==> src[j1] < src[j2]
            },
{
    let perm = choose|perm: Seq<int>| is_stable_sort(input, keys, sorted, perm);
    assert forall|j1: int, j2: int|
        0 <= j1 < j2 < out.len() && keys[#[trigger] perm[j1]].eq_spec(&keys[#[trigger] perm[j2]])
            implies perm[j1] < perm[j2] by {
        assert(sorted[j1].0 == keys[perm[j1]]);
        assert(sorted[j2].0 == keys[perm[j2]]);
    }
}

/// A key function that returns one constant value gives every item rank 1.
pub proof fn lemma_constant_key<T, K: Ord>(
    input: Seq<T>,
    keys: Seq<K>,
    sorted: Seq<(K, T)>,
    out: Seq<(Rank, T)>,
    c: K,
)
    requires
        obeys_cmp::<K>(),
        forall|i: int| 0 <= i < keys.len() ==> #[trigger] keys[i] == c,
        sorts_stably(input, keys, sorted),
        is_ranking(sorted, out),
    ensures
        forall|j: int| 0 <= j < out.len() ==> (#[trigger] out[j]).0 == Rank(1),
{
    lemma_key_order::<K>();
    let perm = choose|perm: Seq<int>| is_stable_sort(input, keys, sorted, perm);
    lemma_ranks_non_decreasing(input, keys, sorted, out);
    lemma_equal_rank_iff_equal_key(input, keys, sorted, out);
    assert forall|j: int| 0 <= j < out.len() implies (#[trigger] out[j]).0 == Rank(1) by {
        assert(sorted[j].0 == keys[perm[j]]);
        assert(sorted[0].0 == keys[perm[0]]);
        assert(sorted[0].0.eq_spec(&sorted[j].0));
        assert(out[0].0 == out[j].0);
    }
}

/// Every value from the first to the last of a sequence that grows by at most
/// one per step occurs in it.
proof fn lemma_steps_hit(rk: Seq<nat>, v: nat)
    requires
        rk.len() > 0,
        rk[0] <= v <= rk.last(),
        forall|i: int| 0 < i < rk.len() ==> #[trigger] rk[i] <= rk[i - 1] + 1,
    ensures
        exists|j: int| 0 <= j < rk.len() && rk[j] == v,
    decreases rk.len(),
{
    if rk.last() == v {
        assert(rk[rk.len() - 1] == v);
    } else {
        let shorter = rk.drop_last();
        assert(rk[rk.len() - 1] <= rk[rk.len() - 2] + 1);
        lemma_steps_hit(shorter, v);
        let j = choose|j: int| 0 <= j < shorter.len() && shorter[j] == v;
        assert(rk[j] == v);
    }
}

/// Density: the ranks handed out are exactly 1, 2, ..., D, where D is the
/// number of distinct keys of the input.
pub proof fn lemma_ranks_dense<T, K: Ord>(
    input: Seq<T>,
    keys: Seq<K>,
    sorted: Seq<(K, T)>,
    out: Seq<(Rank, T)>,
)
    requires
        obeys_cmp::<K>(),
        obeys_concrete_eq::<K>(),
        sorts_stably(input, keys, sorted),
        is_ranking(sorted, out),
    ensures
        keys.to_set().finite(),
        rank_values(out) == set_int_range(1, keys.to_set().len() as int + 1),
{
    broadcast use vstd::seq_lib::seq_to_set_is_finite;

    lemma_key_order::<K>();
    reveal(obeys_concrete_eq);
    let perm = choose|perm: Seq<int>| is_stable_sort(input, keys, sorted, perm);
    lemma_sorted_keys(input, keys, sorted);
    let ks = keys_of(sorted);
    lemma_scan(ks, None, 0);
    let rk = ranks_from(ks, None, 0);
    let n = out.len();
    let d: int = if n == 0 { 0 } else { rk[n - 1] as int };
    // The rank values are the range 1..=d.
    assert forall|r: int| rank_values(out).contains(r) <==> set_int_range(1, d + 1).contains(r) by {
        if rank_values(out).contains(r) {
            let j = choose|j: int| 0 <= j < out.len() && (#[trigger] out[j]).0.0 == r;
            assert(rk[j] != 0);
            if j < n - 1 {
                assert(rk[j] <= rk[n - 1]);
            }
        }
        if set_int_range(1, d + 1).contains(r) {
            assert(rk[0] == 1);
            lemma_steps_hit(rk, r as nat);
            let j = choose|j: int| 0 <= j < rk.len() && rk[j] == r as nat;
            assert(out[j].0.0 == r);
        }
    }
    assert(rank_values(out) =~= set_int_range(1, d + 1));
    // The sorted keys and the input keys form the same set.
    let s = keys.to_set();
    assert forall|k: K| s.contains(k) <==> ks.to_set().contains(k) by {
        if s.contains(k) {
            let i = choose|i: int| 0 <= i < keys.len() && keys[i] == k;
            assert(perm.contains(i));
            let j = choose|j: int| 0 <= j < perm.len() && perm[j] == i;
            assert(ks[j] == k);
        }
        if ks.to_set().contains(k) {
            let j = choose|j: int| 0 <= j < ks.len() && ks[j] == k;
            assert(keys[perm[j]] == k);
        }
    }
    assert(s =~= ks.to_set());
    // Each key maps to its rank, one to one, onto 1..=d.
    let f = |k: K| rk[choose|j: int| 0 <= j < ks.len() && ks[j] == k] as int;
    assert forall|k1: K, k2: K| s.contains(k1) && s.contains(k2) && #[trigger] f(k1) == #[trigger] f(k2)
        implies k1 == k2 by {
        let j1 = choose|j: int| 0 <= j < ks.len() && ks[j] == k1;
        let j2 = choose|j: int| 0 <= j < ks.len() && ks[j] == k2;
        assert(ks[j1].eq_spec(&ks[j2]));
    }
    assert forall|r: int| s.map(f).contains(r) <==> set_int_range(1, d + 1).contains(r) by {
        if s.map(f).contains(r) {
            let k = choose|k: K| s.contains(k) && f(k) == r;
            let j = choose|j: int| 0 <= j < ks.len() && ks[j] == k;
            assert(out[j].0.0 == r);
            assert(rank_values(out).contains(r));
        }
        if set_int_range(1, d + 1).contains(r) {
            assert(rank_values(out).contains(r));
            let j = choose|j: int| 0 <= j < out.len() && (#[trigger] out[j]).0.0 == r;
            let k = ks[j];
            assert(ks.to_set().contains(k));
            let j2 = choose|j2: int| 0 <= j2 < ks.len() && ks[j2] == k;
            assert(rk[j] == rk[j2]);
            assert(s.contains(k) && f(k) == r);
        }
    }
    assert(s.map(f) =~= set_int_range(1, d + 1));
    lemma_int_range(1, d + 1);
    lemma_map_size(s, set_int_range(1, d + 1), f);
}

} // verus!

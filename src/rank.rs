//! Ranked output of a key-sorted sequence.

use core::cmp::Ordering;
use std::collections::VecDeque;
use vstd::laws_cmp::{obeys_cmp, obeys_cmp_ord, obeys_cmp_partial_ord, obeys_partial_cmp_spec_properties};
use vstd::laws_eq::obeys_eq_spec_properties;
use vstd::prelude::*;
use vstd::std_specs::cmp::{OrdSpec, PartialEqSpec, PartialOrdSpec};

verus! {

/// `a` sorts no later than `b`.
pub open spec fn key_le<K: Ord>(a: K, b: K) -> bool {
    a.cmp_spec(&b) != Ordering::Greater
}

/// What a lawful total order on keys provides: equality agrees with the
/// ordering, the ordering is antisymmetric and transitive, and equality is an
/// equivalence.
pub proof fn lemma_key_order<K: Ord>()
    requires
        obeys_cmp::<K>(),
    ensures
        K::obeys_eq_spec(),
        K::obeys_cmp_spec(),
        forall|a: K, b: K| #[trigger] a.eq_spec(&b) <==> a.cmp_spec(&b) == Ordering::Equal,
        forall|a: K, b: K|
            #[trigger] a.cmp_spec(&b) == Ordering::Less <==> b.cmp_spec(&a) == Ordering::Greater,
        forall|a: K| #[trigger] a.eq_spec(&a),
        forall|a: K, b: K| #[trigger] a.eq_spec(&b) ==> b.eq_spec(&a),
        forall|a: K, b: K, c: K| #[trigger] a.eq_spec(&b) && #[trigger] b.eq_spec(&c) ==> a.eq_spec(&c),
        forall|a: K, b: K, c: K|
            #[trigger] key_le(a, b) && #[trigger] key_le(b, c) ==> key_le(a, c),
        forall|a: K, b: K| #[trigger] key_le(a, b) && key_le(b, a) ==> a.eq_spec(&b),
        forall|a: K, b: K| #[trigger] a.eq_spec(&b) ==> key_le(a, b),
{
    reveal(obeys_partial_cmp_spec_properties);
    reveal(obeys_cmp_partial_ord);
    reveal(obeys_cmp_ord);
    reveal(obeys_eq_spec_properties);
    assert forall|a: K, b: K| #[trigger] a.eq_spec(&b) <==> a.cmp_spec(&b) == Ordering::Equal by {
        assert(a.partial_cmp_spec(&b) == Some(a.cmp_spec(&b)));
    }
    assert forall|a: K, b: K|
        #[trigger] a.cmp_spec(&b) == Ordering::Less <==> b.cmp_spec(&a) == Ordering::Greater by {
        assert(a.partial_cmp_spec(&b) == Some(a.cmp_spec(&b)));
        assert(b.partial_cmp_spec(&a) == Some(b.cmp_spec(&a)));
    }
    assert forall|a: K, b: K| #[trigger] key_le(a, b) && key_le(b, a) implies a.eq_spec(&b) by {
        assert(a.partial_cmp_spec(&b) == Some(a.cmp_spec(&b)));
        assert(b.partial_cmp_spec(&a) == Some(b.cmp_spec(&a)));
    }
    assert forall|a: K| #[trigger] a.eq_spec(&a) by {
        assert(a.partial_cmp_spec(&a) == Some(a.cmp_spec(&a)));
    }
    assert forall|a: K, b: K, c: K| #[trigger] key_le(a, b) && #[trigger] key_le(b, c) implies key_le(
        a,
        c,
    ) by {
        assert(a.partial_cmp_spec(&b) == Some(a.cmp_spec(&b)));
        assert(b.partial_cmp_spec(&c) == Some(b.cmp_spec(&c)));
        assert(a.partial_cmp_spec(&c) == Some(a.cmp_spec(&c)));
        assert(b.partial_cmp_spec(&a) == Some(b.cmp_spec(&a)));
        assert(c.partial_cmp_spec(&b) == Some(c.cmp_spec(&b)));
        assert(c.partial_cmp_spec(&a) == Some(c.cmp_spec(&a)));
    }
}

/// The rank of an item: a 1-based integer.
#[derive(Clone, Copy, Debug, PartialEq, Eq, Structural, PartialOrd, Ord)]
pub struct Rank(pub usize);

/// One step of the forward scan: a key equal to the previous key keeps the
/// current rank; any other key (or the first one) opens the next rank and
/// becomes the new previous key.
pub open spec fn rank_step<K: PartialEq>(prev: Option<K>, rank: nat, key: K) -> (Option<K>, nat) {
    if prev is Some && prev->Some_0.eq_spec(&key) {
        (prev, rank)
    } else {
        (Some(key), rank + 1)
    }
}

/// The ranks given to `keys`, in order, when the scan starts from the state
/// `(prev, rank)`.
pub open spec fn ranks_from<K: PartialEq>(keys: Seq<K>, prev: Option<K>, rank: nat) -> Seq<nat>
    decreases keys.len(),
{
    if keys.len() == 0 {
        Seq::empty()
    } else {
        let (p, r) = rank_step(prev, rank, keys[0]);
        seq![r] + ranks_from(keys.drop_first(), p, r)
    }
}

/// The scan gives one rank per key.
pub proof fn lemma_ranks_len<K: PartialEq>(keys: Seq<K>, prev: Option<K>, rank: nat)
    ensures
        ranks_from(keys, prev, rank).len() == keys.len(),
    decreases keys.len(),
{
    if keys.len() > 0 {
        let (p, r) = rank_step(prev, rank, keys[0]);
        lemma_ranks_len(keys.drop_first(), p, r);
    }
}

/// The keys of a sequence of (key, item) entries.
pub open spec fn keys_of<K, T>(entries: Seq<(K, T)>) -> Seq<K> {
    entries.map_values(|e: (K, T)| e.0)
}

/// `out` tags each entry's item with the rank that the scan from `(prev, rank)`
/// gives it.
pub open spec fn ranked_from<K: PartialEq, T>(
    entries: Seq<(K, T)>,
    prev: Option<K>,
    rank: nat,
    out: Seq<(Rank, T)>,
) -> bool {
    let ranks = ranks_from(keys_of(entries), prev, rank);
    &&& out.len() == entries.len()
    &&& forall|j: int|
        0 <= j < out.len() ==> (#[trigger] out[j]).1 == entries[j].1 && out[j].0.0 == ranks[j]
}

/// `out` is the dense ranking of `entries`, read from the start.
pub open spec fn is_ranking<K: PartialEq, T>(entries: Seq<(K, T)>, out: Seq<(Rank, T)>) -> bool {
    ranked_from(entries, None, 0, out)
}

/// `sorted` holds each item of `input` once, with its key, ordered by key;
/// `perm[j]` is the position in `input` of the entry at `j`, and entries with
/// equal keys keep their order from `input`.
pub open spec fn is_stable_sort<T, K: Ord>(
    input: Seq<T>,
    keys: Seq<K>,
    sorted: Seq<(K, T)>,
    perm: Seq<int>,
) -> bool {
    &&& keys.len() == input.len()
    &&& sorted.len() == input.len()
    &&& perm.len() == input.len()
    &&& forall|j: int|
        0 <= j < perm.len() ==> 0 <= #[trigger] perm[j] < input.len() && sorted[j] == (
            keys[perm[j]],
            input[perm[j]],
        )
    &&& forall|j1: int, j2: int|
        0 <= j1 < j2 < perm.len() ==> #[trigger] perm[j1] != #[trigger] perm[j2]
    &&& forall|i: int| 0 <= i < input.len() ==> #[trigger] perm.contains(i)
    &&& forall|j1: int, j2: int|
        0 <= j1 < j2 < sorted.len() ==> key_le((#[trigger] sorted[j1]).0, (#[trigger] sorted[j2]).0)
    &&& forall|j1: int, j2: int|
        0 <= j1 < j2 < sorted.len() && (#[trigger] sorted[j1]).0.eq_spec(&(#[trigger] sorted[j2]).0)
            ==> perm[j1] < perm[j2]
}

/// `sorted` is the stable sort of `input` by `keys`.
pub open spec fn sorts_stably<T, K: Ord>(input: Seq<T>, keys: Seq<K>, sorted: Seq<(K, T)>) -> bool {
    exists|perm: Seq<int>| is_stable_sort(input, keys, sorted, perm)
}

/// `keys[i]` is what the key function returned for `input[i]`.
pub open spec fn keys_by<T, K, F: Fn(&T) -> K>(f: F, input: Seq<T>, keys: Seq<K>) -> bool {
    &&& keys.len() == input.len()
    &&& forall|i: int| 0 <= i < input.len() ==> f.ensures((&input[i],), #[trigger] keys[i])
}

fn key_lt<K: Ord>(a: &K, b: &K) -> (r: bool)
    requires
        obeys_cmp::<K>(),
    ensures
        r == (a.cmp_spec(b) == Ordering::Less),
{
    proof {
        lemma_key_order::<K>();
    }
    match a.cmp(b) {
        Ordering::Less => true,
        _ => false,
    }
}

/// Computes each item's key once and sorts the (key, item) entries by key,
/// keeping the input order among equal keys.
///
/// Items are taken from the back of the input and each is inserted in front
/// of the first entry whose key is not smaller, so an earlier item always
/// lands before later items with an equal key. The cost is quadratic in the
/// number of items.
fn sort_by_key<T, K: Ord, F: Fn(&T) -> K>(items: Vec<T>, f: &F) -> (r: VecDeque<(K, T)>)
    requires
        obeys_cmp::<K>(),
        forall|i: int| 0 <= i < items@.len() ==> f.requires((&items@[i],)),
    ensures
        r@.len() == items@.len(),
        r@.len() <= usize::MAX,
        exists|keys: Seq<K>| keys_by(*f, items@, keys) && sorts_stably(items@, keys, r@),
{
    let total = items.len();
    proof {
        lemma_key_order::<K>();
    }
    let ghost input = items@;
    let ghost n = input.len() as int;
    let mut items = items;
    let mut out: VecDeque<(K, T)> = VecDeque::new();
    let ghost mut keys: Seq<K> = Seq::new(n as nat, |i: int| arbitrary());
    let ghost mut src: Seq<int> = Seq::empty();
    let ghost mut pos: Seq<int> = Seq::new(n as nat, |i: int| 0int);
    while items.len() > 0
        invariant
            obeys_cmp::<K>(),
            forall|i: int| 0 <= i < n ==> f.requires((&input[i],)),
            n == input.len(),
            items@ == input.take(items.len() as int),
            keys.len() == n,
            pos.len() == n,
            out@.len() == n - items.len(),
            n == total,
            src.len() == out@.len(),
            forall|i: int| items.len() <= i < n ==> f.ensures((&input[i],), #[trigger] keys[i]),
            forall|j: int|
                0 <= j < src.len() ==> items.len() <= #[trigger] src[j] < n && out@[j] == (
                    keys[src[j]],
                    input[src[j]],
                ),
            forall|j1: int, j2: int| 0 <= j1 < j2 < src.len() ==> #[trigger] src[j1] != #[trigger] src[j2],
            forall|i: int| items.len() <= i < n ==> 0 <= #[trigger] pos[i] < src.len() && src[pos[i]] == i,
            forall|j1: int, j2: int|
                0 <= j1 < j2 < out@.len() ==> key_le((#[trigger] out@[j1]).0, (#[trigger] out@[j2]).0),
            forall|j1: int, j2: int|
                0 <= j1 < j2 < out@.len() && (#[trigger] out@[j1]).0.eq_spec(&(#[trigger] out@[j2]).0)
                    ==> src[j1] < src[j2],
        decreases items.len(),
    {
        let item = items.pop().unwrap();
        let ghost i = items.len() as int;
        assert(item == input[i]);
        let key = f(&item);
        let mut j: usize = 0;
        loop
            invariant
                obeys_cmp::<K>(),
                j <= out@.len(),
                forall|jj: int| 0 <= jj < j ==> (#[trigger] out@[jj]).0.cmp_spec(&key) == Ordering::Less,
            ensures
                j <= out@.len(),
                j < out@.len() ==> out@[j as int].0.cmp_spec(&key) != Ordering::Less,
                forall|jj: int| 0 <= jj < j ==> (#[trigger] out@[jj]).0.cmp_spec(&key) == Ordering::Less,
            decreases out@.len() - j,
        {
            if j >= out.len() || !key_lt(&out[j].0, &key) {
                break;
            }
            j = j + 1;
        }
        let ghost old_out = out@;
        let ghost old_src = src;
        let ghost old_pos = pos;
        proof {
            lemma_key_order::<K>();
            assert forall|jj: int| j <= jj < old_out.len() implies key_le(key, (#[trigger] old_out[jj]).0) by {
                assert(key_le(key, old_out[j as int].0));
                if jj > j {
                    assert(key_le(old_out[j as int].0, old_out[jj].0));
                }
            }
        }
        out.insert(j, (key, item));
        proof {
            keys = keys.update(i, key);
            src = old_src.insert(j as int, i);
            pos = Seq::new(
                n as nat,
                |x: int| if old_pos[x] >= j { old_pos[x] + 1 } else { old_pos[x] },
            ).update(i, j as int);
            assert(items@ =~= input.take(items.len() as int));
            assert forall|j1: int, j2: int|
                0 <= j1 < j2 < out@.len() && (#[trigger] out@[j1]).0.eq_spec(&(#[trigger] out@[j2]).0)
                    implies src[j1] < src[j2] by {
                if j1 < j && j2 == j {
                    assert(old_out[j1].0.cmp_spec(&key) == Ordering::Less);
                } else if j1 < j && j2 > j {
                    assert(old_src[j1] < old_src[j2 - 1]);
                } else if j1 > j {
                    assert(old_src[j1 - 1] < old_src[j2 - 1]);
                } else if j1 < j {
                    assert(old_src[j1] < old_src[j2]);
                }
            }
        }
    }
    proof {
        assert(input.take(0) =~= items@);
        assert(keys_by(*f, input, keys));
        assert forall|i: int| 0 <= i < n implies #[trigger] src.contains(i) by {
            assert(src[pos[i]] == i);
        }
        assert(is_stable_sort(input, keys, out@, src));
    }
    out
}

/// The items of a sorted sequence, with their ranks, handed out one at a time.
pub struct RankedBy<T, K> {
    rest: VecDeque<(K, T)>,
    rank: Rank,
    prev_key: Option<K>,
}

impl<T, K: Ord> RankedBy<T, K> {
    /// The entries not yet handed out, in the order they come.
    pub closed spec fn pending(&self) -> Seq<(K, T)> {
        self.rest@
    }

    /// The rank of the last item handed out (0 before the first).
    pub closed spec fn last_rank(&self) -> nat {
        self.rank.0 as nat
    }

    /// The key that opened the current rank.
    pub closed spec fn prev_key(&self) -> Option<K> {
        self.prev_key
    }

    /// The rank counter cannot overflow on what is left.
    pub closed spec fn wf(&self) -> bool {
        self.rank.0 + self.rest@.len() <= usize::MAX
    }

    /// Hands out the next item with its rank, or `None` once all are out.
    pub fn next(&mut self) -> (r: Option<(Rank, T)>)
        requires
            old(self).wf(),
            obeys_cmp::<K>(),
        ensures
            final(self).wf(),
            old(self).pending().len() == 0 ==> {
                &&& r is None
                &&& final(self).pending() == old(self).pending()
                &&& final(self).prev_key() == old(self).prev_key()
                &&& final(self).last_rank() == old(self).last_rank()
            },
            old(self).pending().len() > 0 ==> {
                let e = old(self).pending()[0];
                let (p, k) = rank_step(old(self).prev_key(), old(self).last_rank(), e.0);
                &&& r == Some((Rank(k as usize), e.1))
                &&& final(self).pending() == old(self).pending().drop_first()
                &&& final(self).prev_key() == p
                &&& final(self).last_rank() == k
            },
    {
        match self.rest.pop_front() {
            None => None,
            Some((key, item)) => {
                let same = match &self.prev_key {
                    Some(p) => p.eq(&key),
                    None => false,
                };
                if !same {
                    self.rank = Rank(self.rank.0 + 1);
                    self.prev_key = Some(key);
                }
                Some((self.rank, item))
            },
        }
    }

    /// Hands out every remaining item with its rank, in order.
    pub fn collect(self) -> (r: Vec<(Rank, T)>)
        requires
            self.wf(),
            obeys_cmp::<K>(),
        ensures
            ranked_from(self.pending(), self.prev_key(), self.last_rank(), r@),
    {
        let ghost entries = self.pending();
        let ghost full = ranks_from(keys_of(entries), self.prev_key(), self.last_rank());
        proof {
            lemma_ranks_len(keys_of(entries), self.prev_key(), self.last_rank());
        }
        let mut it = self;
        let mut out: Vec<(Rank, T)> = Vec::new();
        while it.rest.len() > 0
            invariant
                it.wf(),
                obeys_cmp::<K>(),
                out@.len() + it.pending().len() == entries.len(),
                it.pending() == entries.skip(out@.len() as int),
                ranks_from(keys_of(it.pending()), it.prev_key(), it.last_rank()) == full.skip(
                    out@.len() as int,
                ),
                full.len() == entries.len(),
                forall|j: int|
                    0 <= j < out@.len() ==> (#[trigger] out@[j]).1 == entries[j].1 && out@[j].0.0
                        == full[j],
            decreases it.pending().len(),
        {
            let ghost before = it.pending();
            let ghost m = out@.len() as int;
            proof {
                assert(keys_of(before).drop_first() =~= keys_of(before.drop_first()));
                assert(full.skip(m)[0] == full[m]);
                assert(full.skip(m + 1) =~= full.skip(m).drop_first());
            }
            let x = it.next().unwrap();
            out.push(x);
            proof {
                assert(it.pending() =~= entries.skip(out@.len() as int));
            }
        }
        out
    }
}

/// Ranking of a sequence by a key.
pub trait RankedExt<T>: Sized + View<V = Seq<T>> {
    /// Computes each item's key once, sorts the items stably by key, and
    /// returns them ready to be handed out with their dense ranks.
    fn rank_by<F, K>(self, f: F) -> (r: RankedBy<T, K>) where F: Fn(&T) -> K, K: Ord
        requires
            obeys_cmp::<K>(),
            forall|i: int| 0 <= i < self@.len() ==> f.requires((&self@[i],)),
        ensures
            r.wf(),
            r.prev_key() is None,
            r.last_rank() == 0,
            exists|keys: Seq<K>| keys_by(f, self@, keys) && sorts_stably(self@, keys, r.pending()),
    ;
}

impl<T> RankedExt<T> for Vec<T> {
    fn rank_by<F, K>(self, f: F) -> (r: RankedBy<T, K>) where F: Fn(&T) -> K, K: Ord {
        let rest = sort_by_key(self, &f);
        RankedBy { rest, rank: Rank(0), prev_key: None }
    }
}

} // verus!

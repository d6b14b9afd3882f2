use vstd::multiset::Multiset;
use vstd::prelude::*;

use crate::score::Score;

verus! {

broadcast use {vstd::seq_lib::group_to_multiset_ensures, vstd::multiset::group_multiset_axioms};

/// Relies on `serde_json::Value` only as a type: the metadata document stored
/// with a record, which a query carries through unread.
#[verifier::external_type_specification]
#[verifier::external_body]
pub struct ExValue(serde_json::Value);

/// One entry of a query's answer: a record's id, its similarity to the
/// query, and the metadata stored with the record.
#[derive(Debug, Clone)]
pub struct QueryResult {
    pub id: String,
    pub score: Score,
    pub metadata: Option<serde_json::Value>,
}

impl QueryResult {
    pub open spec fn spec_rank(self) -> int {
        self.score.spec_rank()
    }
}

/// Neither item's score is a NaN, so that the two compare.
pub open spec fn comparable(x: QueryResult, y: QueryResult) -> bool {
    !x.score.spec_is_nan() && !y.score.spec_is_nan()
}

/// The smaller of `k` and `n`.
pub open spec fn bounded(k: nat, n: nat) -> nat {
    if k <= n {
        k
    } else {
        n
    }
}

/// Ranks never decrease along `s`.
pub open spec fn ascending(s: Seq<QueryResult>) -> bool {
    forall|i: int, j: int| 0 <= i < j < s.len() ==> s[i].spec_rank() <= s[j].spec_rank()
}

/// Ranks never increase along `s`. Numbers come by falling score; a NaN,
/// which ranks above every number, comes before them.
pub open spec fn descending(s: Seq<QueryResult>) -> bool {
    forall|i: int, j: int| 0 <= i < j < s.len() ==> s[i].spec_rank() >= s[j].spec_rank()
}

/// `kept` is a best-`k` choice out of `all`: it holds `min(k, |all|)` of the
/// items of `all`, and no item left out scores above an item kept. A NaN
/// score compares with no score, so this says nothing of an item that has
/// one. Which of several items of equal score at the boundary is kept is left
/// open.
pub open spec fn is_top_k(all: Multiset<QueryResult>, kept: Multiset<QueryResult>, k: nat) -> bool {
    &&& kept.len() == bounded(k, all.len())
    &&& kept.subset_of(all)
    &&& forall|x: QueryResult, y: QueryResult|
        kept.count(x) > 0 && all.count(y) > kept.count(y) && comparable(x, y)
            ==> #[trigger] y.spec_rank() <= #[trigger] x.spec_rank()
}

/// A bounded selection of the best-scored items among those offered to it.
///
/// It holds at most `k` items, in ascending order of rank, so that the
/// weakest one is the first; items scored NaN stand last. A newcomer enters
/// while there is room; once the selection is full, it enters only by
/// scoring strictly above the weakest held item, which then leaves. A NaN
/// neither displaces an item nor is displaced once held.
pub struct TopK {
    k: usize,
    items: Vec<QueryResult>,
    dropped: Ghost<Seq<QueryResult>>,
}

impl TopK {
    /// The most items the selection holds.
    pub closed spec fn capacity(self) -> nat {
        self.k as nat
    }

    /// The items held, weakest first.
    pub closed spec fn held(self) -> Seq<QueryResult> {
        self.items@
    }

    /// Every item offered so far, held or not.
    pub closed spec fn offered(self) -> Multiset<QueryResult> {
        self.items@.to_multiset().add(self.dropped@.to_multiset())
    }

    pub closed spec fn wf(self) -> bool {
        &&& self.items@.len() <= self.k
        &&& ascending(self.items@)
        &&& self.dropped@.len() > 0 ==> self.items@.len() == self.k
        &&& forall|i: int, j: int|
            0 <= i < self.items@.len() && 0 <= j < self.dropped@.len() && comparable(
                self.items@[i],
                self.dropped@[j],
            ) ==> #[trigger] self.dropped@[j].spec_rank() <= #[trigger] self.items@[i].spec_rank()
    }

    proof fn lemma_top_k(self)
        requires
            self.wf(),
        ensures
            is_top_k(self.offered(), self.held().to_multiset(), self.capacity()),
    {
        let all = self.offered();
        let kept = self.items@.to_multiset();
        assert(kept.subset_of(all));
        assert forall|x: QueryResult, y: QueryResult|
            kept.count(x) > 0 && all.count(y) > kept.count(y) && comparable(x, y)
                implies #[trigger] y.spec_rank() <= #[trigger] x.spec_rank() by {
            assert(self.items@.contains(x));
            assert(self.dropped@.to_multiset().count(y) > 0);
            assert(self.dropped@.contains(y));
            let i = choose|i: int| 0 <= i < self.items@.len() && self.items@[i] == x;
            let j = choose|j: int| 0 <= j < self.dropped@.len() && self.dropped@[j] == y;
            assert(self.dropped@[j].spec_rank() <= self.items@[i].spec_rank());
        }
    }

    /// An empty selection that holds at most `k` items.
    pub fn new(k: usize) -> (s: TopK)
        ensures
            s.wf(),
            s.capacity() == k,
            s.held() == Seq::<QueryResult>::empty(),
            s.offered() == Multiset::<QueryResult>::empty(),
    {
        let s = TopK { k, items: Vec::new(), dropped: Ghost(Seq::empty()) };
        assert(s.offered() =~= Multiset::<QueryResult>::empty());
        s
    }

    /// The number of items held.
    pub fn len(&self) -> (n: usize)
        ensures
            n == self.held().len(),
    {
        self.items.len()
    }

    /// The first position whose item ranks at or above `rank`.
    fn position_for(&self, rank: i64) -> (p: usize)
        requires
            ascending(self.held()),
        ensures
            p <= self.held().len(),
            forall|i: int| 0 <= i < p ==> self.held()[i].spec_rank() < rank,
            forall|i: int| p <= i < self.held().len() ==> self.held()[i].spec_rank() >= rank,
    {
        let mut p: usize = 0;
        while p < self.items.len() && self.items[p].score.rank() < rank
            invariant
                ascending(self.items@),
                p <= self.items@.len(),
                forall|i: int| 0 <= i < p ==> self.items@[i].spec_rank() < rank,
            decreases self.items@.len() - p,
        {
            p = p + 1;
        }
        p
    }

    /// Offers one scored item to the selection.
    ///
    /// While fewer than `k` items are held, the item enters. Otherwise it
    /// enters only if its score strictly exceeds that of the weakest held
    /// item, which then leaves; an item that only ties with the weakest stays
    /// out, and so does one where either score is a NaN.
    pub fn offer(&mut self, item: QueryResult)
        requires
            old(self).wf(),
        ensures
            final(self).wf(),
            final(self).capacity() == old(self).capacity(),
            final(self).offered() == old(self).offered().insert(item),
            ascending(final(self).held()),
            final(self).held().len() <= final(self).capacity(),
            old(self).held().len() < old(self).capacity() ==> final(self).held().to_multiset()
                == old(self).held().to_multiset().insert(item),
            old(self).held().len() == old(self).capacity() > 0 && item.score.spec_exceeds(
                old(self).held()[0].score,
            ) ==> final(self).held().to_multiset() == old(self).held().to_multiset().remove(
                old(self).held()[0],
            ).insert(item),
            old(self).held().len() == old(self).capacity() && (old(self).capacity() == 0
                || !item.score.spec_exceeds(old(self).held()[0].score)) ==> final(self).held()
                == old(self).held(),
            is_top_k(final(self).offered(), final(self).held().to_multiset(), final(self).capacity()),
    {
        let ghost before = *self;
        let rank = item.score.rank();
        let n = self.items.len();
        if n < self.k {
            let p = self.position_for(rank);
            self.items.insert(p, item);
            assert(self.offered() =~= before.offered().insert(item));
        } else if n > 0 && item.score.exceeds(&self.items[0].score) {
            let weakest = self.items.remove(0);
            proof {
                self.dropped = Ghost(self.dropped@.push(weakest));
            }
            let p = self.position_for(rank);
            self.items.insert(p, item);
            assert(before.items@.remove(0) =~= before.items@.subrange(1, n as int));
            assert(before.items@.to_multiset() =~= self.items@.to_multiset().remove(item).insert(
                weakest,
            ));
            assert(self.offered() =~= before.offered().insert(item));
            assert forall|i: int, j: int|
                0 <= i < self.items@.len() && 0 <= j < self.dropped@.len() && comparable(
                    self.items@[i],
                    self.dropped@[j],
                ) implies #[trigger] self.dropped@[j].spec_rank()
                <= #[trigger] self.items@[i].spec_rank() by {
                if j < self.dropped@.len() - 1 {
                    assert(self.dropped@[j] == before.dropped@[j]);
                    assert(comparable(before.items@[0], before.dropped@[j]));
                }
                assert(self.dropped@[j].spec_rank() <= weakest.spec_rank());
                if i != p {
                    let i0 = if i < p { i + 1 } else { i };
                    assert(self.items@[i] == before.items@[i0]);
                }
            }
        } else {
            proof {
                self.dropped = Ghost(self.dropped@.push(item));
            }
            assert(self.offered() =~= before.offered().insert(item));
            assert forall|i: int, j: int|
                0 <= i < self.items@.len() && 0 <= j < self.dropped@.len() && comparable(
                    self.items@[i],
                    self.dropped@[j],
                ) implies #[trigger] self.dropped@[j].spec_rank()
                <= #[trigger] self.items@[i].spec_rank() by {
                assert(self.items@[0].spec_rank() <= self.items@[i].spec_rank());
                if j == self.dropped@.len() - 1 {
                    // A weakest item scored NaN would leave only NaNs held.
                    assert(!self.items@[0].score.spec_is_nan());
                }
            }
        }
        proof {
            self.lemma_top_k();
        }
    }

    /// Ends the selection: the held items, best first.
    pub fn into_results(self) -> (r: Vec<QueryResult>)
        requires
            self.wf(),
        ensures
            r@.len() == bounded(self.capacity(), self.offered().len()),
            descending(r@),
            r@.to_multiset() == self.held().to_multiset(),
            is_top_k(self.offered(), r@.to_multiset(), self.capacity()),
    {
        proof {
            self.lemma_top_k();
        }
        let ghost held = self.items@;
        let mut items = self.items;
        let mut r: Vec<QueryResult> = Vec::new();
        while items.len() > 0
            invariant
                held.len() == items@.len() + r@.len(),
                items@ == held.subrange(0, items@.len() as int),
                r@ == held.subrange(items@.len() as int, held.len() as int).reverse(),
                ascending(held),
            decreases items@.len(),
        {
            let x = items.pop().unwrap();
            r.push(x);
            assert(r@ =~= held.subrange(items@.len() as int, held.len() as int).reverse());
        }
        assert(r@ =~= held.reverse());
        proof {
            held.lemma_reverse_to_multiset();
        }
        r
    }
}

/// The best `k` of `candidates`, best first.
pub fn select_top_k(candidates: Vec<QueryResult>, k: usize) -> (r: Vec<QueryResult>)
    ensures
        r@.len() == bounded(k as nat, candidates@.len()),
        descending(r@),
        is_top_k(candidates@.to_multiset(), r@.to_multiset(), k as nat),
{
    let ghost all = candidates@;
    // Turn the candidates over, so that they are offered in their own order.
    let mut rest = candidates;
    let mut pending: Vec<QueryResult> = Vec::new();
    while rest.len() > 0
        invariant
            all.to_multiset() == rest@.to_multiset().add(pending@.to_multiset()),
        decreases rest@.len(),
    {
        let ghost before = rest@;
        let x = rest.pop().unwrap();
        assert(before =~= rest@.push(x));
        pending.push(x);
        assert(all.to_multiset() =~= rest@.to_multiset().add(pending@.to_multiset()));
    }
    let mut sel = TopK::new(k);
    while pending.len() > 0
        invariant
            sel.wf(),
            sel.capacity() == k,
            all.to_multiset() == sel.offered().add(pending@.to_multiset()),
        decreases pending@.len(),
    {
        let ghost before = pending@;
        let x = pending.pop().unwrap();
        assert(before =~= pending@.push(x));
        sel.offer(x);
        assert(all.to_multiset() =~= sel.offered().add(pending@.to_multiset()));
    }
    assert(all.to_multiset() =~= sel.offered());
    let r = sel.into_results();
    r
}

} // verus!

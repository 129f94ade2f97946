use vstd::prelude::*;

use crate::curve::TransactionType;

verus! {

/// The published quotes of one pool: the gross amount it pays for an item
/// and the gross amount it asks for one, each absent when it does not trade
/// in that direction.
#[derive(Debug, Clone, PartialEq, Eq)]
pub struct PairQuote {
    pub pair_id: u64,
    pub collection: String,
    pub denom: String,
    pub sell_to_pair_quote: Option<u128>,
    pub buy_from_pair_quote: Option<u128>,
}

/// The quote of an entry that matters for trades in direction `side`.
pub open spec fn side_price(e: PairQuote, side: TransactionType) -> Option<u128> {
    match side {
        TransactionType::UserSubmitsNfts => e.sell_to_pair_quote,
        TransactionType::UserSubmitsTokens => e.buy_from_pair_quote,
    }
}

/// Whether a pool quoting `p1` with id `id1` is better for direction `side`
/// than one quoting `p2` with id `id2`: a higher payment for a sale, a lower
/// price for a purchase, and the lower pool id on equal quotes.
pub open spec fn ranks_before(side: TransactionType, p1: u128, id1: u64, p2: u128, id2: u64) -> bool {
    match side {
        TransactionType::UserSubmitsNfts => p1 > p2 || (p1 == p2 && id1 < id2),
        TransactionType::UserSubmitsTokens => p1 < p2 || (p1 == p2 && id1 < id2),
    }
}

/// Executable form of `ranks_before`.
pub fn ranks_before_exec(side: TransactionType, p1: u128, id1: u64, p2: u128, id2: u64) -> (r: bool)
    ensures
        r == ranks_before(side, p1, id1, p2, id2),
{
    match side {
        TransactionType::UserSubmitsNfts => p1 > p2 || (p1 == p2 && id1 < id2),
        TransactionType::UserSubmitsTokens => p1 < p2 || (p1 == p2 && id1 < id2),
    }
}

/// The registry of every pool's published quotes, at most one entry per pool.
#[derive(Debug, Clone, PartialEq, Eq)]
pub struct PriceIndex {
    pub entries: Vec<PairQuote>,
}

impl PriceIndex {
    /// No two entries belong to the same pool.
    pub open spec fn wf(&self) -> bool {
        forall|i: int, j: int|
            0 <= i < j < self.entries@.len() ==> self.entries@[i].pair_id
                != self.entries@[j].pair_id
    }

    pub open spec fn has(&self, e: PairQuote) -> bool {
        self.entries@.contains(e)
    }

    pub fn new() -> (r: PriceIndex)
        ensures
            r.wf(),
            forall|e: PairQuote| !r.has(e),
    {
        PriceIndex { entries: Vec::new() }
    }

    fn position(&self, pair_id: u64) -> (r: Option<usize>)
        ensures
            r matches Some(i) ==> i < self.entries@.len() && self.entries@[i as int].pair_id
                == pair_id,
            r is None ==> forall|j: int|
                0 <= j < self.entries@.len() ==> self.entries@[j].pair_id != pair_id,
    {
        let mut j: usize = 0;
        while j < self.entries.len()
            invariant
                0 <= j <= self.entries@.len(),
                forall|a: int| 0 <= a < j ==> self.entries@[a].pair_id != pair_id,
            decreases self.entries@.len() - j,
        {
            if self.entries[j].pair_id == pair_id {
                return Some(j);
            }
            j = j + 1;
        }
        None
    }

    /// Publishes the quotes of one pool, replacing what it had published.
    pub fn update_pair_indices(&mut self, entry: PairQuote)
        requires
            old(self).wf(),
        ensures
            final(self).wf(),
            forall|e: PairQuote|
                #[trigger] final(self).has(e) <==> (e == entry || (old(self).has(e) && e.pair_id
                    != entry.pair_id)),
    {
        let ghost id = entry.pair_id;
        match self.position(entry.pair_id) {
            Some(i) => {
                self.entries.set(i, entry);
                proof {
                    let o = old(self).entries@;
                    let n = self.entries@;
                    assert(n == o.update(i as int, entry));
                    assert forall|e: PairQuote| #[trigger]
                        self.has(e) <==> (e == entry || (old(self).has(e) && e.pair_id != id)) by {
                        if self.has(e) {
                            let j = choose|j: int| 0 <= j < n.len() && n[j] == e;
                            if j != i {
                                assert(o[j] == e);
                                assert(old(self).has(e));
                                if j < i {
                                    assert(o[j].pair_id != o[i as int].pair_id);
                                } else {
                                    assert(o[i as int].pair_id != o[j].pair_id);
                                }
                            }
                        }
                        if e == entry {
                            assert(n[i as int] == e);
                        } else if old(self).has(e) && e.pair_id != id {
                            let j = choose|j: int| 0 <= j < o.len() && o[j] == e;
                            assert(j != i);
                            assert(n[j] == e);
                        }
                    }
                }
            },
            None => {
                self.entries.push(entry);
                proof {
                    let o = old(self).entries@;
                    let n = self.entries@;
                    assert(n == o.push(entry));
                    assert forall|e: PairQuote| #[trigger]
                        self.has(e) <==> (e == entry || (old(self).has(e) && e.pair_id != id)) by {
                        if self.has(e) {
                            let j = choose|j: int| 0 <= j < n.len() && n[j] == e;
                            if j < o.len() {
                                assert(o[j] == e);
                            }
                        }
                        if e == entry {
                            assert(n[o.len() as int] == e);
                        } else if old(self).has(e) && e.pair_id != id {
                            let j = choose|j: int| 0 <= j < o.len() && o[j] == e;
                            assert(n[j] == e);
                        }
                    }
                }
            },
        }
    }

    /// Two published entries of one pool are the same entry.
    pub proof fn lemma_one_entry_per_pair(&self, a: PairQuote, b: PairQuote)
        requires
            self.wf(),
            self.has(a),
            self.has(b),
            a.pair_id == b.pair_id,
        ensures
            a == b,
    {
        let i = choose|i: int| 0 <= i < self.entries@.len() && self.entries@[i] == a;
        let j = choose|j: int| 0 <= j < self.entries@.len() && self.entries@[j] == b;
        if i < j {
            assert(self.entries@[i].pair_id != self.entries@[j].pair_id);
        } else if j < i {
            assert(self.entries@[j].pair_id != self.entries@[i].pair_id);
        }
    }

    /// Takes a pool out of the index.
    pub fn remove_pair(&mut self, pair_id: u64)
        requires
            old(self).wf(),
        ensures
            final(self).wf(),
            forall|e: PairQuote| #[trigger]
                final(self).has(e) <==> (old(self).has(e) && e.pair_id != pair_id),
    {
        match self.position(pair_id) {
            Some(i) => {
                self.entries.remove(i);
                proof {
                    let o = old(self).entries@;
                    let n = self.entries@;
                    assert(n == o.remove(i as int));
                    assert forall|a: int, b: int| 0 <= a < b < n.len() implies n[a].pair_id
                        != n[b].pair_id by {
                        let sa = if a < i { a } else { a + 1 };
                        let sb = if b < i { b } else { b + 1 };
                        assert(n[a] == o[sa]);
                        assert(n[b] == o[sb]);
                    }
                    assert forall|e: PairQuote| #[trigger]
                        self.has(e) <==> (old(self).has(e) && e.pair_id != pair_id) by {
                        if self.has(e) {
                            let j = choose|j: int| 0 <= j < n.len() && n[j] == e;
                            let sj = if j < i { j } else { j + 1 };
                            assert(o[sj] == e);
                            if sj < i {
                                assert(o[sj].pair_id != o[i as int].pair_id);
                            } else {
                                assert(o[i as int].pair_id != o[sj].pair_id);
                            }
                        }
                        if old(self).has(e) && e.pair_id != pair_id {
                            let j = choose|j: int| 0 <= j < o.len() && o[j] == e;
                            if j < i {
                                assert(n[j] == e);
                            } else {
                                assert(n[j - 1] == e);
                            }
                        }
                    }
                }
            },
            None => {
                proof {
                    assert forall|e: PairQuote| #[trigger]
                        self.has(e) <==> (old(self).has(e) && e.pair_id != pair_id) by {
                        if self.has(e) {
                            let j = choose|j: int|
                                0 <= j < self.entries@.len() && self.entries@[j] == e;
                        }
                    }
                }
            },
        }
    }
}

/// A restartable walk over the pools of one collection and denomination in
/// rank order for one direction. It remembers the last pool handed out;
/// the pools still to come are those ranked after it.
#[derive(Debug, Clone, PartialEq, Eq)]
pub struct QuoteCursor {
    pub collection: String,
    pub denom: String,
    pub side: TransactionType,
    pub last: Option<(u128, u64)>,
}

impl QuoteCursor {
    /// Entry `e` has yet to be handed out.
    pub open spec fn pending(&self, e: PairQuote) -> bool {
        &&& e.collection@ == self.collection@
        &&& e.denom@ == self.denom@
        &&& side_price(e, self.side) is Some
        &&& match self.last {
            Some((p, id)) => ranks_before(
                self.side,
                p,
                id,
                side_price(e, self.side).unwrap(),
                e.pair_id,
            ),
            None => true,
        }
    }

    /// `(id, p)` is the best pending entry of the index.
    pub open spec fn is_next(&self, index: PriceIndex, id: u64, p: u128) -> bool {
        &&& exists|e: PairQuote|
            #![trigger index.has(e)]
            index.has(e) && self.pending(e) && e.pair_id == id && side_price(e, self.side) == Some(
                p,
            )
        &&& forall|e: PairQuote|
            #![trigger index.has(e)]
            index.has(e) && self.pending(e) && e.pair_id != id ==> ranks_before(
                self.side,
                p,
                id,
                side_price(e, self.side).unwrap(),
                e.pair_id,
            )
    }

    pub fn new(collection: String, denom: String, side: TransactionType) -> (r: QuoteCursor)
        ensures
            r == (QuoteCursor { collection, denom, side, last: None }),
    {
        QuoteCursor { collection, denom, side, last: None }
    }

    /// The best pending entry, as pool id and quote, without moving.
    pub fn peek(&self, index: &PriceIndex) -> (r: Option<(u64, u128)>)
        requires
            index.wf(),
        ensures
            r is None ==> forall|e: PairQuote| #[trigger] index.has(e) ==> !self.pending(e),
            r matches Some((id, p)) ==> self.is_next(*index, id, p),
    {
        let mut best: Option<usize> = None;
        let mut j: usize = 0;
        let ghost es = index.entries@;
        while j < index.entries.len()
            invariant
                0 <= j <= es.len(),
                es == index.entries@,
                index.wf(),
                best matches Some(b) ==> b < j && self.pending(es[b as int]),
                best is None ==> forall|a: int| 0 <= a < j ==> !self.pending(#[trigger] es[a]),
                best matches Some(b) ==> forall|a: int|
                    0 <= a < j && a != b && self.pending(#[trigger] es[a]) ==> ranks_before(
                        self.side,
                        side_price(es[b as int], self.side).unwrap(),
                        es[b as int].pair_id,
                        side_price(es[a], self.side).unwrap(),
                        es[a].pair_id,
                    ),
            decreases es.len() - j,
        {
            let e = &index.entries[j];
            let price = match self.side {
                TransactionType::UserSubmitsNfts => e.sell_to_pair_quote,
                TransactionType::UserSubmitsTokens => e.buy_from_pair_quote,
            };
            if let Some(p) = price {
                if e.collection == self.collection && e.denom == self.denom {
                    let after_last = match self.last {
                        Some((lp, lid)) => ranks_before_exec(self.side, lp, lid, p, e.pair_id),
                        None => true,
                    };
                    if after_last {
                        let better = match best {
                            None => true,
                            Some(b) => {
                                let cur = &index.entries[b];
                                let cp = match self.side {
                                    TransactionType::UserSubmitsNfts => cur.sell_to_pair_quote,
                                    TransactionType::UserSubmitsTokens => cur.buy_from_pair_quote,
                                };
                                match cp {
                                    Some(cp) => ranks_before_exec(
                                        self.side,
                                        p,
                                        e.pair_id,
                                        cp,
                                        cur.pair_id,
                                    ),
                                    None => true,
                                }
                            },
                        };
                        if better {
                            proof {
                                if let Some(b) = best {
                                    assert(es[b as int].pair_id != es[j as int].pair_id);
                                }
                            }
                            best = Some(j);
                        } else {
                            proof {
                                let b = best.unwrap() as int;
                                assert(es[b].pair_id != es[j as int].pair_id);
                            }
                        }
                    }
                }
            }
            j = j + 1;
        }
        match best {
            None => {
                proof {
                    assert forall|e: PairQuote| #[trigger] index.has(e) implies !self.pending(e) by {
                        let a = choose|a: int| 0 <= a < es.len() && es[a] == e;
                    }
                }
                None
            },
            Some(b) => {
                let e = &index.entries[b];
                let p = match self.side {
                    TransactionType::UserSubmitsNfts => e.sell_to_pair_quote,
                    TransactionType::UserSubmitsTokens => e.buy_from_pair_quote,
                };
                match p {
                    Some(p) => {
                        proof {
                            assert(index.has(es[b as int]));
                            assert forall|e2: PairQuote| #[trigger]
                                index.has(e2) && self.pending(e2) && e2.pair_id
                                    != es[b as int].pair_id implies ranks_before(
                                self.side,
                                p,
                                es[b as int].pair_id,
                                side_price(e2, self.side).unwrap(),
                                e2.pair_id,
                            ) by {
                                let a = choose|a: int| 0 <= a < es.len() && es[a] == e2;
                            }
                        }
                        Some((e.pair_id, p))
                    },
                    None => None,
                }
            },
        }
    }

    /// Hands out the best pending entry and moves past it.
    pub fn advance(&mut self, index: &PriceIndex) -> (r: Option<(u64, u128)>)
        requires
            index.wf(),
        ensures
            r is None ==> forall|e: PairQuote| #[trigger] index.has(e) ==> !old(self).pending(e),
            r matches Some((id, p)) ==> old(self).is_next(*index, id, p),
            r is None ==> *final(self) == *old(self),
            r matches Some((id, p)) ==> *final(self) == (QuoteCursor {
                last: Some((p, id)),
                ..*old(self)
            }),
    {
        let r = self.peek(index);
        if let Some((id, p)) = r {
            self.last = Some((p, id));
        }
        r
    }

    /// Whether an entry is still pending.
    pub fn has_next(&self, index: &PriceIndex) -> (r: bool)
        requires
            index.wf(),
        ensures
            r <==> exists|e: PairQuote| #[trigger] index.has(e) && self.pending(e),
    {
        match self.peek(index) {
            Some(_) => true,
            None => false,
        }
    }
}

/// How many of `es` the cursor has yet to hand out.
pub open spec fn pending_count(c: QuoteCursor, es: Seq<PairQuote>) -> nat
    decreases es.len(),
{
    if es.len() == 0 {
        0
    } else {
        pending_count(c, es.drop_last()) + if c.pending(es.last()) {
            1nat
        } else {
            0nat
        }
    }
}

/// A cursor that has moved on has no more pending entries than before, and
/// fewer if one entry stopped being pending.
pub proof fn lemma_pending_count_falls(c1: QuoteCursor, c2: QuoteCursor, es: Seq<PairQuote>, i: int)
    requires
        forall|k: int| 0 <= k < es.len() && c2.pending(#[trigger] es[k]) ==> c1.pending(es[k]),
    ensures
        pending_count(c2, es) <= pending_count(c1, es),
        0 <= i < es.len() && c1.pending(es[i]) && !c2.pending(es[i]) ==> pending_count(c2, es)
            < pending_count(c1, es),
    decreases es.len(),
{
    if es.len() > 0 {
        let d = es.drop_last();
        assert forall|k: int| 0 <= k < d.len() && c2.pending(#[trigger] d[k]) implies c1.pending(
            d[k],
        ) by {
            assert(d[k] == es[k]);
        }
        lemma_pending_count_falls(c1, c2, d, i);
        if i < es.len() - 1 && 0 <= i {
            assert(d[i] == es[i]);
        }
        assert(es.last() == es[es.len() - 1]);
    }
}

} // verus!

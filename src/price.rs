use vstd::prelude::*;

use crate::error::OracleError;

verus! {

/// One recorded price observation (a round) of an asset key.
#[derive(Clone, Copy, Debug, PartialEq, Eq, Structural)]
pub struct PriceData {
    /// Position of the round in its key's history, counted from 1.
    pub round_id: u64,
    /// Fixed-point price.
    pub price: u128,
    /// Seconds since the epoch.
    pub timestamp: u64,
}

/// The history of one asset key.
#[derive(Debug)]
struct PriceFeed {
    key: String,
    prices: Vec<PriceData>,
}

/// The rounds of a key are numbered `1, 2, 3, ...` in the order they were
/// appended.
pub open spec fn rounds_numbered(prices: Seq<PriceData>) -> bool {
    forall|i: int| 0 <= i < prices.len() ==> #[trigger] prices[i].round_id == i + 1
}

/// Within a key, a later round is never older than an earlier one.
pub open spec fn timestamps_ordered(prices: Seq<PriceData>) -> bool {
    forall|i: int, j: int|
        0 <= i <= j < prices.len() ==> #[trigger] prices[i].timestamp <= #[trigger] prices[j].timestamp
}

/// What every key's history of a store keeps: rounds numbered from 1 in
/// order, and timestamps that never decrease.
pub open spec fn history_kept(prices: Seq<PriceData>) -> bool {
    rounds_numbered(prices) && timestamps_ordered(prices)
}

/// The most recent round, if any.
pub open spec fn latest_of(prices: Seq<PriceData>) -> Option<PriceData> {
    if prices.len() == 0 {
        None
    } else {
        Some(prices.last())
    }
}

/// The round `back` rounds before the most recent one.
pub open spec fn previous_of(prices: Seq<PriceData>, back: int) -> Result<PriceData, OracleError> {
    if back < prices.len() {
        Ok(prices[prices.len() - 1 - back])
    } else {
        Err(OracleError::InsufficientHistory)
    }
}

/// The most recent round of a loaded history; `NotFound` when it is empty.
pub fn query_get_price(prices: &[PriceData]) -> (r: Result<PriceData, OracleError>)
    ensures
        r == (match latest_of(prices@) {
            Some(p) => Ok(p),
            None => Err(OracleError::NotFound),
        }),
{
    if prices.len() == 0 {
        Err(OracleError::NotFound)
    } else {
        Ok(prices[prices.len() - 1])
    }
}

/// The round `num_round_back` rounds before the most recent one of a loaded
/// history (0 gives the most recent); `InsufficientHistory` when fewer than
/// `num_round_back + 1` rounds exist.
pub fn query_get_previous_price(prices: &[PriceData], num_round_back: u64) -> (r: Result<
    PriceData,
    OracleError,
>)
    ensures
        r == previous_of(prices@, num_round_back as int),
        num_round_back >= prices@.len() ==> r == Err::<PriceData, OracleError>(
            OracleError::InsufficientHistory,
        ),
{
    let n = prices.len();
    if (num_round_back as u128) < (n as u128) {
        let back = num_round_back as usize;
        Ok(prices[n - 1 - back])
    } else {
        Err(OracleError::InsufficientHistory)
    }
}

/// Looking back zero rounds gives the most recent round: it succeeds exactly
/// when a most recent round exists, and then returns it.
pub proof fn lemma_zero_back_is_latest(prices: Seq<PriceData>)
    ensures
        previous_of(prices, 0) == (match latest_of(prices) {
            Some(p) => Ok(p),
            None => Err(OracleError::InsufficientHistory),
        }),
{
}

/// Append-only price history, one sequence of rounds per asset key.
#[derive(Debug)]
pub struct PriceHistory {
    feeds: Vec<PriceFeed>,
}

impl PriceHistory {
    /// Whether `key` has an entry among the feeds.
    pub closed spec fn has_key(&self, key: Seq<char>) -> bool {
        exists|i: int| 0 <= i < self.feeds@.len() && self.feeds@[i].key@ == key
    }

    /// The rounds recorded for `key`, oldest first; empty for an unknown key.
    pub closed spec fn rounds(&self, key: Seq<char>) -> Seq<PriceData> {
        if self.has_key(key) {
            self.feeds@[choose|i: int| 0 <= i < self.feeds@.len() && self.feeds@[i].key@ == key].prices@
        } else {
            Seq::empty()
        }
    }

    /// Keys are unique and every key's rounds are numbered from 1 without gaps.
    pub closed spec fn wf(&self) -> bool {
        &&& forall|i: int, j: int|
            0 <= i < self.feeds@.len() && 0 <= j < self.feeds@.len() && #[trigger] self.feeds@[i].key@
                == #[trigger] self.feeds@[j].key@ ==> i == j
        &&& forall|i: int| 0 <= i < self.feeds@.len() ==> history_kept(#[trigger] self.feeds@[i].prices@)
    }

    proof fn lemma_rounds_at(&self, i: int)
        requires
            self.wf(),
            0 <= i < self.feeds@.len(),
        ensures
            self.rounds(self.feeds@[i].key@) == self.feeds@[i].prices@,
    {
        let key = self.feeds@[i].key@;
        assert(self.has_key(key));
    }

    /// Every key's history in a well-formed store is numbered `1, 2, 3, ...`.
    pub proof fn lemma_wf_rounds_numbered(&self, key: Seq<char>)
        requires
            self.wf(),
        ensures
            rounds_numbered(self.rounds(key)),
    {
        if self.has_key(key) {
            let i = choose|i: int| 0 <= i < self.feeds@.len() && self.feeds@[i].key@ == key;
            assert(history_kept(self.feeds@[i].prices@));
        }
    }

    /// Every key's history in a well-formed store is ordered by time: a later
    /// round is never older than an earlier one, so the latest round is the
    /// newest.
    pub proof fn lemma_wf_timestamps_ordered(&self, key: Seq<char>)
        requires
            self.wf(),
        ensures
            timestamps_ordered(self.rounds(key)),
    {
        if self.has_key(key) {
            let i = choose|i: int| 0 <= i < self.feeds@.len() && self.feeds@[i].key@ == key;
            assert(history_kept(self.feeds@[i].prices@));
        }
    }

    /// An empty store.
    pub fn new() -> (r: Self)
        ensures
            r.wf(),
            forall|key: Seq<char>| #[trigger] r.rounds(key) == Seq::<PriceData>::empty(),
    {
        PriceHistory { feeds: Vec::new() }
    }

    /// Index of the feed of `key`, if there is one.
    fn find(&self, key: &String) -> (r: Option<usize>)
        requires
            self.wf(),
        ensures
            r is None ==> !self.has_key(key@),
            r matches Some(i) ==> i < self.feeds@.len() && self.feeds@[i as int].key@ == key@,
    {
        let mut i: usize = 0;
        while i < self.feeds.len()
            invariant
                i <= self.feeds@.len(),
                forall|j: int| 0 <= j < i ==> self.feeds@[j].key@ != key@,
            decreases self.feeds@.len() - i,
        {
            if self.feeds[i].key == *key {
                return Some(i);
            }
            i += 1;
        }
        None
    }

    /// Records a new round for `key` and returns its round number: 1 for a
    /// key without history, else one more than the latest round's. Fails with
    /// `ArithmeticError`, leaving the store as it was, only when the round
    /// number would pass `u64::MAX`. The caller keeps the key's rounds in
    /// time order: `timestamp` is not older than the key's latest round.
    pub fn append(&mut self, key: &String, price: u128, timestamp: u64) -> (r: Result<
        u64,
        OracleError,
    >)
        requires
            old(self).wf(),
            old(self).rounds(key@).len() > 0 ==> timestamp >= old(self).rounds(key@).last().timestamp,
        ensures
            final(self).wf(),
            r is Err <==> old(self).rounds(key@).len() >= u64::MAX,
            r matches Err(e) ==> e == OracleError::ArithmeticError && *final(self) == *old(self),
            r matches Ok(id) ==> {
                &&& id == old(self).rounds(key@).len() + 1
                &&& final(self).rounds(key@) == old(self).rounds(key@).push(
                    PriceData { round_id: id, price, timestamp },
                )
                &&& forall|k: Seq<char>|
                    k != key@ ==> #[trigger] final(self).rounds(k) == old(self).rounds(k)
            },
    {
        match self.find(key) {
            Some(i) => {
                proof {
                    self.lemma_rounds_at(i as int);
                }
                let n = self.feeds[i].prices.len();
                let id: u64 = if n == 0 {
                    1
                } else {
                    proof {
                        assert(history_kept(self.feeds@[i as int].prices@));
                        assert(self.feeds@[i as int].prices@[n - 1].round_id == n);
                    }
                    match self.feeds[i].prices[n - 1].round_id.checked_add(1) {
                        Some(v) => v,
                        None => {
                            return Err(OracleError::ArithmeticError);
                        },
                    }
                };
                let ghost before = *self;
                self.feeds[i].prices.push(PriceData { round_id: id, price, timestamp });
                proof {
                    assert(self.feeds@[i as int].key@ == key@);
                    assert forall|j: int| 0 <= j < self.feeds@.len() implies history_kept(
                        #[trigger] self.feeds@[j].prices@,
                    ) by {
                        if j != i {
                            assert(self.feeds@[j] == before.feeds@[j]);
                        } else {
                            let old_p = before.feeds@[j].prices@;
                            let new_p = self.feeds@[j].prices@;
                            assert(history_kept(old_p));
                            assert(new_p == old_p.push(PriceData { round_id: id, price, timestamp }));
                            assert forall|a: int, b: int|
                                0 <= a <= b < new_p.len() implies #[trigger] new_p[a].timestamp
                                <= #[trigger] new_p[b].timestamp by {
                                if b == old_p.len() && a < b {
                                    assert(old_p[a].timestamp <= old_p[old_p.len() - 1].timestamp);
                                }
                            }
                        }
                    }
                    assert forall|a: int, b: int|
                        0 <= a < self.feeds@.len() && 0 <= b < self.feeds@.len()
                            && #[trigger] self.feeds@[a].key@ == #[trigger] self.feeds@[b].key@ implies a
                        == b by {
                        assert(before.feeds@[a].key@ == self.feeds@[a].key@);
                        assert(before.feeds@[b].key@ == self.feeds@[b].key@);
                    }
                    self.lemma_rounds_at(i as int);
                    assert forall|k: Seq<char>| k != key@ implies #[trigger] self.rounds(k)
                        == before.rounds(k) by {
                        if before.has_key(k) {
                            let j = choose|j: int|
                                0 <= j < before.feeds@.len() && before.feeds@[j].key@ == k;
                            assert(self.feeds@[j] == before.feeds@[j]);
                            before.lemma_rounds_at(j);
                            self.lemma_rounds_at(j);
                        } else {
                            assert forall|j: int| 0 <= j < self.feeds@.len() implies self.feeds@[j].key@
                                != k by {
                                assert(before.feeds@[j].key@ == self.feeds@[j].key@);
                            }
                        }
                    }
                }
                Ok(id)
            },
            None => {
                let ghost before = *self;
                self.feeds.push(
                    PriceFeed { key: key.clone(), prices: vec![PriceData { round_id: 1, price, timestamp }] },
                );
                proof {
                    let last = self.feeds@.len() - 1;
                    assert(self.feeds@[last].prices@ =~= seq![PriceData { round_id: 1, price, timestamp }]);
                    assert forall|j: int| 0 <= j < self.feeds@.len() implies history_kept(
                        #[trigger] self.feeds@[j].prices@,
                    ) by {
                        if j < last {
                            assert(self.feeds@[j] == before.feeds@[j]);
                        }
                    }
                    assert forall|a: int, b: int|
                        0 <= a < self.feeds@.len() && 0 <= b < self.feeds@.len()
                            && #[trigger] self.feeds@[a].key@ == #[trigger] self.feeds@[b].key@ implies a
                        == b by {
                        if a < last {
                            assert(self.feeds@[a] == before.feeds@[a]);
                        }
                        if b < last {
                            assert(self.feeds@[b] == before.feeds@[b]);
                        }
                    }
                    self.lemma_rounds_at(last);
                    assert(before.rounds(key@) =~= Seq::<PriceData>::empty());
                    assert forall|k: Seq<char>| k != key@ implies #[trigger] self.rounds(k)
                        == before.rounds(k) by {
                        if before.has_key(k) {
                            let j = choose|j: int|
                                0 <= j < before.feeds@.len() && before.feeds@[j].key@ == k;
                            assert(self.feeds@[j] == before.feeds@[j]);
                            before.lemma_rounds_at(j);
                            self.lemma_rounds_at(j);
                        } else {
                            assert forall|j: int| 0 <= j < self.feeds@.len() implies self.feeds@[j].key@
                                != k by {
                                if j < last {
                                    assert(before.feeds@[j] == self.feeds@[j]);
                                }
                            }
                        }
                    }
                }
                Ok(1)
            },
        }
    }

    /// The most recent round of `key`, if the key has any.
    pub fn latest(&self, key: &String) -> (r: Option<PriceData>)
        requires
            self.wf(),
        ensures
            r == latest_of(self.rounds(key@)),
    {
        let prices = self.prices(key);
        if prices.len() == 0 {
            None
        } else {
            Some(prices[prices.len() - 1])
        }
    }

    /// The round `k` rounds before the most recent one of `key`.
    pub fn nth_from_latest(&self, key: &String, k: u64) -> (r: Result<PriceData, OracleError>)
        requires
            self.wf(),
        ensures
            r == previous_of(self.rounds(key@), k as int),
    {
        query_get_previous_price(self.prices(key), k)
    }

    /// The rounds recorded for `key`, oldest first.
    pub fn prices(&self, key: &String) -> (r: &[PriceData])
        requires
            self.wf(),
        ensures
            r@ == self.rounds(key@),
    {
        match self.find(key) {
            Some(i) => {
                proof {
                    self.lemma_rounds_at(i as int);
                }
                self.feeds[i].prices.as_slice()
            },
            None => &[],
        }
    }
}

} // verus!

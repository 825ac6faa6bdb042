//! The Contrée auction: bids, the bidding state machine, and the legal-bid
//! enumeration.
//!
//! A bid names a point value (80 to 160 in steps of ten) and a trump
//! encoding (the four suits, then No-Trump and All-Trump).  A bid beats the
//! standing contract when its value is higher, or equal with a higher
//! trump encoding.

use vstd::prelude::*;

verus! {

/// A Contrée bid: a point value and a trump encoding.
#[derive(Debug, Clone, Copy, PartialEq, Eq, Structural, PartialOrd, Ord)]
pub struct Bid {
    /// Bid value in points: 80, 90, ... 160.
    pub value: u8,
    /// Trump encoding: suits 0-3 as in the play phase, 4 = No-Trump,
    /// 5 = All-Trump.
    pub trump: u8,
}

impl Bid {
    pub fn new(value: u8, trump: u8) -> (b: Bid)
        ensures
            b.value == value,
            b.trump == trump,
    {
        Bid { value, trump }
    }
}

/// Is `v` one of the nine biddable point values?
pub open spec fn bid_value_ok(v: u8) -> bool {
    v == 80 || v == 90 || v == 100 || v == 110 || v == 120 || v == 130 || v == 140 || v == 150
        || v == 160
}

/// Does `candidate` beat the standing contract `current`?
pub open spec fn bid_beats(current: Option<Bid>, candidate: Bid) -> bool {
    match current {
        None => true,
        Some(cur) => candidate.value > cur.value || (candidate.value == cur.value
            && candidate.trump > cur.trump),
    }
}

/// A bid the enumeration must offer against `current`.
pub open spec fn legal_bid_ok(current: Option<Bid>, b: Bid) -> bool {
    bid_value_ok(b.value) && b.trump < 6 && bid_beats(current, b)
}

/// Strict value-then-trump order on bids.
pub open spec fn bid_lt(a: Bid, b: Bid) -> bool {
    a.value < b.value || (a.value == b.value && a.trump < b.trump)
}

/// Does a given bid beat the current one?
pub fn beats(current: Option<Bid>, candidate: Bid) -> (r: bool)
    ensures
        r == bid_beats(current, candidate),
{
    match current {
        None => true,
        Some(cur) => {
            if candidate.value > cur.value {
                true
            } else if candidate.value == cur.value && candidate.trump > cur.trump {
                true
            } else {
                false
            }
        },
    }
}

/// All bids that may be made over `current` (a pass is always allowed and
/// is not listed): exactly the bids that beat it, in increasing
/// value-then-trump order.
pub fn legal_bids(current: Option<Bid>) -> (r: Vec<Bid>)
    ensures
        forall|i: int| 0 <= i < r@.len() ==> legal_bid_ok(current, #[trigger] r@[i]),
        forall|b: Bid| legal_bid_ok(current, b) ==> r@.contains(b),
        forall|i: int, j: int| 0 <= i < j < r@.len() ==> bid_lt(r@[i], r@[j]),
{
    let mut bids: Vec<Bid> = Vec::new();
    let mut vi: u8 = 0;
    while vi < 9
        invariant
            vi <= 9,
            forall|i: int| 0 <= i < bids@.len() ==> legal_bid_ok(current, #[trigger] bids@[i]),
            forall|i: int| 0 <= i < bids@.len() ==> (#[trigger] bids@[i]).value < 80 + 10 * vi,
            forall|b: Bid|
                legal_bid_ok(current, b) && b.value < 80 + 10 * vi ==> bids@.contains(b),
            forall|i: int, j: int| 0 <= i < j < bids@.len() ==> bid_lt(bids@[i], bids@[j]),
        decreases 9 - vi,
    {
        let v = 80 + 10 * vi;
        let mut s: u8 = 0;
        while s < 6
            invariant
                vi < 9,
                v == 80 + 10 * vi,
                s <= 6,
                forall|i: int| 0 <= i < bids@.len() ==> legal_bid_ok(current, #[trigger] bids@[i]),
                forall|i: int|
                    0 <= i < bids@.len() ==> (#[trigger] bids@[i]).value < v || (bids@[i].value == v
                        && bids@[i].trump < s),
                forall|b: Bid|
                    legal_bid_ok(current, b) && (b.value < v || (b.value == v && b.trump < s))
                        ==> bids@.contains(b),
                forall|i: int, j: int| 0 <= i < j < bids@.len() ==> bid_lt(bids@[i], bids@[j]),
            decreases 6 - s,
        {
            let b = Bid { value: v, trump: s };
            let ghost before = bids@;
            if beats(current, b) {
                bids.push(b);
                proof {
                    assert(bids@ == before.push(b));
                    assert(bids@[before.len() as int] == b);
                    assert(bids@.contains(b));
                    assert forall|x: Bid| before.contains(x) implies bids@.contains(x) by {
                        let i = choose|i: int| 0 <= i < before.len() && before[i] == x;
                        assert(bids@[i] == x);
                    }
                }
            }
            proof {
                assert(bid_value_ok(v));
                assert forall|x: Bid|
                    legal_bid_ok(current, x) && (x.value < v || (x.value == v && x.trump < s
                        + 1)) implies bids@.contains(x) by {
                    if x.value == v && x.trump == s {
                        assert(bid_beats(current, x));
                        assert(x == b);
                    } else {
                        assert(before.contains(x));
                    }
                }
            }
            s = s + 1;
        }
        vi = vi + 1;
        proof {
            assert forall|b: Bid|
                legal_bid_ok(current, b) && b.value < 80 + 10 * vi implies bids@.contains(b) by {
                assert(b.value < v || (b.value == v && b.trump < 6));
            }
        }
    }
    proof {
        assert forall|b: Bid| legal_bid_ok(current, b) implies bids@.contains(b) by {
            assert(b.value < 80 + 10 * 9);
        }
    }
    bids
}

/// State of the auction: the bids so far, the seat to speak, the standing
/// contract and its owner, the Coinche level and the run of passes.
#[derive(Debug, Clone)]
pub struct BiddingState {
    /// One entry per spoken turn; `None` is a pass.
    pub history: Vec<Option<Bid>>,
    pub current_player: u8,
    pub contract: Option<Bid>,
    pub contract_owner: Option<u8>,
    /// 0 = none, 1 = Coinche, 2 = Surcoinche.
    pub coinche_level: u8,
    pub consecutive_passes: u8,
}

/// The auction is over: four opening passes, three passes over a standing
/// contract, or a Surcoinche.
pub open spec fn bidding_finished(s: BiddingState) -> bool {
    if s.contract is Some {
        s.consecutive_passes >= 3 || s.coinche_level == 2
    } else {
        s.consecutive_passes >= 4
    }
}

impl BiddingState {
    /// Fresh auction; the seat after the dealer speaks first.
    pub fn new(dealer: u8) -> (s: BiddingState)
        requires
            dealer < 4,
        ensures
            s.history@ == Seq::<Option<Bid>>::empty(),
            s.current_player == (dealer + 1) % 4,
            s.contract is None,
            s.contract_owner is None,
            s.coinche_level == 0,
            s.consecutive_passes == 0,
    {
        BiddingState {
            history: Vec::new(),
            current_player: (dealer + 1) % 4,
            contract: None,
            contract_owner: None,
            coinche_level: 0,
            consecutive_passes: 0,
        }
    }

    /// Apply one spoken turn: a pass extends the run of passes, a bid must
    /// beat the standing contract and may not follow a Coinche.  A refused
    /// bid leaves the auction untouched.
    pub fn apply_bid(&mut self, bid: Option<Bid>) -> (r: Result<(), &'static str>)
        requires
            old(self).current_player < 4,
            old(self).consecutive_passes < 100,
        ensures
            r is Ok <==> (bid is None || (old(self).coinche_level == 0 && bid_beats(
                old(self).contract,
                bid->0,
            ))),
            r is Err ==> *final(self) == *old(self),
            r is Ok ==> {
                &&& final(self).history@ == old(self).history@.push(bid)
                &&& final(self).current_player == (old(self).current_player + 1) % 4
                &&& final(self).coinche_level == old(self).coinche_level
                &&& (match bid {
                    None => {
                        &&& final(self).consecutive_passes == old(self).consecutive_passes + 1
                        &&& final(self).contract == old(self).contract
                        &&& final(self).contract_owner == old(self).contract_owner
                    },
                    Some(b) => {
                        &&& final(self).consecutive_passes == 0
                        &&& final(self).contract == Some(b)
                        &&& final(self).contract_owner == Some(old(self).current_player)
                    },
                })
            },
    {
        match bid {
            None => {
                self.consecutive_passes = self.consecutive_passes + 1;
            },
            Some(b) => {
                if self.coinche_level > 0 {
                    return Err("Cannot bid after coinche");
                }
                let beaten = beats(self.contract, b);
                if !beaten {
                    return Err("Bid does not beat current contract");
                }
                self.contract = Some(b);
                self.contract_owner = Some(self.current_player);
                self.consecutive_passes = 0;
            },
        }
        self.history.push(bid);
        self.current_player = (self.current_player + 1) % 4;
        Ok(())
    }

    /// Coinche the standing contract: only an un-coinched contract can be
    /// coinched.
    pub fn coinche(&mut self) -> (r: Result<(), &'static str>)
        ensures
            r is Ok <==> (old(self).contract is Some && old(self).coinche_level == 0),
            r is Err ==> *final(self) == *old(self),
            r is Ok ==> *final(self) == (BiddingState { coinche_level: 1u8, ..*old(self) }),
    {
        if self.contract.is_none() {
            return Err("No contract to coinche");
        }
        if self.coinche_level != 0 {
            return Err("Contract already coinched");
        }
        self.coinche_level = 1;
        Ok(())
    }

    /// Surcoinche a coinched contract, which ends the auction.
    pub fn surcoinche(&mut self) -> (r: Result<(), &'static str>)
        ensures
            r is Ok <==> old(self).coinche_level == 1,
            r is Err ==> *final(self) == *old(self),
            r is Ok ==> *final(self) == (BiddingState { coinche_level: 2u8, ..*old(self) }),
    {
        if self.coinche_level != 1 {
            return Err("Only a coinched contract can be surcoinched");
        }
        self.coinche_level = 2;
        Ok(())
    }

    pub fn is_finished(&self) -> (b: bool)
        ensures
            b == bidding_finished(*self),
    {
        if self.contract.is_some() {
            self.consecutive_passes >= 3 || self.coinche_level == 2
        } else {
            self.consecutive_passes >= 4
        }
    }
}

} // verus!

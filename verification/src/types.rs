//! Plain data carried through the recommendation pipeline.

use vstd::prelude::*;

verus! {

/// Identifier of a session.
pub type SessionId = u32;

/// Identifier of an item.
pub type ItemId = u64;

/// One interaction fact: session, item, and interaction order.
pub type SessionItemWithOrder = (SessionId, ItemId, u32);

/// An exact score: the numerator of a rational number whose positive
/// denominator is shared by every score of one query, so that comparing
/// two scores of the same query is an integer comparison of numerators.
#[derive(Clone, Copy, Debug, PartialEq, Eq, Structural)]
pub struct Score {
    pub num: i128,
    pub den: u64,
}

impl Score {
    pub fn new(num: i128, den: u64) -> (r: Score)
        ensures
            r.num == num,
            r.den == den,
    {
        Score { num, den }
    }
}

/// A historical session paired with the timestamp (maximum interaction
/// order) that decides recency during neighbor sampling.
#[derive(Clone, Copy, Debug, PartialEq, Eq, Structural)]
pub struct SessionTime {
    pub session_id: u32,
    pub time: u32,
}

impl SessionTime {
    pub fn new(session_id: u32, time: u32) -> (r: SessionTime)
        ensures
            r.session_id == session_id,
            r.time == time,
    {
        SessionTime { session_id, time }
    }
}

/// An interaction order (a per-session sequence or time value).
#[derive(Clone, Copy, Debug, PartialEq, Eq, Structural)]
pub struct Order {
    pub value: u32,
}

impl Order {
    pub fn new(value: u32) -> (r: Order)
        ensures
            r.value == value,
    {
        Order { value }
    }
}

/// A neighbor session selected for an evolving session, with its
/// accumulated similarity.
#[derive(Clone, Copy, Debug, PartialEq, Eq, Structural)]
pub struct SessionScore {
    pub id: u32,
    pub score: Score,
}

impl SessionScore {
    pub fn new(id: u32, score: Score) -> (r: SessionScore)
        ensures
            r.id == id,
            r.score == score,
    {
        SessionScore { id, score }
    }
}

/// A recommended item with its aggregated score.
#[derive(Clone, Copy, Debug, PartialEq, Eq, Structural)]
pub struct ItemScore {
    pub id: u64,
    pub score: Score,
}

impl ItemScore {
    pub fn new(id: u64, score: Score) -> (r: ItemScore)
        ensures
            r.id == id,
            r.score == score,
    {
        ItemScore { id, score }
    }
}

/// Catalog attributes consulted by the business-rule filter.
#[derive(Clone, Copy, Debug, PartialEq, Eq, Structural)]
pub struct ProductAttributes {
    pub is_adult: bool,
    pub is_for_sale: bool,
}

} // verus!

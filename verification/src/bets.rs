//! Stake amounts for a bet set, given directly or through the amounts hash.

use vstd::prelude::*;

use crate::codec::amounts_hash_to_bet_amounts;
use crate::codec::decoded_amounts;
use crate::codec::valid_amounts_hash;
use crate::math::BET_AMOUNT_MAX;
use crate::math::BET_AMOUNT_MIN;

verus! {

/// A set of bet amounts: an encoded amounts hash, a plain list of optional
/// stakes, or nothing.
#[derive(Debug, PartialEq, Eq)]
pub enum BetAmounts {
    AmountHash(String),
    Amounts(Vec<Option<u32>>),
    Empty,
}

/// A stake list with trailing absent stakes dropped.
pub open spec fn cleaned_amounts(am: Seq<Option<u32>>) -> Seq<Option<u32>>
    decreases am.len(),
{
    if am.len() > 0 && am.last() is None {
        cleaned_amounts(am.drop_last())
    } else {
        am
    }
}

impl BetAmounts {
    /// Returns the stake list these amounts stand for, with trailing absent
    /// stakes dropped: decoded from the hash, taken as given, or nothing.
    /// A malformed hash yields nothing.
    pub fn to_vec(&self) -> (r: Option<Vec<Option<u32>>>)
        ensures
            self is Empty ==> r is None,
            self matches BetAmounts::Amounts(am) ==> (r matches Some(v) && v@ == cleaned_amounts(
                am@,
            )),
            self matches BetAmounts::AmountHash(h) ==> (valid_amounts_hash(h@) ==> (r matches Some(
                v,
            ) && v@ == cleaned_amounts(decoded_amounts(h@)))),
            self matches BetAmounts::AmountHash(h) ==> (!valid_amounts_hash(h@) ==> r is None),
    {
        match self {
            BetAmounts::AmountHash(hash) => {
                match amounts_hash_to_bet_amounts(hash.as_str()) {
                    Ok(amounts) => Some(Self::clean_amounts(amounts)),
                    Err(_) => None,
                }
            },
            BetAmounts::Amounts(amounts) => {
                let copy = clone_amounts(amounts);
                Some(Self::clean_amounts(copy))
            },
            BetAmounts::Empty => None,
        }
    }

    /// Builds amounts that stake the same value on each of `length` bets;
    /// nothing when the length is zero or the value is out of range.
    pub fn from_amount(amount: u32, length: usize) -> (r: BetAmounts)
        ensures
            (length == 0 || amount > BET_AMOUNT_MAX || amount < BET_AMOUNT_MIN) <==> r is Empty,
            !(length == 0 || amount > BET_AMOUNT_MAX || amount < BET_AMOUNT_MIN) ==> (r matches
            BetAmounts::Amounts(v) && v@ =~= Seq::new(length as nat, |i: int| Some(amount))),
    {
        if length == 0 {
            return BetAmounts::Empty;
        }
        if amount > BET_AMOUNT_MAX || amount < BET_AMOUNT_MIN {
            return BetAmounts::Empty;
        }
        BetAmounts::Amounts(vec![Some(amount); length])
    }

    /// Drops trailing absent stakes from a stake list.
    fn clean_amounts(amounts: Vec<Option<u32>>) -> (r: Vec<Option<u32>>)
        ensures
            r@ == cleaned_amounts(amounts@),
    {
        let mut cleaned = amounts;
        while cleaned.len() > 0 && cleaned[cleaned.len() - 1].is_none()
            invariant
                cleaned_amounts(cleaned@) == cleaned_amounts(amounts@),
            decreases cleaned@.len(),
        {
            proof {
                assert(cleaned@.last() is None);
            }
            cleaned.pop();
        }
        proof {
            assert(cleaned@.len() == 0 || !(cleaned@.last() is None));
            assert(cleaned_amounts(cleaned@) == cleaned@);
        }
        cleaned
    }
}

/// Returns a copy of a stake list.
fn clone_amounts(amounts: &Vec<Option<u32>>) -> (r: Vec<Option<u32>>)
    ensures
        r@ == amounts@,
{
    let mut out: Vec<Option<u32>> = Vec::new();
    let mut i: usize = 0;
    while i < amounts.len()
        invariant
            i <= amounts@.len(),
            out@ =~= amounts@.take(i as int),
        decreases amounts@.len() - i,
    {
        out.push(amounts[i]);
        i = i + 1;
        proof {
            assert(out@ =~= amounts@.take(i as int));
        }
    }
    proof {
        assert(amounts@.take(amounts@.len() as int) =~= amounts@);
    }
    out
}

} // verus!

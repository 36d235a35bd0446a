//! A quantity entry: one card reference and how many copies are tracked.

use vstd::prelude::*;
use vstd::string::StringExecFns;

use crate::card::{spec_card_label, Card, CardView};
use crate::decimal::spec_decimal;
use crate::decimal::u64_to_string;
use crate::error::LedgerError;

verus! {

/// A card reference paired with a non-negative count of copies.
#[derive(Clone, Debug)]
pub struct CardEntry {
    pub count: u64,
    pub card: Card,
}

/// The mathematical content of a `CardEntry`: the count is unbounded
/// here, the executable counter is a machine word.
#[verifier::ext_equal]
pub struct CardEntryView {
    pub count: nat,
    pub card: CardView,
}

impl View for CardEntry {
    type V = CardEntryView;

    open spec fn view(&self) -> CardEntryView {
        CardEntryView { count: self.count as nat, card: self.card@ }
    }
}

/// What increasing a count by `n` yields.
pub open spec fn spec_inc_count(count: nat, n: nat) -> nat {
    count + n
}

/// What decreasing a count by `n` yields: the count less `n`, clamped
/// at zero.
pub open spec fn spec_dec_count(count: nat, n: nat) -> nat {
    if n <= count {
        (count - n) as nat
    } else {
        0
    }
}

/// Pairs a count with a card reference.
pub fn new(count: u64, card: Card) -> (r: CardEntry)
    ensures
        r@.count == count as nat,
        r@.card == card@,
{
    CardEntry { count, card }
}

impl CardEntry {
    /// Adds `count` copies.  An increase that does not fit in the
    /// counter is refused and leaves the entry unchanged.
    pub fn inc_count(&mut self, count: u64) -> (r: Result<(), LedgerError>)
        ensures
            r is Ok <==> old(self)@.count + count <= u64::MAX,
            r is Ok ==> final(self)@.count == spec_inc_count(old(self)@.count, count as nat),
            r is Err ==> r == Err::<(), LedgerError>(LedgerError::InvalidQuantity) && *final(self)
                == *old(self),
            final(self)@.card == old(self)@.card,
    {
        if count <= u64::MAX - self.count {
            self.count = self.count + count;
            Ok(())
        } else {
            Err(LedgerError::InvalidQuantity)
        }
    }

    /// Removes up to `count` copies, clamping at zero, and reports how
    /// many copies were actually removed.
    pub fn dec_count(&mut self, count: u64) -> (removed: u64)
        ensures
            final(self)@.count == spec_dec_count(old(self)@.count, count as nat),
            removed as nat == old(self)@.count - final(self)@.count,
            final(self)@.card == old(self)@.card,
    {
        if self.count >= count {
            self.count = self.count - count;
            count
        } else {
            let removed = self.count;
            self.count = 0;
            removed
        }
    }

    /// Overwrites the count.
    pub fn update_count(&mut self, count: u64)
        ensures
            final(self)@.count == count as nat,
            final(self)@.card == old(self)@.card,
    {
        self.count = count;
    }

    /// A deep copy with the same view, for handing out snapshots.
    pub fn duplicate(&self) -> (r: CardEntry)
        ensures
            r@ == self@,
    {
        CardEntry { count: self.count, card: self.card.duplicate() }
    }

    /// Renders the entry as one listing line: the count in decimal, a
    /// space, then the card label.
    pub fn to_string(&self) -> (r: String)
        ensures
            r@ == spec_entry_line(self@),
    {
        let mut s = u64_to_string(self.count);
        s.append(" ");
        let label = self.card.to_string();
        s.append(label.as_str());
        proof {
            assert(s@ =~= spec_entry_line(self@));
        }
        s
    }
}

/// The listing line for an entry.
pub open spec fn spec_entry_line(e: CardEntryView) -> Seq<char> {
    spec_decimal(e.count) + " "@ + spec_card_label(e.card)
}

/// Increasing a count by `n` and then decreasing it by `n` restores the
/// original count.
pub proof fn lemma_inc_then_dec_restores(count: nat, n: nat)
    ensures
        spec_dec_count(spec_inc_count(count, n), n) == count,
{
}

/// Decreasing clamps instead of underflowing: the result never exceeds
/// the starting count, it is exactly `count - n` when `n` fits, and it
/// is zero — never anything lower — when `n` is larger than the count.
pub proof fn lemma_dec_clamps(count: nat, n: nat)
    ensures
        spec_dec_count(count, n) <= count,
        n <= count ==> spec_dec_count(count, n) == count - n,
        n > count ==> spec_dec_count(count, n) == 0,
{
}

} // verus!

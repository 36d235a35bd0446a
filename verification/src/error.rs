//! The error kinds a ledger operation can report.

use vstd::prelude::*;

verus! {

/// Everything that can go wrong while building a card reference or
/// changing a count.  A missing ledger is not an error: an owner who never
/// added a card simply has nothing to show.
#[derive(Clone, Copy, Debug, PartialEq, Eq, Structural)]
pub enum LedgerError {
    /// A catalog record is malformed: its card name is empty.
    InvalidCard,
    /// A chosen printing is not among the printings the catalog lists
    /// for that card.
    UnknownPrinting,
    /// A count change does not fit in the counter.
    InvalidQuantity,
}

} // verus!

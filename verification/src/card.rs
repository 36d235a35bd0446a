//! Card identity: a catalog record plus an optional chosen printing.

use vstd::prelude::*;
use vstd::string::StringExecFns;

use crate::error::LedgerError;

verus! {

/// A catalog record: the card's name, the printings it appeared in, and
/// its type tags.  The record is an owned copy of the catalog's fields,
/// so a ledger entry does not borrow from the catalog.
#[derive(Clone, Debug)]
pub struct AtomicCard {
    pub name: String,
    pub printings: Vec<String>,
    pub types: Vec<String>,
}

/// The mathematical content of an `AtomicCard`.
#[verifier::ext_equal]
pub struct AtomicCardView {
    pub name: Seq<char>,
    pub printings: Seq<Seq<char>>,
    pub types: Seq<Seq<char>>,
}

impl View for AtomicCard {
    type V = AtomicCardView;

    open spec fn view(&self) -> AtomicCardView {
        AtomicCardView {
            name: self.name@,
            printings: self.printings.deep_view(),
            types: self.types.deep_view(),
        }
    }
}

/// Whether `p` is one of the printings the catalog record lists.
pub open spec fn spec_has_printing(a: AtomicCardView, p: Seq<char>) -> bool {
    exists|i: int| 0 <= i < a.printings.len() && a.printings[i] == p
}

impl AtomicCard {
    /// Builds a catalog record; a record with an empty name is malformed.
    pub fn new(name: String, printings: Vec<String>, types: Vec<String>) -> (r: Result<
        AtomicCard,
        LedgerError,
    >)
        ensures
            r is Ok <==> name@.len() > 0,
            r matches Ok(c) ==> c@.name == name@ && c@.printings == printings.deep_view()
                && c@.types == types.deep_view(),
            r is Err ==> r == Err::<AtomicCard, LedgerError>(LedgerError::InvalidCard),
    {
        if name.as_str().is_empty() {
            Err(LedgerError::InvalidCard)
        } else {
            Ok(AtomicCard { name, printings, types })
        }
    }
}

/// Copies a vector of strings element by element.
#[verifier::loop_isolation(false)]
fn clone_strings(v: &Vec<String>) -> (r: Vec<String>)
    ensures
        r@ == v@,
{
    let mut r: Vec<String> = Vec::new();
    let n = v.len();
    let mut i: usize = 0;
    while i < n
        invariant
            i <= n,
            r@ == v@.subrange(0, i as int),
        decreases n - i,
    {
        r.push(v[i].clone());
        proof {
            assert(r@ =~= v@.subrange(0, i as int + 1));
        }
        i = i + 1;
    }
    proof {
        assert(v@.subrange(0, n as int) =~= v@);
    }
    r
}

impl AtomicCard {
    /// A deep copy with the same view, for handing out snapshots.
    pub fn duplicate(&self) -> (r: AtomicCard)
        ensures
            r@ == self@,
    {
        let r = AtomicCard {
            name: self.name.clone(),
            printings: clone_strings(&self.printings),
            types: clone_strings(&self.types),
        };
        proof {
            assert(r.printings.deep_view() =~= self.printings.deep_view());
            assert(r.types.deep_view() =~= self.types.deep_view());
            assert(r@ =~= self@);
        }
        r
    }
}

/// A card reference as a user tracks it: the catalog record plus the
/// chosen printing.  An empty printing means "any printing".
#[derive(Clone, Debug)]
pub struct Card {
    pub card: AtomicCard,
    pub printing: String,
}

/// The mathematical content of a `Card`.
#[verifier::ext_equal]
pub struct CardView {
    pub card: AtomicCardView,
    pub printing: Seq<char>,
}

impl View for Card {
    type V = CardView;

    open spec fn view(&self) -> CardView {
        CardView { card: self.card@, printing: self.printing@ }
    }
}

impl CardView {
    /// A reference with an empty printing stands for any printing.
    pub open spec fn wildcard(self) -> bool {
        self.printing.len() == 0
    }

    /// The catalog name the reference points at.
    pub open spec fn name(self) -> Seq<char> {
        self.card.name
    }

    /// The construction invariant: a chosen printing is one the catalog
    /// record lists.
    pub open spec fn wf(self) -> bool {
        self.wildcard() || spec_has_printing(self.card, self.printing)
    }
}

/// Strict identity: the conjunction of the identity-defining fields —
/// the name and the chosen printing must both agree.  This is what the
/// ledger merges on; never a disjunction, and never the wildcard rule.
pub open spec fn spec_same_identity(a: CardView, b: CardView) -> bool {
    a.name() == b.name() && a.printing == b.printing
}

/// The wildcard-aware identity match: the names agree, and either side
/// leaves the printing open, or both choose the same one.
pub open spec fn spec_matches(a: CardView, b: CardView) -> bool {
    a.name() == b.name() && (a.wildcard() || b.wildcard() || a.printing == b.printing)
}

/// The listing text for a card reference: the name, and the chosen
/// printing in brackets when there is one.
pub open spec fn spec_card_label(c: CardView) -> Seq<char> {
    if c.wildcard() {
        c.card.name
    } else {
        c.card.name + " ["@ + c.printing + "]"@
    }
}

/// Builds a card reference, enforcing that a chosen printing is one the
/// catalog record lists; an empty printing always passes and stands for
/// any printing.
pub fn new(card: AtomicCard, printing: String) -> (r: Result<Card, LedgerError>)
    ensures
        r is Ok <==> (printing@.len() == 0 || spec_has_printing(card@, printing@)),
        r matches Ok(c) ==> c@.card == card@ && c@.printing == printing@ && c@.wf(),
        r is Err ==> r == Err::<Card, LedgerError>(LedgerError::UnknownPrinting),
{
    if printing.as_str().is_empty() {
        return Ok(Card { card, printing });
    }
    let n = card.printings.len();
    let mut i: usize = 0;
    while i < n
        invariant
            n == card.printings.len(),
            0 <= i <= n,
            forall|k: int| 0 <= k < i ==> card@.printings[k] != printing@,
        decreases n - i,
    {
        if card.printings[i] == printing {
            assert(card@.printings[i as int] == printing@);
            return Ok(Card { card, printing });
        }
        i = i + 1;
    }
    Err(LedgerError::UnknownPrinting)
}

impl Card {
    /// The wildcard-aware match of `spec_matches`.
    pub fn matches(&self, other: &Card) -> (r: bool)
        ensures
            r == spec_matches(self@, other@),
    {
        if !(self.card.name == other.card.name) {
            return false;
        }
        if self.printing.as_str().is_empty() || other.printing.as_str().is_empty() {
            return true;
        }
        self.printing == other.printing
    }

    /// The strict identity check of `spec_same_identity`: true only
    /// when the name and the chosen printing both agree.
    pub fn same_identity(&self, other: &Card) -> (r: bool)
        ensures
            r == spec_same_identity(self@, other@),
    {
        self.card.name == other.card.name && self.printing == other.printing
    }

    /// A copy of the catalog name the reference points at.
    pub fn get_name(&self) -> (r: String)
        ensures
            r@ == self@.name(),
    {
        self.card.name.clone()
    }

    /// A deep copy with the same view, for handing out snapshots.
    pub fn duplicate(&self) -> (r: Card)
        ensures
            r@ == self@,
    {
        let r = Card { card: self.card.duplicate(), printing: self.printing.clone() };
        proof {
            assert(r@ =~= self@);
        }
        r
    }

    /// Renders the reference as `spec_card_label` states.
    pub fn to_string(&self) -> (r: String)
        ensures
            r@ == spec_card_label(self@),
    {
        let mut s = self.card.name.clone();
        if !self.printing.as_str().is_empty() {
            s.append(" [");
            s.append(self.printing.as_str());
            s.append("]");
        }
        proof {
            assert(s@ =~= spec_card_label(self@));
        }
        s
    }
}

} // verus!

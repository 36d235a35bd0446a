//! The store: one ledger per owner, behind a concurrent map.
//!
//! The map is dashmap's sharded hash map, so commands for different
//! owners do not contend on one global lock.  Verus sees the map only
//! through `store_contents` and the four trusted wrappers below; every
//! operation on the ledgers themselves is verified.  dashmap mutates
//! through `&self`; the mutating wrappers take `&mut self` anyway, so
//! that their contracts can relate the map before and after the call.

use vstd::prelude::*;

use crate::card::Card;
use crate::error::LedgerError;
use crate::model::{
    empty_tradelist, lines_view, spec_add, spec_add_overflows, spec_apply_adds, spec_contains,
    spec_remove, spec_remove_delta, spec_set_visibility,
};
use crate::render::{spec_body, Rendered};
use crate::tradelist::Tradelist;

verus! {

/// dashmap's concurrent map, declared so a verified struct can hold
/// one; Verus sees nothing inside a value of it.
#[verifier::external_type_specification]
#[verifier::external_body]
#[verifier::reject_recursive_types(K)]
#[verifier::reject_recursive_types(V)]
#[verifier::reject_recursive_types(S)]
pub struct ExDashMap<K, V, S>(dashmap::DashMap<K, V, S>);

/// The concrete map type the store wraps: owner to ledger.
pub type OwnerMap = dashmap::DashMap<u64, Tradelist>;

/// What a `dashmap::DashMap` from owner to `Tradelist` holds: the
/// ledger stored under each owner.
pub uninterp spec fn store_contents(m: OwnerMap) -> Map<u64, Tradelist>;

/// The map with no ledgers in it.
pub open spec fn no_ledgers() -> Map<u64, Tradelist> {
    Map::empty()
}

/// One ledger per owner.  A ledger is created lazily on an owner's
/// first add and then lives for the process lifetime; no delete is
/// exposed.
pub struct LedgerStore {
    inner: OwnerMap,
}

impl LedgerStore {
    /// The ledgers the store holds, keyed by owner.
    pub closed spec fn ledgers(self) -> Map<u64, Tradelist> {
        store_contents(self.inner)
    }

    /// Every stored ledger satisfies the ledger invariant.
    pub open spec fn wf(self) -> bool {
        forall|o: u64| self.ledgers().dom().contains(o) ==> (#[trigger] self.ledgers()[o]).wf()
    }

    /// Relies on `dashmap::DashMap::new`: a freshly created map holds
    /// nothing.
    #[verifier::external_body]
    fn raw_new() -> (m: OwnerMap)
        ensures
            store_contents(m) == no_ledgers(),
    {
        dashmap::DashMap::new()
    }

    /// Relies on `dashmap::DashMap::insert`: after the call the key
    /// maps to the given value and no other key changes.
    #[verifier::external_body]
    fn raw_insert(&mut self, owner: u64, ledger: Tradelist)
        ensures
            store_contents(final(self).inner) == store_contents(old(self).inner).insert(
                owner,
                ledger,
            ),
    {
        self.inner.insert(owner, ledger);
    }

    /// Relies on `dashmap::DashMap::remove`: the call takes out and
    /// returns exactly the value stored under the key, if any, and no
    /// other key changes.
    #[verifier::external_body]
    fn raw_remove(&mut self, owner: u64) -> (r: Option<Tradelist>)
        ensures
            store_contents(final(self).inner) == store_contents(old(self).inner).remove(owner),
            r == if store_contents(old(self).inner).dom().contains(owner) {
                Some(store_contents(old(self).inner)[owner])
            } else {
                None::<Tradelist>
            },
    {
        self.inner.remove(&owner).map(|kv| kv.1)
    }

    /// Relies on `dashmap::DashMap::get`: the key's presence decides
    /// the variant, and the returned snapshot is made by the verified
    /// `Tradelist::duplicate`, so it has the stored ledger's view.
    #[verifier::external_body]
    fn raw_get(&self, owner: u64) -> (r: Option<Tradelist>)
        ensures
            r is Some <==> store_contents(self.inner).dom().contains(owner),
            r matches Some(t) ==> t@ == store_contents(self.inner)[owner]@,
    {
        self.inner.get(&owner).map(|entry| entry.value().duplicate())
    }

    /// A fresh store with no ledgers.
    pub fn new() -> (s: LedgerStore)
        ensures
            s.ledgers() == no_ledgers(),
            s.wf(),
    {
        LedgerStore { inner: Self::raw_new() }
    }

    /// Ensures the owner has a ledger, creating an empty private one on
    /// first access, and changes nothing else.
    pub fn get_or_create(&mut self, owner: u64)
        requires
            old(self).wf(),
        ensures
            final(self).wf(),
            final(self).ledgers().dom() == old(self).ledgers().dom().insert(owner),
            old(self).ledgers().dom().contains(owner) ==> final(self).ledgers() == old(self).ledgers(),
            !old(self).ledgers().dom().contains(owner) ==> final(self).ledgers()[owner]@
                == empty_tradelist(),
            forall|o: u64|
                o != owner && old(self).ledgers().dom().contains(o) ==> final(self).ledgers()[o]
                    == old(self).ledgers()[o],
    {
        match self.raw_remove(owner) {
            Some(t) => {
                self.raw_insert(owner, t);
                proof {
                    assert(self.ledgers() =~= old(self).ledgers());
                }
            },
            None => {
                self.raw_insert(owner, crate::tradelist::new());
                proof {
                    assert(self.ledgers().dom() =~= old(self).ledgers().dom().insert(owner));
                }
            },
        }
        proof {
            assert forall|o: u64| self.ledgers().dom().contains(o) implies (
            #[trigger] self.ledgers()[o]).wf() by {
                if o != owner {
                    assert(old(self).ledgers()[o].wf());
                }
            }
        }
    }

    /// A read snapshot of the owner's ledger — a deep copy with the
    /// stored ledger's view — or `None` for an owner who never added a
    /// card.
    pub fn get(&self, owner: u64) -> (r: Option<Tradelist>)
        requires
            self.wf(),
        ensures
            r is Some <==> self.ledgers().dom().contains(owner),
            r matches Some(t) ==> t@ == self.ledgers()[owner]@ && t.wf(),
    {
        let r = self.raw_get(owner);
        proof {
            if self.ledgers().dom().contains(owner) {
                assert(self.ledgers()[owner].wf());
            }
        }
        r
    }

    /// Adds copies to the owner's ledger, creating the ledger on first
    /// use, exactly as `spec_add` states; ledgers of other owners are
    /// untouched.  The only failure is a merge that does not fit in the
    /// counter, which leaves the entries of every ledger unchanged —
    /// though the owner's ledger is still created.
    pub fn add_card(&mut self, owner: u64, count: u64, card: Card) -> (r: Result<
        (),
        LedgerError,
    >)
        requires
            old(self).wf(),
        ensures
            final(self).wf(),
            final(self).ledgers().dom() == old(self).ledgers().dom().insert(owner),
            ({
                let t0 = if old(self).ledgers().dom().contains(owner) {
                    old(self).ledgers()[owner]@
                } else {
                    empty_tradelist()
                };
                &&& (r is Ok <==> !spec_add_overflows(t0, count, card@))
                &&& (r is Ok ==> final(self).ledgers()[owner]@ == spec_add(t0, count, card@))
                &&& (r is Err ==> final(self).ledgers()[owner]@ == t0 && r == Err::<
                    (),
                    LedgerError,
                >(LedgerError::InvalidQuantity))
            }),
            forall|o: u64|
                o != owner && old(self).ledgers().dom().contains(o) ==> final(self).ledgers()[o]
                    == old(self).ledgers()[o],
    {
        proof {
            if old(self).ledgers().dom().contains(owner) {
                assert(old(self).ledgers()[owner].wf());
            }
        }
        let mut t = match self.raw_remove(owner) {
            Some(t) => t,
            None => crate::tradelist::new(),
        };
        let r = t.add_card(count, card);
        self.raw_insert(owner, t);
        proof {
            assert(self.ledgers().dom() =~= old(self).ledgers().dom().insert(owner));
            assert forall|o: u64| self.ledgers().dom().contains(o) implies (
            #[trigger] self.ledgers()[o]).wf() by {
                if o != owner {
                    assert(old(self).ledgers()[o].wf());
                }
            }
        }
        r
    }

    /// Applies one gateway ADD batch for the owner, creating the
    /// ledger on first use: each resolved line in order, unresolved
    /// and overflowing lines skipped, exactly as `spec_apply_adds`
    /// states; ledgers of other owners are untouched.
    pub fn add_cards(&mut self, owner: u64, lines: Vec<(u64, Option<Card>)>)
        requires
            old(self).wf(),
        ensures
            final(self).wf(),
            final(self).ledgers().dom() == old(self).ledgers().dom().insert(owner),
            final(self).ledgers()[owner]@ == spec_apply_adds(
                if old(self).ledgers().dom().contains(owner) {
                    old(self).ledgers()[owner]@
                } else {
                    empty_tradelist()
                },
                lines_view(lines@),
            ),
            forall|o: u64|
                o != owner && old(self).ledgers().dom().contains(o) ==> final(self).ledgers()[o]
                    == old(self).ledgers()[o],
    {
        proof {
            if old(self).ledgers().dom().contains(owner) {
                assert(old(self).ledgers()[owner].wf());
            }
        }
        let mut t = match self.raw_remove(owner) {
            Some(t) => t,
            None => crate::tradelist::new(),
        };
        t.add_cards(lines);
        self.raw_insert(owner, t);
        proof {
            assert(self.ledgers().dom() =~= old(self).ledgers().dom().insert(owner));
            assert forall|o: u64| self.ledgers().dom().contains(o) implies (
            #[trigger] self.ledgers()[o]).wf() by {
                if o != owner {
                    assert(old(self).ledgers()[o].wf());
                }
            }
        }
    }

    /// Removes copies from the owner's ledger, exactly as `spec_remove`
    /// states, and reports how many copies actually left; an owner
    /// without a ledger removes nothing, and no ledger is created.
    pub fn remove_card(&mut self, owner: u64, count: u64, card: Card) -> (removed: u64)
        requires
            old(self).wf(),
        ensures
            final(self).wf(),
            !old(self).ledgers().dom().contains(owner) ==> final(self).ledgers() == old(self).ledgers() && removed == 0,
            old(self).ledgers().dom().contains(owner) ==> final(self).ledgers().dom() == old(self).ledgers().dom() && final(self).ledgers()[owner]@ == spec_remove(
                old(self).ledgers()[owner]@,
                count,
                card@,
            ) && removed as nat == spec_remove_delta(old(self).ledgers()[owner]@, count, card@),
            forall|o: u64|
                o != owner && old(self).ledgers().dom().contains(o) ==> final(self).ledgers()[o]
                    == old(self).ledgers()[o],
    {
        match self.raw_remove(owner) {
            None => {
                proof {
                    assert(self.ledgers() =~= old(self).ledgers());
                }
                0
            },
            Some(mut t) => {
                proof {
                    assert(old(self).ledgers()[owner].wf());
                }
                let removed = t.remove_card(count, card);
                self.raw_insert(owner, t);
                proof {
                    assert(self.ledgers().dom() =~= old(self).ledgers().dom());
                    assert forall|o: u64| self.ledgers().dom().contains(o) implies (
                    #[trigger] self.ledgers()[o]).wf() by {
                        if o != owner {
                            assert(old(self).ledgers()[o].wf());
                        }
                    }
                }
                removed
            },
        }
    }

    /// Whether the owner's ledger holds an identity matching `card`
    /// under the wildcard rule; an owner without a ledger holds
    /// nothing.
    pub fn contains_card(&self, owner: u64, card: Card) -> (r: bool)
        requires
            self.wf(),
        ensures
            r == (self.ledgers().dom().contains(owner) && spec_contains(
                self.ledgers()[owner]@,
                card@,
            )),
    {
        match self.raw_get(owner) {
            None => false,
            Some(t) => {
                proof {
                    assert(self.ledgers()[owner].wf());
                }
                t.contains_card(card)
            },
        }
    }

    /// The owner's listing, or `None` for an owner who never had a
    /// ledger — which callers must present as an empty ledger, not as
    /// an error.
    pub fn render_for(&self, owner: u64) -> (r: Option<Rendered>)
        requires
            self.wf(),
        ensures
            r is Some <==> self.ledgers().dom().contains(owner),
            r matches Some(rr) ==> rr.title@ == "Your Tradelist"@ && rr.banner@ == (
            if self.ledgers()[owner]@.is_public {
                "public"@
            } else {
                "private"@
            }) && rr.body@ == spec_body(self.ledgers()[owner]@.groups),
    {
        match self.raw_get(owner) {
            None => None,
            Some(t) => Some(t.render()),
        }
    }

    /// Sets the visibility flag of the owner's ledger and reports
    /// whether the owner had one; an owner without a ledger gets none —
    /// the gateway tells such an owner to add cards first, as the
    /// chat commands do.
    pub fn set_visibility(&mut self, owner: u64, public: bool) -> (had: bool)
        requires
            old(self).wf(),
        ensures
            final(self).wf(),
            had == old(self).ledgers().dom().contains(owner),
            !had ==> final(self).ledgers() == old(self).ledgers(),
            had ==> final(self).ledgers().dom() == old(self).ledgers().dom() && final(self).ledgers()[owner]@ == spec_set_visibility(old(self).ledgers()[owner]@, public),
            forall|o: u64|
                o != owner && old(self).ledgers().dom().contains(o) ==> final(self).ledgers()[o]
                    == old(self).ledgers()[o],
    {
        match self.raw_remove(owner) {
            None => {
                proof {
                    assert(self.ledgers() =~= old(self).ledgers());
                }
                false
            },
            Some(mut t) => {
                proof {
                    assert(old(self).ledgers()[owner].wf());
                }
                if public {
                    t.set_public();
                } else {
                    t.set_private();
                }
                self.raw_insert(owner, t);
                proof {
                    assert(self.ledgers().dom() =~= old(self).ledgers().dom());
                    assert forall|o: u64| self.ledgers().dom().contains(o) implies (
                    #[trigger] self.ledgers()[o]).wf() by {
                        if o != owner {
                            assert(old(self).ledgers()[o].wf());
                        }
                    }
                }
                true
            },
        }
    }
}

} // verus!

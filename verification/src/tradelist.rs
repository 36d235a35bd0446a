//! The per-owner ledger: quantity entries grouped by card name.

use vstd::prelude::*;

use crate::card::Card;
use crate::card_entry::CardEntry;
use crate::error::LedgerError;
use crate::render::{spec_body, spec_group_lines, Rendered};
use vstd::string::StringExecFns;

use crate::model::{
    empty_tradelist, group_inv, has_entry, has_group, lemma_add_preserves_inv,
    lemma_entry_index_is, lemma_group_index_is, lemma_remove_preserves_inv, line_view, lines_view,
    spec_add, spec_add_overflows, spec_apply_adds, spec_contains, spec_count_of, spec_remove,
    spec_remove_delta, spec_set_visibility, tradelist_inv, GroupView, TradelistView,
};

verus! {

/// All entries a ledger holds under one card name, in insertion order.
#[derive(Clone, Debug)]
pub struct NameGroup {
    pub(crate) name: String,
    pub(crate) entries: Vec<CardEntry>,
}

impl View for NameGroup {
    type V = GroupView;

    closed spec fn view(&self) -> GroupView {
        GroupView { name: self.name@, entries: self.entries@.map_values(|e: CardEntry| e@) }
    }
}

impl NameGroup {
    /// The index of the entry choosing exactly `printing`, scanning in
    /// order; the group invariant makes at most one entry qualify.
    #[verifier::loop_isolation(false)]
    fn find_entry(&self, printing: &String) -> (r: Option<usize>)
        ensures
            match r {
                Some(j) => j < self@.entries.len() && self@.entries[j as int].card.printing
                    == printing@,
                None => !has_entry(self@.entries, printing@),
            },
    {
        let n = self.entries.len();
        let mut j: usize = 0;
        while j < n
            invariant
                j <= n,
                forall|k: int|
                    0 <= k < j ==> (#[trigger] self@.entries[k]).card.printing != printing@,
            decreases n - j,
        {
            if self.entries[j].card.printing == *printing {
                proof {
                    assert(self@.entries[j as int].card.printing == printing@);
                }
                return Some(j);
            }
            j = j + 1;
        }
        None
    }
}

/// A per-owner ledger: its groups in insertion order, and whether other
/// users may see it.
#[derive(Clone, Debug)]
pub struct Tradelist {
    pub(crate) cards: Vec<NameGroup>,
    pub(crate) is_public: bool,
}

impl View for Tradelist {
    type V = TradelistView;

    closed spec fn view(&self) -> TradelistView {
        TradelistView {
            groups: self.cards@.map_values(|g: NameGroup| g@),
            is_public: self.is_public,
        }
    }
}

/// A fresh, empty, private ledger.
pub fn new() -> (t: Tradelist)
    ensures
        t@ == empty_tradelist(),
        t.wf(),
{
    let t = Tradelist { cards: Vec::new(), is_public: false };
    proof {
        assert(t@ =~= empty_tradelist());
    }
    t
}

impl Tradelist {
    /// The ledger's invariant, stated over its view.
    pub open spec fn wf(&self) -> bool {
        tradelist_inv(self@)
    }

    /// Marks the ledger visible to other users; entries are untouched,
    /// and repeating the call changes nothing.
    pub fn set_public(&mut self)
        ensures
            final(self)@ == spec_set_visibility(old(self)@, true),
            old(self).wf() ==> final(self).wf(),
    {
        self.is_public = true;
        proof {
            assert(self@ =~= spec_set_visibility(old(self)@, true));
        }
    }

    /// Marks the ledger hidden from other users; entries are untouched,
    /// and repeating the call changes nothing.
    pub fn set_private(&mut self)
        ensures
            final(self)@ == spec_set_visibility(old(self)@, false),
            old(self).wf() ==> final(self).wf(),
    {
        self.is_public = false;
        proof {
            assert(self@ =~= spec_set_visibility(old(self)@, false));
        }
    }

    /// Whether other users may see the ledger.
    pub fn is_public(&self) -> (r: bool)
        ensures
            r == self@.is_public,
    {
        self.is_public
    }

    /// The index of the group carrying `name`, scanning in insertion
    /// order; the ledger invariant makes at most one group qualify.
    #[verifier::loop_isolation(false)]
    fn find_group(&self, name: &String) -> (r: Option<usize>)
        ensures
            match r {
                Some(i) => i < self@.groups.len() && self@.groups[i as int].name == name@,
                None => !has_group(self@.groups, name@),
            },
    {
        let n = self.cards.len();
        let mut i: usize = 0;
        while i < n
            invariant
                i <= n,
                forall|k: int| 0 <= k < i ==> (#[trigger] self@.groups[k]).name != name@,
            decreases n - i,
        {
            if self.cards[i].name == *name {
                proof {
                    assert(self@.groups[i as int].name == name@);
                }
                return Some(i);
            }
            i = i + 1;
        }
        None
    }

    /// Starts a new group at the end of the ledger, holding `entry`
    /// alone.
    fn add_new_entry(&mut self, entry: CardEntry)
        ensures
            final(self)@.groups == old(self)@.groups.push(
                (GroupView { name: entry@.card.name(), entries: seq![entry@] }),
            ),
            final(self)@.is_public == old(self)@.is_public,
    {
        let name = entry.card.get_name();
        let mut entries: Vec<CardEntry> = Vec::new();
        entries.push(entry);
        self.cards.push(NameGroup { name, entries });
        proof {
            assert(self@.groups =~~= old(self)@.groups.push(
                (GroupView { name: entry@.card.name(), entries: seq![entry@] }),
            ));
        }
    }

    /// Adds `count` copies of `card`, exactly as `spec_add` states: a
    /// zero count is a no-op, an unknown name starts a new group, an
    /// entry with exactly the same chosen printing absorbs the count,
    /// and any other printing gets its own entry.  The only failure is
    /// a merge that does not fit in the counter, which changes nothing.
    pub fn add_card(&mut self, count: u64, card: Card) -> (r: Result<(), LedgerError>)
        requires
            old(self).wf(),
        ensures
            final(self).wf(),
            r is Ok <==> !spec_add_overflows(old(self)@, count, card@),
            r is Ok ==> final(self)@ == spec_add(old(self)@, count, card@),
            r is Err ==> final(self)@ == old(self)@ && r == Err::<(), LedgerError>(
                LedgerError::InvalidQuantity,
            ),
    {
        if count == 0 {
            return Ok(());
        }
        let name = card.get_name();
        match self.find_group(&name) {
            None => {
                self.add_new_entry(crate::card_entry::new(count, card));
                proof {
                    assert(self@ =~~= spec_add(old(self)@, count, card@));
                    lemma_add_preserves_inv(old(self)@, count, card@);
                }
                Ok(())
            },
            Some(gi) => {
                proof {
                    lemma_group_index_is(old(self)@.groups, card@.name(), gi as int);
                    assert(group_inv(old(self)@.groups[gi as int]));
                }
                let ghost t0 = old(self)@;
                let ghost gv0 = old(self)@.groups[gi as int];
                let mut g = self.cards.remove(gi);
                proof {
                    old(self).cards@.remove_ensures(gi as int);
                    assert(g@ == gv0);
                }
                match g.find_entry(&card.printing) {
                    None => {
                        let entry = crate::card_entry::new(count, card);
                        g.entries.push(entry);
                        proof {
                            assert(g@.entries =~= gv0.entries.push(entry@));
                        }
                        self.cards.insert(gi, g);
                        proof {
                            let mid = old(self).cards@.remove(gi as int);
                            mid.insert_ensures(gi as int, g);
                            assert(self@.groups =~= t0.groups.update(gi as int, g@));
                            assert(self@ =~~= spec_add(t0, count, card@));
                            lemma_add_preserves_inv(t0, count, card@);
                        }
                        Ok(())
                    },
                    Some(j) => {
                        proof {
                            lemma_entry_index_is(gv0.entries, card@.printing, j as int);
                        }
                        if count > u64::MAX - g.entries[j].count {
                            self.cards.insert(gi, g);
                            proof {
                                let mid = old(self).cards@.remove(gi as int);
                                mid.insert_ensures(gi as int, g);
                                assert(self@ =~= t0);
                                assert(spec_add_overflows(t0, count, card@));
                            }
                            Err(LedgerError::InvalidQuantity)
                        } else {
                            let mut e = g.entries.remove(j);
                            proof {
                                gv0.entries.remove_ensures(j as int);
                                assert(e@ == gv0.entries[j as int]);
                            }
                            let _inc = e.inc_count(count);
                            proof {
                                assert(_inc is Ok);
                            }
                            g.entries.insert(j, e);
                            proof {
                                let emid = gv0.entries.remove(j as int);
                                emid.insert_ensures(j as int, e@);
                                assert(g@.entries =~= gv0.entries.update(j as int, e@));
                            }
                            self.cards.insert(gi, g);
                            proof {
                                let mid = old(self).cards@.remove(gi as int);
                                mid.insert_ensures(gi as int, g);
                                assert(self@.groups =~= t0.groups.update(gi as int, g@));
                                assert(self@ =~~= spec_add(t0, count, card@));
                                lemma_add_preserves_inv(t0, count, card@);
                            }
                            Ok(())
                        }
                    },
                }
            },
        }
    }

    /// Removes up to `count` copies of `card`, exactly as `spec_remove`
    /// states, and reports how many copies actually left the ledger.
    /// A zero count, an unknown name, or an unknown printing removes
    /// nothing; an entry drained to zero leaves its group, and a group
    /// drained of its last entry leaves the ledger.
    pub fn remove_card(&mut self, count: u64, card: Card) -> (removed: u64)
        requires
            old(self).wf(),
        ensures
            final(self).wf(),
            final(self)@ == spec_remove(old(self)@, count, card@),
            removed as nat == spec_remove_delta(old(self)@, count, card@),
    {
        if count == 0 {
            return 0;
        }
        let name = card.get_name();
        match self.find_group(&name) {
            None => 0,
            Some(gi) => {
                proof {
                    lemma_group_index_is(old(self)@.groups, card@.name(), gi as int);
                    assert(group_inv(old(self)@.groups[gi as int]));
                }
                let ghost t0 = old(self)@;
                let ghost gv0 = old(self)@.groups[gi as int];
                let mut g = self.cards.remove(gi);
                proof {
                    old(self).cards@.remove_ensures(gi as int);
                    assert(g@ == gv0);
                }
                match g.find_entry(&card.printing) {
                    None => {
                        self.cards.insert(gi, g);
                        proof {
                            let mid = old(self).cards@.remove(gi as int);
                            mid.insert_ensures(gi as int, g);
                            assert(self@ =~= t0);
                        }
                        0
                    },
                    Some(j) => {
                        proof {
                            lemma_entry_index_is(gv0.entries, card@.printing, j as int);
                            lemma_remove_preserves_inv(t0, count, card@);
                        }
                        let mut e = g.entries.remove(j);
                        proof {
                            gv0.entries.remove_ensures(j as int);
                            assert(e@ == gv0.entries[j as int]);
                        }
                        let removed = e.dec_count(count);
                        if e.count > 0 {
                            g.entries.insert(j, e);
                            proof {
                                let emid = gv0.entries.remove(j as int);
                                emid.insert_ensures(j as int, e@);
                                assert(g@.entries =~= gv0.entries.update(j as int, e@));
                            }
                            self.cards.insert(gi, g);
                            proof {
                                let mid = old(self).cards@.remove(gi as int);
                                mid.insert_ensures(gi as int, g);
                                assert(self@.groups =~= t0.groups.update(gi as int, g@));
                                assert(self@ =~~= spec_remove(t0, count, card@));
                            }
                            removed
                        } else if g.entries.len() > 0 {
                            proof {
                                assert(g@.entries =~= gv0.entries.remove(j as int));
                            }
                            self.cards.insert(gi, g);
                            proof {
                                let mid = old(self).cards@.remove(gi as int);
                                mid.insert_ensures(gi as int, g);
                                assert(self@.groups =~= t0.groups.update(gi as int, g@));
                                assert(self@ =~~= spec_remove(t0, count, card@));
                            }
                            removed
                        } else {
                            proof {
                                t0.groups.remove_ensures(gi as int);
                                assert(self@.groups =~= t0.groups.remove(gi as int));
                                assert(self@ =~~= spec_remove(t0, count, card@));
                            }
                            removed
                        }
                    },
                }
            },
        }
    }

    /// Whether the ledger holds an entry whose identity matches `card`
    /// under the wildcard rule, whatever its count.
    #[verifier::loop_isolation(false)]
    pub fn contains_card(&self, card: Card) -> (r: bool)
        requires
            self.wf(),
        ensures
            r == spec_contains(self@, card@),
    {
        let name = card.get_name();
        match self.find_group(&name) {
            None => {
                proof {
                    assert forall|i: int, j: int|
                        0 <= i < self@.groups.len() && 0 <= j < (
                        #[trigger] self@.groups[i]).entries.len() implies !crate::card::spec_matches(
                        (#[trigger] self@.groups[i].entries[j]).card,
                        card@,
                    ) by {
                        assert(group_inv(self@.groups[i]));
                        if self@.groups[i].entries[j].card.name() == card@.name() {
                            assert(self@.groups[i].name == card@.name());
                            assert(has_group(self@.groups, card@.name()));
                        }
                    }
                }
                false
            },
            Some(gi) => {
                let g = &self.cards[gi];
                proof {
                    assert(g@ == self@.groups[gi as int]);
                }
                let n = g.entries.len();
                let mut j: usize = 0;
                while j < n
                    invariant
                        j <= n,
                        forall|k: int|
                            0 <= k < j ==> !crate::card::spec_matches(
                                (#[trigger] g@.entries[k]).card,
                                card@,
                            ),
                    decreases n - j,
                {
                    if g.entries[j].card.matches(&card) {
                        proof {
                            assert(crate::card::spec_matches(
                                self@.groups[gi as int].entries[j as int].card,
                                card@,
                            ));
                        }
                        return true;
                    }
                    j = j + 1;
                }
                proof {
                    assert forall|i: int, jj: int|
                        0 <= i < self@.groups.len() && 0 <= jj < (
                        #[trigger] self@.groups[i]).entries.len() implies !crate::card::spec_matches(
                        (#[trigger] self@.groups[i].entries[jj]).card,
                        card@,
                    ) by {
                        assert(group_inv(self@.groups[i]));
                        if i == gi as int {
                            assert(!crate::card::spec_matches(g@.entries[jj].card, card@));
                        } else {
                            if self@.groups[i].entries[jj].card.name() == card@.name() {
                                assert(self@.groups[i].name == card@.name());
                                assert(self@.groups[gi as int].name == card@.name());
                                if i < gi as int {
                                    assert(self@.groups[i].name != self@.groups[gi as int].name);
                                } else {
                                    assert(self@.groups[gi as int].name != self@.groups[i].name);
                                }
                            }
                        }
                    }
                }
                false
            },
        }
    }

    /// How many copies of exactly this reference — same name, same
    /// chosen printing — the ledger holds.
    pub fn count_of(&self, card: &Card) -> (r: u64)
        requires
            self.wf(),
        ensures
            r as nat == spec_count_of(self@, card@),
    {
        let name = card.get_name();
        match self.find_group(&name) {
            None => 0,
            Some(gi) => {
                proof {
                    lemma_group_index_is(self@.groups, card@.name(), gi as int);
                    assert(group_inv(self@.groups[gi as int]));
                }
                let g = &self.cards[gi];
                proof {
                    assert(g@ == self@.groups[gi as int]);
                }
                match g.find_entry(&card.printing) {
                    None => 0,
                    Some(j) => {
                        proof {
                            lemma_entry_index_is(g@.entries, card@.printing, j as int);
                        }
                        g.entries[j].count
                    },
                }
            },
        }
    }

    /// Applies one gateway ADD batch, line by line in order, exactly as
    /// `spec_apply_adds` states: a line the catalog could not resolve
    /// carries no card and is skipped, a merge that does not fit in the
    /// counter is skipped, and no line ever aborts the batch.
    #[verifier::loop_isolation(false)]
    pub fn add_cards(&mut self, lines: Vec<(u64, Option<Card>)>)
        requires
            old(self).wf(),
        ensures
            final(self).wf(),
            final(self)@ == spec_apply_adds(old(self)@, lines_view(lines@)),
    {
        let ghost t0 = old(self)@;
        let ghost lv = lines_view(lines@);
        let n = lines.len();
        let mut k: usize = 0;
        while k < n
            invariant
                k <= n,
                self.wf(),
                self@ == spec_apply_adds(t0, lv.subrange(0, k as int)),
            decreases n - k,
        {
            let count = lines[k].0;
            let card = match &lines[k].1 {
                Some(c) => Some(c.duplicate()),
                None => None,
            };
            proof {
                assert(lv[k as int] == line_view(lines@[k as int]));
            }
            match card {
                Some(c) => {
                    let _r = self.add_card(count, c);
                },
                None => {},
            }
            proof {
                let pre = lv.subrange(0, k as int + 1);
                assert(pre.drop_last() =~= lv.subrange(0, k as int));
                assert(pre.last() == lv[k as int]);
            }
            k = k + 1;
        }
        proof {
            assert(lv.subrange(0, n as int) =~= lv);
        }
    }

    /// A deep copy with the same view: the snapshot the store hands out
    /// as a read handle.
    #[verifier::loop_isolation(false)]
    pub fn duplicate(&self) -> (r: Tradelist)
        ensures
            r@ == self@,
    {
        let mut cards: Vec<NameGroup> = Vec::new();
        let n = self.cards.len();
        let mut i: usize = 0;
        while i < n
            invariant
                i <= n,
                cards@.map_values(|g: NameGroup| g@) == self@.groups.subrange(0, i as int),
            decreases n - i,
        {
            cards.push(self.cards[i].duplicate());
            proof {
                assert(cards@.map_values(|g: NameGroup| g@) =~= self@.groups.subrange(
                    0,
                    i as int + 1,
                ));
            }
            i = i + 1;
        }
        let r = Tradelist { cards, is_public: self.is_public };
        proof {
            assert(self@.groups.subrange(0, n as int) =~= self@.groups);
            assert(r@ =~= self@);
        }
        r
    }

    /// Renders the listing body: one line per entry, entries in
    /// insertion order within their group, groups in insertion order.
    #[verifier::loop_isolation(false)]
    pub fn to_string(&self) -> (r: String)
        ensures
            r@ == spec_body(self@.groups),
    {
        let mut out = String::new();
        let n = self.cards.len();
        let mut i: usize = 0;
        while i < n
            invariant
                i <= n,
                out@ == spec_body(self@.groups.subrange(0, i as int)),
            decreases n - i,
        {
            let g = &self.cards[i];
            proof {
                assert(g@ == self@.groups[i as int]);
            }
            let m = g.entries.len();
            let mut j: usize = 0;
            while j < m
                invariant
                    j <= m,
                    out@ == spec_body(self@.groups.subrange(0, i as int)) + spec_group_lines(
                        g@.entries.subrange(0, j as int),
                    ),
                decreases m - j,
            {
                let line = g.entries[j].to_string();
                out.append(line.as_str());
                out.append("\n");
                proof {
                    let pre = g@.entries.subrange(0, j as int + 1);
                    assert(pre.drop_last() =~= g@.entries.subrange(0, j as int));
                    assert(pre.last() == g@.entries[j as int]);
                    assert(out@ =~= spec_body(self@.groups.subrange(0, i as int))
                        + spec_group_lines(pre));
                }
                j = j + 1;
            }
            proof {
                assert(g@.entries.subrange(0, m as int) =~= g@.entries);
                let pre = self@.groups.subrange(0, i as int + 1);
                assert(pre.drop_last() =~= self@.groups.subrange(0, i as int));
                assert(pre.last() == self@.groups[i as int]);
                assert(out@ =~= spec_body(pre));
            }
            i = i + 1;
        }
        proof {
            assert(self@.groups.subrange(0, n as int) =~= self@.groups);
        }
        out
    }

    /// The structured listing: a fixed title, the visibility banner,
    /// and the body that `to_string` renders.  Reading never changes
    /// the ledger.
    pub fn render(&self) -> (r: Rendered)
        ensures
            r.title@ == "Your Tradelist"@,
            r.banner@ == (if self@.is_public {
                "public"@
            } else {
                "private"@
            }),
            r.body@ == spec_body(self@.groups),
    {
        let title = "Your Tradelist".to_owned();
        let banner = if self.is_public {
            "public".to_owned()
        } else {
            "private".to_owned()
        };
        let body = self.to_string();
        Rendered { title, banner, body }
    }
}

impl NameGroup {
    /// A deep copy with the same view.
    #[verifier::loop_isolation(false)]
    fn duplicate(&self) -> (r: NameGroup)
        ensures
            r@ == self@,
    {
        let mut entries: Vec<CardEntry> = Vec::new();
        let n = self.entries.len();
        let mut i: usize = 0;
        while i < n
            invariant
                i <= n,
                entries@.map_values(|e: CardEntry| e@) == self@.entries.subrange(0, i as int),
            decreases n - i,
        {
            entries.push(self.entries[i].duplicate());
            proof {
                assert(entries@.map_values(|e: CardEntry| e@) =~= self@.entries.subrange(
                    0,
                    i as int + 1,
                ));
            }
            i = i + 1;
        }
        let r = NameGroup { name: self.name.clone(), entries };
        proof {
            assert(self@.entries.subrange(0, n as int) =~= self@.entries);
            assert(r@ =~= self@);
        }
        r
    }
}

} // verus!

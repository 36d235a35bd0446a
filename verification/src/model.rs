//! The mathematical model of a ledger: what each operation yields.
//!
//! A ledger is a sequence of groups, one per card name in insertion
//! order; a group is a sequence of entries, one per chosen printing in
//! insertion order.  The executable `Tradelist` promises in its
//! contracts to behave exactly as the functions here state.

use vstd::prelude::*;

use crate::card::{Card, CardView};
use crate::card_entry::{spec_dec_count, CardEntryView};

verus! {

/// All entries a ledger holds under one card name, in insertion order.
#[verifier::ext_equal]
pub struct GroupView {
    pub name: Seq<char>,
    pub entries: Seq<CardEntryView>,
}

/// A whole ledger: its groups in insertion order and its visibility
/// flag.
#[verifier::ext_equal]
pub struct TradelistView {
    pub groups: Seq<GroupView>,
    pub is_public: bool,
}

/// The ledger with nothing in it, as first created: no groups, private.
pub open spec fn empty_tradelist() -> TradelistView {
    TradelistView { groups: Seq::empty(), is_public: false }
}

/// Whether some group carries `name`.
pub open spec fn has_group(groups: Seq<GroupView>, name: Seq<char>) -> bool {
    exists|i: int| 0 <= i < groups.len() && (#[trigger] groups[i]).name == name
}

/// The index of the group carrying `name`; with distinct group names it
/// is the only one (see `lemma_group_index_is`).
pub open spec fn group_index(groups: Seq<GroupView>, name: Seq<char>) -> int {
    choose|i: int| 0 <= i < groups.len() && (#[trigger] groups[i]).name == name
}

/// Whether some entry chooses exactly `printing`.
pub open spec fn has_entry(entries: Seq<CardEntryView>, printing: Seq<char>) -> bool {
    exists|j: int| 0 <= j < entries.len() && (#[trigger] entries[j]).card.printing == printing
}

/// The index of the entry choosing exactly `printing`; with distinct
/// printings it is the only one (see `lemma_entry_index_is`).
pub open spec fn entry_index(entries: Seq<CardEntryView>, printing: Seq<char>) -> int {
    choose|j: int| 0 <= j < entries.len() && (#[trigger] entries[j]).card.printing == printing
}

/// Well-formedness of one group: it is nonempty, every entry carries
/// the group's name and a positive count, and no two entries choose the
/// same printing.
pub open spec fn group_inv(g: GroupView) -> bool {
    &&& g.entries.len() > 0
    &&& forall|j: int|
        0 <= j < g.entries.len() ==> (#[trigger] g.entries[j]).card.name() == g.name
    &&& forall|j: int| 0 <= j < g.entries.len() ==> (#[trigger] g.entries[j]).count > 0
    &&& forall|j: int, k: int|
        0 <= j < k < g.entries.len() ==> (#[trigger] g.entries[j]).card.printing
            != (#[trigger] g.entries[k]).card.printing
}

/// Well-formedness of a ledger: each group is well formed and no two
/// groups share a name.
pub open spec fn tradelist_inv(t: TradelistView) -> bool {
    &&& forall|i: int| 0 <= i < t.groups.len() ==> group_inv(#[trigger] t.groups[i])
    &&& forall|i: int, k: int|
        0 <= i < k < t.groups.len() ==> (#[trigger] t.groups[i]).name != (
        #[trigger] t.groups[k]).name
}

/// What adding `count` copies of `card` yields: a no-op for a zero
/// count; a fresh singleton group for an unknown name; under a known
/// name, a merge into the entry with exactly the same chosen printing
/// if there is one, and a fresh entry at the end of the group
/// otherwise.
pub open spec fn spec_add(t: TradelistView, count: u64, card: CardView) -> TradelistView {
    if count == 0 {
        t
    } else if !has_group(t.groups, card.name()) {
        TradelistView {
            groups: t.groups.push(
                GroupView {
                    name: card.name(),
                    entries: seq![CardEntryView { count: count as nat, card }],
                },
            ),
            ..t
        }
    } else {
        let i = group_index(t.groups, card.name());
        let g = t.groups[i];
        if !has_entry(g.entries, card.printing) {
            TradelistView {
                groups: t.groups.update(
                    i,
                    GroupView {
                        entries: g.entries.push(
                            CardEntryView { count: count as nat, card },
                        ),
                        ..g
                    },
                ),
                ..t
            }
        } else {
            let j = entry_index(g.entries, card.printing);
            let e = g.entries[j];
            TradelistView {
                groups: t.groups.update(
                    i,
                    GroupView {
                        entries: g.entries.update(
                            j,
                            CardEntryView { count: (e.count + count) as nat, card: e.card },
                        ),
                        ..g
                    },
                ),
                ..t
            }
        }
    }
}

/// Whether merging `count` copies of `card` would not fit in the
/// matching entry's counter.
pub open spec fn spec_add_overflows(t: TradelistView, count: u64, card: CardView) -> bool {
    &&& count > 0
    &&& has_group(t.groups, card.name())
    &&& {
        let g = t.groups[group_index(t.groups, card.name())];
        &&& has_entry(g.entries, card.printing)
        &&& g.entries[entry_index(g.entries, card.printing)].count + count > u64::MAX
    }
}

/// How many copies removing `count` of `card` actually takes out: zero
/// when there is nothing to take from, the requested count when the
/// matching entry holds enough, and everything the entry holds
/// otherwise.
pub open spec fn spec_remove_delta(t: TradelistView, count: u64, card: CardView) -> nat {
    if count == 0 || !has_group(t.groups, card.name()) {
        0
    } else {
        let g = t.groups[group_index(t.groups, card.name())];
        if !has_entry(g.entries, card.printing) {
            0
        } else {
            let e = g.entries[entry_index(g.entries, card.printing)];
            if count <= e.count {
                count as nat
            } else {
                e.count
            }
        }
    }
}

/// What removing `count` copies of `card` yields: a no-op when there is
/// no exactly matching entry; otherwise the matching entry's count
/// drops, clamped at zero; an entry drained to zero leaves its group,
/// and a group drained of its last entry leaves the ledger.
pub open spec fn spec_remove(t: TradelistView, count: u64, card: CardView) -> TradelistView {
    if count == 0 || !has_group(t.groups, card.name()) {
        t
    } else {
        let i = group_index(t.groups, card.name());
        let g = t.groups[i];
        if !has_entry(g.entries, card.printing) {
            t
        } else {
            let j = entry_index(g.entries, card.printing);
            let e = g.entries[j];
            let c2 = spec_dec_count(e.count, count as nat);
            if c2 > 0 {
                TradelistView {
                    groups: t.groups.update(
                        i,
                        GroupView {
                            entries: g.entries.update(
                                j,
                                CardEntryView { count: c2, card: e.card },
                            ),
                            ..g
                        },
                    ),
                    ..t
                }
            } else if g.entries.len() > 1 {
                TradelistView {
                    groups: t.groups.update(i, GroupView { entries: g.entries.remove(j), ..g }),
                    ..t
                }
            } else {
                TradelistView { groups: t.groups.remove(i), ..t }
            }
        }
    }
}

/// Whether the ledger holds an entry whose identity matches `card`
/// under the wildcard rule, whatever its count.
pub open spec fn spec_contains(t: TradelistView, card: CardView) -> bool {
    exists|i: int, j: int|
        0 <= i < t.groups.len() && 0 <= j < (#[trigger] t.groups[i]).entries.len()
            && crate::card::spec_matches((#[trigger] t.groups[i].entries[j]).card, card)
}

/// How many copies of exactly this reference — same name, same chosen
/// printing — the ledger holds.
pub open spec fn spec_count_of(t: TradelistView, card: CardView) -> nat {
    if has_group(t.groups, card.name()) {
        let g = t.groups[group_index(t.groups, card.name())];
        if has_entry(g.entries, card.printing) {
            g.entries[entry_index(g.entries, card.printing)].count
        } else {
            0
        }
    } else {
        0
    }
}

/// What a visibility change yields: only the flag moves.
pub open spec fn spec_set_visibility(t: TradelistView, public: bool) -> TradelistView {
    TradelistView { is_public: public, ..t }
}

/// With distinct group names, any index carrying `name` is the one
/// `group_index` picks.
pub proof fn lemma_group_index_is(groups: Seq<GroupView>, name: Seq<char>, i: int)
    requires
        forall|a: int, b: int|
            0 <= a < b < groups.len() ==> (#[trigger] groups[a]).name != (
            #[trigger] groups[b]).name,
        0 <= i < groups.len(),
        groups[i].name == name,
    ensures
        has_group(groups, name),
        group_index(groups, name) == i,
{
    assert(has_group(groups, name));
    let i0 = group_index(groups, name);
    assert(0 <= i0 < groups.len() && groups[i0].name == name);
    if i0 < i {
        assert(groups[i0].name != groups[i].name);
    } else if i < i0 {
        assert(groups[i].name != groups[i0].name);
    }
}

/// Replacing one group with a well-formed group of the same name
/// preserves the ledger invariant.
pub proof fn lemma_update_group_preserves_inv(t: TradelistView, i: int, g2: GroupView)
    requires
        tradelist_inv(t),
        0 <= i < t.groups.len(),
        g2.name == t.groups[i].name,
        group_inv(g2),
    ensures
        tradelist_inv((TradelistView { groups: t.groups.update(i, g2), ..t })),
{
    let t2 = TradelistView { groups: t.groups.update(i, g2), ..t };
    assert forall|x: int| 0 <= x < t2.groups.len() implies group_inv(#[trigger] t2.groups[x]) by {
        if x != i {
            assert(t2.groups[x] == t.groups[x]);
        }
    }
    assert forall|a: int, b: int| 0 <= a < b < t2.groups.len() implies (
    #[trigger] t2.groups[a]).name != (#[trigger] t2.groups[b]).name by {
        assert(t2.groups[a].name == t.groups[a].name);
        assert(t2.groups[b].name == t.groups[b].name);
    }
}

/// Dropping one group preserves the ledger invariant.
pub proof fn lemma_remove_group_preserves_inv(t: TradelistView, i: int)
    requires
        tradelist_inv(t),
        0 <= i < t.groups.len(),
    ensures
        tradelist_inv((TradelistView { groups: t.groups.remove(i), ..t })),
{
    let t2 = TradelistView { groups: t.groups.remove(i), ..t };
    t.groups.remove_ensures(i);
    assert forall|x: int| 0 <= x < t2.groups.len() implies group_inv(#[trigger] t2.groups[x]) by {
        if x < i {
            assert(t2.groups[x] == t.groups[x]);
        } else {
            assert(t2.groups[x] == t.groups[x + 1]);
        }
    }
    assert forall|a: int, b: int| 0 <= a < b < t2.groups.len() implies (
    #[trigger] t2.groups[a]).name != (#[trigger] t2.groups[b]).name by {
        let a0: int = if a < i {
            a
        } else {
            a + 1
        };
        let b0: int = if b < i {
            b
        } else {
            b + 1
        };
        assert(t2.groups[a] == t.groups[a0]);
        assert(t2.groups[b] == t.groups[b0]);
        assert(t.groups[a0].name != t.groups[b0].name);
    }
}

/// `spec_add` preserves the ledger invariant.
pub proof fn lemma_add_preserves_inv(t: TradelistView, count: u64, card: CardView)
    requires
        tradelist_inv(t),
    ensures
        tradelist_inv(spec_add(t, count, card)),
{
    let t2 = spec_add(t, count, card);
    if count == 0 {
    } else if !has_group(t.groups, card.name()) {
        assert forall|x: int| 0 <= x < t2.groups.len() implies group_inv(
            #[trigger] t2.groups[x],
        ) by {
            if x < t.groups.len() {
                assert(t2.groups[x] == t.groups[x]);
            } else {
                let g = t2.groups[x];
                assert(g.entries.len() == 1);
                assert(g.entries[0].card == card);
                assert(g.entries[0].count == count as nat);
            }
        }
        assert forall|a: int, b: int| 0 <= a < b < t2.groups.len() implies (
        #[trigger] t2.groups[a]).name != (#[trigger] t2.groups[b]).name by {
            if b < t.groups.len() {
                assert(t2.groups[a] == t.groups[a]);
                assert(t2.groups[b] == t.groups[b]);
            } else {
                assert(t2.groups[a] == t.groups[a]);
                assert(t2.groups[b].name == card.name());
                if t.groups[a].name == card.name() {
                    assert(has_group(t.groups, card.name()));
                }
            }
        }
    } else {
        let i = group_index(t.groups, card.name());
        assert(0 <= i < t.groups.len() && t.groups[i].name == card.name());
        let g = t.groups[i];
        assert(group_inv(g));
        if !has_entry(g.entries, card.printing) {
            let e2 = CardEntryView { count: count as nat, card };
            let g2 = GroupView { entries: g.entries.push(e2), ..g };
            assert(t2 == (TradelistView { groups: t.groups.update(i, g2), ..t }));
            assert forall|j: int| 0 <= j < g2.entries.len() implies (
            #[trigger] g2.entries[j]).card.name() == g2.name && g2.entries[j].count > 0 by {
                if j < g.entries.len() {
                    assert(g2.entries[j] == g.entries[j]);
                } else {
                    assert(g2.entries[j] == e2);
                }
            }
            assert forall|j: int, k: int| 0 <= j < k < g2.entries.len() implies (
            #[trigger] g2.entries[j]).card.printing != (#[trigger] g2.entries[k]).card.printing by {
                if k < g.entries.len() {
                    assert(g2.entries[j] == g.entries[j]);
                    assert(g2.entries[k] == g.entries[k]);
                } else {
                    assert(g2.entries[j] == g.entries[j]);
                    assert(g2.entries[k] == e2);
                    if g.entries[j].card.printing == card.printing {
                        assert(has_entry(g.entries, card.printing));
                    }
                }
            }
            assert(group_inv(g2));
            lemma_update_group_preserves_inv(t, i, g2);
        } else {
            let j = entry_index(g.entries, card.printing);
            assert(0 <= j < g.entries.len() && g.entries[j].card.printing == card.printing);
            let e = g.entries[j];
            let e2 = CardEntryView { count: (e.count + count) as nat, card: e.card };
            let g2 = GroupView { entries: g.entries.update(j, e2), ..g };
            assert(t2 == (TradelistView { groups: t.groups.update(i, g2), ..t }));
            assert forall|x: int| 0 <= x < g2.entries.len() implies (
            #[trigger] g2.entries[x]).card.name() == g2.name && g2.entries[x].count > 0 by {
                if x != j {
                    assert(g2.entries[x] == g.entries[x]);
                } else {
                    assert(g2.entries[x] == e2);
                    assert(e.count > 0);
                }
            }
            assert forall|x: int, k: int| 0 <= x < k < g2.entries.len() implies (
            #[trigger] g2.entries[x]).card.printing != (#[trigger] g2.entries[k]).card.printing by {
                assert(g2.entries[x].card.printing == g.entries[x].card.printing);
                assert(g2.entries[k].card.printing == g.entries[k].card.printing);
            }
            assert(group_inv(g2));
            lemma_update_group_preserves_inv(t, i, g2);
        }
    }
}

/// `spec_remove` preserves the ledger invariant.
pub proof fn lemma_remove_preserves_inv(t: TradelistView, count: u64, card: CardView)
    requires
        tradelist_inv(t),
    ensures
        tradelist_inv(spec_remove(t, count, card)),
{
    let t2 = spec_remove(t, count, card);
    if count == 0 || !has_group(t.groups, card.name()) {
    } else {
        let i = group_index(t.groups, card.name());
        assert(0 <= i < t.groups.len() && t.groups[i].name == card.name());
        let g = t.groups[i];
        assert(group_inv(g));
        if !has_entry(g.entries, card.printing) {
        } else {
            let j = entry_index(g.entries, card.printing);
            assert(0 <= j < g.entries.len() && g.entries[j].card.printing == card.printing);
            let e = g.entries[j];
            let c2 = spec_dec_count(e.count, count as nat);
            if c2 > 0 {
                let e2 = CardEntryView { count: c2, card: e.card };
                let g2 = GroupView { entries: g.entries.update(j, e2), ..g };
                assert forall|x: int| 0 <= x < g2.entries.len() implies (
                #[trigger] g2.entries[x]).card.name() == g2.name && g2.entries[x].count > 0 by {
                    if x != j {
                        assert(g2.entries[x] == g.entries[x]);
                    } else {
                        assert(g2.entries[x] == e2);
                    }
                }
                assert forall|x: int, k: int| 0 <= x < k < g2.entries.len() implies (
                #[trigger] g2.entries[x]).card.printing != (
                #[trigger] g2.entries[k]).card.printing by {
                    assert(g2.entries[x].card.printing == g.entries[x].card.printing);
                    assert(g2.entries[k].card.printing == g.entries[k].card.printing);
                }
                assert(group_inv(g2));
                lemma_update_group_preserves_inv(t, i, g2);
            } else if g.entries.len() > 1 {
                let g2 = GroupView { entries: g.entries.remove(j), ..g };
                g.entries.remove_ensures(j);
                assert forall|x: int| 0 <= x < g2.entries.len() implies (
                #[trigger] g2.entries[x]).card.name() == g2.name && g2.entries[x].count > 0 by {
                    if x < j {
                        assert(g2.entries[x] == g.entries[x]);
                    } else {
                        assert(g2.entries[x] == g.entries[x + 1]);
                    }
                }
                assert forall|x: int, k: int| 0 <= x < k < g2.entries.len() implies (
                #[trigger] g2.entries[x]).card.printing != (
                #[trigger] g2.entries[k]).card.printing by {
                    let x0: int = if x < j {
                        x
                    } else {
                        x + 1
                    };
                    let k0: int = if k < j {
                        k
                    } else {
                        k + 1
                    };
                    assert(g2.entries[x] == g.entries[x0]);
                    assert(g2.entries[k] == g.entries[k0]);
                    assert(g.entries[x0].card.printing != g.entries[k0].card.printing);
                }
                assert(group_inv(g2));
                lemma_update_group_preserves_inv(t, i, g2);
            } else {
                lemma_remove_group_preserves_inv(t, i);
            }
        }
    }
}

/// Adding raises the added identity's own count by exactly the added
/// amount.
pub proof fn lemma_add_count_of_same(t: TradelistView, count: u64, card: CardView)
    requires
        tradelist_inv(t),
    ensures
        spec_count_of(spec_add(t, count, card), card) == spec_count_of(t, card) + count,
{
    let t2 = spec_add(t, count, card);
    lemma_add_preserves_inv(t, count, card);
    if count == 0 {
    } else if !has_group(t.groups, card.name()) {
        let l = t.groups.len() as int;
        lemma_group_index_is(t2.groups, card.name(), l);
        assert(group_inv(t2.groups[l]));
        lemma_entry_index_is(t2.groups[l].entries, card.printing, 0);
        assert(spec_count_of(t2, card) == count);
        assert(spec_count_of(t, card) == 0);
    } else {
        let i = group_index(t.groups, card.name());
        assert(0 <= i < t.groups.len() && t.groups[i].name == card.name());
        assert(group_inv(t.groups[i]));
        let g = t.groups[i];
        lemma_group_index_is(t2.groups, card.name(), i);
        assert(group_inv(t2.groups[i]));
        if !has_entry(g.entries, card.printing) {
            let l = g.entries.len() as int;
            assert(t2.groups[i].entries[l].card == card);
            lemma_entry_index_is(t2.groups[i].entries, card.printing, l);
            assert(spec_count_of(t2, card) == count);
            assert(spec_count_of(t, card) == 0);
        } else {
            let j = entry_index(g.entries, card.printing);
            assert(0 <= j < g.entries.len() && g.entries[j].card.printing == card.printing);
            lemma_entry_index_is(t2.groups[i].entries, card.printing, j);
            assert(spec_count_of(t2, card) == g.entries[j].count + count);
            assert(spec_count_of(t, card) == g.entries[j].count);
        }
    }
}

/// Adding one identity leaves the count of every other identity — a
/// different name, or a different chosen printing — unchanged.
pub proof fn lemma_add_count_of_other(t: TradelistView, count: u64, card: CardView, c2: CardView)
    requires
        tradelist_inv(t),
        c2.name() != card.name() || c2.printing != card.printing,
    ensures
        spec_count_of(spec_add(t, count, card), c2) == spec_count_of(t, c2),
{
    let t2 = spec_add(t, count, card);
    lemma_add_preserves_inv(t, count, card);
    if count == 0 {
    } else if !has_group(t.groups, card.name()) {
        let l = t.groups.len() as int;
        if c2.name() == card.name() {
            // the new singleton group carries the other printing's name,
            // but not its printing
            lemma_group_index_is(t2.groups, c2.name(), l);
            assert(!has_group(t.groups, c2.name()));
            if has_entry(t2.groups[l].entries, c2.printing) {
                let j = entry_index(t2.groups[l].entries, c2.printing);
                assert(0 <= j < t2.groups[l].entries.len());
                assert(j == 0);
                assert(t2.groups[l].entries[0].card == card);
            }
            assert(spec_count_of(t2, c2) == 0);
            assert(spec_count_of(t, c2) == 0);
        } else {
            if has_group(t.groups, c2.name()) {
                let i2 = group_index(t.groups, c2.name());
                assert(0 <= i2 < t.groups.len() && t.groups[i2].name == c2.name());
                lemma_group_index_is(t2.groups, c2.name(), i2);
                assert(t2.groups[i2] == t.groups[i2]);
            } else {
                if has_group(t2.groups, c2.name()) {
                    let i2 = group_index(t2.groups, c2.name());
                    assert(0 <= i2 < t2.groups.len() && t2.groups[i2].name == c2.name());
                    assert(i2 != l);
                    assert(t2.groups[i2] == t.groups[i2]);
                    assert(has_group(t.groups, c2.name()));
                }
            }
        }
    } else {
        let i = group_index(t.groups, card.name());
        assert(0 <= i < t.groups.len() && t.groups[i].name == card.name());
        assert(group_inv(t.groups[i]));
        let g = t.groups[i];
        lemma_group_index_is(t2.groups, card.name(), i);
        assert(group_inv(t2.groups[i]));
        if c2.name() != card.name() {
            // the touched group is not the one c2 lives in
            if has_group(t.groups, c2.name()) {
                let i2 = group_index(t.groups, c2.name());
                assert(0 <= i2 < t.groups.len() && t.groups[i2].name == c2.name());
                assert(i2 != i);
                lemma_group_index_is(t2.groups, c2.name(), i2);
                assert(t2.groups[i2] == t.groups[i2]);
            } else {
                if has_group(t2.groups, c2.name()) {
                    let i2 = group_index(t2.groups, c2.name());
                    assert(0 <= i2 < t2.groups.len() && t2.groups[i2].name == c2.name());
                    assert(i2 != i);
                    assert(t2.groups[i2] == t.groups[i2]);
                    assert(has_group(t.groups, c2.name()));
                }
            }
        } else {
            // same group, but the touched entry chooses card's printing,
            // not c2's
            lemma_group_index_is(t.groups, c2.name(), i);
            if !has_entry(g.entries, card.printing) {
                let l = g.entries.len() as int;
                if has_entry(g.entries, c2.printing) {
                    let j2 = entry_index(g.entries, c2.printing);
                    assert(0 <= j2 < g.entries.len() && g.entries[j2].card.printing
                        == c2.printing);
                    lemma_entry_index_is(t2.groups[i].entries, c2.printing, j2);
                    assert(t2.groups[i].entries[j2] == g.entries[j2]);
                } else {
                    if has_entry(t2.groups[i].entries, c2.printing) {
                        let j2 = entry_index(t2.groups[i].entries, c2.printing);
                        assert(0 <= j2 < t2.groups[i].entries.len());
                        assert(j2 != l);
                        assert(t2.groups[i].entries[j2] == g.entries[j2]);
                        assert(has_entry(g.entries, c2.printing));
                    }
                }
            } else {
                let j = entry_index(g.entries, card.printing);
                assert(0 <= j < g.entries.len() && g.entries[j].card.printing == card.printing);
                if has_entry(g.entries, c2.printing) {
                    let j2 = entry_index(g.entries, c2.printing);
                    assert(0 <= j2 < g.entries.len() && g.entries[j2].card.printing
                        == c2.printing);
                    assert(j2 != j);
                    lemma_entry_index_is(t2.groups[i].entries, c2.printing, j2);
                    assert(t2.groups[i].entries[j2] == g.entries[j2]);
                } else {
                    if has_entry(t2.groups[i].entries, c2.printing) {
                        let j2 = entry_index(t2.groups[i].entries, c2.printing);
                        assert(0 <= j2 < t2.groups[i].entries.len());
                        assert(j2 != j);
                        assert(t2.groups[i].entries[j2] == g.entries[j2]);
                        assert(has_entry(g.entries, c2.printing));
                    }
                }
            }
        }
    }
}

/// With distinct printings, any index choosing `printing` is the one
/// `entry_index` picks.
pub proof fn lemma_entry_index_is(entries: Seq<CardEntryView>, printing: Seq<char>, j: int)
    requires
        forall|a: int, b: int|
            0 <= a < b < entries.len() ==> (#[trigger] entries[a]).card.printing != (
            #[trigger] entries[b]).card.printing,
        0 <= j < entries.len(),
        entries[j].card.printing == printing,
    ensures
        has_entry(entries, printing),
        entry_index(entries, printing) == j,
{
    assert(has_entry(entries, printing));
    let j0 = entry_index(entries, printing);
    assert(0 <= j0 < entries.len() && entries[j0].card.printing == printing);
    if j0 < j {
        assert(entries[j0].card.printing != entries[j].card.printing);
    } else if j < j0 {
        assert(entries[j].card.printing != entries[j0].card.printing);
    }
}

/// The mathematical content of one resolved ADD or REMOVE line: the
/// quantity, and the card if the catalog resolved the name.
pub open spec fn line_view(l: (u64, Option<Card>)) -> (u64, Option<CardView>) {
    (
        l.0,
        match l.1 {
            Option::Some(c) => Option::Some(c@),
            Option::None => Option::None,
        },
    )
}

/// The views of a whole batch of resolved lines.
pub open spec fn lines_view(lines: Seq<(u64, Option<Card>)>) -> Seq<(u64, Option<CardView>)> {
    lines.map_values(|l: (u64, Option<Card>)| line_view(l))
}

/// One gateway ADD batch over a ledger, line by line in order: a line
/// whose name the catalog could not resolve carries no card and is
/// skipped; a line whose merge would not fit in the counter is skipped
/// too; no line ever aborts the batch.
pub open spec fn spec_apply_adds(
    t: TradelistView,
    lines: Seq<(u64, Option<CardView>)>,
) -> TradelistView
    decreases lines.len(),
{
    if lines.len() == 0 {
        t
    } else {
        let rest = spec_apply_adds(t, lines.drop_last());
        match lines.last().1 {
            Option::Some(c) => if spec_add_overflows(rest, lines.last().0, c) {
                rest
            } else {
                spec_add(rest, lines.last().0, c)
            },
            Option::None => rest,
        }
    }
}

/// Applying an ADD batch preserves the ledger invariant.
pub proof fn lemma_apply_adds_preserves_inv(
    t: TradelistView,
    lines: Seq<(u64, Option<CardView>)>,
)
    requires
        tradelist_inv(t),
    ensures
        tradelist_inv(spec_apply_adds(t, lines)),
    decreases lines.len(),
{
    if lines.len() > 0 {
        let rest = spec_apply_adds(t, lines.drop_last());
        lemma_apply_adds_preserves_inv(t, lines.drop_last());
        match lines.last().1 {
            Option::Some(c) => {
                lemma_add_preserves_inv(rest, lines.last().0, c);
            },
            Option::None => {},
        }
    }
}

/// Adds of one card aggregate, whichever order they come in: after
/// adding `a` and then `b` copies — or `b` and then `a` — the ledger
/// holds the old count of that identity plus `a + b`, and the
/// invariant keeps those copies in a single entry, one per chosen
/// printing.
pub proof fn lemma_add_aggregates(t: TradelistView, a: u64, b: u64, card: CardView)
    requires
        tradelist_inv(t),
    ensures
        spec_count_of(spec_add(spec_add(t, a, card), b, card), card) == spec_count_of(t, card) + a
            + b,
        spec_count_of(spec_add(spec_add(t, b, card), a, card), card) == spec_count_of(t, card) + a
            + b,
        tradelist_inv(spec_add(spec_add(t, a, card), b, card)),
{
    lemma_add_count_of_same(t, a, card);
    lemma_add_preserves_inv(t, a, card);
    lemma_add_count_of_same(spec_add(t, a, card), b, card);
    lemma_add_preserves_inv(spec_add(t, a, card), b, card);
    lemma_add_count_of_same(t, b, card);
    lemma_add_preserves_inv(t, b, card);
    lemma_add_count_of_same(spec_add(t, b, card), a, card);
}

/// Two adds of one card collapse to a single add of the sum: the merge
/// rule leaves no trace of how the copies arrived.
pub proof fn lemma_add_twice_is_add_sum(t: TradelistView, a: u64, b: u64, card: CardView)
    requires
        tradelist_inv(t),
        a + b <= u64::MAX,
    ensures
        spec_add(spec_add(t, a, card), b, card) == spec_add(t, (a + b) as u64, card),
{
    if a == 0 || b == 0 {
    } else {
        let t1 = spec_add(t, a, card);
        lemma_add_preserves_inv(t, a, card);
        if !has_group(t.groups, card.name()) {
            let l = t.groups.len() as int;
            lemma_group_index_is(t1.groups, card.name(), l);
            assert(group_inv(t1.groups[l]));
            assert(t1.groups[l].entries[0].card == card);
            lemma_entry_index_is(t1.groups[l].entries, card.printing, 0);
            assert(spec_add(t1, b, card) =~~= spec_add(t, (a + b) as u64, card));
        } else {
            let i = group_index(t.groups, card.name());
            assert(0 <= i < t.groups.len() && t.groups[i].name == card.name());
            assert(group_inv(t.groups[i]));
            let g = t.groups[i];
            lemma_group_index_is(t1.groups, card.name(), i);
            assert(group_inv(t1.groups[i]));
            if !has_entry(g.entries, card.printing) {
                let l = g.entries.len() as int;
                assert(t1.groups[i].entries[l].card == card);
                lemma_entry_index_is(t1.groups[i].entries, card.printing, l);
                assert(spec_add(t1, b, card) =~~= spec_add(t, (a + b) as u64, card));
            } else {
                let j = entry_index(g.entries, card.printing);
                assert(0 <= j < g.entries.len() && g.entries[j].card.printing == card.printing);
                assert(t1.groups[i].entries[j].card == g.entries[j].card);
                lemma_entry_index_is(t1.groups[i].entries, card.printing, j);
                assert(spec_add(t1, b, card) =~~= spec_add(t, (a + b) as u64, card));
            }
        }
    }
}

/// Adds of one card land in the same single entry in either order:
/// adding `a` copies and then `b` yields exactly the ledger of adding
/// `b` and then `a`.
pub proof fn lemma_add_commutes(t: TradelistView, a: u64, b: u64, card: CardView)
    requires
        tradelist_inv(t),
        a + b <= u64::MAX,
    ensures
        spec_add(spec_add(t, a, card), b, card) == spec_add(spec_add(t, b, card), a, card),
{
    lemma_add_twice_is_add_sum(t, a, b, card);
    lemma_add_twice_is_add_sum(t, b, a, card);
}

/// Two adds under one name with distinct chosen printings never merge:
/// each identity ends with its own count raised by its own quantity.
pub proof fn lemma_add_distinct_printings(
    t: TradelistView,
    n1: u64,
    n2: u64,
    c1: CardView,
    c2: CardView,
)
    requires
        tradelist_inv(t),
        c1.name() == c2.name(),
        c1.printing != c2.printing,
    ensures
        spec_count_of(spec_add(spec_add(t, n1, c1), n2, c2), c1) == spec_count_of(t, c1) + n1,
        spec_count_of(spec_add(spec_add(t, n1, c1), n2, c2), c2) == spec_count_of(t, c2) + n2,
{
    lemma_add_count_of_same(t, n1, c1);
    lemma_add_preserves_inv(t, n1, c1);
    lemma_add_count_of_other(spec_add(t, n1, c1), n2, c2, c1);
    lemma_add_count_of_other(t, n1, c1, c2);
    lemma_add_count_of_same(spec_add(t, n1, c1), n2, c2);
}

/// The ledger after `n` adds of a single copy of one card.
pub open spec fn spec_add_units(t: TradelistView, card: CardView, n: nat) -> TradelistView
    decreases n,
{
    if n == 0 {
        t
    } else {
        spec_add(spec_add_units(t, card, (n - 1) as nat), 1, card)
    }
}

/// `n` single-copy adds of one card raise that card's count by exactly
/// `n`.  Adds for one owner serialize on that owner's ledger, so `n`
/// concurrent single-copy adds land as some such sequence, whatever
/// their order.
pub proof fn lemma_add_units_count(t: TradelistView, card: CardView, n: nat)
    requires
        tradelist_inv(t),
    ensures
        tradelist_inv(spec_add_units(t, card, n)),
        spec_count_of(spec_add_units(t, card, n), card) == spec_count_of(t, card) + n,
    decreases n,
{
    if n > 0 {
        let prev = spec_add_units(t, card, (n - 1) as nat);
        lemma_add_units_count(t, card, (n - 1) as nat);
        lemma_add_count_of_same(prev, 1, card);
        lemma_add_preserves_inv(prev, 1, card);
    }
}

/// A removal that drains an entry to zero prunes it: the removal takes
/// out everything the entry held, afterwards no entry under that name
/// chooses that printing, and when it was the group's last entry the
/// name itself leaves the ledger.
pub proof fn lemma_remove_drains(t: TradelistView, count: u64, card: CardView)
    requires
        tradelist_inv(t),
        count > 0,
        spec_count_of(t, card) > 0,
        count >= spec_count_of(t, card),
    ensures
        ({
            let t2 = spec_remove(t, count, card);
            let i = group_index(t.groups, card.name());
            &&& spec_remove_delta(t, count, card) == spec_count_of(t, card)
            &&& (t.groups[i].entries.len() > 1 ==> has_group(t2.groups, card.name())
                && !has_entry(
                t2.groups[group_index(t2.groups, card.name())].entries,
                card.printing,
            ))
            &&& (t.groups[i].entries.len() == 1 ==> !has_group(t2.groups, card.name()))
        }),
{
    let t2 = spec_remove(t, count, card);
    assert(has_group(t.groups, card.name()));
    let i = group_index(t.groups, card.name());
    assert(0 <= i < t.groups.len() && t.groups[i].name == card.name());
    assert(group_inv(t.groups[i]));
    let g = t.groups[i];
    assert(has_entry(g.entries, card.printing));
    let j = entry_index(g.entries, card.printing);
    assert(0 <= j < g.entries.len() && g.entries[j].card.printing == card.printing);
    let e = g.entries[j];
    assert(e.count == spec_count_of(t, card));
    assert(spec_dec_count(e.count, count as nat) == 0);
    lemma_remove_preserves_inv(t, count, card);
    if g.entries.len() > 1 {
        lemma_group_index_is(t2.groups, card.name(), i);
        g.entries.remove_ensures(j);
        if has_entry(t2.groups[i].entries, card.printing) {
            let k = entry_index(t2.groups[i].entries, card.printing);
            assert(0 <= k < t2.groups[i].entries.len());
            let k0: int = if k < j {
                k
            } else {
                k + 1
            };
            assert(t2.groups[i].entries[k] == g.entries[k0]);
            assert(g.entries[k0].card.printing == g.entries[j].card.printing);
            if k0 < j {
                assert(g.entries[k0].card.printing != g.entries[j].card.printing);
            } else {
                assert(g.entries[j].card.printing != g.entries[k0].card.printing);
            }
        }
    } else {
        t.groups.remove_ensures(i);
        if has_group(t2.groups, card.name()) {
            let x = group_index(t2.groups, card.name());
            assert(0 <= x < t2.groups.len() && t2.groups[x].name == card.name());
            let x0: int = if x < i {
                x
            } else {
                x + 1
            };
            assert(t2.groups[x] == t.groups[x0]);
            assert(t.groups[x0].name == t.groups[i].name);
            if x0 < i {
                assert(t.groups[x0].name != t.groups[i].name);
            } else {
                assert(t.groups[i].name != t.groups[x0].name);
            }
        }
    }
}

/// What `containsCard` matches: a candidate without a chosen printing
/// matches any stored entry under its name, whatever printing that
/// entry chose; a candidate with a chosen printing matches exactly the
/// stored entries under its name that chose the same printing or chose
/// none.
pub proof fn lemma_contains_matching(t: TradelistView, card: CardView)
    ensures
        card.wildcard() ==> (spec_contains(t, card) <==> exists|i: int, j: int|
            0 <= i < t.groups.len() && 0 <= j < (#[trigger] t.groups[i]).entries.len() && (
            #[trigger] t.groups[i].entries[j]).card.name() == card.name()),
        !card.wildcard() ==> (spec_contains(t, card) <==> exists|i: int, j: int|
            0 <= i < t.groups.len() && 0 <= j < (#[trigger] t.groups[i]).entries.len() && (
            #[trigger] t.groups[i].entries[j]).card.name() == card.name() && (
            t.groups[i].entries[j].card.wildcard() || t.groups[i].entries[j].card.printing
                == card.printing)),
{
    if card.wildcard() {
        if spec_contains(t, card) {
            let (i, j) = choose|i: int, j: int|
                0 <= i < t.groups.len() && 0 <= j < (#[trigger] t.groups[i]).entries.len()
                    && crate::card::spec_matches((#[trigger] t.groups[i].entries[j]).card, card);
            assert(t.groups[i].entries[j].card.name() == card.name());
        }
        if exists|i: int, j: int|
            0 <= i < t.groups.len() && 0 <= j < (#[trigger] t.groups[i]).entries.len() && (
            #[trigger] t.groups[i].entries[j]).card.name() == card.name() {
            let (i, j) = choose|i: int, j: int|
                0 <= i < t.groups.len() && 0 <= j < (#[trigger] t.groups[i]).entries.len() && (
                #[trigger] t.groups[i].entries[j]).card.name() == card.name();
            assert(crate::card::spec_matches(t.groups[i].entries[j].card, card));
        }
    } else {
        if spec_contains(t, card) {
            let (i, j) = choose|i: int, j: int|
                0 <= i < t.groups.len() && 0 <= j < (#[trigger] t.groups[i]).entries.len()
                    && crate::card::spec_matches((#[trigger] t.groups[i].entries[j]).card, card);
            assert(t.groups[i].entries[j].card.name() == card.name() && (
            t.groups[i].entries[j].card.wildcard() || t.groups[i].entries[j].card.printing
                == card.printing));
        }
        if exists|i: int, j: int|
            0 <= i < t.groups.len() && 0 <= j < (#[trigger] t.groups[i]).entries.len() && (
            #[trigger] t.groups[i].entries[j]).card.name() == card.name() && (
            t.groups[i].entries[j].card.wildcard() || t.groups[i].entries[j].card.printing
                == card.printing) {
            let (i, j) = choose|i: int, j: int|
                0 <= i < t.groups.len() && 0 <= j < (#[trigger] t.groups[i]).entries.len() && (
                #[trigger] t.groups[i].entries[j]).card.name() == card.name() && (
                t.groups[i].entries[j].card.wildcard() || t.groups[i].entries[j].card.printing
                    == card.printing);
            assert(crate::card::spec_matches(t.groups[i].entries[j].card, card));
        }
    }
}

/// Setting the visibility twice is setting it once, and it never
/// touches an entry: the groups stay exactly what they were, whatever
/// they hold.
pub proof fn lemma_set_visibility_idempotent(t: TradelistView, public: bool)
    ensures
        spec_set_visibility(spec_set_visibility(t, public), public) == spec_set_visibility(
            t,
            public,
        ),
        spec_set_visibility(t, public).groups == t.groups,
        tradelist_inv(t) ==> tradelist_inv(spec_set_visibility(t, public)),
{
}

} // verus!

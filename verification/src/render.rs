//! What a ledger listing looks like, stated over the model.

use vstd::prelude::*;

use crate::card_entry::{spec_entry_line, CardEntryView};
use crate::model::GroupView;

verus! {

/// The lines for one group's entries, in insertion order, each ended
/// by a newline.
pub open spec fn spec_group_lines(entries: Seq<CardEntryView>) -> Seq<char>
    decreases entries.len(),
{
    if entries.len() == 0 {
        Seq::empty()
    } else {
        spec_group_lines(entries.drop_last()) + spec_entry_line(entries.last()) + "\n"@
    }
}

/// The whole listing body: every group's lines, groups in insertion
/// order.
pub open spec fn spec_body(groups: Seq<GroupView>) -> Seq<char>
    decreases groups.len(),
{
    if groups.len() == 0 {
        Seq::empty()
    } else {
        spec_body(groups.drop_last()) + spec_group_lines(groups.last().entries)
    }
}

/// The structured summary of a ledger listing: a title, a line saying
/// whether the ledger is public or private, and the text block with
/// one line per entry.
pub struct Rendered {
    pub title: String,
    pub banner: String,
    pub body: String,
}

} // verus!

//! Who holds a table.

use std::sync::Arc;

use vstd::prelude::*;

use crate::storage::lsm::sstable::{SsTable, TableView};

verus! {

/// How many holders a table had when they were counted. Only a count makes one.
pub struct Holders {
    number: usize,
    table: Ghost<TableView>,
}

impl Holders {
    /// The table that was counted.
    pub closed spec fn table(self) -> TableView {
        self.table@
    }

    /// How many holders it had.
    pub closed spec fn number(self) -> usize {
        self.number
    }

    /// How many holders the table had.
    pub fn how_many(&self) -> (n: usize)
        ensures
            n == self.number(),
    {
        self.number
    }
}

/// `Arc::strong_count`: how many holders a table has at this moment, which
/// depends on what else in the program holds it. All that is claimed is which
/// table the number is about.
#[verifier::external_body]
pub(crate) fn holders(t: &Arc<SsTable>) -> (h: Holders)
    ensures
        h.table() == (**t)@,
{
    Holders { number: Arc::strong_count(t), table: Ghost((**t)@) }
}

/// The tables were counted, and those are in use that something else holds besides
/// the one who counts.
pub open spec fn counted(ts: Seq<TableView>, used: Seq<bool>) -> bool {
    exists|hs: Seq<Holders>| #[trigger] counted_by(ts, used, hs)
}

pub open spec fn counted_by(ts: Seq<TableView>, used: Seq<bool>, hs: Seq<Holders>) -> bool {
    &&& used.len() == ts.len()
    &&& hs.len() == ts.len()
    &&& forall|i: int|
        0 <= i < ts.len() ==> (#[trigger] hs[i]).table() == ts[i] && (used[i] <==> hs[i].number()
            != 1)
}

/// Nothing else held any of the tables when they were counted.
pub open spec fn all_alone(hs: Seq<Holders>) -> bool {
    forall|i: int| 0 <= i < hs.len() ==> (#[trigger] hs[i]).number() == 1
}

} // verus!

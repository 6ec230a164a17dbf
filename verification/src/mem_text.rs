//! Memory histories as text.

use crate::common::Address;
use crate::mem_view::{HistoryEntry, MemoryHistory};
use crate::tables::{enumerates, map_get, map_keys};
use crate::text::{dec_text, hex_text, push_dec, push_hex};
use vstd::prelude::*;
use vstd::string::StringExecFns;

verus! {

broadcast use vstd::std_specs::hash::group_hash_axioms;

/// The entries of a history as text, each on a line of its own.
pub open spec fn entries_text(entries: Seq<HistoryEntry>) -> Seq<char>
    decreases entries.len(),
{
    if entries.len() == 0 {
        Seq::empty()
    } else {
        entries_text(entries.drop_last()) + "  trace_ind: "@ + dec_text(
            entries.last().trace_ind as nat,
        ) + ", Value: "@ + hex_text(entries.last().value as nat) + "\n"@
    }
}

/// The histories of the addresses in `order` as text.
pub open spec fn histories_text(h: Map<Address, Seq<HistoryEntry>>, order: Seq<Address>) -> Seq<char>
    decreases order.len(),
{
    if order.len() == 0 {
        Seq::empty()
    } else {
        histories_text(h, order.drop_last()) + "Address: "@ + hex_text(order.last() as nat)
            + "\n"@ + entries_text(h[order.last()])
    }
}

/// Appends the entries of a history as text.
fn push_entries(text: &mut String, entries: &Vec<HistoryEntry>)
    ensures
        final(text)@ == old(text)@ + entries_text(entries@),
{
    let ghost first = text@;
    let mut i: usize = 0;
    assert(entries@.take(0) =~= Seq::empty());
    assert(text@ =~= first + entries_text(entries@.take(0)));
    while i < entries.len()
        invariant
            i <= entries@.len(),
            text@ == first + entries_text(entries@.take(i as int)),
        decreases entries.len() - i,
    {
        assert(entries@.take(i + 1).drop_last() =~= entries@.take(i as int));
        text.append("  trace_ind: ");
        push_dec(text, entries[i].trace_ind as u64);
        text.append(", Value: ");
        push_hex(text, entries[i].value as u64);
        text.append("\n");
        assert(text@ =~= first + entries_text(entries@.take(i + 1)));
        i += 1;
    }
    assert(entries@.take(i as int) =~= entries@);
}

impl MemoryHistory {
    /// The histories of the writes as text, for the addresses in the given order.
    pub fn writes_text_in_order(&self, order: &Vec<Address>) -> (res: String)
        requires
            order@.to_set().subset_of(self@.writes.dom()),
        ensures
            res@ == histories_text(self@.writes, order@),
    {
        let mut res = String::new();
        let mut i: usize = 0;
        assert(order@.take(0) =~= Seq::empty());
        while i < order.len()
            invariant
                order@.to_set().subset_of(self@.writes.dom()),
                i <= order@.len(),
                res@ == histories_text(self@.writes, order@.take(i as int)),
            decreases order.len() - i,
        {
            assert(order@.take(i + 1).drop_last() =~= order@.take(i as int));
            assert(order@.to_set().contains(order@[i as int]));
            let history = map_get(&self.writes, &order[i]).unwrap();
            assert(self@.writes[order@[i as int]] == history@);
            res.append("Address: ");
            push_hex(&mut res, order[i] as u64);
            res.append("\n");
            push_entries(&mut res, history);
            assert(res@ =~= histories_text(self@.writes, order@.take(i + 1)));
            i += 1;
        }
        assert(order@.take(i as int) =~= order@);
        res
    }

    /// The histories of all writes as text, in an order of the addresses that is left open.
    pub fn writes_text(&self) -> (res: String)
        ensures
            exists|order: Seq<Address>| #[trigger]
                enumerates(order, self@.writes.dom()) && res@ == histories_text(
                    self@.writes,
                    order,
                ),
    {
        let order = map_keys(&self.writes);
        assert(self@.writes.dom() =~= self.writes@.dom());
        assert(enumerates(order@, self@.writes.dom()));
        self.writes_text_in_order(&order)
    }
}

} // verus!

//! Memory accesses and traces of them.

use crate::common::{Address, USize};
use crate::text::{dec_text, hex_padded, push_dec, push_hex_padded};
use vstd::prelude::*;
use vstd::string::StringExecFns;

verus! {

/// What an access went to.
#[derive(Debug, PartialEq, Eq, Hash, Clone, Copy, Structural)]
pub enum AccessTarget {
    Ram,
    Mmio,
}

/// The direction of an access.
#[derive(Debug, PartialEq, Eq, Hash, Clone, Copy, Structural)]
pub enum AccessType {
    Read,
    Write,
}

/// One memory access of the traced firmware.
#[derive(Debug, PartialEq, Eq, Clone, Copy, Structural)]
pub struct Access {
    pub target: AccessTarget,
    pub access_type: AccessType,
    pub size: u8,
    pub pc: Address,
    pub address: Address,
    pub value: USize,
}

/// One event of a trace.
#[derive(Debug, PartialEq, Eq, Clone, Copy, Structural)]
pub enum TraceEvent {
    Access(Access),
}

/// The events of one run, in the order in which they happened.
#[derive(Debug, Default, PartialEq, Eq, Clone)]
pub struct Trace {
    pub events: Vec<TraceEvent>,
}

impl TraceEvent {
    /// The access that the event records.
    pub open spec fn access(self) -> Access {
        match self {
            TraceEvent::Access(access) => access,
        }
    }
}

/// The name of a target.
pub open spec fn target_text(target: AccessTarget) -> Seq<char> {
    match target {
        AccessTarget::Ram => "RAM"@,
        AccessTarget::Mmio => "MMIO"@,
    }
}

/// The name of a direction.
pub open spec fn type_text(access_type: AccessType) -> Seq<char> {
    match access_type {
        AccessType::Read => "Read"@,
        AccessType::Write => "Write"@,
    }
}

/// An access as text.
pub open spec fn access_text(access: Access) -> Seq<char> {
    target_text(access.target) + " Access ("@ + type_text(access.access_type) + ") [ pc: "@
        + hex_padded(access.pc as nat, 8) + ", size: "@ + dec_text(access.size as nat)
        + ", address: "@ + hex_padded(access.address as nat, 8) + ", value: "@ + hex_padded(
        access.value as nat,
        8,
    ) + " ]"@
}

/// The accesses of events as text, each on a line of its own.
pub open spec fn events_text(events: Seq<TraceEvent>) -> Seq<char>
    decreases events.len(),
{
    if events.len() == 0 {
        Seq::empty()
    } else {
        events_text(events.drop_last()) + access_text(events.last().access()) + "\n"@
    }
}

impl Access {
    /// Appends the access as text.
    fn push_text(&self, text: &mut String)
        ensures
            final(text)@ == old(text)@ + access_text(*self),
    {
        let ghost first = text@;
        text.append(
            match self.target {
                AccessTarget::Ram => "RAM",
                AccessTarget::Mmio => "MMIO",
            },
        );
        text.append(" Access (");
        text.append(
            match self.access_type {
                AccessType::Read => "Read",
                AccessType::Write => "Write",
            },
        );
        text.append(") [ pc: ");
        push_hex_padded(text, self.pc as u64, 8);
        text.append(", size: ");
        push_dec(text, self.size as u64);
        text.append(", address: ");
        push_hex_padded(text, self.address as u64, 8);
        text.append(", value: ");
        push_hex_padded(text, self.value as u64, 8);
        text.append(" ]");
        assert(text@ =~= first + access_text(*self));
    }

    /// The access as text.
    pub fn to_string(&self) -> (res: String)
        ensures
            res@ == access_text(*self),
    {
        let mut res = String::new();
        self.push_text(&mut res);
        assert(res@ =~= access_text(*self));
        res
    }
}

impl Trace {
    /// The accesses as text, each on a line of its own.
    pub fn to_string(&self) -> (res: String)
        ensures
            res@ == events_text(self.events@),
    {
        let mut res = String::new();
        let mut i: usize = 0;
        assert(self.events@.take(0) =~= Seq::empty());
        while i < self.events.len()
            invariant
                i <= self.events@.len(),
                res@ == events_text(self.events@.take(i as int)),
            decreases self.events.len() - i,
        {
            assert(self.events@.take(i + 1).drop_last() =~= self.events@.take(i as int));
            let TraceEvent::Access(access) = self.events[i];
            access.push_text(&mut res);
            res.append("\n");
            i += 1;
        }
        assert(self.events@.take(i as int) =~= self.events@);
        res
    }
}

} // verus!

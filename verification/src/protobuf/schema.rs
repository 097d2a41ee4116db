//! Schema tables for schema-driven decoding: a message is a list of fields,
//! each with a number, a name, and a kind.

use vstd::prelude::*;
use vstd::string::StringSliceAdditionalSpecFns;

verus! {

/// How a field's wire value is interpreted.
#[derive(Debug, Clone, Copy, PartialEq, Eq, Structural)]
pub enum Kind {
    /// Two's-complement varint (`int32`, `int64`).
    Int,
    /// Unsigned varint.
    Uint,
    /// ZigZag varint (`sint32`, `sint64`).
    Sint,
    Bool,
    /// Varint holding an enum value.
    Enum,
    Fixed32,
    Fixed64,
    Float,
    Double,
    String,
    Bytes,
    /// A `TSP.Reference` message: an object identifier.
    Reference,
    /// A nested message, by index into the schema's message table.
    Message(u16),
}

#[derive(Debug, Clone, Copy, PartialEq, Eq)]
pub struct Field {
    pub number: u32,
    pub name: &'static str,
    pub kind: Kind,
    pub repeated: bool,
    /// Repeated scalars are written packed into one length-delimited value.
    pub packed: bool,
}

#[derive(Debug, Clone, Copy, PartialEq, Eq)]
pub struct Message {
    pub name: &'static str,
    /// Sorted by number.
    pub fields: &'static [Field],
}

impl Message {
    /// The position of the field numbered `number` among the fields.
    pub fn slot(&self, number: u32) -> (slot: Option<usize>)
        ensures
            match slot {
                Some(index) => index < self.fields@.len() && self.fields@[index as int].number == number
                    && forall|j: int| 0 <= j < index ==> self.fields@[j].number != number,
                None => forall|j: int| 0 <= j < self.fields@.len() ==> self.fields@[j].number != number,
            },
    {
        let mut index: usize = 0;
        while index < self.fields.len()
            invariant
                index <= self.fields@.len(),
                forall|j: int| 0 <= j < index ==> self.fields@[j].number != number,
            decreases self.fields@.len() - index,
        {
            if self.fields[index].number == number {
                return Some(index);
            }
            index += 1;
        }
        None
    }

    /// The field numbered `number`, if the message has one.
    pub fn field(&self, number: u32) -> (field: Option<&'static Field>)
        ensures
            match field {
                Some(found) => exists|i: int|
                    0 <= i < self.fields@.len() && self.fields@[i] == *found && found.number == number,
                None => forall|j: int| 0 <= j < self.fields@.len() ==> self.fields@[j].number != number,
            },
    {
        match self.slot(number) {
            Some(index) => Some(&self.fields[index]),
            None => None,
        }
    }
}


/// Finds a message by name in a table sorted by name.
pub fn find_message(table: &'static [Message], name: &str) -> (found: Option<&'static Message>)
    ensures
        match found {
            Some(message) => exists|i: int|
                0 <= i < table@.len() && table@[i] == *message && message.name.spec_bytes() == name.spec_bytes(),
            None => forall|i: int| 0 <= i < table@.len() ==> table@[i].name.spec_bytes() != name.spec_bytes(),
        },
{
    let wanted = name.as_bytes();
    let mut index: usize = 0;
    while index < table.len()
        invariant
            index <= table@.len(),
            wanted@ == name.spec_bytes(),
            forall|i: int| 0 <= i < index ==> table@[i].name.spec_bytes() != name.spec_bytes(),
        decreases table@.len() - index,
    {
        let candidate = table[index].name.as_bytes();
        if same_bytes(candidate, wanted) {
            return Some(&table[index]);
        }
        index += 1;
    }
    None
}

/// Whether two byte strings are equal.
fn same_bytes(a: &[u8], b: &[u8]) -> (same: bool)
    ensures
        same == (a@ == b@),
{
    if a.len() != b.len() {
        return false;
    }
    let mut i: usize = 0;
    while i < a.len()
        invariant
            i <= a@.len(),
            a@.len() == b@.len(),
            forall|j: int| 0 <= j < i ==> a@[j] == b@[j],
        decreases a@.len() - i,
    {
        if a[i] != b[i] {
            return false;
        }
        i += 1;
    }
    assert(a@ =~= b@);
    true
}

} // verus!

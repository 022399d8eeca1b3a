//! Printing a value from its descriptor.

use vstd::prelude::*;
use vstd::string::*;
use vstd::utf8::valid_utf8;
use crate::descriptor::{parse_expr, TypeStr};
use crate::error::ErrorKind;
use crate::memory::{Memory, Snapshot};
use crate::render::{rendered, Fault};
use crate::text::to_str;

verus! {

/// Why there is no line for a value: the model of a [`Failure`].
pub enum Refusal {
    Error(ErrorKind),
    Faults(Seq<Fault>),
}

/// Why no line was made for a value.
#[derive(Debug, PartialEq, Eq)]
pub enum Failure {
    /// The descriptor is no text or no type expression. Nothing can mend it.
    Error(ErrorKind),
    /// The snapshot lacks these things. With them supplied the value can be
    /// shown, or more of what it needs can be found.
    Faults(Vec<Fault>),
}

impl View for Failure {
    type V = Refusal;

    open spec fn view(&self) -> Refusal {
        match self {
            Failure::Error(kind) => Refusal::Error(*kind),
            Failure::Faults(faults) => Refusal::Faults(faults@),
        }
    }
}

/// The line for the value at the address `data` whose shape `descriptor`
/// names. The descriptor is judged first, and without a look at memory; what
/// follows its type expression is not read.
pub open spec fn shown(descriptor: Seq<u8>, mem: Memory, data: u64) -> Result<Seq<char>, Refusal> {
    if !valid_utf8(descriptor) {
        Err(Refusal::Error(ErrorKind::InvalidTextEncoding))
    } else {
        match parse_expr(descriptor, 0) {
            Err(malformed) => Err(Refusal::Error(malformed.kind())),
            Ok((shape, _)) => match rendered(shape, mem, data) {
                Ok(text) => Ok(text),
                Err(faults) => Err(Refusal::Faults(faults)),
            },
        }
    }
}

/// Makes the line for the value at the address `data` whose shape `type_str`
/// names.
pub fn show(type_str: &[u8], mem: &Snapshot, data: u64) -> (r: Result<String, Failure>)
    ensures
        match shown(type_str@, mem@, data) {
            Ok(text) => r is Ok && r->Ok_0@ == text,
            Err(refusal) => r is Err && r->Err_0@ == refusal,
        },
{
    let text = match to_str(type_str) {
        Err(e) => {
            return Err(Failure::Error(e));
        },
        Ok(text) => text,
    };
    let mut reader = TypeStr::new(text.as_bytes());
    let data_type = match reader.parse() {
        Err(e) => {
            return Err(Failure::Error(e));
        },
        Ok(data_type) => data_type,
    };
    match data_type.render(mem, data) {
        Err(faults) => Err(Failure::Faults(faults)),
        Ok(line) => Ok(line),
    }
}

/// A descriptor that is refused is refused whatever memory holds and
/// wherever the value lies.
pub proof fn lemma_refusal_ignores_memory(
    descriptor: Seq<u8>,
    mem1: Memory,
    data1: u64,
    mem2: Memory,
    data2: u64,
)
    requires
        !valid_utf8(descriptor) || parse_expr(descriptor, 0) is Err,
    ensures
        shown(descriptor, mem1, data1) is Err,
        shown(descriptor, mem1, data1)->Err_0 is Error,
        shown(descriptor, mem1, data1) == shown(descriptor, mem2, data2),
{
}

} // verus!

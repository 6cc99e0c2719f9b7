//! Hierarchical PIC netlist documents, their elaboration into connectivity
//! netlists, the protobuf wire form of circuits, and the layout-independent
//! rules of netlist extraction.
pub mod text;
pub mod ordmap;
pub mod json;
pub mod netlist;
pub mod portref;
pub mod document;
pub mod wire;
pub mod proto;
pub mod keyed;
pub mod convert;
pub mod circuit;
pub mod extract;
pub mod roundtrip;
pub mod settings;
pub mod ports;
pub mod geometry;
pub mod parser;
pub mod shorts;

use vstd::prelude::*;

verus! {

/// A refused document, reference, netlist edit or wire message, with its reason.
#[derive(Debug, PartialEq, Eq)]
pub struct Error(pub String);

impl Error {
    /// The reason, as text.
    pub fn message(&self) -> (r: String)
        ensures
            r@ == self.0@,
    {
        self.0.clone()
    }
}

} // verus!

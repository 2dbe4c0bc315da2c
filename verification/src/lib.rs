//! A Harel statechart (SCXML) interpreter library: the data structures and
//! algorithms of the W3C SCXML interpretation procedure, the binary FSM
//! protocol and the helpers around them, with their contracts proved by Verus.

use vstd::prelude::*;

pub mod collections;
pub mod common;
pub mod console;
pub mod datamodel;
pub mod decimal;
pub mod executable_content;
pub mod expression_parser;
pub mod fsm;
pub mod fsm_serializer;
pub mod model_builder;
pub mod protocol;
pub mod reader;
pub mod scxml_event_io_processor;
pub mod sorting;
pub mod test_tracer;
pub mod tracer;
pub mod well_formed;

verus! {

} // verus!

//! A small language for describing experiments: conditional assignments that
//! are compiled to a tree of operations and evaluated against an environment.

use vstd::prelude::*;

pub mod api;
pub mod compile;
pub mod eval;
pub mod host;
pub mod ir;
pub mod json;
pub mod number;
pub mod opt;
pub mod or;
pub mod parse;
pub mod tree;
pub mod wire;

pub use compile::compile;

verus! {

/// The contents of a sequence of strings, item by item.
pub open spec fn names(strings: Seq<String>) -> Seq<Seq<char>> {
    Seq::new(strings.len(), |i: int| strings[i]@)
}

/// A compiled program: its statements in order, and the names of the
/// variables that it assigns anywhere.
#[derive(Debug, PartialEq)]
pub struct Plan {
    pub ops: Vec<ir::Op>,
    pub params: Vec<String>,
}

/// The mathematical content of a [`Plan`].
pub struct PlanView {
    pub ops: Seq<ir::OpView>,
    pub params: Seq<Seq<char>>,
}

impl View for Plan {
    type V = PlanView;

    open spec fn view(&self) -> PlanView {
        PlanView { ops: ir::op_views(self.ops@), params: names(self.params@) }
    }
}

} // verus!

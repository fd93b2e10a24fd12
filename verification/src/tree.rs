//! The parse tree: what a parser hands to the compiler.

use vstd::prelude::*;

verus! {

/// The rules of the grammar. Every node of a parse tree is typed by one.
#[derive(Debug, Clone, Copy, PartialEq, Eq, Structural)]
pub enum Rule {
    /// The end of the input.
    EOI,
    Program,
    Statement,
    Assignment,
    Ident,
    OpAssign,
    Semi,
    Conditional,
    OpIf,
    OpElseIf,
    OpElse,
    Expr,
    Terms,
    DyadicExpr,
    Verb,
    Array,
    ArrayStart,
    ArrayEnd,
    Number,
    Int,
    Decimal,
    String,
    StringInner,
    BlockStart,
    BlockEnd,
    Ret,
}

/// A node of a parse tree: its rule, the source text it spans, and the nodes
/// under it in source order.
#[derive(Debug, PartialEq)]
pub struct Pair {
    pub rule: Rule,
    pub text: String,
    pub inner: Vec<Pair>,
}

/// The mathematical content of a [`Pair`].
pub struct PairView {
    pub rule: Rule,
    pub text: Seq<char>,
    pub inner: Seq<PairView>,
}

/// The views of a sequence of parse-tree nodes, item by item.
pub open spec fn pair_views(pairs: Seq<Pair>) -> Seq<PairView>
    decreases pairs,
{
    if pairs.len() == 0 {
        Seq::empty()
    } else {
        pair_views(pairs.drop_last()).push(pairs.last()@)
    }
}

impl View for Pair {
    type V = PairView;

    open spec fn view(&self) -> PairView
        decreases self,
    {
        PairView { rule: self.rule, text: self.text@, inner: pair_views(self.inner@) }
    }
}

/// What [`pair_views`] holds at each position.
pub proof fn lemma_pair_views(pairs: Seq<Pair>)
    ensures
        pair_views(pairs).len() == pairs.len(),
        forall|i: int| 0 <= i < pairs.len() ==> (#[trigger] pair_views(pairs)[i]) == pairs[i]@,
    decreases pairs.len(),
{
    if pairs.len() > 0 {
        let front = pairs.drop_last();
        lemma_pair_views(front);
        assert(pair_views(pairs) == pair_views(front).push(pairs.last()@));
        assert forall|i: int| 0 <= i < pairs.len() implies (#[trigger] pair_views(pairs)[i]) == pairs[i]@ by {
            if i < front.len() {
                assert(front[i] == pairs[i]);
            }
        }
    } else {
        assert(pair_views(pairs).len() == 0);
    }
}

impl Pair {
    /// A node without nodes under it.
    pub fn leaf(rule: Rule, text: &str) -> (pair: Pair)
        ensures
            pair@ == (PairView { rule, text: text@, inner: Seq::empty() }),
    {
        let pair = Pair { rule, text: text.to_owned(), inner: Vec::new() };
        assert(pair_views(pair.inner@) =~= Seq::<PairView>::empty());
        pair
    }

    /// A node with `inner` under it.
    pub fn node(rule: Rule, text: &str, inner: Vec<Pair>) -> (pair: Pair)
        ensures
            pair@ == (PairView { rule, text: text@, inner: pair_views(inner@) }),
    {
        Pair { rule, text: text.to_owned(), inner }
    }
}

} // verus!

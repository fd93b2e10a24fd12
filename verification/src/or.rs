//! The optimized representation: the values that the optimizer rewrites the
//! operations of a plan into.

use crate::number::Number;
use vstd::prelude::*;

verus! {

/// The kinds of optimized values.
#[derive(Copy, Clone, Debug, PartialEq, Eq, Hash, Structural)]
pub enum Ty {
    Number,
    Bool,
    String,
    Assign,
    Pointer,
    Param,
    Array,
    Stack,
    Mul,
    Sum,
    Conditional,
}

/// An optimized value.
#[derive(Debug, PartialEq)]
pub enum Val {
    Number(Number),
    Bool(Bool),
    String(String),
    Assign(Assign),
    Pointer(Pointer),
    Param(Param),
    Array(Array),
    Stack(Stack),
    Mul(Mul),
    Sum(Sum),
    Conditional(Conditional),
}

/// A sequence of values.
#[derive(Debug, PartialEq)]
pub struct Array(pub Vec<Val>);

/// A truth value.
pub type Bool = bool;

/// The assignment of a value to a variable.
#[derive(Debug, PartialEq)]
pub struct Assign {
    pub var: String,
    pub value: Box<Val>,
}

/// A reference to a variable that nothing is known of.
#[derive(Debug, PartialEq)]
pub struct Param {
    pub name: String,
}

/// A reference to a variable by its name.
#[derive(Debug, PartialEq)]
pub struct Pointer {
    pub var: String,
}

/// The values of the statements of a program, in source order.
#[derive(Debug, PartialEq)]
pub struct Stack {
    pub inner: Vec<Val>,
}

/// A product: a numeric coefficient, if any factor was a number, and the
/// factors that are none.
#[derive(Debug, PartialEq)]
pub struct Mul {
    pub base: Option<Number>,
    pub rest: Vec<Val>,
}

/// A sum of two values.
#[derive(Debug, PartialEq)]
pub struct Sum {
    pub lhs: Box<Val>,
    pub rhs: Box<Val>,
}

/// One branch of a conditional: it is taken where `when` is true, and always
/// where there is no `when`.
#[derive(Debug, PartialEq)]
pub struct Branch {
    pub when: Option<Val>,
    pub then_stack: Stack,
}

/// The branches of a conditional, the first to be tried first.
#[derive(Debug, PartialEq)]
pub struct Conditional {
    pub inner: Vec<Branch>,
}

/// The mathematical content of a [`Val`].
pub enum ValView {
    Number(Number),
    Bool(bool),
    String(Seq<char>),
    Assign { var: Seq<char>, value: Box<ValView> },
    Pointer { var: Seq<char> },
    Param { name: Seq<char> },
    Array(Seq<ValView>),
    Stack(Seq<ValView>),
    Mul { base: Option<Number>, rest: Seq<ValView> },
    Sum { lhs: Box<ValView>, rhs: Box<ValView> },
    Conditional(Seq<BranchView>),
}

/// The mathematical content of a [`Branch`].
pub struct BranchView {
    pub when: Option<ValView>,
    pub then_stack: Seq<ValView>,
}

/// The mathematical content of a [`Mul`].
pub struct MulView {
    pub base: Option<Number>,
    pub rest: Seq<ValView>,
}

/// The views of a sequence of values, item by item.
pub open spec fn val_views(vals: Seq<Val>) -> Seq<ValView>
    decreases vals,
{
    if vals.len() == 0 {
        Seq::empty()
    } else {
        val_views(vals.drop_last()).push(vals.last()@)
    }
}

/// The view of one branch.
pub open spec fn branch_view(branch: Branch) -> BranchView
    decreases branch,
{
    BranchView {
        when: match branch.when {
            Some(v) => Some(v@),
            None => None,
        },
        then_stack: val_views(branch.then_stack.inner@),
    }
}

/// The views of a sequence of branches, item by item.
pub open spec fn branch_views(branches: Seq<Branch>) -> Seq<BranchView>
    decreases branches,
{
    if branches.len() == 0 {
        Seq::empty()
    } else {
        branch_views(branches.drop_last()).push(branch_view(branches.last()))
    }
}

impl View for Val {
    type V = ValView;

    open spec fn view(&self) -> ValView
        decreases self,
    {
        match self {
            Val::Number(n) => ValView::Number(*n),
            Val::Bool(b) => ValView::Bool(*b),
            Val::String(s) => ValView::String(s@),
            Val::Assign(a) => ValView::Assign { var: a.var@, value: Box::new((*a.value)@) },
            Val::Pointer(p) => ValView::Pointer { var: p.var@ },
            Val::Param(p) => ValView::Param { name: p.name@ },
            Val::Array(a) => ValView::Array(val_views(a.0@)),
            Val::Stack(s) => ValView::Stack(val_views(s.inner@)),
            Val::Mul(m) => ValView::Mul { base: m.base, rest: val_views(m.rest@) },
            Val::Sum(s) => ValView::Sum { lhs: Box::new((*s.lhs)@), rhs: Box::new((*s.rhs)@) },
            Val::Conditional(c) => ValView::Conditional(branch_views(c.inner@)),
        }
    }
}

impl View for Mul {
    type V = MulView;

    open spec fn view(&self) -> MulView {
        MulView { base: self.base, rest: val_views(self.rest@) }
    }
}

impl View for Stack {
    type V = Seq<ValView>;

    open spec fn view(&self) -> Seq<ValView> {
        val_views(self.inner@)
    }
}

/// What [`val_views`] holds at each position.
pub proof fn lemma_val_views(vals: Seq<Val>)
    ensures
        val_views(vals).len() == vals.len(),
        forall|i: int| 0 <= i < vals.len() ==> (#[trigger] val_views(vals)[i]) == vals[i]@,
    decreases vals.len(),
{
    if vals.len() > 0 {
        let front = vals.drop_last();
        lemma_val_views(front);
        assert(val_views(vals) == val_views(front).push(vals.last()@));
        assert forall|i: int| 0 <= i < vals.len() implies (#[trigger] val_views(vals)[i]) == vals[i]@ by {
            if i < front.len() {
                assert(front[i] == vals[i]);
            }
        }
    } else {
        assert(val_views(vals).len() == 0);
    }
}

/// What [`branch_views`] holds at each position.
pub proof fn lemma_branch_views(branches: Seq<Branch>)
    ensures
        branch_views(branches).len() == branches.len(),
        forall|i: int|
            0 <= i < branches.len() ==> (#[trigger] branch_views(branches)[i]) == branch_view(branches[i]),
    decreases branches.len(),
{
    if branches.len() > 0 {
        let front = branches.drop_last();
        lemma_branch_views(front);
        assert(branch_views(branches) == branch_views(front).push(branch_view(branches.last())));
        assert forall|i: int| 0 <= i < branches.len() implies (#[trigger] branch_views(branches)[i])
            == branch_view(branches[i]) by {
            if i < front.len() {
                assert(front[i] == branches[i]);
            }
        }
    } else {
        assert(branch_views(branches).len() == 0);
    }
}

/// Deep copies of `vals`, item by item.
#[verifier::loop_isolation(false)]
pub fn copy_vals(vals: &Vec<Val>) -> (out: Vec<Val>)
    ensures
        val_views(out@) == val_views(vals@),
    decreases vals, 0nat,
{
    let mut out: Vec<Val> = Vec::new();
    let mut i: usize = 0;
    while i < vals.len()
        invariant
            i <= vals.len(),
            out.len() == i,
            forall|j: int| 0 <= j < i ==> (#[trigger] out@[j])@ == vals@[j]@,
        decreases vals.len() - i,
    {
        out.push(copy_val(&vals[i]));
        i += 1;
    }
    proof {
        lemma_val_views(out@);
        lemma_val_views(vals@);
        assert(val_views(out@) =~= val_views(vals@));
    }
    out
}

/// A deep copy of `val`.
#[verifier::loop_isolation(false)]
pub fn copy_val(val: &Val) -> (out: Val)
    ensures
        out@ == val@,
    decreases val, 1nat,
{
    match val {
        Val::Number(n) => Val::Number(*n),
        Val::Bool(b) => Val::Bool(*b),
        Val::String(s) => Val::String(s.clone()),
        Val::Assign(a) => Val::Assign(Assign { var: a.var.clone(), value: Box::new(copy_val(&a.value)) }),
        Val::Pointer(p) => Val::Pointer(Pointer { var: p.var.clone() }),
        Val::Param(p) => Val::Param(Param { name: p.name.clone() }),
        Val::Array(a) => Val::Array(Array(copy_vals(&a.0))),
        Val::Stack(s) => Val::Stack(Stack { inner: copy_vals(&s.inner) }),
        Val::Mul(m) => Val::Mul(Mul { base: m.base, rest: copy_vals(&m.rest) }),
        Val::Sum(s) => Val::Sum(Sum { lhs: Box::new(copy_val(&s.lhs)), rhs: Box::new(copy_val(&s.rhs)) }),
        Val::Conditional(c) => {
            let mut out: Vec<Branch> = Vec::new();
            let mut i: usize = 0;
            while i < c.inner.len()
                invariant
                    i <= c.inner.len(),
                    out.len() == i,
                    forall|j: int| 0 <= j < i ==> branch_view(#[trigger] out@[j]) == branch_view(c.inner@[j]),
                decreases c.inner.len() - i,
            {
                let branch = &c.inner[i];
                let when = match &branch.when {
                    Some(v) => Some(copy_val(v)),
                    None => None,
                };
                out.push(Branch { when, then_stack: Stack { inner: copy_vals(&branch.then_stack.inner) } });
                i += 1;
            }
            proof {
                lemma_branch_views(out@);
                lemma_branch_views(c.inner@);
                assert(branch_views(out@) =~= branch_views(c.inner@));
            }
            Val::Conditional(Conditional { inner: out })
        },
    }
}

impl Clone for Val {
    fn clone(&self) -> (out: Self)
        ensures
            out@ == self@,
    {
        copy_val(self)
    }
}

impl Val {
    /// The kind of the value.
    pub fn ty(&self) -> (ty: Ty)
        ensures
            ty == self.spec_ty(),
    {
        match self {
            Val::Number(_) => Ty::Number,
            Val::Bool(_) => Ty::Bool,
            Val::String(_) => Ty::String,
            Val::Assign(_) => Ty::Assign,
            Val::Pointer(_) => Ty::Pointer,
            Val::Param(_) => Ty::Param,
            Val::Array(_) => Ty::Array,
            Val::Stack(_) => Ty::Stack,
            Val::Mul(_) => Ty::Mul,
            Val::Sum(_) => Ty::Sum,
            Val::Conditional(_) => Ty::Conditional,
        }
    }

    /// The kind of the value.
    pub open spec fn spec_ty(&self) -> Ty {
        match self {
            Val::Number(_) => Ty::Number,
            Val::Bool(_) => Ty::Bool,
            Val::String(_) => Ty::String,
            Val::Assign(_) => Ty::Assign,
            Val::Pointer(_) => Ty::Pointer,
            Val::Param(_) => Ty::Param,
            Val::Array(_) => Ty::Array,
            Val::Stack(_) => Ty::Stack,
            Val::Mul(_) => Ty::Mul,
            Val::Sum(_) => Ty::Sum,
            Val::Conditional(_) => Ty::Conditional,
        }
    }
}

} // verus!

//! Naming and composing experiments.

use crate::eval::Variables;
use crate::ir::{Node, NodeView};
use crate::json::{Value, ValueView};
use vstd::prelude::*;

verus! {

/// A named experiment: a tree of operations, and the overrides to put over
/// its outputs.
pub struct Plan {
    id: String,
    ast: Node,
    overrides: Option<Variables>,
}

/// The mathematical content of a [`Plan`].
pub struct PlanView {
    pub id: Seq<char>,
    pub ast: NodeView,
    pub overrides: Option<Map<Seq<char>, ValueView>>,
}

impl View for Plan {
    type V = PlanView;

    closed spec fn view(&self) -> PlanView {
        PlanView {
            id: self.id@,
            ast: self.ast@,
            overrides: match self.overrides {
                Some(o) => Some(o@),
                None => None,
            },
        }
    }
}

/// The name of a plan that was given none.
pub open spec fn no_name() -> Seq<char> {
    "no-name"@
}

impl Plan {
    /// A plan of the operations `ast`, without a name of its own and without
    /// overrides.
    pub fn new(ast: Node) -> (plan: Plan)
        ensures
            plan@ == (PlanView { id: no_name(), ast: ast@, overrides: None }),
    {
        Plan { id: "no-name".to_owned(), overrides: None, ast }
    }

    /// The same plan under the name `name`.
    pub fn name(self, name: &str) -> (plan: Plan)
        ensures
            plan@ == (PlanView { id: name@, ..self@ }),
    {
        Plan { id: name.to_owned(), ast: self.ast, overrides: self.overrides }
    }

    /// The same plan with `overrides` in place of those it had.
    pub fn overrides(self, overrides: Variables) -> (plan: Plan)
        ensures
            plan@ == (PlanView { overrides: Some(overrides@), ..self@ }),
    {
        Plan { id: self.id, ast: self.ast, overrides: Some(overrides) }
    }

    /// The name of the plan.
    pub fn id(&self) -> (id: &String)
        ensures
            id@ == self@.id,
    {
        &self.id
    }
}

/// What has a tree of operations to evaluate.
pub trait Experiment {
    /// The tree of operations.
    fn ast(&self) -> &Node;
}

impl Experiment for Plan {
    fn ast(&self) -> (ast: &Node)
        ensures
            ast@ == self@.ast,
    {
        &self.ast
    }
}

/// The parameters that an evaluation assigned.
pub struct Assignment {
    vars: Variables,
    experiment_id: Option<String>,
}

impl View for Assignment {
    type V = Map<Seq<char>, ValueView>;

    closed spec fn view(&self) -> Map<Seq<char>, ValueView> {
        self.vars@
    }
}

impl Assignment {
    /// The assignment of the parameters `vars`, by the experiment
    /// `experiment_id` if that is known.
    pub fn new(vars: Variables, experiment_id: Option<String>) -> (a: Assignment)
        ensures
            a@ == vars@,
    {
        Assignment { vars, experiment_id }
    }

    /// The value assigned to `parameter`, which has to be assigned.
    pub fn get(&self, parameter: &str) -> (value: Value)
        requires
            self@.contains_key(parameter@),
        ensures
            value@ == self@[parameter@],
    {
        self.vars.get(parameter).unwrap().clone()
    }
}

/// A part of the population, cut out by a variable.
pub struct Segment {
    variable: Option<String>,
    size: Option<usize>,
}

/// The mathematical content of a [`Segment`].
pub struct SegmentView {
    pub variable: Option<Seq<char>>,
    pub size: Option<usize>,
}

impl View for Segment {
    type V = SegmentView;

    closed spec fn view(&self) -> SegmentView {
        SegmentView {
            variable: match self.variable {
                Some(v) => Some(v@),
                None => None,
            },
            size: self.size,
        }
    }
}

impl Segment {
    /// The segment cut out by `variable`, of no size yet.
    pub fn variable(variable: &str) -> (segment: Segment)
        ensures
            segment@ == (SegmentView { variable: Some(variable@), size: None }),
    {
        Segment { variable: Some(variable.to_owned()), size: None }
    }

    /// The same segment with the size `size`.
    pub fn size(self, size: usize) -> (segment: Segment)
        ensures
            segment@ == (SegmentView { variable: self@.variable, size: Some(size) }),
    {
        Segment { variable: self.variable, size: Some(size) }
    }

    /// The variable that cuts the segment out.
    pub fn variable_name(&self) -> (name: Option<&String>)
        ensures
            match name {
                Some(n) => self@.variable == Some(n@),
                None => self@.variable is None,
            },
    {
        match &self.variable {
            Some(v) => Some(v),
            None => None,
        }
    }

    /// The size of the segment.
    pub fn length(&self) -> (size: Option<usize>)
        ensures
            size == self@.size,
    {
        self.size
    }
}

/// A namespace: a segment with the plans that run in it.
pub struct Meta {
    segment: Segment,
    plans: Vec<Plan>,
}

impl Meta {
    /// The segment of the namespace.
    pub closed spec fn spec_segment(&self) -> SegmentView {
        self.segment@
    }

    /// The plans of the namespace, in the order in which they were added.
    pub closed spec fn spec_plans(&self) -> Seq<PlanView> {
        Seq::new(self.plans@.len(), |i: int| self.plans@[i]@)
    }

    /// The namespace of `segment`, without plans.
    pub fn segment(segment: Segment) -> (meta: Meta)
        ensures
            meta.spec_segment() == segment@,
            meta.spec_plans() == Seq::<PlanView>::empty(),
    {
        let meta = Meta { segment, plans: Vec::new() };
        assert(meta.spec_plans() =~= Seq::<PlanView>::empty());
        meta
    }

    /// The same namespace with `plan` added behind its plans.
    pub fn plan(self, plan: Plan) -> (meta: Meta)
        ensures
            meta.spec_segment() == self.spec_segment(),
            meta.spec_plans() == self.spec_plans().push(plan@),
    {
        let ghost before = self.spec_plans();
        let mut plans = self.plans;
        plans.push(plan);
        let meta = Meta { segment: self.segment, plans };
        assert(meta.spec_plans() =~= before.push(plan@));
        meta
    }

    /// The number of plans in the namespace.
    pub fn plan_count(&self) -> (n: usize)
        ensures
            n == self.spec_plans().len(),
    {
        self.plans.len()
    }
}

} // verus!

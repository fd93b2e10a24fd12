//! The optimizer: rewrites the operations of a plan into values in which
//! known variables are inlined and the numeric factors of a product are
//! folded into one coefficient.

use crate::host::{callable, function_of, single_valued};
use crate::ir::{lemma_node_views, lemma_op_views, node_views, op_views, Node, NodeView, Op, OpView};
use crate::json::{Value, ValueView};
use crate::number::{combine, Number, Operation};
use crate::or::{copy_val, copy_vals, lemma_val_views, val_views, Assign, Mul, MulView, Param, Stack, Val, ValView};
use vstd::prelude::*;

verus! {

/// Why the optimizer gave up.
#[derive(Debug, Clone, Copy, PartialEq, Eq, Structural)]
pub enum OptError {
    /// A node that the optimizer does not take.
    Unsupported,
    /// An unsigned factor above the largest signed integer met a signed one.
    Conversion,
}

/// What is known of a variable.
#[derive(Debug, PartialEq)]
pub enum Var {
    /// Its one value.
    Val(Val),
    /// Its values on the branches of a conditional.
    Branch(Vec<Val>),
}

/// The mathematical content of a [`Var`].
pub enum VarView {
    Val(ValView),
    Branch(Seq<ValView>),
}

impl View for Var {
    type V = VarView;

    open spec fn view(&self) -> VarView {
        match self {
            Var::Val(v) => VarView::Val(v@),
            Var::Branch(vals) => VarView::Branch(val_views(vals@)),
        }
    }
}

impl Clone for Var {
    fn clone(&self) -> (out: Self)
        ensures
            out@ == self@,
    {
        match self {
            Var::Val(v) => Var::Val(copy_val(v)),
            Var::Branch(vals) => Var::Branch(copy_vals(vals)),
        }
    }
}

/// One binding of a variable.
pub struct Binding {
    name: String,
    var: Var,
}

/// What is known of the variables, each with its last binding.
pub struct State {
    inner: Vec<Binding>,
}

/// The content of a [`State`].
pub type Known = Map<Seq<char>, VarView>;

/// The mapping that a sequence of bindings stands for: a later binding
/// replaces an earlier one of the same name.
pub closed spec fn bound(bindings: Seq<Binding>) -> Known
    decreases bindings.len(),
{
    if bindings.len() == 0 {
        Map::empty()
    } else {
        bound(bindings.drop_last()).insert(bindings.last().name@, bindings.last().var@)
    }
}

proof fn lemma_bound_last(bindings: Seq<Binding>, key: Seq<char>, i: int)
    requires
        0 <= i < bindings.len(),
        bindings[i].name@ == key,
        forall|j: int| i < j < bindings.len() ==> (#[trigger] bindings[j]).name@ != key,
    ensures
        bound(bindings).contains_key(key),
        bound(bindings)[key] == bindings[i].var@,
    decreases bindings.len(),
{
    let front = bindings.drop_last();
    if i < bindings.len() - 1 {
        assert(bindings.last() == bindings[bindings.len() - 1]);
        assert(front[i] == bindings[i]);
        assert forall|j: int| i < j < front.len() implies (#[trigger] front[j]).name@ != key by {
            assert(front[j] == bindings[j]);
        }
        lemma_bound_last(front, key, i);
    }
}

proof fn lemma_bound_none(bindings: Seq<Binding>, key: Seq<char>)
    requires
        forall|j: int| 0 <= j < bindings.len() ==> (#[trigger] bindings[j]).name@ != key,
    ensures
        !bound(bindings).contains_key(key),
    decreases bindings.len(),
{
    if bindings.len() > 0 {
        let front = bindings.drop_last();
        assert(bindings.last() == bindings[bindings.len() - 1]);
        assert forall|j: int| 0 <= j < front.len() implies (#[trigger] front[j]).name@ != key by {
            assert(front[j] == bindings[j]);
        }
        lemma_bound_none(front, key);
    }
}

impl View for State {
    type V = Known;

    closed spec fn view(&self) -> Known {
        bound(self.inner@)
    }
}

impl Default for State {
    fn default() -> (state: Self)
        ensures
            state@ == Map::<Seq<char>, VarView>::empty(),
    {
        State { inner: Vec::new() }
    }
}

impl State {
    /// Binds `var` to the value `val`, in place of what it was bound to.
    pub fn insert(&mut self, var: &str, val: &Val)
        ensures
            final(self)@ == old(self)@.insert(var@, VarView::Val(val@)),
    {
        let ghost before = self.inner@;
        self.inner.push(Binding { name: var.to_owned(), var: Var::Val(copy_val(val)) });
        assert(self.inner@.drop_last() =~= before);
    }

    /// What `var` is bound to.
    pub fn get(&mut self, var: &str) -> (found: Option<Var>)
        ensures
            final(self)@ == old(self)@,
            match found {
                Some(v) => old(self)@.contains_key(var@) && old(self)@[var@] == v@,
                None => !old(self)@.contains_key(var@),
            },
    {
        let mut i: usize = self.inner.len();
        while i > 0
            invariant
                i <= self.inner.len(),
                forall|j: int| i <= j < self.inner.len() ==> (#[trigger] self.inner@[j]).name@ != var@,
            decreases i,
        {
            i -= 1;
            match crate::json::compare_keys(self.inner[i].name.as_str(), var) {
                crate::json::KeyOrder::Same => {
                    proof {
                        lemma_bound_last(self.inner@, var@, i as int);
                    }
                    return Some(self.inner[i].var.clone());
                },
                _ => {},
            }
        }
        proof {
            lemma_bound_none(self.inner@, var@);
        }
        None
    }
}

/// The numeric factors of one value: a number is one, a product has those of
/// its factors and then its coefficient, and nothing else has any.
pub open spec fn factors_of(val: ValView) -> Seq<Number>
    decreases val,
{
    match val {
        ValView::Number(n) => seq![n],
        ValView::Mul { base, rest } => factors(rest) + match base {
            Some(b) => seq![b],
            None => Seq::empty(),
        },
        _ => Seq::empty(),
    }
}

/// The numeric factors of a sequence of values, in the order in which they
/// are met.
pub open spec fn factors(vals: Seq<ValView>) -> Seq<Number>
    decreases vals,
{
    if vals.len() == 0 {
        Seq::empty()
    } else {
        factors(vals.drop_last()) + factors_of(vals.last())
    }
}

/// The factors of one value that are no numbers: those of a product are
/// those of its factors, a number has none, and anything else is one itself.
pub open spec fn residue_of(val: ValView) -> Seq<ValView>
    decreases val,
{
    match val {
        ValView::Number(_) => Seq::empty(),
        ValView::Mul { base, rest } => residue(rest),
        other => seq![other],
    }
}

/// The factors of a sequence of values that are no numbers, in the order in
/// which they are met.
pub open spec fn residue(vals: Seq<ValView>) -> Seq<ValView>
    decreases vals,
{
    if vals.len() == 0 {
        Seq::empty()
    } else {
        residue(vals.drop_last()) + residue_of(vals.last())
    }
}

/// The product of `acc` and the numbers `nums[i..]`, taken from left to right.
pub open spec fn fold_from(times: spec_fn(u64, u64) -> u64, nums: Seq<Number>, i: int, acc: Number) -> Option<
    Number,
>
    decreases nums.len() - i,
{
    if i < 0 || i >= nums.len() {
        Some(acc)
    } else {
        match combine(Operation::Times, times, acc, nums[i]) {
            Some(next) => fold_from(times, nums, i + 1, next),
            None => None,
        }
    }
}

/// The coefficient of a product with the numeric factors `nums`: none where
/// there is no factor, else their product from left to right.
pub open spec fn coefficient(times: spec_fn(u64, u64) -> u64, nums: Seq<Number>) -> Result<
    Option<Number>,
    OptError,
> {
    if nums.len() == 0 {
        Ok(None)
    } else {
        match fold_from(times, nums, 1, nums[0]) {
            Some(n) => Ok(Some(n)),
            None => Err(OptError::Conversion),
        }
    }
}

/// The product of `vals`, folded: nested products are flattened, the numeric
/// factors make the coefficient, and the others stay in the order in which
/// they are met.
pub open spec fn folded(times: spec_fn(u64, u64) -> u64, vals: Seq<ValView>) -> Result<MulView, OptError> {
    match coefficient(times, factors(vals)) {
        Ok(base) => Ok(MulView { base, rest: residue(vals) }),
        Err(e) => Err(e),
    }
}

/// The factors of a concatenation are those of its parts, one after the
/// other.
pub proof fn lemma_factors_concat(a: Seq<ValView>, b: Seq<ValView>)
    ensures
        factors(a + b) == factors(a) + factors(b),
        residue(a + b) == residue(a) + residue(b),
    decreases b.len(),
{
    if b.len() == 0 {
        assert(a + b =~= a);
        assert(factors(a) + factors(b) =~= factors(a));
        assert(residue(a) + residue(b) =~= residue(a));
    } else {
        assert((a + b).drop_last() =~= a + b.drop_last());
        assert((a + b).last() == b.last());
        lemma_factors_concat(a, b.drop_last());
        assert(factors(a + b) =~= factors(a) + factors(b));
        assert(residue(a + b) =~= residue(a) + residue(b));
    }
}

/// The factors of a sequence of one value are those of the value.
pub proof fn lemma_factors_single(val: ValView)
    ensures
        factors(seq![val]) == factors_of(val),
        residue(seq![val]) == residue_of(val),
{
    reveal_with_fuel(factors, 2);
    reveal_with_fuel(residue, 2);
    assert(seq![val].drop_last() =~= Seq::<ValView>::empty());
    assert(seq![val].last() == val);
    assert(factors(seq![val]) =~= factors_of(val));
    assert(residue(seq![val]) =~= residue_of(val));
}

/// Folding does not depend on the grouping of a product: a nested product
/// without a coefficient of its own folds as its factors do in its place.
pub proof fn lemma_folding_ignores_grouping(
    times: spec_fn(u64, u64) -> u64,
    before: Seq<ValView>,
    group: Seq<ValView>,
    after: Seq<ValView>,
)
    ensures
        folded(times, before + seq![ValView::Mul { base: None, rest: group }] + after) == folded(
            times,
            before + group + after,
        ),
{
    let nested = seq![ValView::Mul { base: None, rest: group }];
    lemma_factors_concat(before, nested);
    lemma_factors_concat(before + nested, after);
    lemma_factors_concat(before, group);
    lemma_factors_concat(before + group, after);
    lemma_factors_single(nested[0]);
    assert(factors_of(nested[0]) =~= factors(group));
    assert(factors(nested) =~= factors(group));
    assert(residue(nested) =~= residue(group));
}

/// A number among the factors of a product counts as the same number in a
/// nested product with that coefficient: `x * n` folds as `x * (n)` does.
pub proof fn lemma_folding_takes_coefficients(
    times: spec_fn(u64, u64) -> u64,
    before: Seq<ValView>,
    group: Seq<ValView>,
    n: Number,
    after: Seq<ValView>,
)
    ensures
        folded(times, before + seq![ValView::Mul { base: Some(n), rest: group }] + after) == folded(
            times,
            before + group + seq![ValView::Number(n)] + after,
        ),
{
    let nested = seq![ValView::Mul { base: Some(n), rest: group }];
    let single = seq![ValView::Number(n)];
    lemma_factors_concat(before, nested);
    lemma_factors_concat(before + nested, after);
    lemma_factors_concat(before, group);
    lemma_factors_concat(before + group, single);
    lemma_factors_concat(before + group + single, after);
    lemma_factors_single(nested[0]);
    lemma_factors_single(single[0]);
    assert(factors(nested) =~= factors(group) + seq![n]);
    assert(factors(single) =~= seq![n]);
    assert(residue(nested) =~= residue(group));
    assert(residue(single) =~= Seq::<ValView>::empty());
    assert(factors(before) + factors(nested) + factors(after) =~= factors(before) + factors(group) + factors(
        single,
    ) + factors(after));
    assert(residue(before) + residue(nested) + residue(after) =~= residue(before) + residue(group) + residue(
        single,
    ) + residue(after));
}


/// Whether every number of `nums` is a float.
pub open spec fn all_floats(nums: Seq<Number>) -> bool {
    forall|i: int| 0 <= i < nums.len() ==> (#[trigger] nums[i]) is F64
}

/// Whether a product of floats may be grouped at will.
pub open spec fn associative(times: spec_fn(u64, u64) -> u64) -> bool {
    forall|a: u64, b: u64, c: u64| #[trigger] times(times(a, b), c) == times(a, times(b, c))
}

/// Whether the factors of a product of floats may change places.
pub open spec fn commutative(times: spec_fn(u64, u64) -> u64) -> bool {
    forall|a: u64, b: u64| #[trigger] times(a, b) == times(b, a)
}

/// The bits of a float, 0 for a number that is none.
pub open spec fn bits(n: Number) -> u64 {
    match n {
        Number::F64(b) => b,
        _ => 0,
    }
}

/// The product of `acc` and the floats `nums[i..]`, taken from left to right.
pub open spec fn chain(times: spec_fn(u64, u64) -> u64, nums: Seq<Number>, i: int, acc: u64) -> u64
    decreases nums.len() - i,
{
    if i < 0 || i >= nums.len() {
        acc
    } else {
        chain(times, nums, i + 1, times(acc, bits(nums[i])))
    }
}

proof fn lemma_fold_is_chain(times: spec_fn(u64, u64) -> u64, nums: Seq<Number>, i: int, acc: u64)
    requires
        all_floats(nums),
        0 <= i <= nums.len(),
    ensures
        fold_from(times, nums, i, Number::F64(acc)) == Some(Number::F64(chain(times, nums, i, acc))),
    decreases nums.len() - i,
{
    if i < nums.len() {
        assert(nums[i] is F64);
        lemma_fold_is_chain(times, nums, i + 1, times(acc, bits(nums[i])));
    }
}

proof fn lemma_chain_split(times: spec_fn(u64, u64) -> u64, a: Seq<Number>, b: Seq<Number>, i: int, acc: u64)
    requires
        0 <= i <= a.len(),
    ensures
        chain(times, a + b, i, acc) == chain(times, b, 0, chain(times, a, i, acc)),
    decreases a.len() - i,
{
    if i < a.len() {
        assert((a + b)[i] == a[i]);
        lemma_chain_split(times, a, b, i + 1, times(acc, bits(a[i])));
    } else {
        lemma_chain_shift(times, a, b, 0, acc);
    }
}

proof fn lemma_chain_shift(times: spec_fn(u64, u64) -> u64, a: Seq<Number>, b: Seq<Number>, j: int, acc: u64)
    requires
        0 <= j <= b.len(),
    ensures
        chain(times, a + b, a.len() + j, acc) == chain(times, b, j, acc),
    decreases b.len() - j,
{
    if j < b.len() {
        assert((a + b)[a.len() + j] == b[j]);
        lemma_chain_shift(times, a, b, j + 1, times(acc, bits(b[j])));
    }
}

proof fn lemma_chain_grouped(times: spec_fn(u64, u64) -> u64, nums: Seq<Number>, i: int, x: u64, y: u64)
    requires
        associative(times),
        0 <= i <= nums.len(),
    ensures
        chain(times, nums, i, times(x, y)) == times(x, chain(times, nums, i, y)),
    decreases nums.len() - i,
{
    if i < nums.len() {
        let n = bits(nums[i]);
        assert(times(times(x, y), n) == times(x, times(y, n)));
        lemma_chain_grouped(times, nums, i + 1, x, times(y, n));
    }
}

/// Where the product of floats may be grouped at will, a group of float
/// factors may be folded first: the coefficient of `front` followed by `group`
/// is that of `front` followed by the coefficient of `group`.
pub proof fn lemma_coefficient_associative(
    times: spec_fn(u64, u64) -> u64,
    front: Seq<Number>,
    group: Seq<Number>,
)
    requires
        associative(times),
        all_floats(front),
        all_floats(group),
        front.len() > 0,
        group.len() > 0,
    ensures
        coefficient(times, group) is Ok,
        coefficient(times, group)->Ok_0 is Some,
        coefficient(times, front + group) == coefficient(times, front.push(coefficient(times, group)->Ok_0->Some_0)),
{
    let x0 = bits(front[0]);
    let y0 = bits(group[0]);
    assert(front[0] is F64 && group[0] is F64);
    lemma_fold_is_chain(times, group, 1, y0);
    let c = chain(times, group, 1, y0);
    let folded_group = Number::F64(c);
    let flat = front + group;
    let short = front.push(folded_group);
    assert(all_floats(flat)) by {
        assert forall|i: int| 0 <= i < flat.len() implies (#[trigger] flat[i]) is F64 by {
            if i < front.len() {
                assert(flat[i] == front[i]);
            } else {
                assert(flat[i] == group[i - front.len()]);
            }
        }
    }
    assert(all_floats(short)) by {
        assert forall|i: int| 0 <= i < short.len() implies (#[trigger] short[i]) is F64 by {
            if i < front.len() {
                assert(short[i] == front[i]);
            }
        }
    }
    assert(flat[0] == front[0] && short[0] == front[0]);
    lemma_fold_is_chain(times, flat, 1, x0);
    lemma_fold_is_chain(times, short, 1, x0);
    let x = chain(times, front, 1, x0);
    lemma_chain_split(times, front, group, 1, x0);
    assert(short =~= front + seq![folded_group]);
    lemma_chain_split(times, front, seq![folded_group], 1, x0);
    assert(chain(times, seq![folded_group], 0, x) == times(x, c)) by {
        reveal_with_fuel(chain, 2);
    }
    assert(chain(times, group, 0, x) == chain(times, group, 1, times(x, y0)));
    lemma_chain_grouped(times, group, 1, x, y0);
}

/// Where the product of floats may be grouped at will and its factors may
/// change places, two neighbouring float factors may change places: the
/// coefficient stays the same.
pub proof fn lemma_coefficient_commutative(times: spec_fn(u64, u64) -> u64, nums: Seq<Number>, i: int)
    requires
        associative(times),
        commutative(times),
        all_floats(nums),
        0 <= i < nums.len() - 1,
    ensures
        coefficient(times, nums) == coefficient(times, nums.update(i, nums[i + 1]).update(i + 1, nums[i])),
{
    let swapped = nums.update(i, nums[i + 1]).update(i + 1, nums[i]);
    let a = bits(nums[i]);
    let b = bits(nums[i + 1]);
    assert(all_floats(swapped)) by {
        assert forall|j: int| 0 <= j < swapped.len() implies (#[trigger] swapped[j]) is F64 by {
            assert(nums[j] is F64);
            assert(nums[i] is F64 && nums[i + 1] is F64);
        }
    }
    assert(nums[0] is F64 && swapped[0] is F64);
    lemma_fold_is_chain(times, nums, 1, bits(nums[0]));
    lemma_fold_is_chain(times, swapped, 1, bits(swapped[0]));
    if i == 0 {
        assert(times(a, b) == times(b, a));
        assert(chain(times, nums, 1, a) == chain(times, nums, 2, times(a, b)));
        assert(chain(times, swapped, 1, b) == chain(times, swapped, 2, times(b, a)));
        lemma_chain_same_tail(times, nums, swapped, 2, times(a, b));
    } else {
        lemma_chain_swap(times, nums, swapped, i, 1, bits(nums[0]));
    }
}

proof fn lemma_chain_same_tail(
    times: spec_fn(u64, u64) -> u64,
    one: Seq<Number>,
    other: Seq<Number>,
    from: int,
    acc: u64,
)
    requires
        one.len() == other.len(),
        0 <= from <= one.len(),
        forall|j: int| from <= j < one.len() ==> one[j] == other[j],
    ensures
        chain(times, one, from, acc) == chain(times, other, from, acc),
    decreases one.len() - from,
{
    if from < one.len() {
        lemma_chain_same_tail(times, one, other, from + 1, times(acc, bits(one[from])));
    }
}

proof fn lemma_chain_swap(
    times: spec_fn(u64, u64) -> u64,
    nums: Seq<Number>,
    swapped: Seq<Number>,
    i: int,
    from: int,
    acc: u64,
)
    requires
        associative(times),
        commutative(times),
        0 < from <= i < nums.len() - 1,
        swapped == nums.update(i, nums[i + 1]).update(i + 1, nums[i]),
    ensures
        chain(times, nums, from, acc) == chain(times, swapped, from, acc),
    decreases i - from,
{
    if from < i {
        assert(swapped[from] == nums[from]);
        lemma_chain_swap(times, nums, swapped, i, from + 1, times(acc, bits(nums[from])));
    } else {
        let a = bits(nums[i]);
        let b = bits(nums[i + 1]);
        assert(swapped[i] == nums[i + 1] && swapped[i + 1] == nums[i]);
        assert(chain(times, nums, i, acc) == chain(times, nums, i + 2, times(times(acc, a), b))) by {
            reveal_with_fuel(chain, 3);
        }
        assert(chain(times, swapped, i, acc) == chain(times, swapped, i + 2, times(times(acc, b), a))) by {
            reveal_with_fuel(chain, 3);
        }
        assert(times(times(acc, a), b) == times(acc, times(a, b)));
        assert(times(times(acc, b), a) == times(acc, times(b, a)));
        assert(times(a, b) == times(b, a));
        lemma_chain_same_tail(times, nums, swapped, i + 2, times(times(acc, a), b));
    }
}

/// The content of what folding returned.
pub open spec fn mul_result(r: Result<Mul, OptError>) -> Result<MulView, OptError> {
    match r {
        Ok(m) => Ok(m@),
        Err(e) => Err(e),
    }
}

/// The content of what the optimizer returned for one node.
pub open spec fn val_result(r: Result<Val, OptError>) -> Result<ValView, OptError> {
    match r {
        Ok(v) => Ok(v@),
        Err(e) => Err(e),
    }
}

proof fn lemma_views_push(vals: Seq<Val>, v: Val)
    ensures
        val_views(vals.push(v)) == val_views(vals).push(v@),
{
    assert(vals.push(v).drop_last() =~= vals);
}

proof fn lemma_views_concat(a: Seq<Val>, b: Seq<Val>)
    ensures
        val_views(a + b) == val_views(a) + val_views(b),
{
    lemma_val_views(a);
    lemma_val_views(b);
    lemma_val_views(a + b);
    assert(val_views(a + b) =~= val_views(a) + val_views(b));
}

proof fn lemma_prefix_step(vals: Seq<ValView>, i: int)
    requires
        0 <= i < vals.len(),
    ensures
        factors(vals.subrange(0, i + 1)) == factors(vals.subrange(0, i)) + factors_of(vals[i]),
        residue(vals.subrange(0, i + 1)) == residue(vals.subrange(0, i)) + residue_of(vals[i]),
{
    let next = vals.subrange(0, i + 1);
    assert(next.drop_last() =~= vals.subrange(0, i));
    assert(next.last() == vals[i]);
}

/// Splits `vals` into their numeric factors and the others, and flattens
/// nested products on the way.
#[verifier::loop_isolation(false)]
pub fn split_recursive(vals: &Vec<Val>) -> (parts: (Vec<Number>, Vec<Val>))
    ensures
        parts.0@ == factors(val_views(vals@)),
        val_views(parts.1@) == residue(val_views(vals@)),
    decreases vals,
{
    let ghost vv = val_views(vals@);
    proof {
        lemma_val_views(vals@);
    }
    let mut nums: Vec<Number> = Vec::new();
    let mut others: Vec<Val> = Vec::new();
    let mut i: usize = 0;
    assert(vv.subrange(0, 0) =~= Seq::<ValView>::empty());
    while i < vals.len()
        invariant
            i <= vals.len(),
            nums@ == factors(vv.subrange(0, i as int)),
            val_views(others@) == residue(vv.subrange(0, i as int)),
        decreases vals.len() - i,
    {
        proof {
            lemma_prefix_step(vv, i as int);
        }
        let ghost kept = others@;
        match &vals[i] {
            Val::Number(n) => {
                nums.push(*n);
                assert(nums@ =~= factors(vv.subrange(0, i as int)) + seq![*n]);
                assert(val_views(others@) =~= residue(vv.subrange(0, i as int)) + Seq::<ValView>::empty());
            },
            Val::Mul(m) => {
                let (mut l, mut r) = split_recursive(&m.rest);
                proof {
                    lemma_views_concat(kept, r@);
                }
                others.append(&mut r);
                nums.append(&mut l);
                match m.base {
                    Some(b) => {
                        nums.push(b);
                    },
                    None => {},
                }
                assert(nums@ =~= factors(vv.subrange(0, i as int)) + factors_of(vv[i as int]));
            },
            other => {
                proof {
                    lemma_views_push(kept, *other);
                }
                others.push(copy_val(other));
                proof {
                    lemma_views_push(kept, others@.last());
                    assert(others@ =~= kept.push(others@.last()));
                    assert(val_views(others@) =~= residue(vv.subrange(0, i as int)) + seq![other@]);
                }
            },
        }
        i += 1;
    }
    assert(vv.subrange(0, vals.len() as int) =~= vv);
    (nums, others)
}

/// Folds the product of `vals`: nested products are flattened, and the
/// numeric factors are multiplied into one coefficient.
#[verifier::loop_isolation(false)]
pub fn optimize_mul_transitive<F: Fn(u64, u64) -> u64>(vals: &Vec<Val>, times: &F) -> (r: Result<
    Mul,
    OptError,
>)
    requires
        callable(times),
    ensures
        single_valued(times) ==> mul_result(r) == folded(function_of(times), val_views(vals@)),
{
    let ghost float = function_of(times);
    let (nums, rest) = split_recursive(vals);
    if nums.len() == 0 {
        return Ok(Mul { base: None, rest });
    }
    let mut acc = nums[0];
    let mut i: usize = 1;
    while i < nums.len()
        invariant
            1 <= i <= nums.len(),
            single_valued(times) ==> fold_from(float, nums@, 1, nums@[0]) == fold_from(float, nums@, i as int, acc),
        decreases nums.len() - i,
    {
        match acc.mul(nums[i], times) {
            Some(next) => {
                acc = next;
            },
            None => {
                return Err(OptError::Conversion);
            },
        }
        i += 1;
    }
    Ok(Mul { base: Some(acc), rest })
}

/// Folds the product of `vals`.
pub fn optimize_mul<F: Fn(u64, u64) -> u64>(vals: &Vec<Val>, times: &F) -> (r: Result<Mul, OptError>)
    requires
        callable(times),
    ensures
        single_valued(times) ==> mul_result(r) == folded(function_of(times), val_views(vals@)),
{
    optimize_mul_transitive(vals, times)
}

/// What the optimizer makes of a node: the state after it, and its value or
/// the error that stopped the work.
pub struct Optimized {
    pub state: Known,
    pub result: Result<ValView, OptError>,
}

/// The value of one node under what `state` knows of the variables.
pub open spec fn opt_node(times: spec_fn(u64, u64) -> u64, state: Known, node: NodeView) -> Optimized
    decreases node, 0nat,
{
    match node {
        NodeView::Json(ValueView::Number(n)) => Optimized { state, result: Ok(ValView::Number(Number::of_json(n))) },
        NodeView::Json(ValueView::String(s)) => Optimized { state, result: Ok(ValView::String(s)) },
        NodeView::Json(ValueView::Bool(b)) => Optimized { state, result: Ok(ValView::Bool(b)) },
        NodeView::Json(_) => Optimized { state, result: Err(OptError::Unsupported) },
        NodeView::Op(op) => opt_op(times, state, op),
    }
}

/// The value of one operation. A read of a known variable is the value of
/// the variable, and of an unknown one a parameter. An assignment binds its
/// variable to the value assigned, whatever it was bound to. A product is
/// folded.
pub open spec fn opt_op(times: spec_fn(u64, u64) -> u64, state: Known, op: OpView) -> Optimized
    decreases op, 0nat,
{
    match op {
        OpView::Get { var } => if state.contains_key(var) {
            match state[var] {
                VarView::Val(v) => Optimized { state, result: Ok(v) },
                VarView::Branch(_) => Optimized { state, result: Err(OptError::Unsupported) },
            }
        } else {
            Optimized { state, result: Ok(ValView::Param { name: var }) }
        },
        OpView::SetVar { var, value } => {
            let r = opt_node(times, state, *value);
            match r.result {
                Ok(v) => Optimized {
                    state: r.state.insert(var, VarView::Val(v)),
                    result: Ok(ValView::Assign { var, value: Box::new(v) }),
                },
                Err(_) => r,
            }
        },
        OpView::Product { values } => {
            let r = opt_nodes(times, state, values, 0, Seq::empty());
            match r.1 {
                Ok(vals) => Optimized {
                    state: r.0,
                    result: match folded(times, vals) {
                        Ok(m) => Ok(ValView::Mul { base: m.base, rest: m.rest }),
                        Err(e) => Err(e),
                    },
                },
                Err(e) => Optimized { state: r.0, result: Err(e) },
            }
        },
        _ => Optimized { state, result: Err(OptError::Unsupported) },
    }
}

/// The values of the nodes `nodes[i..]` after the values `done`, each under
/// the state that the one before left.
pub open spec fn opt_nodes(
    times: spec_fn(u64, u64) -> u64,
    state: Known,
    nodes: Seq<NodeView>,
    i: int,
    done: Seq<ValView>,
) -> (Known, Result<Seq<ValView>, OptError>)
    decreases nodes, nodes.len() - i,
{
    if i < 0 || i >= nodes.len() {
        (state, Ok(done))
    } else {
        let r = opt_node(times, state, nodes[i]);
        match r.result {
            Ok(v) => opt_nodes(times, r.state, nodes, i + 1, done.push(v)),
            Err(e) => (r.state, Err(e)),
        }
    }
}

/// The values of the statements `ops[i..]` after the values `done`, one value
/// for each statement.
pub open spec fn opt_program(
    times: spec_fn(u64, u64) -> u64,
    state: Known,
    ops: Seq<OpView>,
    i: int,
    done: Seq<ValView>,
) -> Result<Seq<ValView>, OptError>
    decreases ops.len() - i,
{
    if i < 0 || i >= ops.len() {
        Ok(done)
    } else {
        let r = opt_op(times, state, ops[i]);
        match r.result {
            Ok(v) => opt_program(times, r.state, ops, i + 1, done.push(v)),
            Err(e) => Err(e),
        }
    }
}

/// Optimizes the factors of a product and folds them.
#[verifier::loop_isolation(false)]
pub fn optimize_product<F: Fn(u64, u64) -> u64>(values: &Vec<Node>, state: &mut State, times: &F) -> (r: Result<
    Mul,
    OptError,
>)
    requires
        callable(times),
    ensures
        single_valued(times) ==> ({
            let all = opt_nodes(function_of(times), old(state)@, node_views(values@), 0, Seq::empty());
            &&& final(state)@ == all.0
            &&& mul_result(r) == match all.1 {
                Ok(vals) => folded(function_of(times), vals),
                Err(e) => Err(e),
            }
        }),
    decreases values, 0nat,
{
    let ghost float = function_of(times);
    let ghost s0 = state@;
    let ghost nodes = node_views(values@);
    proof {
        lemma_node_views(values@);
    }
    let mut vals: Vec<Val> = Vec::new();
    let mut i: usize = 0;
    while i < values.len()
        invariant
            i <= values.len(),
            single_valued(times) ==> opt_nodes(float, s0, nodes, 0, Seq::empty()) == opt_nodes(
                float,
                state@,
                nodes,
                i as int,
                val_views(vals@),
            ),
        decreases values.len() - i,
    {
        let ghost before = vals@;
        match optimize_node(&values[i], state, times) {
            Ok(v) => {
                proof {
                    lemma_views_push(before, v);
                }
                vals.push(v);
            },
            Err(e) => {
                return Err(e);
            },
        }
        i += 1;
    }
    optimize_mul(&vals, times)
}

/// Optimizes one node under what `state` knows, and records in `state` what
/// the node assigns.
pub fn optimize_node<F: Fn(u64, u64) -> u64>(node: &Node, state: &mut State, times: &F) -> (r: Result<
    Val,
    OptError,
>)
    requires
        callable(times),
    ensures
        single_valued(times) ==> (Optimized { state: final(state)@, result: val_result(r) }) == opt_node(
            function_of(times),
            old(state)@,
            node@,
        ),
    decreases node, 0nat,
{
    match node {
        Node::Json(Value::Number(num)) => Ok(Val::Number(Number::from(*num))),
        Node::Json(Value::String(text)) => Ok(Val::String(text.clone())),
        Node::Json(Value::Bool(b)) => Ok(Val::Bool(*b)),
        Node::Json(_) => Err(OptError::Unsupported),
        Node::Op(op) => optimize_op(op, state, times),
    }
}

/// Optimizes one operation under what `state` knows, and records in `state`
/// what the operation assigns.
pub fn optimize_op<F: Fn(u64, u64) -> u64>(op: &Op, state: &mut State, times: &F) -> (r: Result<
    Val,
    OptError,
>)
    requires
        callable(times),
    ensures
        single_valued(times) ==> (Optimized { state: final(state)@, result: val_result(r) }) == opt_op(
            function_of(times),
            old(state)@,
            op@,
        ),
    decreases op, 0nat,
{
    match op {
        Op::Get(get) => {
            match state.get(get.var.as_str()) {
                None => Ok(Val::Param(Param { name: get.var.clone() })),
                Some(Var::Val(val)) => Ok(val),
                Some(Var::Branch(_)) => Err(OptError::Unsupported),
            }
        },
        Op::SetVar { var, value } => {
            match optimize_node(value, state, times) {
                Ok(val) => {
                    state.insert(var.as_str(), &val);
                    Ok(Val::Assign(Assign { var: var.clone(), value: Box::new(val) }))
                },
                Err(e) => Err(e),
            }
        },
        Op::Product { values } => {
            match optimize_product(values, state, times) {
                Ok(m) => Ok(Val::Mul(m)),
                Err(e) => Err(e),
            }
        },
        _ => Err(OptError::Unsupported),
    }
}

/// Optimizes the statements of a program, one value for each in source
/// order, from a state that knows nothing.
#[verifier::loop_isolation(false)]
pub fn optimize<F: Fn(u64, u64) -> u64>(nodes: &Vec<Op>, times: &F) -> (r: Result<Stack, OptError>)
    requires
        callable(times),
    ensures
        single_valued(times) ==> match opt_program(
            function_of(times),
            Map::empty(),
            op_views(nodes@),
            0,
            Seq::empty(),
        ) {
            Ok(vals) => r matches Ok(stack) && stack@ == vals,
            Err(e) => r == Err::<Stack, OptError>(e),
        },
{
    let ghost float = function_of(times);
    let ghost ops = op_views(nodes@);
    proof {
        lemma_op_views(nodes@);
    }
    let mut state = State::default();
    let mut stack: Vec<Val> = Vec::new();
    let mut i: usize = 0;
    while i < nodes.len()
        invariant
            i <= nodes.len(),
            single_valued(times) ==> opt_program(float, Map::empty(), ops, 0, Seq::empty()) == opt_program(
                float,
                state@,
                ops,
                i as int,
                val_views(stack@),
            ),
        decreases nodes.len() - i,
    {
        let ghost before = stack@;
        match optimize_op(&nodes[i], &mut state, times) {
            Ok(v) => {
                proof {
                    lemma_views_push(before, v);
                }
                stack.push(v);
            },
            Err(e) => {
                return Err(e);
            },
        }
        i += 1;
    }
    Ok(Stack { inner: stack })
}

} // verus!

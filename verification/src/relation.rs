//! Relational expressions: a recursively-defined tree (with explicit shared
//! bindings through `Let`/`Get`) describing a query plan, its abstract mirror
//! for specifications, per-column nullability (the schema view the analysis
//! consumes), and the well-formedness invariants of a plan.

use vstd::prelude::*;
use crate::scalar::{Datum, ScalarExpr};

verus! {

/// A binding identifier: local bindings are scoped by an enclosing `Let`,
/// global ones name external collections.
#[derive(Clone, Copy, PartialEq, Eq, Structural, Debug)]
pub enum Id {
    Local(u64),
    Global(u64),
}

/// A table-valued function, as far as the analysis reads it: whether a null
/// argument is guaranteed to produce zero output rows, and the columns it
/// appends.
#[derive(Clone, Copy, PartialEq, Eq, Structural, Debug)]
pub enum TableFunc {
    /// A sequence of integers between two bounds; null bounds yield no rows.
    GenerateSeriesInt64,
    /// Reshapes a row into several shorter rows; emits output even for null
    /// arguments.
    Wrap { width: usize },
}

impl TableFunc {
    /// Whether the function is guaranteed to produce zero output rows
    /// whenever any of its arguments is null.
    pub open spec fn empty_on_null_input_spec(self) -> bool {
        self == TableFunc::GenerateSeriesInt64
    }

    pub fn empty_on_null_input(&self) -> (r: bool)
        ensures
            r == self.empty_on_null_input_spec(),
    {
        match self {
            TableFunc::GenerateSeriesInt64 => true,
            TableFunc::Wrap { .. } => false,
        }
    }

    /// Nullability of the columns the function appends.
    pub open spec fn output_typ_spec(self) -> Seq<bool> {
        match self {
            TableFunc::GenerateSeriesInt64 => seq![false],
            TableFunc::Wrap { width } => Seq::new(width as nat, |i: int| true),
        }
    }

    pub fn output_typ(&self) -> (r: Vec<bool>)
        ensures
            r@ == self.output_typ_spec(),
    {
        match self {
            TableFunc::GenerateSeriesInt64 => {
                let mut v: Vec<bool> = Vec::new();
                v.push(false);
                proof {
                    assert(v@ =~= self.output_typ_spec());
                }
                v
            },
            TableFunc::Wrap { width } => {
                let w = *width;
                let mut v: Vec<bool> = Vec::new();
                let mut i: usize = 0;
                while i < w
                    invariant
                        0 <= i <= w,
                        v@ == Seq::new(i as nat, |j: int| true),
                    decreases w - i,
                {
                    v.push(true);
                    proof {
                        assert(v@ =~= Seq::new((i + 1) as nat, |j: int| true));
                    }
                    i += 1;
                }
                v
            },
        }
    }
}

/// An aggregate computation inside `Reduce`.
#[derive(PartialEq, Eq, Debug)]
pub struct AggregateExpr {
    /// The argument expression over the input's columns.
    pub expr: ScalarExpr,
    /// Whether duplicates are collapsed before aggregating.
    pub distinct: bool,
}

/// A relational expression. `typ` fields and the derived schema hold one
/// nullability flag per output column.
#[derive(PartialEq, Eq, Debug)]
pub enum RelationExpr {
    /// An explicit collection of (row, multiplicity) pairs plus its schema.
    Constant { rows: Vec<(Vec<Datum>, isize)>, typ: Vec<bool> },
    /// A reference to a bound collection.
    Get { id: Id, typ: Vec<bool> },
    /// A binding `id -> value`, visible to `Get`s inside `body`.
    Let { id: u64, value: Box<RelationExpr>, body: Box<RelationExpr> },
    /// Re-orders or subsets columns: `outputs[i]` is the source column of
    /// output position `i`.
    Project { input: Box<RelationExpr>, outputs: Vec<usize> },
    /// The map operator: appends computed columns after the input's columns.
    MapCols { input: Box<RelationExpr>, scalars: Vec<ScalarExpr> },
    /// Appends the columns of a table-valued function of scalar arguments.
    FlatMap { input: Box<RelationExpr>, func: TableFunc, exprs: Vec<ScalarExpr> },
    /// Keeps rows where all predicates evaluate to true.
    Filter { input: Box<RelationExpr>, predicates: Vec<ScalarExpr> },
    /// An n-ary join; output columns are the concatenation of all inputs'
    /// columns in order; each equivalence class asserts its members equal.
    Join { inputs: Vec<RelationExpr>, equivalences: Vec<Vec<ScalarExpr>> },
    /// Groups by `group_key`, producing one column per key expression
    /// followed by one column per aggregate.
    Reduce { input: Box<RelationExpr>, group_key: Vec<ScalarExpr>, aggregates: Vec<AggregateExpr> },
    /// Schema-preserving row selection.
    TopK { input: Box<RelationExpr> },
    /// Negates multiplicities.
    Negate { input: Box<RelationExpr> },
    /// Keeps rows with positive multiplicity.
    Threshold { input: Box<RelationExpr> },
    /// One `base` plus further union-compatible branches.
    Union { base: Box<RelationExpr>, inputs: Vec<RelationExpr> },
    /// Schema-preserving arrangement hint.
    ArrangeBy { input: Box<RelationExpr> },
}

/// The abstract mirror of `RelationExpr`, used by all specifications.
#[verifier::ext_equal]
pub enum Plan {
    Constant { rows: Seq<(Seq<Datum>, isize)>, typ: Seq<bool> },
    Get { id: Id, typ: Seq<bool> },
    Let { id: u64, value: Box<Plan>, body: Box<Plan> },
    Project { input: Box<Plan>, outputs: Seq<usize> },
    MapCols { input: Box<Plan>, scalars: Seq<ScalarExpr> },
    FlatMap { input: Box<Plan>, func: TableFunc, exprs: Seq<ScalarExpr> },
    Filter { input: Box<Plan>, predicates: Seq<ScalarExpr> },
    Join { inputs: Seq<Plan>, equivalences: Seq<Seq<ScalarExpr>> },
    Reduce { input: Box<Plan>, group_key: Seq<ScalarExpr>, aggregates: Seq<AggregateExpr> },
    TopK { input: Box<Plan> },
    Negate { input: Box<Plan> },
    Threshold { input: Box<Plan> },
    Union { base: Box<Plan>, inputs: Seq<Plan> },
    ArrangeBy { input: Box<Plan> },
}

/// The abstract rows of a constant collection.
pub open spec fn row_views(rows: Seq<(Vec<Datum>, isize)>) -> Seq<(Seq<Datum>, isize)> {
    Seq::new(rows.len(), |i: int| (rows[i].0@, rows[i].1))
}

/// The abstract equivalence classes of a join.
pub open spec fn class_views(classes: Seq<Vec<ScalarExpr>>) -> Seq<Seq<ScalarExpr>> {
    Seq::new(classes.len(), |i: int| classes[i]@)
}

impl RelationExpr {
    /// The abstract plan this tree stands for.
    pub open spec fn plan(self) -> Plan
        decreases self, 0int,
    {
        match self {
            RelationExpr::Constant { rows, typ } => Plan::Constant {
                rows: row_views(rows@),
                typ: typ@,
            },
            RelationExpr::Get { id, typ } => Plan::Get { id, typ: typ@ },
            RelationExpr::Let { id, value, body } => Plan::Let {
                id,
                value: Box::new(value.plan()),
                body: Box::new(body.plan()),
            },
            RelationExpr::Project { input, outputs } => Plan::Project {
                input: Box::new(input.plan()),
                outputs: outputs@,
            },
            RelationExpr::MapCols { input, scalars } => Plan::MapCols {
                input: Box::new(input.plan()),
                scalars: scalars@,
            },
            RelationExpr::FlatMap { input, func, exprs } => Plan::FlatMap {
                input: Box::new(input.plan()),
                func,
                exprs: exprs@,
            },
            RelationExpr::Filter { input, predicates } => Plan::Filter {
                input: Box::new(input.plan()),
                predicates: predicates@,
            },
            RelationExpr::Join { inputs, equivalences } => Plan::Join {
                inputs: plans_from(inputs@, 0),
                equivalences: class_views(equivalences@),
            },
            RelationExpr::Reduce { input, group_key, aggregates } => Plan::Reduce {
                input: Box::new(input.plan()),
                group_key: group_key@,
                aggregates: aggregates@,
            },
            RelationExpr::TopK { input } => Plan::TopK { input: Box::new(input.plan()) },
            RelationExpr::Negate { input } => Plan::Negate { input: Box::new(input.plan()) },
            RelationExpr::Threshold { input } => Plan::Threshold { input: Box::new(input.plan()) },
            RelationExpr::Union { base, inputs } => Plan::Union {
                base: Box::new(base.plan()),
                inputs: plans_from(inputs@, 0),
            },
            RelationExpr::ArrangeBy { input } => Plan::ArrangeBy { input: Box::new(input.plan()) },
        }
    }
}

/// The abstract plans of the trees from index `k` on.
pub open spec fn plans_from(v: Seq<RelationExpr>, k: int) -> Seq<Plan>
    decreases v, v.len() - k + 1,
{
    if k < 0 || k >= v.len() {
        Seq::empty()
    } else {
        seq![v[k].plan()] + plans_from(v, k + 1)
    }
}

/// `plans_from(v, 0)` mirrors `v` element by element.
pub proof fn lemma_plans_from(v: Seq<RelationExpr>, k: int)
    requires
        0 <= k <= v.len(),
    ensures
        plans_from(v, k).len() == v.len() - k,
        forall|i: int| k <= i < v.len() ==> plans_from(v, k)[i - k] == v[i].plan(),
    decreases v.len() - k,
{
    if k < v.len() {
        lemma_plans_from(v, k + 1);
    }
}

impl View for RelationExpr {
    type V = Plan;

    open spec fn view(&self) -> Plan {
        self.plan()
    }
}

/// Per-column nullability of a plan's output schema; its length is the
/// plan's arity.
pub open spec fn typ_of(t: Plan) -> Seq<bool>
    decreases t, 0int,
{
    match t {
        Plan::Constant { rows, typ } => typ,
        Plan::Get { id, typ } => typ,
        Plan::Let { id, value, body } => typ_of(*body),
        Plan::Project { input, outputs } => {
            let it = typ_of(*input);
            Seq::new(outputs.len(), |i: int| if 0 <= outputs[i] < it.len() {
                it[outputs[i] as int]
            } else {
                true
            })
        },
        Plan::MapCols { input, scalars } => ext_typ(typ_of(*input), scalars, 0),
        Plan::FlatMap { input, func, exprs } => typ_of(*input) + func.output_typ_spec(),
        Plan::Filter { input, predicates } => typ_of(*input),
        Plan::Join { inputs, equivalences } => input_typs(inputs, 0).flatten(),
        Plan::Reduce { input, group_key, aggregates } => {
            let it = typ_of(*input);
            Seq::new(group_key.len(), |i: int| group_key[i].nullable_spec(it))
                + Seq::new(aggregates.len(), |i: int| true)
        },
        Plan::TopK { input } => typ_of(*input),
        Plan::Negate { input } => typ_of(*input),
        Plan::Threshold { input } => typ_of(*input),
        Plan::Union { base, inputs } => typ_of(*base),
        Plan::ArrangeBy { input } => typ_of(*input),
    }
}

/// The input schema extended with the nullability of each appended column,
/// from index `k` on; a later column may reference an earlier appended one.
pub open spec fn ext_typ(t: Seq<bool>, scalars: Seq<ScalarExpr>, k: int) -> Seq<bool>
    decreases scalars.len() - k,
{
    if k < 0 || k >= scalars.len() {
        t
    } else {
        ext_typ(t.push(scalars[k].nullable_spec(t)), scalars, k + 1)
    }
}

/// The schemas of the join inputs from index `k` on.
pub open spec fn input_typs(inputs: Seq<Plan>, k: int) -> Seq<Seq<bool>>
    decreases inputs, inputs.len() - k + 1,
{
    if k < 0 || k >= inputs.len() {
        Seq::empty()
    } else {
        seq![typ_of(inputs[k])] + input_typs(inputs, k + 1)
    }
}

/// `input_typs(v, 0)` holds each input's schema, in order.
pub proof fn lemma_input_typs(v: Seq<Plan>, k: int)
    requires
        0 <= k <= v.len(),
    ensures
        input_typs(v, k).len() == v.len() - k,
        forall|i: int| k <= i < v.len() ==> input_typs(v, k)[i - k] == typ_of(v[i]),
    decreases v.len() - k,
{
    if k < v.len() {
        lemma_input_typs(v, k + 1);
    }
}

/// Output column count of a plan.
pub open spec fn arity_of(t: Plan) -> int {
    typ_of(t).len() as int
}

/// `ext_typ` only appends: length and the input prefix are kept.
pub proof fn lemma_ext_typ(t: Seq<bool>, scalars: Seq<ScalarExpr>, k: int)
    requires
        0 <= k <= scalars.len(),
    ensures
        ext_typ(t, scalars, k).len() == t.len() + scalars.len() - k,
    decreases scalars.len() - k,
{
    if k < scalars.len() {
        lemma_ext_typ(t.push(scalars[k].nullable_spec(t)), scalars, k + 1);
    }
}


/// Structural well-formedness: every column reference is within its input's
/// arity, constant rows match their schema, union branches are
/// union-compatible, and every arity fits the machine's word.
pub open spec fn wf_shape(t: Plan) -> bool
    decreases t, 0int,
{
    arity_of(t) <= usize::MAX && match t {
        Plan::Constant { rows, typ } => forall|i: int|
            0 <= i < rows.len() ==> (#[trigger] rows[i]).0.len() == typ.len(),
        Plan::Get { id, typ } => true,
        Plan::Let { id, value, body } => wf_shape(*value) && wf_shape(*body),
        Plan::Project { input, outputs } => wf_shape(*input) && forall|i: int|
            0 <= i < outputs.len() ==> (#[trigger] outputs[i]) < arity_of(*input),
        Plan::MapCols { input, scalars } => wf_shape(*input) && forall|i: int|
            0 <= i < scalars.len()
                ==> (#[trigger] scalars[i]).cols_bounded(arity_of(*input) + i),
        Plan::FlatMap { input, func, exprs } => wf_shape(*input) && forall|i: int|
            0 <= i < exprs.len() ==> (#[trigger] exprs[i]).cols_bounded(arity_of(*input)),
        Plan::Filter { input, predicates } => wf_shape(*input) && forall|i: int|
            0 <= i < predicates.len()
                ==> (#[trigger] predicates[i]).cols_bounded(arity_of(*input)),
        Plan::Join { inputs, equivalences } => wf_shape_children(inputs, 0)
            && forall|k: int, j: int|
                0 <= k < equivalences.len() && 0 <= j < equivalences[k].len()
                    ==> (#[trigger] equivalences[k][j]).cols_bounded(
                        input_typs(inputs, 0).flatten().len() as int,
                    ),
        Plan::Reduce { input, group_key, aggregates } => wf_shape(*input)
            && (forall|i: int|
                0 <= i < group_key.len()
                    ==> (#[trigger] group_key[i]).cols_bounded(arity_of(*input)))
            && (forall|i: int|
                0 <= i < aggregates.len()
                    ==> (#[trigger] aggregates[i]).expr.cols_bounded(arity_of(*input))),
        Plan::TopK { input } => wf_shape(*input),
        Plan::Negate { input } => wf_shape(*input),
        Plan::Threshold { input } => wf_shape(*input),
        Plan::Union { base, inputs } => wf_shape(*base) && wf_shape_children(inputs, 0)
            && forall|i: int|
                0 <= i < inputs.len() ==> arity_of(#[trigger] inputs[i]) == arity_of(*base),
        Plan::ArrangeBy { input } => wf_shape(*input),
    }
}

/// Structural well-formedness of the children from index `k` on.
pub open spec fn wf_shape_children(v: Seq<Plan>, k: int) -> bool
    decreases v, v.len() - k + 1,
{
    k < 0 || k >= v.len() || (wf_shape(v[k]) && wf_shape_children(v, k + 1))
}

pub proof fn lemma_wf_shape_children(v: Seq<Plan>, k: int)
    requires
        0 <= k <= v.len(),
        wf_shape_children(v, k),
    ensures
        forall|i: int| k <= i < v.len() ==> wf_shape(#[trigger] v[i]),
    decreases v.len() - k,
{
    if k < v.len() {
        lemma_wf_shape_children(v, k + 1);
    }
}

/// Binding consistency: the stated schema of a locally bound `Get` agrees
/// with the arity of the binding's value. `env` carries the arity of each
/// local binding in scope.
pub open spec fn wf_binds(t: Plan, env: Map<u64, int>) -> bool
    decreases t, 0int,
{
    match t {
        Plan::Constant { rows, typ } => true,
        Plan::Get { id, typ } => match id {
            Id::Local(l) => env.contains_key(l) ==> typ.len() as int == env[l],
            Id::Global(_) => true,
        },
        Plan::Let { id, value, body } => wf_binds(*value, env)
            && wf_binds(*body, env.insert(id, arity_of(*value))),
        Plan::Project { input, outputs } => wf_binds(*input, env),
        Plan::MapCols { input, scalars } => wf_binds(*input, env),
        Plan::FlatMap { input, func, exprs } => wf_binds(*input, env),
        Plan::Filter { input, predicates } => wf_binds(*input, env),
        Plan::Join { inputs, equivalences } => wf_binds_children(inputs, env, 0),
        Plan::Reduce { input, group_key, aggregates } => wf_binds(*input, env),
        Plan::TopK { input } => wf_binds(*input, env),
        Plan::Negate { input } => wf_binds(*input, env),
        Plan::Threshold { input } => wf_binds(*input, env),
        Plan::Union { base, inputs } => wf_binds(*base, env) && wf_binds_children(inputs, env, 0),
        Plan::ArrangeBy { input } => wf_binds(*input, env),
    }
}

/// Binding consistency of the children from index `k` on.
pub open spec fn wf_binds_children(v: Seq<Plan>, env: Map<u64, int>, k: int) -> bool
    decreases v, v.len() - k + 1,
{
    k < 0 || k >= v.len() || (wf_binds(v[k], env) && wf_binds_children(v, env, k + 1))
}

pub proof fn lemma_wf_binds_children(v: Seq<Plan>, env: Map<u64, int>, k: int)
    requires
        0 <= k <= v.len(),
        wf_binds_children(v, env, k),
    ensures
        forall|i: int| k <= i < v.len() ==> wf_binds(#[trigger] v[i], env),
    decreases v.len() - k,
{
    if k < v.len() {
        lemma_wf_binds_children(v, env, k + 1);
    }
}

/// A plan fit to be analyzed: structurally well-formed, with binding
/// schemas consistent under no outer bindings.
pub open spec fn wf(t: Plan) -> bool {
    wf_shape(t) && wf_binds(t, Map::empty())
}

/// An element-wise copy.
fn copy_bools(v: &Vec<bool>) -> (r: Vec<bool>)
    ensures
        r@ == v@,
{
    let n = v.len();
    let mut out: Vec<bool> = Vec::new();
    let mut i: usize = 0;
    while i < n
        invariant
            0 <= i <= n,
            n == v@.len(),
            out@ == v@.take(i as int),
        decreases n - i,
    {
        out.push(v[i]);
        proof {
            assert(out@ =~= v@.take(i + 1));
        }
        i += 1;
    }
    proof {
        assert(v@.take(n as int) =~= v@);
    }
    out
}

impl RelationExpr {
    /// Per-column nullability of this plan's output schema.
    #[verifier::loop_isolation(false)]
    pub fn typ(&self) -> (r: Vec<bool>)
        requires
            wf_shape(self@),
        ensures
            r@ == typ_of(self@),
        decreases self,
    {
        match self {
            RelationExpr::Constant { rows, typ } => copy_bools(typ),
            RelationExpr::Get { id, typ } => copy_bools(typ),
            RelationExpr::Let { id, value, body } => body.typ(),
            RelationExpr::Project { input, outputs } => {
                let it = input.typ();
                let ghost target = typ_of(self@);
                let n = outputs.len();
                let mut out: Vec<bool> = Vec::new();
                let mut i: usize = 0;
                while i < n
                    invariant
                        0 <= i <= n,
                        n == outputs@.len(),
                        it@ == typ_of(input@),
                        wf_shape(self@),
                        self@ == (Plan::Project {
                            input: Box::new(input@),
                            outputs: outputs@,
                        }),
                        target == typ_of(self@),
                        out@.len() == i,
                        forall|j: int| 0 <= j < i ==> out@[j] == target[j],
                    decreases n - i,
                {
                    out.push(it[outputs[i]]);
                    i += 1;
                }
                proof {
                    assert(out@ =~= target);
                }
                out
            },
            RelationExpr::MapCols { input, scalars } => {
                let mut t = input.typ();
                let ghost arity_in = arity_of(input@);
                let n = scalars.len();
                let mut k: usize = 0;
                while k < n
                    invariant
                        0 <= k <= n,
                        n == scalars@.len(),
                        wf_shape(self@),
                        self@ == (Plan::MapCols {
                            input: Box::new(input@),
                            scalars: scalars@,
                        }),
                        t@.len() == arity_in + k,
                        arity_in == arity_of(input@),
                        ext_typ(t@, scalars@, k as int) == typ_of(self@),
                    decreases n - k,
                {
                    let b = scalars[k].nullable(&t);
                    t.push(b);
                    k += 1;
                }
                t
            },
            RelationExpr::FlatMap { input, func, exprs } => {
                let mut t = input.typ();
                let mut o = func.output_typ();
                t.append(&mut o);
                t
            },
            RelationExpr::Filter { input, predicates } => input.typ(),
            RelationExpr::Join { inputs, equivalences } => {
                let ghost plans = plans_from(inputs@, 0);
                proof {
                    lemma_plans_from(inputs@, 0);
                    lemma_wf_shape_children(plans, 0);
                    lemma_input_typs(plans, 0);
                }
                let n = inputs.len();
                let mut acc: Vec<bool> = Vec::new();
                let mut i: usize = 0;
                while i < n
                    invariant
                        0 <= i <= n,
                        n == inputs@.len(),
                        wf_shape(self@),
                        self@ == (Plan::Join {
                            inputs: plans,
                            equivalences: class_views(equivalences@),
                        }),
                        plans == plans_from(inputs@, 0),
                        plans.len() == n,
                        forall|j: int| 0 <= j < n ==> plans[j] == inputs@[j]@,
                        forall|j: int| 0 <= j < n ==> wf_shape(#[trigger] plans[j]),
                        acc@ == input_typs(plans, 0).subrange(0, i as int).flatten(),
                    decreases n - i,
                {
                    proof {
                        assert(*self == (RelationExpr::Join {
                            inputs: *inputs,
                            equivalences: *equivalences,
                        }));
                        assert(decreases_to!(*self => self->Join_inputs));
                        assert(self->Join_inputs == *inputs);
                        let ghost sq = inputs@;
                        assert(decreases_to!(*inputs => sq));
                        assert(decreases_to!(sq => sq[i as int]));
                        assert(decreases_to!(*self => inputs@[i as int]));
                    }
                    let ti = inputs[i].typ();
                    let ghost acc0 = acc@;
                    let mut tim = ti;
                    acc.append(&mut tim);
                    proof {
                        lemma_input_typs(plans, 0);
                        let typs = input_typs(plans, 0);
                        assert(typs.subrange(0, i + 1).drop_last() =~= typs.subrange(0, i as int));
                        typs.subrange(0, i + 1).lemma_flatten_and_flatten_alt_are_equivalent();
                        typs.subrange(0, i as int).lemma_flatten_and_flatten_alt_are_equivalent();
                        assert(typs.subrange(0, i + 1).flatten_alt()
                            == typs.subrange(0, i + 1).drop_last().flatten_alt()
                                + typs.subrange(0, i + 1).last());
                        assert(acc@ =~= typs.subrange(0, i + 1).flatten());
                    }
                    i += 1;
                }
                proof {
                    let typs = input_typs(plans, 0);
                    assert(typs.subrange(0, n as int) =~= typs);
                    assert(acc@ == typ_of(self@));
                }
                acc
            },
            RelationExpr::Reduce { input, group_key, aggregates } => {
                let it = input.typ();
                let ghost target = typ_of(self@);
                let gn = group_key.len();
                let an = aggregates.len();
                let mut out: Vec<bool> = Vec::new();
                let mut i: usize = 0;
                while i < gn
                    invariant
                        0 <= i <= gn,
                        gn == group_key@.len(),
                        an == aggregates@.len(),
                        it@ == typ_of(input@),
                        wf_shape(self@),
                        self@ == (Plan::Reduce {
                            input: Box::new(input@),
                            group_key: group_key@,
                            aggregates: aggregates@,
                        }),
                        target == typ_of(self@),
                        out@.len() == i,
                        forall|j: int| 0 <= j < i ==> out@[j] == target[j],
                    decreases gn - i,
                {
                    let b = group_key[i].nullable(&it);
                    out.push(b);
                    i += 1;
                }
                let mut a: usize = 0;
                while a < an
                    invariant
                        0 <= a <= an,
                        gn == group_key@.len(),
                        an == aggregates@.len(),
                        target == typ_of(self@),
                        target.len() == gn + an,
                        forall|j: int| gn <= j < gn + an ==> target[j] == true,
                        out@.len() == gn + a,
                        forall|j: int| 0 <= j < gn + a ==> out@[j] == target[j],
                    decreases an - a,
                {
                    out.push(true);
                    a += 1;
                }
                proof {
                    assert(out@ =~= target);
                }
                out
            },
            RelationExpr::TopK { input } => input.typ(),
            RelationExpr::Negate { input } => input.typ(),
            RelationExpr::Threshold { input } => input.typ(),
            RelationExpr::Union { base, inputs } => base.typ(),
            RelationExpr::ArrangeBy { input } => input.typ(),
        }
    }

    /// Output column count.
    pub fn arity(&self) -> (r: usize)
        requires
            wf_shape(self@),
        ensures
            r as int == arity_of(self@),
    {
        self.typ().len()
    }
}

} // verus!

//! The requirement-propagation pass: a single top-down-then-bottom-up walk
//! that threads a working column-requirement set downward, records the sets
//! observed at each `Get` in a side-table, prunes constant rows that violate
//! a requirement, and collapses a `Map` whose required computed column is a
//! null literal.
//!
//! The functional specification lives in `prune` (the transformed plan) and
//! `uses` (the requirement sets recorded against each binding, in traversal
//! order); `merge` states the side-table after a call.

use vstd::prelude::*;
use crate::columns::ColumnSet;
use crate::columns::bounded;
use crate::scalar::Datum;
use crate::scalar::ScalarExpr;
use crate::relation::Id;
use crate::relation::Plan;
use crate::relation::RelationExpr;
use crate::relation::arity_of;
use crate::relation::typ_of;
use crate::relation::input_typs;
use crate::relation::wf_shape;
use crate::relation::wf_binds;
use crate::relation::wf_shape_children;
use crate::relation::wf_binds_children;
use crate::relation::lemma_input_typs;
use crate::relation::lemma_wf_shape_children;
use crate::relation::lemma_wf_binds_children;
use crate::gets::GetsTable;

verus! {

/// A row satisfies a requirement set when it is non-null at every required
/// column.
pub open spec fn row_ok(row: Seq<Datum>, reqs: Set<usize>) -> bool {
    forall|c: usize| reqs.contains(c) ==> c < row.len() && row[c as int] != Datum::Null
}

/// The rows kept when a constant collection is pruned: exactly those that
/// satisfy the requirement set, in order.
pub open spec fn keep_rows(rows: Seq<(Seq<Datum>, isize)>, reqs: Set<usize>) -> Seq<
    (Seq<Datum>, isize),
>
    decreases rows.len(),
{
    if rows.len() == 0 {
        Seq::empty()
    } else {
        keep_rows(rows.drop_last(), reqs) + (if row_ok(rows.last().0, reqs) {
            seq![rows.last()]
        } else {
            Seq::empty()
        })
    }
}

/// The requirement set handed to a map's input after the appended columns
/// with index at least `arity + i` have been processed, highest first: a
/// required appended column contributes its expression's requirements, and
/// every appended column is removed from the working set.
pub open spec fn squeegee(scalars: Seq<ScalarExpr>, arity: int, reqs: Set<usize>, i: int) -> Set<
    usize,
>
    decreases scalars.len() - i,
{
    if i < 0 || i >= scalars.len() {
        reqs
    } else {
        let r = squeegee(scalars, arity, reqs, i + 1);
        let c = (arity + i) as usize;
        (if r.contains(c) {
            r.union(scalars[i].non_null_cols())
        } else {
            r
        }).remove(c)
    }
}

/// Whether some required computed column is a null literal, which makes the
/// whole map node empty.
pub open spec fn shortcircuits(scalars: Seq<ScalarExpr>, arity: int, reqs: Set<usize>) -> bool {
    exists|c: usize|
        reqs.contains(c) && c >= arity && c - arity < scalars.len()
            && (#[trigger] scalars[c - arity].is_literal_null_spec())
}

/// The requirement set handed to a flat map's input: when the function is
/// guaranteed empty on null input, every argument expression contributes its
/// requirements; columns appended by the function itself impose nothing on
/// the input and are dropped.
pub open spec fn flatmap_reqs(
    func: crate::relation::TableFunc,
    exprs: Seq<ScalarExpr>,
    arity: int,
    reqs: Set<usize>,
) -> Set<usize> {
    let base = if func.empty_on_null_input_spec() {
        reqs.union(exprs_reqs(exprs))
    } else {
        reqs
    };
    Set::new(|x: usize| base.contains(x) && x < arity)
}

/// The union of the non-null requirements of a list of expressions.
pub open spec fn exprs_reqs(exprs: Seq<ScalarExpr>) -> Set<usize> {
    Set::new(
        |x: usize|
            exists|i: int| 0 <= i < exprs.len() && (#[trigger] exprs[i]).non_null_cols().contains(
                x,
            ),
    )
}

/// The requirement set translated through a projection's output map.
pub open spec fn project_reqs(outputs: Seq<usize>, reqs: Set<usize>) -> Set<usize> {
    Set::new(
        |x: usize|
            exists|c: usize|
                #[trigger] reqs.contains(c) && c < outputs.len() && outputs[c as int] == x,
    )
}

/// The fresh requirement set handed to a reduce's input: contributions of
/// required group-key expressions, plus the sole aggregate's argument when
/// the aggregate column is required and there is exactly one aggregate.
pub open spec fn reduce_reqs(
    group_key: Seq<ScalarExpr>,
    aggregates: Seq<crate::relation::AggregateExpr>,
    reqs: Set<usize>,
) -> Set<usize> {
    Set::new(
        |x: usize|
            (exists|c: usize|
                #[trigger] reqs.contains(c) && c < group_key.len()
                    && group_key[c as int].non_null_cols().contains(x)) || (reqs.contains(
                group_key.len() as usize,
            ) && aggregates.len() == 1 && aggregates[0].expr.non_null_cols().contains(x)),
    )
}

/// Total arity of the join inputs left of input `rel`.
pub open spec fn prior_arity(typs: Seq<Seq<bool>>, rel: int) -> int
    decreases rel,
{
    if rel <= 0 {
        0
    } else {
        prior_arity(typs, rel - 1) + typs[rel - 1].len()
    }
}

/// The join input owning global column `c`.
pub open spec fn owner_of(typs: Seq<Seq<bool>>, c: int) -> int
    decreases typs.len(),
{
    if typs.len() == 0 {
        0
    } else if c < typs[0].len() {
        0
    } else {
        1 + owner_of(typs.drop_first(), c - typs[0].len())
    }
}

/// The column index of global column `c` local to its owning input.
pub open spec fn local_of(typs: Seq<Seq<bool>>, c: int) -> int {
    c - prior_arity(typs, owner_of(typs, c))
}

/// The members of the split of a global requirement set owned by input `rel`.
pub open spec fn split_set(typs: Seq<Seq<bool>>, reqs: Set<usize>, rel: int) -> Set<usize> {
    Set::new(
        |x: usize| x < typs[rel].len() && reqs.contains((prior_arity(typs, rel) + x) as usize),
    )
}

/// Whether some column-reference member of the class is already required by
/// its owning input, or non-nullable in that input's schema.
pub open spec fn class_constrained(
    sets: Seq<Set<usize>>,
    typs: Seq<Seq<bool>>,
    class: Seq<ScalarExpr>,
) -> bool {
    exists|j: int|
        0 <= j < class.len() && ((#[trigger] class[j]) matches ScalarExpr::Column(c) && {
            let rel = owner_of(typs, c as int);
            let col = local_of(typs, c as int);
            sets[rel].contains(col as usize) || !typs[rel][col]
        })
}

/// The local columns of input `rel` referenced by the class's members.
pub open spec fn class_cols(typs: Seq<Seq<bool>>, class: Seq<ScalarExpr>, rel: int) -> Set<usize> {
    Set::new(
        |x: usize|
            exists|j: int|
                0 <= j < class.len() && (#[trigger] class[j]) == ScalarExpr::Column(
                    ((prior_arity(typs, rel) + x) as usize),
                ) && x < typs[rel].len(),
    )
}

/// One equivalence class applied to the per-input requirement sets: if any
/// member is constrained, every column-reference member becomes required by
/// its owning input.
pub open spec fn apply_class(
    sets: Seq<Set<usize>>,
    typs: Seq<Seq<bool>>,
    class: Seq<ScalarExpr>,
) -> Seq<Set<usize>> {
    if class_constrained(sets, typs, class) {
        Seq::new(sets.len(), |rel: int| sets[rel].union(class_cols(typs, class, rel)))
    } else {
        sets
    }
}

/// The equivalence classes from index `k` on, applied in order.
pub open spec fn equiv_fold(
    sets: Seq<Set<usize>>,
    typs: Seq<Seq<bool>>,
    classes: Seq<Seq<ScalarExpr>>,
    k: int,
) -> Seq<Set<usize>>
    decreases classes.len() - k,
{
    if k < 0 || k >= classes.len() {
        sets
    } else {
        equiv_fold(apply_class(sets, typs, classes[k]), typs, classes, k + 1)
    }
}

/// The per-input requirement sets of a join: the split of the global set,
/// with equivalence-class propagation applied.
pub open spec fn join_child_sets(
    typs: Seq<Seq<bool>>,
    classes: Seq<Seq<ScalarExpr>>,
    reqs: Set<usize>,
) -> Seq<Set<usize>> {
    equiv_fold(Seq::new(typs.len(), |rel: int| split_set(typs, reqs, rel)), typs, classes, 0)
}

/// Intersection of the requirement sets from index `k` on.
pub open spec fn inter_from(s: Seq<Set<usize>>, k: int) -> Set<usize>
    recommends
        0 <= k < s.len(),
    decreases s.len() - k,
{
    if k >= s.len() - 1 {
        s[s.len() - 1]
    } else {
        inter_from(s, k + 1).intersect(s[k])
    }
}

/// The requirement sets recorded against binding `id` by the free `Get`s
/// met while analyzing `t` under requirement set `reqs`, in traversal order.
/// A `Get` under a `Let` that rebinds the same identifier is not free.
pub open spec fn uses(t: Plan, reqs: Set<usize>, id: Id) -> Seq<Set<usize>>
    decreases t, 0int,
{
    match t {
        Plan::Constant { rows, typ } => Seq::empty(),
        Plan::Get { id: gid, typ } => if gid == id {
            seq![reqs]
        } else {
            Seq::empty()
        },
        Plan::Let { id: lid, value, body } => {
            let body_uses = uses(*body, reqs, Id::Local(lid));
            let from_value = if body_uses.len() > 0 {
                uses(*value, inter_from(body_uses, 0), id)
            } else {
                Seq::empty()
            };
            if id == Id::Local(lid) {
                from_value
            } else {
                uses(*body, reqs, id) + from_value
            }
        },
        Plan::Project { input, outputs } => uses(*input, project_reqs(outputs, reqs), id),
        Plan::MapCols { input, scalars } => {
            if shortcircuits(scalars, arity_of(*input), reqs) {
                Seq::empty()
            } else {
                uses(*input, squeegee(scalars, arity_of(*input), reqs, 0), id)
            }
        },
        Plan::FlatMap { input, func, exprs } => uses(
            *input,
            flatmap_reqs(func, exprs, arity_of(*input), reqs),
            id,
        ),
        Plan::Filter { input, predicates } => uses(*input, reqs.union(exprs_reqs(predicates)), id),
        Plan::Join { inputs, equivalences } => uses_children(
            inputs,
            join_child_sets(input_typs(inputs, 0), equivalences, reqs),
            id,
            0,
        ),
        Plan::Reduce { input, group_key, aggregates } => uses(
            *input,
            reduce_reqs(group_key, aggregates, reqs),
            id,
        ),
        Plan::TopK { input } => uses(*input, reqs, id),
        Plan::Negate { input } => uses(*input, reqs, id),
        Plan::Threshold { input } => uses(*input, reqs, id),
        Plan::Union { base, inputs } => uses(*base, reqs, id) + uses_children(
            inputs,
            Seq::new(inputs.len(), |i: int| reqs),
            id,
            0,
        ),
        Plan::ArrangeBy { input } => uses(*input, reqs, id),
    }
}

/// The recorded sets of the children from index `k` on, each child analyzed
/// under its own requirement set.
pub open spec fn uses_children(v: Seq<Plan>, sets: Seq<Set<usize>>, id: Id, k: int) -> Seq<
    Set<usize>,
>
    decreases v, v.len() - k + 1,
{
    if k < 0 || k >= v.len() {
        Seq::empty()
    } else {
        uses(v[k], sets[k], id) + uses_children(v, sets, id, k + 1)
    }
}

/// The plan after one propagation pass under requirement set `reqs`:
/// constant rows violating a requirement are deleted, and a map whose
/// required computed column is a null literal becomes an empty constant of
/// the same schema.
pub open spec fn prune(t: Plan, reqs: Set<usize>) -> Plan
    decreases t, 0int,
{
    match t {
        Plan::Constant { rows, typ } => Plan::Constant { rows: keep_rows(rows, reqs), typ },
        Plan::Get { id, typ } => t,
        Plan::Let { id, value, body } => {
            let body_uses = uses(*body, reqs, Id::Local(id));
            Plan::Let {
                id,
                value: if body_uses.len() > 0 {
                    Box::new(prune(*value, inter_from(body_uses, 0)))
                } else {
                    value
                },
                body: Box::new(prune(*body, reqs)),
            }
        },
        Plan::Project { input, outputs } => Plan::Project {
            input: Box::new(prune(*input, project_reqs(outputs, reqs))),
            outputs,
        },
        Plan::MapCols { input, scalars } => {
            if shortcircuits(scalars, arity_of(*input), reqs) {
                Plan::Constant { rows: Seq::empty(), typ: typ_of(t) }
            } else {
                Plan::MapCols {
                    input: Box::new(prune(*input, squeegee(scalars, arity_of(*input), reqs, 0))),
                    scalars,
                }
            }
        },
        Plan::FlatMap { input, func, exprs } => Plan::FlatMap {
            input: Box::new(prune(*input, flatmap_reqs(func, exprs, arity_of(*input), reqs))),
            func,
            exprs,
        },
        Plan::Filter { input, predicates } => Plan::Filter {
            input: Box::new(prune(*input, reqs.union(exprs_reqs(predicates)))),
            predicates,
        },
        Plan::Join { inputs, equivalences } => Plan::Join {
            inputs: prune_children(
                inputs,
                join_child_sets(input_typs(inputs, 0), equivalences, reqs),
                0,
            ),
            equivalences,
        },
        Plan::Reduce { input, group_key, aggregates } => Plan::Reduce {
            input: Box::new(prune(*input, reduce_reqs(group_key, aggregates, reqs))),
            group_key,
            aggregates,
        },
        Plan::TopK { input } => Plan::TopK { input: Box::new(prune(*input, reqs)) },
        Plan::Negate { input } => Plan::Negate { input: Box::new(prune(*input, reqs)) },
        Plan::Threshold { input } => Plan::Threshold { input: Box::new(prune(*input, reqs)) },
        Plan::Union { base, inputs } => Plan::Union {
            base: Box::new(prune(*base, reqs)),
            inputs: prune_children(inputs, Seq::new(inputs.len(), |i: int| reqs), 0),
        },
        Plan::ArrangeBy { input } => Plan::ArrangeBy { input: Box::new(prune(*input, reqs)) },
    }
}

/// The pruned children from index `k` on, each under its own set.
pub open spec fn prune_children(v: Seq<Plan>, sets: Seq<Set<usize>>, k: int) -> Seq<Plan>
    decreases v, v.len() - k + 1,
{
    if k < 0 || k >= v.len() {
        Seq::empty()
    } else {
        seq![prune(v[k], sets[k])] + prune_children(v, sets, k + 1)
    }
}

/// The side-table after analyzing `t` under `reqs`: each binding's prior
/// list extended by the sets `uses` records for it.
pub open spec fn merge(g: Map<Id, Seq<Set<usize>>>, t: Plan, reqs: Set<usize>) -> Map<
    Id,
    Seq<Set<usize>>,
> {
    Map::new(
        |id: Id| g.contains_key(id) || uses(t, reqs, id).len() > 0,
        |id: Id|
            (if g.contains_key(id) {
                g[id]
            } else {
                Seq::empty()
            }) + uses(t, reqs, id),
    )
}


/// The squeegee result over the appended columns from `i` on stays below
/// `arity + i`.
pub proof fn lemma_squeegee_bounded(scalars: Seq<ScalarExpr>, arity: int, reqs: Set<usize>, i: int)
    requires
        0 <= i <= scalars.len(),
        0 <= arity,
        arity + scalars.len() <= usize::MAX,
        bounded(reqs, arity + scalars.len()),
        forall|j: int|
            0 <= j < scalars.len() ==> (#[trigger] scalars[j]).cols_bounded(arity + j),
    ensures
        bounded(squeegee(scalars, arity, reqs, i), arity + i),
    decreases scalars.len() - i,
{
    if i < scalars.len() {
        lemma_squeegee_bounded(scalars, arity, reqs, i + 1);
        scalars[i].lemma_non_null_cols_bounded(arity + i);
    }
}

/// The union of expression requirements stays below the input arity.
pub proof fn lemma_exprs_reqs_bounded(exprs: Seq<ScalarExpr>, n: int)
    requires
        forall|i: int| 0 <= i < exprs.len() ==> (#[trigger] exprs[i]).cols_bounded(n),
    ensures
        bounded(exprs_reqs(exprs), n),
{
    assert forall|x: usize| exprs_reqs(exprs).contains(x) implies x < n by {
        let i = choose|i: int|
            0 <= i < exprs.len() && (#[trigger] exprs[i]).non_null_cols().contains(x);
        exprs[i].lemma_non_null_cols_bounded(n);
    }
}

/// The translated projection requirements stay below the input arity.
pub proof fn lemma_project_reqs_bounded(outputs: Seq<usize>, reqs: Set<usize>, n: int)
    requires
        forall|i: int| 0 <= i < outputs.len() ==> (#[trigger] outputs[i]) < n,
    ensures
        bounded(project_reqs(outputs, reqs), n),
{
    assert forall|x: usize| project_reqs(outputs, reqs).contains(x) implies x < n by {
        let c = choose|c: usize|
            #[trigger] reqs.contains(c) && c < outputs.len() && outputs[c as int] == x;
    }
}

/// The fresh reduce requirements stay below the input arity.
pub proof fn lemma_reduce_reqs_bounded(
    group_key: Seq<ScalarExpr>,
    aggregates: Seq<crate::relation::AggregateExpr>,
    reqs: Set<usize>,
    n: int,
)
    requires
        forall|i: int| 0 <= i < group_key.len() ==> (#[trigger] group_key[i]).cols_bounded(n),
        forall|i: int|
            0 <= i < aggregates.len() ==> (#[trigger] aggregates[i]).expr.cols_bounded(n),
    ensures
        bounded(reduce_reqs(group_key, aggregates, reqs), n),
{
    assert forall|x: usize| reduce_reqs(group_key, aggregates, reqs).contains(x) implies x
        < n by {
        if exists|c: usize|
            #[trigger] reqs.contains(c) && c < group_key.len()
                && group_key[c as int].non_null_cols().contains(x) {
            let c = choose|c: usize|
                #[trigger] reqs.contains(c) && c < group_key.len()
                    && group_key[c as int].non_null_cols().contains(x);
            group_key[c as int].lemma_non_null_cols_bounded(n);
        } else {
            aggregates[0].expr.lemma_non_null_cols_bounded(n);
        }
    }
}

/// Every per-input requirement set of a join stays below its input's arity.
pub proof fn lemma_join_sets_bounded(
    typs: Seq<Seq<bool>>,
    classes: Seq<Seq<ScalarExpr>>,
    reqs: Set<usize>,
)
    ensures
        join_child_sets(typs, classes, reqs).len() == typs.len(),
        forall|rel: int|
            0 <= rel < typs.len() ==> bounded(
                #[trigger] join_child_sets(typs, classes, reqs)[rel],
                typs[rel].len() as int,
            ),
{
    let sets0 = Seq::new(typs.len(), |rel: int| split_set(typs, reqs, rel));
    lemma_equiv_fold_bounded(sets0, typs, classes, 0);
}

/// `equiv_fold` keeps the per-input bound and the number of inputs.
pub proof fn lemma_equiv_fold_bounded(
    sets: Seq<Set<usize>>,
    typs: Seq<Seq<bool>>,
    classes: Seq<Seq<ScalarExpr>>,
    k: int,
)
    requires
        0 <= k <= classes.len(),
        sets.len() == typs.len(),
        forall|rel: int|
            0 <= rel < typs.len() ==> bounded(#[trigger] sets[rel], typs[rel].len() as int),
    ensures
        equiv_fold(sets, typs, classes, k).len() == typs.len(),
        forall|rel: int|
            0 <= rel < typs.len() ==> bounded(
                #[trigger] equiv_fold(sets, typs, classes, k)[rel],
                typs[rel].len() as int,
            ),
    decreases classes.len() - k,
{
    if k < classes.len() {
        let next = apply_class(sets, typs, classes[k]);
        assert(next.len() == typs.len());
        assert forall|rel: int| 0 <= rel < typs.len() implies bounded(
            #[trigger] next[rel],
            typs[rel].len() as int,
        ) by {
            if class_constrained(sets, typs, classes[k]) {
                assert forall|x: usize| next[rel].contains(x) implies x
                    < typs[rel].len() by {}
            }
        }
        lemma_equiv_fold_bounded(next, typs, classes, k + 1);
    }
}

/// The intersection of requirement sets from `k` on is bounded when each is.
pub proof fn lemma_inter_from_bounded(s: Seq<Set<usize>>, k: int, n: int)
    requires
        0 <= k < s.len(),
        forall|j: int| k <= j < s.len() ==> bounded(#[trigger] s[j], n),
    ensures
        bounded(inter_from(s, k), n),
    decreases s.len() - k,
{
    if k < s.len() - 1 {
        lemma_inter_from_bounded(s, k + 1, n);
    }
}


/// Every requirement set recorded against a binding in scope stays below
/// that binding's arity.
pub proof fn lemma_uses_bounded(t: Plan, reqs: Set<usize>, env: Map<u64, int>)
    requires
        wf_shape(t),
        wf_binds(t, env),
        bounded(reqs, arity_of(t)),
    ensures
        forall|l: u64, j: int|
            env.contains_key(l) && 0 <= j < uses(t, reqs, Id::Local(l)).len() ==> bounded(
                #[trigger] uses(t, reqs, Id::Local(l))[j],
                env[l],
            ),
    decreases t, 0int,
{
    match t {
        Plan::Constant { .. } => {},
        Plan::Get { id, typ } => {},
        Plan::Let { id: lid, value, body } => {
            let env2 = env.insert(lid, arity_of(*value));
            lemma_uses_bounded(*body, reqs, env2);
            let body_uses = uses(*body, reqs, Id::Local(lid));
            if body_uses.len() > 0 {
                assert forall|j: int| 0 <= j < body_uses.len() implies bounded(
                    body_uses[j],
                    arity_of(*value),
                ) by {
                    assert(bounded(#[trigger] uses(*body, reqs, Id::Local(lid))[j], env2[lid]));
                }
                let need = inter_from(body_uses, 0);
                lemma_inter_from_bounded(body_uses, 0, arity_of(*value));
                lemma_uses_bounded(*value, need, env);
                assert forall|l: u64, j: int|
                    env.contains_key(l) && 0 <= j < uses(t, reqs, Id::Local(l)).len() implies
                    bounded(#[trigger] uses(t, reqs, Id::Local(l))[j], env[l]) by {
                    let from_value = uses(*value, need, Id::Local(l));
                    if Id::Local(l) == Id::Local(lid) {
                        assert(uses(t, reqs, Id::Local(l)) == from_value);
                    } else {
                        let bu = uses(*body, reqs, Id::Local(l));
                        assert(uses(t, reqs, Id::Local(l)) == bu + from_value);
                        if j < bu.len() {
                            assert(env2.contains_key(l) && env2[l] == env[l]);
                            assert(bounded(uses(*body, reqs, Id::Local(l))[j], env2[l]));
                        } else {
                            assert(uses(t, reqs, Id::Local(l))[j] == from_value[j - bu.len()]);
                        }
                    }
                }
            } else {
                assert forall|l: u64, j: int|
                    env.contains_key(l) && 0 <= j < uses(t, reqs, Id::Local(l)).len() implies
                    bounded(#[trigger] uses(t, reqs, Id::Local(l))[j], env[l]) by {
                    if Id::Local(l) != Id::Local(lid) {
                        let bu = uses(*body, reqs, Id::Local(l));
                        assert(uses(t, reqs, Id::Local(l)) =~= bu);
                        assert(env2.contains_key(l) && env2[l] == env[l]);
                        assert(bounded(uses(*body, reqs, Id::Local(l))[j], env2[l]));
                    }
                }
            }
        },
        Plan::Project { input, outputs } => {
            lemma_project_reqs_bounded(outputs, reqs, arity_of(*input));
            lemma_uses_bounded(*input, project_reqs(outputs, reqs), env);
            assert forall|l: u64, j: int|
                env.contains_key(l) && 0 <= j < uses(t, reqs, Id::Local(l)).len() implies bounded(
                #[trigger] uses(t, reqs, Id::Local(l))[j],
                env[l],
            ) by {
                assert(uses(t, reqs, Id::Local(l)) == uses(*input, project_reqs(outputs, reqs), Id::Local(l)));
            }
        },
        Plan::MapCols { input, scalars } => {
            if !shortcircuits(scalars, arity_of(*input), reqs) {
                crate::relation::lemma_ext_typ(typ_of(*input), scalars, 0);
                lemma_squeegee_bounded(scalars, arity_of(*input), reqs, 0);
                lemma_uses_bounded(*input, squeegee(scalars, arity_of(*input), reqs, 0), env);
            assert forall|l: u64, j: int|
                env.contains_key(l) && 0 <= j < uses(t, reqs, Id::Local(l)).len() implies bounded(
                #[trigger] uses(t, reqs, Id::Local(l))[j],
                env[l],
            ) by {
                assert(uses(t, reqs, Id::Local(l)) == uses(*input, squeegee(scalars, arity_of(*input), reqs, 0), Id::Local(l)));
            }
            }
        },
        Plan::FlatMap { input, func, exprs } => {
            lemma_uses_bounded(*input, flatmap_reqs(func, exprs, arity_of(*input), reqs), env);
            assert forall|l: u64, j: int|
                env.contains_key(l) && 0 <= j < uses(t, reqs, Id::Local(l)).len() implies bounded(
                #[trigger] uses(t, reqs, Id::Local(l))[j],
                env[l],
            ) by {
                assert(uses(t, reqs, Id::Local(l)) == uses(*input, flatmap_reqs(func, exprs, arity_of(*input), reqs), Id::Local(l)));
            }
        },
        Plan::Filter { input, predicates } => {
            lemma_exprs_reqs_bounded(predicates, arity_of(*input));
            lemma_uses_bounded(*input, reqs.union(exprs_reqs(predicates)), env);
            assert forall|l: u64, j: int|
                env.contains_key(l) && 0 <= j < uses(t, reqs, Id::Local(l)).len() implies bounded(
                #[trigger] uses(t, reqs, Id::Local(l))[j],
                env[l],
            ) by {
                assert(uses(t, reqs, Id::Local(l)) == uses(*input, reqs.union(exprs_reqs(predicates)), Id::Local(l)));
            }
        },
        Plan::Join { inputs, equivalences } => {
            let typs = input_typs(inputs, 0);
            let sets = join_child_sets(typs, equivalences, reqs);
            lemma_join_sets_bounded(typs, equivalences, reqs);
            lemma_input_typs(inputs, 0);
            lemma_wf_shape_children(inputs, 0);
            lemma_wf_binds_children(inputs, env, 0);
            lemma_uses_children_bounded(inputs, sets, env, 0);
            assert forall|l: u64, j: int|
                env.contains_key(l) && 0 <= j < uses(t, reqs, Id::Local(l)).len() implies bounded(
                #[trigger] uses(t, reqs, Id::Local(l))[j],
                env[l],
            ) by {
                assert(uses(t, reqs, Id::Local(l)) == uses_children(inputs, sets, Id::Local(l), 0));
            }
        },
        Plan::Reduce { input, group_key, aggregates } => {
            lemma_reduce_reqs_bounded(group_key, aggregates, reqs, arity_of(*input));
            lemma_uses_bounded(*input, reduce_reqs(group_key, aggregates, reqs), env);
            assert forall|l: u64, j: int|
                env.contains_key(l) && 0 <= j < uses(t, reqs, Id::Local(l)).len() implies bounded(
                #[trigger] uses(t, reqs, Id::Local(l))[j],
                env[l],
            ) by {
                assert(uses(t, reqs, Id::Local(l)) == uses(*input, reduce_reqs(group_key, aggregates, reqs), Id::Local(l)));
            }
        },
        Plan::TopK { input } => {
            lemma_uses_bounded(*input, reqs, env);
            assert forall|l: u64, j: int|
                env.contains_key(l) && 0 <= j < uses(t, reqs, Id::Local(l)).len() implies bounded(
                #[trigger] uses(t, reqs, Id::Local(l))[j],
                env[l],
            ) by {
                assert(uses(t, reqs, Id::Local(l)) == uses(*input, reqs, Id::Local(l)));
            }
        },
        Plan::Negate { input } => {
            lemma_uses_bounded(*input, reqs, env);
            assert forall|l: u64, j: int|
                env.contains_key(l) && 0 <= j < uses(t, reqs, Id::Local(l)).len() implies bounded(
                #[trigger] uses(t, reqs, Id::Local(l))[j],
                env[l],
            ) by {
                assert(uses(t, reqs, Id::Local(l)) == uses(*input, reqs, Id::Local(l)));
            }
        },
        Plan::Threshold { input } => {
            lemma_uses_bounded(*input, reqs, env);
            assert forall|l: u64, j: int|
                env.contains_key(l) && 0 <= j < uses(t, reqs, Id::Local(l)).len() implies bounded(
                #[trigger] uses(t, reqs, Id::Local(l))[j],
                env[l],
            ) by {
                assert(uses(t, reqs, Id::Local(l)) == uses(*input, reqs, Id::Local(l)));
            }
        },
        Plan::Union { base, inputs } => {
            lemma_uses_bounded(*base, reqs, env);
            lemma_wf_shape_children(inputs, 0);
            lemma_wf_binds_children(inputs, env, 0);
            let sets = Seq::new(inputs.len(), |i: int| reqs);
            lemma_uses_children_bounded(inputs, sets, env, 0);
            assert forall|l: u64, j: int|
                env.contains_key(l) && 0 <= j < uses(t, reqs, Id::Local(l)).len() implies bounded(
                #[trigger] uses(t, reqs, Id::Local(l))[j],
                env[l],
            ) by {
                let a = uses(*base, reqs, Id::Local(l));
                let b = uses_children(inputs, sets, Id::Local(l), 0);
                assert(uses(t, reqs, Id::Local(l)) == a + b);
                if j >= a.len() {
                    assert(uses(t, reqs, Id::Local(l))[j] == b[j - a.len()]);
                }
            }
        },
        Plan::ArrangeBy { input } => {
            lemma_uses_bounded(*input, reqs, env);
            assert forall|l: u64, j: int|
                env.contains_key(l) && 0 <= j < uses(t, reqs, Id::Local(l)).len() implies bounded(
                #[trigger] uses(t, reqs, Id::Local(l))[j],
                env[l],
            ) by {
                assert(uses(t, reqs, Id::Local(l)) == uses(*input, reqs, Id::Local(l)));
            }
        },
    }
}

/// As `lemma_uses_bounded`, for the children of a join or union from `k` on.
pub proof fn lemma_uses_children_bounded(
    v: Seq<Plan>,
    sets: Seq<Set<usize>>,
    env: Map<u64, int>,
    k: int,
)
    requires
        0 <= k <= v.len(),
        sets.len() == v.len(),
        forall|i: int| 0 <= i < v.len() ==> wf_shape(#[trigger] v[i]),
        forall|i: int| 0 <= i < v.len() ==> wf_binds(#[trigger] v[i], env),
        forall|i: int| 0 <= i < v.len() ==> bounded(#[trigger] sets[i], arity_of(v[i])),
    ensures
        forall|l: u64, j: int|
            env.contains_key(l) && 0 <= j < uses_children(v, sets, Id::Local(l), k).len()
                ==> bounded(#[trigger] uses_children(v, sets, Id::Local(l), k)[j], env[l]),
    decreases v, v.len() - k + 1,
{
    if k < v.len() {
        lemma_uses_bounded(v[k], sets[k], env);
        lemma_uses_children_bounded(v, sets, env, k + 1);
        assert forall|l: u64, j: int|
            env.contains_key(l) && 0 <= j < uses_children(v, sets, Id::Local(l), k).len() implies
            bounded(#[trigger] uses_children(v, sets, Id::Local(l), k)[j], env[l]) by {
            let a = uses(v[k], sets[k], Id::Local(l));
            let b = uses_children(v, sets, Id::Local(l), k + 1);
            assert(uses_children(v, sets, Id::Local(l), k) == a + b);
            if j >= a.len() {
                assert(uses_children(v, sets, Id::Local(l), k)[j] == b[j - a.len()]);
            }
        }
    }
}


/// `prior_arity` only reads schemas left of `rel`.
pub proof fn lemma_prior_prefix(t1: Seq<Seq<bool>>, t2: Seq<Seq<bool>>, r: int)
    requires
        0 <= r,
        forall|i: int| 0 <= i < r ==> t1[i] == t2[i],
    ensures
        prior_arity(t1, r) == prior_arity(t2, r),
    decreases r,
{
    if r > 0 {
        lemma_prior_prefix(t1, t2, r - 1);
    }
}

/// Dropping the first schema shifts `prior_arity` by its length.
pub proof fn lemma_prior_drop_first(typs: Seq<Seq<bool>>, r: int)
    requires
        1 <= r <= typs.len(),
    ensures
        prior_arity(typs, r) == typs[0].len() + prior_arity(typs.drop_first(), r - 1),
    decreases r,
{
    if r == 1 {
        assert(prior_arity(typs, 0) == 0);
        assert(prior_arity(typs.drop_first(), 0) == 0);
    } else {
        lemma_prior_drop_first(typs, r - 1);
        assert(prior_arity(typs, r) == prior_arity(typs, r - 1) + typs[r - 1].len());
        assert(prior_arity(typs.drop_first(), r - 1) == prior_arity(typs.drop_first(), r - 2)
            + typs.drop_first()[r - 2].len());
        assert(typs.drop_first()[r - 2] == typs[r - 1]);
    }
}

/// The total prior arity is the length of the concatenated schema.
pub proof fn lemma_prior_flatten(typs: Seq<Seq<bool>>)
    ensures
        prior_arity(typs, typs.len() as int) == typs.flatten().len(),
    decreases typs.len(),
{
    if typs.len() == 0 {
        assert(typs.flatten() =~= Seq::<bool>::empty());
    } else {
        lemma_prior_flatten(typs.drop_last());
        lemma_prior_prefix(typs.drop_last(), typs, typs.len() - 1);
        typs.lemma_flatten_and_flatten_alt_are_equivalent();
        typs.drop_last().lemma_flatten_and_flatten_alt_are_equivalent();
    }
}

/// A global column within the bounds of input `rel` is owned by it.
pub proof fn lemma_owner_unique(typs: Seq<Seq<bool>>, c: int, rel: int)
    requires
        0 <= rel < typs.len(),
        prior_arity(typs, rel) <= c < prior_arity(typs, rel) + typs[rel].len(),
    ensures
        owner_of(typs, c) == rel,
        local_of(typs, c) == c - prior_arity(typs, rel),
        0 <= local_of(typs, c) < typs[rel].len(),
    decreases typs.len(),
{
    if rel == 0 {
        assert(owner_of(typs, c) == 0);
    } else {
        lemma_prior_drop_first(typs, rel);
        assert(prior_arity(typs, 1) == typs[0].len()) by {
            assert(prior_arity(typs, 0) == 0);
        }
        lemma_prior_mono_simple(typs, 1, rel);
        assert(c >= typs[0].len());
        lemma_owner_unique(typs.drop_first(), c - typs[0].len(), rel - 1);
        assert(typs.drop_first()[rel - 1] == typs[rel]);
    }
}

/// `prior_arity` is non-negative.
pub proof fn lemma_prior_nonneg(typs: Seq<Seq<bool>>, r: int)
    requires
        0 <= r,
    ensures
        0 <= prior_arity(typs, r),
    decreases r,
{
    if r > 0 {
        lemma_prior_nonneg(typs, r - 1);
    }
}

/// `prior_arity` is non-negative and monotone.
pub proof fn lemma_prior_mono_simple(typs: Seq<Seq<bool>>, r1: int, r2: int)
    requires
        0 <= r1 <= r2,
    ensures
        prior_arity(typs, r1) <= prior_arity(typs, r2),
        0 <= prior_arity(typs, r1),
    decreases r2 - r1,
{
    lemma_prior_nonneg(typs, r1);
    if r1 < r2 {
        lemma_prior_mono_simple(typs, r1, r2 - 1);
    }
}

/// The join column-numbering utility: maps a global output column to its
/// owning input and local index, and splits a global column set per input.
pub struct JoinInputMapper {
    priors: Vec<usize>,
    types: Ghost<Seq<Seq<bool>>>,
}

impl JoinInputMapper {
    /// The per-input schemas the mapper was built from.
    pub closed spec fn typs(&self) -> Seq<Seq<bool>> {
        self.types@
    }

    /// The prefix sums agree with the schemas.
    pub closed spec fn wf(&self) -> bool {
        &&& self.priors@.len() == self.types@.len() + 1
        &&& forall|r: int|
            0 <= r <= self.types@.len() ==> (#[trigger] self.priors@[r]) as int == prior_arity(
                self.types@,
                r,
            )
    }

    /// Build from the inputs' schemas.
    #[verifier::loop_isolation(false)]
    pub fn new_from_input_types(input_types: &Vec<Vec<bool>>) -> (m: JoinInputMapper)
        requires
            prior_arity(
                Seq::new(input_types@.len(), |i: int| input_types@[i]@),
                input_types@.len() as int,
            ) <= usize::MAX,
        ensures
            m.wf(),
            m.typs() == Seq::new(input_types@.len(), |i: int| input_types@[i]@),
    {
        let ghost views = Seq::new(input_types@.len(), |i: int| input_types@[i]@);
        let n = input_types.len();
        let mut priors: Vec<usize> = Vec::new();
        priors.push(0);
        let mut acc: usize = 0;
        let mut i: usize = 0;
        while i < n
            invariant
                0 <= i <= n,
                acc as int == prior_arity(views, i as int),
                priors@.len() == i + 1,
                forall|r: int|
                    0 <= r <= i ==> (#[trigger] priors@[r]) as int == prior_arity(views, r),
            decreases n - i,
        {
            proof {
                lemma_prior_mono_simple(views, i as int + 1, n as int);
                assert(prior_arity(views, i as int + 1)
                    == prior_arity(views, i as int) + views[i as int].len());
            }
            acc = acc + input_types[i].len();
            priors.push(acc);
            i += 1;
        }
        JoinInputMapper { priors, types: Ghost(views) }
    }

    /// The owning input and local column of global column `c`.
    #[verifier::loop_isolation(false)]
    pub fn map_column_to_local(&self, c: usize) -> (r: (usize, usize))
        requires
            self.wf(),
            (c as int) < prior_arity(self.typs(), self.typs().len() as int),
        ensures
            r.1 as int == owner_of(self.typs(), c as int),
            r.0 as int == local_of(self.typs(), c as int),
            (r.1 as int) < self.typs().len(),
            (r.0 as int) < self.typs()[r.1 as int].len(),
    {
        let n = self.priors.len() - 1;
        let mut rel: usize = 0;
        while rel < n - 1 && self.priors[rel + 1] <= c
            invariant
                0 <= rel < n,
                n == self.typs().len(),
                self.priors@[rel as int] <= c,
            decreases n - rel,
        {
            rel += 1;
        }
        proof {
            if rel < n - 1 {
                assert(c < self.priors@[rel as int + 1]);
            } else {
                assert(rel == n - 1);
                assert(c < prior_arity(self.typs(), n as int));
                assert(prior_arity(self.typs(), n as int)
                    == prior_arity(self.typs(), n as int - 1)
                        + self.typs()[n as int - 1].len());
            }
            lemma_owner_unique(self.typs(), c as int, rel as int);
        }
        (c - self.priors[rel], rel)
    }

    /// One requirement set per input: the global set split by ownership.
    #[verifier::loop_isolation(false)]
    pub fn split_column_set_by_input(&self, columns: &ColumnSet) -> (r: Vec<ColumnSet>)
        requires
            self.wf(),
            bounded(columns@, prior_arity(self.typs(), self.typs().len() as int)),
        ensures
            r@.len() == self.typs().len(),
            forall|rel: int|
                0 <= rel < self.typs().len() ==> (#[trigger] r@[rel])@ == split_set(
                    self.typs(),
                    columns@,
                    rel,
                ),
    {
        let n = self.priors.len() - 1;
        let mut out: Vec<ColumnSet> = Vec::new();
        let mut rel: usize = 0;
        while rel < n
            invariant
                0 <= rel <= n,
                n == self.typs().len(),
                out@.len() == rel,
                forall|q: int|
                    0 <= q < rel ==> (#[trigger] out@[q])@ == split_set(
                        self.typs(),
                        columns@,
                        q,
                    ),
            decreases n - rel,
        {
            let m = columns.len();
            let mut s = ColumnSet::new();
            let mut j: usize = 0;
            while j < m
                invariant
                    0 <= j <= m,
                    0 <= rel < n,
                    m == columns.elems().len(),
                    s@ == Set::new(
                        |x: usize|
                            exists|jj: int|
                                0 <= jj < j && {
                                    let c = #[trigger] columns.elems()[jj];
                                    self.priors@[rel as int] <= c
                                        && c < self.priors@[rel as int + 1]
                                        && x == c - self.priors@[rel as int]
                                },
                    ),
                decreases m - j,
            {
                let c = columns.at(j);
                proof {
                    lemma_prior_mono_simple(self.typs(), rel as int, rel as int + 1);
                }
                if self.priors[rel] <= c && c < self.priors[rel + 1] {
                    s.insert(c - self.priors[rel]);
                }
                proof {
                    assert(s@ =~= Set::new(
                        |x: usize|
                            exists|jj: int|
                                0 <= jj < j + 1 && {
                                    let cc = #[trigger] columns.elems()[jj];
                                    self.priors@[rel as int] <= cc
                                        && cc < self.priors@[rel as int + 1]
                                        && x == cc - self.priors@[rel as int]
                                },
                    ));
                }
                j += 1;
            }
            proof {
                columns.lemma_view();
                assert(prior_arity(self.typs(), rel as int + 1) == prior_arity(
                    self.typs(),
                    rel as int,
                ) + self.typs()[rel as int].len());
                assert forall|x: usize| s@.contains(x) implies split_set(
                    self.typs(),
                    columns@,
                    rel as int,
                ).contains(x) by {
                    let jj = choose|jj: int|
                        0 <= jj < m && {
                            let c = #[trigger] columns.elems()[jj];
                            self.priors@[rel as int] <= c && c < self.priors@[rel as int + 1]
                                && x == c - self.priors@[rel as int]
                        };
                    assert(columns@.contains(columns.elems()[jj]));
                }
                assert forall|x: usize| split_set(self.typs(), columns@, rel as int).contains(
                    x,
                ) implies s@.contains(x) by {
                    let c = (prior_arity(self.typs(), rel as int) + x) as usize;
                    assert(columns@.contains(c));
                    assert(columns.elems().contains(c));
                    let jj = choose|jj: int|
                        0 <= jj < columns.elems().len() && #[trigger] columns.elems()[jj] == c;
                }
                assert(s@ =~= split_set(self.typs(), columns@, rel as int));
            }
            out.push(s);
            rel += 1;
        }
        out
    }
}


/// `prune_children(v, sets, 0)` prunes element by element.
pub proof fn lemma_prune_children(v: Seq<Plan>, sets: Seq<Set<usize>>, k: int)
    requires
        0 <= k <= v.len(),
    ensures
        prune_children(v, sets, k).len() == v.len() - k,
        forall|i: int|
            k <= i < v.len() ==> prune_children(v, sets, k)[i - k] == prune(v[i], sets[i]),
    decreases v.len() - k,
{
    if k < v.len() {
        lemma_prune_children(v, sets, k + 1);
    }
}

/// Extending the analyzed prefix of the children appends the next child's
/// recorded sets.
pub proof fn lemma_uses_children_snoc(v: Seq<Plan>, sets: Seq<Set<usize>>, id: Id, i: int, k: int)
    requires
        0 <= k <= i < v.len(),
        i < sets.len(),
    ensures
        uses_children(v.take(i + 1), sets.take(i + 1), id, k) == uses_children(
            v.take(i),
            sets.take(i),
            id,
            k,
        ) + uses(v[i], sets[i], id),
    decreases i - k,
{
    let a = uses(v[i], sets[i], id);
    if k == i {
        assert(v.take(i + 1)[i] == v[i]);
        assert(sets.take(i + 1)[i] == sets[i]);
        assert(uses_children(v.take(i + 1), sets.take(i + 1), id, i + 1) =~= Seq::empty());
        assert(uses_children(v.take(i), sets.take(i), id, i) =~= Seq::empty());
        assert(uses_children(v.take(i + 1), sets.take(i + 1), id, k) =~= Seq::empty() + a);
    } else {
        lemma_uses_children_snoc(v, sets, id, i, k + 1);
        assert(v.take(i + 1)[k] == v[k]);
        assert(v.take(i)[k] == v[k]);
        assert(sets.take(i + 1)[k] == sets[k]);
        assert(sets.take(i)[k] == sets[k]);
        let b = uses(v[k], sets[k], id);
        let c = uses_children(v.take(i), sets.take(i), id, k + 1);
        assert(uses_children(v.take(i + 1), sets.take(i + 1), id, k) == b + (c + a));
        assert(uses_children(v.take(i), sets.take(i), id, k) == b + c);
        assert(b + (c + a) =~= (b + c) + a);
    }
}

/// Extending the applied prefix of the equivalence classes applies the next
/// class last.
pub proof fn lemma_equiv_fold_snoc(
    sets: Seq<Set<usize>>,
    typs: Seq<Seq<bool>>,
    classes: Seq<Seq<ScalarExpr>>,
    q: int,
    k: int,
)
    requires
        0 <= k <= q < classes.len(),
    ensures
        equiv_fold(sets, typs, classes.take(q + 1), k) == apply_class(
            equiv_fold(sets, typs, classes.take(q), k),
            typs,
            classes[q],
        ),
    decreases q - k,
{
    if k == q {
        assert(classes.take(q + 1)[q] == classes[q]);
        assert(equiv_fold(sets, typs, classes.take(q), k) == sets);
        assert(equiv_fold(
            apply_class(sets, typs, classes[q]),
            typs,
            classes.take(q + 1),
            q + 1,
        ) == apply_class(sets, typs, classes[q]));
    } else {
        assert(classes.take(q + 1)[k] == classes[k]);
        assert(classes.take(q)[k] == classes[k]);
        lemma_equiv_fold_snoc(apply_class(sets, typs, classes[k]), typs, classes, q, k + 1);
    }
}

/// A global column below the total arity has an owner in range, with its
/// local index within that input's schema.
pub proof fn lemma_owner_range(typs: Seq<Seq<bool>>, c: int)
    requires
        0 <= c < prior_arity(typs, typs.len() as int),
    ensures
        0 <= owner_of(typs, c) < typs.len(),
        prior_arity(typs, owner_of(typs, c)) <= c,
        0 <= local_of(typs, c) < typs[owner_of(typs, c)].len(),
        c == prior_arity(typs, owner_of(typs, c)) + local_of(typs, c),
    decreases typs.len(),
{
    if typs.len() == 0 {
        assert(prior_arity(typs, 0) == 0);
    } else if c < typs[0].len() {
        assert(prior_arity(typs, 0) == 0);
    } else {
        let rest = typs.drop_first();
        lemma_prior_drop_first(typs, typs.len() as int);
        lemma_owner_range(rest, c - typs[0].len());
        let ow = owner_of(rest, c - typs[0].len());
        lemma_prior_drop_first(typs, 1 + ow);
        assert(rest[ow] == typs[1 + ow]);
    }
}

/// Whether the row is non-null at every required column.
fn row_satisfies(row: &Vec<Datum>, columns: &ColumnSet) -> (r: bool)
    requires
        bounded(columns@, row@.len() as int),
    ensures
        r == row_ok(row@, columns@),
{
    let m = columns.len();
    let mut j: usize = 0;
    proof {
        columns.lemma_view();
    }
    while j < m
        invariant
            0 <= j <= m,
            m == columns.elems().len(),
            bounded(columns@, row@.len() as int),
            forall|c: usize| #[trigger] columns@.contains(c) <==> columns.elems().contains(c),
            forall|jj: int|
                0 <= jj < j ==> {
                    let c = #[trigger] columns.elems()[jj];
                    c < row@.len() && row@[c as int] != Datum::Null
                },
        decreases m - j,
    {
        let c = columns.at(j);
        let d = row[c];
        if d == Datum::Null {
            return false;
        }
        j += 1;
    }
    proof {
        assert forall|c: usize| columns@.contains(c) implies c < row@.len() && row@[c as int]
            != Datum::Null by {
            let jj = choose|jj: int|
                0 <= jj < columns.elems().len() && #[trigger] columns.elems()[jj] == c;
        }
    }
    true
}

/// Push non-null requirements toward sources.
///
/// The entry point of the pass. The tree is mutated in place: constant rows
/// that violate a requirement are deleted, and a map whose required computed
/// column is a null literal is replaced by an empty constant of the same
/// schema. The pass itself cannot fail on a well-formed plan; the optimizer
/// driver repeats it (with other passes) to a fixpoint.
#[derive(Debug)]
pub struct NonNullRequirements;

impl NonNullRequirements {
    /// One full pass over the plan, with no requirement imposed at the root
    /// and a fresh side-table.
    pub fn transform(&self, relation: &mut RelationExpr)
        requires
            crate::relation::wf(old(relation)@),
        ensures
            final(relation)@ == prune(old(relation)@, Set::empty()),
    {
        let columns = ColumnSet::new();
        let mut gets = GetsTable::new();
        self.action(relation, columns, &mut gets);
    }

    /// Push non-null requirements toward sources: analyze `relation` under
    /// the requirement set `columns`, recording requirement sets against
    /// bindings in `gets`.
    pub fn action(&self, relation: &mut RelationExpr, columns: ColumnSet, gets: &mut GetsTable)
        requires
            crate::relation::wf(old(relation)@),
            bounded(columns@, arity_of(old(relation)@)),
            old(gets).wf(),
        ensures
            final(gets).wf(),
            final(relation)@ == prune(old(relation)@, columns@),
            final(gets)@ == merge(old(gets)@, old(relation)@, columns@),
    {
        let mut tmp = RelationExpr::Constant { rows: Vec::new(), typ: Vec::new() };
        core::mem::swap(relation, &mut tmp);
        let out = propagate(tmp, columns, gets, Ghost(Map::empty()));
        *relation = out;
    }
}



/// The side-table mid-way through the children of a join or union: the
/// incoming table, extended per binding by `ub` (what the operator recorded
/// before its children) and by the recordings of the first `k` children.
pub open spec fn table_state(
    g0: Map<Id, Seq<Set<usize>>>,
    ub: spec_fn(Id) -> Seq<Set<usize>>,
    plans: Seq<Plan>,
    csets: Seq<Set<usize>>,
    k: int,
) -> Map<Id, Seq<Set<usize>>> {
    Map::new(
        |i: Id|
            g0.contains_key(i) || (ub(i) + uses_children(
                plans.take(k),
                csets.take(k),
                i,
                0,
            )).len() > 0,
        |i: Id|
            (if g0.contains_key(i) {
                g0[i]
            } else {
                Seq::empty()
            }) + (ub(i) + uses_children(plans.take(k), csets.take(k), i, 0)),
    )
}

/// Before any child is analyzed, the table is the incoming table extended
/// by `ub` alone.
pub proof fn lemma_children_init(
    g0: Map<Id, Seq<Set<usize>>>,
    gf: Map<Id, Seq<Set<usize>>>,
    ub: spec_fn(Id) -> Seq<Set<usize>>,
    plans: Seq<Plan>,
    csets: Seq<Set<usize>>,
)
    requires
        forall|i: Id|
            #[trigger] gf.contains_key(i) <==> g0.contains_key(i) || ub(i).len() > 0,
        forall|i: Id|
            gf.contains_key(i) ==> #[trigger] gf[i] == (if g0.contains_key(i) {
                g0[i]
            } else {
                Seq::<Set<usize>>::empty()
            }) + ub(i),
    ensures
        gf =~~= table_state(g0, ub, plans, csets, 0),
{
    assert forall|i: Id| true implies uses_children(plans.take(0), csets.take(0), i, 0)
        =~= Seq::<Set<usize>>::empty() by {}
    assert forall|i: Id| gf.contains_key(i) implies gf[i] =~= (if g0.contains_key(i) {
        g0[i]
    } else {
        Seq::<Set<usize>>::empty()
    }) + (ub(i) + uses_children(plans.take(0), csets.take(0), i, 0)) by {}
}

/// Analyzing the next child appends its recordings.
pub proof fn lemma_children_step(
    g0: Map<Id, Seq<Set<usize>>>,
    gprev: Map<Id, Seq<Set<usize>>>,
    gf: Map<Id, Seq<Set<usize>>>,
    ub: spec_fn(Id) -> Seq<Set<usize>>,
    plans: Seq<Plan>,
    csets: Seq<Set<usize>>,
    kk: int,
)
    requires
        0 <= kk < plans.len(),
        plans.len() <= csets.len(),
        gprev == table_state(g0, ub, plans, csets, kk),
        gf == merge(gprev, plans[kk], csets[kk]),
    ensures
        gf =~~= table_state(g0, ub, plans, csets, kk + 1),
{
    let ts = table_state(g0, ub, plans, csets, kk + 1);
    assert forall|i: Id| (#[trigger] gf.contains_key(i) == ts.contains_key(i)) && (
    gf.contains_key(i) ==> gf[i] =~= ts[i]) by {
        lemma_uses_children_snoc(plans, csets, i, kk, 0);
        let e0: Seq<Set<usize>> = if g0.contains_key(i) {
            g0[i]
        } else {
            Seq::empty()
        };
        let a = ub(i);
        let b = uses_children(plans.take(kk), csets.take(kk), i, 0);
        let c = uses(plans[kk], csets[kk], i);
        assert(uses_children(plans.take(kk + 1), csets.take(kk + 1), i, 0) == b + c);
        assert(gf.contains_key(i) <==> gprev.contains_key(i) || c.len() > 0);
        assert(gprev.contains_key(i) <==> g0.contains_key(i) || (a + b).len() > 0);
        assert(ts.contains_key(i) <==> g0.contains_key(i) || (a + (b + c)).len() > 0);
        if gf.contains_key(i) {
            assert(gf[i] == (if gprev.contains_key(i) {
                gprev[i]
            } else {
                Seq::empty()
            }) + c);
            assert(gprev.contains_key(i) ==> gprev[i] == e0 + (a + b));
            assert(ts[i] == e0 + (a + (b + c)));
            assert((e0 + (a + b)) + c =~= e0 + (a + (b + c)));
            if !gprev.contains_key(i) {
                assert(a.len() == 0 && b.len() == 0 && !g0.contains_key(i));
                assert(Seq::<Set<usize>>::empty() + c =~= e0 + (a + (b + c)));
            }
        }
    }
    assert(gf =~~= ts);
}

/// The recursive walk: dispatch on the node, translate the requirement set
/// for each child, prune constants, record requirements at `Get`s, and
/// resolve each binding from the sets its body recorded. `env` carries the
/// arity of each local binding in scope.
#[verifier::rlimit(100)]
#[verifier::spinoff_prover]
#[verifier::loop_isolation(false)]
fn propagate(
    relation: RelationExpr,
    columns: ColumnSet,
    gets: &mut GetsTable,
    env: Ghost<Map<u64, int>>,
) -> (r: RelationExpr)
    requires
        wf_shape(relation@),
        wf_binds(relation@, env@),
        bounded(columns@, arity_of(relation@)),
        old(gets).wf(),
    ensures
        final(gets).wf(),
        r@ == prune(relation@, columns@),
        final(gets)@ == merge(old(gets)@, relation@, columns@),
    decreases relation,
{
    let ghost r0 = relation;
    let ghost t0 = relation@;
    let ghost reqs0 = columns@;
    let ghost g0 = gets@;
    match relation {
        RelationExpr::Constant { rows, typ } => {
            let mut rows = rows;
            let ghost rows0 = rows@;
            let ghost srows0 = crate::relation::row_views(rows0);
            let n = rows.len();
            let mut kept: Vec<(Vec<Datum>, isize)> = Vec::new();
            let mut k: usize = 0;
            while k < n
                invariant
                    0 <= k <= n,
                    rows@ == rows0.subrange(k as int, n as int),
                    crate::relation::row_views(kept@) == keep_rows(srows0.take(k as int), reqs0),
                decreases n - k,
            {
                let rw = rows.remove(0);
                proof {
                    assert(rw == rows0[k as int]);
                    assert(srows0[k as int] == (rw.0@, rw.1));
                    assert(bounded(reqs0, rw.0@.len() as int)) by {
                        assert(srows0[k as int].0.len() == typ@.len());
                    }
                }
                let ghost kept0 = crate::relation::row_views(kept@);
                let keep = row_satisfies(&rw.0, &columns);
                if keep {
                    kept.push(rw);
                }
                proof {
                    assert(srows0.take(k + 1).drop_last() =~= srows0.take(k as int));
                    assert(srows0.take(k + 1).last() == (rw.0@, rw.1));
                    if keep {
                        assert(crate::relation::row_views(kept@) =~= kept0 + seq![
                            (rw.0@, rw.1),
                        ]);
                        assert(crate::relation::row_views(kept@) =~= keep_rows(
                            srows0.take(k + 1),
                            reqs0,
                        ));
                    } else {
                        assert(crate::relation::row_views(kept@) =~= keep_rows(
                            srows0.take(k + 1),
                            reqs0,
                        ));
                    }
                    assert(rows@ =~= rows0.subrange(k + 1, n as int));
                }
                k += 1;
            }
            proof {
                assert(srows0.take(n as int) =~= srows0);
            }
            let out = RelationExpr::Constant { rows: kept, typ };
            proof {
                assert(out@ == prune(t0, reqs0));
                assert(gets@ =~~= merge(g0, t0, reqs0));
            }
            out
        },
        RelationExpr::Get { id, typ } => {
            gets.push_requirement(id, columns);
            let out = RelationExpr::Get { id, typ };
            proof {
                assert(out@ == prune(t0, reqs0));
                assert(gets@ =~~= merge(g0, t0, reqs0));
            }
            out
        },
        RelationExpr::Let { id, value, body } => {
            let lid = Id::Local(id);
            let ghost vp = (*value)@;
            let ghost bp = (*body)@;
            let ghost env2 = env@.insert(id, arity_of(vp));
            let ghost bu = uses(bp, reqs0, lid);
            let empty_sets: Vec<ColumnSet> = Vec::new();
            proof {
                assert(crate::gets::sets_view(empty_sets@) =~= Seq::<Set<usize>>::empty());
            }
            let prior = gets.insert(lid, empty_sets);
            let ghost g1 = gets@;
            let new_body = propagate(*body, columns, gets, Ghost(env2));
            let ghost gb = gets@;
            let needs_opt = gets.remove(lid);
            let needs = match needs_opt {
                Some(v) => v,
                None => {
                    proof {
                        assert(gb.contains_key(lid));
                        assert(false);
                    }
                    Vec::new()
                },
            };
            proof {
                assert(gb[lid] == Seq::<Set<usize>>::empty() + bu);
                assert(crate::gets::sets_view(needs@) =~= bu);
            }
            let ghost g2 = gets@;
            match prior {
                Some(p) => {
                    let _ = gets.insert(lid, p);
                },
                None => {},
            }
            let ghost g3 = gets@;
            if needs.len() > 0 {
                let mut needs = needs;
                let ghost nseq = crate::gets::sets_view(needs@);
                let mut need = match needs.pop() {
                    Some(x) => x,
                    None => {
                        proof {
                            assert(false);
                        }
                        ColumnSet::new()
                    },
                };
                proof {
                    assert(crate::gets::sets_view(needs@) =~= nseq.take(nseq.len() - 1));
                    assert(need@ == nseq[nseq.len() - 1]);
                }
                while needs.len() > 0
                    invariant
                        crate::gets::sets_view(needs@) == nseq.take(needs@.len() as int),
                        needs@.len() < nseq.len(),
                        need@ == inter_from(nseq, needs@.len() as int),
                    decreases needs@.len(),
                {
                    let x = match needs.pop() {
                        Some(x) => x,
                        None => {
                            proof {
                                assert(false);
                            }
                            ColumnSet::new()
                        },
                    };
                    proof {
                        let m = needs@.len() as int;
                        assert(x@ == nseq.take(m + 1)[m]);
                        assert(nseq.take(m + 1)[m] == nseq[m]);
                        assert(crate::gets::sets_view(needs@) =~= nseq.take(m));
                    }
                    need.retain_intersect(&x);
                }
                proof {
                    assert(need@ == inter_from(nseq, 0));
                    assert(nseq =~= bu);
                    lemma_uses_bounded(bp, reqs0, env2);
                    assert forall|j: int| 0 <= j < bu.len() implies bounded(
                        bu[j],
                        arity_of(vp),
                    ) by {
                        assert(env2.contains_key(id) && env2[id] == arity_of(vp));
                        assert(bounded(uses(bp, reqs0, Id::Local(id))[j], env2[id]));
                    }
                    lemma_inter_from_bounded(bu, 0, arity_of(vp));
                }
                let new_value = propagate(*value, need, gets, env);
                let out = RelationExpr::Let {
                    id,
                    value: Box::new(new_value),
                    body: Box::new(new_body),
                };
                proof {
                    assert(out@ == prune(t0, reqs0));
                    lemma_let_merge(g0, g1, gb, g2, g3, gets@, t0, vp, bp, reqs0, id, prior
                        is Some, inter_from(bu, 0), true);
                }
                out
            } else {
                let out = RelationExpr::Let { id, value, body: Box::new(new_body) };
                proof {
                    assert(out@ == prune(t0, reqs0));
                    lemma_let_merge(g0, g1, gb, g2, g3, g3, t0, vp, bp, reqs0, id, prior
                        is Some, Set::empty(), false);
                }
                out
            }
        },
        RelationExpr::Project { input, outputs } => {
            let ghost ip = (*input)@;
            let m = columns.len();
            let mut tr = ColumnSet::new();
            let mut j: usize = 0;
            proof {
                columns.lemma_view();
            }
            while j < m
                invariant
                    0 <= j <= m,
                    m == columns.elems().len(),
                    tr@ == Set::new(
                        |x: usize|
                            exists|jj: int|
                                0 <= jj < j && {
                                    let c = #[trigger] columns.elems()[jj];
                                    c < outputs@.len() && outputs@[c as int] == x
                                },
                    ),
                decreases m - j,
            {
                let c = columns.at(j);
                tr.insert(outputs[c]);
                proof {
                    assert(tr@ =~= Set::new(
                        |x: usize|
                            exists|jj: int|
                                0 <= jj < j + 1 && {
                                    let cc = #[trigger] columns.elems()[jj];
                                    cc < outputs@.len() && outputs@[cc as int] == x
                                },
                    ));
                }
                j += 1;
            }
            proof {
                assert forall|x: usize| tr@.contains(x) implies project_reqs(
                    outputs@,
                    reqs0,
                ).contains(x) by {
                    let jj = choose|jj: int|
                        0 <= jj < m && {
                            let c = #[trigger] columns.elems()[jj];
                            c < outputs@.len() && outputs@[c as int] == x
                        };
                    assert(reqs0.contains(columns.elems()[jj]));
                }
                assert forall|x: usize| project_reqs(outputs@, reqs0).contains(x) implies
                    tr@.contains(x) by {
                    let c = choose|c: usize|
                        #[trigger] reqs0.contains(c) && c < outputs@.len() && outputs@[c as int]
                            == x;
                    assert(columns.elems().contains(c));
                    let jj = choose|jj: int|
                        0 <= jj < columns.elems().len() && #[trigger] columns.elems()[jj] == c;
                }
                assert(tr@ =~= project_reqs(outputs@, reqs0));
                lemma_project_reqs_bounded(outputs@, reqs0, arity_of(ip));
            }
            let new_input = propagate(*input, tr, gets, env);
            let out = RelationExpr::Project { input: Box::new(new_input), outputs };
            proof {
                assert(out@ == prune(t0, reqs0));
                assert(gets@ =~~= merge(g0, t0, reqs0));
            }
            out
        },
        RelationExpr::MapCols { input, scalars } => {
            let mut columns = columns;
            let ghost ip = (*input)@;
            let ghost ar = arity_of(ip);
            let arity = input.arity();
            proof {
                crate::relation::lemma_ext_typ(typ_of(ip), scalars@, 0);
                columns.lemma_view();
            }
            let m = columns.len();
            let mut short = false;
            let mut j: usize = 0;
            while j < m
                invariant
                    0 <= j <= m,
                    m == columns.elems().len(),
                    columns@ == reqs0,
                    short <==> exists|jj: int|
                        0 <= jj < j && {
                            let c = #[trigger] columns.elems()[jj];
                            c >= ar && c - ar < scalars@.len() && scalars@[c - ar].is_literal_null_spec()
                        },
                decreases m - j,
            {
                let c = columns.at(j);
                if c >= arity {
                    proof {
                        assert(reqs0.contains(c));
                    }
                    if scalars[c - arity].is_literal_null() {
                        short = true;
                    }
                }
                j += 1;
            }
            proof {
                if short {
                    let jj = choose|jj: int|
                        0 <= jj < m && {
                            let c = #[trigger] columns.elems()[jj];
                            c >= ar && c - ar < scalars@.len() && scalars@[c - ar].is_literal_null_spec()
                        };
                    assert(reqs0.contains(columns.elems()[jj]));
                    assert(shortcircuits(scalars@, ar, reqs0));
                } else if shortcircuits(scalars@, ar, reqs0) {
                    let c = choose|c: usize|
                        reqs0.contains(c) && c >= ar && c - ar < scalars@.len() && (
                        #[trigger] scalars@[c - ar].is_literal_null_spec());
                    assert(columns.elems().contains(c));
                    let jj = choose|jj: int|
                        0 <= jj < columns.elems().len() && #[trigger] columns.elems()[jj] == c;
                    assert(false);
                }
            }
            if short {
                let node = RelationExpr::MapCols { input, scalars };
                proof {
                    assert(node@ == t0);
                }
                let typ = node.typ();
                let empty_rows: Vec<(Vec<Datum>, isize)> = Vec::new();
                proof {
                    assert(crate::relation::row_views(empty_rows@) =~= Seq::<
                        (Seq<Datum>, isize),
                    >::empty());
                }
                let out = RelationExpr::Constant { rows: empty_rows, typ };
                proof {
                    assert(out@ == prune(t0, reqs0));
                    assert(gets@ =~~= merge(g0, t0, reqs0));
                }
                out
            } else {
                let sn = scalars.len();
                let mut k = sn;
                while k > 0
                    invariant
                        0 <= k <= sn,
                        columns@ == squeegee(scalars@, ar, reqs0, k as int),
                    decreases k,
                {
                    k -= 1;
                    proof {
                        assert(ar + sn <= usize::MAX);
                    }
                    let c = arity + k;
                    if columns.contains(c) {
                        scalars[k].non_null_requirements(&mut columns);
                    }
                    columns.remove(c);
                    proof {
                        assert(columns@ =~= squeegee(scalars@, ar, reqs0, k as int));
                    }
                }
                proof {
                    lemma_squeegee_bounded(scalars@, ar, reqs0, 0);
                }
                let new_input = propagate(*input, columns, gets, env);
                let out = RelationExpr::MapCols { input: Box::new(new_input), scalars };
                proof {
                    assert(out@ == prune(t0, reqs0));
                    assert(gets@ =~~= merge(g0, t0, reqs0));
                }
                out
            }
        },
        RelationExpr::FlatMap { input, func, exprs } => {
            let mut columns = columns;
            let ghost ip = (*input)@;
            let ghost ar = arity_of(ip);
            let arity = input.arity();
            if func.empty_on_null_input() {
                let en = exprs.len();
                let mut i: usize = 0;
                while i < en
                    invariant
                        0 <= i <= en,
                        en == exprs@.len(),
                        columns@ == reqs0.union(
                            Set::new(
                                |x: usize|
                                    exists|jj: int|
                                        0 <= jj < i && (#[trigger] exprs@[jj]).non_null_cols().contains(x),
                            ),
                        ),
                    decreases en - i,
                {
                    exprs[i].non_null_requirements(&mut columns);
                    proof {
                        assert(columns@ =~= reqs0.union(
                            Set::new(
                                |x: usize|
                                    exists|jj: int|
                                        0 <= jj < i + 1 && (#[trigger] exprs@[jj]).non_null_cols().contains(
                                            x,
                                        ),
                            ),
                        ));
                    }
                    i += 1;
                }
                proof {
                    assert(columns@ =~= reqs0.union(exprs_reqs(exprs@)));
                }
            }
            let ghost base = columns@;
            proof {
                columns.lemma_view();
            }
            let m = columns.len();
            let mut restricted = ColumnSet::new();
            let mut j: usize = 0;
            while j < m
                invariant
                    0 <= j <= m,
                    m == columns.elems().len(),
                    columns@ == base,
                    restricted@ == Set::new(
                        |x: usize|
                            x < ar && exists|jj: int|
                                0 <= jj < j && #[trigger] columns.elems()[jj] == x,
                    ),
                decreases m - j,
            {
                let c = columns.at(j);
                if c < arity {
                    restricted.insert(c);
                }
                proof {
                    assert(restricted@ =~= Set::new(
                        |x: usize|
                            x < ar && exists|jj: int|
                                0 <= jj < j + 1 && #[trigger] columns.elems()[jj] == x,
                    ));
                }
                j += 1;
            }
            proof {
                assert forall|x: usize| restricted@.contains(x) <==> flatmap_reqs(
                    func,
                    exprs@,
                    ar,
                    reqs0,
                ).contains(x) by {
                    if restricted@.contains(x) {
                        let jj = choose|jj: int|
                            0 <= jj < m && #[trigger] columns.elems()[jj] == x;
                        assert(base.contains(x));
                    }
                    if flatmap_reqs(func, exprs@, ar, reqs0).contains(x) {
                        assert(base.contains(x));
                        assert(columns.elems().contains(x));
                        let jj = choose|jj: int|
                            0 <= jj < columns.elems().len() && #[trigger] columns.elems()[jj]
                                == x;
                    }
                }
                assert(restricted@ =~= flatmap_reqs(func, exprs@, ar, reqs0));
            }
            let new_input = propagate(*input, restricted, gets, env);
            let out = RelationExpr::FlatMap { input: Box::new(new_input), func, exprs };
            proof {
                assert(out@ == prune(t0, reqs0));
                assert(gets@ =~~= merge(g0, t0, reqs0));
            }
            out
        },
        RelationExpr::Filter { input, predicates } => {
            let mut columns = columns;
            let ghost ip = (*input)@;
            let pn = predicates.len();
            let mut i: usize = 0;
            while i < pn
                invariant
                    0 <= i <= pn,
                    pn == predicates@.len(),
                    columns@ == reqs0.union(
                        Set::new(
                            |x: usize|
                                exists|jj: int|
                                    0 <= jj < i && (#[trigger] predicates@[jj]).non_null_cols().contains(
                                        x,
                                    ),
                        ),
                    ),
                decreases pn - i,
            {
                predicates[i].non_null_requirements(&mut columns);
                proof {
                    assert(columns@ =~= reqs0.union(
                        Set::new(
                            |x: usize|
                                exists|jj: int|
                                    0 <= jj < i + 1 && (#[trigger] predicates@[jj]).non_null_cols().contains(
                                        x,
                                    ),
                        ),
                    ));
                }
                i += 1;
            }
            proof {
                assert(columns@ =~= reqs0.union(exprs_reqs(predicates@)));
                lemma_exprs_reqs_bounded(predicates@, arity_of(ip));
            }
            let new_input = propagate(*input, columns, gets, env);
            let out = RelationExpr::Filter { input: Box::new(new_input), predicates };
            proof {
                assert(out@ == prune(t0, reqs0));
                assert(gets@ =~~= merge(g0, t0, reqs0));
            }
            out
        },
        RelationExpr::Reduce { input, group_key, aggregates } => {
            let ghost ip = (*input)@;
            let gklen = group_key.len();
            let alen = aggregates.len();
            let m = columns.len();
            let mut newc = ColumnSet::new();
            let mut j: usize = 0;
            proof {
                columns.lemma_view();
            }
            while j < m
                invariant
                    0 <= j <= m,
                    m == columns.elems().len(),
                    newc@ == Set::new(
                        |x: usize|
                            exists|jj: int|
                                0 <= jj < j && {
                                    let c = #[trigger] columns.elems()[jj];
                                    (c < gklen && group_key@[c as int].non_null_cols().contains(x))
                                        || (c == gklen && alen == 1
                                        && aggregates@[0].expr.non_null_cols().contains(x))
                                },
                    ),
                decreases m - j,
            {
                let c = columns.at(j);
                if c < gklen {
                    group_key[c].non_null_requirements(&mut newc);
                }
                if c == gklen && alen == 1 {
                    aggregates[0].expr.non_null_requirements(&mut newc);
                }
                proof {
                    assert(newc@ =~= Set::new(
                        |x: usize|
                            exists|jj: int|
                                0 <= jj < j + 1 && {
                                    let cc = #[trigger] columns.elems()[jj];
                                    (cc < gklen && group_key@[cc as int].non_null_cols().contains(
                                        x,
                                    )) || (cc == gklen && alen == 1
                                        && aggregates@[0].expr.non_null_cols().contains(x))
                                },
                    ));
                }
                j += 1;
            }
            proof {
                assert forall|x: usize| newc@.contains(x) <==> reduce_reqs(
                    group_key@,
                    aggregates@,
                    reqs0,
                ).contains(x) by {
                    if newc@.contains(x) {
                        let jj = choose|jj: int|
                            0 <= jj < m && {
                                let c = #[trigger] columns.elems()[jj];
                                (c < gklen && group_key@[c as int].non_null_cols().contains(x))
                                    || (c == gklen && alen == 1
                                    && aggregates@[0].expr.non_null_cols().contains(x))
                            };
                        assert(reqs0.contains(columns.elems()[jj]));
                    }
                    if reduce_reqs(group_key@, aggregates@, reqs0).contains(x) {
                        if exists|c: usize|
                            #[trigger] reqs0.contains(c) && c < group_key@.len()
                                && group_key@[c as int].non_null_cols().contains(x) {
                            let c = choose|c: usize|
                                #[trigger] reqs0.contains(c) && c < group_key@.len()
                                    && group_key@[c as int].non_null_cols().contains(x);
                            assert(columns.elems().contains(c));
                            let jj = choose|jj: int|
                                0 <= jj < columns.elems().len() && #[trigger] columns.elems()[jj]
                                    == c;
                        } else {
                            let c = gklen;
                            assert(reqs0.contains(c));
                            assert(columns.elems().contains(c));
                            let jj = choose|jj: int|
                                0 <= jj < columns.elems().len() && #[trigger] columns.elems()[jj]
                                    == c;
                        }
                    }
                }
                assert(newc@ =~= reduce_reqs(group_key@, aggregates@, reqs0));
                lemma_reduce_reqs_bounded(group_key@, aggregates@, reqs0, arity_of(ip));
            }
            let new_input = propagate(*input, newc, gets, env);
            let out = RelationExpr::Reduce {
                input: Box::new(new_input),
                group_key,
                aggregates,
            };
            proof {
                assert(out@ == prune(t0, reqs0));
                assert(gets@ =~~= merge(g0, t0, reqs0));
            }
            out
        },
        RelationExpr::TopK { input } => {
            let new_input = propagate(*input, columns, gets, env);
            let out = RelationExpr::TopK { input: Box::new(new_input) };
            proof {
                assert(out@ == prune(t0, reqs0));
                assert(gets@ =~~= merge(g0, t0, reqs0));
            }
            out
        },
        RelationExpr::Negate { input } => {
            let new_input = propagate(*input, columns, gets, env);
            let out = RelationExpr::Negate { input: Box::new(new_input) };
            proof {
                assert(out@ == prune(t0, reqs0));
                assert(gets@ =~~= merge(g0, t0, reqs0));
            }
            out
        },
        RelationExpr::Threshold { input } => {
            let new_input = propagate(*input, columns, gets, env);
            let out = RelationExpr::Threshold { input: Box::new(new_input) };
            proof {
                assert(out@ == prune(t0, reqs0));
                assert(gets@ =~~= merge(g0, t0, reqs0));
            }
            out
        },
        RelationExpr::ArrangeBy { input } => {
            let new_input = propagate(*input, columns, gets, env);
            let out = RelationExpr::ArrangeBy { input: Box::new(new_input) };
            proof {
                assert(out@ == prune(t0, reqs0));
                assert(gets@ =~~= merge(g0, t0, reqs0));
            }
            out
        },
        RelationExpr::Union { base, inputs } => {
            let ghost bp = (*base)@;
            let ghost in0 = inputs@;
            let ghost plans = crate::relation::plans_from(in0, 0);
            let n = inputs.len();
            let ghost csets = Seq::new(plans.len(), |i: int| reqs0);
            proof {
                crate::relation::lemma_plans_from(in0, 0);
                lemma_wf_shape_children(plans, 0);
                lemma_wf_binds_children(plans, env@, 0);
            }
            let ghost ub = |i: Id| uses(bp, reqs0, i);
            let nb = columns.duplicate();
            let new_base = propagate(*base, nb, gets, env);
            proof {
                lemma_children_init(g0, gets@, ub, plans, csets);
            }
            let mut inputs = inputs;
            let mut new_inputs: Vec<RelationExpr> = Vec::new();
            let mut k: usize = 0;
            while k < n
                invariant
                    0 <= k <= n,
                    inputs@ == in0.subrange(k as int, n as int),
                    new_inputs@.len() == k,
                    forall|q: int|
                        0 <= q < k ==> (#[trigger] new_inputs@[q])@ == prune(plans[q], reqs0),
                    gets.wf(),
                    gets@ == table_state(g0, ub, plans, csets, k as int),
                decreases n - k,
            {
                let ghost gprev = gets@;
                let inp = inputs.remove(0);
                proof {
                    assert(inp == in0[k as int]);
                    assert(inp@ == plans[k as int]);
                    assert(decreases_to!(r0 => r0->Union_inputs));
                    assert(r0->Union_inputs@ == in0);
                    assert(decreases_to!(r0->Union_inputs => in0));
                    assert(decreases_to!(in0 => in0[k as int]));
                    assert(decreases_to!(r0 => inp));
                    assert(inputs@ =~= in0.subrange(k + 1, n as int));
                }
                let ncs = columns.duplicate();
                let new_inp = propagate(inp, ncs, gets, env);
                new_inputs.push(new_inp);
                proof {
                    assert(csets[k as int] == reqs0);
                    lemma_children_step(g0, gprev, gets@, ub, plans, csets, k as int);
                }
                k += 1;
            }
            let out = RelationExpr::Union { base: Box::new(new_base), inputs: new_inputs };
            proof {
                assert(plans.take(n as int) =~= plans);
                assert(csets.take(n as int) =~= csets);
                lemma_prune_children(plans, csets, 0);
                crate::relation::lemma_plans_from(new_inputs@, 0);
                assert(crate::relation::plans_from(new_inputs@, 0) =~= prune_children(
                    plans,
                    csets,
                    0,
                )) by {
                    assert forall|q2: int| 0 <= q2 < n implies crate::relation::plans_from(
                        new_inputs@,
                        0,
                    )[q2] == prune_children(plans, csets, 0)[q2] by {
                        assert(csets[q2] == reqs0);
                        assert(new_inputs@[q2]@ == prune(plans[q2], reqs0));
                    }
                }
                assert(Seq::new(plans.len(), |q2: int| reqs0) =~= csets);
                assert(out@ == prune(t0, reqs0));
                assert(gets@ =~~= merge(g0, t0, reqs0)) by {
                    assert(gets@ == table_state(g0, ub, plans, csets, n as int));
                    assert forall|i: Id| true implies uses(t0, reqs0, i) == ub(i)
                        + uses_children(plans.take(n as int), csets.take(n as int), i, 0) by {
                        assert(t0 == (Plan::Union { base: Box::new(bp), inputs: plans }));
                        assert(Seq::new(plans.len(), |q2: int| reqs0) =~= csets);
                    }
                }
            }
            out
        },
        RelationExpr::Join { inputs, equivalences } => {
            let ghost in0 = inputs@;
            let ghost plans = crate::relation::plans_from(in0, 0);
            let ghost typs = input_typs(plans, 0);
            let ghost classes = crate::relation::class_views(equivalences@);
            let n = inputs.len();
            proof {
                crate::relation::lemma_plans_from(in0, 0);
                lemma_wf_shape_children(plans, 0);
                lemma_wf_binds_children(plans, env@, 0);
                lemma_input_typs(plans, 0);
                lemma_prior_flatten(typs);
                assert(typ_of(t0) == typs.flatten());
            }
            let mut input_types: Vec<Vec<bool>> = Vec::new();
            let mut i: usize = 0;
            while i < n
                invariant
                    0 <= i <= n,
                    input_types@.len() == i,
                    forall|q: int|
                        0 <= q < i ==> (#[trigger] input_types@[q])@ == typ_of(plans[q]),
                decreases n - i,
            {
                let ti = inputs[i].typ();
                input_types.push(ti);
                i += 1;
            }
            proof {
                assert(Seq::new(input_types@.len(), |q: int| input_types@[q]@) =~= typs);
            }
            let mapper = JoinInputMapper::new_from_input_types(&input_types);
            let mut new_columns = mapper.split_column_set_by_input(&columns);
            let ghost sets0 = Seq::new(typs.len(), |rel: int| split_set(typs, reqs0, rel));
            proof {
                assert(crate::gets::sets_view(new_columns@) =~= sets0);
            }
            let en = equivalences.len();
            let mut q: usize = 0;
            while q < en
                invariant
                    0 <= q <= en,
                    en == classes.len(),
                    new_columns@.len() == n,
                    crate::gets::sets_view(new_columns@) == equiv_fold(
                        sets0,
                        typs,
                        classes.take(q as int),
                        0,
                    ),
                decreases en - q,
            {
                let ghost sv = crate::gets::sets_view(new_columns@);
                let cm = equivalences[q].len();
                let mut constrained = false;
                let mut jj: usize = 0;
                while jj < cm
                    invariant
                        0 <= jj <= cm,
                        0 <= q < en,
                        cm == classes[q as int].len(),
                        new_columns@.len() == n,
                        sv == crate::gets::sets_view(new_columns@),
                        constrained <==> exists|p: int|
                            0 <= p < jj && ((#[trigger] classes[q as int][p])
                                matches ScalarExpr::Column(c) && {
                                let rel = owner_of(typs, c as int);
                                let col = local_of(typs, c as int);
                                sv[rel].contains(col as usize) || !typs[rel][col]
                            }),
                    decreases cm - jj,
                {
                    match &equivalences[q][jj] {
                        ScalarExpr::Column(c) => {
                            proof {
                                assert(classes[q as int][jj as int] == (ScalarExpr::Column(
                                    *c,
                                )));
                                assert(classes[q as int][jj as int].cols_bounded(
                                    arity_of(t0),
                                ));
                                lemma_prior_flatten(typs);
                            }
                            let (col, rel) = mapper.map_column_to_local(*c);
                            if new_columns[rel].contains(col) || !input_types[rel][col] {
                                constrained = true;
                            }
                        },
                        _ => {},
                    }
                    jj += 1;
                }
                proof {
                    assert(constrained == class_constrained(sv, typs, classes[q as int]));
                }
                if constrained {
                    let mut next: Vec<ColumnSet> = Vec::new();
                    let mut rel: usize = 0;
                    while rel < n
                        invariant
                            0 <= rel <= n,
                            0 <= q < en,
                            cm == classes[q as int].len(),
                            new_columns@.len() == n,
                            sv == crate::gets::sets_view(new_columns@),
                            next@.len() == rel,
                            forall|p: int|
                                0 <= p < rel ==> (#[trigger] next@[p])@ == sv[p].union(
                                    class_cols(typs, classes[q as int], p),
                                ),
                        decreases n - rel,
                    {
                        let mut s2 = new_columns[rel].duplicate();
                        let mut p: usize = 0;
                        while p < cm
                            invariant
                                0 <= p <= cm,
                                0 <= rel < n,
                                0 <= q < en,
                                cm == classes[q as int].len(),
                                new_columns@.len() == n,
                                sv == crate::gets::sets_view(new_columns@),
                                s2@ == sv[rel as int].union(
                                    Set::new(
                                        |x: usize|
                                            exists|pp: int|
                                                0 <= pp < p && ((#[trigger] classes[q as int][pp])
                                                    matches ScalarExpr::Column(c) && owner_of(
                                                    typs,
                                                    c as int,
                                                ) == rel && local_of(typs, c as int) == x),
                                    ),
                                ),
                            decreases cm - p,
                        {
                            match &equivalences[q][p] {
                                ScalarExpr::Column(c) => {
                                    proof {
                                        assert(classes[q as int][p as int] == (
                                        ScalarExpr::Column(*c)));
                                        assert(classes[q as int][p as int].cols_bounded(
                                            arity_of(t0),
                                        ));
                                        lemma_prior_flatten(typs);
                                    }
                                    let (col, r2) = mapper.map_column_to_local(*c);
                                    if r2 == rel {
                                        s2.insert(col);
                                    }
                                    proof {
                                        assert(s2@ =~= sv[rel as int].union(
                                            Set::new(
                                                |x: usize|
                                                    exists|pp: int|
                                                        0 <= pp < p + 1 && ((
                                                        #[trigger] classes[q as int][pp])
                                                            matches ScalarExpr::Column(cc)
                                                            && owner_of(typs, cc as int) == rel
                                                            && local_of(typs, cc as int) == x),
                                            ),
                                        ));
                                    }
                                },
                                _ => {
                                    proof {
                                        assert(s2@ =~= sv[rel as int].union(
                                            Set::new(
                                                |x: usize|
                                                    exists|pp: int|
                                                        0 <= pp < p + 1 && ((
                                                        #[trigger] classes[q as int][pp])
                                                            matches ScalarExpr::Column(cc)
                                                            && owner_of(typs, cc as int) == rel
                                                            && local_of(typs, cc as int) == x),
                                            ),
                                        ));
                                    }
                                },
                            }
                            p += 1;
                        }
                        proof {
                            let cls = classes[q as int];
                            let rr = rel as int;
                            assert forall|x: usize| s2@.contains(x) implies sv[rr].union(
                                class_cols(typs, cls, rr),
                            ).contains(x) by {
                                lemma_prior_flatten(typs);
                                if !sv[rr].contains(x) {
                                    let pp = choose|pp: int|
                                        0 <= pp < cm && ((#[trigger] cls[pp])
                                            matches ScalarExpr::Column(cc) && owner_of(
                                            typs,
                                            cc as int,
                                        ) == rr && local_of(typs, cc as int) == x);
                                    let cc = cls[pp]->Column_0;
                                    assert(cls[pp] == (ScalarExpr::Column(cc)));
                                    assert(cls[pp].cols_bounded(arity_of(t0)));
                                    assert((cc as int) < prior_arity(typs, typs.len() as int));
                                    lemma_owner_range(typs, cc as int);
                                    assert(cc as int == prior_arity(typs, rr) + local_of(
                                        typs,
                                        cc as int,
                                    ));
                                    assert(cls[pp] == (ScalarExpr::Column(
                                        ((prior_arity(typs, rr) + x) as usize),
                                    )));
                                    assert(x < typs[rr].len());
                                    assert(class_cols(typs, cls, rr).contains(x));
                                }
                            }
                            assert forall|x: usize| sv[rr].union(
                                class_cols(typs, cls, rr),
                            ).contains(x) implies s2@.contains(x) by {
                                lemma_prior_flatten(typs);
                                if !sv[rr].contains(x) {
                                    let pp = choose|pp: int|
                                        0 <= pp < cls.len() && (#[trigger] cls[pp]) == (
                                        ScalarExpr::Column(
                                            ((prior_arity(typs, rr) + x) as usize),
                                        )) && x < typs[rr].len();
                                    lemma_prior_mono_simple(typs, rr + 1, typs.len() as int);
                                    lemma_prior_mono_simple(typs, rr, rr + 1);
                                    assert(prior_arity(typs, rr + 1) == prior_arity(typs, rr)
                                        + typs[rr].len());
                                    lemma_owner_unique(typs, prior_arity(typs, rr) + x, rr);
                                    let cc = (prior_arity(typs, rr) + x) as usize;
                                    assert(owner_of(typs, cc as int) == rr && local_of(
                                        typs,
                                        cc as int,
                                    ) == x);
                                }
                            }
                            assert(s2@ =~= sv[rr].union(class_cols(typs, cls, rr)));
                        }
                        next.push(s2);
                        rel += 1;
                    }
                    new_columns = next;
                    proof {
                        assert(crate::gets::sets_view(new_columns@) =~= apply_class(
                            sv,
                            typs,
                            classes[q as int],
                        ));
                        lemma_equiv_fold_snoc(sets0, typs, classes, q as int, 0);
                    }
                } else {
                    proof {
                        assert(apply_class(sv, typs, classes[q as int]) == sv);
                        lemma_equiv_fold_snoc(sets0, typs, classes, q as int, 0);
                    }
                }
                q += 1;
            }
            let ghost csets = join_child_sets(typs, classes, reqs0);
            proof {
                assert(classes.take(en as int) =~= classes);
                assert(crate::gets::sets_view(new_columns@) == csets);
                lemma_join_sets_bounded(typs, classes, reqs0);
            }
            let mut inputs = inputs;
            let mut new_inputs: Vec<RelationExpr> = Vec::new();
            let ghost ncols0 = new_columns@;
            let ghost ub = |i: Id| Seq::<Set<usize>>::empty();
            proof {
                lemma_children_init(g0, gets@, ub, plans, csets);
            }
            let mut k: usize = 0;
            while k < n
                invariant
                    0 <= k <= n,
                    inputs@ == in0.subrange(k as int, n as int),
                    new_columns@ == ncols0.subrange(k as int, n as int),
                    ncols0.len() == n,
                    crate::gets::sets_view(ncols0) == csets,
                    new_inputs@.len() == k,
                    forall|q2: int|
                        0 <= q2 < k ==> (#[trigger] new_inputs@[q2])@ == prune(
                            plans[q2],
                            csets[q2],
                        ),
                    gets.wf(),
                    gets@ == table_state(g0, ub, plans, csets, k as int),
                decreases n - k,
            {
                let ghost gprev = gets@;
                let inp = inputs.remove(0);
                let ncs = new_columns.remove(0);
                proof {
                    assert(inp == in0[k as int]);
                    assert(inp@ == plans[k as int]);
                    assert(ncs == ncols0[k as int]);
                    assert(ncs@ == csets[k as int]);
                    assert(decreases_to!(r0 => r0->Join_inputs));
                    assert(r0->Join_inputs@ == in0);
                    assert(decreases_to!(r0->Join_inputs => in0));
                    assert(decreases_to!(in0 => in0[k as int]));
                    assert(decreases_to!(r0 => inp));
                    assert(inputs@ =~= in0.subrange(k + 1, n as int));
                    assert(new_columns@ =~= ncols0.subrange(k + 1, n as int));
                    assert(bounded(ncs@, arity_of(plans[k as int]))) by {
                        assert(typs[k as int] == typ_of(plans[k as int]));
                    }
                }
                let new_inp = propagate(inp, ncs, gets, env);
                new_inputs.push(new_inp);
                proof {
                    lemma_children_step(g0, gprev, gets@, ub, plans, csets, k as int);
                }
                k += 1;
            }
            let out = RelationExpr::Join { inputs: new_inputs, equivalences };
            proof {
                assert(plans.take(n as int) =~= plans);
                assert(csets.take(n as int) =~= csets);
                lemma_prune_children(plans, csets, 0);
                crate::relation::lemma_plans_from(new_inputs@, 0);
                assert(crate::relation::plans_from(new_inputs@, 0) =~= prune_children(
                    plans,
                    csets,
                    0,
                )) by {
                    assert forall|q2: int| 0 <= q2 < n implies crate::relation::plans_from(
                        new_inputs@,
                        0,
                    )[q2] == prune_children(plans, csets, 0)[q2] by {
                        assert(new_inputs@[q2]@ == prune(plans[q2], csets[q2]));
                    }
                }
                assert(out@ == prune(t0, reqs0));
                assert(gets@ =~~= merge(g0, t0, reqs0)) by {
                    assert(gets@ == table_state(g0, ub, plans, csets, n as int));
                    assert forall|i: Id| true implies uses(t0, reqs0, i) == ub(i) + uses_children(
                        plans.take(n as int),
                        csets.take(n as int),
                        i,
                        0,
                    ) by {
                        assert(t0 == (Plan::Join { inputs: plans, equivalences: classes }));
                        assert(ub(i) + uses_children(plans, csets, i, 0) =~= uses_children(
                            plans,
                            csets,
                            i,
                            0,
                        ));
                    }
                }
            }
            out
        },
    }
}

/// The side-table after a `Let`: the binding's entry is cleared, filled by
/// the body, harvested, and restored; other bindings accumulate the body's
/// recordings and then the value's.
proof fn lemma_let_merge(
    g0: Map<Id, Seq<Set<usize>>>,
    g1: Map<Id, Seq<Set<usize>>>,
    gb: Map<Id, Seq<Set<usize>>>,
    g2: Map<Id, Seq<Set<usize>>>,
    g3: Map<Id, Seq<Set<usize>>>,
    gf: Map<Id, Seq<Set<usize>>>,
    t0: Plan,
    vp: Plan,
    bp: Plan,
    reqs0: Set<usize>,
    id: u64,
    had_prior: bool,
    need: Set<usize>,
    analyzed: bool,
)
    requires
        t0 == (Plan::Let { id, value: Box::new(vp), body: Box::new(bp) }),
        g1 == g0.insert(Id::Local(id), Seq::<Set<usize>>::empty()),
        gb == merge(g1, bp, reqs0),
        g2 == gb.remove(Id::Local(id)),
        had_prior ==> g0.contains_key(Id::Local(id)) && g3 == g2.insert(
            Id::Local(id),
            g0[Id::Local(id)],
        ),
        !had_prior ==> !g0.contains_key(Id::Local(id)) && g3 == g2,
        analyzed ==> uses(bp, reqs0, Id::Local(id)).len() > 0 && need == inter_from(
            uses(bp, reqs0, Id::Local(id)),
            0,
        ) && gf == merge(g3, vp, need),
        !analyzed ==> uses(bp, reqs0, Id::Local(id)).len() == 0 && gf == g3,
    ensures
        gf =~~= merge(g0, t0, reqs0),
{
    let lid = Id::Local(id);
    assert forall|i: Id| true implies #[trigger] gf.contains_key(i) == merge(
        g0,
        t0,
        reqs0,
    ).contains_key(i) && (gf.contains_key(i) ==> gf[i] =~= merge(g0, t0, reqs0)[i]) by {
        let bu = uses(bp, reqs0, lid);
        let e0: Seq<Set<usize>> = if g0.contains_key(i) {
            g0[i]
        } else {
            Seq::empty()
        };
        if i == lid {
            if analyzed {
                assert(uses(t0, reqs0, i) == uses(vp, need, i));
                if gf.contains_key(i) {
                    assert(gf[i] =~= e0 + uses(t0, reqs0, i));
                }
            } else {
                assert(uses(t0, reqs0, i) =~= Seq::<Set<usize>>::empty());
                if gf.contains_key(i) {
                    assert(gf[i] =~= e0 + uses(t0, reqs0, i));
                }
            }
        } else {
            if analyzed {
                assert(uses(t0, reqs0, i) == uses(bp, reqs0, i) + uses(vp, need, i));
                assert(g3.contains_key(i) == gb.contains_key(i));
                if gf.contains_key(i) {
                    assert(gf[i] =~= (e0 + uses(bp, reqs0, i)) + uses(vp, need, i));
                    assert((e0 + uses(bp, reqs0, i)) + uses(vp, need, i) =~= e0 + (uses(
                        bp,
                        reqs0,
                        i,
                    ) + uses(vp, need, i)));
                }
            } else {
                assert(uses(t0, reqs0, i) == uses(bp, reqs0, i) + Seq::<Set<usize>>::empty());
                assert(uses(t0, reqs0, i) =~= uses(bp, reqs0, i));
                if gf.contains_key(i) {
                    assert(gf[i] =~= e0 + uses(t0, reqs0, i));
                }
            }
        }
    }
}

} // verus!



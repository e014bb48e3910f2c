//! The laws of the pass, stated over the functional specification and proved
//! once for all plans: idempotence, monotone pruning of constants, the map
//! null-literal short-circuit, the unused-binding rule, and union
//! independence.

use vstd::prelude::*;
use crate::scalar::Datum;
use crate::scalar::ScalarExpr;
use crate::relation::Id;
use crate::relation::Plan;
use crate::relation::typ_of;
use crate::relation::arity_of;
use crate::relation::input_typs;
use crate::relation::lemma_input_typs;
use crate::analysis::row_ok;
use crate::analysis::keep_rows;
use crate::analysis::prune;
use crate::analysis::prune_children;
use crate::analysis::lemma_prune_children;
use crate::analysis::uses;
use crate::analysis::uses_children;
use crate::analysis::shortcircuits;
use crate::analysis::inter_from;
use crate::analysis::apply_class;
use crate::analysis::class_constrained;
use crate::analysis::class_cols;
use crate::analysis::owner_of;
use crate::analysis::local_of;
use crate::analysis::prior_arity;
use crate::analysis::lemma_owner_range;

verus! {

/// The kept rows are a subsequence of the original rows: never more of them,
/// each satisfying every requirement, each present in the original; and
/// every original row is either kept or null in some required column.
pub proof fn lemma_keep_rows(rows: Seq<(Seq<Datum>, isize)>, reqs: Set<usize>)
    ensures
        keep_rows(rows, reqs).len() <= rows.len(),
        forall|i: int|
            0 <= i < keep_rows(rows, reqs).len() ==> row_ok(
                (#[trigger] keep_rows(rows, reqs)[i]).0,
                reqs,
            ) && rows.contains(keep_rows(rows, reqs)[i]),
        forall|i: int|
            0 <= i < rows.len() ==> keep_rows(rows, reqs).contains(#[trigger] rows[i])
                || !row_ok(rows[i].0, reqs),
    decreases rows.len(),
{
    if rows.len() > 0 {
        let prefix = rows.drop_last();
        lemma_keep_rows(prefix, reqs);
        assert(forall|i: int| 0 <= i < prefix.len() ==> prefix[i] == rows[i]);
        assert forall|i: int| 0 <= i < keep_rows(rows, reqs).len() implies row_ok(
            (#[trigger] keep_rows(rows, reqs)[i]).0,
            reqs,
        ) && rows.contains(keep_rows(rows, reqs)[i]) by {
            if i < keep_rows(prefix, reqs).len() {
                assert(keep_rows(rows, reqs)[i] == keep_rows(prefix, reqs)[i]);
                assert(prefix.contains(keep_rows(prefix, reqs)[i]));
                let j = choose|j: int|
                    0 <= j < prefix.len() && #[trigger] prefix[j] == keep_rows(prefix, reqs)[i];
                assert(rows[j] == keep_rows(rows, reqs)[i]);
            } else {
                assert(keep_rows(rows, reqs)[i] == rows.last());
            }
        }
        assert forall|i: int| 0 <= i < rows.len() implies keep_rows(rows, reqs).contains(
            #[trigger] rows[i],
        ) || !row_ok(rows[i].0, reqs) by {
            if i < rows.len() - 1 {
                if keep_rows(prefix, reqs).contains(rows[i]) {
                    let j = choose|j: int|
                        0 <= j < keep_rows(prefix, reqs).len() && #[trigger] keep_rows(
                            prefix,
                            reqs,
                        )[j] == rows[i];
                    assert(keep_rows(rows, reqs)[j] == rows[i]);
                }
            } else {
                if row_ok(rows.last().0, reqs) {
                    assert(keep_rows(rows, reqs).last() == rows.last());
                }
            }
        }
    }
}

/// Monotone pruning for constants: propagation on a constant node keeps
/// exactly the rows that are non-null at every required column, in order;
/// it never increases the row count, never invents a row, and deletes only
/// rows that are null in some required column.
pub proof fn lemma_constant_pruning(
    rows: Seq<(Seq<Datum>, isize)>,
    typ: Seq<bool>,
    reqs: Set<usize>,
)
    ensures
        prune(Plan::Constant { rows, typ }, reqs) == (Plan::Constant {
            rows: keep_rows(rows, reqs),
            typ,
        }),
        keep_rows(rows, reqs).len() <= rows.len(),
        forall|i: int|
            0 <= i < keep_rows(rows, reqs).len() ==> row_ok(
                (#[trigger] keep_rows(rows, reqs)[i]).0,
                reqs,
            ) && rows.contains(keep_rows(rows, reqs)[i]),
        forall|i: int|
            0 <= i < rows.len() ==> keep_rows(rows, reqs).contains(#[trigger] rows[i])
                || !row_ok(rows[i].0, reqs),
{
    lemma_keep_rows(rows, reqs);
}

/// Map null-literal short-circuit: when some required computed column is a
/// null literal, the whole map node becomes an empty constant of its own
/// schema, whatever its input holds.
pub proof fn lemma_map_null_short_circuit(
    input: Plan,
    scalars: Seq<ScalarExpr>,
    reqs: Set<usize>,
    c: usize,
)
    requires
        reqs.contains(c),
        c >= arity_of(input),
        c - arity_of(input) < scalars.len(),
        scalars[c - arity_of(input)].is_literal_null_spec(),
    ensures
        prune(Plan::MapCols { input: Box::new(input), scalars }, reqs) == (Plan::Constant {
            rows: Seq::empty(),
            typ: typ_of(Plan::MapCols { input: Box::new(input), scalars }),
        }),
{
    assert(shortcircuits(scalars, arity_of(input), reqs));
}

/// A binding referenced by zero `Get`s inside its `Let`'s body is analyzed
/// with no imposed requirement: its value is left untouched.
pub proof fn lemma_let_unused_binding(id: u64, value: Plan, body: Plan, reqs: Set<usize>)
    requires
        crate::analysis::uses(body, reqs, Id::Local(id)).len() == 0,
    ensures
        prune(Plan::Let { id, value: Box::new(value), body: Box::new(body) }, reqs) == (Plan::Let {
            id,
            value: Box::new(value),
            body: Box::new(prune(body, reqs)),
        }),
{
}

/// Union independence: every branch of a union receives the same requirement
/// set, independently of what happens in the other branches.
pub proof fn lemma_union_independence(base: Plan, inputs: Seq<Plan>, reqs: Set<usize>)
    ensures
        prune(Plan::Union { base: Box::new(base), inputs }, reqs) == (Plan::Union {
            base: Box::new(prune(base, reqs)),
            inputs: crate::analysis::prune_children(
                inputs,
                Seq::new(inputs.len(), |i: int| reqs),
                0,
            ),
        }),
        forall|i: int|
            0 <= i < inputs.len() ==> crate::analysis::prune_children(
                inputs,
                Seq::new(inputs.len(), |j: int| reqs),
                0,
            )[i] == prune(#[trigger] inputs[i], reqs),
{
    crate::analysis::lemma_prune_children(inputs, Seq::new(inputs.len(), |i: int| reqs), 0);
}


/// Rows that all satisfy the requirement set are all kept.
pub proof fn lemma_keep_rows_all_ok(rows: Seq<(Seq<Datum>, isize)>, reqs: Set<usize>)
    requires
        forall|i: int| 0 <= i < rows.len() ==> row_ok((#[trigger] rows[i]).0, reqs),
    ensures
        keep_rows(rows, reqs) == rows,
    decreases rows.len(),
{
    if rows.len() > 0 {
        let prefix = rows.drop_last();
        assert(forall|i: int| 0 <= i < prefix.len() ==> prefix[i] == rows[i]);
        lemma_keep_rows_all_ok(prefix, reqs);
        assert(keep_rows(rows, reqs) =~= rows);
    } else {
        assert(keep_rows(rows, reqs) =~= rows);
    }
}

/// Pruning a constant's rows twice deletes nothing more.
pub proof fn lemma_keep_rows_idempotent(rows: Seq<(Seq<Datum>, isize)>, reqs: Set<usize>)
    ensures
        keep_rows(keep_rows(rows, reqs), reqs) == keep_rows(rows, reqs),
{
    lemma_keep_rows(rows, reqs);
    lemma_keep_rows_all_ok(keep_rows(rows, reqs), reqs);
}

/// Propagation preserves every node's schema: rows are deleted and a map may
/// become an empty constant, but always with the same column nullability.
pub proof fn lemma_prune_preserves_typ(t: Plan, reqs: Set<usize>)
    ensures
        typ_of(prune(t, reqs)) == typ_of(t),
    decreases t, 0int,
{
    match t {
        Plan::Let { id, value, body } => {
            lemma_prune_preserves_typ(*body, reqs);
        },
        Plan::Project { input, outputs } => {
            lemma_prune_preserves_typ(*input, crate::analysis::project_reqs(outputs, reqs));
            assert(typ_of(prune(t, reqs)) =~= typ_of(t));
        },
        Plan::MapCols { input, scalars } => {
            if !shortcircuits(scalars, arity_of(*input), reqs) {
                lemma_prune_preserves_typ(
                    *input,
                    crate::analysis::squeegee(scalars, arity_of(*input), reqs, 0),
                );
            }
        },
        Plan::FlatMap { input, func, exprs } => {
            lemma_prune_preserves_typ(
                *input,
                crate::analysis::flatmap_reqs(func, exprs, arity_of(*input), reqs),
            );
        },
        Plan::Filter { input, predicates } => {
            lemma_prune_preserves_typ(*input, reqs.union(crate::analysis::exprs_reqs(predicates)));
        },
        Plan::Join { inputs, equivalences } => {
            let csets = crate::analysis::join_child_sets(
                input_typs(inputs, 0),
                equivalences,
                reqs,
            );
            lemma_prune_children_typs(inputs, csets, 0);
            lemma_prune_children(inputs, csets, 0);
            lemma_input_typs(inputs, 0);
            lemma_input_typs(prune_children(inputs, csets, 0), 0);
            let pruned = prune_children(inputs, csets, 0);
            assert forall|i: int| 0 <= i < inputs.len() implies input_typs(pruned, 0)[i]
                == input_typs(inputs, 0)[i] by {
                assert(pruned[i] == prune(inputs[i], csets[i]));
                assert(typ_of(prune(inputs[i], csets[i])) == typ_of(inputs[i]));
            }
            assert(input_typs(pruned, 0) =~= input_typs(inputs, 0));
        },
        Plan::Reduce { input, group_key, aggregates } => {
            lemma_prune_preserves_typ(
                *input,
                crate::analysis::reduce_reqs(group_key, aggregates, reqs),
            );
            assert(typ_of(prune(t, reqs)) =~= typ_of(t));
        },
        Plan::TopK { input } => {
            lemma_prune_preserves_typ(*input, reqs);
        },
        Plan::Negate { input } => {
            lemma_prune_preserves_typ(*input, reqs);
        },
        Plan::Threshold { input } => {
            lemma_prune_preserves_typ(*input, reqs);
        },
        Plan::Union { base, inputs } => {
            lemma_prune_preserves_typ(*base, reqs);
        },
        Plan::ArrangeBy { input } => {
            lemma_prune_preserves_typ(*input, reqs);
        },
        _ => {},
    }
}

/// Schema preservation for the children of a join or union from `k` on.
pub proof fn lemma_prune_children_typs(v: Seq<Plan>, sets: Seq<Set<usize>>, k: int)
    requires
        0 <= k,
    ensures
        forall|i: int|
            k <= i < v.len() ==> typ_of(prune(#[trigger] v[i], sets[i])) == typ_of(v[i]),
    decreases v, v.len() - k + 1,
{
    if k < v.len() {
        lemma_prune_preserves_typ(v[k], sets[k]);
        lemma_prune_children_typs(v, sets, k + 1);
    }
}

/// A second pass records the same requirement sets against every binding as
/// the first: pruning changes no `Get`, no scalar expression and no schema.
pub proof fn lemma_uses_stable(t: Plan, reqs: Set<usize>, id: Id)
    ensures
        uses(prune(t, reqs), reqs, id) == uses(t, reqs, id),
    decreases t, 0int,
{
    match t {
        Plan::Let { id: lid, value, body } => {
            lemma_uses_stable(*body, reqs, Id::Local(lid));
            lemma_uses_stable(*body, reqs, id);
            let bu = uses(*body, reqs, Id::Local(lid));
            if bu.len() > 0 {
                lemma_uses_stable(*value, inter_from(bu, 0), id);
            }
        },
        Plan::Project { input, outputs } => {
            lemma_uses_stable(*input, crate::analysis::project_reqs(outputs, reqs), id);
        },
        Plan::MapCols { input, scalars } => {
            if !shortcircuits(scalars, arity_of(*input), reqs) {
                let sq = crate::analysis::squeegee(scalars, arity_of(*input), reqs, 0);
                lemma_prune_preserves_typ(*input, sq);
                lemma_uses_stable(*input, sq, id);
            }
        },
        Plan::FlatMap { input, func, exprs } => {
            let fr = crate::analysis::flatmap_reqs(func, exprs, arity_of(*input), reqs);
            lemma_prune_preserves_typ(*input, fr);
            lemma_uses_stable(*input, fr, id);
        },
        Plan::Filter { input, predicates } => {
            lemma_uses_stable(*input, reqs.union(crate::analysis::exprs_reqs(predicates)), id);
        },
        Plan::Join { inputs, equivalences } => {
            let typs = input_typs(inputs, 0);
            let csets = crate::analysis::join_child_sets(typs, equivalences, reqs);
            let pruned = prune_children(inputs, csets, 0);
            lemma_prune_children_typs(inputs, csets, 0);
            lemma_prune_children(inputs, csets, 0);
            lemma_input_typs(inputs, 0);
            lemma_input_typs(pruned, 0);
            assert forall|i: int| 0 <= i < inputs.len() implies input_typs(pruned, 0)[i]
                == typs[i] by {
                assert(pruned[i] == prune(inputs[i], csets[i]));
                assert(typ_of(prune(inputs[i], csets[i])) == typ_of(inputs[i]));
            }
            assert(input_typs(pruned, 0) =~= typs);
            lemma_uses_children_stable(inputs, csets, id, 0);
        },
        Plan::Reduce { input, group_key, aggregates } => {
            lemma_uses_stable(
                *input,
                crate::analysis::reduce_reqs(group_key, aggregates, reqs),
                id,
            );
        },
        Plan::TopK { input } => {
            lemma_uses_stable(*input, reqs, id);
        },
        Plan::Negate { input } => {
            lemma_uses_stable(*input, reqs, id);
        },
        Plan::Threshold { input } => {
            lemma_uses_stable(*input, reqs, id);
        },
        Plan::Union { base, inputs } => {
            lemma_uses_stable(*base, reqs, id);
            let csets = Seq::new(inputs.len(), |i: int| reqs);
            lemma_prune_children(inputs, csets, 0);
            lemma_uses_children_stable(inputs, csets, id, 0);
            assert(Seq::new(prune_children(inputs, csets, 0).len(), |i: int| reqs) =~= csets);
        },
        Plan::ArrangeBy { input } => {
            lemma_uses_stable(*input, reqs, id);
        },
        _ => {},
    }
}

/// Use-stability for the children of a join or union from `k` on.
pub proof fn lemma_uses_children_stable(v: Seq<Plan>, sets: Seq<Set<usize>>, id: Id, k: int)
    requires
        0 <= k,
    ensures
        uses_children(prune_children(v, sets, 0), sets, id, k) == uses_children(v, sets, id, k),
    decreases v, v.len() - k + 1,
{
    lemma_prune_children(v, sets, 0);
    if 0 <= k < v.len() {
        lemma_uses_stable(v[k], sets[k], id);
        lemma_uses_children_stable(v, sets, id, k + 1);
    } else {
        assert(uses_children(prune_children(v, sets, 0), sets, id, k) =~= uses_children(
            v,
            sets,
            id,
            k,
        ));
    }
}

/// Idempotence: one pass reaches a fixed point, so applying the pass twice
/// in succession under the same requirement set yields the tree of one pass.
pub proof fn lemma_prune_idempotent(t: Plan, reqs: Set<usize>)
    ensures
        prune(prune(t, reqs), reqs) == prune(t, reqs),
    decreases t, 0int,
{
    match t {
        Plan::Constant { rows, typ } => {
            lemma_keep_rows_idempotent(rows, reqs);
        },
        Plan::Let { id, value, body } => {
            lemma_uses_stable(*body, reqs, Id::Local(id));
            lemma_prune_idempotent(*body, reqs);
            let bu = uses(*body, reqs, Id::Local(id));
            if bu.len() > 0 {
                lemma_prune_idempotent(*value, inter_from(bu, 0));
            }
        },
        Plan::Project { input, outputs } => {
            lemma_prune_idempotent(*input, crate::analysis::project_reqs(outputs, reqs));
        },
        Plan::MapCols { input, scalars } => {
            if shortcircuits(scalars, arity_of(*input), reqs) {
                assert(keep_rows(Seq::<(Seq<Datum>, isize)>::empty(), reqs) =~= Seq::<
                    (Seq<Datum>, isize),
                >::empty());
            } else {
                let sq = crate::analysis::squeegee(scalars, arity_of(*input), reqs, 0);
                lemma_prune_preserves_typ(*input, sq);
                lemma_prune_idempotent(*input, sq);
            }
        },
        Plan::FlatMap { input, func, exprs } => {
            let fr = crate::analysis::flatmap_reqs(func, exprs, arity_of(*input), reqs);
            lemma_prune_preserves_typ(*input, fr);
            lemma_prune_idempotent(*input, fr);
        },
        Plan::Filter { input, predicates } => {
            lemma_prune_idempotent(*input, reqs.union(crate::analysis::exprs_reqs(predicates)));
        },
        Plan::Join { inputs, equivalences } => {
            let typs = input_typs(inputs, 0);
            let csets = crate::analysis::join_child_sets(typs, equivalences, reqs);
            let pruned = prune_children(inputs, csets, 0);
            lemma_prune_children_typs(inputs, csets, 0);
            lemma_prune_children(inputs, csets, 0);
            lemma_prune_children(pruned, csets, 0);
            lemma_input_typs(inputs, 0);
            lemma_input_typs(pruned, 0);
            assert forall|i: int| 0 <= i < inputs.len() implies input_typs(pruned, 0)[i]
                == typs[i] by {
                assert(pruned[i] == prune(inputs[i], csets[i]));
                assert(typ_of(prune(inputs[i], csets[i])) == typ_of(inputs[i]));
            }
            assert(input_typs(pruned, 0) =~= typs);
            lemma_prune_children_idempotent(inputs, csets, 0);
            assert(prune_children(pruned, csets, 0) =~= pruned);
        },
        Plan::Reduce { input, group_key, aggregates } => {
            lemma_prune_idempotent(
                *input,
                crate::analysis::reduce_reqs(group_key, aggregates, reqs),
            );
        },
        Plan::TopK { input } => {
            lemma_prune_idempotent(*input, reqs);
        },
        Plan::Negate { input } => {
            lemma_prune_idempotent(*input, reqs);
        },
        Plan::Threshold { input } => {
            lemma_prune_idempotent(*input, reqs);
        },
        Plan::Union { base, inputs } => {
            lemma_prune_idempotent(*base, reqs);
            let csets = Seq::new(inputs.len(), |i: int| reqs);
            let pruned = prune_children(inputs, csets, 0);
            lemma_prune_children(inputs, csets, 0);
            lemma_prune_children(pruned, csets, 0);
            lemma_prune_children_idempotent(inputs, csets, 0);
            assert(Seq::new(pruned.len(), |i: int| reqs) =~= csets);
            assert(prune_children(pruned, csets, 0) =~= pruned);
        },
        Plan::ArrangeBy { input } => {
            lemma_prune_idempotent(*input, reqs);
        },
        _ => {},
    }
}

/// Idempotence for the children of a join or union from `k` on.
pub proof fn lemma_prune_children_idempotent(v: Seq<Plan>, sets: Seq<Set<usize>>, k: int)
    requires
        0 <= k,
    ensures
        forall|i: int|
            k <= i < v.len() ==> prune(prune(#[trigger] v[i], sets[i]), sets[i]) == prune(
                v[i],
                sets[i],
            ),
    decreases v, v.len() - k + 1,
{
    if k < v.len() {
        lemma_prune_idempotent(v[k], sets[k]);
        lemma_prune_children_idempotent(v, sets, k + 1);
    }
}

/// Idempotence of the whole pass: a second invocation with no requirement
/// imposed at the root leaves the once-transformed plan unchanged.
pub proof fn lemma_pass_idempotent(t: Plan)
    ensures
        prune(prune(t, Set::empty()), Set::empty()) == prune(t, Set::empty()),
{
    lemma_prune_idempotent(t, Set::empty());
}


/// Join equivalence propagation: when one column-reference member of an
/// equivalence class is already required by its owning input or declared
/// non-nullable in that input's schema, applying the class requires every
/// column-reference member from its owning input — also one nothing else
/// required, from another input.
pub proof fn lemma_join_equivalence_propagation(
    sets: Seq<Set<usize>>,
    typs: Seq<Seq<bool>>,
    class: Seq<ScalarExpr>,
    j1: int,
    j2: int,
    c1: usize,
    c2: usize,
)
    requires
        sets.len() == typs.len(),
        0 <= j1 < class.len(),
        class[j1] == ScalarExpr::Column(c1),
        (c1 as int) < prior_arity(typs, typs.len() as int),
        sets[owner_of(typs, c1 as int)].contains(local_of(typs, c1 as int) as usize)
            || !typs[owner_of(typs, c1 as int)][local_of(typs, c1 as int)],
        0 <= j2 < class.len(),
        class[j2] == ScalarExpr::Column(c2),
        (c2 as int) < prior_arity(typs, typs.len() as int),
    ensures
        apply_class(sets, typs, class)[owner_of(typs, c2 as int)].contains(
            local_of(typs, c2 as int) as usize,
        ),
{
    lemma_owner_range(typs, c1 as int);
    lemma_owner_range(typs, c2 as int);
    assert(class_constrained(sets, typs, class));
    let rel = owner_of(typs, c2 as int);
    crate::analysis::lemma_prior_nonneg(typs, rel);
    assert(0 <= local_of(typs, c2 as int) <= c2 as int);
    let x = local_of(typs, c2 as int) as usize;
    assert(x as int == local_of(typs, c2 as int));
    assert(c2 as int == prior_arity(typs, rel) + x);
    assert(class[j2] == (ScalarExpr::Column(((prior_arity(typs, rel) + x) as usize))));
    assert(class_cols(typs, class, rel).contains(x));
    assert(apply_class(sets, typs, class)[rel] == sets[rel].union(class_cols(typs, class, rel)));
}

} // verus!

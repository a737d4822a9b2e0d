//! Bodies at rest.
//!
//! A part is at rest when all its inertia properties are zero. Under a law
//! that leaves parts at rest, such as the law of standstill, a body at rest
//! stays as it is, whatever the tick.

use crate::entity::{
    AnomalyModel, ComponentModel, first_value, ForceModel, lemma_first_place, Property,
    PropertyKind, with_value,
};
use crate::frame::{body_deepest, body_depth, deepest, depth, is_inertia};
use crate::integrator::{
    component_progressed, components_progressed, ELEMENTARY_TIME_UNIT, inertia_of, point_moved,
    progressed, space_moved, stepped, steps_in,
};
use crate::interaction::{
    bodies_crossed, bodies_met, each_interacted, force_applied, ForceLaw, in_domain, interacted,
    parts_crossed, parts_met, rules_crossed, sibling_bodies_met, siblings_met, siblings_ruled,
    Standstill,
};
use vstd::prelude::*;

verus! {

/// Whether every inertia property of `part` and of its sub-parts is zero.
pub open spec fn at_rest(part: ComponentModel) -> bool
    decreases part,
{
    &&& forall|i: int|
        0 <= i < part.property.len() && is_inertia((#[trigger] part.property[i]).name)
            ==> part.property[i].value == 0
    &&& forall|i: int| 0 <= i < part.component.len() ==> at_rest(#[trigger] part.component[i])
}

/// Whether every one of `parts` is at rest.
pub open spec fn all_at_rest(parts: Seq<ComponentModel>) -> bool {
    forall|i: int| 0 <= i < parts.len() ==> at_rest(#[trigger] parts[i])
}

/// Whether every part of `body` and of its sub-bodies is at rest.
pub open spec fn body_at_rest(body: AnomalyModel) -> bool
    decreases body,
{
    &&& all_at_rest(body.component)
    &&& forall|i: int| 0 <= i < body.anomaly.len() ==> body_at_rest(#[trigger] body.anomaly[i])
}

/// Whether `law` leaves parts at rest: two parts at rest to which a rule
/// applies leave with no inertia.
pub open spec fn keeps_rest<L: ForceLaw>(law: L) -> bool {
    forall|rule: ForceModel, a: ComponentModel, b: ComponentModel|
        at_rest(a) && at_rest(b) && in_domain(rule, a) && in_domain(rule, b) ==> #[trigger] law.effect(rule, a, b)
            == ([0i64, 0i64, 0i64], [0i64, 0i64, 0i64])
}

/// The law of standstill leaves parts at rest.
pub proof fn lemma_standstill_keeps_rest()
    ensures
        keeps_rest(Standstill),
{
}

/// Setting an inertia role of a bag at rest to zero changes nothing.
proof fn lemma_bag_at_rest(bag: Seq<Property>, name: PropertyKind)
    requires
        is_inertia(name),
        forall|i: int|
            0 <= i < bag.len() && is_inertia((#[trigger] bag[i]).name) ==> bag[i].value == 0,
    ensures
        with_value(bag, name, 0) == bag,
        first_value(bag, name) == Some(0i64) || first_value(bag, name) == None::<i64>,
{
    lemma_first_place(bag, name, 0);
}

/// A law that keeps rest leaves two parts at rest as they are.
proof fn lemma_force_applied_at_rest<L: ForceLaw>(
    law: L,
    rule: ForceModel,
    a: ComponentModel,
    b: ComponentModel,
)
    requires
        keeps_rest(law),
        at_rest(a),
        at_rest(b),
    ensures
        force_applied(law, rule, a, b) == (a, b),
{
    lemma_bag_at_rest(a.property, PropertyKind::InertiaX);
    lemma_bag_at_rest(a.property, PropertyKind::InertiaY);
    lemma_bag_at_rest(a.property, PropertyKind::InertiaZ);
    lemma_bag_at_rest(b.property, PropertyKind::InertiaX);
    lemma_bag_at_rest(b.property, PropertyKind::InertiaY);
    lemma_bag_at_rest(b.property, PropertyKind::InertiaZ);
}

/// Two parts at rest that meet under a law that keeps rest stay as they
/// are.
proof fn lemma_parts_met_at_rest<L: ForceLaw>(law: L, rule: ForceModel, a: ComponentModel, b: ComponentModel)
    requires
        keeps_rest(law),
        at_rest(a),
        at_rest(b),
    ensures
        parts_met(law, rule, a, b) == (a, b),
    decreases depth(a), 0nat, 0nat, 0nat,
{
    lemma_parts_crossed_at_rest(law, rule, a.component, b.component, a.component.len(), 0);
    lemma_force_applied_at_rest(law, rule, a, b);
}

/// Parts at rest that meet one another in turn stay as they are.
proof fn lemma_parts_crossed_at_rest<L: ForceLaw>(
    law: L,
    rule: ForceModel,
    xs: Seq<ComponentModel>,
    ys: Seq<ComponentModel>,
    i: nat,
    j: nat,
)
    requires
        keeps_rest(law),
        all_at_rest(xs),
        all_at_rest(ys),
    ensures
        parts_crossed(law, rule, xs, ys, i, j) == (xs, ys),
    decreases deepest(xs, xs.len()), 1nat, i, j,
{
    if j > 0 {
        lemma_parts_crossed_at_rest(law, rule, xs, ys, i, (j - 1) as nat);
        if i < xs.len() && j - 1 < ys.len() && depth(xs[i as int]) <= deepest(
            xs,
            xs.len(),
        ) {
            lemma_parts_met_at_rest(law, rule, xs[i as int], ys[j - 1]);
        }
    } else if i > 0 {
        lemma_parts_crossed_at_rest(law, rule, xs, ys, (i - 1) as nat, ys.len());
    }
}

/// Parts at rest that cross under several rules stay as they are.
proof fn lemma_rules_crossed_at_rest<L: ForceLaw>(
    law: L,
    rules: Seq<ForceModel>,
    xs: Seq<ComponentModel>,
    ys: Seq<ComponentModel>,
    r: nat,
)
    requires
        keeps_rest(law),
        all_at_rest(xs),
        all_at_rest(ys),
    ensures
        rules_crossed(law, rules, xs, ys, r) == (xs, ys),
    decreases r,
{
    if r > 0 {
        lemma_rules_crossed_at_rest(law, rules, xs, ys, (r - 1) as nat);
        if r - 1 < rules.len() {
            lemma_parts_crossed_at_rest(law, rules[r - 1], xs, ys, xs.len(), 0);
        }
    }
}

/// Whether every one of `bodies` is at rest.
pub open spec fn all_bodies_at_rest(bodies: Seq<AnomalyModel>) -> bool {
    forall|i: int| 0 <= i < bodies.len() ==> body_at_rest(#[trigger] bodies[i])
}

/// Two bodies at rest that meet under a law that keeps rest stay as they
/// are.
proof fn lemma_bodies_met_at_rest<L: ForceLaw>(law: L, a: AnomalyModel, b: AnomalyModel)
    requires
        keeps_rest(law),
        body_at_rest(a),
        body_at_rest(b),
    ensures
        bodies_met(law, a, b) == (a, b),
    decreases body_depth(a), 0nat, 0nat, 0nat,
{
    lemma_bodies_crossed_at_rest(law, a.anomaly, b.anomaly, a.anomaly.len(), 0);
    lemma_rules_crossed_at_rest(law, a.force, a.component, b.component, a.force.len());
}

/// Bodies at rest that meet one another in turn stay as they are.
proof fn lemma_bodies_crossed_at_rest<L: ForceLaw>(
    law: L,
    xs: Seq<AnomalyModel>,
    ys: Seq<AnomalyModel>,
    i: nat,
    j: nat,
)
    requires
        keeps_rest(law),
        all_bodies_at_rest(xs),
        all_bodies_at_rest(ys),
    ensures
        bodies_crossed(law, xs, ys, i, j) == (xs, ys),
    decreases body_deepest(xs, xs.len()), 1nat, i, j,
{
    if j > 0 {
        lemma_bodies_crossed_at_rest(law, xs, ys, i, (j - 1) as nat);
        if i < xs.len() && j - 1 < ys.len() && body_depth(xs[i as int])
            <= body_deepest(xs, xs.len()) {
            lemma_bodies_met_at_rest(law, xs[i as int], ys[j - 1]);
        }
    } else if i > 0 {
        lemma_bodies_crossed_at_rest(law, xs, ys, (i - 1) as nat, ys.len());
    }
}

/// Sibling parts at rest that work off rounds of pairs stay as they are.
proof fn lemma_siblings_met_at_rest<L: ForceLaw>(
    law: L,
    rule: ForceModel,
    parts: Seq<ComponentModel>,
    rounds: Seq<Seq<(int, int)>>,
    r: nat,
    t: nat,
)
    requires
        keeps_rest(law),
        all_at_rest(parts),
    ensures
        siblings_met(law, rule, parts, rounds, r, t) == parts,
    decreases r, t,
{
    if t > 0 {
        lemma_siblings_met_at_rest(law, rule, parts, rounds, r, (t - 1) as nat);
        if r < rounds.len() && t - 1 < rounds[r as int].len() {
            let pair = rounds[r as int][t - 1];
            if 0 <= pair.0 < parts.len() && 0 <= pair.1 < parts.len() && pair.0 != pair.1 {
                lemma_parts_met_at_rest(law, rule, parts[pair.0], parts[pair.1]);
            }
        }
    } else if r > 0 {
        lemma_siblings_met_at_rest(
            law,
            rule,
            parts,
            rounds,
            (r - 1) as nat,
            if r - 1 < rounds.len() {
                rounds[r - 1].len()
            } else {
                0
            },
        );
    }
}

/// Sibling parts at rest that work off their schedule under several rules
/// stay as they are.
proof fn lemma_siblings_ruled_at_rest<L: ForceLaw>(
    law: L,
    rules: Seq<ForceModel>,
    parts: Seq<ComponentModel>,
    k: nat,
)
    requires
        keeps_rest(law),
        all_at_rest(parts),
    ensures
        siblings_ruled(law, rules, parts, k) == parts,
    decreases k,
{
    if k > 0 {
        lemma_siblings_ruled_at_rest(law, rules, parts, (k - 1) as nat);
        if k - 1 < rules.len() {
            let rounds = crate::schedule::schedule(parts.len() as int);
            lemma_siblings_met_at_rest(law, rules[k - 1], parts, rounds, rounds.len(), 0);
        }
    }
}

/// Sibling bodies at rest that work off rounds of pairs stay as they are.
proof fn lemma_sibling_bodies_met_at_rest<L: ForceLaw>(
    law: L,
    bodies: Seq<AnomalyModel>,
    rounds: Seq<Seq<(int, int)>>,
    r: nat,
    t: nat,
)
    requires
        keeps_rest(law),
        all_bodies_at_rest(bodies),
    ensures
        sibling_bodies_met(law, bodies, rounds, r, t) == bodies,
    decreases r, t,
{
    if t > 0 {
        lemma_sibling_bodies_met_at_rest(law, bodies, rounds, r, (t - 1) as nat);
        if r < rounds.len() && t - 1 < rounds[r as int].len() {
            let pair = rounds[r as int][t - 1];
            if 0 <= pair.0 < bodies.len() && 0 <= pair.1 < bodies.len() && pair.0 != pair.1 {
                lemma_bodies_met_at_rest(law, bodies[pair.0], bodies[pair.1]);
            }
        }
    } else if r > 0 {
        lemma_sibling_bodies_met_at_rest(
            law,
            bodies,
            rounds,
            (r - 1) as nat,
            if r - 1 < rounds.len() {
                rounds[r - 1].len()
            } else {
                0
            },
        );
    }
}

/// A pass of interaction under a law that keeps rest leaves a body at rest
/// as it is.
pub proof fn lemma_interacted_at_rest<L: ForceLaw>(law: L, body: AnomalyModel)
    requires
        keeps_rest(law),
        body_at_rest(body),
    ensures
        interacted(law, body) == body,
    decreases body,
{
    let inner = each_interacted(law, body.anomaly);
    assert forall|i: int| 0 <= i < body.anomaly.len() implies inner[i] == #[trigger] body.anomaly[i] by {
        lemma_interacted_at_rest(law, body.anomaly[i]);
    }
    assert(inner =~= body.anomaly);
    let rounds = crate::schedule::schedule(inner.len() as int);
    lemma_sibling_bodies_met_at_rest(law, inner, rounds, rounds.len(), 0);
    lemma_siblings_ruled_at_rest(law, body.force, body.component, body.force.len());
}

/// Moving a part at rest leaves it where it is, whatever the time: moving
/// it again changes nothing either.
pub proof fn lemma_progress_at_rest(part: ComponentModel, time: u64)
    requires
        at_rest(part),
    ensures
        component_progressed(part, time) == part,
    decreases part,
{
    let after = component_progressed(part, time);
    assert forall|i: int| 0 <= i < part.component.len() implies after.component[i] == #[trigger] part.component[i] by {
        lemma_progress_at_rest(part.component[i], time);
    }
    assert(after.component =~= part.component);
    lemma_bag_at_rest(part.property, PropertyKind::InertiaX);
    lemma_bag_at_rest(part.property, PropertyKind::InertiaY);
    lemma_bag_at_rest(part.property, PropertyKind::InertiaZ);
    match inertia_of(part.property) {
        Some(inertia) => {
            assert forall|c: int| 0 <= c < part.composition.len() implies after.composition[c]
                == #[trigger] part.composition[c] by {
                let space = part.composition[c].space;
                assert forall|k: int| 0 <= k < space.len() implies point_moved(#[trigger] space[k], inertia, time)
                    == space[k] by {
                    assert(inertia[0] * time == 0 && inertia[1] * time == 0 && inertia[2] * time == 0)
                        by (nonlinear_arith)
                        requires
                            inertia[0] == 0 && inertia[1] == 0 && inertia[2] == 0,
                    ;
                }
                assert(space_moved(space, inertia, time) =~= space);
            }
            assert(after.composition =~= part.composition);
        },
        None => {},
    }
}

/// A body at rest stays as it is through any tick under a law that keeps
/// rest: no point moves and no property changes.
pub proof fn lemma_tick_at_rest<L: ForceLaw>(law: L, body: AnomalyModel, time: u64)
    requires
        keeps_rest(law),
        body_at_rest(body),
    ensures
        progressed(law, body, time) == body,
{
    lemma_interacted_at_rest(law, body);
    lemma_steps_at_rest(body, steps_in(time));
}

/// A body whose parts are at rest stays as it is through any number of
/// steps.
proof fn lemma_steps_at_rest(body: AnomalyModel, steps: nat)
    requires
        all_at_rest(body.component),
    ensures
        stepped(body, steps) == body,
    decreases steps,
{
    if steps > 0 {
        lemma_steps_at_rest(body, (steps - 1) as nat);
        let after = components_progressed(body.component, ELEMENTARY_TIME_UNIT);
        assert forall|i: int| 0 <= i < body.component.len() implies after[i] == #[trigger] body.component[i] by {
            lemma_progress_at_rest(body.component[i], ELEMENTARY_TIME_UNIT);
        }
        assert(after =~= body.component);
    }
}

} // verus!

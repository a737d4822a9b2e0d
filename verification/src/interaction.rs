//! The interaction driver: which parts meet, in which order, and what a
//! force rule does to a pair of parts.
//!
//! The effect of a rule on a pair of parts is not fixed here. It comes from
//! a `ForceLaw`, which names the inertia that both parts leave with. The
//! driver decides where a law is asked: it walks the tree of bodies, lets
//! siblings meet pair by pair in the order of the pairing schedule, and
//! applies a rule to a pair only where both parts lie in its domain.

use crate::entity::{
    anomalies_model, Anomaly, anomaly_model, AnomalyModel, Component, component_property,
    ComponentModel, components_model, first_value, Force, ForceModel, Property, set_inertia,
    with_inertia,
};
use crate::frame::{
    body_deepest, body_depth, deepest, depth, lemma_body_deepest_bounds, lemma_deepest_bounds,
    lemma_same_body_frame_depth, lemma_same_body_frames_refl, lemma_same_body_frames_trans,
    lemma_same_body_frames_update, lemma_same_frame_depth, lemma_same_frames_refl,
    lemma_same_frames_trans, lemma_same_frames_update, lemma_with_inertia_frame, same_body_frame,
    same_body_frames, same_frame, same_frames,
};
use crate::schedule::{dispatchable, named_upto, pairing_schedule, rounds_view};
use vstd::prelude::*;

verus! {

/// A law of force: what a rule does to the inertia of two parts that meet.
pub trait ForceLaw {
    /// The inertia with which `a` and `b` leave, in this order. A law says
    /// here what `apply` computes. Where it does not, nothing is known of
    /// what it computes.
    open spec fn effect(&self, rule: ForceModel, a: ComponentModel, b: ComponentModel) -> ([i64; 3], [i64; 3]) {
        arbitrary()
    }

    /// Computes the inertia with which `a` and `b` leave.
    fn apply(&self, rule: &Force, a: &Component, b: &Component) -> (inertia: ([i64; 3], [i64; 3]))
        ensures
            inertia == self.effect(rule@, a@, b@),
    ;
}

/// The law under which every pair of parts that a rule applies to comes to
/// rest.
#[derive(Clone, Copy, Debug)]
pub struct Standstill;

impl ForceLaw for Standstill {
    open spec fn effect(&self, rule: ForceModel, a: ComponentModel, b: ComponentModel) -> ([i64; 3], [i64; 3]) {
        ([0i64, 0i64, 0i64], [0i64, 0i64, 0i64])
    }

    fn apply(&self, rule: &Force, a: &Component, b: &Component) -> (inertia: ([i64; 3], [i64; 3])) {
        ([0, 0, 0], [0, 0, 0])
    }
}

/// Whether the first property of `bag` with the role of `wanted` has the
/// value of `wanted`.
pub open spec fn carries(bag: Seq<Property>, wanted: Property) -> bool {
    first_value(bag, wanted.name) == Some(wanted.value)
}

/// Whether `bag` carries the first `k` properties of `template`.
pub open spec fn fits_upto(bag: Seq<Property>, template: Seq<Property>, k: int) -> bool {
    forall|i: int| 0 <= i < k && i < template.len() ==> carries(bag, #[trigger] template[i])
}

/// Whether `part` carries every property of the first `k` templates of
/// `domain`.
pub open spec fn in_domain_upto(part: ComponentModel, domain: Seq<ComponentModel>, k: int) -> bool {
    forall|t: int|
        0 <= t < k && t < domain.len() ==> fits_upto(
            part.property,
            (#[trigger] domain[t]).property,
            domain[t].property.len() as int,
        )
}

/// Whether `rule` can apply to `part`: the part carries every property that
/// the templates of the rule name, with the value named there.
pub open spec fn in_domain(rule: ForceModel, part: ComponentModel) -> bool {
    in_domain_upto(part, rule.domain, rule.domain.len() as int)
}

/// `part` with its inertia set to `inertia`.
pub open spec fn moved_by(part: ComponentModel, inertia: [i64; 3]) -> ComponentModel {
    ComponentModel { property: with_inertia(part.property, inertia), ..part }
}

/// What `rule` does to the pair of `a` and `b` under `law`: where both lie
/// in its domain they leave with the inertia that the law names, else as
/// they came.
pub open spec fn force_applied<L: ForceLaw>(
    law: L,
    rule: ForceModel,
    a: ComponentModel,
    b: ComponentModel,
) -> (
    ComponentModel,
    ComponentModel,
) {
    if in_domain(rule, a) && in_domain(rule, b) {
        let inertia = law.effect(rule, a, b);
        (moved_by(a, inertia.0), moved_by(b, inertia.1))
    } else {
        (a, b)
    }
}

/// Whether `rule` can apply to `part`.
pub fn rule_applies(rule: &Force, part: &Component) -> (fits: bool)
    ensures
        fits == in_domain(rule@, part@),
{
    let mut t: usize = 0;
    while t < rule.domain.len()
        invariant
            t <= rule.domain@.len(),
            in_domain_upto(part@, rule@.domain, t as int),
        decreases rule.domain@.len() - t,
    {
        let template = &rule.domain[t];
        let mut i: usize = 0;
        while i < template.property.len()
            invariant
                i <= template.property@.len(),
                t < rule.domain@.len(),
                rule@.domain[t as int] == template@,
                fits_upto(part@.property, template@.property, i as int),
            decreases template.property@.len() - i,
        {
            let wanted = template.property[i];
            let found = component_property(part, wanted.name);
            let fits = match found {
                Ok(value) => value == wanted.value,
                Err(_) => false,
            };
            if !fits {
                return false;
            }
            i += 1;
        }
        t += 1;
    }
    true
}

/// Applies `f` to the pair of `a` and `b` under `law`: where both lie in
/// the domain of the rule, their inertia becomes what the law names.
pub fn force_apply<L: ForceLaw>(law: &L, f: &Force, a: &mut Component, b: &mut Component)
    ensures
        (final(a)@, final(b)@) == force_applied(*law, f@, old(a)@, old(b)@),
{
    if rule_applies(f, a) && rule_applies(f, b) {
        let inertia = law.apply(f, a, b);
        set_inertia(inertia.0, a);
        set_inertia(inertia.1, b);
    }
}

/// What becomes of two parts `a` and `b` that meet under `rule`: first
/// every sub-part of `a` meets every sub-part of `b`, then the rule is
/// applied to the two parts themselves.
pub open spec fn parts_met<L: ForceLaw>(law: L, rule: ForceModel, a: ComponentModel, b: ComponentModel) -> (
    ComponentModel,
    ComponentModel,
)
    decreases depth(a), 0nat, 0nat, 0nat,
{
    let below = parts_crossed(law, rule, a.component, b.component, a.component.len(), 0);
    force_applied(
        law,
        rule,
        ComponentModel { component: below.0, ..a },
        ComponentModel { component: below.1, ..b },
    )
}

/// What becomes of the parts `xs` and `ys` when each of the first `i` of
/// `xs` has met every one of `ys`, one after the other, and the next of
/// `xs` has met the first `j` of `ys`.
pub open spec fn parts_crossed<L: ForceLaw>(
    law: L,
    rule: ForceModel,
    xs: Seq<ComponentModel>,
    ys: Seq<ComponentModel>,
    i: nat,
    j: nat,
) -> (Seq<ComponentModel>, Seq<ComponentModel>)
    decreases deepest(xs, xs.len()), 1nat, i, j,
{
    if j > 0 {
        let before = parts_crossed(law, rule, xs, ys, i, (j - 1) as nat);
        if i < before.0.len() && j - 1 < before.1.len() && depth(before.0[i as int]) <= deepest(xs, xs.len()) {
            let met = parts_met(law, rule, before.0[i as int], before.1[j - 1]);
            (before.0.update(i as int, met.0), before.1.update(j - 1, met.1))
        } else {
            before
        }
    } else if i > 0 {
        parts_crossed(law, rule, xs, ys, (i - 1) as nat, ys.len())
    } else {
        (xs, ys)
    }
}

/// Parts that meet keep their frame.
pub proof fn lemma_parts_met_frame<L: ForceLaw>(
    law: L,
    rule: ForceModel,
    a: ComponentModel,
    b: ComponentModel,
)
    ensures
        same_frame(a, parts_met(law, rule, a, b).0),
        same_frame(b, parts_met(law, rule, a, b).1),
    decreases depth(a), 0nat, 0nat, 0nat,
{
    let below = parts_crossed(law, rule, a.component, b.component, a.component.len(), 0);
    lemma_parts_crossed_frame(law, rule, a.component, b.component, a.component.len(), 0);
    let first = ComponentModel { component: below.0, ..a };
    let second = ComponentModel { component: below.1, ..b };
    let inertia = law.effect(rule, first, second);
    lemma_with_inertia_frame(a.property, inertia.0);
    lemma_with_inertia_frame(b.property, inertia.1);
}

/// Parts that meet one another in turn keep their frames.
pub proof fn lemma_parts_crossed_frame<L: ForceLaw>(
    law: L,
    rule: ForceModel,
    xs: Seq<ComponentModel>,
    ys: Seq<ComponentModel>,
    i: nat,
    j: nat,
)
    ensures
        same_frames(xs, parts_crossed(law, rule, xs, ys, i, j).0),
        same_frames(ys, parts_crossed(law, rule, xs, ys, i, j).1),
    decreases deepest(xs, xs.len()), 1nat, i, j,
{
    if j > 0 {
        let before = parts_crossed(law, rule, xs, ys, i, (j - 1) as nat);
        lemma_parts_crossed_frame(law, rule, xs, ys, i, (j - 1) as nat);
        if i < before.0.len() && j - 1 < before.1.len() && depth(before.0[i as int]) <= deepest(xs, xs.len()) {
            let met = parts_met(law, rule, before.0[i as int], before.1[j - 1]);
            lemma_parts_met_frame(law, rule, before.0[i as int], before.1[j - 1]);
            let after = (before.0.update(i as int, met.0), before.1.update(j - 1, met.1));
            lemma_same_frames_update(before.0, i as int, met.0);
            lemma_same_frames_update(before.1, j - 1, met.1);
            lemma_same_frames_trans(xs, before.0, after.0);
            lemma_same_frames_trans(ys, before.1, after.1);
        }
    } else if i > 0 {
        lemma_parts_crossed_frame(law, rule, xs, ys, (i - 1) as nat, ys.len());
    } else {
        lemma_same_frames_refl(xs);
        lemma_same_frames_refl(ys);
    }
}

/// Lets every part of `xs` meet every part of `ys` under `rule`, row by
/// row.
fn cross_parts<L: ForceLaw>(law: &L, rule: &Force, xs: &mut Vec<Component>, ys: &mut Vec<Component>)
    ensures
        (components_model(final(xs)@), components_model(final(ys)@))
            == parts_crossed(
            *law,
            rule@,
            components_model(old(xs)@),
            components_model(old(ys)@),
            old(xs)@.len() as nat,
            0,
        ),
    decreases deepest(components_model(old(xs)@), old(xs)@.len() as nat), 1nat,
{
    let n = xs.len();
    let m = ys.len();
    let ghost xs0 = components_model(xs@);
    let ghost ys0 = components_model(ys@);
    let mut i: usize = 0;
    while i < n
        invariant
            xs@.len() == n,
            ys@.len() == m,
            xs0.len() == n,
            ys0.len() == m,
            i <= n,
            xs0 == components_model(old(xs)@),
            (components_model(xs@), components_model(ys@)) == parts_crossed(
                *law,
                rule@,
                xs0,
                ys0,
                i as nat,
                0,
            ),
        decreases n - i,
    {
        let mut j: usize = 0;
        while j < m
            invariant
                xs@.len() == n,
                ys@.len() == m,
                xs0.len() == n,
                ys0.len() == m,
                i < n,
                j <= m,
                xs0 == components_model(old(xs)@),
                (components_model(xs@), components_model(ys@)) == parts_crossed(
                    *law,
                    rule@,
                    xs0,
                    ys0,
                    i as nat,
                    j as nat,
                ),
            decreases m - j,
        {
            let ghost before = (components_model(xs@), components_model(ys@));
            proof {
                lemma_parts_crossed_frame(*law, rule@, xs0, ys0, i as nat, j as nat);
                lemma_same_frame_depth(xs0[i as int], before.0[i as int]);
                lemma_deepest_bounds(xs0, n as nat, i as int);
            }
            component_2_interact(law, rule, &mut xs[i], &mut ys[j]);
            j += 1;
        }
        i += 1;
    }
}

/// Lets the parts `a` and `b` meet under the rule `df`: every sub-part of
/// `a` meets every sub-part of `b`, then the rule is applied to the two
/// parts themselves.
pub fn component_2_interact<L: ForceLaw>(law: &L, df: &Force, a: &mut Component, b: &mut Component)
    ensures
        (final(a)@, final(b)@) == parts_met(*law, df@, old(a)@, old(b)@),
    decreases depth(old(a)@), 0nat,
{
    cross_parts(law, df, &mut a.component, &mut b.component);
    force_apply(law, df, a, b);
}

/// What becomes of the parts `xs` and `ys` when they have crossed under
/// each of the first `r` of `rules`, one rule after the other.
pub open spec fn rules_crossed<L: ForceLaw>(
    law: L,
    rules: Seq<ForceModel>,
    xs: Seq<ComponentModel>,
    ys: Seq<ComponentModel>,
    r: nat,
) -> (Seq<ComponentModel>, Seq<ComponentModel>)
    decreases r,
{
    if r == 0 {
        (xs, ys)
    } else {
        let before = rules_crossed(law, rules, xs, ys, (r - 1) as nat);
        if r - 1 < rules.len() {
            parts_crossed(law, rules[r - 1], before.0, before.1, before.0.len(), 0)
        } else {
            before
        }
    }
}

/// What becomes of two bodies `a` and `b` that meet: every sub-body of `a`
/// meets every sub-body of `b`, and under every rule of `a` every part of
/// `a` meets every part of `b`.
pub open spec fn bodies_met<L: ForceLaw>(
    law: L,
    a: AnomalyModel,
    b: AnomalyModel) -> (AnomalyModel, AnomalyModel,
)
    decreases body_depth(a), 0nat, 0nat, 0nat,
{
    let below = bodies_crossed(law, a.anomaly, b.anomaly, a.anomaly.len(), 0);
    let parts = rules_crossed(law, a.force, a.component, b.component, a.force.len());
    (
        AnomalyModel { anomaly: below.0, component: parts.0, ..a },
        AnomalyModel { anomaly: below.1, component: parts.1, ..b },
    )
}

/// What becomes of the bodies `xs` and `ys` when each of the first `i` of
/// `xs` has met every one of `ys`, one after the other, and the next of
/// `xs` has met the first `j` of `ys`.
pub open spec fn bodies_crossed<L: ForceLaw>(
    law: L,
    xs: Seq<AnomalyModel>,
    ys: Seq<AnomalyModel>,
    i: nat,
    j: nat,
) -> (
    Seq<AnomalyModel>,
    Seq<AnomalyModel>,
)
    decreases body_deepest(xs, xs.len()), 1nat, i, j,
{
    if j > 0 {
        let before = bodies_crossed(law, xs, ys, i, (j - 1) as nat);
        if i < before.0.len() && j - 1 < before.1.len() && body_depth(before.0[i as int]) <= body_deepest(
            xs,
            xs.len(),
        ) {
            let met = bodies_met(law, before.0[i as int], before.1[j - 1]);
            (before.0.update(i as int, met.0), before.1.update(j - 1, met.1))
        } else {
            before
        }
    } else if i > 0 {
        bodies_crossed(law, xs, ys, (i - 1) as nat, ys.len())
    } else {
        (xs, ys)
    }
}

/// Parts that cross under several rules keep their frames.
pub proof fn lemma_rules_crossed_frame<L: ForceLaw>(
    law: L,
    rules: Seq<ForceModel>,
    xs: Seq<ComponentModel>,
    ys: Seq<ComponentModel>,
    r: nat,
)
    ensures
        same_frames(xs, rules_crossed(law, rules, xs, ys, r).0),
        same_frames(ys, rules_crossed(law, rules, xs, ys, r).1),
    decreases r,
{
    if r == 0 {
        lemma_same_frames_refl(xs);
        lemma_same_frames_refl(ys);
    } else {
        let before = rules_crossed(law, rules, xs, ys, (r - 1) as nat);
        lemma_rules_crossed_frame(law, rules, xs, ys, (r - 1) as nat);
        if r - 1 < rules.len() {
            let after = parts_crossed(law, rules[r - 1], before.0, before.1, before.0.len(), 0);
            lemma_parts_crossed_frame(law, rules[r - 1], before.0, before.1, before.0.len(), 0);
            lemma_same_frames_trans(xs, before.0, after.0);
            lemma_same_frames_trans(ys, before.1, after.1);
        }
    }
}

/// Bodies that meet keep their frame.
pub proof fn lemma_bodies_met_frame<L: ForceLaw>(law: L, a: AnomalyModel, b: AnomalyModel)
    ensures
        same_body_frame(a, bodies_met(law, a, b).0),
        same_body_frame(b, bodies_met(law, a, b).1),
    decreases body_depth(a), 0nat, 0nat, 0nat,
{
    lemma_bodies_crossed_frame(law, a.anomaly, b.anomaly, a.anomaly.len(), 0);
    lemma_rules_crossed_frame(law, a.force, a.component, b.component, a.force.len());
}

/// Bodies that meet one another in turn keep their frames.
pub proof fn lemma_bodies_crossed_frame<L: ForceLaw>(
    law: L,
    xs: Seq<AnomalyModel>,
    ys: Seq<AnomalyModel>,
    i: nat,
    j: nat,
)
    ensures
        same_body_frames(xs, bodies_crossed(law, xs, ys, i, j).0),
        same_body_frames(ys, bodies_crossed(law, xs, ys, i, j).1),
    decreases body_deepest(xs, xs.len()), 1nat, i, j,
{
    if j > 0 {
        let before = bodies_crossed(law, xs, ys, i, (j - 1) as nat);
        lemma_bodies_crossed_frame(law, xs, ys, i, (j - 1) as nat);
        if i < before.0.len() && j - 1 < before.1.len() && body_depth(before.0[i as int]) <= body_deepest(
            xs,
            xs.len(),
        ) {
            let met = bodies_met(law, before.0[i as int], before.1[j - 1]);
            lemma_bodies_met_frame(law, before.0[i as int], before.1[j - 1]);
            let after = (before.0.update(i as int, met.0), before.1.update(j - 1, met.1));
            lemma_same_body_frames_update(before.0, i as int, met.0);
            lemma_same_body_frames_update(before.1, j - 1, met.1);
            lemma_same_body_frames_trans(xs, before.0, after.0);
            lemma_same_body_frames_trans(ys, before.1, after.1);
        }
    } else if i > 0 {
        lemma_bodies_crossed_frame(law, xs, ys, (i - 1) as nat, ys.len());
    } else {
        lemma_same_body_frames_refl(xs);
        lemma_same_body_frames_refl(ys);
    }
}

/// Lets every body of `xs` meet every body of `ys`, row by row.
fn cross_bodies<L: ForceLaw>(law: &L, xs: &mut Vec<Anomaly>, ys: &mut Vec<Anomaly>)
    ensures
        (anomalies_model(final(xs)@), anomalies_model(final(ys)@))
            == bodies_crossed(
            *law,
            anomalies_model(old(xs)@),
            anomalies_model(old(ys)@),
            old(xs)@.len() as nat,
            0,
        ),
    decreases body_deepest(anomalies_model(old(xs)@), old(xs)@.len() as nat), 1nat,
{
    let n = xs.len();
    let m = ys.len();
    let ghost xs0 = anomalies_model(xs@);
    let ghost ys0 = anomalies_model(ys@);
    let mut i: usize = 0;
    while i < n
        invariant
            xs@.len() == n,
            ys@.len() == m,
            xs0.len() == n,
            ys0.len() == m,
            i <= n,
            xs0 == anomalies_model(old(xs)@),
            (anomalies_model(xs@), anomalies_model(ys@)) == bodies_crossed(
                *law,
                xs0,
                ys0,
                i as nat,
                0,
            ),
        decreases n - i,
    {
        let mut j: usize = 0;
        while j < m
            invariant
                xs@.len() == n,
                ys@.len() == m,
                xs0.len() == n,
                ys0.len() == m,
                i < n,
                j <= m,
                xs0 == anomalies_model(old(xs)@),
                (anomalies_model(xs@), anomalies_model(ys@)) == bodies_crossed(
                    *law,
                    xs0,
                    ys0,
                    i as nat,
                    j as nat,
                ),
            decreases m - j,
        {
            let ghost before = (anomalies_model(xs@), anomalies_model(ys@));
            proof {
                lemma_bodies_crossed_frame(*law, xs0, ys0, i as nat, j as nat);
                lemma_same_body_frame_depth(xs0[i as int], before.0[i as int]);
                lemma_body_deepest_bounds(xs0, n as nat, i as int);
            }
            anomaly_2_interact(law, &mut xs[i], &mut ys[j]);
            j += 1;
        }
        i += 1;
    }
}

/// Lets the bodies `a` and `b` meet: every sub-body of `a` meets every
/// sub-body of `b`, and under every rule of `a` every part of `a` meets
/// every part of `b`.
pub fn anomaly_2_interact<L: ForceLaw>(law: &L, a: &mut Anomaly, b: &mut Anomaly)
    ensures
        (final(a)@, final(b)@) == bodies_met(*law, old(a)@, old(b)@),
    decreases body_depth(old(a)@), 0nat,
{
    cross_bodies(law, &mut a.anomaly, &mut b.anomaly);
    let rules = a.force.len();
    let ghost xs0 = old(a)@.component;
    let ghost ys0 = old(b)@.component;
    let mut r: usize = 0;
    while r < rules
        invariant
            r <= rules,
            rules == a.force@.len(),
            a.force == old(a).force,
            (components_model(a.component@), components_model(b.component@))
                == rules_crossed(*law, old(a)@.force, xs0, ys0, r as nat),
            anomalies_model(a.anomaly@) == bodies_crossed(
                *law,
                old(a)@.anomaly,
                old(b)@.anomaly,
                old(a)@.anomaly.len(),
                0,
            ).0,
            anomalies_model(b.anomaly@) == bodies_crossed(
                *law,
                old(a)@.anomaly,
                old(b)@.anomaly,
                old(a)@.anomaly.len(),
                0,
            ).1,
            b.force == old(b).force,
        decreases rules - r,
    {
        cross_parts(law, &a.force[r], &mut a.component, &mut b.component);
        r += 1;
    }
}

/// What becomes of the sibling parts `parts` under `rule` when the first
/// `r` of `rounds` have been worked off, and the first `t` pairs of the
/// next round: the two parts of each pair have met, pair after pair.
pub open spec fn siblings_met<L: ForceLaw>(
    law: L,
    rule: ForceModel,
    parts: Seq<ComponentModel>,
    rounds: Seq<Seq<(int, int)>>,
    r: nat,
    t: nat,
) -> Seq<ComponentModel>
    decreases r, t,
{
    if t > 0 {
        let before = siblings_met(law, rule, parts, rounds, r, (t - 1) as nat);
        if r < rounds.len() && t - 1 < rounds[r as int].len() {
            let pair = rounds[r as int][t - 1];
            if 0 <= pair.0 < before.len() && 0 <= pair.1 < before.len() && pair.0 != pair.1 {
                let met = parts_met(law, rule, before[pair.0], before[pair.1]);
                before.update(pair.0, met.0).update(pair.1, met.1)
            } else {
                before
            }
        } else {
            before
        }
    } else if r > 0 {
        siblings_met(
            law,
            rule,
            parts,
            rounds,
            (r - 1) as nat,
            if r - 1 < rounds.len() {
                rounds[r - 1].len()
            } else {
                0
            },
        )
    } else {
        parts
    }
}

/// What becomes of the sibling parts `parts` when they have worked off
/// their pairing schedule under each of the first `k` of `rules`, one rule
/// after the other.
pub open spec fn siblings_ruled<L: ForceLaw>(
    law: L,
    rules: Seq<ForceModel>,
    parts: Seq<ComponentModel>,
    k: nat,
) -> Seq<
    ComponentModel,
>
    decreases k,
{
    if k == 0 {
        parts
    } else {
        let before = siblings_ruled(law, rules, parts, (k - 1) as nat);
        if k - 1 < rules.len() {
            let rounds = crate::schedule::schedule(before.len() as int);
            siblings_met(law, rules[k - 1], before, rounds, rounds.len(), 0)
        } else {
            before
        }
    }
}

/// What becomes of a body when its own parts have interacted: under every
/// rule of the body, every two of its parts have met once, in the order of
/// the pairing schedule.
pub open spec fn component_interacted<L: ForceLaw>(law: L, body: AnomalyModel) -> AnomalyModel {
    AnomalyModel { component: siblings_ruled(law, body.force, body.component, body.force.len()), ..body }
}

/// Sibling parts that work off rounds of pairs keep their frames.
pub proof fn lemma_siblings_met_frame<L: ForceLaw>(
    law: L,
    rule: ForceModel,
    parts: Seq<ComponentModel>,
    rounds: Seq<Seq<(int, int)>>,
    r: nat,
    t: nat,
)
    ensures
        same_frames(parts, siblings_met(law, rule, parts, rounds, r, t)),
    decreases r, t,
{
    if t > 0 {
        let before = siblings_met(law, rule, parts, rounds, r, (t - 1) as nat);
        lemma_siblings_met_frame(law, rule, parts, rounds, r, (t - 1) as nat);
        if r < rounds.len() && t - 1 < rounds[r as int].len() {
            let pair = rounds[r as int][t - 1];
            if 0 <= pair.0 < before.len() && 0 <= pair.1 < before.len() && pair.0 != pair.1 {
                let met = parts_met(law, rule, before[pair.0], before[pair.1]);
                lemma_parts_met_frame(law, rule, before[pair.0], before[pair.1]);
                let half = before.update(pair.0, met.0);
                lemma_same_frames_update(before, pair.0, met.0);
                lemma_same_frames_update(half, pair.1, met.1);
                lemma_same_frames_trans(parts, before, half);
                lemma_same_frames_trans(parts, half, half.update(pair.1, met.1));
            }
        }
    } else if r > 0 {
        lemma_siblings_met_frame(
            law,
            rule,
            parts,
            rounds,
            (r - 1) as nat,
            if r - 1 < rounds.len() {
                rounds[r - 1].len()
            } else {
                0
            },
        );
    } else {
        lemma_same_frames_refl(parts);
    }
}

/// Sibling parts that work off their schedule under several rules keep
/// their frames.
pub proof fn lemma_siblings_ruled_frame<L: ForceLaw>(
    law: L,
    rules: Seq<ForceModel>,
    parts: Seq<ComponentModel>,
    k: nat,
)
    ensures
        same_frames(parts, siblings_ruled(law, rules, parts, k)),
    decreases k,
{
    if k == 0 {
        lemma_same_frames_refl(parts);
    } else {
        let before = siblings_ruled(law, rules, parts, (k - 1) as nat);
        lemma_siblings_ruled_frame(law, rules, parts, (k - 1) as nat);
        if k - 1 < rules.len() {
            let rounds = crate::schedule::schedule(before.len() as int);
            lemma_siblings_met_frame(law, rules[k - 1], before, rounds, rounds.len(), 0);
            lemma_same_frames_trans(
                parts,
                before,
                siblings_met(law, rules[k - 1], before, rounds, rounds.len(), 0),
            );
        }
    }
}

/// The pairs of a round do not depend on one another. While a round that
/// may be dispatched is worked off, every pair that has met started from
/// what its two parts were at the start of the round, and a part that no
/// pair has named yet is as it was then. So the pairs of a round may be
/// worked off in any order, or all at the same time.
pub proof fn lemma_round_of_parts_is_order_free<L: ForceLaw>(
    law: L,
    rule: ForceModel,
    parts: Seq<ComponentModel>,
    rounds: Seq<Seq<(int, int)>>,
    r: nat,
    t: nat,
)
    requires
        r < rounds.len(),
        t <= rounds[r as int].len(),
        dispatchable(rounds[r as int], parts.len() as int),
    ensures
        ({
            let start = siblings_met(law, rule, parts, rounds, r, 0);
            let now = siblings_met(law, rule, parts, rounds, r, t);
            &&& now.len() == parts.len()
            &&& start.len() == parts.len()
            &&& forall|s: int|
                0 <= s < t ==> {
                    let pair = #[trigger] rounds[r as int][s];
                    let met = parts_met(law, rule, start[pair.0], start[pair.1]);
                    now[pair.0] == met.0 && now[pair.1] == met.1
                }
            &&& forall|k: int|
                0 <= k < now.len() && !named_upto(rounds[r as int], t as int, k) ==> #[trigger] now[k]
                    == start[k]
        }),
    decreases t,
{
    let round = rounds[r as int];
    let start = siblings_met(law, rule, parts, rounds, r, 0);
    let now = siblings_met(law, rule, parts, rounds, r, t);
    lemma_siblings_met_frame(law, rule, parts, rounds, r, 0);
    if t > 0 {
        lemma_round_of_parts_is_order_free(law, rule, parts, rounds, r, (t - 1) as nat);
        assert forall|k: int| 0 <= k < now.len() && !named_upto(round, t as int, k) implies #[trigger] now[k]
            == start[k] by {
        }
    }
}

/// A part without sub-parts, compositions or properties.
fn hollow_part() -> (part: Component)
    ensures
        part.component@.len() == 0,
{
    Component { component: Vec::new(), composition: Vec::new(), property: Vec::new() }
}

/// Lets the siblings at the places `i` and `j` meet under `rule`. Both are
/// taken out of the vector for the meeting and put back after it.
fn meet_sibling_parts<L: ForceLaw>(law: &L, rule: &Force, parts: &mut Vec<Component>, i: usize, j: usize)
    requires
        i < old(parts)@.len(),
        j < old(parts)@.len(),
        i != j,
    ensures
        final(parts)@.len() == old(parts)@.len(),
        components_model(final(parts)@) == ({
            let before = components_model(old(parts)@);
            let met = parts_met(*law, rule@, before[i as int], before[j as int]);
            before.update(i as int, met.0).update(j as int, met.1)
        }),
{
    let ghost before = components_model(parts@);
    let mut first = hollow_part();
    let mut second = hollow_part();
    parts.set_and_swap(i, &mut first);
    parts.set_and_swap(j, &mut second);
    component_2_interact(law, rule, &mut first, &mut second);
    parts.set(i, first);
    parts.set(j, second);
}

/// Works off `rounds` on the sibling parts `parts` under `rule`.
fn work_off_parts<L: ForceLaw>(
    law: &L,
    rule: &Force,
    parts: &mut Vec<Component>,
    rounds: &Vec<Vec<(usize, usize)>>,
)
    requires
        forall|r: int, t: int|
            0 <= r < rounds@.len() && 0 <= t < rounds@[r]@.len() ==> {
                let pair = #[trigger] rounds@[r]@[t];
                pair.0 < old(parts)@.len() && pair.1 < old(parts)@.len() && pair.0 != pair.1
            },
    ensures
        final(parts)@.len() == old(parts)@.len(),
        components_model(final(parts)@) == siblings_met(
            *law,
            rule@,
            components_model(old(parts)@),
            rounds_view(rounds@),
            rounds@.len() as nat,
            0,
        ),
{
    let n = parts.len();
    let ghost start = components_model(parts@);
    let ghost plan = rounds_view(rounds@);
    let mut r: usize = 0;
    while r < rounds.len()
        invariant
            r <= rounds@.len(),
            parts@.len() == n,
            plan == rounds_view(rounds@),
            forall|r: int, t: int|
                0 <= r < rounds@.len() && 0 <= t < rounds@[r]@.len() ==> {
                    let pair = #[trigger] rounds@[r]@[t];
                    pair.0 < n && pair.1 < n && pair.0 != pair.1
                },
            components_model(parts@) == siblings_met(*law, rule@, start, plan, r as nat, 0),
        decreases rounds@.len() - r,
    {
        let round = &rounds[r];
        let mut t: usize = 0;
        while t < round.len()
            invariant
                r < rounds@.len(),
                t <= round@.len(),
                round == rounds@[r as int],
                parts@.len() == n,
                plan == rounds_view(rounds@),
                forall|r: int, t: int|
                    0 <= r < rounds@.len() && 0 <= t < rounds@[r]@.len() ==> {
                        let pair = #[trigger] rounds@[r]@[t];
                        pair.0 < n && pair.1 < n && pair.0 != pair.1
                    },
                components_model(parts@) == siblings_met(*law, rule@, start, plan, r as nat, t as nat),
            decreases round@.len() - t,
        {
            let pair = round[t];
            meet_sibling_parts(law, rule, parts, pair.0, pair.1);
            t += 1;
        }
        r += 1;
    }
}

/// Lets the parts of `anom` interact: under every rule of the body, every
/// two of its parts meet once, in the order of the pairing schedule.
pub fn component_interact<L: ForceLaw>(law: &L, anom: &mut Anomaly)
    ensures
        final(anom)@ == component_interacted(*law, old(anom)@),
{
    let n = anom.component.len();
    let rounds = pairing_schedule(n);
    let rules = anom.force.len();
    let ghost start = old(anom)@.component;
    let mut k: usize = 0;
    while k < rules
        invariant
            k <= rules,
            rules == anom.force@.len(),
            anom.force == old(anom).force,
            anom.anomaly == old(anom).anomaly,
            anom.component@.len() == n,
            start == old(anom)@.component,
            start.len() == n,
            rounds_view(rounds@) == crate::schedule::schedule(n as int),
            forall|r: int, t: int|
                0 <= r < rounds@.len() && 0 <= t < rounds@[r]@.len() ==> {
                    let pair = #[trigger] rounds@[r]@[t];
                    pair.0 < n && pair.1 < n && pair.0 != pair.1
                },
            components_model(anom.component@) == siblings_ruled(
                *law,
                old(anom)@.force,
                start,
                k as nat,
            ),
        decreases rules - k,
    {
        work_off_parts(law, &anom.force[k], &mut anom.component, &rounds);
        k += 1;
    }
}

/// What becomes of the sibling bodies `bodies` when the first `r` of
/// `rounds` have been worked off, and the first `t` pairs of the next
/// round: the two bodies of each pair have met, pair after pair.
pub open spec fn sibling_bodies_met<L: ForceLaw>(
    law: L,
    bodies: Seq<AnomalyModel>,
    rounds: Seq<Seq<(int, int)>>,
    r: nat,
    t: nat,
) -> Seq<AnomalyModel>
    decreases r, t,
{
    if t > 0 {
        let before = sibling_bodies_met(law, bodies, rounds, r, (t - 1) as nat);
        if r < rounds.len() && t - 1 < rounds[r as int].len() {
            let pair = rounds[r as int][t - 1];
            if 0 <= pair.0 < before.len() && 0 <= pair.1 < before.len() && pair.0 != pair.1 {
                let met = bodies_met(law, before[pair.0], before[pair.1]);
                before.update(pair.0, met.0).update(pair.1, met.1)
            } else {
                before
            }
        } else {
            before
        }
    } else if r > 0 {
        sibling_bodies_met(
            law,
            bodies,
            rounds,
            (r - 1) as nat,
            if r - 1 < rounds.len() {
                rounds[r - 1].len()
            } else {
                0
            },
        )
    } else {
        bodies
    }
}

/// What becomes of a body in one pass of interaction. First every
/// sub-body interacts by itself. Then every two sub-bodies meet once, in
/// the order of the pairing schedule. At last the parts of the body itself
/// interact.
pub open spec fn interacted<L: ForceLaw>(law: L, body: AnomalyModel) -> AnomalyModel
    decreases body, 0nat,
{
    let inner = each_interacted(law, body.anomaly);
    let rounds = crate::schedule::schedule(inner.len() as int);
    let met = sibling_bodies_met(law, inner, rounds, rounds.len(), 0);
    component_interacted(law, AnomalyModel { anomaly: met, ..body })
}

/// Every one of `bodies` after a pass of interaction by itself.
pub open spec fn each_interacted<L: ForceLaw>(law: L, bodies: Seq<AnomalyModel>) -> Seq<AnomalyModel>
    decreases bodies, 1nat,
{
    Seq::new(
        bodies.len(),
        |i: int|
            if 0 <= i < bodies.len() {
                interacted(law, bodies[i])
            } else {
                arbitrary()
            },
    )
}

/// Sibling bodies that work off rounds of pairs keep their frames.
pub proof fn lemma_sibling_bodies_met_frame<L: ForceLaw>(
    law: L,
    bodies: Seq<AnomalyModel>,
    rounds: Seq<Seq<(int, int)>>,
    r: nat,
    t: nat,
)
    ensures
        same_body_frames(bodies, sibling_bodies_met(law, bodies, rounds, r, t)),
    decreases r, t,
{
    if t > 0 {
        let before = sibling_bodies_met(law, bodies, rounds, r, (t - 1) as nat);
        lemma_sibling_bodies_met_frame(law, bodies, rounds, r, (t - 1) as nat);
        if r < rounds.len() && t - 1 < rounds[r as int].len() {
            let pair = rounds[r as int][t - 1];
            if 0 <= pair.0 < before.len() && 0 <= pair.1 < before.len() && pair.0 != pair.1 {
                let met = bodies_met(law, before[pair.0], before[pair.1]);
                lemma_bodies_met_frame(law, before[pair.0], before[pair.1]);
                let half = before.update(pair.0, met.0);
                lemma_same_body_frames_update(before, pair.0, met.0);
                lemma_same_body_frames_update(half, pair.1, met.1);
                lemma_same_body_frames_trans(bodies, before, half);
                lemma_same_body_frames_trans(bodies, half, half.update(pair.1, met.1));
            }
        }
    } else if r > 0 {
        lemma_sibling_bodies_met_frame(
            law,
            bodies,
            rounds,
            (r - 1) as nat,
            if r - 1 < rounds.len() {
                rounds[r - 1].len()
            } else {
                0
            },
        );
    } else {
        lemma_same_body_frames_refl(bodies);
    }
}

/// A pass of interaction keeps the frame of a body: the shape of the tree,
/// all points, the roles of all properties and the values of those that are
/// no inertia.
pub proof fn lemma_interacted_frame<L: ForceLaw>(law: L, body: AnomalyModel)
    ensures
        same_body_frame(body, interacted(law, body)),
    decreases body,
{
    let inner = each_interacted(law, body.anomaly);
    let rounds = crate::schedule::schedule(inner.len() as int);
    let met = sibling_bodies_met(law, inner, rounds, rounds.len(), 0);
    assert forall|i: int| 0 <= i < body.anomaly.len() implies same_body_frame(#[trigger] body.anomaly[i], inner[i]) by {
        lemma_interacted_frame(law, body.anomaly[i]);
    }
    lemma_sibling_bodies_met_frame(law, inner, rounds, rounds.len(), 0);
    lemma_same_body_frames_trans(body.anomaly, inner, met);
    lemma_siblings_ruled_frame(law, body.force, body.component, body.force.len());
}

/// The pairs of a round do not depend on one another. While a round that
/// may be dispatched is worked off, every pair that has met started from
/// what its two bodies were at the start of the round, and a body that no
/// pair has named yet is as it was then. So the pairs of a round may be
/// worked off in any order, or all at the same time.
pub proof fn lemma_round_of_bodies_is_order_free<L: ForceLaw>(
    law: L,
    bodies: Seq<AnomalyModel>,
    rounds: Seq<Seq<(int, int)>>,
    r: nat,
    t: nat,
)
    requires
        r < rounds.len(),
        t <= rounds[r as int].len(),
        dispatchable(rounds[r as int], bodies.len() as int),
    ensures
        ({
            let start = sibling_bodies_met(law, bodies, rounds, r, 0);
            let now = sibling_bodies_met(law, bodies, rounds, r, t);
            &&& now.len() == bodies.len()
            &&& start.len() == bodies.len()
            &&& forall|s: int|
                0 <= s < t ==> {
                    let pair = #[trigger] rounds[r as int][s];
                    let met = bodies_met(law, start[pair.0], start[pair.1]);
                    now[pair.0] == met.0 && now[pair.1] == met.1
                }
            &&& forall|k: int|
                0 <= k < now.len() && !named_upto(rounds[r as int], t as int, k) ==> #[trigger] now[k]
                    == start[k]
        }),
    decreases t,
{
    let round = rounds[r as int];
    let start = sibling_bodies_met(law, bodies, rounds, r, 0);
    let now = sibling_bodies_met(law, bodies, rounds, r, t);
    lemma_sibling_bodies_met_frame(law, bodies, rounds, r, 0);
    if t > 0 {
        lemma_round_of_bodies_is_order_free(law, bodies, rounds, r, (t - 1) as nat);
        assert forall|k: int| 0 <= k < now.len() && !named_upto(round, t as int, k) implies #[trigger] now[k]
            == start[k] by {
        }
    }
}

/// A body without sub-bodies, parts or rules.
fn hollow_body() -> (body: Anomaly)
    ensures
        body.anomaly@.len() == 0,
{
    Anomaly { anomaly: Vec::new(), component: Vec::new(), force: Vec::new() }
}

/// Lets the siblings at the places `i` and `j` meet. Both are taken out of
/// the vector for the meeting and put back after it.
fn meet_sibling_bodies<L: ForceLaw>(law: &L, bodies: &mut Vec<Anomaly>, i: usize, j: usize)
    requires
        i < old(bodies)@.len(),
        j < old(bodies)@.len(),
        i != j,
    ensures
        final(bodies)@.len() == old(bodies)@.len(),
        anomalies_model(final(bodies)@) == ({
            let before = anomalies_model(old(bodies)@);
            let met = bodies_met(*law, before[i as int], before[j as int]);
            before.update(i as int, met.0).update(j as int, met.1)
        }),
{
    let ghost before = anomalies_model(bodies@);
    let mut first = hollow_body();
    let mut second = hollow_body();
    bodies.set_and_swap(i, &mut first);
    bodies.set_and_swap(j, &mut second);
    anomaly_2_interact(law, &mut first, &mut second);
    bodies.set(i, first);
    bodies.set(j, second);
}

/// Works off `rounds` on the sibling bodies `bodies`.
fn work_off_bodies<L: ForceLaw>(law: &L, bodies: &mut Vec<Anomaly>, rounds: &Vec<Vec<(usize, usize)>>)
    requires
        forall|r: int, t: int|
            0 <= r < rounds@.len() && 0 <= t < rounds@[r]@.len() ==> {
                let pair = #[trigger] rounds@[r]@[t];
                pair.0 < old(bodies)@.len() && pair.1 < old(bodies)@.len() && pair.0 != pair.1
            },
    ensures
        final(bodies)@.len() == old(bodies)@.len(),
        anomalies_model(final(bodies)@) == sibling_bodies_met(
            *law,
            anomalies_model(old(bodies)@),
            rounds_view(rounds@),
            rounds@.len() as nat,
            0,
        ),
{
    let n = bodies.len();
    let ghost start = anomalies_model(bodies@);
    let ghost plan = rounds_view(rounds@);
    let mut r: usize = 0;
    while r < rounds.len()
        invariant
            r <= rounds@.len(),
            bodies@.len() == n,
            plan == rounds_view(rounds@),
            forall|r: int, t: int|
                0 <= r < rounds@.len() && 0 <= t < rounds@[r]@.len() ==> {
                    let pair = #[trigger] rounds@[r]@[t];
                    pair.0 < n && pair.1 < n && pair.0 != pair.1
                },
            anomalies_model(bodies@) == sibling_bodies_met(*law, start, plan, r as nat, 0),
        decreases rounds@.len() - r,
    {
        let round = &rounds[r];
        let mut t: usize = 0;
        while t < round.len()
            invariant
                r < rounds@.len(),
                t <= round@.len(),
                round == rounds@[r as int],
                bodies@.len() == n,
                plan == rounds_view(rounds@),
                forall|r: int, t: int|
                    0 <= r < rounds@.len() && 0 <= t < rounds@[r]@.len() ==> {
                        let pair = #[trigger] rounds@[r]@[t];
                        pair.0 < n && pair.1 < n && pair.0 != pair.1
                    },
                anomalies_model(bodies@) == sibling_bodies_met(*law, start, plan, r as nat, t as nat),
            decreases round@.len() - t,
        {
            let pair = round[t];
            meet_sibling_bodies(law, bodies, pair.0, pair.1);
            t += 1;
        }
        r += 1;
    }
}

/// One pass of interaction on `anom`. First every sub-body interacts by
/// itself. Then every two sub-bodies meet once, in the order of the pairing
/// schedule. At last the parts of the body itself interact.
pub fn interact<L: ForceLaw>(law: &L, anom: &mut Anomaly)
    ensures
        final(anom)@ == interacted(*law, old(anom)@),
        same_body_frame(old(anom)@, final(anom)@),
    decreases *old(anom),
{
    let n = anom.anomaly.len();
    let mut i: usize = 0;
    while i < n
        invariant
            i <= n,
            anom.anomaly@.len() == n,
            old(anom).anomaly@.len() == n,
            anom.component == old(anom).component,
            anom.force == old(anom).force,
            forall|k: int|
                0 <= k < i ==> anomaly_model(#[trigger] anom.anomaly@[k]) == interacted(
                    *law,
                    anomaly_model(old(anom).anomaly@[k]),
                ),
            forall|k: int| i <= k < n ==> #[trigger] anom.anomaly@[k] == old(anom).anomaly@[k],
        decreases n - i,
    {
        interact(law, &mut anom.anomaly[i]);
        i += 1;
    }
    assert(anomalies_model(anom.anomaly@) =~= each_interacted(*law, old(anom)@.anomaly));
    let rounds = pairing_schedule(n);
    work_off_bodies(law, &mut anom.anomaly, &rounds);
    component_interact(law, anom);
    proof {
        lemma_interacted_frame(*law, old(anom)@);
    }
}

} // verus!

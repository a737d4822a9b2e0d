//! What an interaction leaves alone.
//!
//! Interactions change the values of inertia properties and nothing else:
//! the shape of the tree, the points, the roles of all properties and the
//! values of the other properties stay. Two models that differ at most in
//! this way have the same frame.

use crate::entity::{
    AnomalyModel, ComponentModel, lemma_first_place, Property, PropertyKind, with_inertia,
    with_value,
};
use vstd::prelude::*;

verus! {

/// Whether `name` is one of the three inertia roles.
pub open spec fn is_inertia(name: PropertyKind) -> bool {
    name == PropertyKind::InertiaX || name == PropertyKind::InertiaY || name == PropertyKind::InertiaZ
}

/// Whether two bags hold the same roles in the same order and agree on the
/// value of every property that is no inertia.
pub open spec fn same_bag_frame(a: Seq<Property>, b: Seq<Property>) -> bool {
    &&& a.len() == b.len()
    &&& forall|i: int|
        0 <= i < a.len() ==> (#[trigger] a[i]).name == b[i].name && (!is_inertia(a[i].name) ==> a[i].value
            == b[i].value)
}

/// Whether two parts differ at most in the values of inertia properties,
/// their own and those of their sub-parts.
pub open spec fn same_frame(a: ComponentModel, b: ComponentModel) -> bool
    decreases a,
{
    &&& a.composition == b.composition
    &&& same_bag_frame(a.property, b.property)
    &&& a.component.len() == b.component.len()
    &&& forall|i: int| 0 <= i < a.component.len() ==> same_frame(#[trigger] a.component[i], b.component[i])
}

/// Whether two sequences of parts have the same frame, part by part.
pub open spec fn same_frames(xs: Seq<ComponentModel>, ys: Seq<ComponentModel>) -> bool {
    &&& xs.len() == ys.len()
    &&& forall|i: int| 0 <= i < xs.len() ==> same_frame(#[trigger] xs[i], ys[i])
}

/// Whether two bodies differ at most in the values of inertia properties of
/// their parts and of the parts of their sub-bodies.
pub open spec fn same_body_frame(a: AnomalyModel, b: AnomalyModel) -> bool
    decreases a,
{
    &&& a.force == b.force
    &&& same_frames(a.component, b.component)
    &&& a.anomaly.len() == b.anomaly.len()
    &&& forall|i: int| 0 <= i < a.anomaly.len() ==> same_body_frame(#[trigger] a.anomaly[i], b.anomaly[i])
}

/// Whether two sequences of bodies have the same frame, body by body.
pub open spec fn same_body_frames(xs: Seq<AnomalyModel>, ys: Seq<AnomalyModel>) -> bool {
    &&& xs.len() == ys.len()
    &&& forall|i: int| 0 <= i < xs.len() ==> same_body_frame(#[trigger] xs[i], ys[i])
}

/// The number of levels of a part: one more than that of its deepest
/// sub-part.
pub open spec fn depth(part: ComponentModel) -> nat
    decreases part, 0nat,
{
    1 + deepest(part.component, part.component.len())
}

/// The greatest depth among the first `k` of `parts`.
pub open spec fn deepest(parts: Seq<ComponentModel>, k: nat) -> nat
    decreases parts, k,
{
    if k == 0 || k > parts.len() {
        0
    } else {
        let d = depth(parts[k - 1]);
        let r = deepest(parts, (k - 1) as nat);
        if d > r {
            d
        } else {
            r
        }
    }
}

/// The number of levels of a body: one more than that of its deepest
/// sub-body.
pub open spec fn body_depth(body: AnomalyModel) -> nat
    decreases body, 0nat,
{
    1 + body_deepest(body.anomaly, body.anomaly.len())
}

/// The greatest depth among the first `k` of `bodies`.
pub open spec fn body_deepest(bodies: Seq<AnomalyModel>, k: nat) -> nat
    decreases bodies, k,
{
    if k == 0 || k > bodies.len() {
        0
    } else {
        let d = body_depth(bodies[k - 1]);
        let r = body_deepest(bodies, (k - 1) as nat);
        if d > r {
            d
        } else {
            r
        }
    }
}

/// No part is deeper than the deepest of the parts it stands among.
pub proof fn lemma_deepest_bounds(parts: Seq<ComponentModel>, k: nat, i: int)
    requires
        0 <= i < k <= parts.len(),
    ensures
        depth(parts[i]) <= deepest(parts, k),
    decreases k,
{
    if i < k - 1 {
        lemma_deepest_bounds(parts, (k - 1) as nat, i);
    }
}

/// No body is deeper than the deepest of the bodies it stands among.
pub proof fn lemma_body_deepest_bounds(bodies: Seq<AnomalyModel>, k: nat, i: int)
    requires
        0 <= i < k <= bodies.len(),
    ensures
        body_depth(bodies[i]) <= body_deepest(bodies, k),
    decreases k,
{
    if i < k - 1 {
        lemma_body_deepest_bounds(bodies, (k - 1) as nat, i);
    }
}

/// Every part has its own frame.
pub proof fn lemma_same_frame_refl(a: ComponentModel)
    ensures
        same_frame(a, a),
    decreases a,
{
    assert forall|i: int| 0 <= i < a.component.len() implies same_frame(
        #[trigger] a.component[i],
        a.component[i],
    ) by {
        lemma_same_frame_refl(a.component[i]);
    }
}

/// Every sequence of parts has its own frames.
pub proof fn lemma_same_frames_refl(xs: Seq<ComponentModel>)
    ensures
        same_frames(xs, xs),
{
    assert forall|i: int| 0 <= i < xs.len() implies same_frame(#[trigger] xs[i], xs[i]) by {
        lemma_same_frame_refl(xs[i]);
    }
}

/// Having the same frame carries over from pair to pair.
pub proof fn lemma_same_frame_trans(a: ComponentModel, b: ComponentModel, c: ComponentModel)
    requires
        same_frame(a, b),
        same_frame(b, c),
    ensures
        same_frame(a, c),
    decreases a,
{
    assert forall|i: int| 0 <= i < a.component.len() implies same_frame(
        #[trigger] a.component[i],
        c.component[i],
    ) by {
        lemma_same_frame_trans(a.component[i], b.component[i], c.component[i]);
    }
}

/// Having the same frames carries over from pair to pair of sequences.
pub proof fn lemma_same_frames_trans(
    xs: Seq<ComponentModel>,
    ys: Seq<ComponentModel>,
    zs: Seq<ComponentModel>,
)
    requires
        same_frames(xs, ys),
        same_frames(ys, zs),
    ensures
        same_frames(xs, zs),
{
    assert forall|i: int| 0 <= i < xs.len() implies same_frame(#[trigger] xs[i], zs[i]) by {
        lemma_same_frame_trans(xs[i], ys[i], zs[i]);
    }
}

/// Putting a part in the place of one of the same frame keeps the frames.
pub proof fn lemma_same_frames_update(xs: Seq<ComponentModel>, i: int, x: ComponentModel)
    requires
        0 <= i < xs.len(),
        same_frame(xs[i], x),
    ensures
        same_frames(xs, xs.update(i, x)),
{
    let ys = xs.update(i, x);
    assert forall|k: int| 0 <= k < xs.len() implies same_frame(#[trigger] xs[k], ys[k]) by {
        if k != i {
            lemma_same_frame_refl(xs[k]);
        }
    }
}

/// Parts of the same frame are equally deep.
pub proof fn lemma_same_frame_depth(a: ComponentModel, b: ComponentModel)
    requires
        same_frame(a, b),
    ensures
        depth(a) == depth(b),
    decreases a, 1nat,
{
    lemma_same_frames_deepest(a.component, b.component, a.component.len());
}

/// Parts of the same frames are equally deep at their deepest.
pub proof fn lemma_same_frames_deepest(xs: Seq<ComponentModel>, ys: Seq<ComponentModel>, k: nat)
    requires
        same_frames(xs, ys),
    ensures
        deepest(xs, k) == deepest(ys, k),
    decreases xs, k,
{
    if 0 < k <= xs.len() {
        lemma_same_frame_depth(xs[k - 1], ys[k - 1]);
        lemma_same_frames_deepest(xs, ys, (k - 1) as nat);
    }
}

/// Every body has its own frame.
pub proof fn lemma_same_body_frame_refl(a: AnomalyModel)
    ensures
        same_body_frame(a, a),
    decreases a,
{
    lemma_same_frames_refl(a.component);
    assert forall|i: int| 0 <= i < a.anomaly.len() implies same_body_frame(
        #[trigger] a.anomaly[i],
        a.anomaly[i],
    ) by {
        lemma_same_body_frame_refl(a.anomaly[i]);
    }
}

/// Every sequence of bodies has its own frames.
pub proof fn lemma_same_body_frames_refl(xs: Seq<AnomalyModel>)
    ensures
        same_body_frames(xs, xs),
{
    assert forall|i: int| 0 <= i < xs.len() implies same_body_frame(#[trigger] xs[i], xs[i]) by {
        lemma_same_body_frame_refl(xs[i]);
    }
}

/// Having the same frame carries over from pair to pair of bodies.
pub proof fn lemma_same_body_frame_trans(a: AnomalyModel, b: AnomalyModel, c: AnomalyModel)
    requires
        same_body_frame(a, b),
        same_body_frame(b, c),
    ensures
        same_body_frame(a, c),
    decreases a,
{
    lemma_same_frames_trans(a.component, b.component, c.component);
    assert forall|i: int| 0 <= i < a.anomaly.len() implies same_body_frame(
        #[trigger] a.anomaly[i],
        c.anomaly[i],
    ) by {
        lemma_same_body_frame_trans(a.anomaly[i], b.anomaly[i], c.anomaly[i]);
    }
}

/// Having the same frames carries over from pair to pair of sequences of
/// bodies.
pub proof fn lemma_same_body_frames_trans(xs: Seq<AnomalyModel>, ys: Seq<AnomalyModel>, zs: Seq<AnomalyModel>)
    requires
        same_body_frames(xs, ys),
        same_body_frames(ys, zs),
    ensures
        same_body_frames(xs, zs),
{
    assert forall|i: int| 0 <= i < xs.len() implies same_body_frame(#[trigger] xs[i], zs[i]) by {
        lemma_same_body_frame_trans(xs[i], ys[i], zs[i]);
    }
}

/// Putting a body in the place of one of the same frame keeps the frames.
pub proof fn lemma_same_body_frames_update(xs: Seq<AnomalyModel>, i: int, x: AnomalyModel)
    requires
        0 <= i < xs.len(),
        same_body_frame(xs[i], x),
    ensures
        same_body_frames(xs, xs.update(i, x)),
{
    let ys = xs.update(i, x);
    assert forall|k: int| 0 <= k < xs.len() implies same_body_frame(#[trigger] xs[k], ys[k]) by {
        if k != i {
            lemma_same_body_frame_refl(xs[k]);
        }
    }
}

/// Bodies of the same frame are equally deep.
pub proof fn lemma_same_body_frame_depth(a: AnomalyModel, b: AnomalyModel)
    requires
        same_body_frame(a, b),
    ensures
        body_depth(a) == body_depth(b),
    decreases a, 1nat,
{
    lemma_same_body_frames_deepest(a.anomaly, b.anomaly, a.anomaly.len());
}

/// Bodies of the same frames are equally deep at their deepest.
pub proof fn lemma_same_body_frames_deepest(xs: Seq<AnomalyModel>, ys: Seq<AnomalyModel>, k: nat)
    requires
        same_body_frames(xs, ys),
    ensures
        body_deepest(xs, k) == body_deepest(ys, k),
    decreases xs, k,
{
    if 0 < k <= xs.len() {
        lemma_same_body_frame_depth(xs[k - 1], ys[k - 1]);
        lemma_same_body_frames_deepest(xs, ys, (k - 1) as nat);
    }
}

/// Setting a value keeps the frame of a bag where the role is an inertia.
pub proof fn lemma_with_value_frame(bag: Seq<Property>, name: PropertyKind, value: i64)
    requires
        is_inertia(name),
    ensures
        same_bag_frame(bag, with_value(bag, name, value)),
{
    lemma_first_place(bag, name, 0);
}

/// Setting the inertia keeps the frame of a bag.
pub proof fn lemma_with_inertia_frame(bag: Seq<Property>, inertia: [i64; 3])
    ensures
        same_bag_frame(bag, with_inertia(bag, inertia)),
{
    let first = with_value(bag, PropertyKind::InertiaX, inertia[0]);
    let second = with_value(first, PropertyKind::InertiaY, inertia[1]);
    lemma_with_value_frame(bag, PropertyKind::InertiaX, inertia[0]);
    lemma_with_value_frame(first, PropertyKind::InertiaY, inertia[1]);
    lemma_with_value_frame(second, PropertyKind::InertiaZ, inertia[2]);
}

} // verus!

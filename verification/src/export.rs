//! The export boundary: where in space a renderer is to show a mesh, and of
//! what size.
//!
//! Every point that a distribution of a composition derives gets one mesh,
//! sized by the mass of the part that owns the composition. The engine
//! finds the points and sizes; the meshes come from a generator that the
//! caller hands in, and the engine moves each to its point.

use crate::entity::{
    Anomaly, AnomalyModel, Component, component_property, ComponentModel, CompositionModel,
    Distribution, first_value, particular, PropertyKind,
};
use crate::error::EngineError;
use crate::mesh::{move_positions, placed, Stone};
use vstd::prelude::*;

verus! {

/// A place for a mesh: the point to show it at and its size.
#[derive(Clone, Copy, Debug, PartialEq, Eq)]
pub struct Anchor {
    pub at: [i64; 3],
    pub size: i64,
}

impl Distribution {
    /// The points that this distribution derives from `points`.
    pub open spec fn derived(self, points: Seq<[i64; 3]>) -> Seq<[i64; 3]> {
        match self {
            Distribution::Identity => points,
        }
    }

    /// Derives the points to show from `points`.
    pub fn apply(&self, points: &Vec<[i64; 3]>) -> (shown: Vec<[i64; 3]>)
        ensures
            shown@ == self.derived(points@),
    {
        let mut copy: Vec<[i64; 3]> = Vec::new();
        let mut i: usize = 0;
        while i < points.len()
            invariant
                i <= points@.len(),
                copy@ == points@.subrange(0, i as int),
            decreases points@.len() - i,
        {
            copy.push(points[i]);
            i += 1;
        }
        match self {
            Distribution::Identity => particular(copy),
        }
    }
}

/// One anchor of the given size at each of `points`.
pub open spec fn point_anchors(points: Seq<[i64; 3]>, size: i64) -> Seq<Anchor> {
    Seq::new(points.len(), |i: int| Anchor { at: points[i], size })
}

/// The anchors of the points that the first `k` distributions of
/// `composition` derive, distribution after distribution.
pub open spec fn composition_anchors(composition: CompositionModel, size: i64, k: nat) -> Seq<Anchor>
    decreases k,
{
    if k == 0 {
        Seq::empty()
    } else {
        let before = composition_anchors(composition, size, (k - 1) as nat);
        if k - 1 < composition.distribution.len() {
            before + point_anchors(composition.distribution[k - 1].derived(composition.space), size)
        } else {
            before
        }
    }
}

/// The anchors of the first `k` of `compositions`, composition after
/// composition.
pub open spec fn compositions_anchors(compositions: Seq<CompositionModel>, size: i64, k: nat) -> Seq<Anchor>
    decreases k,
{
    if k == 0 {
        Seq::empty()
    } else {
        let before = compositions_anchors(compositions, size, (k - 1) as nat);
        if k - 1 < compositions.len() {
            before + composition_anchors(
                compositions[k - 1],
                size,
                compositions[k - 1].distribution.len(),
            )
        } else {
            before
        }
    }
}

/// The size of the meshes of `part`: its mass, or zero where it has none.
pub open spec fn mesh_size(part: ComponentModel) -> i64 {
    match first_value(part.property, PropertyKind::Mass) {
        Some(mass) => mass,
        None => 0,
    }
}

/// Whether `part` can be shown: it and all its sub-parts have a mass.
pub open spec fn can_show(part: ComponentModel) -> bool
    decreases part,
{
    &&& first_value(part.property, PropertyKind::Mass).is_some()
    &&& forall|i: int| 0 <= i < part.component.len() ==> can_show(#[trigger] part.component[i])
}

/// Whether all of the first `k` of `parts` can be shown.
pub open spec fn can_show_upto(parts: Seq<ComponentModel>, k: int) -> bool {
    forall|i: int| 0 <= i < k && i < parts.len() ==> can_show(#[trigger] parts[i])
}

/// Whether `body` can be shown: all its parts and all its sub-bodies can.
pub open spec fn can_show_body(body: AnomalyModel) -> bool
    decreases body,
{
    &&& can_show_upto(body.component, body.component.len() as int)
    &&& forall|i: int| 0 <= i < body.anomaly.len() ==> can_show_body(#[trigger] body.anomaly[i])
}

/// Whether all of the first `k` of `bodies` can be shown.
pub open spec fn can_show_bodies_upto(bodies: Seq<AnomalyModel>, k: int) -> bool {
    forall|i: int| 0 <= i < k && i < bodies.len() ==> can_show_body(#[trigger] bodies[i])
}

/// The anchors of `part`: those of its sub-parts first, then its own.
pub open spec fn part_anchors(part: ComponentModel) -> Seq<Anchor>
    decreases part, 0nat,
{
    parts_anchors(part.component, part.component.len()) + compositions_anchors(
        part.composition,
        mesh_size(part),
        part.composition.len(),
    )
}

/// The anchors of the first `k` of `parts`, part after part.
pub open spec fn parts_anchors(parts: Seq<ComponentModel>, k: nat) -> Seq<Anchor>
    decreases parts, k,
{
    if k == 0 {
        Seq::empty()
    } else {
        let before = parts_anchors(parts, (k - 1) as nat);
        if k - 1 < parts.len() {
            before + part_anchors(parts[k - 1])
        } else {
            before
        }
    }
}

/// The anchors of `body`: those of its own parts first, then those of its
/// sub-bodies.
pub open spec fn body_anchors(body: AnomalyModel) -> Seq<Anchor>
    decreases body, 0nat,
{
    parts_anchors(body.component, body.component.len()) + bodies_anchors(body.anomaly, body.anomaly.len())
}

/// The anchors of the first `k` of `bodies`, body after body.
pub open spec fn bodies_anchors(bodies: Seq<AnomalyModel>, k: nat) -> Seq<Anchor>
    decreases bodies, k,
{
    if k == 0 {
        Seq::empty()
    } else {
        let before = bodies_anchors(bodies, (k - 1) as nat);
        if k - 1 < bodies.len() {
            before + body_anchors(bodies[k - 1])
        } else {
            before
        }
    }
}

/// Appends the anchors of `part` to `out`, or reports that the part or one
/// of its sub-parts has no mass.
fn collect_part(part: &Component, out: &mut Vec<Anchor>) -> (shown: bool)
    ensures
        shown == can_show(part@),
        shown ==> final(out)@ == old(out)@ + part_anchors(part@),
    decreases part,
{
    let ghost start = out@;
    let size = match component_property(part, PropertyKind::Mass) {
        Ok(mass) => mass,
        Err(_) => {
            return false;
        },
    };
    let mut i: usize = 0;
    while i < part.component.len()
        invariant
            i <= part.component@.len(),
            can_show_upto(part@.component, i as int),
            out@ == start + parts_anchors(part@.component, i as nat),
        decreases part.component@.len() - i,
    {
        assert(part@.component[i as int] == part.component@[i as int]@);
        if !collect_part(&part.component[i], out) {
            return false;
        }
        i += 1;
    }
    let ghost below = out@;
    let mut c: usize = 0;
    while c < part.composition.len()
        invariant
            c <= part.composition@.len(),
            out@ == below + compositions_anchors(part@.composition, size, c as nat),
        decreases part.composition@.len() - c,
    {
        let composition = &part.composition[c];
        let ghost before = out@;
        let mut d: usize = 0;
        while d < composition.distribution.len()
            invariant
                d <= composition.distribution@.len(),
                out@ == before + composition_anchors(composition@, size, d as nat),
            decreases composition.distribution@.len() - d,
        {
            let shown = composition.distribution[d].apply(&composition.space);
            let ghost before_points = out@;
            let mut p: usize = 0;
            while p < shown.len()
                invariant
                    p <= shown@.len(),
                    out@ == before_points + point_anchors(shown@, size).subrange(0, p as int),
                decreases shown@.len() - p,
            {
                out.push(Anchor { at: shown[p], size });
                p += 1;
            }
            d += 1;
        }
        c += 1;
    }
    true
}

/// Appends the anchors of `body` to `out`, or reports that one of its parts
/// has no mass.
fn collect_body(body: &Anomaly, out: &mut Vec<Anchor>) -> (shown: bool)
    ensures
        shown == can_show_body(body@),
        shown ==> final(out)@ == old(out)@ + body_anchors(body@),
    decreases body,
{
    let ghost start = out@;
    let mut i: usize = 0;
    while i < body.component.len()
        invariant
            i <= body.component@.len(),
            can_show_upto(body@.component, i as int),
            out@ == start + parts_anchors(body@.component, i as nat),
        decreases body.component@.len() - i,
    {
        assert(body@.component[i as int] == body.component@[i as int]@);
        if !collect_part(&body.component[i], out) {
            return false;
        }
        i += 1;
    }
    let ghost own = out@;
    let mut b: usize = 0;
    while b < body.anomaly.len()
        invariant
            b <= body.anomaly@.len(),
            can_show_upto(body@.component, body@.component.len() as int),
            can_show_bodies_upto(body@.anomaly, b as int),
            out@ == own + bodies_anchors(body@.anomaly, b as nat),
        decreases body.anomaly@.len() - b,
    {
        assert(body@.anomaly[b as int] == body.anomaly@[b as int]@);
        if !collect_body(&body.anomaly[b], out) {
            return false;
        }
        b += 1;
    }
    true
}

/// The anchors of `component`: those of its sub-parts first, then one for
/// every point that a distribution of one of its compositions derives,
/// sized by the mass of the part. Fails with `AttributeNotFound` where the
/// part or one of its sub-parts has no mass.
pub fn component_anchors(component: &Component) -> (result: Result<Vec<Anchor>, EngineError>)
    ensures
        match result {
            Ok(anchors) => can_show(component@) && anchors@ == part_anchors(component@),
            Err(e) => e == EngineError::AttributeNotFound && !can_show(component@),
        },
{
    let mut out: Vec<Anchor> = Vec::new();
    if collect_part(component, &mut out) {
        Ok(out)
    } else {
        Err(EngineError::AttributeNotFound)
    }
}

/// The anchors of `anom`: those of its own parts first, then those of its
/// sub-bodies. Fails with `AttributeNotFound` where a part of the body or
/// of one of its sub-bodies has no mass.
pub fn anchors(anom: &Anomaly) -> (result: Result<Vec<Anchor>, EngineError>)
    ensures
        match result {
            Ok(anchors) => can_show_body(anom@) && anchors@ == body_anchors(anom@),
            Err(e) => e == EngineError::AttributeNotFound && !can_show_body(anom@),
        },
{
    let mut out: Vec<Anchor> = Vec::new();
    if collect_body(anom, &mut out) {
        Ok(out)
    } else {
        Err(EngineError::AttributeNotFound)
    }
}

/// Whether `stone` is a mesh that `make` can give for the size of `anchor`,
/// moved to the point of the anchor.
pub open spec fn raised_at<F: Fn(i64) -> Stone>(make: F, anchor: Anchor, stone: Stone) -> bool {
    exists|made: Stone| call_ensures(make, (anchor.size,), made) && stone@ == placed(made@, anchor.at)
}

/// Whether `stones` holds, for each of `anchors` in turn, a mesh that
/// `make` can give for the size of the anchor, moved to its point.
pub open spec fn shows<F: Fn(i64) -> Stone>(make: F, anchors: Seq<Anchor>, stones: Seq<Stone>) -> bool {
    &&& stones.len() == anchors.len()
    &&& forall|k: int| 0 <= k < anchors.len() ==> raised_at(make, anchors[k], #[trigger] stones[k])
}

/// Makes one mesh for each of `anchors` and moves it to its point.
fn raise<F: Fn(i64) -> Stone>(anchors: &Vec<Anchor>, make: &F) -> (stones: Vec<Stone>)
    requires
        forall|size: i64| call_requires(*make, (size,)),
    ensures
        shows(*make, anchors@, stones@),
{
    let mut stones: Vec<Stone> = Vec::new();
    let mut k: usize = 0;
    while k < anchors.len()
        invariant
            k <= anchors@.len(),
            forall|size: i64| call_requires(*make, (size,)),
            stones@.len() == k,
            forall|t: int| 0 <= t < k ==> raised_at(*make, anchors@[t], #[trigger] stones@[t]),
        decreases anchors@.len() - k,
    {
        let anchor = anchors[k];
        let mut stone = make(anchor.size);
        let ghost made = stone;
        move_positions(&mut stone.positions, anchor.at);
        assert(call_ensures(*make, (anchor.size,), made) && stone@ == placed(made@, anchor.at));
        stones.push(stone);
        k += 1;
    }
    stones
}

/// The meshes of `component`: for each of its anchors a mesh that `make`
/// gives for the size of the anchor, moved to its point. Fails with
/// `AttributeNotFound` where the part or one of its sub-parts has no mass.
pub fn component_view<F: Fn(i64) -> Stone>(component: &Component, make: F) -> (result: Result<
    Vec<Stone>,
    EngineError,
>)
    requires
        forall|size: i64| call_requires(make, (size,)),
    ensures
        match result {
            Ok(stones) => can_show(component@) && shows(make, part_anchors(component@), stones@),
            Err(e) => e == EngineError::AttributeNotFound && !can_show(component@),
        },
{
    match component_anchors(component) {
        Ok(found) => Ok(raise(&found, &make)),
        Err(e) => Err(e),
    }
}

/// The meshes of `anom`: for each of its anchors a mesh that `make` gives
/// for the size of the anchor, moved to its point. Fails with
/// `AttributeNotFound` where a part of the body or of one of its
/// sub-bodies has no mass.
pub fn view<F: Fn(i64) -> Stone>(anom: &Anomaly, make: F) -> (result: Result<Vec<Stone>, EngineError>)
    requires
        forall|size: i64| call_requires(make, (size,)),
    ensures
        match result {
            Ok(stones) => can_show_body(anom@) && shows(make, body_anchors(anom@), stones@),
            Err(e) => e == EngineError::AttributeNotFound && !can_show_body(anom@),
        },
{
    match anchors(anom) {
        Ok(found) => Ok(raise(&found, &make)),
        Err(e) => Err(e),
    }
}

} // verus!

//! The time integrator: moves the points of parts by their inertia, in
//! steps of the elementary time unit.
//!
//! Time is counted in whole multiples of its resolution, 10^-50 seconds. A
//! coordinate moves by inertia times time and stays at the end of the range
//! of coordinates where it would leave it.

use crate::entity::{
    Anomaly, AnomalyModel, Component, component_model, component_property, ComponentModel,
    components_model, composition_model, CompositionModel, compositions_model, first_place,
    first_value, into_range, Property, PropertyKind, within_range,
};
use crate::error::EngineError;
use crate::frame::{same_bag_frame, same_frame};
use crate::interaction::{ForceLaw, interact, interacted};
use vstd::prelude::*;

verus! {

/// The smallest step of simulated time, in units of the time resolution.
pub const ELEMENTARY_TIME_UNIT: u64 = 5_391_247;

/// Where a coordinate is after `time` with the given inertia.
pub open spec fn advanced(coordinate: i64, inertia: i64, time: u64) -> i64 {
    within_range(coordinate + inertia * time)
}

/// Where a point is after `time` with the given inertia.
pub open spec fn point_moved(point: [i64; 3], inertia: [i64; 3], time: u64) -> [i64; 3] {
    [
        advanced(point[0], inertia[0], time),
        advanced(point[1], inertia[1], time),
        advanced(point[2], inertia[2], time),
    ]
}

/// The points of `space`, each moved.
pub open spec fn space_moved(space: Seq<[i64; 3]>, inertia: [i64; 3], time: u64) -> Seq<[i64; 3]> {
    Seq::new(space.len(), |i: int| point_moved(space[i], inertia, time))
}

/// The compositions `all`, each with its points moved.
pub open spec fn compositions_moved(all: Seq<CompositionModel>, inertia: [i64; 3], time: u64) -> Seq<
    CompositionModel,
> {
    Seq::new(
        all.len(),
        |i: int| CompositionModel { space: space_moved(all[i].space, inertia, time), ..all[i] },
    )
}

/// The inertia that `bag` holds: the values of its first properties of the
/// three inertia roles. None where one of them is missing.
pub open spec fn inertia_of(bag: Seq<Property>) -> Option<[i64; 3]> {
    match (
        first_value(bag, PropertyKind::InertiaX),
        first_value(bag, PropertyKind::InertiaY),
        first_value(bag, PropertyKind::InertiaZ),
    ) {
        (Some(x), Some(y), Some(z)) => Some([x, y, z]),
        _ => None,
    }
}

/// Whether `part` can be moved: it and all its sub-parts hold an inertia.
pub open spec fn can_progress(part: ComponentModel) -> bool
    decreases part,
{
    &&& inertia_of(part.property).is_some()
    &&& forall|i: int| 0 <= i < part.component.len() ==> can_progress(#[trigger] part.component[i])
}

/// Whether all of the first `k` of `parts` can be moved.
pub open spec fn can_progress_upto(parts: Seq<ComponentModel>, k: int) -> bool {
    forall|i: int| 0 <= i < k && i < parts.len() ==> can_progress(#[trigger] parts[i])
}

/// Whether a step can be taken on `body`: all its parts can be moved.
pub open spec fn can_step(body: AnomalyModel) -> bool {
    can_progress_upto(body.component, body.component.len() as int)
}

/// `part` after `time`: the points of the part and of all its sub-parts
/// have moved, each by the inertia of the part that owns it.
pub open spec fn component_progressed(part: ComponentModel, time: u64) -> ComponentModel
    decreases part, 0nat,
{
    ComponentModel {
        component: components_progressed(part.component, time),
        composition: match inertia_of(part.property) {
            Some(inertia) => compositions_moved(part.composition, inertia, time),
            None => part.composition,
        },
        property: part.property,
    }
}

/// Every one of `parts` after `time`.
pub open spec fn components_progressed(parts: Seq<ComponentModel>, time: u64) -> Seq<ComponentModel>
    decreases parts, 1nat,
{
    Seq::new(
        parts.len(),
        |i: int|
            if 0 <= i < parts.len() {
                component_progressed(parts[i], time)
            } else {
                arbitrary()
            },
    )
}

/// `body` after `steps` elementary time units: its own parts have moved
/// step by step.
pub open spec fn stepped(body: AnomalyModel, steps: nat) -> AnomalyModel
    decreases steps,
{
    if steps == 0 {
        body
    } else {
        let before = stepped(body, (steps - 1) as nat);
        AnomalyModel { component: components_progressed(before.component, ELEMENTARY_TIME_UNIT), ..before }
    }
}

/// The number of whole elementary time units in `time`.
pub open spec fn steps_in(time: u64) -> nat {
    (time / ELEMENTARY_TIME_UNIT) as nat
}

/// `body` after a tick of the length `time`: one pass of interaction, then
/// as many steps as `time` holds whole elementary time units.
pub open spec fn progressed<L: ForceLaw>(law: L, body: AnomalyModel, time: u64) -> AnomalyModel {
    stepped(interacted(law, body), steps_in(time))
}

/// The way of a coordinate in any time fits into 128 bits.
proof fn lemma_product_fits(inertia: i64, time: u64)
    ensures
        -0x8000_0000_0000_0000 * 0xFFFF_FFFF_FFFF_FFFF <= inertia * time <= 0x7FFF_FFFF_FFFF_FFFF
            * 0xFFFF_FFFF_FFFF_FFFF,
{
    assert(-0x8000_0000_0000_0000 * 0xFFFF_FFFF_FFFF_FFFF <= inertia * time <= 0x7FFF_FFFF_FFFF_FFFF
        * 0xFFFF_FFFF_FFFF_FFFF) by (nonlinear_arith)
        requires
            -0x8000_0000_0000_0000 <= inertia <= 0x7FFF_FFFF_FFFF_FFFF,
            0 <= time <= 0xFFFF_FFFF_FFFF_FFFF,
    ;
}

/// Moves one coordinate.
fn advance(coordinate: i64, inertia: i64, time: u64) -> (moved: i64)
    ensures
        moved == advanced(coordinate, inertia, time),
{
    proof {
        lemma_product_fits(inertia, time);
    }
    let way: i128 = (inertia as i128) * (time as i128);
    into_range((coordinate as i128) + way)
}

/// The inertia of `part`, where it holds one.
fn read_inertia(part: &Component) -> (inertia: Option<[i64; 3]>)
    ensures
        inertia == inertia_of(part@.property),
{
    let x = component_property(part, PropertyKind::InertiaX);
    let y = component_property(part, PropertyKind::InertiaY);
    let z = component_property(part, PropertyKind::InertiaZ);
    match (x, y, z) {
        (Ok(x), Ok(y), Ok(z)) => Some([x, y, z]),
        _ => None,
    }
}

/// Whether `part` can be moved: it and all its sub-parts hold an inertia.
pub fn holds_inertia(part: &Component) -> (holds: bool)
    ensures
        holds == can_progress(part@),
    decreases part,
{
    if read_inertia(part).is_none() {
        return false;
    }
    let mut i: usize = 0;
    while i < part.component.len()
        invariant
            i <= part.component@.len(),
            inertia_of(part@.property).is_some(),
            can_progress_upto(part@.component, i as int),
        decreases part.component@.len() - i,
    {
        assert(part@.component[i as int] == part.component@[i as int]@);
        if !holds_inertia(&part.component[i]) {
            return false;
        }
        i += 1;
    }
    true
}

/// Whether all of `parts` hold an inertia, they and their sub-parts.
fn all_hold_inertia(parts: &Vec<Component>) -> (holds: bool)
    ensures
        holds == can_progress_upto(components_model(parts@), parts@.len() as int),
{
    let mut i: usize = 0;
    while i < parts.len()
        invariant
            i <= parts@.len(),
            can_progress_upto(components_model(parts@), i as int),
        decreases parts@.len() - i,
    {
        assert(components_model(parts@)[i as int] == parts@[i as int]@);
        if !holds_inertia(&parts[i]) {
            return false;
        }
        i += 1;
    }
    true
}

/// Moves the points of one composition.
fn move_space(space: &mut Vec<[i64; 3]>, inertia: [i64; 3], time: u64)
    ensures
        final(space)@ == space_moved(old(space)@, inertia, time),
{
    let n = space.len();
    let mut i: usize = 0;
    while i < n
        invariant
            i <= n,
            space@.len() == n,
            old(space)@.len() == n,
            forall|k: int| 0 <= k < i ==> #[trigger] space@[k] == point_moved(old(space)@[k], inertia, time),
            forall|k: int| i <= k < n ==> #[trigger] space@[k] == old(space)@[k],
        decreases n - i,
    {
        let point = space[i];
        let moved = [
            advance(point[0], inertia[0], time),
            advance(point[1], inertia[1], time),
            advance(point[2], inertia[2], time),
        ];
        space.set(i, moved);
        i += 1;
    }
}

/// Moves a part that holds an inertia, as do all its sub-parts.
fn move_part(part: &mut Component, time: u64)
    requires
        can_progress(old(part)@),
    ensures
        final(part)@ == component_progressed(old(part)@, time),
    decreases *old(part),
{
    let n = part.component.len();
    let mut i: usize = 0;
    while i < n
        invariant
            i <= n,
            part.component@.len() == n,
            old(part).component@.len() == n,
            part.composition == old(part).composition,
            part.property == old(part).property,
            can_progress(old(part)@),
            forall|k: int|
                0 <= k < i ==> component_model(#[trigger] part.component@[k]) == component_progressed(
                    component_model(old(part).component@[k]),
                    time,
                ),
            forall|k: int| i <= k < n ==> #[trigger] part.component@[k] == old(part).component@[k],
        decreases n - i,
    {
        assert(old(part)@.component[i as int] == old(part).component@[i as int]@);
        move_part(&mut part.component[i], time);
        i += 1;
    }
    let inertia = read_inertia(part).unwrap();
    let m = part.composition.len();
    let mut c: usize = 0;
    while c < m
        invariant
            c <= m,
            part.composition@.len() == m,
            old(part).composition@.len() == m,
            part.property == old(part).property,
            components_model(part.component@) == components_progressed(old(part)@.component, time),
            forall|k: int|
                0 <= k < c ==> composition_model(#[trigger] part.composition@[k]) == (CompositionModel {
                    space: space_moved(old(part).composition@[k].space@, inertia, time),
                    distribution: old(part).composition@[k].distribution@,
                }),
            forall|k: int| c <= k < m ==> #[trigger] part.composition@[k] == old(part).composition@[k],
        decreases m - c,
    {
        move_space(&mut part.composition[c].space, inertia, time);
        c += 1;
    }
    assert(compositions_model(part.composition@) =~= compositions_moved(
        old(part)@.composition,
        inertia,
        time,
    ));
}

/// Moves the points of `component` and of all its sub-parts by `time`,
/// each by the inertia of the part that owns it. Fails with
/// `AttributeNotFound`, and moves nothing, where the part or one of its
/// sub-parts lacks an inertia property.
pub fn component_progress(component: &mut Component, time: u64) -> (result: Result<(), EngineError>)
    ensures
        match result {
            Ok(_) => can_progress(old(component)@) && final(component)@ == component_progressed(
                old(component)@,
                time,
            ),
            Err(e) => e == EngineError::AttributeNotFound && !can_progress(old(component)@) && final(component)@
                == old(component)@,
        },
{
    if !holds_inertia(component) {
        return Err(EngineError::AttributeNotFound);
    }
    move_part(component, time);
    Ok(())
}

/// Bags of the same frame hold the first property of a role at the same
/// place.
proof fn lemma_same_bag_frame_place(a: Seq<Property>, b: Seq<Property>, name: PropertyKind, from: int)
    requires
        same_bag_frame(a, b),
    ensures
        first_place(a, name, from) == first_place(b, name, from),
    decreases a.len() - from,
{
    if 0 <= from < a.len() {
        if a[from].name != name {
            lemma_same_bag_frame_place(a, b, name, from + 1);
        }
    }
}

/// Parts of the same frame can be moved alike.
pub proof fn lemma_same_frame_can_progress(a: ComponentModel, b: ComponentModel)
    requires
        same_frame(a, b),
    ensures
        can_progress(a) == can_progress(b),
    decreases a,
{
    lemma_same_bag_frame_place(a.property, b.property, PropertyKind::InertiaX, 0);
    lemma_same_bag_frame_place(a.property, b.property, PropertyKind::InertiaY, 0);
    lemma_same_bag_frame_place(a.property, b.property, PropertyKind::InertiaZ, 0);
    assert forall|i: int| 0 <= i < a.component.len() implies can_progress(#[trigger] a.component[i])
        == can_progress(b.component[i]) by {
        lemma_same_frame_can_progress(a.component[i], b.component[i]);
    }
    if can_progress(a) {
        assert forall|i: int| 0 <= i < b.component.len() implies can_progress(#[trigger] b.component[i]) by {
            assert(can_progress(a.component[i]));
        }
    }
}

/// A part that can be moved can be moved again.
pub proof fn lemma_progressed_can_progress(part: ComponentModel, time: u64)
    requires
        can_progress(part),
    ensures
        can_progress(component_progressed(part, time)),
    decreases part,
{
    let after = component_progressed(part, time);
    assert forall|i: int| 0 <= i < after.component.len() implies can_progress(#[trigger] after.component[i]) by {
        lemma_progressed_can_progress(part.component[i], time);
    }
}

/// Moves every one of `parts` by `time`.
fn move_parts(parts: &mut Vec<Component>, time: u64)
    requires
        can_progress_upto(components_model(old(parts)@), old(parts)@.len() as int),
    ensures
        final(parts)@.len() == old(parts)@.len(),
        components_model(final(parts)@) == components_progressed(
            components_model(old(parts)@),
            time,
        ),
        can_progress_upto(components_model(final(parts)@), final(parts)@.len() as int),
{
    let n = parts.len();
    let ghost start = components_model(parts@);
    let mut i: usize = 0;
    while i < n
        invariant
            i <= n,
            parts@.len() == n,
            old(parts)@.len() == n,
            start == components_model(old(parts)@),
            can_progress_upto(start, n as int),
            forall|k: int|
                0 <= k < i ==> component_model(#[trigger] parts@[k]) == component_progressed(
                    start[k],
                    time,
                ),
            forall|k: int| i <= k < n ==> #[trigger] parts@[k] == old(parts)@[k],
        decreases n - i,
    {
        assert(start[i as int] == old(parts)@[i as int]@);
        move_part(&mut parts[i], time);
        i += 1;
    }
    proof {
        let after = components_model(parts@);
        assert forall|k: int| 0 <= k < n implies can_progress(#[trigger] after[k]) by {
            lemma_progressed_can_progress(start[k], time);
        }
    }
}

/// One tick of the length `time` on `anom`: one pass of interaction under
/// `law`, then as many steps as `time` holds whole elementary time units.
/// Each step moves the parts of the body by one elementary time unit.
///
/// Fails with `AttributeNotFound`, and leaves the body as it is, where a
/// step is due and a part of the body, or a sub-part of one, lacks an
/// inertia property.
pub fn progress<L: ForceLaw>(law: &L, anom: &mut Anomaly, time: u64) -> (result: Result<(), EngineError>)
    ensures
        match result {
            Ok(_) => {
                &&& final(anom)@ == progressed(*law, old(anom)@, time)
                &&& steps_in(time) > 0 ==> can_step(old(anom)@)
            },
            Err(e) => {
                &&& e == EngineError::AttributeNotFound
                &&& steps_in(time) > 0
                &&& !can_step(old(anom)@)
                &&& final(anom)@ == old(anom)@
            },
        },
        time < ELEMENTARY_TIME_UNIT ==> result.is_ok() && final(anom)@ == interacted(*law, old(anom)@),
{
    let steps: u64 = time / ELEMENTARY_TIME_UNIT;
    if steps > 0 && !all_hold_inertia(&anom.component) {
        return Err(EngineError::AttributeNotFound);
    }
    interact(law, anom);
    let ghost met = anom@;
    proof {
        if steps > 0 {
            let before = old(anom)@.component;
            assert forall|k: int| 0 <= k < met.component.len() implies can_progress(#[trigger] met.component[k]) by {
                lemma_same_frame_can_progress(before[k], met.component[k]);
            }
        }
    }
    let mut s: u64 = 0;
    while s < steps
        invariant
            s <= steps,
            anom@ == stepped(met, s as nat),
            steps > 0 ==> can_progress_upto(anom@.component, anom@.component.len() as int),
        decreases steps - s,
    {
        move_parts(&mut anom.component, ELEMENTARY_TIME_UNIT);
        s += 1;
    }
    Ok(())
}

} // verus!

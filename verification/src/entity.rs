//! The entity model: bodies, parts, force rules and their properties.
//!
//! Quantities are fixed-point numbers: the integer `UNIT` stands for 1.
//! Every executable type has a mathematical model, its view, in which
//! vectors are sequences; the contracts of the engine speak of the models.

use crate::error::EngineError;
use vstd::prelude::*;

verus! {

/// The fixed-point representation of the quantity 1.
pub const UNIT: i64 = 10_000_000_000_000;

/// Spin one half.
pub const SPIN_HALF: i64 = 5_000_000_000_000;

/// The electric charge of a lepton: minus one elementary charge.
pub const LEPTON_CHARGE: i64 = -10_000_000_000_000;

/// The mass of a lepton: 0.511.
pub const LEPTON_MASS: i64 = 5_110_000_000_000;

/// The electric charge of an up-type quark: two thirds, rounded to the
/// resolution.
pub const QUARK_CHARGE_UP: i64 = 6_666_666_666_667;

/// The electric charge of a down-type quark: minus one third, rounded to the
/// resolution.
pub const QUARK_CHARGE_DOWN: i64 = -3_333_333_333_333;

/// The coupling of the electromagnetic rule: 1/137, rounded to the
/// resolution.
pub const FINE_STRUCTURE: i64 = 72_992_700_730;

/// The coupling of the two weak rules: the smallest quantity above zero.
pub const WEAK_COUPLING: i64 = 1;

/// The coupling of the gravitational rule, which lies below the resolution.
pub const GRAVITATIONAL_COUPLING: i64 = 0;

/// The reach of the strong rule: a femtometre, in attometres.
pub const STRONG_REACH: u64 = 1000;

/// The reach of the weak rules: an attometre.
pub const WEAK_REACH: u64 = 1;

/// `x`, or the end of the range of quantities that lies nearest to it.
pub open spec fn within_range(x: int) -> i64 {
    if x > i64::MAX {
        i64::MAX
    } else if x < i64::MIN {
        i64::MIN
    } else {
        x as i64
    }
}

/// The quantity `x`, or the end of the range of quantities that lies
/// nearest to it.
pub fn into_range(x: i128) -> (quantity: i64)
    ensures
        quantity == within_range(x as int),
{
    if x > i64::MAX as i128 {
        i64::MAX
    } else if x < i64::MIN as i128 {
        i64::MIN
    } else {
        x as i64
    }
}

/// The roles that a property can play. The key of a property is its role.
#[derive(Clone, Copy, Debug, PartialEq, Eq, Structural)]
pub enum PropertyKind {
    /// The electric charge, in elementary charges.
    ElectricCharge,
    /// The spin.
    Spin,
    /// The mass. It is also the size of the meshes that show the part.
    Mass,
    /// The color charge: the number of the color.
    ColorCharge,
    /// The first component of the inertia: the way of the first
    /// coordinate in one unit of the time resolution.
    InertiaX,
    /// The second component of the inertia.
    InertiaY,
    /// The third component of the inertia.
    InertiaZ,
}

/// A property of a part: a role and a fixed-point value.
#[derive(Clone, Copy, Debug, PartialEq, Eq, Structural)]
pub struct Property {
    pub name: PropertyKind,
    pub value: i64,
}

/// A pure map from a sequence of points to a derived sequence of points.
#[derive(Clone, Copy, Debug, PartialEq, Eq, Structural)]
pub enum Distribution {
    /// Every point stands for itself.
    Identity,
}

/// How far a force rule reaches.
#[derive(Clone, Copy, Debug, PartialEq, Eq, Structural)]
pub enum Reach {
    /// Up to this distance, in attometres.
    Within(u64),
    /// Without bound.
    Unbounded,
}

/// Points in space together with the distributions that derive the points
/// to show from them.
#[derive(Debug, PartialEq, Eq)]
pub struct Composition {
    pub space: Vec<[i64; 3]>,
    pub distribution: Vec<Distribution>,
}

/// A part: sub-parts, compositions and a bag of properties.
#[derive(Debug, PartialEq, Eq)]
pub struct Component {
    pub component: Vec<Component>,
    pub composition: Vec<Composition>,
    pub property: Vec<Property>,
}

/// A force rule: sub-rules, the ranges within which it applies and the
/// template parts that say to which parts it applies.
#[derive(Debug, PartialEq, Eq)]
pub struct Force {
    pub force: Vec<Force>,
    pub range: Vec<Reach>,
    pub domain: Vec<Component>,
}

/// A body: sub-bodies, parts, and the force rules that govern its parts.
#[derive(Debug, PartialEq, Eq)]
pub struct Anomaly {
    pub anomaly: Vec<Anomaly>,
    pub component: Vec<Component>,
    pub force: Vec<Force>,
}

/// The model of a composition.
pub struct CompositionModel {
    pub space: Seq<[i64; 3]>,
    pub distribution: Seq<Distribution>,
}

/// The model of a part.
pub struct ComponentModel {
    pub component: Seq<ComponentModel>,
    pub composition: Seq<CompositionModel>,
    pub property: Seq<Property>,
}

/// The model of a force rule.
pub struct ForceModel {
    pub force: Seq<ForceModel>,
    pub range: Seq<Reach>,
    pub domain: Seq<ComponentModel>,
}

/// The model of a body.
pub struct AnomalyModel {
    pub anomaly: Seq<AnomalyModel>,
    pub component: Seq<ComponentModel>,
    pub force: Seq<ForceModel>,
}

/// The model of the composition `c`.
pub open spec fn composition_model(c: Composition) -> CompositionModel {
    CompositionModel { space: c.space@, distribution: c.distribution@ }
}

/// The models of the compositions `s`.
pub open spec fn compositions_model(s: Seq<Composition>) -> Seq<CompositionModel> {
    Seq::new(s.len(), |i: int| composition_model(s[i]))
}

/// The model of the part `c`.
pub open spec fn component_model(c: Component) -> ComponentModel
    decreases c, 0nat,
{
    ComponentModel {
        component: components_model(c.component@),
        composition: compositions_model(c.composition@),
        property: c.property@,
    }
}

/// The models of the parts `s`.
pub open spec fn components_model(s: Seq<Component>) -> Seq<ComponentModel>
    decreases s, 1nat,
{
    Seq::new(
        s.len(),
        |i: int|
            if 0 <= i < s.len() {
                component_model(s[i])
            } else {
                arbitrary()
            },
    )
}

/// The model of the force rule `f`.
pub open spec fn force_model(f: Force) -> ForceModel
    decreases f, 0nat,
{
    ForceModel { force: forces_model(f.force@), range: f.range@, domain: components_model(f.domain@) }
}

/// The models of the force rules `s`.
pub open spec fn forces_model(s: Seq<Force>) -> Seq<ForceModel>
    decreases s, 1nat,
{
    Seq::new(
        s.len(),
        |i: int|
            if 0 <= i < s.len() {
                force_model(s[i])
            } else {
                arbitrary()
            },
    )
}

/// The model of the body `a`.
pub open spec fn anomaly_model(a: Anomaly) -> AnomalyModel
    decreases a, 0nat,
{
    AnomalyModel {
        anomaly: anomalies_model(a.anomaly@),
        component: components_model(a.component@),
        force: forces_model(a.force@),
    }
}

/// The models of the bodies `s`.
pub open spec fn anomalies_model(s: Seq<Anomaly>) -> Seq<AnomalyModel>
    decreases s, 1nat,
{
    Seq::new(
        s.len(),
        |i: int|
            if 0 <= i < s.len() {
                anomaly_model(s[i])
            } else {
                arbitrary()
            },
    )
}

impl View for Composition {
    type V = CompositionModel;

    open spec fn view(&self) -> CompositionModel {
        composition_model(*self)
    }
}

impl View for Component {
    type V = ComponentModel;

    open spec fn view(&self) -> ComponentModel {
        component_model(*self)
    }
}

impl View for Force {
    type V = ForceModel;

    open spec fn view(&self) -> ForceModel {
        force_model(*self)
    }
}

impl View for Anomaly {
    type V = AnomalyModel;

    open spec fn view(&self) -> AnomalyModel {
        anomaly_model(*self)
    }
}

/// The place of the first property of `bag` with the role `name`, from
/// place `from` on.
pub open spec fn first_place(bag: Seq<Property>, name: PropertyKind, from: int) -> Option<int>
    decreases bag.len() - from,
{
    if from < 0 || from >= bag.len() {
        None
    } else if bag[from].name == name {
        Some(from)
    } else {
        first_place(bag, name, from + 1)
    }
}

/// The value of the first property of `bag` with the role `name`.
pub open spec fn first_value(bag: Seq<Property>, name: PropertyKind) -> Option<i64> {
    match first_place(bag, name, 0) {
        Some(i) => Some(bag[i].value),
        None => None,
    }
}

/// `bag` with the value of its first property of the role `name` replaced
/// by `value`; `bag` itself where it has no such property.
pub open spec fn with_value(bag: Seq<Property>, name: PropertyKind, value: i64) -> Seq<Property> {
    match first_place(bag, name, 0) {
        Some(i) => bag.update(i, Property { name, value }),
        None => bag,
    }
}

/// `bag` with the three inertia properties set to `inertia`.
pub open spec fn with_inertia(bag: Seq<Property>, inertia: [i64; 3]) -> Seq<Property> {
    with_value(
        with_value(with_value(bag, PropertyKind::InertiaX, inertia[0]), PropertyKind::InertiaY, inertia[1]),
        PropertyKind::InertiaZ,
        inertia[2],
    )
}

/// The first property of a role is the property of that role with none of
/// that role before it, from the place where the search began; there is
/// none where no property from that place on has the role.
pub proof fn lemma_first_place(bag: Seq<Property>, name: PropertyKind, from: int)
    requires
        0 <= from,
    ensures
        match first_place(bag, name, from) {
            Some(i) => {
                &&& from <= i < bag.len()
                &&& bag[i].name == name
                &&& forall|j: int| from <= j < i ==> (#[trigger] bag[j]).name != name
            },
            None => forall|j: int| from <= j < bag.len() ==> (#[trigger] bag[j]).name != name,
        },
    decreases bag.len() - from,
{
    if from < bag.len() && bag[from].name != name {
        lemma_first_place(bag, name, from + 1);
    }
}

/// The value of the first property of `component` with the role `name`.
/// Fails with `AttributeNotFound` where the part has no such property.
pub fn component_property(component: &Component, name: PropertyKind) -> (result: Result<i64, EngineError>)
    ensures
        result == match first_value(component@.property, name) {
            Some(value) => Ok::<i64, EngineError>(value),
            None => Err::<i64, EngineError>(EngineError::AttributeNotFound),
        },
{
    let mut i: usize = 0;
    while i < component.property.len()
        invariant
            i <= component.property@.len(),
            first_place(component.property@, name, 0) == first_place(component.property@, name, i as int),
        decreases component.property@.len() - i,
    {
        if component.property[i].name == name {
            return Ok(component.property[i].value);
        }
        i += 1;
    }
    Err(EngineError::AttributeNotFound)
}

/// The value of the first property of `component` with the role `name`, or
/// `fallback` where the part has no such property.
pub fn component_property_or(component: &Component, name: PropertyKind, fallback: i64) -> (value: i64)
    ensures
        value == match first_value(component@.property, name) {
            Some(found) => found,
            None => fallback,
        },
{
    match component_property(component, name) {
        Ok(found) => found,
        Err(_) => fallback,
    }
}

/// Replaces the value of the first property of `component` with the role
/// `n` by `s`. Leaves the part as it is where it has no such property.
pub fn set_component_property(n: PropertyKind, s: i64, component: &mut Component)
    ensures
        final(component)@ == (ComponentModel {
            property: with_value(old(component)@.property, n, s),
            ..old(component)@
        }),
{
    let mut i: usize = 0;
    while i < component.property.len()
        invariant
            i <= component.property@.len(),
            *component == *old(component),
            first_place(component.property@, n, 0) == first_place(component.property@, n, i as int),
        decreases component.property@.len() - i,
    {
        if component.property[i].name == n {
            component.property.set(i, Property { name: n, value: s });
            return;
        }
        i += 1;
    }
}

/// Sets the three inertia properties of `c` to `in0`, each where the part
/// carries it.
pub fn set_inertia(in0: [i64; 3], c: &mut Component)
    ensures
        final(c)@ == (ComponentModel { property: with_inertia(old(c)@.property, in0), ..old(c)@ }),
{
    set_component_property(PropertyKind::InertiaX, in0[0], c);
    set_component_property(PropertyKind::InertiaY, in0[1], c);
    set_component_property(PropertyKind::InertiaZ, in0[2], c);
}

/// The model of a template part: no sub-parts, no compositions, and the one
/// property that a matching part must carry.
pub open spec fn template_model(name: PropertyKind, value: i64) -> ComponentModel {
    ComponentModel {
        component: Seq::empty(),
        composition: Seq::empty(),
        property: seq![Property { name, value }],
    }
}

/// The model of a rule without sub-rules, with one range and one template.
pub open spec fn plain_rule_model(reach: Reach, name: PropertyKind, value: i64) -> ForceModel {
    ForceModel { force: Seq::empty(), range: seq![reach], domain: seq![template_model(name, value)] }
}

/// The model of the weak rule: it applies through its two sub-rules, the
/// neutral current and the charged current.
pub open spec fn weak_rule_model() -> ForceModel {
    ForceModel {
        force: seq![
            plain_rule_model(Reach::Within(WEAK_REACH), PropertyKind::Mass, WEAK_COUPLING),
            plain_rule_model(Reach::Within(WEAK_REACH), PropertyKind::Spin, WEAK_COUPLING),
        ],
        range: Seq::empty(),
        domain: Seq::empty(),
    }
}

/// The model of the base of all force rules. Its sub-rules are the strong,
/// the electromagnetic, the weak and the gravitational rule, in this order.
pub open spec fn force_base_model() -> ForceModel {
    ForceModel {
        force: seq![
            plain_rule_model(Reach::Within(STRONG_REACH), PropertyKind::ColorCharge, UNIT),
            plain_rule_model(Reach::Unbounded, PropertyKind::ElectricCharge, FINE_STRUCTURE),
            weak_rule_model(),
            plain_rule_model(Reach::Unbounded, PropertyKind::Mass, GRAVITATIONAL_COUPLING),
        ],
        range: Seq::empty(),
        domain: Seq::empty(),
    }
}

/// The model of a particle: a body without sub-bodies whose one part holds
/// the one point `position`, shown as it is, and the properties `bag`; its
/// rules are the sub-rules of the base.
pub open spec fn particle_model(position: [i64; 3], bag: Seq<Property>) -> AnomalyModel {
    AnomalyModel {
        anomaly: Seq::empty(),
        component: seq![
            ComponentModel {
                component: Seq::empty(),
                composition: seq![
                    CompositionModel { space: seq![position], distribution: seq![Distribution::Identity] },
                ],
                property: bag,
            },
        ],
        force: force_base_model().force,
    }
}

/// The spin of a particle that turns with the clock, or against it.
pub open spec fn spin_of(clock: bool) -> i64 {
    if clock {
        SPIN_HALF
    } else {
        (-SPIN_HALF) as i64
    }
}

/// The properties of a lepton.
pub open spec fn lepton_bag(inertia: [i64; 3], clock: bool) -> Seq<Property> {
    seq![
        Property { name: PropertyKind::Spin, value: spin_of(clock) },
        Property { name: PropertyKind::ElectricCharge, value: LEPTON_CHARGE },
        Property { name: PropertyKind::Mass, value: LEPTON_MASS },
        Property { name: PropertyKind::InertiaX, value: inertia[0] },
        Property { name: PropertyKind::InertiaY, value: inertia[1] },
        Property { name: PropertyKind::InertiaZ, value: inertia[2] },
    ]
}

/// The mass of a quark of the given flavor. Flavors count modulo six.
pub open spec fn quark_mass(flavor: u8) -> i64 {
    let k = flavor % 6;
    if k == 0 {
        22_000_000_000_000
    } else if k == 1 {
        47_000_000_000_000
    } else if k == 2 {
        12_800_000_000_000
    } else if k == 3 {
        960_000_000_000_000
    } else if k == 4 {
        1_731_000_000_000_000
    } else {
        41_800_000_000_000
    }
}

/// The electric charge of an up-type quark, or of a down-type one.
pub open spec fn quark_charge(charge: bool) -> i64 {
    if charge {
        QUARK_CHARGE_UP
    } else {
        QUARK_CHARGE_DOWN
    }
}

/// The properties of a quark. Colors count modulo six.
pub open spec fn quark_bag(inertia: [i64; 3], clock: bool, charge: bool, color: u8, flavor: u8) -> Seq<
    Property,
> {
    seq![
        Property { name: PropertyKind::Spin, value: spin_of(clock) },
        Property { name: PropertyKind::ElectricCharge, value: quark_charge(charge) },
        Property { name: PropertyKind::Mass, value: quark_mass(flavor) },
        Property { name: PropertyKind::ColorCharge, value: ((color % 6) * UNIT) as i64 },
        Property { name: PropertyKind::InertiaX, value: inertia[0] },
        Property { name: PropertyKind::InertiaY, value: inertia[1] },
        Property { name: PropertyKind::InertiaZ, value: inertia[2] },
    ]
}

/// The identity distribution: every point stands for itself.
pub fn particular(coordinates: Vec<[i64; 3]>) -> (points: Vec<[i64; 3]>)
    ensures
        points@ == coordinates@,
{
    coordinates
}

/// A template part with the one property of the given role and value.
fn template(name: PropertyKind, value: i64) -> (part: Component)
    ensures
        part@ == template_model(name, value),
{
    let part = Component { component: Vec::new(), composition: Vec::new(), property: vec![Property { name, value }] };
    assert(part@.component =~= Seq::empty());
    assert(part@.composition =~= Seq::empty());
    assert(part@.property =~= seq![Property { name, value }]);
    part
}

/// A rule without sub-rules, with one range and one template.
fn plain_rule(reach: Reach, name: PropertyKind, value: i64) -> (rule: Force)
    ensures
        rule@ == plain_rule_model(reach, name, value),
{
    let rule = Force { force: Vec::new(), range: vec![reach], domain: vec![template(name, value)] };
    assert(rule@.force =~= Seq::empty());
    assert(rule@.range =~= seq![reach]);
    assert(rule@.domain =~= seq![template_model(name, value)]);
    rule
}

/// The weak rule with its two sub-rules.
fn weak_rule() -> (rule: Force)
    ensures
        rule@ == weak_rule_model(),
{
    let rule = Force {
        force: vec![
            plain_rule(Reach::Within(WEAK_REACH), PropertyKind::Mass, WEAK_COUPLING),
            plain_rule(Reach::Within(WEAK_REACH), PropertyKind::Spin, WEAK_COUPLING),
        ],
        range: Vec::new(),
        domain: Vec::new(),
    };
    assert(rule@.force =~= weak_rule_model().force);
    assert(rule@.domain =~= Seq::empty());
    rule
}

/// The base of all force rules: a rule without range or domain whose
/// sub-rules are the strong, the electromagnetic, the weak and the
/// gravitational rule.
pub fn force_base() -> (base: Force)
    ensures
        base@ == force_base_model(),
{
    let base = Force {
        force: vec![
            plain_rule(Reach::Within(STRONG_REACH), PropertyKind::ColorCharge, UNIT),
            plain_rule(Reach::Unbounded, PropertyKind::ElectricCharge, FINE_STRUCTURE),
            weak_rule(),
            plain_rule(Reach::Unbounded, PropertyKind::Mass, GRAVITATIONAL_COUPLING),
        ],
        range: Vec::new(),
        domain: Vec::new(),
    };
    assert(base@.force =~= force_base_model().force);
    assert(base@.domain =~= Seq::empty());
    base
}

/// A particle at `position` with the given properties.
pub fn particle(position: [i64; 3], properties: Vec<Property>) -> (body: Anomaly)
    ensures
        body@ == particle_model(position, properties@),
{
    let ghost bag = properties@;
    let space = Composition { space: vec![position], distribution: vec![Distribution::Identity] };
    assert(space@.space =~= seq![position]);
    assert(space@.distribution =~= seq![Distribution::Identity]);
    let part = Component { component: Vec::new(), composition: vec![space], property: properties };
    assert(part@.component =~= Seq::empty());
    assert(part@.composition =~= particle_model(position, bag).component[0].composition);
    let body = Anomaly { anomaly: Vec::new(), component: vec![part], force: force_base().force };
    assert(body@.anomaly =~= Seq::empty());
    assert(body@.component =~= particle_model(position, bag).component);
    body
}

/// A lepton at `position` that moves with `inertia` and spins with the
/// clock or against it.
pub fn e(position: [i64; 3], inertia: [i64; 3], clock: bool) -> (body: Anomaly)
    ensures
        body@ == particle_model(position, lepton_bag(inertia, clock)),
{
    let sp: i64 = if clock {
        SPIN_HALF
    } else {
        -SPIN_HALF
    };
    let bag = vec![
        Property { name: PropertyKind::Spin, value: sp },
        Property { name: PropertyKind::ElectricCharge, value: LEPTON_CHARGE },
        Property { name: PropertyKind::Mass, value: LEPTON_MASS },
        Property { name: PropertyKind::InertiaX, value: inertia[0] },
        Property { name: PropertyKind::InertiaY, value: inertia[1] },
        Property { name: PropertyKind::InertiaZ, value: inertia[2] },
    ];
    particle(position, bag)
}

/// The mass of a quark of the given flavor.
fn mass_of_flavor(flavor: u8) -> (mass: i64)
    ensures
        mass == quark_mass(flavor),
{
    let k: u8 = flavor % 6;
    if k == 0 {
        22_000_000_000_000
    } else if k == 1 {
        47_000_000_000_000
    } else if k == 2 {
        12_800_000_000_000
    } else if k == 3 {
        960_000_000_000_000
    } else if k == 4 {
        1_731_000_000_000_000
    } else {
        41_800_000_000_000
    }
}

/// A quark at `position` that moves with `inertia`, spins with the clock or
/// against it, and has an up-type or a down-type charge, a color and a
/// flavor.
pub fn q(position: [i64; 3], inertia: [i64; 3], clock: bool, charge: bool, color: u8, flavor: u8) -> (body:
    Anomaly)
    ensures
        body@ == particle_model(position, quark_bag(inertia, clock, charge, color, flavor)),
{
    let sp: i64 = if clock {
        SPIN_HALF
    } else {
        -SPIN_HALF
    };
    let ch: i64 = if charge {
        QUARK_CHARGE_UP
    } else {
        QUARK_CHARGE_DOWN
    };
    let shade: u8 = color % 6;
    let cr: i64 = (shade as i64) * UNIT;
    let bag = vec![
        Property { name: PropertyKind::Spin, value: sp },
        Property { name: PropertyKind::ElectricCharge, value: ch },
        Property { name: PropertyKind::Mass, value: mass_of_flavor(flavor) },
        Property { name: PropertyKind::ColorCharge, value: cr },
        Property { name: PropertyKind::InertiaX, value: inertia[0] },
        Property { name: PropertyKind::InertiaY, value: inertia[1] },
        Property { name: PropertyKind::InertiaZ, value: inertia[2] },
    ];
    particle(position, bag)
}

/// Adds the body `p` to `anom` as its last sub-body.
pub fn add_particle_by(anom: &mut Anomaly, p: Anomaly)
    ensures
        final(anom)@ == (AnomalyModel { anomaly: old(anom)@.anomaly.push(p@), ..old(anom)@ }),
{
    anom.anomaly.push(p);
    assert(anom@.anomaly =~= old(anom)@.anomaly.push(p@));
}

/// A lepton gives back what it was made with: its spin, its charge, its
/// mass and its inertia.
pub proof fn lemma_lepton_round_trip(position: [i64; 3], inertia: [i64; 3], clock: bool)
    ensures
        particle_model(position, lepton_bag(inertia, clock)).component.len() == 1,
        ({
            let bag = particle_model(position, lepton_bag(inertia, clock)).component[0].property;
            &&& first_value(bag, PropertyKind::Spin) == Some(spin_of(clock))
            &&& first_value(bag, PropertyKind::ElectricCharge) == Some(LEPTON_CHARGE)
            &&& first_value(bag, PropertyKind::Mass) == Some(LEPTON_MASS)
            &&& first_value(bag, PropertyKind::InertiaX) == Some(inertia[0])
            &&& first_value(bag, PropertyKind::InertiaY) == Some(inertia[1])
            &&& first_value(bag, PropertyKind::InertiaZ) == Some(inertia[2])
            &&& first_value(bag, PropertyKind::ColorCharge) == None::<i64>
        }),
        particle_model(position, lepton_bag(inertia, clock)).component[0].composition[0].space == seq![position],
{
    reveal_with_fuel(first_place, 8);
}

} // verus!

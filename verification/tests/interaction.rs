use anomaly_sim::entity::{
    component_property, e, q, Anomaly, Component, Force, Property, PropertyKind, Reach, LEPTON_MASS, UNIT,
};
use anomaly_sim::interaction::{
    anomaly_2_interact, component_2_interact, component_interact, force_apply, interact, rule_applies, ForceLaw,
    Standstill,
};
use std::cell::RefCell;

fn prop(name: PropertyKind, value: i64) -> Property {
    Property { name, value }
}

/// A part that is told apart by its mass and moves with the inertia given.
fn part(tag: i64, inertia: [i64; 3], below: Vec<Component>) -> Component {
    Component {
        component: below,
        composition: vec![],
        property: vec![
            prop(PropertyKind::Mass, tag),
            prop(PropertyKind::InertiaX, inertia[0]),
            prop(PropertyKind::InertiaY, inertia[1]),
            prop(PropertyKind::InertiaZ, inertia[2]),
        ],
    }
}

fn template(properties: Vec<Property>) -> Component {
    Component { component: vec![], composition: vec![], property: properties }
}

fn rule_for_all() -> Force {
    Force { force: vec![], range: vec![], domain: vec![] }
}

fn rule_with(domain: Vec<Component>) -> Force {
    Force { force: vec![], range: vec![Reach::Unbounded], domain }
}

fn inertia(part: &Component) -> [i64; 3] {
    [
        component_property(part, PropertyKind::InertiaX).unwrap(),
        component_property(part, PropertyKind::InertiaY).unwrap(),
        component_property(part, PropertyKind::InertiaZ).unwrap(),
    ]
}

fn tag(part: &Component) -> i64 {
    component_property(part, PropertyKind::Mass).unwrap()
}

/// Two parts that meet leave with each other's inertia.
struct Exchange;

impl ForceLaw for Exchange {
    fn apply(&self, _rule: &Force, a: &Component, b: &Component) -> ([i64; 3], [i64; 3]) {
        (inertia(b), inertia(a))
    }
}

/// Keeps the inertia and writes down who met whom.
struct Witness {
    seen: RefCell<Vec<(i64, i64)>>,
}

impl Witness {
    fn new() -> Witness {
        Witness { seen: RefCell::new(Vec::new()) }
    }
}

impl ForceLaw for Witness {
    fn apply(&self, _rule: &Force, a: &Component, b: &Component) -> ([i64; 3], [i64; 3]) {
        self.seen.borrow_mut().push((tag(a), tag(b)));
        (inertia(a), inertia(b))
    }
}

/// The first part takes up the inertia of the second, which comes to rest.
struct Absorb;

impl ForceLaw for Absorb {
    fn apply(&self, _rule: &Force, a: &Component, b: &Component) -> ([i64; 3], [i64; 3]) {
        let x = inertia(a);
        let y = inertia(b);
        ([x[0] + y[0], x[1] + y[1], x[2] + y[2]], [0, 0, 0])
    }
}

#[test]
fn a_rule_without_templates_applies_to_every_part() {
    assert!(rule_applies(&rule_for_all(), &template(vec![])));
    assert!(rule_applies(&rule_for_all(), &part(1, [0, 0, 0], vec![])));
}

#[test]
fn a_rule_applies_where_the_template_value_is_carried() {
    let rule = rule_with(vec![template(vec![prop(PropertyKind::ColorCharge, UNIT)])]);
    let red = q([0, 0, 0], [0, 0, 0], true, true, 1, 0);
    let green = q([0, 0, 0], [0, 0, 0], true, true, 2, 0);
    let lepton = e([0, 0, 0], [0, 0, 0], true);
    assert!(rule_applies(&rule, &red.component[0]));
    assert!(!rule_applies(&rule, &green.component[0]));
    assert!(!rule_applies(&rule, &lepton.component[0]));
}

#[test]
fn a_rule_asks_for_every_property_of_every_template() {
    let rule = rule_with(vec![
        template(vec![prop(PropertyKind::Mass, 5), prop(PropertyKind::Spin, 1)]),
        template(vec![prop(PropertyKind::ColorCharge, 2)]),
    ]);
    let all = template(vec![
        prop(PropertyKind::Spin, 1),
        prop(PropertyKind::ColorCharge, 2),
        prop(PropertyKind::Mass, 5),
    ]);
    let no_color = template(vec![prop(PropertyKind::Spin, 1), prop(PropertyKind::Mass, 5)]);
    let wrong_spin = template(vec![
        prop(PropertyKind::Spin, 2),
        prop(PropertyKind::ColorCharge, 2),
        prop(PropertyKind::Mass, 5),
    ]);
    assert!(rule_applies(&rule, &all));
    assert!(!rule_applies(&rule, &no_color));
    assert!(!rule_applies(&rule, &wrong_spin));
}

#[test]
fn a_rule_reads_the_first_property_of_a_role() {
    let rule = rule_with(vec![template(vec![prop(PropertyKind::Mass, 5)])]);
    let first = template(vec![prop(PropertyKind::Mass, 5), prop(PropertyKind::Mass, 6)]);
    let second = template(vec![prop(PropertyKind::Mass, 6), prop(PropertyKind::Mass, 5)]);
    assert!(rule_applies(&rule, &first));
    assert!(!rule_applies(&rule, &second));
}

#[test]
fn force_apply_sets_both_inertias() {
    let mut a = part(1, [1, 2, 3], vec![]);
    let mut b = part(2, [4, 5, 6], vec![]);
    force_apply(&Exchange, &rule_for_all(), &mut a, &mut b);
    assert_eq!(a, part(1, [4, 5, 6], vec![]));
    assert_eq!(b, part(2, [1, 2, 3], vec![]));
}

#[test]
fn force_apply_under_standstill_brings_both_to_rest() {
    let mut a = part(1, [1, 2, 3], vec![]);
    let mut b = part(2, [4, 5, 6], vec![]);
    force_apply(&Standstill, &rule_for_all(), &mut a, &mut b);
    assert_eq!(a, part(1, [0, 0, 0], vec![]));
    assert_eq!(b, part(2, [0, 0, 0], vec![]));
}

#[test]
fn force_apply_needs_both_parts_in_the_domain() {
    let rule = rule_with(vec![template(vec![prop(PropertyKind::Mass, 1)])]);
    let mut a = part(1, [1, 2, 3], vec![]);
    let mut b = part(2, [4, 5, 6], vec![]);
    force_apply(&Standstill, &rule, &mut a, &mut b);
    assert_eq!(a, part(1, [1, 2, 3], vec![]));
    assert_eq!(b, part(2, [4, 5, 6], vec![]));
    let mut c = part(1, [7, 8, 9], vec![]);
    force_apply(&Standstill, &rule, &mut a, &mut c);
    assert_eq!(a, part(1, [0, 0, 0], vec![]));
    assert_eq!(c, part(1, [0, 0, 0], vec![]));
}

#[test]
fn force_apply_is_not_asked_outside_the_domain() {
    let rule = rule_with(vec![template(vec![prop(PropertyKind::Mass, 1)])]);
    let law = Witness::new();
    let mut a = part(1, [1, 2, 3], vec![]);
    let mut b = part(2, [4, 5, 6], vec![]);
    force_apply(&law, &rule, &mut a, &mut b);
    assert!(law.seen.borrow().is_empty());
}

#[test]
fn sub_parts_meet_before_their_parents() {
    let mut a = part(1, [0, 0, 0], vec![part(10, [0, 0, 0], vec![]), part(11, [0, 0, 0], vec![])]);
    let mut b = part(2, [0, 0, 0], vec![part(20, [0, 0, 0], vec![]), part(21, [0, 0, 0], vec![])]);
    let law = Witness::new();
    component_2_interact(&law, &rule_for_all(), &mut a, &mut b);
    assert_eq!(*law.seen.borrow(), vec![(10, 20), (10, 21), (11, 20), (11, 21), (1, 2)]);
}

#[test]
fn sub_parts_meet_down_to_the_leaves() {
    let mut a = part(1, [0, 0, 0], vec![part(10, [0, 0, 0], vec![part(100, [0, 0, 0], vec![])])]);
    let mut b = part(2, [0, 0, 0], vec![part(20, [0, 0, 0], vec![part(200, [0, 0, 0], vec![])])]);
    let law = Witness::new();
    component_2_interact(&law, &rule_for_all(), &mut a, &mut b);
    assert_eq!(*law.seen.borrow(), vec![(100, 200), (10, 20), (1, 2)]);
}

#[test]
fn what_a_meeting_leaves_is_seen_by_the_next() {
    let mut a = part(1, [1, 1, 1], vec![]);
    let mut b = part(2, [0, 0, 0], vec![]);
    let mut c = part(3, [10, 20, 30], vec![]);
    component_2_interact(&Absorb, &rule_for_all(), &mut b, &mut c);
    component_2_interact(&Absorb, &rule_for_all(), &mut a, &mut b);
    assert_eq!(inertia(&a), [11, 21, 31]);
    assert_eq!(inertia(&b), [0, 0, 0]);
    assert_eq!(inertia(&c), [0, 0, 0]);
}

fn body(parts: Vec<Component>, below: Vec<Anomaly>, rules: Vec<Force>) -> Anomaly {
    Anomaly { anomaly: below, component: parts, force: rules }
}

#[test]
fn sibling_parts_meet_in_the_order_of_the_schedule() {
    let parts = vec![
        part(0, [0, 0, 0], vec![]),
        part(1, [0, 0, 0], vec![]),
        part(2, [0, 0, 0], vec![]),
        part(3, [0, 0, 0], vec![]),
    ];
    let mut whole = body(parts, vec![], vec![rule_for_all()]);
    let law = Witness::new();
    component_interact(&law, &mut whole);
    assert_eq!(*law.seen.borrow(), vec![(0, 1), (2, 3), (1, 2), (3, 0), (0, 2), (1, 3)]);
}

#[test]
fn sibling_parts_meet_once_under_every_rule() {
    for n in 0..8usize {
        for rules in 0..3usize {
            let parts = (0..n).map(|i| part(i as i64, [0, 0, 0], vec![])).collect();
            let mut whole = body(parts, vec![], (0..rules).map(|_| rule_for_all()).collect());
            let law = Witness::new();
            component_interact(&law, &mut whole);
            let mut seen: Vec<(i64, i64)> = law
                .seen
                .borrow()
                .iter()
                .map(|&(a, b)| if a < b { (a, b) } else { (b, a) })
                .collect();
            seen.sort();
            let mut expected = Vec::new();
            for i in 0..n as i64 {
                for j in (i + 1)..n as i64 {
                    for _ in 0..rules {
                        expected.push((i, j));
                    }
                }
            }
            assert_eq!(seen, expected);
        }
    }
}

#[test]
fn sibling_parts_rules_come_one_after_the_other() {
    let strong = rule_with(vec![template(vec![prop(PropertyKind::Spin, 1)])]);
    let parts = vec![part(0, [1, 0, 0], vec![]), part(1, [2, 0, 0], vec![]), part(2, [4, 0, 0], vec![])];
    let mut whole = body(parts, vec![], vec![strong, rule_for_all()]);
    component_interact(&Absorb, &mut whole);
    // The first rule fits no part. Under the second the pairs are
    // (0, 1), (1, 2), (2, 0): 0 takes 2 from 1, then 1 takes 4 from 2,
    // then 2 takes 3 from 0.
    assert_eq!(inertia(&whole.component[0]), [0, 0, 0]);
    assert_eq!(inertia(&whole.component[1]), [4, 0, 0]);
    assert_eq!(inertia(&whole.component[2]), [3, 0, 0]);
}

#[test]
fn bodies_that_meet_cross_their_sub_bodies_then_their_parts() {
    let a_inner = body(vec![part(10, [0, 0, 0], vec![])], vec![], vec![rule_for_all()]);
    let b_inner = body(vec![part(20, [0, 0, 0], vec![]), part(21, [0, 0, 0], vec![])], vec![], vec![]);
    let mut a = body(
        vec![part(1, [0, 0, 0], vec![]), part(2, [0, 0, 0], vec![])],
        vec![a_inner],
        vec![rule_for_all(), rule_for_all()],
    );
    let mut b = body(vec![part(3, [0, 0, 0], vec![])], vec![b_inner], vec![]);
    let law = Witness::new();
    anomaly_2_interact(&law, &mut a, &mut b);
    assert_eq!(*law.seen.borrow(), vec![(10, 20), (10, 21), (1, 3), (2, 3), (1, 3), (2, 3)]);
}

#[test]
fn bodies_that_meet_go_by_the_rules_of_the_first() {
    let mut a = body(vec![part(1, [1, 1, 1], vec![])], vec![], vec![]);
    let mut b = body(vec![part(2, [2, 2, 2], vec![])], vec![], vec![rule_for_all()]);
    anomaly_2_interact(&Standstill, &mut a, &mut b);
    assert_eq!(inertia(&a.component[0]), [1, 1, 1]);
    assert_eq!(inertia(&b.component[0]), [2, 2, 2]);
    anomaly_2_interact(&Standstill, &mut b, &mut a);
    assert_eq!(inertia(&a.component[0]), [0, 0, 0]);
    assert_eq!(inertia(&b.component[0]), [0, 0, 0]);
}

#[test]
fn two_leptons_come_to_rest_under_standstill() {
    let mut root = body(vec![], vec![e([1, 2, 3], [4, 5, 6], true), e([7, 8, 9], [1, 1, 1], false)], vec![]);
    interact(&Standstill, &mut root);
    let expected = body(vec![], vec![e([1, 2, 3], [0, 0, 0], true), e([7, 8, 9], [0, 0, 0], false)], vec![]);
    assert_eq!(root, expected);
}

#[test]
fn two_leptons_exchange_their_inertia_once() {
    let mut root = body(vec![], vec![e([1, 2, 3], [4, 5, 6], true), e([7, 8, 9], [1, 1, 1], false)], vec![]);
    interact(&Exchange, &mut root);
    let expected = body(vec![], vec![e([1, 2, 3], [1, 1, 1], true), e([7, 8, 9], [4, 5, 6], false)], vec![]);
    assert_eq!(root, expected);
}

#[test]
fn a_lone_lepton_is_left_alone() {
    let mut lepton = e([1, 2, 3], [4, 5, 6], true);
    interact(&Standstill, &mut lepton);
    assert_eq!(lepton, e([1, 2, 3], [4, 5, 6], true));
}

#[test]
fn five_leptons_meet_in_ten_pairs() {
    let leptons = (0..5).map(|i| e([i, 0, 0], [1, 1, 1], true)).collect();
    let mut root = body(vec![], leptons, vec![]);
    let law = Witness::new();
    interact(&law, &mut root);
    assert_eq!(law.seen.borrow().len(), 10);
    assert!(law.seen.borrow().iter().all(|&pair| pair == (LEPTON_MASS, LEPTON_MASS)));
}

#[test]
fn interaction_goes_from_the_leaves_to_the_root() {
    let inner_a = body(vec![part(100, [0, 0, 0], vec![]), part(101, [0, 0, 0], vec![])], vec![], vec![rule_for_all()]);
    let inner_b = body(vec![part(200, [0, 0, 0], vec![])], vec![], vec![rule_for_all()]);
    let child_a = body(vec![part(10, [0, 0, 0], vec![])], vec![inner_a], vec![rule_for_all()]);
    let child_b = body(vec![part(20, [0, 0, 0], vec![])], vec![inner_b], vec![rule_for_all()]);
    let mut root = body(
        vec![part(1, [0, 0, 0], vec![]), part(2, [0, 0, 0], vec![])],
        vec![child_a, child_b],
        vec![rule_for_all()],
    );
    let law = Witness::new();
    interact(&law, &mut root);
    assert_eq!(
        *law.seen.borrow(),
        vec![
            // the first child by itself: its sub-body, then its own parts
            (100, 101),
            // the two children meet: sub-bodies cross, then their parts
            (100, 200),
            (101, 200),
            (10, 20),
            // the parts of the root
            (1, 2),
        ]
    );
}

#[test]
fn interaction_leaves_points_and_other_properties_alone() {
    let mut root = body(
        vec![],
        vec![
            q([1, 2, 3], [4, 5, 6], true, true, 1, 0),
            q([7, 8, 9], [1, 1, 1], false, false, 1, 3),
            e([5, 5, 5], [2, 2, 2], true),
        ],
        vec![],
    );
    interact(&Standstill, &mut root);
    let expected = body(
        vec![],
        vec![
            q([1, 2, 3], [0, 0, 0], true, true, 1, 0),
            q([7, 8, 9], [0, 0, 0], false, false, 1, 3),
            e([5, 5, 5], [0, 0, 0], true),
        ],
        vec![],
    );
    assert_eq!(root, expected);
}

#[test]
fn the_pairs_of_a_round_do_not_depend_on_one_another() {
    let start = [[1, 0, 0], [2, 0, 0], [4, 0, 0], [8, 0, 0], [16, 0, 0], [32, 0, 0]];
    let parts = (0..6).map(|i| part(i as i64, start[i], vec![])).collect();
    let mut whole = body(parts, vec![], vec![rule_for_all()]);
    component_interact(&Absorb, &mut whole);

    // the same rounds, with every pair of a round worked off in reverse
    // order and on its own
    let mut alone: Vec<Component> = (0..6).map(|i| part(i as i64, start[i], vec![])).collect();
    for round in anomaly_sim::schedule::pairing_schedule(6) {
        let before: Vec<[i64; 3]> = alone.iter().map(inertia).collect();
        for &(i, j) in round.iter().rev() {
            let mut a = part(i as i64, before[i], vec![]);
            let mut b = part(j as i64, before[j], vec![]);
            component_2_interact(&Absorb, &rule_for_all(), &mut a, &mut b);
            alone[i] = a;
            alone[j] = b;
        }
    }
    assert_eq!(whole.component, alone);
}

use anomaly_sim::entity::{e, Anomaly, Component, Composition, Distribution, Force, Property, PropertyKind};
use anomaly_sim::error::EngineError;
use anomaly_sim::integrator::{component_progress, holds_inertia, progress, ELEMENTARY_TIME_UNIT};
use anomaly_sim::interaction::{ForceLaw, Standstill};
use std::cell::Cell;

fn prop(name: PropertyKind, value: i64) -> Property {
    Property { name, value }
}

fn moving(points: Vec<[i64; 3]>, inertia: [i64; 3], below: Vec<Component>) -> Component {
    Component {
        component: below,
        composition: vec![Composition { space: points, distribution: vec![Distribution::Identity] }],
        property: vec![
            prop(PropertyKind::InertiaX, inertia[0]),
            prop(PropertyKind::InertiaY, inertia[1]),
            prop(PropertyKind::InertiaZ, inertia[2]),
        ],
    }
}

fn rule_for_all() -> Force {
    Force { force: vec![], range: vec![], domain: vec![] }
}

/// Counts how often it is asked and brings both parts to rest.
struct Counting {
    asked: Cell<u32>,
}

impl ForceLaw for Counting {
    fn apply(&self, _rule: &Force, _a: &Component, _b: &Component) -> ([i64; 3], [i64; 3]) {
        self.asked.set(self.asked.get() + 1);
        ([0, 0, 0], [0, 0, 0])
    }
}

#[test]
fn the_elementary_time_unit() {
    assert_eq!(ELEMENTARY_TIME_UNIT, 5_391_247);
}

#[test]
fn two_leptons_at_rest_stay_where_they_are() {
    let mut root = Anomaly {
        anomaly: vec![e([1, 2, 3], [0, 0, 0], true), e([7, 8, 9], [0, 0, 0], false)],
        component: vec![],
        force: vec![],
    };
    let law = Counting { asked: Cell::new(0) };
    assert_eq!(progress(&law, &mut root, 10 * ELEMENTARY_TIME_UNIT), Ok(()));
    assert_eq!(root.anomaly[0], e([1, 2, 3], [0, 0, 0], true));
    assert_eq!(root.anomaly[1], e([7, 8, 9], [0, 0, 0], false));
    assert!(law.asked.get() >= 1);
}

#[test]
fn a_lepton_at_rest_stays_where_it_is() {
    for time in [0, 1, ELEMENTARY_TIME_UNIT, 10 * ELEMENTARY_TIME_UNIT, 1000 * ELEMENTARY_TIME_UNIT + 3] {
        let mut lepton = e([1, 2, 3], [0, 0, 0], true);
        assert_eq!(progress(&Standstill, &mut lepton, time), Ok(()));
        assert_eq!(lepton, e([1, 2, 3], [0, 0, 0], true));
    }
}

#[test]
fn no_time_no_step_but_one_pass_of_interaction() {
    let mut root = Anomaly {
        anomaly: vec![],
        component: vec![moving(vec![[1, 2, 3]], [4, 5, 6], vec![]), moving(vec![[7, 8, 9]], [1, 1, 1], vec![])],
        force: vec![rule_for_all()],
    };
    let law = Counting { asked: Cell::new(0) };
    assert_eq!(progress(&law, &mut root, 0), Ok(()));
    assert_eq!(law.asked.get(), 1);
    assert_eq!(root.component[0], moving(vec![[1, 2, 3]], [0, 0, 0], vec![]));
    assert_eq!(root.component[1], moving(vec![[7, 8, 9]], [0, 0, 0], vec![]));
}

#[test]
fn less_than_an_elementary_time_unit_is_no_step() {
    let mut lepton = e([1, 2, 3], [4, 5, 6], true);
    assert_eq!(progress(&Standstill, &mut lepton, ELEMENTARY_TIME_UNIT - 1), Ok(()));
    assert_eq!(lepton, e([1, 2, 3], [4, 5, 6], true));
}

#[test]
fn an_elementary_time_unit_is_one_step() {
    let mut lepton = e([1, 2, 3], [4, 5, 6], true);
    assert_eq!(progress(&Standstill, &mut lepton, ELEMENTARY_TIME_UNIT), Ok(()));
    assert_eq!(lepton, e([1 + 4 * 5_391_247, 2 + 5 * 5_391_247, 3 + 6 * 5_391_247], [4, 5, 6], true));
}

#[test]
fn steps_are_the_whole_elementary_time_units() {
    let mut lepton = e([10, 20, 30], [1, -2, 3], true);
    assert_eq!(progress(&Standstill, &mut lepton, 3 * ELEMENTARY_TIME_UNIT + 17), Ok(()));
    assert_eq!(lepton, e([16_173_751, -32_347_462, 48_521_253], [1, -2, 3], true));
}

#[test]
fn interaction_comes_before_motion() {
    let mut root = Anomaly {
        anomaly: vec![],
        component: vec![moving(vec![[1, 2, 3]], [4, 5, 6], vec![]), moving(vec![[7, 8, 9]], [1, 1, 1], vec![])],
        force: vec![rule_for_all()],
    };
    assert_eq!(progress(&Standstill, &mut root, 5 * ELEMENTARY_TIME_UNIT), Ok(()));
    assert_eq!(root.component[0], moving(vec![[1, 2, 3]], [0, 0, 0], vec![]));
    assert_eq!(root.component[1], moving(vec![[7, 8, 9]], [0, 0, 0], vec![]));
}

#[test]
fn a_tick_moves_the_parts_of_the_body_itself() {
    let mut root = Anomaly {
        anomaly: vec![e([1, 2, 3], [1, 1, 1], true)],
        component: vec![moving(vec![[0, 0, 0]], [1, 2, 3], vec![])],
        force: vec![],
    };
    assert_eq!(progress(&Standstill, &mut root, 2 * ELEMENTARY_TIME_UNIT), Ok(()));
    assert_eq!(root.component[0], moving(vec![[10_782_494, 21_564_988, 32_347_482]], [1, 2, 3], vec![]));
    assert_eq!(root.anomaly[0], e([1, 2, 3], [1, 1, 1], true));
}

#[test]
fn a_coordinate_stays_at_the_end_of_its_range() {
    let mut part = moving(vec![[i64::MAX - 5, i64::MIN + 5, 0]], [1, -1, i64::MAX], vec![]);
    assert_eq!(component_progress(&mut part, ELEMENTARY_TIME_UNIT), Ok(()));
    assert_eq!(part, moving(vec![[i64::MAX, i64::MIN, i64::MAX]], [1, -1, i64::MAX], vec![]));
    let mut far = moving(vec![[i64::MIN, i64::MAX, -1]], [i64::MAX, i64::MIN, i64::MIN], vec![]);
    assert_eq!(component_progress(&mut far, u64::MAX), Ok(()));
    assert_eq!(far, moving(vec![[i64::MAX, i64::MIN, i64::MIN]], [i64::MAX, i64::MIN, i64::MIN], vec![]));
}

#[test]
fn a_part_moves_with_all_its_points_and_sub_parts() {
    let below = moving(vec![[1, 1, 1], [2, 2, 2]], [0, 0, 1], vec![moving(vec![[5, 5, 5]], [-1, 0, 0], vec![])]);
    let mut part = Component {
        component: vec![below],
        composition: vec![
            Composition { space: vec![[0, 0, 0], [10, 10, 10]], distribution: vec![] },
            Composition { space: vec![[7, 7, 7]], distribution: vec![Distribution::Identity] },
        ],
        property: vec![
            prop(PropertyKind::Mass, 9),
            prop(PropertyKind::InertiaZ, 3),
            prop(PropertyKind::InertiaY, 2),
            prop(PropertyKind::InertiaX, 1),
        ],
    };
    assert_eq!(component_progress(&mut part, 10), Ok(()));
    let below = moving(vec![[1, 1, 11], [2, 2, 12]], [0, 0, 1], vec![moving(vec![[-5, 5, 5]], [-1, 0, 0], vec![])]);
    let expected = Component {
        component: vec![below],
        composition: vec![
            Composition { space: vec![[10, 20, 30], [20, 30, 40]], distribution: vec![] },
            Composition { space: vec![[17, 27, 37]], distribution: vec![Distribution::Identity] },
        ],
        property: vec![
            prop(PropertyKind::Mass, 9),
            prop(PropertyKind::InertiaZ, 3),
            prop(PropertyKind::InertiaY, 2),
            prop(PropertyKind::InertiaX, 1),
        ],
    };
    assert_eq!(part, expected);
}

#[test]
fn no_time_moves_nothing() {
    let mut part = moving(vec![[1, 2, 3]], [4, 5, 6], vec![]);
    assert_eq!(component_progress(&mut part, 0), Ok(()));
    assert_eq!(part, moving(vec![[1, 2, 3]], [4, 5, 6], vec![]));
}

#[test]
fn a_part_without_inertia_is_reported_and_nothing_moves() {
    let broken = Component {
        component: vec![],
        composition: vec![Composition { space: vec![[1, 1, 1]], distribution: vec![] }],
        property: vec![prop(PropertyKind::InertiaX, 1), prop(PropertyKind::InertiaY, 1)],
    };
    let mut part = moving(vec![[1, 2, 3]], [4, 5, 6], vec![moving(vec![[0, 0, 0]], [1, 1, 1], vec![]), broken]);
    assert_eq!(component_progress(&mut part, ELEMENTARY_TIME_UNIT), Err(EngineError::AttributeNotFound));
    let broken = Component {
        component: vec![],
        composition: vec![Composition { space: vec![[1, 1, 1]], distribution: vec![] }],
        property: vec![prop(PropertyKind::InertiaX, 1), prop(PropertyKind::InertiaY, 1)],
    };
    assert_eq!(part, moving(vec![[1, 2, 3]], [4, 5, 6], vec![moving(vec![[0, 0, 0]], [1, 1, 1], vec![]), broken]));
}

fn half_broken() -> Anomaly {
    Anomaly {
        anomaly: vec![],
        component: vec![
            moving(vec![[1, 2, 3]], [4, 5, 6], vec![]),
            Component {
                component: vec![],
                composition: vec![],
                property: vec![prop(PropertyKind::InertiaX, 7), prop(PropertyKind::InertiaZ, 9)],
            },
        ],
        force: vec![rule_for_all()],
    }
}

#[test]
fn a_failed_tick_leaves_the_body_as_it_was() {
    let mut body = half_broken();
    let law = Counting { asked: Cell::new(0) };
    assert_eq!(progress(&law, &mut body, ELEMENTARY_TIME_UNIT), Err(EngineError::AttributeNotFound));
    assert_eq!(body, half_broken());
    assert_eq!(law.asked.get(), 0);
}

#[test]
fn a_tick_without_steps_asks_for_no_inertia() {
    let mut body = half_broken();
    assert_eq!(progress(&Standstill, &mut body, ELEMENTARY_TIME_UNIT - 1), Ok(()));
    assert_eq!(body.component[0], moving(vec![[1, 2, 3]], [0, 0, 0], vec![]));
    assert_eq!(body.component[1].property, vec![prop(PropertyKind::InertiaX, 0), prop(PropertyKind::InertiaZ, 0)]);
}

#[test]
fn a_part_holds_inertia_with_all_its_sub_parts() {
    let whole = moving(vec![], [1, 2, 3], vec![moving(vec![], [0, 0, 0], vec![moving(vec![], [4, 5, 6], vec![])])]);
    assert!(holds_inertia(&whole));
    assert!(holds_inertia(&e([0, 0, 0], [0, 0, 0], true).component[0]));
    let lacking = Component { component: vec![], composition: vec![], property: vec![prop(PropertyKind::InertiaX, 1)] };
    assert!(!holds_inertia(&lacking));
    let deep = moving(vec![], [1, 2, 3], vec![moving(vec![], [0, 0, 0], vec![lacking])]);
    assert!(!holds_inertia(&deep));
}

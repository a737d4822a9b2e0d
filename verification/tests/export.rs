use anomaly_sim::entity::{e, q, Anomaly, Component, Composition, Distribution, Property, PropertyKind, LEPTON_MASS};
use anomaly_sim::error::EngineError;
use anomaly_sim::export::{anchors, component_anchors, component_view, view, Anchor};
use anomaly_sim::mesh::{move_positions, petrify_flow, Magma, Normal, Position, Stone};

fn prop(name: PropertyKind, value: i64) -> Property {
    Property { name, value }
}

fn massive(mass: i64, points: Vec<[i64; 3]>, below: Vec<Component>) -> Component {
    Component {
        component: below,
        composition: vec![Composition { space: points, distribution: vec![Distribution::Identity] }],
        property: vec![prop(PropertyKind::Mass, mass)],
    }
}

/// A triangle in the plane of x and y with legs of the given size.
fn triangle(size: i64) -> Stone {
    Stone {
        positions: vec![
            Position { position: [0, 0, 0] },
            Position { position: [size, 0, 0] },
            Position { position: [0, size, 0] },
        ],
        normals: vec![Normal { normal: [0, 0, 1] }, Normal { normal: [0, 0, 1] }, Normal { normal: [0, 0, 1] }],
        indices: vec![0, 1, 2],
    }
}

fn triangle_at(size: i64, at: [i64; 3]) -> Stone {
    Stone {
        positions: vec![
            Position { position: at },
            Position { position: [at[0] + size, at[1], at[2]] },
            Position { position: [at[0], at[1] + size, at[2]] },
        ],
        normals: vec![Normal { normal: [0, 0, 1] }, Normal { normal: [0, 0, 1] }, Normal { normal: [0, 0, 1] }],
        indices: vec![0, 1, 2],
    }
}

#[test]
fn the_identity_derives_the_points_themselves() {
    let points = vec![[1, 2, 3], [4, 5, 6]];
    assert_eq!(Distribution::Identity.apply(&points), points);
    assert_eq!(Distribution::Identity.apply(&Vec::new()), Vec::<[i64; 3]>::new());
}

#[test]
fn a_lepton_has_one_anchor() {
    let lepton = e([1, 2, 3], [0, 0, 0], true);
    assert_eq!(anchors(&lepton), Ok(vec![Anchor { at: [1, 2, 3], size: LEPTON_MASS }]));
    assert_eq!(component_anchors(&lepton.component[0]), Ok(vec![Anchor { at: [1, 2, 3], size: LEPTON_MASS }]));
}

#[test]
fn an_empty_body_has_no_anchor() {
    let empty = Anomaly { anomaly: vec![], component: vec![], force: vec![] };
    assert_eq!(anchors(&empty), Ok(vec![]));
}

#[test]
fn every_distribution_gives_an_anchor_for_every_point() {
    let part = Component {
        component: vec![],
        composition: vec![
            Composition {
                space: vec![[1, 1, 1], [2, 2, 2]],
                distribution: vec![Distribution::Identity, Distribution::Identity],
            },
            Composition { space: vec![[3, 3, 3]], distribution: vec![] },
            Composition { space: vec![[4, 4, 4]], distribution: vec![Distribution::Identity] },
        ],
        property: vec![prop(PropertyKind::Spin, 1), prop(PropertyKind::Mass, 7), prop(PropertyKind::Mass, 8)],
    };
    assert_eq!(
        component_anchors(&part),
        Ok(vec![
            Anchor { at: [1, 1, 1], size: 7 },
            Anchor { at: [2, 2, 2], size: 7 },
            Anchor { at: [1, 1, 1], size: 7 },
            Anchor { at: [2, 2, 2], size: 7 },
            Anchor { at: [4, 4, 4], size: 7 },
        ])
    );
}

#[test]
fn sub_parts_come_before_their_parent_and_parts_before_sub_bodies() {
    let part = massive(1, vec![[1, 0, 0]], vec![massive(2, vec![[2, 0, 0]], vec![]), massive(3, vec![[3, 0, 0]], vec![])]);
    let other = massive(4, vec![[4, 0, 0]], vec![]);
    let inner = Anomaly { anomaly: vec![], component: vec![massive(5, vec![[5, 0, 0]], vec![])], force: vec![] };
    let last = Anomaly { anomaly: vec![], component: vec![massive(6, vec![[6, 0, 0]], vec![])], force: vec![] };
    let body = Anomaly { anomaly: vec![inner, last], component: vec![part, other], force: vec![] };
    assert_eq!(
        anchors(&body),
        Ok(vec![
            Anchor { at: [2, 0, 0], size: 2 },
            Anchor { at: [3, 0, 0], size: 3 },
            Anchor { at: [1, 0, 0], size: 1 },
            Anchor { at: [4, 0, 0], size: 4 },
            Anchor { at: [5, 0, 0], size: 5 },
            Anchor { at: [6, 0, 0], size: 6 },
        ])
    );
}

#[test]
fn a_part_without_mass_cannot_be_shown() {
    let massless = Component {
        component: vec![],
        composition: vec![],
        property: vec![prop(PropertyKind::Spin, 1)],
    };
    assert_eq!(component_anchors(&massless), Err(EngineError::AttributeNotFound));
    let parent = massive(1, vec![[1, 0, 0]], vec![massless]);
    assert_eq!(component_anchors(&parent), Err(EngineError::AttributeNotFound));
    let massless = Component {
        component: vec![],
        composition: vec![],
        property: vec![prop(PropertyKind::Spin, 1)],
    };
    let inner = Anomaly { anomaly: vec![], component: vec![massless], force: vec![] };
    let body = Anomaly { anomaly: vec![e([0, 0, 0], [0, 0, 0], true), inner], component: vec![], force: vec![] };
    assert_eq!(anchors(&body), Err(EngineError::AttributeNotFound));
    assert_eq!(view(&body, triangle), Err(EngineError::AttributeNotFound));
    assert_eq!(component_view(&body.anomaly[1].component[0], triangle), Err(EngineError::AttributeNotFound));
}

#[test]
fn every_anchor_gets_its_mesh() {
    let body = Anomaly {
        anomaly: vec![e([10, 20, 30], [0, 0, 0], true), q([-1, -2, -3], [0, 0, 0], true, true, 0, 0)],
        component: vec![massive(5, vec![[1, 1, 1], [2, 2, 2]], vec![])],
        force: vec![],
    };
    assert_eq!(
        view(&body, triangle),
        Ok(vec![
            triangle_at(5, [1, 1, 1]),
            triangle_at(5, [2, 2, 2]),
            triangle_at(LEPTON_MASS, [10, 20, 30]),
            triangle_at(22_000_000_000_000, [-1, -2, -3]),
        ])
    );
}

#[test]
fn a_part_is_shown_with_its_sub_parts() {
    let part = massive(1, vec![[1, 0, 0]], vec![massive(2, vec![[2, 0, 0]], vec![])]);
    assert_eq!(component_view(&part, triangle), Ok(vec![triangle_at(2, [2, 0, 0]), triangle_at(1, [1, 0, 0])]));
}

#[test]
fn the_generator_is_asked_once_for_every_anchor() {
    let asked = std::cell::RefCell::new(Vec::new());
    let body = Anomaly {
        anomaly: vec![],
        component: vec![massive(5, vec![[1, 1, 1], [2, 2, 2]], vec![]), massive(6, vec![[3, 3, 3]], vec![])],
        force: vec![],
    };
    let stones = view(&body, |size| {
        asked.borrow_mut().push(size);
        petrify_flow(Magma { positions: vec![], normals: vec![], indices: vec![] })
    });
    assert_eq!(stones.map(|all| all.len()), Ok(3));
    assert_eq!(*asked.borrow(), vec![5, 5, 6]);
}

#[test]
fn moved_points_stay_in_range() {
    let mut points = vec![
        Position { position: [1, 2, 3] },
        Position { position: [i64::MAX, i64::MIN, 0] },
        Position { position: [i64::MAX - 1, i64::MIN + 1, -7] },
    ];
    move_positions(&mut points, [1, -1, 7]);
    assert_eq!(
        points,
        vec![
            Position { position: [2, 1, 10] },
            Position { position: [i64::MAX, i64::MIN, 7] },
            Position { position: [i64::MAX, i64::MIN, 0] },
        ]
    );
}

#[test]
fn moving_no_points() {
    let mut points: Vec<Position> = vec![];
    move_positions(&mut points, [1, 2, 3]);
    assert!(points.is_empty());
}

#[test]
fn a_flow_petrifies_to_the_empty_mesh() {
    let flow = Magma {
        positions: vec![
            Position { position: [0, 0, 0] },
            Position { position: [1, 0, 0] },
            Position { position: [2, 0, 0] },
        ],
        normals: vec![],
        indices: vec![0, 1, 1, 2],
    };
    assert_eq!(petrify_flow(flow), Stone { positions: vec![], normals: vec![], indices: vec![] });
}

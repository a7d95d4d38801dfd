use qproj::player::arrow_direction;
use qproj::boolish::{BoolishState, BoolishStateTrait};
use qproj::chunk::{plan_spawn_around, ChunkPlan, Vec2i32};
use qproj::digits::push_decimal;
use qproj::grid::iter_xy;
use qproj::service::{ServiceHandle, ServiceState};
use qproj::terrain::{iter_radius_xy, iter_xy as iter_square};

#[test]
fn decimal_text() {
    let mut s = String::from("x");
    push_decimal(&mut s, 1234);
    assert_eq!(s, "x1234");
    let mut z = String::new();
    push_decimal(&mut z, 0);
    assert_eq!(z, "0");
    let mut m = String::new();
    push_decimal(&mut m, u64::MAX);
    assert_eq!(m, u64::MAX.to_string());
}

#[test]
fn boolish_states() {
    assert_eq!(BoolishState::from(true), BoolishState::Enabled);
    assert_eq!(BoolishState::from(false), BoolishState::Disabled);
    assert!(bool::from(BoolishState::Enabled));
    assert!(!BoolishState::Init.as_bool());
    assert_eq!(BoolishState::Init.toggle(), BoolishState::Enabled);
    assert_eq!(BoolishState::Enabled.toggle(), BoolishState::Disabled);
    assert_eq!(BoolishState::Disabled.toggle().toggle(), BoolishState::Disabled);
    assert_eq!(BoolishStateTrait::toggle(BoolishState::Enabled), BoolishState::Disabled);
    assert_eq!(BoolishState::default(), BoolishState::Init);
}

#[test]
fn grid_positions() {
    assert_eq!(iter_xy(2), vec![(0, 0), (1, 0), (0, 1), (1, 1)]);
    assert_eq!(iter_xy(0), vec![]);
    assert_eq!(iter_xy(-2), vec![(0, 0), (1, 0), (0, -1), (1, -1)]);
}

#[test]
fn square_and_disc_around_a_center() {
    assert_eq!(
        iter_square(3, (2, 3)),
        vec![(1, 2), (2, 2), (3, 2), (1, 3), (2, 3), (3, 3), (1, 4), (2, 4), (3, 4)]
    );
    assert_eq!(iter_square(1, (10, 20)), vec![(10, 20)]);
    assert_eq!(iter_square(2, (0, 0)), vec![(-1, -1), (0, -1), (-1, 0), (0, 0)]);
    assert_eq!(iter_square(4, (0, 0)).len(), 16);
    assert_eq!(iter_square(0, (0, 0)), vec![]);
    assert_eq!(iter_radius_xy(1, (0, 0)), vec![(0, 0)]);
    assert_eq!(
        iter_radius_xy(2, (0, 0)),
        vec![(-1, -1), (0, -1), (1, -1), (-1, 0), (0, 0), (1, 0), (-1, 1), (0, 1), (1, 1)]
    );
    assert_eq!(iter_radius_xy(1, (5, 5)), vec![(5, 5)]);
    assert_eq!(
        iter_radius_xy(2, (5, 0)),
        vec![(4, -1), (5, -1), (6, -1), (4, 0), (5, 0), (6, 0), (4, 1), (5, 1), (6, 1)]
    );
}

#[test]
fn chunk_positions_and_detail() {
    assert_eq!(Vec2i32::new(-3, 4).to_text(), "(-3, 4)");
    assert_eq!(Vec2i32::new(i32::MIN, 0).to_text(), "(-2147483648, 0)");
}

#[test]
fn service_display_names() {
    let h: ServiceHandle<(), (), ()> = ServiceHandle::const_default();
    assert_eq!(h.display_name("q_service::tests::TestServiceLabel"), Some("TestService".to_string()));
    assert_eq!(h.display_name("Label"), Some(String::new()));
    assert_eq!(h.display_name("abc"), None);
    assert_eq!(h.display_name("a::b::"), None);
    assert_eq!(h.display_name("a::é1234"), None);
    assert_eq!(h.display_name("ab::xé123"), Some("x".to_string()));
    assert_eq!(ServiceState::<()>::default(), ServiceState::Uninitialized);
}

#[test]
fn plan_chunks_around_a_position() {
    let p = |x, y| Vec2i32::new(x, y);
    let wanted = vec![p(0, 0), p(1, 0), p(0, 1), p(1, 1)];
    let existing = vec![p(0, 1), p(9, 9), p(0, 0)];
    assert_eq!(
        plan_spawn_around(wanted, &existing),
        ChunkPlan { keep: vec![0, 2], despawn: vec![1], spawn: vec![p(1, 1), p(1, 0)] }
    );
    assert_eq!(
        plan_spawn_around(vec![p(2, 2)], &vec![]),
        ChunkPlan { keep: vec![], despawn: vec![], spawn: vec![p(2, 2)] }
    );
}

#[test]
fn chunk_changes() {
    assert!(qproj::chunk::chunk_changed(None, Vec2i32::new(0, 0)));
    assert!(!qproj::chunk::chunk_changed(Some(Vec2i32::new(1, 2)), Vec2i32::new(1, 2)));
    assert!(qproj::chunk::chunk_changed(Some(Vec2i32::new(1, 2)), Vec2i32::new(2, 2)));
}

#[test]
fn arrow_keys_give_a_direction() {
    assert_eq!(arrow_direction(false, false, false, false), (0, 0));
    assert_eq!(arrow_direction(true, false, false, false), (0, -1));
    assert_eq!(arrow_direction(false, true, false, true), (1, 1));
    assert_eq!(arrow_direction(true, true, true, true), (0, 0));
    assert_eq!(arrow_direction(false, false, true, false), (-1, 0));
}

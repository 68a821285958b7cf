use rts_core::components::{
    Entity, MeleeAbilityState, MeleeAbilityStateWillAttack, Team, Transform, UnitSize, Velocity,
};
use rts_core::geometry::{saturate, Position};
use rts_core::orders::{order_system, Mover, Orders};
use rts_core::physics::{integer_sqrt, mover_update, rotate_towards, steer, velocity_towards};
use rts_core::systems::{create_goblin_unit, create_ogre_unit};
use rts_core::world::{Attackable, Turn, World};

fn pt(x: i32, y: i32) -> Position {
    Position { x, y }
}

#[test]
fn integer_square_roots() {
    assert_eq!(integer_sqrt(0), 0);
    assert_eq!(integer_sqrt(1), 1);
    assert_eq!(integer_sqrt(3), 1);
    assert_eq!(integer_sqrt(4), 2);
    assert_eq!(integer_sqrt(15), 3);
    assert_eq!(integer_sqrt(16), 4);
    assert_eq!(integer_sqrt(1_000_000_000_000), 1_000_000);
    assert_eq!(integer_sqrt(999_999_999_999), 999_999);
    assert_eq!(integer_sqrt(0x2_0000_0000_0000_0000 * 1_000_000), 6_074_000_999_952);
}

#[test]
fn squared_distance_and_range() {
    assert_eq!(pt(0, 0).distance_squared(&pt(3, 4)), 25);
    assert_eq!(pt(-3, -4).distance_squared(&pt(0, 0)), 25);
    assert_eq!(pt(i32::MIN, i32::MIN).distance_squared(&pt(i32::MAX, i32::MAX)), 2 * (u32::MAX as u128) * (u32::MAX as u128));
    assert!(pt(0, 0).is_within(&pt(3, 4), 5));
    assert!(!pt(0, 0).is_within(&pt(3, 4), 4));
    assert!(pt(7, 7).is_within(&pt(7, 7), 0));
    assert!(pt(i32::MIN, 0).is_within(&pt(i32::MAX, 0), u64::MAX));
    assert!(!pt(i32::MIN, 0).is_within(&pt(i32::MAX, 0), u32::MAX as u64 - 1));
    assert!(pt(i32::MIN, 0).is_within(&pt(i32::MAX, 0), u32::MAX as u64));
    assert_eq!(saturate(5_000_000_000), i32::MAX);
    assert_eq!(saturate(-5_000_000_000), i32::MIN);
    assert_eq!(saturate(-17), -17);
}

#[test]
fn velocity_points_at_the_goal_with_the_unit_speed() {
    assert_eq!(velocity_towards(pt(0, 0), pt(300, 400), 80, 16), Velocity { x: 48_000, y: 64_000 });
    assert_eq!(velocity_towards(pt(0, 0), pt(-300, -400), 80, 16), Velocity { x: -48_000, y: -64_000 });
    assert_eq!(velocity_towards(pt(10, 10), pt(10, 110), 120, 16), Velocity { x: 0, y: 120_000 });
    assert_eq!(velocity_towards(pt(10, 10), pt(-90, 10), 30, 16), Velocity { x: -30_000, y: 0 });
    assert_eq!(velocity_towards(pt(5, 5), pt(5, 5), 80, 16), Velocity { x: 0, y: 0 });
}

#[test]
fn velocity_near_the_goal_is_capped() {
    // 3 units away at 600 units per second: less than a frame of travel (10 units).
    // min(600 * 16, 3000) / 60 = 50 thousandths per second
    assert_eq!(velocity_towards(pt(0, 0), pt(3, 0), 600, 16), Velocity { x: 50, y: 0 });
    // with a tick of 2 ms the travel is the smaller: 1200 / 60 = 20
    assert_eq!(velocity_towards(pt(0, 0), pt(0, -3), 600, 2), Velocity { x: 0, y: -20 });
    // exactly a frame of travel away: not capped
    assert_eq!(velocity_towards(pt(0, 0), pt(10, 0), 600, 16), Velocity { x: 600_000, y: 0 });
}

#[test]
fn turning_is_asked_for_beyond_five_degrees() {
    let facing = pt(1, 0);
    assert_eq!(rotate_towards(facing, pt(0, 0), pt(100, 0), 1000), None);
    assert_eq!(rotate_towards(facing, pt(0, 0), pt(100, 8), 1000), None);
    assert_eq!(rotate_towards(facing, pt(0, 0), pt(100, -8), 1000), None);
    assert_eq!(
        rotate_towards(facing, pt(0, 0), pt(100, 9), 1000),
        Some(Turn { toward_x: 100, toward_y: 9, max_millidegrees: 1000 })
    );
    assert_eq!(
        rotate_towards(facing, pt(10, 10), pt(-90, 10), 7),
        Some(Turn { toward_x: -100, toward_y: 0, max_millidegrees: 7 })
    );
    assert_eq!(
        rotate_towards(facing, pt(0, 0), pt(0, 5), 0),
        Some(Turn { toward_x: 0, toward_y: 5, max_millidegrees: 0 })
    );
    assert_eq!(rotate_towards(facing, pt(4, 4), pt(4, 4), 1000), None);
    assert_eq!(rotate_towards(pt(0, -3), pt(0, 0), pt(0, -50), 1000), None);
    assert_eq!(
        rotate_towards(pt(0, 0), pt(0, 0), pt(5, 0), 9),
        Some(Turn { toward_x: 5, toward_y: 0, max_millidegrees: 9 })
    );
    assert_eq!(
        rotate_towards(pt(i32::MIN, i32::MIN), pt(i32::MIN, i32::MIN), pt(i32::MAX, i32::MAX), 1),
        Some(Turn { toward_x: 4294967295, toward_y: 4294967295, max_millidegrees: 1 })
    );
}

#[test]
fn unit_on_its_way_moves_then_arrives_and_rests() {
    let mut unit = create_goblin_unit(Team { id: 0 }, pt(0, 0));
    unit.mover = Mover::new_to_target(pt(100, 0));
    steer(&mut unit, None, 16);
    assert_eq!(unit.velocity, Velocity { x: 120_000, y: 0 });
    assert_eq!(unit.turn, None);
    assert!(!unit.mover.is_target_reached);
    unit.transform.translation = pt(99, 1);
    steer(&mut unit, None, 16);
    assert!(unit.mover.is_target_reached);
    assert_eq!(unit.velocity, Velocity::zero());
    for dt in [0, 1, 16, 1000] {
        let before = unit.clone();
        steer(&mut unit, None, dt);
        assert_eq!(unit, before);
    }
}

#[test]
fn arrival_needs_less_than_two_units() {
    let mut unit = create_goblin_unit(Team { id: 0 }, pt(0, 0));
    unit.mover = Mover::new_to_target(pt(2, 0));
    steer(&mut unit, None, 16);
    assert!(!unit.mover.is_target_reached);
    let mut unit = create_goblin_unit(Team { id: 0 }, pt(0, 0));
    unit.mover = Mover::new_to_target(pt(1, 1));
    unit.velocity = Velocity { x: 7, y: 7 };
    steer(&mut unit, None, 16);
    assert!(unit.mover.is_target_reached);
    assert_eq!(unit.velocity, Velocity::zero());
}

#[test]
fn unit_turns_before_it_moves() {
    let mut unit = create_ogre_unit(Team { id: 0 }, pt(0, 0));
    unit.mover = Mover::new_to_target(pt(0, 100));
    unit.velocity = Velocity { x: 1, y: 1 };
    steer(&mut unit, None, 16);
    // ogre turns 90 degrees per second: 1440 thousandths of a degree in 16 ms
    assert_eq!(unit.turn, Some(Turn { toward_x: 0, toward_y: 100, max_millidegrees: 1440 }));
    assert_eq!(unit.velocity, Velocity::zero());
    unit.transform.facing = pt(0, 1);
    steer(&mut unit, None, 16);
    assert_eq!(unit.turn, None);
    assert_eq!(unit.velocity, Velocity { x: 0, y: 30_000 });
    unit.rotate_before_move = None;
    unit.transform.facing = pt(1, 0);
    steer(&mut unit, None, 16);
    assert_eq!(unit.turn, None);
    assert_eq!(unit.velocity, Velocity { x: 0, y: 30_000 });
}

#[test]
fn unit_without_speed_keeps_its_velocity() {
    let mut unit = create_goblin_unit(Team { id: 0 }, pt(0, 0));
    unit.mover = Mover::new_to_target(pt(100, 0));
    unit.speed.speed = 0;
    unit.velocity = Velocity { x: 3, y: 4 };
    steer(&mut unit, None, 16);
    assert_eq!(unit.velocity, Velocity { x: 3, y: 4 });
    assert!(!unit.mover.is_target_reached);
}

#[test]
fn unit_preparing_a_strike_stands_and_faces_its_target() {
    let mut unit = create_goblin_unit(Team { id: 0 }, pt(0, 0));
    unit.mover = Mover::new_to_target(pt(100, 0));
    unit.velocity = Velocity { x: 5, y: 5 };
    unit.melee_ability_state = MeleeAbilityState::WillAttack(MeleeAbilityStateWillAttack {
        start_time: 0,
        target_entity: Entity { index: 1 },
    });
    let target = Some(Attackable { team: Team { id: 1 }, position: pt(0, -30), size: UnitSize(20) });
    steer(&mut unit, target, 10);
    assert_eq!(unit.velocity, Velocity::zero());
    assert_eq!(unit.turn, Some(Turn { toward_x: 0, toward_y: -30, max_millidegrees: 7200 }));
    assert!(!unit.mover.is_target_reached);
    steer(&mut unit, None, 10);
    assert_eq!(unit.turn, None);
    assert_eq!(unit.velocity, Velocity::zero());
    unit.rotate_before_move = None;
    steer(&mut unit, target, 10);
    assert_eq!(unit.turn, None);
}

#[test]
fn mover_update_steers_every_living_unit() {
    let mut world = World::new();
    let a = world.spawn(create_goblin_unit(Team { id: 0 }, pt(0, 0)));
    let b = world.spawn(create_goblin_unit(Team { id: 1 }, pt(0, 50)));
    let c = world.spawn(create_goblin_unit(Team { id: 1 }, pt(500, 500)));
    world.units[a.index].as_mut().unwrap().melee_ability_state =
        MeleeAbilityState::WillAttack(MeleeAbilityStateWillAttack { start_time: 0, target_entity: b });
    world.units[c.index].as_mut().unwrap().orders.replace_orders(vec![Orders::order_move(pt(500, 400))]);
    world.units[c.index].as_mut().unwrap().transform.facing = pt(0, -1);
    order_system(&mut world);
    mover_update(&mut world, 16);
    assert_eq!(world.get(a).unwrap().turn, Some(Turn { toward_x: 0, toward_y: 50, max_millidegrees: 11520 }));
    assert_eq!(world.get(b).unwrap().velocity, Velocity::zero());
    assert_eq!(world.get(b).unwrap().turn, None);
    assert_eq!(world.get(c).unwrap().velocity, Velocity { x: 0, y: -120_000 });
    assert!(world.set_transform(c, Transform { translation: pt(500, 401), facing: pt(0, -1) }));
    assert!(!world.set_transform(Entity { index: 17 }, Transform::from_translation(pt(0, 0))));
    mover_update(&mut world, 16);
    assert!(world.get(c).unwrap().mover.is_target_reached);
    order_system(&mut world);
    assert!(world.get(c).unwrap().orders.get_orders().is_empty());
}

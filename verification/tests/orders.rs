use rts_core::components::{
    AIUnit, Attack, Entity, MeleeAbilityState, MeleeAbilityStateCooldown,
    MeleeAbilityStateWillAttack, Team,
};
use rts_core::geometry::Position;
use rts_core::orders::{execute_order, order_system, Awaitable, Mover, Order, Orders};
use rts_core::systems::create_goblin_unit;
use rts_core::world::World;

fn at(x: i32, y: i32) -> Position {
    Position { x, y }
}

fn will_attack() -> MeleeAbilityState {
    MeleeAbilityState::WillAttack(MeleeAbilityStateWillAttack {
        start_time: 5,
        target_entity: Entity { index: 3 },
    })
}

#[test]
fn order_move_is_a_queued_move() {
    assert_eq!(
        Orders::order_move(at(3, 4)),
        Order::Move(Awaitable::Queued(Mover { target_position: at(3, 4), is_target_reached: false }))
    );
    assert_eq!(Mover::new(at(1, 2)), Mover { target_position: at(1, 2), is_target_reached: true });
    assert_eq!(*Mover::new_to_target(at(1, 2)).get_target_position(), at(1, 2));
    assert!(!Mover::new_to_target(at(1, 2)).is_target_reached);
}

#[test]
fn replace_orders_discards_queue_and_override() {
    let mut orders = Orders::new();
    orders.add_orders(vec![Orders::order_move(at(1, 1))]);
    orders.override_order = Some(Orders::order_move(at(9, 9)));
    orders.replace_orders(vec![Order::Ai(AIUnit::Passive), Orders::order_move(at(2, 2))]);
    assert_eq!(orders.get_orders(), &vec![Order::Ai(AIUnit::Passive), Orders::order_move(at(2, 2))]);
    assert_eq!(orders.override_order, None);
}

#[test]
fn add_orders_appends_and_keeps_override() {
    let mut orders = Orders::new();
    orders.add_orders(vec![Orders::order_move(at(1, 1))]);
    orders.override_order = Some(Orders::order_move(at(9, 9)));
    orders.add_orders(vec![Order::Ai(AIUnit::SeekEnemy), Orders::order_move(at(2, 2))]);
    assert_eq!(
        orders.get_orders(),
        &vec![Orders::order_move(at(1, 1)), Order::Ai(AIUnit::SeekEnemy), Orders::order_move(at(2, 2))]
    );
    assert_eq!(orders.override_order, Some(Orders::order_move(at(9, 9))));
}

#[test]
fn ai_order_applies_at_once() {
    let mut mover = Mover::new(at(0, 0));
    let mut ai = AIUnit::SeekEnemy;
    let mut melee = MeleeAbilityState::Ready;
    let attack = AIUnit::Attack(Attack { target: Entity { index: 7 }, chase_when_target_too_far: true });
    assert_eq!(execute_order(&Order::Ai(attack), &mut mover, &mut ai, &mut melee), Ok(()));
    assert_eq!(ai, attack);
    assert_eq!(melee, MeleeAbilityState::Ready);
    assert_eq!(mover, Mover::new(at(0, 0)));
}

#[test]
fn passive_order_interrupts_an_attack_in_preparation() {
    let mut mover = Mover::new(at(0, 0));
    let mut ai = AIUnit::SeekEnemy;
    let mut melee = will_attack();
    assert_eq!(execute_order(&Order::Ai(AIUnit::Passive), &mut mover, &mut ai, &mut melee), Ok(()));
    assert_eq!(ai, AIUnit::Passive);
    assert_eq!(melee, MeleeAbilityState::Ready);
}

#[test]
fn seek_order_does_not_interrupt() {
    let mut mover = Mover::new(at(0, 0));
    let mut ai = AIUnit::Passive;
    let mut melee = will_attack();
    assert_eq!(execute_order(&Order::Ai(AIUnit::SeekEnemy), &mut mover, &mut ai, &mut melee), Ok(()));
    assert_eq!(ai, AIUnit::SeekEnemy);
    assert_eq!(melee, will_attack());
}

#[test]
fn interrupt_touches_only_will_attack() {
    let mut s = will_attack();
    s.interrupt();
    assert_eq!(s, MeleeAbilityState::Ready);
    let mut s = MeleeAbilityState::AttackCooldown(MeleeAbilityStateCooldown { start_time: 4 });
    s.interrupt();
    assert_eq!(s, MeleeAbilityState::AttackCooldown(MeleeAbilityStateCooldown { start_time: 4 }));
    let mut s = MeleeAbilityState::MotionBufferExceeded;
    s.interrupt();
    assert_eq!(s, MeleeAbilityState::MotionBufferExceeded);
    let mut s = MeleeAbilityState::Ready;
    s.interrupt();
    assert_eq!(s, MeleeAbilityState::Ready);
}

#[test]
fn queued_move_becomes_awaiting_and_sets_the_mover() {
    let mut mover = Mover::new(at(0, 0));
    let mut ai = AIUnit::Passive;
    let mut melee = MeleeAbilityState::Ready;
    let r = execute_order(&Orders::order_move(at(5, 6)), &mut mover, &mut ai, &mut melee);
    assert_eq!(r, Err(Some(Order::Move(Awaitable::Awaiting(Mover::new_to_target(at(5, 6)))))));
    assert_eq!(mover, Mover { target_position: at(5, 6), is_target_reached: false });
    assert_eq!(ai, AIUnit::Passive);
}

#[test]
fn awaiting_move_completes_only_on_arrival() {
    let awaiting = Order::Move(Awaitable::Awaiting(Mover::new_to_target(at(5, 6))));
    let mut mover = Mover::new_to_target(at(5, 6));
    let mut ai = AIUnit::Passive;
    let mut melee = MeleeAbilityState::Ready;
    assert_eq!(execute_order(&awaiting, &mut mover, &mut ai, &mut melee), Err(None));
    assert_eq!(mover, Mover::new_to_target(at(5, 6)));
    mover.is_target_reached = true;
    assert_eq!(execute_order(&awaiting, &mut mover, &mut ai, &mut melee), Ok(()));
}

#[test]
fn tick_runs_instant_orders_up_to_the_first_move() {
    let mut orders = Orders::new();
    orders.replace_orders(vec![
        Order::Ai(AIUnit::Passive),
        Orders::order_move(at(10, 0)),
        Order::Ai(AIUnit::SeekEnemy),
    ]);
    let mut mover = Mover::new(at(0, 0));
    let mut ai = AIUnit::SeekEnemy;
    let mut melee = will_attack();
    orders.tick(&mut mover, &mut ai, &mut melee);
    assert_eq!(ai, AIUnit::Passive);
    assert_eq!(melee, MeleeAbilityState::Ready);
    assert_eq!(mover, Mover::new_to_target(at(10, 0)));
    assert_eq!(
        orders.get_orders(),
        &vec![Order::Move(Awaitable::Awaiting(Mover::new_to_target(at(10, 0)))), Order::Ai(AIUnit::SeekEnemy)]
    );
    orders.tick(&mut mover, &mut ai, &mut melee);
    assert_eq!(orders.get_orders().len(), 2);
    assert_eq!(ai, AIUnit::Passive);
    mover.is_target_reached = true;
    orders.tick(&mut mover, &mut ai, &mut melee);
    assert_eq!(orders.get_orders().len(), 0);
    assert_eq!(ai, AIUnit::SeekEnemy);
}

#[test]
fn two_moves_in_a_row_take_one_tick_each_to_start() {
    let mut orders = Orders::new();
    orders.replace_orders(vec![Orders::order_move(at(10, 0)), Orders::order_move(at(20, 0))]);
    let mut mover = Mover::new(at(0, 0));
    let mut ai = AIUnit::Passive;
    let mut melee = MeleeAbilityState::Ready;
    orders.tick(&mut mover, &mut ai, &mut melee);
    assert_eq!(mover, Mover::new_to_target(at(10, 0)));
    mover.is_target_reached = true;
    orders.tick(&mut mover, &mut ai, &mut melee);
    assert_eq!(mover, Mover::new_to_target(at(20, 0)));
    assert_eq!(
        orders.get_orders(),
        &vec![Order::Move(Awaitable::Awaiting(Mover::new_to_target(at(20, 0))))]
    );
}

#[test]
fn busy_override_keeps_the_queue_waiting() {
    let mut orders = Orders::new();
    orders.replace_orders(vec![Order::Ai(AIUnit::Passive), Orders::order_move(at(10, 0))]);
    orders.override_order = Some(Orders::order_move(at(-5, -5)));
    let mut mover = Mover::new(at(0, 0));
    let mut ai = AIUnit::SeekEnemy;
    let mut melee = MeleeAbilityState::Ready;
    orders.tick(&mut mover, &mut ai, &mut melee);
    assert_eq!(
        orders.override_order,
        Some(Order::Move(Awaitable::Awaiting(Mover::new_to_target(at(-5, -5)))))
    );
    assert_eq!(mover, Mover::new_to_target(at(-5, -5)));
    assert_eq!(ai, AIUnit::SeekEnemy);
    assert_eq!(orders.get_orders().len(), 2);
    orders.tick(&mut mover, &mut ai, &mut melee);
    assert_eq!(
        orders.override_order,
        Some(Order::Move(Awaitable::Awaiting(Mover::new_to_target(at(-5, -5)))))
    );
    assert_eq!(ai, AIUnit::SeekEnemy);
    assert_eq!(orders.get_orders().len(), 2);
}

#[test]
fn finished_override_is_cleared_and_the_queue_runs() {
    let mut orders = Orders::new();
    orders.replace_orders(vec![Order::Ai(AIUnit::Passive), Orders::order_move(at(10, 0))]);
    orders.override_order = Some(Order::Move(Awaitable::Awaiting(Mover::new_to_target(at(-5, -5)))));
    let mut mover = Mover { target_position: at(-5, -5), is_target_reached: true };
    let mut ai = AIUnit::SeekEnemy;
    let mut melee = MeleeAbilityState::Ready;
    orders.tick(&mut mover, &mut ai, &mut melee);
    assert_eq!(orders.override_order, None);
    assert_eq!(ai, AIUnit::Passive);
    assert_eq!(mover, Mover::new_to_target(at(10, 0)));
    assert_eq!(
        orders.get_orders(),
        &vec![Order::Move(Awaitable::Awaiting(Mover::new_to_target(at(10, 0))))]
    );
}

#[test]
fn instant_override_is_served_before_the_queue_head() {
    let mut orders = Orders::new();
    orders.replace_orders(vec![Order::Ai(AIUnit::SeekEnemy)]);
    orders.override_order = Some(Order::Ai(AIUnit::Passive));
    let mut mover = Mover::new(at(0, 0));
    let mut ai = AIUnit::SeekEnemy;
    let mut melee = will_attack();
    orders.tick(&mut mover, &mut ai, &mut melee);
    assert_eq!(orders.override_order, None);
    assert_eq!(ai, AIUnit::SeekEnemy);
    assert_eq!(melee, MeleeAbilityState::Ready);
    assert!(orders.get_orders().is_empty());
}

#[test]
fn order_system_ticks_every_living_unit() {
    let mut world = World::new();
    let a = world.spawn(create_goblin_unit(Team { id: 0 }, at(0, 0)));
    let b = world.spawn(create_goblin_unit(Team { id: 0 }, at(50, 0)));
    let c = world.spawn(create_goblin_unit(Team { id: 0 }, at(90, 0)));
    world.units[a.index].as_mut().unwrap().orders.replace_orders(vec![Orders::order_move(at(7, 7))]);
    world.units[c.index].as_mut().unwrap().orders.replace_orders(vec![Order::Ai(AIUnit::Passive)]);
    assert!(world.despawn(b));
    order_system(&mut world);
    assert_eq!(world.get(a).unwrap().mover, Mover::new_to_target(at(7, 7)));
    assert!(world.get(b).is_none());
    assert_eq!(world.get(c).unwrap().ai_unit, AIUnit::Passive);
    assert!(world.get(c).unwrap().orders.get_orders().is_empty());
}

#[test]
fn waypoints_list_the_goals_ahead() {
    let mut orders = Orders::new();
    assert_eq!(orders.waypoints(at(1, 1)), vec![at(1, 1)]);
    orders.replace_orders(vec![
        Order::Ai(AIUnit::Passive),
        Order::Move(Awaitable::Awaiting(Mover::new_to_target(at(2, 2)))),
        Orders::order_move(at(3, 3)),
        Order::Ai(AIUnit::SeekEnemy),
    ]);
    assert_eq!(orders.waypoints(at(1, 1)), vec![at(1, 1), at(2, 2), at(3, 3)]);
    orders.override_order = Some(Orders::order_move(at(9, 9)));
    assert_eq!(orders.waypoints(at(1, 1)), vec![at(1, 1), at(9, 9), at(2, 2), at(3, 3)]);
    orders.override_order = Some(Order::Ai(AIUnit::Passive));
    assert_eq!(orders.waypoints(at(1, 1)), vec![at(1, 1), at(2, 2), at(3, 3)]);
}

#[test]
fn renewing_an_override_to_the_same_goal_changes_nothing() {
    let mut orders = Orders::new();
    orders.replace_orders(vec![Orders::order_move(at(1, 1))]);
    orders.override_order = Some(Orders::order_move(at(40, 40)));
    let mut mover = Mover::new(at(0, 0));
    let mut ai = AIUnit::SeekEnemy;
    let mut melee = MeleeAbilityState::Ready;
    orders.tick(&mut mover, &mut ai, &mut melee);
    let (settled_orders, settled_mover) = (orders.clone(), mover);
    for _ in 0..3 {
        orders.override_order = Some(Orders::order_move(at(40, 40)));
        orders.tick(&mut mover, &mut ai, &mut melee);
        assert_eq!(orders, settled_orders);
        assert_eq!(mover, settled_mover);
    }
}

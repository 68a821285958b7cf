//! The order queue of a unit and the cycle that executes it.
//!
//! A unit holds a queue of orders, executed head first, and one override
//! slot that the unit's own combat behaviour fills. While the override is
//! busy the queue waits. No order ever blocks: a move order that has been
//! applied stays at its place as `Awaiting` and is looked at again on the
//! next tick.

use vstd::prelude::*;
use crate::components::{AIUnit, MeleeAbilityState};
use crate::geometry::Position;
use crate::world::{slot_view, UnitView, World};

verus! {

/// Where a unit is heading, and whether it has arrived.
#[derive(Clone, Copy, Debug, PartialEq, Eq, Structural)]
pub struct Mover {
    pub target_position: Position,
    pub is_target_reached: bool,
}

/// Present on units that turn towards their goal before they move.
#[derive(Clone, Copy, Debug, PartialEq, Eq, Structural)]
pub struct RotateBeforeMove {
    /// Degrees per second.
    pub rotation_speed: u32,
}

/// How fast a unit walks.
#[derive(Clone, Copy, Debug, PartialEq, Eq, Structural)]
pub struct Speed {
    /// World units per second.
    pub speed: u32,
}

impl Mover {
    /// A mover at rest at `position`.
    pub fn new(position: Position) -> (m: Mover)
        ensures
            m == (Mover { target_position: position, is_target_reached: true }),
    {
        Mover { target_position: position, is_target_reached: true }
    }

    /// A mover on its way to `position`.
    pub open spec fn to_target(position: Position) -> Mover {
        Mover { target_position: position, is_target_reached: false }
    }

    /// A mover on its way to `position`.
    pub fn new_to_target(position: Position) -> (m: Mover)
        ensures
            m == Mover::to_target(position),
    {
        Mover { target_position: position, is_target_reached: false }
    }

    /// Where the unit is heading.
    pub fn get_target_position(&self) -> (p: &Position)
        ensures
            *p == self.target_position,
    {
        &self.target_position
    }
}

/// Marks whether an order has been applied and now waits for its end.
#[derive(Clone, Copy, Debug, PartialEq, Eq, Structural)]
pub enum Awaitable<T> {
    Queued(T),
    Awaiting(T),
}

/// One command to a unit.
#[derive(Clone, Copy, Debug, PartialEq, Eq, Structural)]
pub enum Order {
    /// Sets the unit's behaviour; done at once.
    Ai(AIUnit),
    /// Sends the unit somewhere; done on arrival.
    Move(Awaitable<Mover>),
}

/// The commands of a unit: a queue, served head first, and an override
/// that is served before the queue.
#[derive(Clone, Debug, Default, PartialEq, Eq)]
pub struct Orders {
    pub orders: Vec<Order>,
    pub override_order: Option<Order>,
}

/// The orders of a unit as mathematics sees them.
pub struct OrdersView {
    pub queue: Seq<Order>,
    pub override_order: Option<Order>,
}

impl View for Orders {
    type V = OrdersView;

    open spec fn view(&self) -> OrdersView {
        OrdersView { queue: self.orders@, override_order: self.override_order }
    }
}

/// `Ok` when the order is done; `Err(Some(o))` when it goes on as `o`;
/// `Err(None)` when it goes on unchanged.
pub type ExecutionResult = Result<(), Option<Order>>;

/// The parts of a unit that executing an order can change.
#[derive(Clone, Copy, Debug, PartialEq, Eq, Structural)]
pub struct Control {
    pub mover: Mover,
    pub ai: AIUnit,
    pub melee: MeleeAbilityState,
}

/// What executing `order` reports, given the unit's mover.
pub open spec fn order_result(order: Order, mover: Mover) -> ExecutionResult {
    match order {
        Order::Ai(_) => Ok(()),
        Order::Move(Awaitable::Queued(intent)) => Err(Some(Order::Move(Awaitable::Awaiting(intent)))),
        Order::Move(Awaitable::Awaiting(_)) => if mover.is_target_reached {
            Ok(())
        } else {
            Err(None)
        },
    }
}

/// What executing `order` does to the unit.
pub open spec fn order_effect(order: Order, c: Control) -> Control {
    match order {
        Order::Ai(new_ai) => Control {
            mover: c.mover,
            ai: new_ai,
            melee: if new_ai is Passive {
                c.melee.interrupted()
            } else {
                c.melee
            },
        },
        Order::Move(Awaitable::Queued(intent)) => Control { mover: intent, ai: c.ai, melee: c.melee },
        Order::Move(Awaitable::Awaiting(_)) => c,
    }
}

/// Executes one order on a unit.
///
/// An `Ai` order takes effect at once, and setting `Passive` also breaks off
/// an attack in preparation. A queued move order hands its goal to the mover
/// and goes on as `Awaiting`. An awaiting move order is done once the mover
/// has arrived.
pub fn execute_order(
    order: &Order,
    mover: &mut Mover,
    ai: &mut AIUnit,
    melee_ability_state: &mut MeleeAbilityState,
) -> (r: ExecutionResult)
    ensures
        r == order_result(*order, *old(mover)),
        (Control { mover: *final(mover), ai: *final(ai), melee: *final(melee_ability_state) })
            == order_effect(
            *order,
            Control { mover: *old(mover), ai: *old(ai), melee: *old(melee_ability_state) },
        ),
{
    match order {
        Order::Ai(new_ai) => {
            match new_ai {
                AIUnit::Passive => {
                    melee_ability_state.interrupt();
                },
                AIUnit::SeekEnemy => {},
                AIUnit::Attack(_) => {},
            }
            *ai = *new_ai;
            Ok(())
        },
        Order::Move(Awaitable::Queued(move_queued)) => {
            *mover = *move_queued;
            Err(Some(Order::Move(Awaitable::Awaiting(*move_queued))))
        },
        Order::Move(Awaitable::Awaiting(_)) => {
            if mover.is_target_reached {
                Ok(())
            } else {
                Err(None)
            }
        },
    }
}

/// Runs the queue from its head: orders that are done leave it, the first one
/// that is not done stops the run.
pub open spec fn run_queue(queue: Seq<Order>, c: Control) -> (Seq<Order>, Control)
    decreases queue.len(),
{
    if queue.len() == 0 {
        (queue, c)
    } else {
        match order_result(queue[0], c.mover) {
            Ok(()) => run_queue(queue.drop_first(), order_effect(queue[0], c)),
            Err(Some(next)) => (queue.update(0, next), order_effect(queue[0], c)),
            Err(None) => (queue, c),
        }
    }
}

/// One tick of the order cycle on one unit.
///
/// An override is served first. If it is not done it keeps (or renews) its
/// slot and the queue is left alone; if it is done the slot is cleared and the
/// queue runs in the same tick.
pub open spec fn tick_orders(o: OrdersView, c: Control) -> (OrdersView, Control) {
    match o.override_order {
        Some(first) => match order_result(first, c.mover) {
            Ok(()) => {
                let (queue, after) = run_queue(o.queue, order_effect(first, c));
                (OrdersView { queue, override_order: None }, after)
            },
            Err(Some(next)) => (
                OrdersView { queue: o.queue, override_order: Some(next) },
                order_effect(first, c),
            ),
            Err(None) => (o, c),
        },
        None => {
            let (queue, after) = run_queue(o.queue, c);
            (OrdersView { queue, override_order: None }, after)
        },
    }
}

impl Orders {
    /// No orders.
    pub fn new() -> (o: Orders)
        ensures
            o@.queue == Seq::<Order>::empty(),
            o@.override_order is None,
    {
        Orders { orders: Vec::new(), override_order: None }
    }

    /// Appends to the queue; the override and the orders already queued stay.
    pub fn add_orders(&mut self, new_orders: Vec<Order>)
        ensures
            final(self)@.queue == old(self)@.queue + new_orders@,
            final(self)@.override_order == old(self)@.override_order,
    {
        let mut new_orders = new_orders;
        self.orders.append(&mut new_orders);
    }

    /// Installs a new queue and clears the override.
    pub fn replace_orders(&mut self, new_orders: Vec<Order>)
        ensures
            final(self)@.queue == new_orders@,
            final(self)@.override_order is None,
    {
        self.orders = new_orders;
        self.override_order = None;
    }

    /// The queue, head first.
    pub fn get_orders(&self) -> (v: &Vec<Order>)
        ensures
            v@ == self@.queue,
    {
        &self.orders
    }

    /// A queued move order to `target`.
    pub fn order_move(target: Position) -> (o: Order)
        ensures
            o == Order::Move(Awaitable::Queued(Mover::to_target(target))),
    {
        Order::Move(Awaitable::Queued(Mover::new_to_target(target)))
    }

    /// Runs the queue until it is empty or its head is not done.
    fn run(
        &mut self,
        mover: &mut Mover,
        ai: &mut AIUnit,
        melee_ability_state: &mut MeleeAbilityState,
    )
        ensures
            final(self).override_order == old(self).override_order,
            (
                final(self).orders@,
                Control { mover: *final(mover), ai: *final(ai), melee: *final(melee_ability_state) },
            ) == run_queue(
                old(self).orders@,
                Control { mover: *old(mover), ai: *old(ai), melee: *old(melee_ability_state) },
            ),
    {
        let ghost goal = run_queue(
            self.orders@,
            Control { mover: *mover, ai: *ai, melee: *melee_ability_state },
        );
        while self.orders.len() > 0
            invariant_except_break
                run_queue(
                    self.orders@,
                    Control { mover: *mover, ai: *ai, melee: *melee_ability_state },
                ) == goal,
            invariant
                self.override_order == old(self).override_order,
            ensures
                (self.orders@, Control { mover: *mover, ai: *ai, melee: *melee_ability_state })
                    == goal,
            decreases self.orders.len(),
        {
            let head: Order = self.orders[0];
            match execute_order(&head, mover, ai, melee_ability_state) {
                Err(not_done) => {
                    if let Some(new_order) = not_done {
                        self.orders.set(0, new_order);
                    }
                    break ;
                },
                Ok(()) => {
                    let ghost before = self.orders@;
                    let _ = self.orders.remove(0);
                    assert(self.orders@ =~= before.drop_first());
                },
            }
        }
    }

    /// One tick of the order cycle: the override first, then, unless the
    /// override is still busy, the queue.
    pub fn tick(
        &mut self,
        mover: &mut Mover,
        ai: &mut AIUnit,
        melee_ability_state: &mut MeleeAbilityState,
    )
        ensures
            (
                final(self)@,
                Control { mover: *final(mover), ai: *final(ai), melee: *final(melee_ability_state) },
            ) == tick_orders(
                old(self)@,
                Control { mover: *old(mover), ai: *old(ai), melee: *old(melee_ability_state) },
            ),
    {
        match self.override_order {
            Some(order) => {
                match execute_order(&order, mover, ai, melee_ability_state) {
                    Err(Some(next)) => {
                        self.override_order = Some(next);
                        return ;
                    },
                    Err(None) => {
                        return ;
                    },
                    Ok(()) => {
                        self.override_order = None;
                    },
                }
            },
            None => {},
        }
        self.run(mover, ai, melee_ability_state);
    }
}

/// Where an order sends the unit, if it sends it anywhere.
pub open spec fn goal_of(order: Order) -> Option<Position> {
    match order {
        Order::Ai(_) => None,
        Order::Move(Awaitable::Queued(m)) => Some(m.target_position),
        Order::Move(Awaitable::Awaiting(m)) => Some(m.target_position),
    }
}

/// The goals of the move orders of a queue, in order.
pub open spec fn goals(queue: Seq<Order>) -> Seq<Position>
    decreases queue.len(),
{
    if queue.len() == 0 {
        Seq::empty()
    } else {
        match goal_of(queue.last()) {
            Some(p) => goals(queue.drop_last()).push(p),
            None => goals(queue.drop_last()),
        }
    }
}

/// The way a unit at `from` has before it: where it stands, the goal of its
/// override, the goals of its queue.
pub open spec fn route(o: OrdersView, from: Position) -> Seq<Position> {
    seq![from] + (match o.override_order {
        Some(order) => goals(seq![order]),
        None => Seq::empty(),
    }) + goals(o.queue)
}

fn order_goal(order: &Order) -> (r: Option<Position>)
    ensures
        r == goal_of(*order),
{
    match order {
        Order::Ai(_) => None,
        Order::Move(Awaitable::Queued(m)) => Some(m.target_position),
        Order::Move(Awaitable::Awaiting(m)) => Some(m.target_position),
    }
}

impl Orders {
    /// The points through which a unit at `from` is going to pass, for a
    /// client to draw.
    pub fn waypoints(&self, from: Position) -> (points: Vec<Position>)
        ensures
            points@ == route(self@, from),
    {
        let mut points: Vec<Position> = Vec::new();
        points.push(from);
        let ghost first: Seq<Position> = match self.override_order {
            Some(order) => goals(seq![order]),
            None => Seq::empty(),
        };
        if let Some(order) = &self.override_order {
            proof {
                reveal_with_fuel(goals, 2);
                assert(seq![*order].drop_last() =~= Seq::<Order>::empty());
                assert(seq![*order].last() == *order);
            }
            if let Some(p) = order_goal(order) {
                points.push(p);
            }
        }
        assert(points@ =~= seq![from] + first);
        let n: usize = self.orders.len();
        let mut i: usize = 0;
        while i < n
            invariant
                i <= n,
                n == self.orders@.len(),
                points@ == seq![from] + first + goals(self.orders@.take(i as int)),
            decreases n - i,
        {
            proof {
                let next = self.orders@.take(i + 1);
                assert(next.drop_last() =~= self.orders@.take(i as int));
                assert(next.last() == self.orders@[i as int]);
            }
            if let Some(p) = order_goal(&self.orders[i]) {
                points.push(p);
                assert(points@ =~= seq![from] + first + goals(self.orders@.take(i + 1)));
            }
            i += 1;
        }
        assert(self.orders@.take(n as int) =~= self.orders@);
        points
    }
}

/// A unit after one tick of the order cycle.
pub open spec fn orders_ticked(u: UnitView) -> UnitView {
    let (orders, c) = tick_orders(
        u.orders,
        Control { mover: u.mover, ai: u.ai_unit, melee: u.melee_ability_state },
    );
    UnitView { orders, mover: c.mover, ai_unit: c.ai, melee_ability_state: c.melee, ..u }
}

/// A slot of the world after one tick of the order cycle.
pub open spec fn orders_slot(slot: Option<UnitView>) -> Option<UnitView> {
    match slot {
        Some(u) => Some(orders_ticked(u)),
        None => None,
    }
}

/// The world after one tick of the order cycle on every unit.
pub open spec fn orders_world(w: Seq<Option<UnitView>>) -> Seq<Option<UnitView>> {
    Seq::new(w.len(), |i: int| orders_slot(w[i]))
}

/// The order cycle over all units.
pub fn order_system(world: &mut World)
    ensures
        final(world)@ == orders_world(old(world)@),
{
    let n: usize = world.units.len();
    let mut i: usize = 0;
    while i < n
        invariant
            i <= n,
            n == world.units@.len(),
            n == old(world)@.len(),
            forall|j: int| 0 <= j < i ==> #[trigger] world@[j] == orders_slot(old(world)@[j]),
            forall|j: int| i <= j < n ==> #[trigger] world@[j] == old(world)@[j],
        decreases n - i,
    {
        let ghost before = world.units@;
        let ghost before_view = world@;
        assert(forall|j: int| 0 <= j < n ==> before_view[j] == slot_view(before[j]));
        match &mut world.units[i] {
            Some(u) => {
                u.orders.tick(&mut u.mover, &mut u.ai_unit, &mut u.melee_ability_state);
            },
            None => {},
        }
        assert forall|j: int| 0 <= j < n implies #[trigger] world@[j] == (if j == i {
            orders_slot(before_view[j])
        } else {
            before_view[j]
        }) by {
            assert(world@[j] == slot_view(world.units@[j]));
        }
        i += 1;
    }
    assert(world@ =~= orders_world(old(world)@));
}

/// An override that is not done keeps the queue waiting: the tick leaves the
/// queue as it was, and what happened to the unit is the override's doing
/// alone.
pub proof fn lemma_busy_override_blocks_queue(o: OrdersView, c: Control)
    requires
        o.override_order matches Some(first) && order_result(first, c.mover) is Err,
    ensures
        tick_orders(o, c).0.queue == o.queue,
        tick_orders(o, c).0.override_order is Some,
        tick_orders(o, c).1 == order_effect(o.override_order->0, c),
{
}

/// An override that is done is served before the head of the queue: the
/// queue runs on the unit as the override left it, and the slot is free.
pub proof fn lemma_override_served_first(o: OrdersView, c: Control)
    requires
        o.override_order matches Some(first) && order_result(first, c.mover) is Ok,
    ensures
        tick_orders(o, c).0.override_order is None,
        (tick_orders(o, c).0.queue, tick_orders(o, c).1) == run_queue(
            o.queue,
            order_effect(o.override_order->0, c),
        ),
{
}

/// Telling a unit again to go where it is already going changes nothing:
/// the order cycle turns the renewed override back into the waiting one and
/// leaves the unit and its queue as they were. A unit that chases is told
/// where its target is on every tick; as long as the target stands still,
/// this goes unnoticed.
pub proof fn lemma_renewed_override_changes_nothing(o: OrdersView, c: Control, goal: Position)
    requires
        c.mover == Mover::to_target(goal),
        o.override_order == Some(Order::Move(Awaitable::Queued(Mover::to_target(goal)))),
    ensures
        tick_orders(o, c).1 == c,
        tick_orders(o, c).0 == (OrdersView {
            override_order: Some(Order::Move(Awaitable::Awaiting(Mover::to_target(goal)))),
            ..o
        }),
{
}

/// A queued move order becomes `Awaiting` exactly once: once it waits, it
/// either stays as it is or is done, and it is done only when the mover has
/// arrived.
pub proof fn lemma_move_order_life(intent: Mover, c: Control)
    ensures
        order_result(Order::Move(Awaitable::Queued(intent)), c.mover) == Err::<(), Option<Order>>(
            Some(Order::Move(Awaitable::Awaiting(intent))),
        ),
        order_effect(Order::Move(Awaitable::Queued(intent)), c).mover == intent,
        order_result(Order::Move(Awaitable::Awaiting(intent)), c.mover) is Ok
            <==> c.mover.is_target_reached,
        order_result(Order::Move(Awaitable::Awaiting(intent)), c.mover) is Err ==> order_result(
            Order::Move(Awaitable::Awaiting(intent)),
            c.mover,
        ) == Err::<(), Option<Order>>(None),
{
}

/// The queue is served in order: a run never reorders or invents orders. What
/// is left is a tail of the old queue, but for its head, which may have
/// become `Awaiting`.
pub proof fn lemma_run_queue_keeps_order(queue: Seq<Order>, c: Control)
    ensures
        ({
            let left = run_queue(queue, c).0;
            &&& left.len() <= queue.len()
            &&& forall|i: int|
                1 <= i < left.len() ==> left[i] == queue[queue.len() - left.len() + i]
            &&& left.len() > 0 ==> {
                let head = queue[queue.len() - left.len()];
                ||| left[0] == head
                ||| (head matches Order::Move(Awaitable::Queued(m)) && left[0] == Order::Move(
                    Awaitable::Awaiting(m),
                ))
            }
        }),
    decreases queue.len(),
{
    if queue.len() > 0 {
        match order_result(queue[0], c.mover) {
            Ok(()) => {
                lemma_run_queue_keeps_order(queue.drop_first(), order_effect(queue[0], c));
            },
            _ => {},
        }
    }
}

} // verus!

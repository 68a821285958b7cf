//! The unit registry: every unit of the battlefield, found by its handle.

use vstd::prelude::*;
use crate::components::{
    AIUnit, Entity, Health, MeleeAbility, MeleeAbilityState, OffensiveStats, RenderSprite,
    SeekEnemyRange, SufferDamage, Team, Transform, UnitSize, Velocity,
};
use crate::geometry::Position;
use crate::orders::{Mover, Orders, OrdersView, RotateBeforeMove, Speed};

verus! {

/// A request to the physics side to turn a unit: towards the direction
/// `toward`, by at most `max_millidegrees`.
#[derive(Clone, Copy, Debug, PartialEq, Eq, Structural)]
pub struct Turn {
    pub toward_x: i64,
    pub toward_y: i64,
    pub max_millidegrees: u64,
}

/// Everything one unit is made of.
#[derive(Clone, Debug, PartialEq, Eq)]
pub struct UnitBundle {
    pub size: UnitSize,
    pub transform: Transform,
    pub render_sprite: RenderSprite,
    pub mover: Mover,
    pub rotate_before_move: Option<RotateBeforeMove>,
    pub speed: Speed,
    /// Written by the movement step, read by the physics side.
    pub velocity: Velocity,
    /// Written by the movement step, read by the physics side.
    pub turn: Option<Turn>,
    pub team: Team,
    pub ai_unit: AIUnit,
    pub seek_enemy_range: SeekEnemyRange,
    pub melee_ability: MeleeAbility,
    pub melee_ability_state: MeleeAbilityState,
    pub offensive_stats: OffensiveStats,
    pub health: Health,
    pub suffer_damage: SufferDamage,
    pub orders: Orders,
}

/// A unit as mathematics sees it.
pub struct UnitView {
    pub size: UnitSize,
    pub transform: Transform,
    pub render_sprite: RenderSprite,
    pub mover: Mover,
    pub rotate_before_move: Option<RotateBeforeMove>,
    pub speed: Speed,
    pub velocity: Velocity,
    pub turn: Option<Turn>,
    pub team: Team,
    pub ai_unit: AIUnit,
    pub seek_enemy_range: SeekEnemyRange,
    pub melee_ability: MeleeAbility,
    pub melee_ability_state: MeleeAbilityState,
    pub offensive_stats: OffensiveStats,
    pub health: Health,
    pub suffer_damage: Seq<u32>,
    pub orders: OrdersView,
}

impl View for UnitBundle {
    type V = UnitView;

    open spec fn view(&self) -> UnitView {
        UnitView {
            size: self.size,
            transform: self.transform,
            render_sprite: self.render_sprite,
            mover: self.mover,
            rotate_before_move: self.rotate_before_move,
            speed: self.speed,
            velocity: self.velocity,
            turn: self.turn,
            team: self.team,
            ai_unit: self.ai_unit,
            seek_enemy_range: self.seek_enemy_range,
            melee_ability: self.melee_ability,
            melee_ability_state: self.melee_ability_state,
            offensive_stats: self.offensive_stats,
            health: self.health,
            suffer_damage: self.suffer_damage.amount@,
            orders: self.orders@,
        }
    }
}

/// What other units see of a unit: whose it is, where it is, how big it is.
#[derive(Clone, Copy, Debug, PartialEq, Eq, Structural)]
pub struct Attackable {
    pub team: Team,
    pub position: Position,
    pub size: UnitSize,
}

/// What other units see of `u`.
pub open spec fn attackable_of(u: UnitView) -> Attackable {
    Attackable { team: u.team, position: u.transform.translation, size: u.size }
}

/// What other units see of a slot: nothing if it is empty.
pub open spec fn slot_attackable(slot: Option<UnitView>) -> Option<Attackable> {
    match slot {
        Some(u) => Some(attackable_of(u)),
        None => None,
    }
}

/// The units of a world as other units see them, slot by slot.
pub open spec fn snapshot(w: Seq<Option<UnitView>>) -> Seq<Option<Attackable>> {
    Seq::new(w.len(), |i: int| slot_attackable(w[i]))
}

/// What a handle resolves to among `others`: nothing if its slot does not
/// exist or is empty.
pub open spec fn lookup(others: Seq<Option<Attackable>>, e: Entity) -> Option<Attackable> {
    if e.index < others.len() {
        others[e.index as int]
    } else {
        None
    }
}

/// A slot as mathematics sees it.
pub open spec fn slot_view(slot: Option<UnitBundle>) -> Option<UnitView> {
    match slot {
        Some(u) => Some(u@),
        None => None,
    }
}

/// The registry. Slot `i` holds the unit with handle `i`, or nothing once
/// that unit is destroyed; new units get new slots.
#[derive(Clone, Debug, Default, PartialEq, Eq)]
pub struct World {
    pub units: Vec<Option<UnitBundle>>,
}

impl View for World {
    type V = Seq<Option<UnitView>>;

    open spec fn view(&self) -> Seq<Option<UnitView>> {
        Seq::new(self.units@.len(), |i: int| slot_view(self.units@[i]))
    }
}

impl World {
    /// A world without units.
    pub fn new() -> (w: World)
        ensures
            w@ == Seq::<Option<UnitView>>::empty(),
    {
        World { units: Vec::new() }
    }

    /// The number of slots handed out so far.
    pub fn len(&self) -> (n: usize)
        ensures
            n == self@.len(),
    {
        self.units.len()
    }

    /// Adds a unit and returns its handle, which no unit had before.
    pub fn spawn(&mut self, unit: UnitBundle) -> (e: Entity)
        ensures
            e.index == old(self)@.len(),
            final(self)@ == old(self)@.push(Some(unit@)),
    {
        let index: usize = self.units.len();
        self.units.push(Some(unit));
        assert(self@ =~= old(self)@.push(Some(unit@)));
        Entity { index }
    }

    /// Whether `e` is the handle of a living unit.
    pub fn contains(&self, e: Entity) -> (r: bool)
        ensures
            r == (e.index < self@.len() && self@[e.index as int] is Some),
    {
        if e.index < self.units.len() {
            self.units[e.index].is_some()
        } else {
            false
        }
    }

    /// The unit behind a handle, if it lives.
    pub fn get(&self, e: Entity) -> (r: Option<&UnitBundle>)
        ensures
            r matches Some(u) ==> e.index < self@.len() && self@[e.index as int] == Some(u@),
            r is None ==> !(e.index < self@.len() && self@[e.index as int] is Some),
    {
        if e.index < self.units.len() {
            self.units[e.index].as_ref()
        } else {
            None
        }
    }

    /// Removes a unit. Returns whether there was one.
    pub fn despawn(&mut self, e: Entity) -> (r: bool)
        ensures
            r == (e.index < old(self)@.len() && old(self)@[e.index as int] is Some),
            final(self)@ == (if e.index < old(self)@.len() {
                old(self)@.update(e.index as int, None)
            } else {
                old(self)@
            }),
    {
        if e.index < self.units.len() {
            let was: bool = self.units[e.index].is_some();
            self.units.set(e.index, None);
            assert(self@ =~= old(self)@.update(e.index as int, None));
            was
        } else {
            false
        }
    }

    /// Moves a unit to where the physics side has put it. Returns whether
    /// the unit lives.
    pub fn set_transform(&mut self, e: Entity, transform: Transform) -> (r: bool)
        ensures
            r == (e.index < old(self)@.len() && old(self)@[e.index as int] is Some),
            r ==> final(self)@ == old(self)@.update(
                e.index as int,
                Some(UnitView { transform, ..old(self)@[e.index as int]->0 }),
            ),
            !r ==> final(self)@ == old(self)@,
    {
        if e.index < self.units.len() {
            match &mut self.units[e.index] {
                Some(u) => {
                    u.transform = transform;
                    assert(self@ =~= old(self)@.update(
                        e.index as int,
                        Some(UnitView { transform, ..old(self)@[e.index as int]->0 }),
                    ));
                    true
                },
                None => {
                    assert(self@ =~= old(self)@);
                    false
                },
            }
        } else {
            false
        }
    }

    /// The units as other units see them.
    pub fn attackables(&self) -> (v: Vec<Option<Attackable>>)
        ensures
            v@ == snapshot(self@),
    {
        let mut v: Vec<Option<Attackable>> = Vec::new();
        let n: usize = self.units.len();
        let mut i: usize = 0;
        while i < n
            invariant
                i <= n,
                n == self.units@.len(),
                v@.len() == i,
                forall|j: int| 0 <= j < i ==> v@[j] == slot_attackable(self@[j]),
            decreases n - i,
        {
            let a: Option<Attackable> = match &self.units[i] {
                Some(u) => Some(
                    Attackable { team: u.team, position: u.transform.translation, size: u.size },
                ),
                None => None,
            };
            v.push(a);
            i += 1;
        }
        assert(v@ =~= snapshot(self@));
        v
    }
}

} // verus!

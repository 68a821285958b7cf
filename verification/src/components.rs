//! The plain data a unit is made of.

use vstd::prelude::*;
use crate::geometry::Position;

verus! {

/// Stable handle of a unit: the number of its slot in the world. A slot is
/// never given to a second unit, so the handle of a destroyed unit resolves to
/// nothing for ever.
#[derive(Clone, Copy, Debug, PartialEq, Eq, Hash, Structural)]
pub struct Entity {
    pub index: usize,
}

/// Radius of a unit, in world units.
#[derive(Clone, Copy, Debug, PartialEq, Eq, Structural)]
pub struct UnitSize(pub u32);

/// Which sprite a client draws for the unit.
#[derive(Clone, Copy, Debug, PartialEq, Eq, Hash, Structural)]
pub enum RenderSprite {
    Ogre,
    Goblin,
    Bandit,
}

/// How hard a unit hits.
#[derive(Clone, Copy, Debug, PartialEq, Eq, Structural)]
pub struct OffensiveStats {
    /// Damage of one successful strike.
    pub power: u32,
}

/// The melee attack of a unit: how far it reaches and how long it takes.
#[derive(Clone, Copy, Debug, PartialEq, Eq, Structural)]
pub struct MeleeAbility {
    /// Reach of a strike, in world units, measured between the two rims.
    pub range: u32,
    /// Extra slack before a strike in progress is broken off.
    pub motion_buffer_range: u32,
    /// Milliseconds from the start of an attack to the strike.
    pub time_to_strike: u64,
    /// Milliseconds of rest after a strike.
    pub cooldown: u64,
}

/// An attack in preparation.
#[derive(Clone, Copy, Debug, PartialEq, Eq, Structural)]
pub struct MeleeAbilityStateWillAttack {
    /// Millisecond at which the attack began.
    pub start_time: u64,
    pub target_entity: Entity,
}

/// The rest after a strike.
#[derive(Clone, Copy, Debug, PartialEq, Eq, Structural)]
pub struct MeleeAbilityStateCooldown {
    /// Millisecond at which the strike landed.
    pub start_time: u64,
}

/// The melee state machine of one unit.
#[derive(Clone, Copy, Debug, PartialEq, Eq, Structural)]
pub enum MeleeAbilityState {
    Ready,
    WillAttack(MeleeAbilityStateWillAttack),
    AttackCooldown(MeleeAbilityStateCooldown),
    MotionBufferExceeded,
}

impl MeleeAbilityState {
    /// What `interrupt` leaves of a state: an attack in preparation is
    /// abandoned, every other state stays.
    pub open spec fn interrupted(self) -> MeleeAbilityState {
        if self is WillAttack {
            MeleeAbilityState::Ready
        } else {
            self
        }
    }

    /// Abandons an attack in preparation.
    pub fn interrupt(&mut self)
        ensures
            *final(self) == old(self).interrupted(),
    {
        match self {
            MeleeAbilityState::Ready => {},
            MeleeAbilityState::MotionBufferExceeded => {},
            MeleeAbilityState::WillAttack(_) => {
                *self = MeleeAbilityState::Ready;
            },
            MeleeAbilityState::AttackCooldown(_) => {},
        }
    }
}

/// Friend or foe: units fight units of another team.
#[derive(Clone, Copy, Debug, PartialEq, Eq, Structural)]
pub struct Team {
    pub id: usize,
}

/// The hit points of a unit. A unit whose hit points are used up is destroyed.
#[derive(Clone, Copy, Debug, PartialEq, Eq, Structural)]
pub struct Health {
    pub max_hp: i64,
    pub current_hp: i64,
}

/// Damage dealt to a unit and not yet taken off its health.
#[derive(Clone, Debug, Default, PartialEq, Eq)]
pub struct SufferDamage {
    pub amount: Vec<u32>,
}

impl SufferDamage {
    /// No damage pending.
    pub fn new() -> (s: SufferDamage)
        ensures
            s.amount@ == Seq::<u32>::empty(),
    {
        SufferDamage { amount: Vec::new() }
    }

    /// Records one more hit.
    pub fn new_damage(&mut self, amount: u32)
        ensures
            final(self).amount@ == old(self).amount@.push(amount),
    {
        self.amount.push(amount);
    }
}

/// How far a unit looks for enemies, in world units between the centres.
#[derive(Clone, Copy, Debug, PartialEq, Eq, Structural)]
pub struct SeekEnemyRange {
    pub range: u32,
}

/// Whom a unit attacks, and whether it follows its target out of sight.
#[derive(Clone, Copy, Debug, PartialEq, Eq, Structural)]
pub struct Attack {
    pub target: Entity,
    pub chase_when_target_too_far: bool,
}

/// What a unit does of its own accord.
#[derive(Clone, Copy, Debug, PartialEq, Eq, Structural)]
pub enum AIUnit {
    Passive,
    SeekEnemy,
    Attack(Attack),
}

/// Where a unit stands and which way it looks. `facing` is a direction: its
/// length means nothing, and the zero vector stands for "not known".
#[derive(Clone, Copy, Debug, PartialEq, Eq, Structural)]
pub struct Transform {
    pub translation: Position,
    pub facing: Position,
}

impl Transform {
    /// A transform at `translation`, looking along the x axis.
    pub fn from_translation(translation: Position) -> (t: Transform)
        ensures
            t.translation == translation,
            t.facing == (Position { x: 1, y: 0 }),
    {
        Transform { translation, facing: Position { x: 1, y: 0 } }
    }
}

/// Desired linear velocity, in thousandths of a world unit per second.
#[derive(Clone, Copy, Debug, PartialEq, Eq, Structural)]
pub struct Velocity {
    pub x: i64,
    pub y: i64,
}

impl Velocity {
    /// Standing still.
    pub open spec fn spec_zero() -> Velocity {
        Velocity { x: 0, y: 0 }
    }

    /// Standing still.
    #[verifier::when_used_as_spec(spec_zero)]
    pub fn zero() -> (v: Velocity)
        ensures
            v == Velocity::spec_zero(),
    {
        Velocity { x: 0, y: 0 }
    }
}

} // verus!

//! The per-tick systems of the battlefield: target choice, melee combat and
//! health.

use vstd::prelude::*;
use crate::components::{
    AIUnit, Attack, Entity, Health, MeleeAbility, MeleeAbilityState, MeleeAbilityStateCooldown,
    MeleeAbilityStateWillAttack, OffensiveStats, RenderSprite, SeekEnemyRange, SufferDamage, Team,
    Transform, UnitSize, Velocity,
};
use crate::geometry::{dist2, within, Position};
use crate::orders::{Awaitable, Mover, Order, Orders, OrdersView, RotateBeforeMove, Speed};
use crate::world::{lookup, slot_view, snapshot, Attackable, UnitBundle, UnitView, World};

verus! {

// ---------------------------------------------------------------------------
// Unit types
// ---------------------------------------------------------------------------
/// What sets one type of unit apart from another.
#[derive(Clone, Copy, Debug, PartialEq, Eq, Structural)]
pub struct UnitStats {
    pub render_sprite: RenderSprite,
    pub size: u32,
    pub rotation_speed: u32,
    pub speed: u32,
    pub seek_range: u32,
    pub melee_ability: MeleeAbility,
    pub power: u32,
    pub max_hp: i64,
}

/// What makes a bandit.
pub open spec fn bandit_stats() -> UnitStats {
    UnitStats {
        render_sprite: RenderSprite::Bandit,
        size: 20,
        rotation_speed: 700,
        speed: 80,
        seek_range: 200,
        melee_ability: MeleeAbility {
            range: 100,
            motion_buffer_range: 3,
            time_to_strike: 400,
            cooldown: 200,
        },
        power: 4,
        max_hp: 10,
    }
}

/// What makes a goblin.
pub open spec fn goblin_stats() -> UnitStats {
    UnitStats {
        render_sprite: RenderSprite::Goblin,
        size: 20,
        rotation_speed: 720,
        speed: 120,
        seek_range: 200,
        melee_ability: MeleeAbility {
            range: 5,
            motion_buffer_range: 3,
            time_to_strike: 200,
            cooldown: 200,
        },
        power: 2,
        max_hp: 20,
    }
}

/// What makes an ogre.
pub open spec fn ogre_stats() -> UnitStats {
    UnitStats {
        render_sprite: RenderSprite::Ogre,
        size: 40,
        rotation_speed: 90,
        speed: 30,
        seek_range: 200,
        melee_ability: MeleeAbility {
            range: 10,
            motion_buffer_range: 3,
            time_to_strike: 1200,
            cooldown: 340,
        },
        power: 13,
        max_hp: 250,
    }
}

/// A fresh unit of the given type: at rest at `position`, looking along
/// the x axis, in full health, seeking enemies, ready to attack, without
/// orders.
pub open spec fn fresh_unit(stats: UnitStats, team: Team, position: Position) -> UnitView {
    UnitView {
        size: UnitSize(stats.size),
        transform: Transform { translation: position, facing: Position { x: 1, y: 0 } },
        render_sprite: stats.render_sprite,
        mover: Mover { target_position: position, is_target_reached: true },
        rotate_before_move: Some(RotateBeforeMove { rotation_speed: stats.rotation_speed }),
        speed: Speed { speed: stats.speed },
        velocity: Velocity::zero(),
        turn: None,
        team,
        ai_unit: AIUnit::SeekEnemy,
        seek_enemy_range: SeekEnemyRange { range: stats.seek_range },
        melee_ability: stats.melee_ability,
        melee_ability_state: MeleeAbilityState::Ready,
        offensive_stats: OffensiveStats { power: stats.power },
        health: Health { max_hp: stats.max_hp, current_hp: stats.max_hp },
        suffer_damage: Seq::empty(),
        orders: OrdersView { queue: Seq::empty(), override_order: None },
    }
}

/// Makes a fresh unit of the given type.
pub fn create_unit(stats: UnitStats, team: Team, position: Position) -> (u: UnitBundle)
    ensures
        u@ == fresh_unit(stats, team, position),
{
    UnitBundle {
        size: UnitSize(stats.size),
        transform: Transform::from_translation(position),
        render_sprite: stats.render_sprite,
        mover: Mover::new(position),
        rotate_before_move: Some(RotateBeforeMove { rotation_speed: stats.rotation_speed }),
        speed: Speed { speed: stats.speed },
        velocity: Velocity::zero(),
        turn: None,
        team,
        ai_unit: AIUnit::SeekEnemy,
        seek_enemy_range: SeekEnemyRange { range: stats.seek_range },
        melee_ability: stats.melee_ability,
        melee_ability_state: MeleeAbilityState::Ready,
        offensive_stats: OffensiveStats { power: stats.power },
        health: Health { max_hp: stats.max_hp, current_hp: stats.max_hp },
        suffer_damage: SufferDamage::new(),
        orders: Orders::new(),
    }
}

/// A bandit: slow to strike, long of reach.
pub fn create_bandit_unit(team: Team, position: Position) -> (u: UnitBundle)
    ensures
        u@ == fresh_unit(bandit_stats(), team, position),
{
    create_unit(
        UnitStats {
            render_sprite: RenderSprite::Bandit,
            size: 20,
            rotation_speed: 700,
            speed: 80,
            seek_range: 200,
            melee_ability: MeleeAbility {
                range: 100,
                motion_buffer_range: 3,
                time_to_strike: 400,
                cooldown: 200,
            },
            power: 4,
            max_hp: 10,
        },
        team,
        position,
    )
}

/// A goblin: quick, weak, short of reach.
pub fn create_goblin_unit(team: Team, position: Position) -> (u: UnitBundle)
    ensures
        u@ == fresh_unit(goblin_stats(), team, position),
{
    create_unit(
        UnitStats {
            render_sprite: RenderSprite::Goblin,
            size: 20,
            rotation_speed: 720,
            speed: 120,
            seek_range: 200,
            melee_ability: MeleeAbility {
                range: 5,
                motion_buffer_range: 3,
                time_to_strike: 200,
                cooldown: 200,
            },
            power: 2,
            max_hp: 20,
        },
        team,
        position,
    )
}

/// An ogre: big, slow, strong.
pub fn create_ogre_unit(team: Team, position: Position) -> (u: UnitBundle)
    ensures
        u@ == fresh_unit(ogre_stats(), team, position),
{
    create_unit(
        UnitStats {
            render_sprite: RenderSprite::Ogre,
            size: 40,
            rotation_speed: 90,
            speed: 30,
            seek_range: 200,
            melee_ability: MeleeAbility {
                range: 10,
                motion_buffer_range: 3,
                time_to_strike: 1200,
                cooldown: 340,
            },
            power: 13,
            max_hp: 250,
        },
        team,
        position,
    )
}

/// Goblins and bandits stand in rows of this many.
pub const ROW_LENGTH: usize = 5;

/// World units between the units of a row.
pub const ROW_SPACING: i32 = 40;

/// The x of the `i`-th unit of a row centred on `centre`.
pub open spec fn row_x(centre: int, i: int) -> int {
    centre + i * ROW_SPACING - 100
}

/// The goblins of the opening: a row of team 0 on the world's origin.
pub open spec fn opening_goblins() -> Seq<Option<UnitView>> {
    Seq::new(
        ROW_LENGTH as nat,
        |i: int|
            Some(
                fresh_unit(
                    goblin_stats(),
                    Team { id: 0 },
                    Position { x: row_x(0, i) as i32, y: 0 },
                ),
            ),
    )
}

/// The bandits of the opening: a row of team 2 on the map's starting tile,
/// if it has one.
pub open spec fn opening_bandits(start: Option<(usize, usize)>) -> Seq<Option<UnitView>> {
    match start {
        Some(tile) => Seq::new(
            ROW_LENGTH as nat,
            |i: int|
                Some(
                    fresh_unit(
                        bandit_stats(),
                        Team { id: 2 },
                        Position {
                            x: row_x(crate::map::real_at(tile.0 as int), i) as i32,
                            y: crate::map::real_at(tile.1 as int) as i32,
                        },
                    ),
                ),
        ),
        None => Seq::empty(),
    }
}

/// The ogre of the opening: alone, of team 1.
pub open spec fn opening_ogre() -> Seq<Option<UnitView>> {
    seq![Some(fresh_unit(ogre_stats(), Team { id: 1 }, Position { x: -50i32, y: -300i32 }))]
}

/// Puts the units of the opening into the world: five goblins, five bandits
/// on the map's starting tile if there is one, and an ogre.
pub fn create_units(world: &mut World, start: Option<(usize, usize)>)
    requires
        start matches Some(tile) ==> tile.0 < crate::map::MAX_TILE_INDEX && tile.1
            <= crate::map::MAX_TILE_INDEX,
    ensures
        final(world)@ == old(world)@ + opening_goblins() + opening_bandits(start) + opening_ogre(),
{
    let ghost before = world@;
    let mut i: usize = 0;
    while i < ROW_LENGTH
        invariant
            i <= ROW_LENGTH,
            world@.len() == before.len() + i,
            forall|j: int| 0 <= j < before.len() ==> world@[j] == before[j],
            forall|j: int| 0 <= j < i ==> world@[before.len() + j] == opening_goblins()[j],
        decreases ROW_LENGTH - i,
    {
        let x: i32 = (i as i32) * ROW_SPACING - 100;
        let _ = world.spawn(create_goblin_unit(Team { id: 0 }, Position { x, y: 0 }));
        i += 1;
    }
    assert(world@ =~= before + opening_goblins());
    let ghost with_goblins = world@;
    if let Some(tile) = start {
        let centre: Position = crate::map::WorldMap::real_position_at(tile.0, tile.1);
        let mut i: usize = 0;
        while i < ROW_LENGTH
            invariant
                i <= ROW_LENGTH,
                start == Some(tile),
                tile.0 < crate::map::MAX_TILE_INDEX,
                centre.x == crate::map::real_at(tile.0 as int),
                centre.y == crate::map::real_at(tile.1 as int),
                world@.len() == with_goblins.len() + i,
                forall|j: int| 0 <= j < with_goblins.len() ==> world@[j] == with_goblins[j],
                forall|j: int|
                    0 <= j < i ==> world@[with_goblins.len() + j] == opening_bandits(start)[j],
            decreases ROW_LENGTH - i,
        {
            let x: i32 = centre.x + ((i as i32) * ROW_SPACING - 100);
            let _ = world.spawn(create_bandit_unit(Team { id: 2 }, Position { x, y: centre.y }));
            i += 1;
        }
    }
    assert(world@ =~= with_goblins + opening_bandits(start));
    let ghost with_bandits = world@;
    let _ = world.spawn(create_ogre_unit(Team { id: 1 }, Position { x: -50, y: -300 }));
    assert(world@ =~= with_bandits + opening_ogre());
    assert(world@ =~= before + opening_goblins() + opening_bandits(start) + opening_ogre());
}

// ---------------------------------------------------------------------------
// Target choice
// ---------------------------------------------------------------------------
/// `other` is a living unit of another team, at most `range` away from
/// `position`.
pub open spec fn enemy_in_sight(
    team: Team,
    position: Position,
    range: u32,
    other: Option<Attackable>,
) -> bool {
    other matches Some(a) && a.team.id != team.id && within(position, a.position, range as int)
}

/// Slot `i` holds the enemy to attack: it is in sight, no enemy in sight is
/// closer, and those before it in slot order are strictly farther.
pub open spec fn is_closest_enemy(
    team: Team,
    position: Position,
    range: u32,
    others: Seq<Option<Attackable>>,
    i: int,
) -> bool {
    &&& 0 <= i < others.len()
    &&& enemy_in_sight(team, position, range, others[i])
    &&& forall|j: int|
        0 <= j < others.len() && #[trigger] enemy_in_sight(team, position, range, others[j])
            ==> dist2(position, others[i]->0.position) <= dist2(position, others[j]->0.position)
    &&& forall|j: int|
        0 <= j < i && #[trigger] enemy_in_sight(team, position, range, others[j]) ==> dist2(
            position,
            others[i]->0.position,
        ) < dist2(position, others[j]->0.position)
}

/// The enemy a seeking unit picks: the closest one in sight, the first in
/// slot order among equally close ones; nothing if no enemy is in sight.
pub open spec fn closest_enemy(
    team: Team,
    position: Position,
    range: u32,
    others: Seq<Option<Attackable>>,
) -> Option<Entity> {
    if exists|i: int| is_closest_enemy(team, position, range, others, i) {
        let i = choose|i: int| is_closest_enemy(team, position, range, others, i);
        Some(Entity { index: i as usize })
    } else {
        None
    }
}

/// At most one slot holds the closest enemy.
pub proof fn lemma_closest_enemy_unique(
    team: Team,
    position: Position,
    range: u32,
    others: Seq<Option<Attackable>>,
    i: int,
    j: int,
)
    requires
        is_closest_enemy(team, position, range, others, i),
        is_closest_enemy(team, position, range, others, j),
    ensures
        i == j,
{
}

/// Where an enemy is in sight, one of the enemies in sight is the closest.
pub proof fn lemma_closest_enemy_exists(
    team: Team,
    position: Position,
    range: u32,
    others: Seq<Option<Attackable>>,
)
    requires
        others.len() <= usize::MAX,
    ensures
        closest_enemy(team, position, range, others) is Some <==> exists|j: int|
            0 <= j < others.len() && enemy_in_sight(team, position, range, others[j]),
        closest_enemy(team, position, range, others) matches Some(e) ==> is_closest_enemy(
            team,
            position,
            range,
            others,
            e.index as int,
        ),
    decreases others.len(),
{
    if closest_enemy(team, position, range, others) is Some {
        let i = choose|i: int| is_closest_enemy(team, position, range, others, i);
        assert(0 <= i < others.len() && enemy_in_sight(team, position, range, others[i]));
    }
    if exists|j: int| 0 <= j < others.len() && enemy_in_sight(team, position, range, others[j]) {
        let last = others.len() - 1;
        let before = others.drop_last();
        assert(forall|j: int| 0 <= j < last ==> before[j] == others[j]);
        lemma_closest_enemy_exists(team, position, range, before);
        match closest_enemy(team, position, range, before) {
            Some(e) => {
                let b = e.index as int;
                assert(is_closest_enemy(team, position, range, before, b));
                if enemy_in_sight(team, position, range, others[last]) && dist2(
                    position,
                    others[last]->0.position,
                ) < dist2(position, others[b]->0.position) {
                    assert(is_closest_enemy(team, position, range, others, last));
                } else {
                    assert(is_closest_enemy(team, position, range, others, b));
                }
            },
            None => {
                assert(forall|j: int|
                    0 <= j < last ==> !enemy_in_sight(team, position, range, before[j]));
                assert(is_closest_enemy(team, position, range, others, last));
            },
        }
    }
}

/// Scans `others` for the enemy that a unit of `team` at `position` attacks.
pub fn find_closest_enemy(
    team: &Team,
    position: &Position,
    range: u32,
    others: &Vec<Option<Attackable>>,
) -> (r: Option<Entity>)
    ensures
        r == closest_enemy(*team, *position, range, others@),
        r matches Some(e) ==> is_closest_enemy(*team, *position, range, others@, e.index as int),
        r is None ==> forall|j: int|
            0 <= j < others@.len() ==> !enemy_in_sight(*team, *position, range, others@[j]),
{
    let n: usize = others.len();
    let mut best: Option<usize> = None;
    let mut best_d2: u128 = 0;
    let mut i: usize = 0;
    while i < n
        invariant
            i <= n,
            n == others@.len(),
            best is None ==> forall|j: int|
                0 <= j < i ==> !enemy_in_sight(*team, *position, range, others@[j]),
            best matches Some(b) ==> {
                &&& b < i
                &&& is_closest_enemy(*team, *position, range, others@.take(i as int), b as int)
                &&& best_d2 == dist2(*position, others@[b as int]->0.position)
            },
        decreases n - i,
    {
        let ghost seen = others@.take(i as int);
        let ghost next = others@.take(i + 1);
        assert(forall|j: int| 0 <= j < i ==> seen[j] == others@[j] && next[j] == others@[j]);
        assert(next[i as int] == others@[i as int]);
        match &others[i] {
            Some(a) => {
                if a.team.id != team.id && position.is_within(&a.position, range as u64) {
                    let d2: u128 = position.distance_squared(&a.position);
                    let closer: bool = match best {
                        None => true,
                        Some(_) => d2 < best_d2,
                    };
                    if closer {
                        best = Some(i);
                        best_d2 = d2;
                    }
                }
            },
            None => {},
        }
        i += 1;
    }
    assert(others@.take(n as int) =~= others@);
    match best {
        Some(b) => {
            proof {
                let found = choose|k: int| is_closest_enemy(*team, *position, range, others@, k);
                lemma_closest_enemy_unique(*team, *position, range, others@, found, b as int);
            }
            Some(Entity { index: b })
        },
        None => None,
    }
}

/// What a unit that attacks `attack.target` does this tick, `target` being
/// what the handle resolves to.
///
/// A target that is gone, one out of sight that is not to be chased, and a
/// strike just broken off by the target's motion all send the unit back to
/// seeking. A target within reach makes a ready unit halt and begin its
/// attack. Any other target is walked towards: the unit's override is set to
/// where the target stands on every cycle, whether or not the target has
/// moved, and the order cycle makes nothing of an override that says what
/// the last one said.
pub open spec fn engage(u: UnitView, attack: Attack, target: Option<Attackable>, now: u64) -> UnitView {
    let here = u.transform.translation;
    match target {
        None => UnitView { ai_unit: AIUnit::SeekEnemy, ..u },
        Some(t) => if !attack.chase_when_target_too_far && !within(
            here,
            t.position,
            u.seek_enemy_range.range as int,
        ) {
            UnitView { ai_unit: AIUnit::SeekEnemy, ..u }
        } else if u.melee_ability_state is MotionBufferExceeded
            && !attack.chase_when_target_too_far {
            UnitView { ai_unit: AIUnit::SeekEnemy, ..u }
        } else if within(here, t.position, u.melee_ability.range + u.size.0 + t.size.0) {
            if u.melee_ability_state is Ready {
                UnitView {
                    orders: OrdersView {
                        override_order: Some(Order::Move(Awaitable::Queued(Mover::to_target(here)))),
                        ..u.orders
                    },
                    melee_ability_state: MeleeAbilityState::WillAttack(
                        MeleeAbilityStateWillAttack { start_time: now, target_entity: attack.target },
                    ),
                    ..u
                }
            } else {
                u
            }
        } else {
            UnitView {
                orders: OrdersView {
                    override_order: Some(
                        Order::Move(Awaitable::Queued(Mover::to_target(t.position))),
                    ),
                    ..u.orders
                },
                ..u
            }
        },
    }
}

/// The behaviour of a unit after it has looked for enemies: a seeking unit
/// with an enemy in sight attacks the closest one, without chasing.
pub open spec fn sought(u: UnitView, others: Seq<Option<Attackable>>) -> AIUnit {
    if u.ai_unit is SeekEnemy {
        match closest_enemy(u.team, u.transform.translation, u.seek_enemy_range.range, others) {
            Some(target) => AIUnit::Attack(Attack { target, chase_when_target_too_far: false }),
            None => AIUnit::SeekEnemy,
        }
    } else {
        u.ai_unit
    }
}

/// One decision cycle of one unit. Passive units and units preparing a
/// strike decide nothing.
pub open spec fn ai_decide(u: UnitView, others: Seq<Option<Attackable>>, now: u64) -> UnitView {
    if u.ai_unit is Passive || u.melee_ability_state is WillAttack {
        u
    } else {
        match sought(u, others) {
            AIUnit::Attack(attack) => engage(
                UnitView { ai_unit: AIUnit::Attack(attack), ..u },
                attack,
                lookup(others, attack.target),
                now,
            ),
            other => UnitView { ai_unit: other, ..u },
        }
    }
}

/// Resolves a handle among `others`.
pub fn resolve(others: &Vec<Option<Attackable>>, e: Entity) -> (r: Option<Attackable>)
    ensures
        r == lookup(others@, e),
{
    if e.index < others.len() {
        others[e.index]
    } else {
        None
    }
}

/// Runs one decision cycle on `unit`, `others` being the battlefield as the
/// unit sees it and `now` the time in milliseconds.
pub fn decide(unit: &mut UnitBundle, others: &Vec<Option<Attackable>>, now: u64)
    ensures
        final(unit)@ == ai_decide(old(unit)@, others@, now),
{
    if let AIUnit::Passive = unit.ai_unit {
        return ;
    }
    if let MeleeAbilityState::WillAttack(_) = unit.melee_ability_state {
        return ;
    }
    let here: Position = unit.transform.translation;
    if let AIUnit::SeekEnemy = unit.ai_unit {
        if let Some(target) = find_closest_enemy(
            &unit.team,
            &here,
            unit.seek_enemy_range.range,
            others,
        ) {
            unit.ai_unit = AIUnit::Attack(Attack { target, chase_when_target_too_far: false });
        }
    }
    assert(unit.ai_unit == sought(old(unit)@, others@));
    if let AIUnit::Attack(attack) = unit.ai_unit {
        match resolve(others, attack.target) {
            None => {
                unit.ai_unit = AIUnit::SeekEnemy;
            },
            Some(t) => {
                if !attack.chase_when_target_too_far && !here.is_within(
                    &t.position,
                    unit.seek_enemy_range.range as u64,
                ) {
                    unit.ai_unit = AIUnit::SeekEnemy;
                    return ;
                }
                if let MeleeAbilityState::MotionBufferExceeded = unit.melee_ability_state {
                    if !attack.chase_when_target_too_far {
                        unit.ai_unit = AIUnit::SeekEnemy;
                        return ;
                    }
                }
                let reach: u64 = unit.melee_ability.range as u64 + unit.size.0 as u64
                    + t.size.0 as u64;
                if here.is_within(&t.position, reach) {
                    if let MeleeAbilityState::Ready = unit.melee_ability_state {
                        unit.orders.override_order = Some(
                            Order::Move(Awaitable::Queued(Mover::new_to_target(here))),
                        );
                        unit.melee_ability_state = MeleeAbilityState::WillAttack(
                            MeleeAbilityStateWillAttack {
                                start_time: now,
                                target_entity: attack.target,
                            },
                        );
                    }
                } else {
                    unit.orders.override_order = Some(
                        Order::Move(Awaitable::Queued(Mover::new_to_target(t.position))),
                    );
                }
            },
        }
    }
}

/// A slot of the world after one decision cycle.
pub open spec fn ai_slot(slot: Option<UnitView>, others: Seq<Option<Attackable>>, now: u64) -> Option<
    UnitView,
> {
    match slot {
        Some(u) => Some(ai_decide(u, others, now)),
        None => None,
    }
}

/// The world after one decision cycle: every living unit has decided, each
/// seeing the battlefield as it was when the cycle began.
pub open spec fn ai_world(w: Seq<Option<UnitView>>, now: u64) -> Seq<Option<UnitView>> {
    Seq::new(w.len(), |i: int| ai_slot(w[i], snapshot(w), now))
}

/// The decision cycle: every unit that is neither passive nor preparing a
/// strike picks or drops its target and tells its order slot where to go.
pub fn ai_system(world: &mut World, now: u64)
    ensures
        final(world)@ == ai_world(old(world)@, now),
{
    let others: Vec<Option<Attackable>> = world.attackables();
    let n: usize = world.units.len();
    let mut i: usize = 0;
    while i < n
        invariant
            i <= n,
            n == world.units@.len(),
            n == old(world)@.len(),
            others@ == snapshot(old(world)@),
            forall|j: int| 0 <= j < i ==> world@[j] == ai_slot(old(world)@[j], others@, now),
            forall|j: int| i <= j < n ==> world@[j] == old(world)@[j],
        decreases n - i,
    {
        let ghost before = world.units@;
        let ghost before_view = world@;
        assert(forall|j: int| 0 <= j < n ==> before_view[j] == slot_view(before[j]));
        match &mut world.units[i] {
            Some(u) => {
                decide(u, &others, now);
            },
            None => {},
        }
        assert(forall|j: int| 0 <= j < n && j != i ==> world.units@[j] == before[j]);
        assert(slot_view(world.units@[i as int]) == ai_slot(
            slot_view(before[i as int]),
            others@,
            now,
        ));
        assert forall|j: int| 0 <= j < n implies world@[j] == (if j == i {
            ai_slot(before_view[j], others@, now)
        } else {
            before_view[j]
        }) by {
            assert(world@[j] == slot_view(world.units@[j]));
        }
        i += 1;
    }
    assert(world@ =~= ai_world(old(world)@, now));
}

// ---------------------------------------------------------------------------
// Melee combat
// ---------------------------------------------------------------------------
/// `delay` milliseconds have passed since `start`.
pub open spec fn elapsed(now: u64, start: u64, delay: u64) -> bool {
    now >= start + delay
}

/// Whether `delay` milliseconds have passed since `start`.
pub fn has_elapsed(now: u64, start: u64, delay: u64) -> (r: bool)
    ensures
        r == elapsed(now, start, delay),
{
    start <= now && now - start >= delay
}

/// The target has moved out of the reach of a strike in preparation: it is
/// farther than range and motion buffer together, rim to rim.
pub open spec fn out_of_buffer(
    ability: MeleeAbility,
    here: Position,
    size: UnitSize,
    target: Attackable,
) -> bool {
    !within(
        here,
        target.position,
        ability.range + ability.motion_buffer_range + size.0 + target.size.0,
    )
}

/// Whether the unit lands its strike in this cycle: it is preparing one, its
/// target lives and is within range and buffer, and the time to strike has
/// passed.
pub open spec fn melee_strikes(
    state: MeleeAbilityState,
    ability: MeleeAbility,
    here: Position,
    size: UnitSize,
    target: Option<Attackable>,
    now: u64,
) -> bool {
    &&& state matches MeleeAbilityState::WillAttack(attack)
    &&& target matches Some(t)
    &&& !out_of_buffer(ability, here, size, t)
    &&& elapsed(now, attack.start_time, ability.time_to_strike)
}

/// The state of the melee machine after one cycle. `target` is what the
/// handle of an attack in preparation resolves to.
pub open spec fn melee_next(
    state: MeleeAbilityState,
    ability: MeleeAbility,
    here: Position,
    size: UnitSize,
    target: Option<Attackable>,
    now: u64,
) -> MeleeAbilityState {
    match state {
        MeleeAbilityState::Ready => MeleeAbilityState::Ready,
        MeleeAbilityState::WillAttack(attack) => match target {
            None => MeleeAbilityState::Ready,
            Some(t) => if out_of_buffer(ability, here, size, t) {
                MeleeAbilityState::MotionBufferExceeded
            } else if elapsed(now, attack.start_time, ability.time_to_strike) {
                MeleeAbilityState::AttackCooldown(MeleeAbilityStateCooldown { start_time: now })
            } else {
                state
            },
        },
        MeleeAbilityState::MotionBufferExceeded => MeleeAbilityState::Ready,
        MeleeAbilityState::AttackCooldown(cooldown) => if elapsed(
            now,
            cooldown.start_time,
            ability.cooldown,
        ) {
            MeleeAbilityState::Ready
        } else {
            state
        },
    }
}

/// Advances the melee machine of one unit by one cycle and says whether the
/// unit strikes. `target` must be what the handle of an attack in
/// preparation resolves to; for the other states it is not looked at.
pub fn attack_melee(
    state: &mut MeleeAbilityState,
    ability: &MeleeAbility,
    here: Position,
    size: UnitSize,
    target: Option<Attackable>,
    now: u64,
) -> (strike: bool)
    ensures
        *final(state) == melee_next(*old(state), *ability, here, size, target, now),
        strike == melee_strikes(*old(state), *ability, here, size, target, now),
{
    match *state {
        MeleeAbilityState::Ready => false,
        MeleeAbilityState::WillAttack(attack) => {
            match target {
                None => {
                    *state = MeleeAbilityState::Ready;
                    false
                },
                Some(t) => {
                    let reach: u64 = ability.range as u64 + ability.motion_buffer_range as u64
                        + size.0 as u64 + t.size.0 as u64;
                    if !here.is_within(&t.position, reach) {
                        *state = MeleeAbilityState::MotionBufferExceeded;
                        false
                    } else if has_elapsed(now, attack.start_time, ability.time_to_strike) {
                        *state = MeleeAbilityState::AttackCooldown(
                            MeleeAbilityStateCooldown { start_time: now },
                        );
                        true
                    } else {
                        false
                    }
                },
            }
        },
        MeleeAbilityState::MotionBufferExceeded => {
            *state = MeleeAbilityState::Ready;
            false
        },
        MeleeAbilityState::AttackCooldown(cooldown) => {
            if has_elapsed(now, cooldown.start_time, ability.cooldown) {
                *state = MeleeAbilityState::Ready;
            }
            false
        },
    }
}

/// The handle that the melee machine of a unit looks up, if any.
pub open spec fn melee_target(state: MeleeAbilityState) -> Option<Entity> {
    match state {
        MeleeAbilityState::WillAttack(attack) => Some(attack.target_entity),
        _ => None,
    }
}

/// What the melee machine of `u` sees of its target in the world `w`.
pub open spec fn melee_sight(w: Seq<Option<UnitView>>, u: UnitView) -> Option<Attackable> {
    match melee_target(u.melee_ability_state) {
        Some(e) => lookup(snapshot(w), e),
        None => None,
    }
}

/// The unit in slot `i` strikes the unit in slot `victim` in this cycle.
pub open spec fn strike_on(w: Seq<Option<UnitView>>, i: int, victim: int, now: u64) -> bool {
    &&& 0 <= i < w.len()
    &&& w[i] matches Some(u)
    &&& melee_target(u.melee_ability_state) matches Some(e)
    &&& e.index == victim
    &&& melee_strikes(
        u.melee_ability_state,
        u.melee_ability,
        u.transform.translation,
        u.size,
        melee_sight(w, u),
        now,
    )
}

/// The damage that the units in the slots before `upto` deal to `victim` in
/// this cycle, in slot order.
pub open spec fn damage_received(
    w: Seq<Option<UnitView>>,
    victim: int,
    upto: int,
    now: u64,
) -> Seq<u32>
    decreases upto,
{
    if upto <= 0 {
        Seq::empty()
    } else if strike_on(w, upto - 1, victim, now) {
        damage_received(w, victim, upto - 1, now).push(w[upto - 1]->0.offensive_stats.power)
    } else {
        damage_received(w, victim, upto - 1, now)
    }
}

/// Slot `i` after the first `done` units of `w` have had their melee cycle.
pub open spec fn melee_slot(w: Seq<Option<UnitView>>, i: int, done: int, now: u64) -> Option<
    UnitView,
> {
    match w[i] {
        None => None,
        Some(u) => Some(
            UnitView {
                melee_ability_state: if i < done {
                    melee_next(
                        u.melee_ability_state,
                        u.melee_ability,
                        u.transform.translation,
                        u.size,
                        melee_sight(w, u),
                        now,
                    )
                } else {
                    u.melee_ability_state
                },
                suffer_damage: u.suffer_damage + damage_received(w, i, done, now),
                ..u
            },
        ),
    }
}

/// The world after one melee cycle: every machine has advanced by one step,
/// and every strike has left its power in the pending damage of its victim.
pub open spec fn melee_world(w: Seq<Option<UnitView>>, now: u64) -> Seq<Option<UnitView>> {
    Seq::new(w.len(), |i: int| melee_slot(w, i, w.len() as int, now))
}

/// The melee cycle over all units.
pub fn attack_melee_system(world: &mut World, now: u64)
    ensures
        final(world)@ == melee_world(old(world)@, now),
{
    let others: Vec<Option<Attackable>> = world.attackables();
    let n: usize = world.units.len();
    let ghost w = world@;
    assert forall|j: int| 0 <= j < n implies #[trigger] world@[j] == melee_slot(w, j, 0, now) by {
        match w[j] {
            Some(u) => {
                assert(u.suffer_damage + damage_received(w, j, 0, now) =~= u.suffer_damage);
            },
            None => {},
        }
    }
    let mut i: usize = 0;
    while i < n
        invariant
            i <= n,
            n == world.units@.len(),
            n == w.len(),
            w == old(world)@,
            others@ == snapshot(w),
            forall|j: int| 0 <= j < n ==> #[trigger] world@[j] == melee_slot(w, j, i as int, now),
        decreases n - i,
    {
        let ghost before = world.units@;
        let ghost before_view = world@;
        assert(forall|j: int| 0 <= j < n ==> before_view[j] == slot_view(before[j]));
        assert(before_view[i as int] == melee_slot(w, i as int, i as int, now));
        let mut hit: Option<(usize, u32)> = None;
        match &mut world.units[i] {
            Some(u) => {
                let aimed: Option<Entity> = match u.melee_ability_state {
                    MeleeAbilityState::WillAttack(attack) => Some(attack.target_entity),
                    _ => None,
                };
                let target: Option<Attackable> = match aimed {
                    Some(e) => resolve(&others, e),
                    None => None,
                };
                assert(aimed == melee_target(w[i as int]->0.melee_ability_state));
                assert(target == melee_sight(w, w[i as int]->0));
                let strike: bool = attack_melee(
                    &mut u.melee_ability_state,
                    &u.melee_ability,
                    u.transform.translation,
                    u.size,
                    target,
                    now,
                );
                if strike {
                    if let Some(e) = aimed {
                        hit = Some((e.index, u.offensive_stats.power));
                    }
                }
            },
            None => {},
        }
        let ghost middle = world.units@;
        assert(forall|j: int| 0 <= j < n && j != i ==> middle[j] == before[j]);
        assert(forall|v: int|
            strike_on(w, i as int, v, now) <==> (hit matches Some(h) && h.0 == v && h.1 == w[i as int]->0.offensive_stats.power));
        if let Some((v, power)) = hit {
            assert(v < n);
            match &mut world.units[v] {
                Some(t) => {
                    t.suffer_damage.new_damage(power);
                },
                None => {},
            }
        }
        assert forall|j: int| 0 <= j < n implies #[trigger] world@[j] == melee_slot(
            w,
            j,
            i + 1,
            now,
        ) by {
            assert(world@[j] == slot_view(world.units@[j]));
            assert(before_view[j] == melee_slot(w, j, i as int, now));
            match w[j] {
                Some(u) => {
                    let got = damage_received(w, j, i as int, now);
                    if strike_on(w, i as int, j, now) {
                        assert((u.suffer_damage + got).push(w[i as int]->0.offensive_stats.power)
                            =~= u.suffer_damage + got.push(w[i as int]->0.offensive_stats.power));
                    }
                },
                None => {},
            }
        }
        i += 1;
    }
    assert(world@ =~= melee_world(w, now));
}

// ---------------------------------------------------------------------------
// Health
// ---------------------------------------------------------------------------
/// The sum of pending damage.
pub open spec fn total_damage(damage: Seq<u32>) -> int
    decreases damage.len(),
{
    if damage.len() == 0 {
        0
    } else {
        total_damage(damage.drop_last()) + damage.last()
    }
}

/// Hit points after all of `damage` is taken off. They may go below zero;
/// they stop at the least value an `i64` holds.
pub open spec fn hp_after(hp: i64, damage: Seq<u32>) -> i64 {
    if hp - total_damage(damage) < i64::MIN {
        i64::MIN
    } else {
        (hp - total_damage(damage)) as i64
    }
}

/// Damage never heals.
pub proof fn lemma_total_damage_not_negative(damage: Seq<u32>)
    ensures
        total_damage(damage) >= 0,
    decreases damage.len(),
{
    if damage.len() > 0 {
        lemma_total_damage_not_negative(damage.drop_last());
    }
}

impl Health {
    /// Takes all pending damage off the hit points and empties the list, so
    /// that no hit counts twice.
    pub fn take_damage(&mut self, suffer_damage: &mut SufferDamage)
        ensures
            final(self).max_hp == old(self).max_hp,
            final(self).current_hp == hp_after(old(self).current_hp, old(suffer_damage).amount@),
            final(suffer_damage).amount@ == Seq::<u32>::empty(),
    {
        while suffer_damage.amount.len() > 0
            invariant
                self.max_hp == old(self).max_hp,
                hp_after(self.current_hp, suffer_damage.amount@) == hp_after(
                    old(self).current_hp,
                    old(suffer_damage).amount@,
                ),
            decreases suffer_damage.amount.len(),
        {
            let ghost pending = suffer_damage.amount@;
            let hit: Option<u32> = suffer_damage.amount.pop();
            proof {
                assert(suffer_damage.amount@ =~= pending.drop_last());
                lemma_total_damage_not_negative(suffer_damage.amount@);
            }
            if let Some(d) = hit {
                if self.current_hp < i64::MIN + d as i64 {
                    self.current_hp = i64::MIN;
                } else {
                    self.current_hp = self.current_hp - d as i64;
                }
            }
        }
        assert(suffer_damage.amount@ =~= Seq::<u32>::empty());
    }
}

/// A unit after health resolution: its pending damage is taken off its hit
/// points, and it is gone if none are left.
pub open spec fn health_resolved(u: UnitView) -> Option<UnitView> {
    let hp = hp_after(u.health.current_hp, u.suffer_damage);
    if hp <= 0 {
        None
    } else {
        Some(
            UnitView {
                health: Health { max_hp: u.health.max_hp, current_hp: hp },
                suffer_damage: Seq::empty(),
                ..u
            },
        )
    }
}

/// A slot of the world after health resolution.
pub open spec fn health_slot(slot: Option<UnitView>) -> Option<UnitView> {
    match slot {
        Some(u) => health_resolved(u),
        None => None,
    }
}

/// The world after health resolution.
pub open spec fn health_world(w: Seq<Option<UnitView>>) -> Seq<Option<UnitView>> {
    Seq::new(w.len(), |i: int| health_slot(w[i]))
}

/// The handles of the units among the first `upto` slots that health
/// resolution destroys, in slot order.
pub open spec fn destroyed(w: Seq<Option<UnitView>>, upto: int) -> Seq<Entity>
    decreases upto,
{
    if upto <= 0 {
        Seq::empty()
    } else if w[upto - 1] is Some && health_slot(w[upto - 1]) is None {
        destroyed(w, upto - 1).push(Entity { index: (upto - 1) as usize })
    } else {
        destroyed(w, upto - 1)
    }
}

/// Health resolution over all units. Returns the handles of the units it
/// destroyed.
pub fn health_system(world: &mut World) -> (gone: Vec<Entity>)
    ensures
        final(world)@ == health_world(old(world)@),
        gone@ == destroyed(old(world)@, old(world)@.len() as int),
{
    let mut gone: Vec<Entity> = Vec::new();
    let n: usize = world.units.len();
    let ghost w = world@;
    let mut i: usize = 0;
    while i < n
        invariant
            i <= n,
            n == world.units@.len(),
            n == w.len(),
            w == old(world)@,
            forall|j: int| 0 <= j < i ==> #[trigger] world@[j] == health_slot(w[j]),
            forall|j: int| i <= j < n ==> #[trigger] world@[j] == w[j],
            gone@ == destroyed(w, i as int),
        decreases n - i,
    {
        let ghost before = world.units@;
        let ghost before_view = world@;
        assert(forall|j: int| 0 <= j < n ==> before_view[j] == slot_view(before[j]));
        assert(before_view[i as int] == w[i as int]);
        let mut dead: bool = false;
        match &mut world.units[i] {
            Some(u) => {
                u.health.take_damage(&mut u.suffer_damage);
                dead = u.health.current_hp <= 0;
            },
            None => {},
        }
        if dead {
            world.units.set(i, None);
            gone.push(Entity { index: i });
        }
        assert forall|j: int| 0 <= j < n implies #[trigger] world@[j] == (if j == i {
            health_slot(w[j])
        } else {
            before_view[j]
        }) by {
            assert(world@[j] == slot_view(world.units@[j]));
        }
        i += 1;
    }
    assert(world@ =~= health_world(w));
    gone
}

// ---------------------------------------------------------------------------
// The tick
// ---------------------------------------------------------------------------
/// The world after one tick: orders are executed, units decide, strikes are
/// prepared and land, units are steered, and damage is taken off. `now` is
/// the time in milliseconds, `dt` the length of the tick.
pub open spec fn tick_world(w: Seq<Option<UnitView>>, now: u64, dt: u32) -> Seq<Option<UnitView>> {
    health_world(steered_world(w, now, dt))
}

/// The world of a tick just before damage is taken off.
pub open spec fn steered_world(w: Seq<Option<UnitView>>, now: u64, dt: u32) -> Seq<Option<UnitView>> {
    crate::physics::mover_world(
        melee_world(ai_world(crate::orders::orders_world(w), now), now),
        dt,
    )
}

/// Runs the systems of one tick in their order, for a driver that has no
/// schedule of its own. Returns the handles of the units destroyed in this
/// tick.
pub fn run_tick(world: &mut World, now: u64, dt: u32) -> (gone: Vec<Entity>)
    ensures
        final(world)@ == tick_world(old(world)@, now, dt),
        final(world)@.len() == old(world)@.len(),
        gone@ == destroyed(steered_world(old(world)@, now, dt), old(world)@.len() as int),
{
    crate::orders::order_system(world);
    ai_system(world, now);
    attack_melee_system(world, now);
    crate::physics::mover_update(world, dt);
    health_system(world)
}

// ---------------------------------------------------------------------------
// Laws
// ---------------------------------------------------------------------------
/// A strike lands exactly when an attack in preparation turns into a
/// cooldown, and the cooldown begins at that moment.
pub proof fn lemma_strike_is_the_end_of_preparation(
    state: MeleeAbilityState,
    ability: MeleeAbility,
    here: Position,
    size: UnitSize,
    target: Option<Attackable>,
    now: u64,
)
    ensures
        melee_strikes(state, ability, here, size, target, now) <==> (state is WillAttack
            && melee_next(state, ability, here, size, target, now) is AttackCooldown),
        melee_strikes(state, ability, here, size, target, now) ==> melee_next(
            state,
            ability,
            here,
            size,
            target,
            now,
        ) == MeleeAbilityState::AttackCooldown(MeleeAbilityStateCooldown { start_time: now }),
        melee_next(state, ability, here, size, target, now) is WillAttack ==> melee_next(
            state,
            ability,
            here,
            size,
            target,
            now,
        ) == state,
{
}

/// The melee machine never begins an attack by itself, and a machine that
/// is not preparing an attack does not strike. So after a strike the unit
/// strikes no more until its decision cycle begins a new attack: one
/// preparation, one strike.
pub proof fn lemma_no_second_strike(
    state: MeleeAbilityState,
    ability: MeleeAbility,
    here: Position,
    size: UnitSize,
    target: Option<Attackable>,
    now: u64,
    later_here: Position,
    later_target: Option<Attackable>,
    later: u64,
)
    requires
        melee_strikes(state, ability, here, size, target, now),
    ensures
        !melee_strikes(
            melee_next(state, ability, here, size, target, now),
            ability,
            later_here,
            size,
            later_target,
            later,
        ),
        !(melee_next(
            melee_next(state, ability, here, size, target, now),
            ability,
            later_here,
            size,
            later_target,
            later,
        ) is WillAttack),
{
}

/// What the units before `upto` deal to `victim` if only the unit in slot
/// `striker` strikes it: nothing before the striker's turn, one entry of the
/// striker's power after it.
pub proof fn lemma_one_striker(
    w: Seq<Option<UnitView>>,
    striker: int,
    victim: int,
    upto: int,
    now: u64,
)
    requires
        strike_on(w, striker, victim, now),
        forall|i: int| i != striker ==> !strike_on(w, i, victim, now),
        0 <= upto <= w.len(),
    ensures
        damage_received(w, victim, upto, now) == (if upto <= striker {
            Seq::<u32>::empty()
        } else {
            seq![w[striker]->0.offensive_stats.power]
        }),
    decreases upto,
{
    if upto > 0 {
        lemma_one_striker(w, striker, victim, upto - 1, now);
        if upto - 1 == striker {
            assert(Seq::<u32>::empty().push(w[striker]->0.offensive_stats.power)
                =~= seq![w[striker]->0.offensive_stats.power]);
        }
    }
}

/// One strike, one entry: in a melee cycle in which the unit in slot
/// `striker`, and no other, strikes the unit in slot `victim`, the pending
/// damage of the victim grows by exactly one entry, the power of the
/// striker, and the striker is left in its cooldown.
pub proof fn lemma_strike_lands_once(w: Seq<Option<UnitView>>, striker: int, victim: int, now: u64)
    requires
        strike_on(w, striker, victim, now),
        forall|i: int| i != striker ==> !strike_on(w, i, victim, now),
    ensures
        0 <= victim < w.len(),
        w[victim] is Some,
        melee_world(w, now)[victim] matches Some(v) && v.suffer_damage == w[victim]->0.suffer_damage.push(
            w[striker]->0.offensive_stats.power,
        ),
        melee_world(w, now)[striker] matches Some(s) && s.melee_ability_state
            == MeleeAbilityState::AttackCooldown(MeleeAbilityStateCooldown { start_time: now }),
{
    lemma_one_striker(w, striker, victim, w.len() as int, now);
    let u = w[striker]->0;
    assert(melee_sight(w, u) is Some);
    assert(lookup(snapshot(w), melee_target(u.melee_ability_state)->0) is Some);
    assert(snapshot(w)[victim] is Some);
    let power = u.offensive_stats.power;
    assert(w[victim]->0.suffer_damage + seq![power] =~= w[victim]->0.suffer_damage.push(power));
    assert(melee_world(w, now)[victim] == melee_slot(w, victim, w.len() as int, now));
    assert(melee_world(w, now)[striker] == melee_slot(w, striker, w.len() as int, now));
}

/// A melee cycle in which nobody strikes a unit leaves its pending damage
/// as it was.
pub proof fn lemma_no_striker(w: Seq<Option<UnitView>>, victim: int, upto: int, now: u64)
    requires
        forall|i: int| !strike_on(w, i, victim, now),
    ensures
        damage_received(w, victim, upto, now) == Seq::<u32>::empty(),
    decreases upto,
{
    if upto > 0 {
        lemma_no_striker(w, victim, upto - 1, now);
    }
}

/// Health resolution leaves no unit without hit points, and no damage
/// pending: a unit whose hit points are used up is gone, every other unit
/// keeps what is left.
pub proof fn lemma_health_resolution(w: Seq<Option<UnitView>>, i: int)
    requires
        0 <= i < w.len(),
    ensures
        health_world(w)[i] matches Some(u) ==> u.health.current_hp > 0 && u.suffer_damage.len()
            == 0,
        w[i] matches Some(u) ==> (health_world(w)[i] is None <==> hp_after(
            u.health.current_hp,
            u.suffer_damage,
        ) <= 0),
        w[i] matches Some(u) && u.suffer_damage.len() == 0 && u.health.current_hp > 0
            ==> health_world(w)[i] == w[i],
{
    match w[i] {
        Some(u) => {
            if u.suffer_damage.len() == 0 {
                assert(u.suffer_damage =~= Seq::<u32>::empty());
            }
        },
        None => {},
    }
}

/// A destroyed unit stays destroyed: no system puts anything into an empty
/// slot, so the handle of the unit resolves to nothing from then on, and no
/// system runs on it.
pub proof fn lemma_destroyed_stays_destroyed(w: Seq<Option<UnitView>>, e: Entity, now: u64, dt: u32)
    requires
        e.index < w.len(),
        w[e.index as int] is None,
    ensures
        crate::orders::orders_world(w)[e.index as int] is None,
        ai_world(w, now)[e.index as int] is None,
        melee_world(w, now)[e.index as int] is None,
        crate::physics::mover_world(w, dt)[e.index as int] is None,
        health_world(w)[e.index as int] is None,
        lookup(snapshot(w), e) is None,
        forall|victim: int| !strike_on(w, e.index as int, victim, now),
{
}

/// The world after several ticks; `clock` gives the time and the length of
/// each.
pub open spec fn ticks_world(w: Seq<Option<UnitView>>, clock: Seq<(u64, u32)>) -> Seq<
    Option<UnitView>,
>
    decreases clock.len(),
{
    if clock.len() == 0 {
        w
    } else {
        tick_world(ticks_world(w, clock.drop_last()), clock.last().0, clock.last().1)
    }
}

/// Once destroyed, a unit is gone for good: after any number of ticks its
/// slot is still empty, and every unit that is left has hit points.
pub proof fn lemma_destroyed_for_ever(w: Seq<Option<UnitView>>, e: Entity, clock: Seq<(u64, u32)>)
    requires
        e.index < w.len(),
        w[e.index as int] is None,
    ensures
        ticks_world(w, clock).len() == w.len(),
        ticks_world(w, clock)[e.index as int] is None,
        clock.len() > 0 ==> forall|i: int|
            0 <= i < w.len() ==> (#[trigger] ticks_world(w, clock)[i] matches Some(u)
                ==> u.health.current_hp > 0 && u.suffer_damage.len() == 0),
    decreases clock.len(),
{
    if clock.len() > 0 {
        let before = ticks_world(w, clock.drop_last());
        let now = clock.last().0;
        let dt = clock.last().1;
        lemma_destroyed_for_ever(w, e, clock.drop_last());
        let orders = crate::orders::orders_world(before);
        lemma_destroyed_stays_destroyed(before, e, now, dt);
        let decided = ai_world(orders, now);
        lemma_destroyed_stays_destroyed(orders, e, now, dt);
        let fought = melee_world(decided, now);
        lemma_destroyed_stays_destroyed(decided, e, now, dt);
        let steered = crate::physics::mover_world(fought, dt);
        lemma_destroyed_stays_destroyed(fought, e, now, dt);
        lemma_destroyed_stays_destroyed(steered, e, now, dt);
        assert forall|i: int| 0 <= i < w.len() implies (#[trigger] ticks_world(w, clock)[i] matches Some(
            u,
        ) ==> u.health.current_hp > 0 && u.suffer_damage.len() == 0) by {
            lemma_health_resolution(steered, i);
        }
    }
}

/// Every system keeps the number of slots, so that handles keep their
/// meaning.
pub proof fn lemma_systems_keep_slots(w: Seq<Option<UnitView>>, now: u64, dt: u32)
    ensures
        crate::orders::orders_world(w).len() == w.len(),
        ai_world(w, now).len() == w.len(),
        melee_world(w, now).len() == w.len(),
        crate::physics::mover_world(w, dt).len() == w.len(),
        health_world(w).len() == w.len(),
{
}

} // verus!

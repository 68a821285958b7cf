//! Rectangle tests for picking units.

use vstd::prelude::*;
use crate::components::Entity;
use crate::geometry::{saturate, saturated, Position};

verus! {

/// The smaller of two numbers.
pub open spec fn lesser(a: int, b: int) -> int {
    if a <= b {
        a
    } else {
        b
    }
}

/// The larger of two numbers.
pub open spec fn greater(a: int, b: int) -> int {
    if a >= b {
        a
    } else {
        b
    }
}

/// `v` lies between `a` and `b`, in whichever order they come.
pub open spec fn between(v: int, a: int, b: int) -> bool {
    lesser(a, b) <= v <= greater(a, b)
}

/// The stretch from `a1` to `a2` and the stretch from `b1` to `b2` have a
/// point in common.
pub open spec fn spans_meet(a1: int, a2: int, b1: int, b2: int) -> bool {
    lesser(a1, a2) <= greater(b1, b2) && lesser(b1, b2) <= greater(a1, a2)
}

/// `position` lies in the rectangle with the opposite corners `corner_1`
/// and `corner_2`, border included.
pub open spec fn in_rect(position: Position, corner_1: Position, corner_2: Position) -> bool {
    between(position.x as int, corner_1.x as int, corner_2.x as int) && between(
        position.y as int,
        corner_1.y as int,
        corner_2.y as int,
    )
}

/// The two rectangles, each given by opposite corners, have a point in
/// common.
pub open spec fn rects_meet(r1: (Position, Position), r2: (Position, Position)) -> bool {
    spans_meet(r1.0.x as int, r1.1.x as int, r2.0.x as int, r2.1.x as int) && spans_meet(
        r1.0.y as int,
        r1.1.y as int,
        r2.0.y as int,
        r2.1.y as int,
    )
}

fn min_of(a: i32, b: i32) -> (r: i32)
    ensures
        r == lesser(a as int, b as int),
{
    if a <= b {
        a
    } else {
        b
    }
}

fn max_of(a: i32, b: i32) -> (r: i32)
    ensures
        r == greater(a as int, b as int),
{
    if a >= b {
        a
    } else {
        b
    }
}

/// Whether `position` lies in the rectangle spanned by two corners.
pub fn helper_in_rect(position: &Position, corner_1: &Position, corner_2: &Position) -> (r: bool)
    ensures
        r == in_rect(*position, *corner_1, *corner_2),
{
    let min_x: i32 = min_of(corner_1.x, corner_2.x);
    let max_x: i32 = max_of(corner_1.x, corner_2.x);
    let min_y: i32 = min_of(corner_1.y, corner_2.y);
    let max_y: i32 = max_of(corner_1.y, corner_2.y);
    if position.x >= min_x && position.x <= max_x && position.y >= min_y && position.y <= max_y {
        return true;
    }
    false
}

/// Whether two rectangles, each spanned by two corners, touch or overlap.
pub fn helper_rect_in_rect(r1: (&Position, &Position), r2: (&Position, &Position)) -> (r: bool)
    ensures
        r == rects_meet((*r1.0, *r1.1), (*r2.0, *r2.1)),
{
    let min_x: i32 = min_of(r1.0.x, r1.1.x);
    let max_x: i32 = max_of(r1.0.x, r1.1.x);
    let min_y: i32 = min_of(r1.0.y, r1.1.y);
    let max_y: i32 = max_of(r1.0.y, r1.1.y);
    let other_min_x: i32 = min_of(r2.0.x, r2.1.x);
    let other_max_x: i32 = max_of(r2.0.x, r2.1.x);
    let other_min_y: i32 = min_of(r2.0.y, r2.1.y);
    let other_max_y: i32 = max_of(r2.0.y, r2.1.y);
    let other_x_touch: bool = min_x <= other_min_x && other_min_x <= max_x;
    let other_y_touch: bool = min_y <= other_min_y && other_min_y <= max_y;
    let x_touch: bool = other_min_x <= min_x && min_x <= other_max_x;
    let y_touch: bool = other_min_y <= min_y && min_y <= other_max_y;
    if other_x_touch && other_y_touch {
        return true;
    }
    if x_touch && y_touch {
        return true;
    }
    if x_touch && other_y_touch {
        return true;
    }
    if other_x_touch && y_touch {
        return true;
    }
    false
}

/// Meeting is mutual, and a rectangle meets every rectangle that holds one
/// of its corners.
pub proof fn lemma_rects_meet(r1: (Position, Position), r2: (Position, Position))
    ensures
        rects_meet(r1, r2) == rects_meet(r2, r1),
        in_rect(r1.0, r2.0, r2.1) ==> rects_meet(r1, r2),
        in_rect(r1.1, r2.0, r2.1) ==> rects_meet(r1, r2),
{
}

// ---------------------------------------------------------------------------
// Picking units with the mouse
// ---------------------------------------------------------------------------
/// Makes a unit something the player can pick.
#[derive(Clone, Copy, Debug, PartialEq, Eq, Structural)]
pub struct Selectable {
    pub is_selected: bool,
    /// Half the side of the square around the unit in which a click counts.
    pub half_size: u32,
}

/// A rectangle that the player is dragging open.
#[derive(Clone, Copy, Debug, PartialEq, Eq, Structural)]
pub struct SelectionPending {
    pub begin_pos: Position,
    pub end_pos: Position,
    pub begin_pos_ui: Position,
    pub end_pos_ui: Position,
}

/// A rectangle that the player has dragged open and let go.
#[derive(Clone, Copy, Debug, PartialEq, Eq, Structural)]
pub struct SelectionValidated {
    pub begin_pos: Position,
    pub end_pos: Position,
}

/// What the mouse is doing: resting over a unit or over none, or dragging a
/// rectangle.
#[derive(Clone, Copy, Debug, PartialEq, Eq, Structural)]
pub enum Selection {
    Hover(Option<Entity>),
    OnGoing(SelectionPending),
}

/// A unit as the picking sees it.
#[derive(Clone, Copy, Debug, PartialEq, Eq, Structural)]
pub struct Pickable {
    pub entity: Entity,
    pub position: Position,
    pub selectable: Selectable,
}

/// The corners of the square around a unit in which a click counts.
pub open spec fn click_square(item: Pickable) -> (Position, Position) {
    (
        Position {
            x: saturated(item.position.x - item.selectable.half_size) as i32,
            y: saturated(item.position.y - item.selectable.half_size) as i32,
        },
        Position {
            x: saturated(item.position.x + item.selectable.half_size) as i32,
            y: saturated(item.position.y + item.selectable.half_size) as i32,
        },
    )
}

/// The first unit under the cursor, if any.
pub open spec fn hovered(items: Seq<Pickable>, cursor: Position) -> Option<Entity>
    decreases items.len(),
{
    if items.len() == 0 {
        None
    } else if in_rect(cursor, click_square(items[0]).0, click_square(items[0]).1) {
        Some(items[0].entity)
    } else {
        hovered(items.drop_first(), cursor)
    }
}

/// A unit after a rectangle from `begin` to `end` was dragged: picked if
/// its square meets the rectangle, not picked if not.
pub open spec fn picked(item: Pickable, begin: Position, end: Position) -> Pickable {
    Pickable {
        selectable: Selectable {
            is_selected: rects_meet(click_square(item), (begin, end)),
            half_size: item.selectable.half_size,
        },
        ..item
    }
}

/// The state of the mouse after one step.
///
/// While the button is held, a rectangle is opened at the cursor or its far
/// corner follows the cursor. Once the button is up, the mouse rests over
/// the first unit under the cursor, or over none.
pub open spec fn selection_after(
    selection: Selection,
    items: Seq<Pickable>,
    cursor: Position,
    cursor_ui: Position,
    pressed: bool,
) -> Selection {
    if pressed {
        match selection {
            Selection::Hover(_) => Selection::OnGoing(
                SelectionPending {
                    begin_pos: cursor,
                    begin_pos_ui: cursor_ui,
                    end_pos: cursor,
                    end_pos_ui: cursor_ui,
                },
            ),
            Selection::OnGoing(pending) => Selection::OnGoing(
                SelectionPending { end_pos: cursor, end_pos_ui: cursor_ui, ..pending },
            ),
        }
    } else {
        Selection::Hover(hovered(items, cursor))
    }
}

/// The units after one step: when the button comes up over a rectangle,
/// exactly the units that the rectangle meets are picked; every other step
/// leaves them as they are.
pub open spec fn items_after(
    selection: Selection,
    items: Seq<Pickable>,
    cursor: Position,
    pressed: bool,
) -> Seq<Pickable> {
    match selection {
        Selection::OnGoing(pending) if !pressed => Seq::new(
            items.len(),
            |i: int| picked(items[i], pending.begin_pos, cursor),
        ),
        _ => items,
    }
}

fn square_of(item: &Pickable) -> (r: (Position, Position))
    ensures
        r == click_square(*item),
{
    let half: i64 = item.selectable.half_size as i64;
    (
        Position {
            x: saturate(item.position.x as i64 - half),
            y: saturate(item.position.y as i64 - half),
        },
        Position {
            x: saturate(item.position.x as i64 + half),
            y: saturate(item.position.y as i64 + half),
        },
    )
}

/// One step of picking: `cursor` is the mouse in the world, `cursor_ui` on
/// the screen, `pressed` whether its left button is held.
pub fn selection_system(
    selection: &mut Selection,
    items: &mut Vec<Pickable>,
    cursor: Position,
    cursor_ui: Position,
    pressed: bool,
)
    ensures
        *final(selection) == selection_after(*old(selection), old(items)@, cursor, cursor_ui, pressed),
        final(items)@ == items_after(*old(selection), old(items)@, cursor, pressed),
{
    if pressed {
        match *selection {
            Selection::Hover(_) => {
                *selection = Selection::OnGoing(
                    SelectionPending {
                        begin_pos: cursor,
                        begin_pos_ui: cursor_ui,
                        end_pos: cursor,
                        end_pos_ui: cursor_ui,
                    },
                );
            },
            Selection::OnGoing(pending) => {
                *selection = Selection::OnGoing(
                    SelectionPending {
                        begin_pos: pending.begin_pos,
                        begin_pos_ui: pending.begin_pos_ui,
                        end_pos: cursor,
                        end_pos_ui: cursor_ui,
                    },
                );
            },
        }
        return ;
    }
    let n: usize = items.len();
    if let Selection::OnGoing(pending) = *selection {
        let mut i: usize = 0;
        while i < n
            invariant
                i <= n,
                n == items@.len(),
                n == old(items)@.len(),
                forall|j: int|
                    0 <= j < i ==> items@[j] == picked(old(items)@[j], pending.begin_pos, cursor),
                forall|j: int| i <= j < n ==> items@[j] == old(items)@[j],
            decreases n - i,
        {
            let item: Pickable = items[i];
            let square: (Position, Position) = square_of(&item);
            let meets: bool = helper_rect_in_rect(
                (&square.0, &square.1),
                (&pending.begin_pos, &cursor),
            );
            items.set(
                i,
                Pickable {
                    entity: item.entity,
                    position: item.position,
                    selectable: Selectable {
                        is_selected: meets,
                        half_size: item.selectable.half_size,
                    },
                },
            );
            i += 1;
        }
        assert(items@ =~= items_after(*old(selection), old(items)@, cursor, pressed));
    }
    proof {
        assert(items@ == items_after(*old(selection), old(items)@, cursor, pressed));
        lemma_hover_ignores_picks(old(items)@, items@, cursor);
        assert(items@.subrange(0, n as int) =~= items@);
    }
    let mut i: usize = 0;
    while i < n
        invariant
            i <= n,
            n == items@.len(),
            !pressed,
            items@ == items_after(*old(selection), old(items)@, cursor, pressed),
            hovered(old(items)@, cursor) == hovered(items@, cursor),
            hovered(items@, cursor) == hovered(items@.subrange(i as int, n as int), cursor),
        decreases n - i,
    {
        let ghost rest = items@.subrange(i as int, n as int);
        assert(rest[0] == items@[i as int]);
        assert(rest.drop_first() =~= items@.subrange(i + 1, n as int));
        let square: (Position, Position) = square_of(&items[i]);
        if helper_in_rect(&cursor, &square.0, &square.1) {
            *selection = Selection::Hover(Some(items[i].entity));
            return ;
        }
        i += 1;
    }
    *selection = Selection::Hover(None);
}

/// Which unit lies under the cursor does not depend on which units are
/// picked.
pub proof fn lemma_hover_ignores_picks(before: Seq<Pickable>, after: Seq<Pickable>, cursor: Position)
    requires
        before.len() == after.len(),
        forall|i: int|
            0 <= i < before.len() ==> after[i].entity == before[i].entity && after[i].position
                == before[i].position && after[i].selectable.half_size
                == before[i].selectable.half_size,
    ensures
        hovered(before, cursor) == hovered(after, cursor),
    decreases before.len(),
{
    if before.len() > 0 {
        lemma_hover_ignores_picks(before.drop_first(), after.drop_first(), cursor);
    }
}

} // verus!

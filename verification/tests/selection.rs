use rts_core::components::Entity;
use rts_core::geometry::Position;
use rts_core::selection::{
    helper_in_rect, helper_rect_in_rect, selection_system, Pickable, Selectable, Selection,
    SelectionPending,
};

fn c(x: i32, y: i32) -> Position {
    Position { x, y }
}

fn item(index: usize, x: i32, y: i32, picked: bool) -> Pickable {
    Pickable {
        entity: Entity { index },
        position: c(x, y),
        selectable: Selectable { is_selected: picked, half_size: 10 },
    }
}

#[test]
fn point_in_rectangle_whatever_the_order_of_corners() {
    assert!(helper_in_rect(&c(5, 5), &c(0, 0), &c(10, 10)));
    assert!(helper_in_rect(&c(5, 5), &c(10, 10), &c(0, 0)));
    assert!(helper_in_rect(&c(5, 5), &c(0, 10), &c(10, 0)));
    assert!(helper_in_rect(&c(0, 10), &c(0, 0), &c(10, 10)));
    assert!(!helper_in_rect(&c(11, 5), &c(0, 0), &c(10, 10)));
    assert!(!helper_in_rect(&c(5, -1), &c(0, 0), &c(10, 10)));
    assert!(helper_in_rect(&c(3, 3), &c(3, 3), &c(3, 3)));
}

#[test]
fn rectangles_that_touch_or_overlap_meet() {
    let a = (c(0, 0), c(10, 10));
    let meets = |b: (Position, Position)| helper_rect_in_rect((&a.0, &a.1), (&b.0, &b.1));
    assert!(meets((c(5, 5), c(15, 15))));
    assert!(meets((c(-5, -5), c(0, 0))));
    assert!(meets((c(2, 2), c(3, 3))));
    assert!(meets((c(-5, -5), c(50, 50))));
    assert!(meets((c(15, 5), c(5, -5))));
    assert!(meets((c(-5, 4), c(50, 6))));
    assert!(meets((c(4, -5), c(6, 50))));
    assert!(!meets((c(11, 0), c(20, 10))));
    assert!(!meets((c(0, 11), c(10, 20))));
    assert!(!meets((c(-9, -9), c(-1, 50))));
    assert!(!meets((c(11, 11), c(12, 12))));
}

#[test]
fn pressing_the_button_opens_a_rectangle_and_dragging_moves_its_corner() {
    let mut selection = Selection::Hover(Some(Entity { index: 1 }));
    let mut items = vec![item(0, 0, 0, true), item(1, 100, 100, false)];
    selection_system(&mut selection, &mut items, c(100, 100), c(7, 8), true);
    let opened = SelectionPending { begin_pos: c(100, 100), end_pos: c(100, 100), begin_pos_ui: c(7, 8), end_pos_ui: c(7, 8) };
    assert_eq!(selection, Selection::OnGoing(opened));
    selection_system(&mut selection, &mut items, c(150, 90), c(9, 9), true);
    assert_eq!(
        selection,
        Selection::OnGoing(SelectionPending { end_pos: c(150, 90), end_pos_ui: c(9, 9), ..opened })
    );
    assert_eq!(items, vec![item(0, 0, 0, true), item(1, 100, 100, false)]);
}

#[test]
fn releasing_the_button_picks_what_the_rectangle_meets() {
    let mut selection = Selection::OnGoing(SelectionPending {
        begin_pos: c(-20, -20),
        end_pos: c(0, 0),
        begin_pos_ui: c(0, 0),
        end_pos_ui: c(0, 0),
    });
    let mut items = vec![item(0, 0, 0, false), item(1, 100, 100, true), item(2, 60, 60, false), item(3, 61, 0, true)];
    selection_system(&mut selection, &mut items, c(50, 50), c(1, 1), false);
    assert_eq!(
        items,
        vec![item(0, 0, 0, true), item(1, 100, 100, false), item(2, 60, 60, true), item(3, 61, 0, false)]
    );
    assert_eq!(selection, Selection::Hover(Some(Entity { index: 2 })));
}

#[test]
fn resting_mouse_hovers_over_the_first_unit_under_it() {
    let mut items = vec![item(4, 0, 0, true), item(5, 15, 0, false), item(6, 500, 500, false)];
    let before = items.clone();
    let mut selection = Selection::Hover(None);
    selection_system(&mut selection, &mut items, c(8, 0), c(0, 0), false);
    assert_eq!(selection, Selection::Hover(Some(Entity { index: 4 })));
    selection_system(&mut selection, &mut items, c(11, 0), c(0, 0), false);
    assert_eq!(selection, Selection::Hover(Some(Entity { index: 5 })));
    selection_system(&mut selection, &mut items, c(300, 0), c(0, 0), false);
    assert_eq!(selection, Selection::Hover(None));
    assert_eq!(items, before);
    let mut none: Vec<Pickable> = vec![];
    let mut selection = Selection::Hover(Some(Entity { index: 4 }));
    selection_system(&mut selection, &mut none, c(0, 0), c(0, 0), false);
    assert_eq!(selection, Selection::Hover(None));
}

use metatape::tape::Head;

fn is_shareable<T: Send + Sync>() {}

#[test]
fn new_head_is_on_an_empty_cell() {
    let head = Head::new();
    assert!(!head.has_child());
    assert_eq!(head.render(false), "[_]");
    assert_eq!(head.render(true), "[_]");
}

#[test]
fn heads_can_be_shared_between_threads() {
    is_shareable::<Head>();
}

#[test]
fn primitives_leave_the_borrowed_head_alone() {
    let head = Head::new().exit().move_left();
    let before = head.render(true);
    let _ = head.move_left();
    let _ = head.move_right();
    let _ = head.enter();
    let _ = head.exit();
    let _ = head.null_child();
    let _ = head.copy_child_from(&Head::new().exit());
    assert_eq!(head.render(true), before);
    assert!(!head.has_child());
}

#[test]
fn exit_fills_the_cell_it_arrives_on() {
    let head = Head::new().exit();
    assert!(head.has_child());
    assert_eq!(head.render(false), "[#]");
    assert_eq!(head.render(true), "[0]");
}

#[test]
fn moving_left_puts_the_cell_on_the_right() {
    let head = Head::new().exit().move_left();
    assert!(!head.has_child());
    assert_eq!(head.render(false), "[_] # ");
    let back = head.move_right();
    assert!(back.has_child());
    assert_eq!(back.render(false), "[#]");
}

#[test]
fn moving_right_puts_the_cell_on_the_left() {
    let head = Head::new().exit().move_right();
    assert!(!head.has_child());
    assert_eq!(head.render(false), " # [_]");
    let back = head.move_left();
    assert_eq!(back.render(false), "[#]");
}

#[test]
fn left_then_right_returns() {
    let start = Head::new().exit().move_left().move_left().exit().move_right();
    let there = start.move_left().move_right();
    assert_eq!(there.render(true), start.render(true));
    assert_eq!(there.has_child(), start.has_child());
}

#[test]
fn right_then_left_returns() {
    let start = Head::new().exit().move_right().exit().exit().move_left();
    let there = start.move_right().move_left();
    assert_eq!(there.render(true), start.render(true));
    assert_eq!(there.has_child(), start.has_child());
}

#[test]
fn exit_then_enter_returns() {
    let start = Head::new().exit().move_left().enter().exit().move_right().enter();
    let there = start.exit().enter();
    assert_eq!(there.render(true), start.render(true));
    assert_eq!(there.exit().render(true), start.exit().render(true));
}

#[test]
fn enter_then_exit_returns_on_a_full_cell() {
    let start = Head::new().exit().move_left().exit();
    assert!(start.has_child());
    let there = start.enter().exit();
    assert_eq!(there.render(true), start.render(true));
    assert_eq!(there.enter().render(true), start.enter().render(true));
}

#[test]
fn enter_then_exit_fills_an_empty_cell() {
    let start = Head::new();
    let there = start.enter().exit();
    assert!(!start.has_child());
    assert!(there.has_child());
    assert_eq!(there.render(true), "[0]");
}

#[test]
fn null_child_empties_the_cell() {
    let head = Head::new().exit().exit();
    assert!(head.has_child());
    assert!(!head.null_child().has_child());
}

#[test]
fn null_child_twice_is_null_child_once() {
    let head = Head::new().exit().move_left().exit();
    let once = head.null_child();
    let twice = once.null_child();
    assert_eq!(twice.render(true), once.render(true));
    assert_eq!(twice.has_child(), once.has_child());
}

#[test]
fn copy_child_from_takes_the_other_cell() {
    let here = Head::new().exit().move_left();
    let other = Head::new().exit().exit();
    let copied = here.copy_child_from(&other);
    assert_eq!(copied.render(true), "[1] 0 ");
    let emptied = other.copy_child_from(&here);
    assert!(!emptied.has_child());
}

#[test]
fn depth_is_drawn_up_to_nine() {
    let mut head = Head::new();
    for _ in 0..10 {
        head = head.exit();
    }
    assert_eq!(head.render(true), "[9]");
    assert_eq!(head.exit().render(true), "[#]");
    assert_eq!(head.exit().render(false), "[#]");
}

#[test]
fn entering_walks_down_the_origins() {
    let head = Head::new().exit().exit().exit();
    assert_eq!(head.render(true), "[2]");
    assert_eq!(head.enter().render(true), "[1]");
    assert_eq!(head.enter().enter().render(true), "[0]");
    assert_eq!(head.enter().enter().enter().render(true), "[_]");
}

#[test]
fn an_empty_tape_stays_blank_under_moves() {
    let mut head = Head::new();
    for _ in 0..1000 {
        head = head.move_left();
    }
    assert_eq!(head.render(true), "[_]");
    for _ in 0..2000 {
        head = head.move_right();
    }
    assert_eq!(head.render(true), "[_]");
    head = head.enter().enter().move_left().null_child();
    assert_eq!(head.render(true), "[_]");
}

#[test]
fn emptied_cells_at_the_far_end_are_not_kept() {
    let head = Head::new().exit().move_left().move_left();
    assert_eq!(head.render(false), "[_] _  # ");
    let cleared = head.move_right().move_right().null_child().move_left().move_left();
    assert_eq!(cleared.render(false), "[_]");
}

#[test]
fn rows_are_drawn_from_far_left_to_far_right() {
    let head = Head::new()
        .enter()
        .exit()
        .move_right()
        .enter()
        .enter()
        .exit()
        .exit()
        .move_right()
        .move_right()
        .enter()
        .exit()
        .move_left();
    assert_eq!(head.render(true), " 0  1 [_] 0 ");
    assert_eq!(head.render(false), " #  # [_] # ");
}

#[test]
fn a_clone_stands_where_the_head_stands() {
    let head = Head::new().exit().move_left().exit().move_right();
    let copy = head.clone();
    assert_eq!(copy.render(true), head.render(true));
    assert_eq!(copy.has_child(), head.has_child());
}

use chi_squared::Mode;
use chi_squared::editor::Key;
use chi_squared::editor::add_to_table;
use chi_squared::editor::delete_item_in_table;
use chi_squared::editor::edit_step;
use chi_squared::editor::empty_cells;
use chi_squared::editor::move_cursor;

fn small_table() -> (Vec<Vec<String>>, Vec<String>, Vec<String>) {
    let table = empty_cells(2, 3);
    let column_labels = vec![String::new(), String::new(), String::new()];
    let row_labels = vec!["type".to_string(), String::new(), String::new()];
    (table, column_labels, row_labels)
}

#[test]
fn cursor_clamps_at_edges() {
    // never leaves [0, rows] x [0, cols] whatever keys arrive
    assert_eq!(move_cursor((0, 0), &Key::Up, 2, 3), (0, 0));
    assert_eq!(move_cursor((0, 0), &Key::Left, 2, 3), (0, 0));
    assert_eq!(move_cursor((2, 3), &Key::Down, 2, 3), (2, 3));
    assert_eq!(move_cursor((2, 3), &Key::Right, 2, 3), (2, 3));
    assert_eq!(move_cursor((1, 1), &Key::Up, 2, 3), (0, 1));
    assert_eq!(move_cursor((1, 1), &Key::Right, 2, 3), (1, 2));
}

#[test]
fn characters_append_and_erase_by_one() {
    let (mut table, mut cols, mut rows) = small_table();
    add_to_table(&mut table, &mut cols, &mut rows, (1, 1), '4');
    add_to_table(&mut table, &mut cols, &mut rows, (1, 1), '2');
    assert_eq!(table[0][0], "42");
    delete_item_in_table(&mut table, &mut cols, &mut rows, (1, 1));
    assert_eq!(table[0][0], "4");
    // erase on empty text is a no-op
    delete_item_in_table(&mut table, &mut cols, &mut rows, (2, 2));
    assert_eq!(table[1][1], "");
}

#[test]
fn labels_are_addressed_at_the_borders() {
    let (mut table, mut cols, mut rows) = small_table();
    add_to_table(&mut table, &mut cols, &mut rows, (0, 2), 'x');
    assert_eq!(cols[1], "x");
    add_to_table(&mut table, &mut cols, &mut rows, (2, 0), 'y');
    assert_eq!(rows[2], "y");
    delete_item_in_table(&mut table, &mut cols, &mut rows, (0, 2));
    assert_eq!(cols[1], "");
}

#[test]
fn edit_step_dispatches_and_finishes() {
    let (mut table, mut cols, mut rows) = small_table();
    let mut pos = (1usize, 1usize);
    assert!(!edit_step(&mut table, &mut cols, &mut rows, &mut pos, &Key::Down));
    assert_eq!(pos, (2, 1));
    assert!(!edit_step(&mut table, &mut cols, &mut rows, &mut pos, &Key::Character('7')));
    assert_eq!(table[1][0], "7");
    assert!(!edit_step(&mut table, &mut cols, &mut rows, &mut pos, &Key::Erase));
    assert_eq!(table[1][0], "");
    assert!(!edit_step(&mut table, &mut cols, &mut rows, &mut pos, &Key::Other));
    assert!(edit_step(&mut table, &mut cols, &mut rows, &mut pos, &Key::Finish));
}

#[test]
fn menu_choice_selects_mode() {
    assert!(matches!(Mode::get_mode("1"), Some(Mode::OE)));
    assert!(matches!(Mode::get_mode("2"), Some(Mode::Binomial)));
    assert!(matches!(Mode::get_mode("3"), Some(Mode::Poisson)));
    assert!(matches!(Mode::get_mode("4"), Some(Mode::ContingencyTable)));
    assert!(Mode::get_mode("5").is_none());
    assert!(Mode::get_mode("12").is_none());
    assert!(Mode::get_mode("").is_none());
}

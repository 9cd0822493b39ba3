use pixel_fsm::picture::Color;
use pixel_fsm::table::ColorTable;
use pixel_fsm::table::ColorType;

#[test]
fn empty_table_has_no_color() {
    let table = ColorTable::new();
    assert_eq!(table.get(Color::from(1, 2, 3)), None);
    assert!(!table.contains(Color::from(1, 2, 3)));
    assert_eq!(table.function_color(), None);
}

#[test]
fn insert_registers_a_color() {
    let mut table = ColorTable::new();
    table.insert(Color::from(1, 2, 3), ColorType::Input);
    table.insert(Color::from(4, 5, 6), ColorType::Output);
    assert_eq!(table.get(Color::from(1, 2, 3)), Some(ColorType::Input));
    assert_eq!(table.get(Color::from(4, 5, 6)), Some(ColorType::Output));
    assert_eq!(table.get(Color::from(4, 5, 7)), None);
    assert!(table.contains(Color::from(4, 5, 6)));
}

#[test]
fn later_registration_replaces_the_role() {
    let mut table = ColorTable::new();
    table.insert(Color::from(1, 2, 3), ColorType::Input);
    table.insert(Color::from(4, 5, 6), ColorType::Input);
    table.insert(Color::from(1, 2, 3), ColorType::Output);
    assert_eq!(table.get(Color::from(1, 2, 3)), Some(ColorType::Output));
    assert_eq!(table.get(Color::from(4, 5, 6)), Some(ColorType::Input));
    assert_eq!(table.entries.len(), 2);
    assert_eq!(table.entries[0].color, Color::from(1, 2, 3));
}

#[test]
fn function_color_is_found() {
    let mut table = ColorTable::new();
    table.insert(Color::from(1, 2, 3), ColorType::Input);
    table.insert(Color::from(0, 0, 255), ColorType::Function);
    table.insert(Color::from(4, 5, 6), ColorType::Output);
    assert_eq!(table.function_color(), Some(Color::from(0, 0, 255)));
}

#[test]
fn replaced_function_color_is_gone() {
    let mut table = ColorTable::new();
    table.insert(Color::from(0, 0, 255), ColorType::Function);
    table.insert(Color::from(0, 0, 255), ColorType::Input);
    assert_eq!(table.function_color(), None);
}

#[test]
fn one_function_color_counts_the_function_colors() {
    let mut table = ColorTable::new();
    assert!(!table.one_function_color());
    table.insert(Color::from(1, 2, 3), ColorType::Input);
    assert!(!table.one_function_color());
    table.insert(Color::from(0, 0, 255), ColorType::Function);
    assert!(table.one_function_color());
    table.insert(Color::from(0, 255, 0), ColorType::Function);
    assert!(!table.one_function_color());
    table.insert(Color::from(0, 255, 0), ColorType::Output);
    assert!(table.one_function_color());
}

use minitable::cell::{i32_len, Cell, Kind};
use minitable::table::{Table, TableError};

fn icell(v: i32) -> Cell {
    Cell::Int(Some(v))
}

fn tcell(s: &str) -> Cell {
    Cell::Text(Some(s.to_string()))
}

fn fruits() -> Table {
    let mut t = Table::new(
        "table1",
        vec![("id", Cell::Int(None)), ("name", Cell::Text(None)), ("price", Cell::Int(None))],
    )
    .unwrap();
    let rows: Vec<(i32, &str, Option<i32>)> = vec![
        (1, "apple", Some(50)),
        (2, "banana", Some(100)),
        (3, "citrus", None),
        (4, "dorian", Some(256)),
        (5, "elderberries", Some(512)),
        (6, "figs", Some(1024)),
        (7, "grapefruit", Some(2048)),
        (8, "honeydew melon", Some(4096)),
    ];
    for (id, name, price) in rows {
        t.insert(vec![("id", icell(id)), ("name", tcell(name)), ("price", Cell::Int(price))])
            .unwrap();
    }
    t
}

fn dates() -> Table {
    let mut t = Table::new("table2", vec![("id", Cell::Int(None)), ("date", Cell::Text(None))]).unwrap();
    let rows: Vec<(i32, &str)> = vec![
        (1, "2019/12/20"),
        (2, "2019/12/21"),
        (3, "2019/12/22"),
        (4, "2019/12/23"),
        (8, "2019/12/27"),
        (13, "2020/01/01"),
    ];
    for (id, date) in rows {
        t.insert(vec![("id", icell(id)), ("date", tcell(date))]).unwrap();
    }
    t
}

const FRUITS_BOX: &str = " +----+----------------+-------+\n | id | name           | price |\n +----+----------------+-------+\n |  1 | apple          |    50 |\n |  2 | banana         |   100 |\n |  3 | citrus         |  null |\n |  4 | dorian         |   256 |\n |  5 | elderberries   |   512 |\n |  6 | figs           |  1024 |\n |  7 | grapefruit     |  2048 |\n |  8 | honeydew melon |  4096 |\n +----+----------------+-------+\n";

fn int_at(t: &Table, row: usize, col: &str) -> Option<i32> {
    match t.get(row, col) {
        Some(Cell::Int(v)) => v,
        _ => None,
    }
}

fn text_at(t: &Table, row: usize, col: &str) -> Option<String> {
    match t.get(row, col) {
        Some(Cell::Text(v)) => v,
        _ => None,
    }
}

#[test]
fn renders_full_table() {
    assert_eq!(fruits().render(), FRUITS_BOX);
}

#[test]
fn select_single_column_box() {
    let t = fruits().select(vec!["name"]).unwrap();
    assert_eq!(
        t.render(),
        " +----------------+\n | name           |\n +----------------+\n | apple          |\n | banana         |\n | citrus         |\n | dorian         |\n | elderberries   |\n | figs           |\n | grapefruit     |\n | honeydew melon |\n +----------------+\n"
    );
}

#[test]
fn less_than_keeps_all_rows_below_bound() {
    let t = fruits().less_than("id", 10).unwrap();
    assert_eq!(t.render(), FRUITS_BOX);
}

#[test]
fn less_than_excludes_null_and_large() {
    let t = fruits().less_than("price", 250).unwrap();
    assert_eq!(t.row_count(), 2);
    assert_eq!(
        t.render(),
        " +----+----------------+-------+\n | id | name           | price |\n +----+----------------+-------+\n |  1 | apple          |    50 |\n |  2 | banana         |   100 |\n +----+----------------+-------+\n"
    );
}

#[test]
fn left_join_attaches_dates() {
    let t = fruits().left_join(&dates(), "id");
    assert_eq!(t.row_count(), 8);
    assert_eq!(t.columns(), vec!["id", "name", "price", "date"]);
    let expected = [
        Some("2019/12/20"),
        Some("2019/12/21"),
        Some("2019/12/22"),
        Some("2019/12/23"),
        None,
        None,
        None,
        Some("2019/12/27"),
    ];
    for (i, d) in expected.iter().enumerate() {
        assert_eq!(int_at(&t, i, "id"), Some(i as i32 + 1));
        assert_eq!(text_at(&t, i, "date").as_deref(), *d);
    }
    assert_eq!(
        t.render(),
        " +----+----------------+-------+------------+\n | id | name           | price | date       |\n +----+----------------+-------+------------+\n |  1 | apple          |    50 | 2019/12/20 |\n |  2 | banana         |   100 | 2019/12/21 |\n |  3 | citrus         |  null | 2019/12/22 |\n |  4 | dorian         |   256 | 2019/12/23 |\n |  5 | elderberries   |   512 |       null |\n |  6 | figs           |  1024 |       null |\n |  7 | grapefruit     |  2048 |       null |\n |  8 | honeydew melon |  4096 | 2019/12/27 |\n +----+----------------+-------+------------+\n"
    );
}

#[test]
fn left_join_then_select_box() {
    let t = fruits().left_join(&dates(), "id").select(vec!["name", "date"]).unwrap();
    assert_eq!(
        t.render(),
        " +----------------+------------+\n | name           | date       |\n +----------------+------------+\n | apple          | 2019/12/20 |\n | banana         | 2019/12/21 |\n | citrus         | 2019/12/22 |\n | dorian         | 2019/12/23 |\n | elderberries   |       null |\n | figs           |       null |\n | grapefruit     |       null |\n | honeydew melon | 2019/12/27 |\n +----------------+------------+\n"
    );
}

#[test]
fn insert_unknown_column_fails() {
    let mut t = fruits();
    match t.insert(vec![("ghost", tcell("x"))]) {
        Err(TableError::UnknownColumn(n)) => assert_eq!(n, "ghost"),
        other => panic!("unexpected {:?}", other),
    }
    assert_eq!(t.row_count(), 8);
    assert_eq!(t.render(), FRUITS_BOX);
}

#[test]
fn insert_type_mismatch_fails() {
    let mut t = fruits();
    match t.insert(vec![("id", tcell("nine"))]) {
        Err(TableError::TypeMismatch(n, expected, actual)) => {
            assert_eq!(n, "id");
            assert_eq!(expected, Kind::Int);
            assert_eq!(actual, Kind::Text);
        }
        other => panic!("unexpected {:?}", other),
    }
    assert_eq!(t.row_count(), 8);
}

#[test]
fn insert_duplicate_binding_fails() {
    let mut t = fruits();
    match t.insert(vec![("id", icell(9)), ("id", icell(10))]) {
        Err(TableError::DuplicateBinding(n)) => assert_eq!(n, "id"),
        other => panic!("unexpected {:?}", other),
    }
    assert_eq!(t.row_count(), 8);
    assert_eq!(t.width("id"), Some(2));
}

#[test]
fn insert_reports_first_offending_binding() {
    let mut t = fruits();
    match t.insert(vec![("id", tcell("x")), ("ghost", icell(1))]) {
        Err(TableError::TypeMismatch(n, _, _)) => assert_eq!(n, "id"),
        other => panic!("unexpected {:?}", other),
    }
}

#[test]
fn new_rejects_duplicate_names() {
    match Table::new("t", vec![("a", Cell::Int(None)), ("b", Cell::Text(None)), ("a", Cell::Text(None))]) {
        Err(TableError::SchemaError(n)) => assert_eq!(n, "a"),
        Ok(_) => panic!("duplicate schema accepted"),
        Err(e) => panic!("unexpected {:?}", e),
    }
}

#[test]
fn new_ignores_declared_payloads() {
    let t = Table::new("t", vec![("n", Cell::Int(Some(12345))), ("s", Cell::Text(Some("long text".to_string())))]).unwrap();
    assert_eq!(t.row_count(), 0);
    assert_eq!(t.width("n"), Some(1));
    assert_eq!(t.width("s"), Some(1));
}

#[test]
fn select_unknown_column_fails() {
    match fruits().select(vec!["name", "colour", "weight"]) {
        Err(TableError::UnknownColumn(n)) => assert_eq!(n, "colour"),
        other => panic!("unexpected {:?}", other.map(|t| t.render())),
    }
}

#[test]
fn less_than_unknown_column_fails() {
    match fruits().less_than("weight", 3) {
        Err(TableError::UnknownColumn(n)) => assert_eq!(n, "weight"),
        other => panic!("unexpected {:?}", other.map(|t| t.render())),
    }
}

#[test]
fn less_than_on_text_column_is_empty() {
    let t = fruits().less_than("name", 100).unwrap();
    assert_eq!(t.row_count(), 0);
    assert_eq!(t.columns(), vec!["id", "name", "price"]);
}

#[test]
fn widths_cover_names_and_values() {
    let t = fruits();
    assert_eq!(t.width("id"), Some(2));
    assert_eq!(t.width("name"), Some(14));
    assert_eq!(t.width("price"), Some(5));
    assert_eq!(t.width("date"), None);
    let mut u = Table::new("u", vec![("v", Cell::Int(None)), ("w", Cell::Text(None))]).unwrap();
    u.insert(vec![("v", Cell::Int(None))]).unwrap();
    assert_eq!(u.width("v"), Some(4));
    assert_eq!(u.width("w"), Some(1));
    u.insert(vec![("v", icell(-123456))]).unwrap();
    assert_eq!(u.width("v"), Some(7));
    u.insert(vec![("v", icell(5))]).unwrap();
    assert_eq!(u.width("v"), Some(7));
}

#[test]
fn operators_leave_receiver_unchanged() {
    let t = fruits();
    let d = dates();
    let _ = t.select(vec!["price"]).unwrap();
    let _ = t.less_than("price", 100).unwrap();
    let _ = t.left_join(&d, "id");
    assert_eq!(t.render(), FRUITS_BOX);
    assert_eq!(t.row_count(), 8);
    assert_eq!(d.row_count(), 6);
}

#[test]
fn select_reorders_header() {
    let t = fruits().less_than("price", 101).unwrap().select(vec!["price", "id"]).unwrap();
    assert_eq!(
        t.render(),
        " +-------+----+\n | price | id |\n +-------+----+\n |    50 |  1 |\n |   100 |  2 |\n +-------+----+\n"
    );
}

#[test]
fn select_with_duplicates() {
    let t = fruits().select(vec!["id", "id"]).unwrap();
    assert_eq!(t.columns(), vec!["id", "id"]);
    assert_eq!(int_at(&t, 7, "id"), Some(8));
}

#[test]
fn less_than_no_passing_entry_is_empty() {
    let t = fruits().less_than("price", 50).unwrap();
    assert_eq!(t.row_count(), 0);
}

#[test]
fn left_join_row_count_matches_left() {
    let mut right = dates();
    right.insert(vec![("id", icell(1)), ("date", tcell("2030/01/01"))]).unwrap();
    let t = fruits().left_join(&right, "id");
    assert_eq!(t.row_count(), 8);
    assert_eq!(text_at(&t, 0, "date").as_deref(), Some("2030/01/01"));
}

#[test]
fn left_join_without_matches_adds_null_columns() {
    let mut right = Table::new("r", vec![("id", Cell::Int(None)), ("tag", Cell::Text(None))]).unwrap();
    right.insert(vec![("id", icell(100)), ("tag", tcell("x"))]).unwrap();
    let t = fruits().left_join(&right, "id");
    assert_eq!(t.columns(), vec!["id", "name", "price", "tag"]);
    assert_eq!(t.row_count(), 8);
    for i in 0..8 {
        assert!(t.get(i, "tag").is_none());
        assert_eq!(int_at(&t, i, "id"), Some(i as i32 + 1));
    }
}

#[test]
fn left_join_missing_key_copies_left() {
    let t = fruits().left_join(&dates(), "name");
    assert_eq!(t.render(), FRUITS_BOX);
}

#[test]
fn select_schema_order_is_identity() {
    let t = fruits();
    let u = t.select(vec!["id", "name", "price"]).unwrap();
    assert_eq!(u.render(), t.render());
    assert_eq!(u.width("name"), t.width("name"));
}

#[test]
fn less_than_twice_equals_once() {
    let once = fruits().less_than("price", 1000).unwrap();
    let twice = once.less_than("price", 1000).unwrap();
    assert_eq!(once.render(), twice.render());
    assert_eq!(once.row_count(), 4);
}

#[test]
fn integer_rendering_lengths() {
    assert_eq!(i32_len(-1), 2);
    assert_eq!(i32_len(0), 1);
    assert_eq!(i32_len(-2147483648), 11);
    assert_eq!(i32_len(2147483647), 10);
    assert_eq!(i32_len(10), 2);
    assert_eq!(i32_len(9), 1);
    let mut t = Table::new("n", vec![("n", Cell::Int(None))]).unwrap();
    t.insert(vec![("n", icell(-1))]).unwrap();
    t.insert(vec![("n", icell(0))]).unwrap();
    t.insert(vec![("n", icell(-2147483648))]).unwrap();
    assert_eq!(t.width("n"), Some(11));
    assert_eq!(
        t.render(),
        " +-------------+\n | n           |\n +-------------+\n |          -1 |\n |           0 |\n | -2147483648 |\n +-------------+\n"
    );
}

#[test]
fn null_renders_right_aligned() {
    let mut t = Table::new("n", vec![("value", Cell::Int(None)), ("ab", Cell::Text(None))]).unwrap();
    t.insert(vec![("value", Cell::Int(None))]).unwrap();
    assert_eq!(t.width("ab"), Some(2));
    assert_eq!(
        t.render(),
        " +-------+----+\n | value | ab |\n +-------+----+\n |  null | null |\n +-------+----+\n"
    );
}

#[test]
fn less_than_min_is_empty() {
    let t = fruits().less_than("id", i32::MIN).unwrap();
    assert_eq!(t.row_count(), 0);
    let u = fruits().less_than("price", -2147483648).unwrap();
    assert_eq!(u.row_count(), 0);
}

#[test]
fn empty_schema_box() {
    let t = Table::new("empty", vec![]).unwrap();
    assert_eq!(t.row_count(), 0);
    assert_eq!(t.render(), " +\n |\n +\n +\n");
}

#[test]
fn cell_equality_and_copy() {
    assert!(Cell::Int(None).same(&Cell::Int(None)));
    assert!(!Cell::Int(None).same(&Cell::Text(None)));
    assert!(!icell(1).same(&icell(2)));
    assert!(tcell("a").same(&tcell("a").duplicate()));
    assert_eq!(tcell("héllo").width(), 6);
    assert_eq!(icell(-45).width(), 3);
    assert_eq!(Cell::Text(None).width(), 4);
}

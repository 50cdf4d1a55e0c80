use rust_problem_search::position::Position;

#[test]
fn new_with_row_and_column_returns_position() {
    let position = Position::new(1, 0);

    assert_eq!(1, position.row);
    assert_eq!(0, position.column);
}

#[test]
fn display_prints_formatted_position() {
    let position = Position::new(1, 0);
    let display = "1-0".to_string();

    assert_eq!(display, position.to_key());
}

#[test]
fn position_distance_returns_manhattan_distance() {
    let position_a = Position::new(5, 3);
    let position_b = Position::new(2, 7);

    assert_eq!(7, position_b.distance(&position_a));
}

#[test]
fn to_key_writes_decimal_numbers() {
    assert_eq!("0-0", Position::new(0, 0).to_key());
    assert_eq!("9-10", Position::new(9, 10).to_key());
    assert_eq!("10-9", Position::new(10, 9).to_key());
    assert_eq!("123-4567", Position::new(123, 4567).to_key());
    assert_eq!("100-2000", Position::new(100, 2000).to_key());
    assert_eq!("4294967295-4294967295", Position::new(u32::MAX, u32::MAX).to_key());
}

#[test]
fn to_key_agrees_with_number_formatting() {
    for row in [0u32, 1, 9, 10, 11, 99, 100, 101, 999, 1000, 65535, 65536, 1000000007] {
        for column in [0u32, 5, 10, 19, 20, 255, 256, 4294967294] {
            assert_eq!(format!("{}-{}", row, column), Position::new(row, column).to_key());
        }
    }
}

#[test]
fn equal_keys_mean_equal_positions() {
    let positions = [
        Position::new(1, 11),
        Position::new(11, 1),
        Position::new(1, 1),
        Position::new(0, 111),
        Position::new(111, 0),
        Position::new(10, 0),
        Position::new(1, 0),
    ];
    for p in positions.iter() {
        for q in positions.iter() {
            assert_eq!(p == q, p.to_key() == q.to_key());
        }
    }
}

#[test]
fn distance_is_symmetric_and_zero_on_equal_positions() {
    let a = Position::new(3, 9);
    let b = Position::new(8, 2);
    assert_eq!(12, a.distance(&b));
    assert_eq!(12, b.distance(&a));
    assert_eq!(0, a.distance(&a));
    assert_eq!(1, a.distance(&Position::new(3, 10)));
}

#[test]
fn distance_obeys_the_triangle_inequality() {
    let a = Position::new(0, 0);
    let b = Position::new(7, 1);
    let c = Position::new(2, 6);
    assert!(a.distance(&c) <= a.distance(&b) + b.distance(&c));
    assert_eq!(8, a.distance(&c));
    assert_eq!(8, a.distance(&b));
    assert_eq!(10, b.distance(&c));
}

#[test]
fn distance_reaches_the_largest_number() {
    let a = Position::new(0, 0);
    let b = Position::new(u32::MAX, 0);
    assert_eq!(u32::MAX, a.distance(&b));
    assert_eq!(u32::MAX, b.distance(&a));
}

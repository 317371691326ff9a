use minipg::avc::{create_avc, FixedSizeDict, MainAttributeValueContainer};
use minipg::database::Database;

#[test]
fn read_all_rows_decodes_a_snapshot_under_the_lock() {
    let avc = MainAttributeValueContainer {
        data: vec![1, 2, 0, 0, 4, 1, 3, 1, 0, 4, 1],
        dict: FixedSizeDict { entries: vec![1, 5, 7, 2311] },
    };
    let db = Database::new(avc);
    let rows = db.read_all_rows();
    assert_eq!(
        rows,
        vec![
            Some(5),
            Some(7),
            Some(1),
            Some(1),
            None,
            Some(5),
            Some(2311),
            Some(5),
            Some(1),
            None,
            Some(5),
        ]
    );
}

#[test]
fn read_all_rows_of_a_built_column() {
    let column = vec![10, -3, 10];
    let db = Database::new(create_avc(&column));
    let rows = db.read_all_rows();
    assert_eq!(rows, vec![Some(10), Some(-3), Some(10)]);
}

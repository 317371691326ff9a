use minipg::avc::{
    create_avc, AttributeValueContainer, Dict, DynAttributeValueContainer, FixedSizeDict,
    MainAttributeValueContainer,
};

fn example_avc() -> MainAttributeValueContainer {
    MainAttributeValueContainer {
        data: vec![1, 2, 0, 0, 4, 1, 3, 1, 0, 4, 1],
        dict: FixedSizeDict { entries: vec![1, 5, 7, 2311] },
    }
}

#[test]
fn example_dictionary_decodes_row_by_row() {
    let avc = example_avc();
    let expected = vec![
        Some(5),
        Some(7),
        Some(1),
        Some(1),
        None,
        Some(5),
        Some(2311),
        Some(5),
        Some(1),
        None,
        Some(5),
    ];
    let mut decoded = Vec::new();
    for i in 0..avc.len() {
        decoded.push(avc.lookup(i));
    }
    assert_eq!(decoded, expected);
}

#[test]
fn example_dictionary_counts() {
    let avc = example_avc();
    assert_eq!(avc.len(), 11);
    assert_eq!(avc.distinct_count(), 4);
    assert_eq!(avc.null_value_id(), 4);
}

#[test]
fn null_sentinel_decodes_to_none_exactly() {
    let avc = example_avc();
    for i in 0..avc.len() {
        let is_null = avc.data[i] == avc.null_value_id();
        assert_eq!(avc.lookup(i).is_none(), is_null);
    }
}

#[test]
fn dict_lookup_returns_entries_in_order() {
    let dict = FixedSizeDict { entries: vec![3, 8, 12] };
    assert_eq!(dict.len(), 3);
    assert_eq!(dict.lookup(0), 3);
    assert_eq!(dict.lookup(1), 8);
    assert_eq!(dict.lookup(2), 12);
}

#[test]
fn create_avc_round_trips_the_column() {
    let column = vec![5, 2, 5, 9, 2, -4, 9, 5];
    let avc = create_avc(&column);
    assert_eq!(avc.len(), column.len());
    for (i, v) in column.iter().enumerate() {
        assert_eq!(avc.lookup(i), Some(*v));
    }
}

#[test]
fn create_avc_counts_distinct_values() {
    let column = vec![5, 2, 5, 9, 2, -4, 9, 5];
    let avc = create_avc(&column);
    assert_eq!(avc.distinct_count(), 4);
    assert_eq!(avc.dict.entries, vec![-4, 2, 5, 9]);
}

#[test]
fn create_avc_of_empty_column() {
    let column = Vec::new();
    let avc = create_avc(&column);
    assert_eq!(avc.len(), 0);
    assert_eq!(avc.distinct_count(), 0);
    assert_eq!(avc.null_value_id(), 0);
}

#[test]
fn create_avc_of_equal_values() {
    let column = vec![7, 7, 7, 7];
    let avc = create_avc(&column);
    assert_eq!(avc.distinct_count(), 1);
    assert_eq!(avc.dict.entries, vec![7]);
    for i in 0..4 {
        assert_eq!(avc.lookup(i), Some(7));
    }
}

#[test]
fn create_avc_never_produces_nulls() {
    let column = vec![1, -1, 0, i64::MAX, i64::MIN];
    let avc = create_avc(&column);
    for i in 0..column.len() {
        assert!(avc.lookup(i).is_some());
    }
    assert_eq!(avc.distinct_count(), 5);
}

use os::collections::double_array_map::{DoubleArrayMap, DoubleArrayMapError};

#[test]
fn test_insert_get_size_capacity() {
    let mut map: DoubleArrayMap<3, usize, &str> = DoubleArrayMap::new();
    assert_eq!(map.len(), 0);
    assert_eq!(map.get_capacity(), 3);

    assert_eq!(map.insert(0, "zero"), Ok::<Option<&str>, DoubleArrayMapError>(None::<&str>));
    assert_eq!(map.insert(1, "un"), Ok::<Option<&str>, DoubleArrayMapError>(None::<&str>));
    assert_eq!(map.insert(2, "deux"), Ok::<Option<&str>, DoubleArrayMapError>(None::<&str>));
    assert_eq!(
        map.insert(3, "trois"),
        Err::<Option<&str>, DoubleArrayMapError>(DoubleArrayMapError::ExceedCapacity)
    );

    assert_eq!(map.len(), 3);

    assert_eq!(map.get(&0), Some(&"zero"));
    assert_eq!(map.get(&1), Some(&"un"));
    assert_eq!(map.get(&2), Some(&"deux"));
    assert_eq!(map.get(&3), None::<&&str>);

    assert_eq!(
        map.insert(1, "meilleur un"),
        Ok::<Option<&str>, DoubleArrayMapError>(Some("un"))
    );
}

#[test]
fn double_array_map_replaces_in_a_full_map() {
    let mut map: DoubleArrayMap<2, u32, u8> = DoubleArrayMap::default();
    assert_eq!(map.insert(7, 1), Ok(None));
    assert_eq!(map.insert(9, 2), Ok(None));
    assert_eq!(map.insert(9, 3), Ok(Some(2)));
    assert_eq!(map.insert(7, 4), Ok(Some(1)));
    assert_eq!(map.insert(8, 5), Err(DoubleArrayMapError::ExceedCapacity));
    assert_eq!(map.len(), 2);
    assert_eq!(map.get(&7), Some(&4));
    assert_eq!(map.get(&9), Some(&3));
    assert_eq!(map.get(&8), None);
}

#[test]
fn double_array_map_does_not_find_the_default_key_in_an_empty_map() {
    let mut map: DoubleArrayMap<4, u32, u8> = DoubleArrayMap::new();
    assert_eq!(map.get(&0), None);
    assert_eq!(map.insert(0, 9), Ok(None));
    assert_eq!(map.get(&0), Some(&9));
    assert_eq!(map.len(), 1);
}

#[test]
fn double_array_map_of_no_capacity() {
    let mut map: DoubleArrayMap<0, u32, u8> = DoubleArrayMap::new();
    assert_eq!(map.get_capacity(), 0);
    assert_eq!(map.insert(1, 1), Err(DoubleArrayMapError::ExceedCapacity));
    assert_eq!(map.get(&1), None);
}

#[test]
fn double_array_map_error_in_words() {
    assert_eq!(DoubleArrayMapError::ExceedCapacity.to_string(), "Capacity exceeded!");
}

use data_bucket::{
    get_index_page_size_from_data_length, ChangeEvent, IndexPage, IndexValue, Link, Persistable,
    INNER_PAGE_SIZE,
};

#[test]
fn test_split() {
    let mut page = IndexPage::<u64>::new(7, 8);
    page.slots = vec![0, 1, 2, 3, 4, 5, 6, 7];
    page.current_index = 8;
    page.current_length = 8;
    page.index_values = {
        let mut v = vec![];
        for i in &page.slots {
            v.push(IndexValue {
                key: *i as u64,
                link: Default::default(),
            })
        }
        v
    };

    let split = page.split(4);
    assert_eq!(page.current_index, 4);
    assert_eq!(page.current_length, 4);
    assert_eq!(page.slots[page.current_index as usize], 0);

    assert_eq!(page.index_values[0].key, 0);
    assert_eq!(page.index_values[1].key, 1);
    assert_eq!(page.index_values[2].key, 2);
    assert_eq!(page.index_values[3].key, 3);

    assert_eq!(split.current_index, 4);
    assert_eq!(split.current_length, 4);
    assert_eq!(split.slots[0], 0);
    assert_eq!(split.slots[1], 1);
    assert_eq!(split.slots[2], 2);
    assert_eq!(split.slots[3], 3);

    assert_eq!(split.index_values[0].key, 4);
    assert_eq!(split.index_values[1].key, 5);
    assert_eq!(split.index_values[2].key, 6);
    assert_eq!(split.index_values[3].key, 7);
}

fn insert(key: u64, index: usize) -> ChangeEvent<u64> {
    ChangeEvent::InsertAt {
        max_value: IndexValue {
            key: 1,
            link: Link::default(),
        },
        value: IndexValue {
            key,
            link: Link::default(),
        },
        index,
    }
}

#[test]
fn page_cdc_impl_test_insert_at() {
    let mut page = IndexPage::<u64>::new(1, 10);
    page.apply_change_event(insert(1, 0)).unwrap();

    assert_eq!(page.node_id, 1);
    assert_eq!(
        page.index_values[0],
        IndexValue {
            key: 1,
            link: Link::default(),
        }
    )
}

#[test]
fn page_test_bytes() {
    let size: usize = get_index_page_size_from_data_length::<u64>(INNER_PAGE_SIZE);
    let page = IndexPage::<u64>::new(1, size);
    let bytes = page.as_bytes();
    let new_page = IndexPage::<u64>::from_bytes(bytes.as_ref()).unwrap();

    assert_eq!(new_page.node_id, page.node_id);
    assert_eq!(new_page.current_index, page.current_index);
    assert_eq!(new_page.size, page.size);
    assert_eq!(new_page.slots, page.slots);
    assert_eq!(new_page.index_values, page.index_values);
}

#[test]
fn test_insert_at_second() {
    let mut page = IndexPage::<u64>::new(1, 10);
    page.apply_change_event(insert(1, 0)).unwrap();
    page.apply_change_event(insert(2, 1)).unwrap();

    assert_eq!(page.node_id, 2);
    assert_eq!(
        page.index_values[0],
        IndexValue {
            key: 1,
            link: Link::default(),
        }
    );
    assert_eq!(
        page.index_values[1],
        IndexValue {
            key: 2,
            link: Link::default(),
        }
    )
}

fn remove(max: u64, key: u64, index: usize) -> ChangeEvent<u64> {
    ChangeEvent::RemoveAt {
        max_value: IndexValue {
            key: max,
            link: Link::default(),
        },
        value: IndexValue {
            key,
            link: Link::default(),
        },
        index,
    }
}

#[test]
fn page_cdc_impl_test_remove_at() {
    let mut page = IndexPage::<u64>::new(1, 10);
    page.apply_change_event(insert(1, 0)).unwrap();
    page.apply_change_event(insert(2, 1)).unwrap();
    page.apply_change_event(remove(2, 1, 0)).unwrap();

    assert_eq!(page.node_id, 2);
    assert_eq!(page.index_values[0], IndexValue::default());
    assert_eq!(
        page.index_values[1],
        IndexValue {
            key: 2,
            link: Link::default(),
        }
    )
}

#[test]
fn page_cdc_impl_test_remove_at_node_id() {
    let mut page = IndexPage::<u64>::new(1, 10);
    page.apply_change_event(insert(1, 0)).unwrap();
    page.apply_change_event(insert(2, 1)).unwrap();
    page.apply_change_event(remove(2, 2, 1)).unwrap();

    assert_eq!(page.node_id, 1);
    assert_eq!(
        page.index_values[0],
        IndexValue {
            key: 1,
            link: Link::default(),
        }
    );
    assert_eq!(page.index_values[1], IndexValue::default())
}

fn entry(key: u64) -> IndexValue<u64> {
    IndexValue {
        key,
        link: Link {
            page_id: 1.into(),
            offset: key as u32 * 8,
            length: 8,
        },
    }
}

fn put(key: u64, index: usize) -> ChangeEvent<u64> {
    ChangeEvent::InsertAt {
        max_value: entry(key),
        value: entry(key),
        index,
    }
}

fn take(max: u64, key: u64, index: usize) -> ChangeEvent<u64> {
    ChangeEvent::RemoveAt {
        max_value: entry(max),
        value: entry(key),
        index,
    }
}

fn keys(page: &IndexPage<u64>) -> Vec<u64> {
    page.get_node().iter().map(|v| v.key).collect()
}

fn holds_invariants(page: &IndexPage<u64>) {
    let size = page.size as usize;
    let live = page.current_length as usize;
    assert_eq!(page.slots.len(), size);
    assert_eq!(page.index_values.len(), size);
    assert!(live <= size);
    let mut taken = vec![false; size];
    for i in 0..live {
        let slot = page.slots[i] as usize;
        assert!(!taken[slot]);
        taken[slot] = true;
        assert_ne!(page.index_values[slot], IndexValue::default());
    }
    for place in 0..size {
        if !taken[place] {
            assert_eq!(page.index_values[place], IndexValue::default());
        }
    }
    let keys = keys(page);
    for pair in keys.windows(2) {
        assert!(pair[0] <= pair[1]);
    }
    if live > 0 {
        assert_eq!(page.node_id, keys[live - 1]);
    }
}

#[test]
fn events_keep_the_page_invariants() {
    let mut page = IndexPage::<u64>::new(0, 6);
    holds_invariants(&page);
    page.apply_change_event(put(10, 0)).unwrap();
    holds_invariants(&page);
    page.apply_change_event(put(30, 1)).unwrap();
    holds_invariants(&page);
    page.apply_change_event(put(20, 1)).unwrap();
    holds_invariants(&page);
    assert_eq!(keys(&page), vec![10, 20, 30]);
    assert_eq!(page.slots, vec![0, 2, 1, 0, 0, 0]);
    assert_eq!(page.current_index, 3);
    assert_eq!(page.node_id, 30);

    page.apply_change_event(take(30, 10, 0)).unwrap();
    holds_invariants(&page);
    assert_eq!(keys(&page), vec![20, 30]);
    assert_eq!(page.current_index, 0);
    assert_eq!(page.slots, vec![2, 1, 0, 0, 0, 0]);

    page.apply_change_event(put(25, 1)).unwrap();
    holds_invariants(&page);
    assert_eq!(keys(&page), vec![20, 25, 30]);
    assert_eq!(page.index_values[0], entry(25));
    assert_eq!(page.current_index, 3);

    page.apply_change_event(take(30, 30, 2)).unwrap();
    holds_invariants(&page);
    assert_eq!(page.node_id, 25);
    assert_eq!(keys(&page), vec![20, 25]);
}

#[test]
fn a_full_page_refuses_an_insert() {
    let mut page = IndexPage::<u64>::new(0, 3);
    page.apply_change_event(put(1, 0)).unwrap();
    page.apply_change_event(put(2, 1)).unwrap();
    page.apply_change_event(put(3, 2)).unwrap();
    assert_eq!(page.current_length, 3);
    let before = page.clone();
    let err = page.apply_change_event(put(4, 3)).unwrap_err();
    assert_eq!(err, data_bucket::Error::PageFull);
    assert_eq!(err.kind(), data_bucket::ErrorKind::PageFull);
    assert_eq!(page, before);

    let mut empty = IndexPage::<u64>::new(0, 0);
    assert_eq!(
        empty.apply_change_event(put(4, 0)),
        Err(data_bucket::Error::PageFull)
    );
}

#[test]
fn events_that_fit_no_page_are_refused() {
    let mut page = IndexPage::<u64>::new(0, 3);
    page.apply_change_event(put(1, 0)).unwrap();
    let before = page.clone();
    assert_eq!(
        page.apply_change_event(put(5, 2)),
        Err(data_bucket::Error::MisplacedEvent {
            index: 2,
            entries: 1
        })
    );
    assert_eq!(
        page.apply_change_event(take(1, 1, 1)),
        Err(data_bucket::Error::MisplacedEvent {
            index: 1,
            entries: 1
        })
    );
    for event in [
        ChangeEvent::SplitNode {
            max_value: entry(1),
            split_index: 1,
        },
        ChangeEvent::CreateNode {
            max_value: entry(1),
        },
        ChangeEvent::RemoveNode {
            max_value: entry(1),
        },
    ] {
        let err = page.apply_change_event(event).unwrap_err();
        assert_eq!(err, data_bucket::Error::NodeEvent);
        assert_eq!(err.kind(), data_bucket::ErrorKind::InvalidEvent);
        assert!(err.to_string().contains("can not be applied"));
    }
    assert_eq!(page, before);
}

#[test]
fn a_split_keeps_the_page_invariants() {
    let mut page = IndexPage::<u64>::new(0, 6);
    for (i, key) in [10u64, 20, 30, 40, 50].iter().enumerate() {
        page.apply_change_event(put(*key, i)).unwrap();
    }
    page.apply_change_event(take(50, 20, 1)).unwrap();
    page.apply_change_event(put(15, 1)).unwrap();
    holds_invariants(&page);
    let upper = page.split(2);
    holds_invariants(&page);
    holds_invariants(&upper);
    assert_eq!(keys(&page), vec![10, 15]);
    assert_eq!(keys(&upper), vec![30, 40, 50]);
    assert_eq!(page.node_id, 15);
    assert_eq!(upper.node_id, 50);
    assert_eq!(upper.slots, vec![0, 1, 2, 0, 0, 0]);
    assert_eq!(upper.current_index, 3);
    assert_eq!(page.current_index, 2);
}

#[test]
fn a_page_is_built_from_a_node_and_gives_it_back() {
    let node = vec![entry(3), entry(5), entry(8)];
    let page = IndexPage::<u64>::from_node(&node, 5);
    holds_invariants(&page);
    assert_eq!(page.get_node(), node);
    assert_eq!(page.node_id, 8);
    assert_eq!(page.current_index, 3);
    assert_eq!(page.current_length, 3);
    assert_eq!(page.slots, vec![0, 1, 2, 0, 0]);
}

#[test]
fn a_page_with_entries_is_written_and_read() {
    let node = vec![entry(3), entry(5), entry(8)];
    let mut page = IndexPage::<u64>::from_node(&node, 5);
    page.apply_change_event(take(8, 5, 1)).unwrap();
    let bytes = page.as_bytes();
    // 2 + 8 + 2 + 2 + (12 + 8) + (5 * 24 + 8)
    assert_eq!(bytes.len(), 162);
    assert_eq!(IndexPage::<u64>::persisted_size(5), 162);
    assert_eq!(IndexPage::<u64>::from_bytes(&bytes), Ok(page.clone()));
    assert!(IndexPage::<u64>::from_bytes(&bytes[..161]).is_err());
    let mut broken = bytes.clone();
    broken[0] = 4;
    assert!(IndexPage::<u64>::from_bytes(&broken).is_err());
    assert!(IndexPage::<u32>::from_bytes(&bytes).is_err());
}

#[test]
fn the_room_of_a_page_follows_its_length() {
    // (16356 - 8 - 2 - 2 - 2 - 8 - 8) / (2 + 24)
    assert_eq!(
        get_index_page_size_from_data_length::<u64>(INNER_PAGE_SIZE),
        627
    );
    // (16356 - 4 - 22) / (2 + 16)
    assert_eq!(
        get_index_page_size_from_data_length::<u32>(INNER_PAGE_SIZE),
        907
    );
    assert_eq!(IndexPage::<u64>::index_values_value_size(), 24);
    assert_eq!(IndexPage::<u64>::slots_size(5), 20);
    assert_eq!(IndexPage::<u64>::node_id_size(), 8);
    // 28 + 2 + 8 + 2 + 2 + 20 + 3 * 24
    assert_eq!(IndexPage::<u64>::get_value_offset(5, 3), 134);
}

#[test]
fn a_page_tells_whether_it_is_sound() {
    let mut page = IndexPage::<u64>::from_node(&[entry(3), entry(5), entry(8)], 5);
    assert!(page.is_well_formed());
    assert!(page.is_storable());
    page.slots[1] = 0;
    // Two live slots name the same place.
    assert!(!page.is_well_formed());
    page.slots[1] = 7;
    // A live slot names a place outside the page.
    assert!(!page.is_well_formed());
    page.slots[1] = 1;
    // The place behind the last is where a full page points.
    page.current_index = 5;
    assert!(page.is_well_formed());
    page.current_index = 6;
    assert!(!page.is_well_formed());
    page.current_index = 3;
    page.current_length = 6;
    assert!(!page.is_well_formed());
    page.current_length = 3;
    assert!(page.is_well_formed());
    page.slots.push(0);
    assert!(!page.is_well_formed());
    assert!(!page.is_storable());
}

#[test]
fn a_node_that_fills_the_page_comes_back() {
    let node: Vec<IndexValue<u64>> = (1..=4).map(entry).collect();
    let mut page = IndexPage::<u64>::from_node(&node, 4);
    assert!(page.is_well_formed());
    assert_eq!(page.current_index, 4);
    assert_eq!(page.current_length, 4);
    holds_invariants(&page);
    assert_eq!(page.get_node(), node);
    // No place is left: an insert is refused, and the page stays.
    let before = page.clone();
    assert_eq!(
        page.apply_change_event(put(9, 4)),
        Err(data_bucket::Error::PageFull)
    );
    assert_eq!(page, before);
    // A remove frees the place, and the next insert takes it.
    page.apply_change_event(take(4, 2, 1)).unwrap();
    assert_eq!(page.current_index, 1);
    assert_eq!(keys(&page), vec![1, 3, 4]);
    page.apply_change_event(put(9, 3)).unwrap();
    assert_eq!(keys(&page), vec![1, 3, 4, 9]);
    assert_eq!(page.index_values[1], entry(9));
    assert_eq!(page.node_id, 9);
    holds_invariants(&page);
    // A full page is split like any other.
    let upper = page.split(2);
    assert_eq!(keys(&page), vec![1, 3]);
    assert_eq!(keys(&upper), vec![4, 9]);
    holds_invariants(&page);
    holds_invariants(&upper);
    assert_eq!(page.index_values[page.current_index as usize], IndexValue::zero());
}

#[test]
fn a_misplaced_event_has_a_kind_of_its_own() {
    let mut page = IndexPage::<u64>::new(0, 3);
    let err = page.apply_change_event(put(4, 1)).unwrap_err();
    assert_eq!(
        err,
        data_bucket::Error::MisplacedEvent {
            index: 1,
            entries: 0
        }
    );
    assert_eq!(err.kind(), data_bucket::ErrorKind::InvalidPosition);
}

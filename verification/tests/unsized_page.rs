use data_bucket::{ChangeEvent, IndexValue, Link, Persistable, UnsizedIndexPage};

#[test]
fn split() {
    let mut values = vec![];
    for i in 0..10 {
        values.push(IndexValue {
            key: format!("{}___________________{}", i, i),
            link: Link {
                page_id: 0.into(),
                offset: i * 24,
                length: 24,
            },
        })
    }
    let mut page = UnsizedIndexPage::<String, 1024>::new_with_values(values);
    let split = page.split(5);

    assert_eq!(page.slots_size, 5);
    let offset = page.slots.iter().map(|(_, l)| *l).sum::<u16>();
    assert_eq!(page.last_value_offset, offset as u32);
    assert_eq!(page.last_value_offset, page.slots.last().unwrap().0);

    assert_ne!(page.node_id, split.node_id);

    assert_eq!(split.slots_size, 5);
    let offset = split.slots.iter().map(|(_, l)| *l).sum::<u16>();
    assert_eq!(split.last_value_offset, offset as u32);
    assert_eq!(split.last_value_offset, page.slots.last().unwrap().0)
}

fn something() -> UnsizedIndexPage<String, 1024> {
    UnsizedIndexPage::<_, 1024>::new(IndexValue {
        key: "Something".to_string(),
        link: Default::default(),
    })
    .unwrap()
}

fn entry(key: &str) -> IndexValue<String> {
    IndexValue {
        key: key.to_string(),
        link: Link::default(),
    }
}

#[test]
fn page_for_unsized_cdc_impl_test_insert_at() {
    let mut page = something();
    let event = ChangeEvent::InsertAt {
        max_value: entry("Something"),
        value: entry("Something new"),
        index: 1,
    };
    page.apply_change_event(event).unwrap();

    assert_eq!(page.node_id.key, "Something new".to_string());
}

#[test]
fn page_for_unsized_cdc_impl_test_remove_at() {
    let mut page = something();
    let event = ChangeEvent::InsertAt {
        max_value: entry("Something"),
        value: entry("Something new"),
        index: 1,
    };
    page.apply_change_event(event).unwrap();
    let event = ChangeEvent::RemoveAt {
        max_value: entry("Something new"),
        value: entry("Something"),
        index: 0,
    };
    page.apply_change_event(event).unwrap();

    assert_eq!(page.node_id.key, "Something new".to_string());
}

#[test]
fn page_for_unsized_cdc_impl_test_remove_at_node_id() {
    let mut page = something();
    let event = ChangeEvent::InsertAt {
        max_value: entry("Something"),
        value: entry("Something new"),
        index: 1,
    };
    page.apply_change_event(event).unwrap();
    let event = ChangeEvent::RemoveAt {
        max_value: entry("Something new"),
        value: entry("Something new"),
        index: 1,
    };
    page.apply_change_event(event).unwrap();

    assert_eq!(page.node_id.key, "Something".to_string());
}

#[test]
fn to_bytes_and_back() {
    let page = UnsizedIndexPage::<_, 1024>::new(IndexValue {
        key: "Someone from somewhere".to_string(),
        link: Default::default(),
    })
    .unwrap();
    let bytes = page.as_bytes();
    assert_eq!(bytes.len(), 1024);
    let page_back = UnsizedIndexPage::from_bytes(bytes.as_ref()).unwrap();
    assert_eq!(page_back, page)
}

fn long(i: u32) -> IndexValue<String> {
    IndexValue {
        key: format!("{:03}_a_key_that_is_long_enough", i),
        link: Link {
            page_id: 4.into(),
            offset: i * 24,
            length: 24,
        },
    }
}

fn fits(page: &UnsizedIndexPage<String, 1024>) {
    let head = 2 + 2 + page.node_id_size as u32 + 4 + page.slots.len() as u32 * 8 + 8;
    let sum: u32 = page.slots.iter().map(|(_, l)| *l as u32).sum();
    assert!(head + sum + page.removed_len <= 1024);
    assert!(page.last_value_offset <= sum + page.removed_len);
    assert!(sum <= page.last_value_offset);
    assert_eq!(page.slots.len(), page.index_values.len());
    assert_eq!(page.slots_size as usize, page.slots.len());
}

#[test]
fn the_entries_and_what_removals_left_fit_the_page() {
    let mut page = UnsizedIndexPage::<String, 1024>::new(long(0)).unwrap();
    fits(&page);
    let mut count = 1;
    loop {
        let event = ChangeEvent::InsertAt {
            max_value: long(count - 1),
            value: long(count),
            index: count as usize,
        };
        match page.apply_change_event(event) {
            Ok(()) => {
                fits(&page);
                count += 1;
            }
            Err(e) => {
                assert_eq!(e, data_bucket::Error::PageFull);
                break;
            }
        }
    }
    // An entry takes 52 bytes and its slot 8; the head of an empty page takes 68.
    assert_eq!(count, 15);
    assert_eq!(page.node_id, long(14));
    let bytes = page.as_bytes();
    assert_eq!(bytes.len(), 1024);
    assert_eq!(UnsizedIndexPage::from_bytes(&bytes), Ok(page.clone()));

    // Each removal leaves the entry's 52 bytes and the slot's 8 behind.
    for step in 0..8u32 {
        let event = ChangeEvent::RemoveAt {
            max_value: long(14),
            value: long(step),
            index: 0,
        };
        page.apply_change_event(event).unwrap();
        fits(&page);
        assert_eq!(page.removed_len, 60 * (step + 1));
        assert_eq!(page.last_value_offset, 15 * 52);
    }
    // The ninth brings the count above half the page: the page is packed anew.
    let event = ChangeEvent::RemoveAt {
        max_value: long(14),
        value: long(8),
        index: 0,
    };
    page.apply_change_event(event).unwrap();
    fits(&page);
    assert_eq!(page.removed_len, 0);
    assert_eq!(page.slots_size, 6);
    assert_eq!(page.last_value_offset, 6 * 52);
    assert_eq!(page.slots[0], (52, 52));
    assert_eq!(page.slots[5], (312, 52));
    assert_eq!(page.node_id, long(14));
    let bytes = page.as_bytes();
    assert_eq!(UnsizedIndexPage::from_bytes(&bytes), Ok(page));
}

#[test]
fn rebuild_forgets_what_removals_left() {
    let mut page = UnsizedIndexPage::<String, 1024>::from_node(&[long(1), long(2), long(3)]);
    page.apply_change_event(ChangeEvent::RemoveAt {
        max_value: long(3),
        value: long(2),
        index: 1,
    })
    .unwrap();
    assert_eq!(page.removed_len, 60);
    assert_eq!(page.last_value_offset, 156);
    assert_eq!(page.slots, vec![(52, 52), (156, 52)]);
    page.rebuild();
    assert_eq!(page.removed_len, 0);
    assert_eq!(page.last_value_offset, 104);
    assert_eq!(page.slots, vec![(52, 52), (104, 52)]);
    assert_eq!(page.get_node(), vec![long(1), long(3)]);
}

#[test]
fn a_new_page_holds_its_node_id() {
    let page = UnsizedIndexPage::<String, 1024>::new(IndexValue {
        key: "Someone from somewhere".to_string(),
        link: Default::default(),
    })
    .unwrap();
    // A string of 22 bytes takes 32, the link 12.
    assert_eq!(page.slots, vec![(44, 44)]);
    assert_eq!(page.node_id_size, 44);
    assert_eq!(page.last_value_offset, 44);
    assert_eq!(page.slots_size, 1);
    assert_eq!(page.removed_len, 0);

    let tiny = UnsizedIndexPage::<String, 64>::new(IndexValue {
        key: "Someone from somewhere".to_string(),
        link: Default::default(),
    });
    assert_eq!(tiny, Err(data_bucket::Error::PageFull));
}

#[test]
fn events_that_fit_no_unsized_page_are_refused() {
    let mut page = something();
    let before = page.clone();
    assert_eq!(
        page.apply_change_event(ChangeEvent::InsertAt {
            max_value: entry("a"),
            value: entry("b"),
            index: 2,
        }),
        Err(data_bucket::Error::MisplacedEvent {
            index: 2,
            entries: 1
        })
    );
    assert_eq!(
        page.apply_change_event(ChangeEvent::RemoveAt {
            max_value: entry("a"),
            value: entry("b"),
            index: 1,
        }),
        Err(data_bucket::Error::MisplacedEvent {
            index: 1,
            entries: 1
        })
    );
    assert_eq!(
        page.apply_change_event(ChangeEvent::CreateNode {
            max_value: entry("a")
        }),
        Err(data_bucket::Error::NodeEvent)
    );
    assert_eq!(page, before);
}

#[test]
fn the_head_of_an_unsized_page_is_written_and_read() {
    let page = UnsizedIndexPage::<String, 1024>::from_node(&[long(1), long(2)]);
    let mut head = page.utility();
    let bytes = head.as_bytes();
    // 2 + 2 + 52 + 4 + 2 * 8 + 8
    assert_eq!(bytes.len(), 84);
    assert_eq!(
        data_bucket::UnsizedIndexPageUtility::<String>::persisted_size(2, 52),
        84
    );
    assert_eq!(
        data_bucket::UnsizedIndexPageUtility::<String>::from_bytes(&bytes),
        Ok(head.clone())
    );
    head.update_node_id(long(1)).unwrap();
    assert_eq!(head.node_id, long(1));
    assert_eq!(head.node_id_size, 52);
    assert_eq!(&page.as_bytes()[..84], &bytes[..]);
}

#[test]
fn an_unsized_page_tells_whether_it_is_sound() {
    let mut page = UnsizedIndexPage::<String, 1024>::from_node(&[long(1), long(2), long(3)]);
    assert!(page.is_well_formed());
    assert!(page.is_ready());
    assert!(page.is_storable());
    page.slots[1] = (80, 52);
    // The second entry shares bytes with the first.
    assert!(!page.is_well_formed());
    assert!(!page.is_storable());
    page.slots[1] = (104, 51);
    // The slot tells another length than the entry has.
    assert!(!page.is_well_formed());
    page.slots[1] = (104, 52);
    page.node_id_size = 51;
    assert!(!page.is_well_formed());
    page.node_id_size = 52;
    page.removed_len = 2000;
    assert!(page.is_well_formed());
    assert!(!page.is_ready());
    page.removed_len = 0;
    page.last_value_offset = 1000;
    // The entries would reach into the head.
    assert!(page.is_well_formed());
    assert!(!page.is_storable());
}

#[test]
fn a_page_that_is_read_counts_what_removals_left() {
    let mut page = UnsizedIndexPage::<String, 1024>::from_node(&[long(1), long(2), long(3)]);
    page.apply_change_event(ChangeEvent::RemoveAt {
        max_value: long(3),
        value: long(2),
        index: 1,
    })
    .unwrap();
    assert_eq!(page.removed_len, 60);
    let bytes = page.as_bytes();
    let back = UnsizedIndexPage::<String, 1024>::decode(&bytes).unwrap();
    // The 52 bytes of the entry lie within the reach of the entries.
    assert_eq!(back.removed_len, 52);
    assert!(back.is_ready());
    assert_eq!(back.get_node(), page.get_node());
    let plain = UnsizedIndexPage::<String, 1024>::from_bytes(&bytes).unwrap();
    assert_eq!(plain.removed_len, 0);
    assert!(UnsizedIndexPage::<String, 1024>::decode(&bytes[1..]).is_err());
}

#[test]
fn entries_that_can_be_packed() {
    assert!(data_bucket::page::index::page_for_unsized::can_pack(&[
        long(1),
        long(2)
    ]));
    assert!(!data_bucket::page::index::page_for_unsized::can_pack::<String>(&[]));
    let huge = IndexValue {
        key: "x".repeat(70_000),
        link: Link::default(),
    };
    assert!(!data_bucket::page::index::page_for_unsized::can_pack(&[huge]));
}

use data_bucket::{Link, Persistable, TableOfContentsPage};

#[test]
fn test_sizes() {
    let mut toc_page = TableOfContentsPage::<(u64, Link)>::default();
    assert_eq!(toc_page.as_bytes().len(), toc_page.estimated_size());
    toc_page.insert(
        (
            128,
            Link {
                page_id: 1.into(),
                offset: 40,
                length: 80,
            },
        ),
        6.into(),
    );
    assert_eq!(toc_page.as_bytes().len(), toc_page.estimated_size());
}

#[test]
fn the_estimated_size_is_the_size_of_the_byte_form() {
    let mut toc = TableOfContentsPage::<u32>::default();
    assert_eq!(toc.estimated_size(), 20);
    assert_eq!(toc.as_bytes().len(), toc.estimated_size());
    // A pseudo-random walk of inserts, removes and pops.
    let mut state: u32 = 12345;
    let mut held: Vec<u32> = vec![];
    for _ in 0..100 {
        state = state.wrapping_mul(1664525).wrapping_add(1013904223);
        let key = (state >> 16) % 64;
        match (state >> 8) % 3 {
            0 | 1 => {
                if !toc.contains(&key) {
                    toc.insert(key, (key + 100).into());
                    held.push(key);
                }
            }
            _ => {
                if let Some(at) = held.iter().position(|k| *k == key) {
                    held.remove(at);
                    assert_eq!(toc.remove(&key), (key + 100).into());
                } else if let Some(id) = toc.pop_empty_page() {
                    assert!(id.0 >= 100);
                }
            }
        }
        assert_eq!(toc.as_bytes().len(), toc.estimated_size());
    }
    held.sort();
    let listed: Vec<u32> = toc.iter().iter().map(|(k, _)| *k).collect();
    assert_eq!(listed, held);
    let bytes = toc.as_bytes();
    let back = TableOfContentsPage::<u32>::from_bytes(&bytes).unwrap();
    assert_eq!(back.iter(), toc.iter());
    assert_eq!(back.empty_pages(), toc.empty_pages());
    assert_eq!(back.estimated_size(), toc.estimated_size());
}

#[test]
fn the_table_maps_nodes_to_pages() {
    let mut toc = TableOfContentsPage::<u64>::new();
    toc.insert(30, 3.into());
    toc.insert(10, 1.into());
    toc.insert(20, 2.into());
    assert_eq!(toc.get(&10), Some(1.into()));
    assert_eq!(toc.get(&20), Some(2.into()));
    assert_eq!(toc.get(&25), None);
    assert!(toc.contains(&30));
    assert!(!toc.contains(&31));
    let listed: Vec<u64> = toc.iter().iter().map(|(k, _)| *k).collect();
    assert_eq!(listed, vec![10, 20, 30]);
    // A record of a number key takes 16 bytes.
    assert_eq!(toc.estimated_size(), 20 + 3 * 16);

    assert_eq!(toc.update_key(&20, 25), Some(()));
    assert_eq!(toc.get(&20), None);
    assert_eq!(toc.get(&25), Some(2.into()));
    assert_eq!(toc.update_key(&20, 26), None);

    assert_eq!(toc.pop_empty_page(), None);
    assert_eq!(toc.remove(&10), 1.into());
    assert_eq!(toc.get(&10), None);
    assert_eq!(toc.empty_pages(), &[1.into()]);
    // Taking a record out takes 12 bytes off and puts 4 on.
    assert_eq!(toc.estimated_size(), 20 + 3 * 16 - 12 + 4);
    assert_eq!(toc.remove_without_record(&30), 3.into());
    assert_eq!(toc.empty_pages(), &[1.into()]);
    assert_eq!(toc.pop_empty_page(), Some(1.into()));
    assert_eq!(toc.empty_pages().len(), 0);
}

#[test]
fn a_table_that_is_written_reads_as_itself() {
    let mut toc = TableOfContentsPage::<(u64, Link)>::default();
    for i in 0..5u64 {
        toc.insert(
            (
                i * 7,
                Link {
                    page_id: 1.into(),
                    offset: i as u32,
                    length: 80,
                },
            ),
            (i as u32 + 2).into(),
        );
    }
    let bytes = toc.as_bytes();
    assert_eq!(bytes.len(), 20 + 5 * 32);
    let back = TableOfContentsPage::<(u64, Link)>::from_bytes(&bytes).unwrap();
    assert_eq!(back.iter(), toc.iter());
    assert_eq!(back.estimated_size(), toc.estimated_size());
    assert!(TableOfContentsPage::<(u64, Link)>::from_bytes(&bytes[1..]).is_err());
    assert!(TableOfContentsPage::<u64>::from_bytes(&bytes).is_err());
}

#[test]
fn a_table_tells_whether_it_is_sound_and_keeps_its_pages_apart() {
    let mut toc = TableOfContentsPage::<u32>::new();
    assert!(toc.is_well_formed());
    assert!(toc.keys_rise());
    assert!(toc.is_storable());
    for (key, page) in [(5u32, 1u32), (3, 2), (9, 3), (1, 4)] {
        toc.insert(key, page.into());
        assert!(toc.is_well_formed());
    }
    toc.remove(&3);
    toc.remove(&9);
    let held: Vec<u32> = toc.iter().iter().map(|(_, id)| id.0).collect();
    assert_eq!(held, vec![4, 1]);
    let free: Vec<u32> = toc.empty_pages().iter().map(|id| id.0).collect();
    assert_eq!(free, vec![2, 3]);
    for id in &free {
        assert!(!held.contains(id));
    }
    assert_eq!(toc.pop_empty_page(), Some(3.into()));
    assert_eq!(toc.pop_empty_page(), Some(2.into()));
    assert_eq!(toc.pop_empty_page(), None);
}

#[test]
fn a_node_that_is_held_keeps_its_record() {
    let mut toc = TableOfContentsPage::<u32>::default();
    toc.insert(5, 10.into());
    toc.insert(7, 11.into());
    let size = toc.estimated_size();
    assert_eq!(size, 20 + 2 * 8);
    toc.insert(5, 12.into());
    assert_eq!(toc.get(&5), Some(12.into()));
    assert_eq!(toc.iter().len(), 2);
    assert!(toc.empty_pages().is_empty());
    assert_eq!(toc.estimated_size(), size);
    assert_eq!(toc.as_bytes().len(), toc.estimated_size());
}

#[test]
fn a_page_that_is_not_recorded_takes_no_room() {
    let mut toc = TableOfContentsPage::<u32>::default();
    toc.insert(5, 10.into());
    toc.insert(7, 11.into());
    toc.insert(9, 12.into());
    let size = toc.estimated_size();
    assert_eq!(toc.remove_without_record(&7), 11.into());
    assert!(!toc.contains(&7));
    assert_eq!(toc.get(&5), Some(10.into()));
    assert_eq!(toc.get(&9), Some(12.into()));
    assert!(toc.empty_pages().is_empty());
    assert_eq!(toc.estimated_size(), size - 8);
    assert_eq!(toc.as_bytes().len(), toc.estimated_size());
    // A remove that records the page counts the 4 bytes of the page.
    assert_eq!(toc.remove(&5), 10.into());
    assert_eq!(toc.empty_pages().to_vec(), vec![10.into()]);
    assert_eq!(toc.estimated_size(), size - 8 - 8 + 4);
    assert_eq!(toc.as_bytes().len(), toc.estimated_size());
}

#[test]
fn a_key_that_takes_the_place_of_another_frees_its_record() {
    let mut toc = TableOfContentsPage::<u32>::default();
    toc.insert(5, 10.into());
    toc.insert(7, 11.into());
    let size = toc.estimated_size();
    assert_eq!(toc.update_key(&5, 6), Some(()));
    assert_eq!(toc.get(&6), Some(10.into()));
    assert_eq!(toc.estimated_size(), size);
    assert_eq!(toc.as_bytes().len(), toc.estimated_size());
    assert_eq!(toc.update_key(&6, 7), Some(()));
    assert_eq!(toc.get(&7), Some(10.into()));
    assert_eq!(toc.iter().len(), 1);
    assert_eq!(toc.estimated_size(), size - 8);
    assert_eq!(toc.as_bytes().len(), toc.estimated_size());
    assert_eq!(toc.update_key(&1, 2), None);
    assert_eq!(toc.estimated_size(), size - 8);
}

#[test]
fn a_record_of_a_wide_key_goes_with_all_its_bytes() {
    let mut toc = TableOfContentsPage::<u64>::default();
    toc.insert(5, 10.into());
    toc.insert(7, 11.into());
    assert_eq!(toc.estimated_size(), 20 + 2 * 16);
    assert_eq!(toc.as_bytes().len(), toc.estimated_size());
    assert_eq!(toc.remove_without_record(&5), 10.into());
    assert_eq!(toc.estimated_size(), 20 + 16);
    assert_eq!(toc.as_bytes().len(), toc.estimated_size());
    assert!(toc.empty_pages().is_empty());
    assert_eq!(toc.get(&7), Some(11.into()));
}

fn archived_u16(toc: &TableOfContentsPage<u16>) -> Vec<u8> {
    let records: Vec<(u16, u32)> = toc.iter().iter().map(|(k, p)| (*k, p.0)).collect();
    let pages: Vec<u32> = toc.empty_pages().iter().map(|p| p.0).collect();
    rkyv::to_bytes::<rkyv::rancor::Error>(&(records, pages, toc.estimated_size() as u32))
        .unwrap()
        .to_vec()
}

fn archived_u64(toc: &TableOfContentsPage<u64>) -> Vec<u8> {
    let records: Vec<(u64, u32)> = toc.iter().iter().map(|(k, p)| (*k, p.0)).collect();
    let pages: Vec<u32> = toc.empty_pages().iter().map(|p| p.0).collect();
    rkyv::to_bytes::<rkyv::rancor::Error>(&(records, pages, toc.estimated_size() as u32))
        .unwrap()
        .to_vec()
}

#[test]
fn a_table_has_the_byte_form_of_the_archive() {
    let mut toc = TableOfContentsPage::<u16>::default();
    assert_eq!(toc.as_bytes(), archived_u16(&toc));
    toc.insert(0x0304, 9.into());
    toc.insert(0x0102, 7.into());
    let bytes = toc.as_bytes();
    assert_eq!(bytes.len(), toc.estimated_size());
    assert_eq!(bytes, archived_u16(&toc));
    // The page of a record lies on a multiple of 4 behind its key.
    assert_eq!(&bytes[..8], &[2, 1, 0, 0, 7, 0, 0, 0]);
    assert_eq!(TableOfContentsPage::<u16>::from_bytes(&bytes).unwrap().iter(), toc.iter());
    let mut spoilt = bytes.clone();
    spoilt[2] = 1;
    assert!(TableOfContentsPage::<u16>::from_bytes(&spoilt).is_err());
    toc.insert(0x0506, 11.into());
    assert_eq!(toc.remove(&0x0304), 9.into());
    assert_eq!(toc.as_bytes(), archived_u16(&toc));
    assert_eq!(toc.as_bytes().len(), toc.estimated_size());

    let mut toc = TableOfContentsPage::<u64>::default();
    for key in [5u64, 1, 9, 3] {
        toc.insert(key << 33, ((key as u32) + 20).into());
    }
    assert_eq!(toc.remove_without_record(&(9u64 << 33)), 29.into());
    assert_eq!(toc.remove(&(1u64 << 33)), 21.into());
    let bytes = toc.as_bytes();
    assert_eq!(bytes, archived_u64(&toc));
    let back = TableOfContentsPage::<u64>::from_bytes(&bytes).unwrap();
    assert_eq!(back.iter(), toc.iter());
    assert_eq!(back.empty_pages(), toc.empty_pages());
    assert_eq!(back.estimated_size(), toc.estimated_size());
    for at in 0..bytes.len() {
        let mut spoilt = bytes.clone();
        spoilt[at] ^= 0x11;
        match TableOfContentsPage::<u64>::from_bytes(&spoilt) {
            Ok(other) => assert_eq!(other.as_bytes(), spoilt),
            Err(e) => assert_eq!(e, data_bucket::Error::Decode),
        }
    }
}

#[test]
fn a_table_with_string_keys_has_the_byte_form_of_the_archive() {
    let mut toc = TableOfContentsPage::<String>::default();
    let archived = |toc: &TableOfContentsPage<String>| -> Vec<u8> {
        let records: Vec<(String, u32)> =
            toc.iter().iter().map(|(k, p)| (k.clone(), p.0)).collect();
        let pages: Vec<u32> = toc.empty_pages().iter().map(|p| p.0).collect();
        rkyv::to_bytes::<rkyv::rancor::Error>(&(records, pages, toc.estimated_size() as u32))
            .unwrap()
            .to_vec()
    };
    assert_eq!(toc.as_bytes(), archived(&toc));
    for (i, key) in [
        "short",
        "",
        "a key that is long",
        "12345678",
        "123456789",
        "another key that lies out of line",
    ]
    .iter()
    .enumerate()
    {
        toc.insert(key.to_string(), (i as u32 + 3).into());
        assert!(toc.is_storable());
        let bytes = toc.as_bytes();
        assert_eq!(bytes, archived(&toc));
        let back = TableOfContentsPage::<String>::from_bytes(&bytes).unwrap();
        assert_eq!(back.iter(), toc.iter());
        assert_eq!(back.empty_pages(), toc.empty_pages());
        assert_eq!(back.estimated_size(), toc.estimated_size());
    }
    assert_eq!(toc.remove(&"12345678".to_string()), 6.into());
    let bytes = toc.as_bytes();
    assert_eq!(bytes, archived(&toc));
    for at in 0..bytes.len() {
        let mut spoilt = bytes.clone();
        spoilt[at] ^= 0x21;
        match TableOfContentsPage::<String>::from_bytes(&spoilt) {
            Ok(other) => assert_eq!(other.as_bytes(), spoilt),
            Err(e) => assert_eq!(e, data_bucket::Error::Decode),
        }
    }
    assert!(TableOfContentsPage::<String>::from_bytes(&bytes[4..]).is_err());
}

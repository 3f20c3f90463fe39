use data_bucket::util::persistable::round_trip;
use data_bucket::{Interval, Link, Persistable, SpaceInfoPage, INNER_PAGE_SIZE};

#[test]
fn space_info_test_as_bytes() {
    let info = SpaceInfoPage {
        id: 0.into(),
        page_count: 0,
        name: "Test".to_string(),
        row_schema: vec![],
        primary_key_fields: vec![],
        pk_gen_state: 0u128,
        empty_links_list: vec![],
        secondary_index_types: vec![],
    };
    let bytes = info.as_bytes();
    assert!(bytes.len() < INNER_PAGE_SIZE)
}

#[test]
fn a_space_info_that_is_written_reads_as_itself() {
    let info = SpaceInfoPage {
        id: 3.into(),
        page_count: 12,
        name: "Test table with a long name".to_string(),
        row_schema: vec![
            ("id".to_string(), "u64".to_string()),
            ("name".to_string(), "String".to_string()),
        ],
        primary_key_fields: vec!["id".to_string()],
        pk_gen_state: 77u64,
        empty_links_list: vec![
            Link {
                page_id: 2.into(),
                offset: 0,
                length: 24,
            },
            Link {
                page_id: 2.into(),
                offset: 48,
                length: 28,
            },
        ],
        secondary_index_types: vec![("by_name".to_string(), "String".to_string())],
    };
    let bytes = info.as_bytes();
    assert_eq!(SpaceInfoPage::<u64>::from_bytes(&bytes), Ok(info.clone()));
    assert_eq!(round_trip(&info), info);
    assert!(SpaceInfoPage::<u64>::from_bytes(&bytes[..bytes.len() - 1]).is_err());
    assert!(SpaceInfoPage::<u128>::from_bytes(&bytes).is_err());
    assert!(SpaceInfoPage::<u64>::from_bytes(&[]).is_err());
}

#[test]
fn an_interval_contains_what_lies_inside() {
    assert!(Interval(1, 10).contains(&Interval(2, 9)));
    assert!(Interval(1, 10).contains(&Interval(1, 10)));
    assert!(!Interval(1, 10).contains(&Interval(0, 9)));
    assert!(!Interval(1, 10).contains(&Interval(2, 11)));
}

fn info(name: &str, rows: usize, links: usize) -> SpaceInfoPage<u64> {
    SpaceInfoPage {
        id: 7.into(),
        page_count: 1000,
        pk_gen_state: 0x0102030405060708u64,
        name: name.to_string(),
        row_schema: (0..rows)
            .map(|i| (format!("column {}", i), "a type with a long name".repeat(i % 3)))
            .collect(),
        primary_key_fields: (0..rows).map(|i| "key".repeat(i)).collect(),
        secondary_index_types: (0..rows)
            .map(|i| ("i".repeat(i * 5), "String".to_string()))
            .collect(),
        empty_links_list: (0..links)
            .map(|i| Link {
                page_id: (i as u32).into(),
                offset: 4 * i as u32,
                length: 24,
            })
            .collect(),
    }
}

fn archived<Pk, A>(page: &SpaceInfoPage<Pk>, state: A) -> Vec<u8>
where
    A: for<'a> rkyv::Serialize<
        rkyv::api::high::HighSerializer<
            rkyv::util::AlignedVec,
            rkyv::ser::allocator::ArenaHandle<'a>,
            rkyv::rancor::Error,
        >,
    >,
{
    let links: Vec<(u32, u32, u32)> = page
        .empty_links_list
        .iter()
        .map(|l| (l.page_id.0, l.offset, l.length))
        .collect();
    rkyv::to_bytes::<rkyv::rancor::Error>(&(
        page.id.0,
        page.page_count,
        state,
        page.name.clone(),
        page.row_schema.clone(),
        page.primary_key_fields.clone(),
        page.secondary_index_types.clone(),
        links,
    ))
    .unwrap()
    .to_vec()
}

#[test]
fn a_space_info_has_the_byte_form_of_the_archive() {
    for name in ["", "Test", "12345678", "123456789", "A table with a long name"] {
        for rows in [0, 1, 2, 5] {
            for links in [0, 1, 3] {
                let page = info(name, rows, links);
                assert!(page.is_storable());
                let bytes = page.as_bytes();
                assert_eq!(bytes, archived(&page, page.pk_gen_state));
                assert_eq!(SpaceInfoPage::<u64>::from_bytes(&bytes), Ok(page.clone()));
                let narrow = SpaceInfoPage {
                    id: page.id,
                    page_count: page.page_count,
                    pk_gen_state: 9u16,
                    name: page.name.clone(),
                    row_schema: page.row_schema.clone(),
                    primary_key_fields: page.primary_key_fields.clone(),
                    secondary_index_types: page.secondary_index_types.clone(),
                    empty_links_list: page.empty_links_list.clone(),
                };
                let bytes = narrow.as_bytes();
                assert_eq!(bytes, archived(&narrow, 9u16));
                assert_eq!(SpaceInfoPage::<u16>::from_bytes(&bytes), Ok(narrow));
                let wide = SpaceInfoPage {
                    id: page.id,
                    page_count: page.page_count,
                    pk_gen_state: u128::MAX - 3,
                    name: page.name.clone(),
                    row_schema: page.row_schema.clone(),
                    primary_key_fields: page.primary_key_fields.clone(),
                    secondary_index_types: page.secondary_index_types.clone(),
                    empty_links_list: page.empty_links_list.clone(),
                };
                let bytes = wide.as_bytes();
                assert_eq!(bytes, archived(&wide, u128::MAX - 3));
                assert_eq!(SpaceInfoPage::<u128>::from_bytes(&bytes), Ok(wide));
                let bare = SpaceInfoPage {
                    id: page.id,
                    page_count: page.page_count,
                    pk_gen_state: (),
                    name: page.name.clone(),
                    row_schema: page.row_schema.clone(),
                    primary_key_fields: page.primary_key_fields.clone(),
                    secondary_index_types: page.secondary_index_types.clone(),
                    empty_links_list: page.empty_links_list.clone(),
                };
                let bytes = bare.as_bytes();
                assert_eq!(bytes, archived(&bare, ()));
                assert_eq!(SpaceInfoPage::<()>::from_bytes(&bytes), Ok(bare));
            }
        }
    }
}

#[test]
fn bytes_that_spell_no_space_info_are_refused() {
    let page = info("A table with a long name", 2, 2);
    let bytes = page.as_bytes();
    for at in 0..bytes.len() {
        let mut spoilt = bytes.clone();
        spoilt[at] ^= 0x55;
        match SpaceInfoPage::<u64>::from_bytes(&spoilt) {
            Ok(other) => {
                assert_ne!(other, page);
                assert_eq!(other.as_bytes(), spoilt);
            }
            Err(e) => assert_eq!(e, data_bucket::Error::Decode),
        }
    }
    let mut longer = bytes.clone();
    longer.extend_from_slice(&[0; 8]);
    assert!(SpaceInfoPage::<u64>::from_bytes(&longer).is_err());
    assert!(SpaceInfoPage::<u64>::from_bytes(&bytes[8..]).is_err());
}

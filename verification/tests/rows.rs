use data_bucket::page::index::cells::{decode_values, encode_values};
use data_bucket::page::index::mappers::map_tree_index;
use data_bucket::persistence::data::{
    advance_accum_for_padding, is_primitive, parse_archived_row, parse_row, DataType,
    DataTypeValue,
};
use data_bucket::{Error, IndexValue, Link, SizeMeasurable, INNER_PAGE_SIZE, PAGE_SIZE};
use indexset::concurrent::map::BTreeMap;
use indexset::concurrent::multimap::BTreeMultiMap;

#[test]
fn rkyv_data_test_parse_archived_row() {
    let buffer = rkyv::to_bytes::<rkyv::rancor::Error>(&("000000000000000".to_string(),)).unwrap();
    let parsed = parse_archived_row(
        &buffer,
        &vec![("string1".to_string(), "String".to_string())],
    )
    .unwrap();
    assert_eq!(
        parsed,
        [DataTypeValue::String("000000000000000".to_string())]
    )
}

#[test]
fn a_row_of_many_types_is_read() {
    let row = (
        "000000000000000".to_string(),
        20u32,
        "aaaaaaaa".to_string(),
        3u8,
        -4i8,
        5u8,
        -6i32,
        7u8,
        "x".to_string(),
        -8i8,
    );
    let buffer = rkyv::to_bytes::<rkyv::rancor::Error>(&row).unwrap();
    let columns: Vec<(String, String)> = [
        "String", "u32", "String", "u8", "i8", "u8", "i32", "u8", "String", "i8",
    ]
    .iter()
    .enumerate()
    .map(|(i, ty)| (format!("column{}", i), ty.to_string()))
    .collect();
    assert_eq!(
        parse_archived_row(&buffer, &columns),
        Ok(vec![
            DataTypeValue::String("000000000000000".to_string()),
            DataTypeValue::U32(20),
            DataTypeValue::String("aaaaaaaa".to_string()),
            DataTypeValue::U8(3),
            DataTypeValue::I8(-4),
            DataTypeValue::U8(5),
            DataTypeValue::I32(-6),
            DataTypeValue::U8(7),
            DataTypeValue::String("x".to_string()),
            DataTypeValue::I8(-8),
        ])
    );
}

#[test]
fn wide_numbers_are_read() {
    let row = (
        0x0102030405060708090a0b0c0d0e0f10u128,
        -8i64,
        u64::MAX,
        -9i128,
        -10i16,
        11u16,
        -12i32,
        i64::MIN,
    );
    let buffer = rkyv::to_bytes::<rkyv::rancor::Error>(&row).unwrap();
    let types = vec![
        DataType::U128,
        DataType::I64,
        DataType::U64,
        DataType::I128,
        DataType::I16,
        DataType::U16,
        DataType::I32,
        DataType::I64,
    ];
    assert_eq!(
        parse_row(&buffer, &types),
        Ok(vec![
            DataTypeValue::U128(0x0102030405060708090a0b0c0d0e0f10),
            DataTypeValue::I64(-8),
            DataTypeValue::U64(u64::MAX),
            DataTypeValue::I128(-9),
            DataTypeValue::I16(-10),
            DataTypeValue::U16(11),
            DataTypeValue::I32(-12),
            DataTypeValue::I64(i64::MIN),
        ])
    );
}

#[test]
fn floating_point_columns_are_read_as_their_bits() {
    let buffer = rkyv::to_bytes::<rkyv::rancor::Error>(&(2.5f32, 1.5f64)).unwrap();
    assert_eq!(
        parse_row(&buffer, &vec![DataType::F32, DataType::F64]),
        Ok(vec![
            DataTypeValue::F32(2.5f32.to_bits()),
            DataTypeValue::F64(1.5f64.to_bits()),
        ])
    );
}

#[test]
fn rows_that_are_none_are_refused() {
    assert_eq!(
        parse_archived_row(&[0u8; 8], &vec![("a".to_string(), "Text".to_string())]),
        Err(Error::Decode)
    );
    assert_eq!(
        parse_row(&[0u8; 4], &vec![DataType::U64]),
        Err(Error::Decode)
    );
    // A reference to a text that lies outside the bytes.
    assert_eq!(
        parse_row(
            &[0x89, 0, 0, 0, 0x10, 0, 0, 0],
            &vec![DataType::String]
        ),
        Err(Error::Decode)
    );
    assert_eq!(parse_row(&[], &vec![]), Ok(vec![]));
}

#[test]
fn offsets_are_padded_and_names_are_known() {
    assert_eq!(advance_accum_for_padding(0, 4), 0);
    assert_eq!(advance_accum_for_padding(5, 4), 8);
    assert_eq!(advance_accum_for_padding(8, 8), 8);
    assert_eq!(advance_accum_for_padding(9, 16), 16);
    assert!(is_primitive("u8"));
    assert!(is_primitive("isize"));
    assert!(is_primitive("f32"));
    assert!(is_primitive("char"));
    assert!(!is_primitive("u128"));
    assert!(!is_primitive("String"));
    assert!(!is_primitive(""));
    assert_eq!(DataType::from_name("i128"), Some(DataType::I128));
    assert_eq!(DataType::from_name("i12"), None);
    assert_eq!(DataType::String.size(), 8);
    assert_eq!(DataType::String.padding(), 4);
    assert_eq!(DataType::U128.padding(), 16);
}

fn pairs<T: Clone + Ord + Send + std::fmt::Debug>(index: &BTreeMap<T, Link>) -> Vec<(T, Link)> {
    index.iter().map(|(k, l)| (k.clone(), *l)).collect()
}

fn plain(link: Link) -> (u32, u32, u32) {
    (link.page_id.0, link.offset, link.length)
}

fn archived(page: &[IndexValue<u32>]) -> Vec<u8> {
    let entries: Vec<(u32, (u32, u32, u32))> =
        page.iter().map(|v| (v.key, plain(v.link))).collect();
    rkyv::to_bytes::<rkyv::rancor::Error>(&entries)
        .unwrap()
        .to_vec()
}

#[test]
fn mappers_map_single_value() {
    let index = BTreeMap::new();
    let l = Link {
        page_id: 1.into(),
        offset: 0,
        length: 32,
    };
    index.insert(1u32, l);

    let res = map_tree_index::<_, { PAGE_SIZE }>(&pairs(&index));
    assert_eq!(res.len(), 1);
    assert_eq!(res[0].len(), 1);
    let v = &res[0][0];
    assert_eq!(v.key, 1);
    assert_eq!(v.link, l);
    assert_eq!(
        archived(&res[0]).len(),
        1u32.aligned_size() + l.aligned_size() + 8
    );
    assert_eq!(encode_values(&res[0]), archived(&res[0]));
    assert_eq!(res[0].aligned_size(), archived(&res[0]).len());
}

#[test]
fn mappers_map_page_border() {
    let index = BTreeMap::new();
    for i in 0..1023u32 {
        let l = Link {
            page_id: 1.into(),
            offset: 0,
            length: 32,
        };
        index.insert(i, l);
    }

    let res = map_tree_index::<_, { PAGE_SIZE }>(&pairs(&index));
    assert_eq!(res.len(), 1);
    assert_eq!(res[0].len(), 1023);
    // As 1023 * 16 + 8
    assert_eq!(archived(&res[0]).len(), 16_376);
    assert_eq!(encode_values(&res[0]), archived(&res[0]));

    let l = Link {
        page_id: 1.into(),
        offset: 0,
        length: 32,
    };
    index.insert(1024, l);
    let res = map_tree_index::<_, { PAGE_SIZE }>(&pairs(&index));
    assert_eq!(res.len(), 2);
    assert_eq!(res[0].len(), 1023);
    assert_eq!(res[1].len(), 1);
    // As 16 + 8
    assert_eq!(archived(&res[0]).len(), 16_376);
    assert_eq!(archived(&res[1]).len(), 24);
    assert_eq!(encode_values(&res[1]), archived(&res[1]));
    assert_eq!(res[1].aligned_size(), 24);
}

#[test]
fn mappers_map_single_string() {
    let index = BTreeMap::new();
    let l = Link {
        page_id: 1.into(),
        offset: 0,
        length: 32,
    };
    let s = "some string example".to_string();
    index.insert(s.clone(), l);

    let res = map_tree_index::<_, { PAGE_SIZE }>(&pairs(&index));
    assert_eq!(res.len(), 1);
    assert_eq!(res[0].len(), 1);
    let v = &res[0][0];
    assert_eq!(v.key, s);
    assert_eq!(v.link, l);
    let entries: Vec<(String, (u32, u32, u32))> = res[0]
        .iter()
        .map(|v| (v.key.clone(), plain(v.link)))
        .collect();
    assert_eq!(
        rkyv::to_bytes::<rkyv::rancor::Error>(&entries)
            .unwrap()
            .len(),
        s.aligned_size() + l.aligned_size() + 8
    )
}

#[test]
fn an_entry_that_is_too_long_gets_a_page_of_its_own() {
    let l = Link::default();
    let index = vec![
        ("a".repeat(40), l),
        ("b".repeat(200), l),
        ("c".repeat(10), l),
        ("d".repeat(10), l),
    ];
    let res = map_tree_index::<String, 100>(&index);
    let keys: Vec<Vec<usize>> = res
        .iter()
        .map(|p| p.iter().map(|v| v.key.len()).collect())
        .collect();
    assert_eq!(keys, vec![vec![40], vec![200], vec![10, 10]]);
    assert_eq!(map_tree_index::<String, 100>(&[]), vec![vec![]]);
}

#[test]
fn mappers_map_unique_and_back() {
    let index = BTreeMap::new();
    for i in 0..1023u32 {
        let l = Link {
            page_id: 1.into(),
            offset: 0,
            length: 32,
        };
        index.insert(i, l);
    }

    let pages = map_tree_index::<_, { PAGE_SIZE }>(&pairs(&index));
    let res_index: BTreeMap<u32, Link> = BTreeMap::new();

    for page in pages {
        for value in page {
            res_index.insert(value.key, value.link);
        }
    }

    assert_eq!(
        index.iter().collect::<Vec<_>>(),
        res_index.iter().collect::<Vec<_>>()
    )
}

#[test]
fn mappers_map_and_back() {
    let index: BTreeMultiMap<u32, Link> = BTreeMultiMap::new();
    for i in 0..256u32 {
        for j in 0..4u32 {
            let l = Link {
                page_id: j.into(),
                offset: 0,
                length: 32,
            };
            index.insert(i, l);
        }
    }

    let entries: Vec<(u32, Link)> = index.iter().map(|(k, l)| (*k, *l)).collect();
    let pages = map_tree_index::<_, { PAGE_SIZE }>(&entries);
    let res_index: BTreeMultiMap<u32, Link> = BTreeMultiMap::new();

    for page in pages {
        for value in page {
            res_index.insert(value.key, value.link);
        }
    }

    let mut vals = index.iter().collect::<Vec<_>>();

    for v in res_index.iter() {
        assert!(vals.contains(&v));
        let i = vals.iter().position(|n| n == &v).unwrap();
        vals.remove(i);
    }

    assert!(vals.is_empty())
}

#[test]
fn mappers_test_as_bytes() {
    let index = BTreeMap::new();
    for i in 0..1022u32 {
        let l = Link {
            page_id: 1.into(),
            offset: 0,
            length: 32,
        };
        index.insert(i, l);
    }
    let pages = map_tree_index::<_, { INNER_PAGE_SIZE }>(&pairs(&index));
    let page = pages.get(0).unwrap();

    let bytes = encode_values(page);
    assert!(bytes.len() <= INNER_PAGE_SIZE);
    assert_eq!(bytes, archived(page));
    assert_eq!(decode_values::<u32>(&bytes).as_ref(), Some(page));
}

#[test]
fn columns_are_as_wide_as_their_widest_text() {
    let header = vec!["val".to_string(), "attr".to_string(), "x".to_string()];
    let rows = vec![
        vec!["1".to_string(), "string 1".to_string()],
        vec!["100000".to_string(), "s".to_string(), "".to_string()],
    ];
    assert_eq!(
        data_bucket::persistence::data::column_widths(&header, &rows),
        vec![6, 8, 1]
    );
    assert_eq!(
        data_bucket::persistence::data::column_widths(&header, &vec![]),
        vec![3, 4, 1]
    );
}

#[test]
fn a_row_of_eleven_columns_is_read() {
    let row = (
        "000000000000000".to_string(),
        20u32,
        "aaaaaaaa".to_string(),
        3u8,
        4i8,
        5u8,
        6i32,
        7u8,
        "x".to_owned(),
        8i8,
        3.14159265358f64,
    );
    let buffer = rkyv::to_bytes::<rkyv::rancor::Error>(&row).unwrap();
    let parsed = parse_archived_row(
        &buffer,
        &vec![
            ("string1".to_string(), "String".to_string()),
            ("int1".to_string(), "i32".to_string()),
            ("string2".to_string(), "String".to_string()),
            ("int2".to_string(), "u8".to_string()),
            ("int3".to_string(), "i8".to_string()),
            ("int4".to_string(), "u8".to_string()),
            ("int5".to_string(), "i32".to_string()),
            ("int6".to_string(), "u8".to_string()),
            ("string3".to_string(), "String".to_string()),
            ("int7".to_string(), "i8".to_string()),
            ("float1".to_string(), "f64".to_string()),
        ],
    )
    .unwrap();
    assert_eq!(
        parsed,
        [
            DataTypeValue::String("000000000000000".to_string()),
            DataTypeValue::I32(20),
            DataTypeValue::String("aaaaaaaa".to_string()),
            DataTypeValue::U8(3),
            DataTypeValue::I8(4),
            DataTypeValue::U8(5),
            DataTypeValue::I32(6),
            DataTypeValue::U8(7),
            DataTypeValue::String("x".to_string()),
            DataTypeValue::I8(8),
            DataTypeValue::F64(3.14159265358f64.to_bits()),
        ]
    );
    match &parsed[10] {
        DataTypeValue::F64(bits) => {
            assert_eq!(f64::from_bits(*bits).to_string(), "3.14159265358")
        }
        other => panic!("{:?}", other),
    }
}

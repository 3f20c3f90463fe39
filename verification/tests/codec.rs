use data_bucket::page::index::cells::{decode_slots, encode_slots};
use data_bucket::util::aligned::try_align_vec;
use data_bucket::util::persistable::round_trip;
use data_bucket::{Error, ErrorKind, IndexValue, Link, Persistable, SizeMeasurable};

fn plain(link: Link) -> (u32, u32, u32) {
    (link.page_id.0, link.offset, link.length)
}

#[test]
fn link_length_valid() {
    let link = Link {
        page_id: 1.into(),
        offset: 10,
        length: 20,
    };
    let bytes = link.as_bytes();

    assert_eq!(bytes.len(), data_bucket::link::LINK_LENGTH)
}

#[test]
fn link_bytes_are_three_numbers_low_byte_first() {
    let link = Link {
        page_id: 1.into(),
        offset: 0x0102,
        length: 20,
    };
    assert_eq!(
        link.as_bytes(),
        vec![1, 0, 0, 0, 2, 1, 0, 0, 20, 0, 0, 0]
    );
    assert_eq!(
        link.as_bytes(),
        rkyv::to_bytes::<rkyv::rancor::Error>(&plain(link))
            .unwrap()
            .to_vec()
    );
    assert_eq!(Link::from_bytes(&link.as_bytes()).unwrap(), link);
    assert_eq!(Link::from_bytes(&[0u8; 11]), Err(Error::Decode));
}

#[test]
fn numbers_have_the_byte_form_of_the_archive() {
    assert_eq!(Persistable::as_bytes(&0x0102u16), vec![2, 1]);
    assert_eq!(
        Persistable::as_bytes(&0x01020304u32),
        rkyv::to_bytes::<rkyv::rancor::Error>(&0x01020304u32)
            .unwrap()
            .to_vec()
    );
    assert_eq!(
        Persistable::as_bytes(&0x0102030405060708u64),
        rkyv::to_bytes::<rkyv::rancor::Error>(&0x0102030405060708u64)
            .unwrap()
            .to_vec()
    );
    assert_eq!(u64::from_bytes(&[8, 7, 6, 5, 4, 3, 2, 1]), Ok(0x0102030405060708));
    assert_eq!(u64::from_bytes(&[8, 7, 6, 5]), Err(Error::Decode));
    assert_eq!(u16::from_bytes(&[8]), Err(Error::Decode));
    assert_eq!(u8::from_bytes(&[8]), Ok(8));
    assert_eq!(
        Persistable::as_bytes(&(7u64, Link::default())),
        rkyv::to_bytes::<rkyv::rancor::Error>(&(7u64, plain(Link::default())))
            .unwrap()
            .to_vec()
    );
}

#[test]
fn strings_have_the_byte_form_of_the_archive() {
    for i in 0..300 {
        let s = String::from_utf8(vec![b'a' + (i % 26) as u8; i]).unwrap();
        let bytes = Persistable::as_bytes(&s);
        assert_eq!(
            bytes,
            rkyv::to_bytes::<rkyv::rancor::Error>(&s).unwrap().to_vec()
        );
        assert_eq!(<String as Persistable>::from_bytes(&bytes), Ok(s));
    }
    let s = "Grüße, мир, 世界".to_string();
    let bytes = Persistable::as_bytes(&s);
    assert_eq!(
        bytes,
        rkyv::to_bytes::<rkyv::rancor::Error>(&s).unwrap().to_vec()
    );
    assert_eq!(<String as Persistable>::from_bytes(&bytes), Ok(s));
}

#[test]
fn short_strings_lie_in_place() {
    assert_eq!(
        Persistable::as_bytes(&"abc".to_string()),
        vec![b'a', b'b', b'c', 0xff, 0xff, 0xff, 0xff, 0xff]
    );
    assert_eq!(
        Persistable::as_bytes(&"".to_string()),
        vec![0xff; 8]
    );
}

#[test]
fn bytes_that_spell_no_string_are_refused() {
    // Not UTF-8.
    assert_eq!(
        <String as Persistable>::from_bytes(&[0xc3, 0x28, 0xff, 0xff, 0xff, 0xff, 0xff, 0xff]),
        Err(Error::Decode)
    );
    // A byte behind the end of the text.
    assert_eq!(
        <String as Persistable>::from_bytes(&[b'a', 0xff, b'b', 0xff, 0xff, 0xff, 0xff, 0xff]),
        Err(Error::Decode)
    );
    // No length that a string has.
    assert_eq!(
        <String as Persistable>::from_bytes(&[b'a'; 9]),
        Err(Error::Decode)
    );
    // A long string whose padding is not zero.
    let mut bytes = Persistable::as_bytes(&"123456789".to_string());
    assert_eq!(bytes.len(), 20);
    bytes[10] = 1;
    assert_eq!(<String as Persistable>::from_bytes(&bytes), Err(Error::Decode));
    assert_eq!(Error::Decode.kind(), ErrorKind::Decode);
}

#[test]
fn entries_have_the_byte_form_of_the_archive() {
    let link = Link {
        page_id: 3.into(),
        offset: 40,
        length: 80,
    };
    for key in ["", "short", "Someone from somewhere"] {
        let value = IndexValue {
            key: key.to_string(),
            link,
        };
        let bytes = value.as_bytes();
        assert_eq!(
            bytes,
            rkyv::to_bytes::<rkyv::rancor::Error>(&(key.to_string(), plain(link)))
                .unwrap()
                .to_vec()
        );
        assert_eq!(IndexValue::<String>::from_bytes(&bytes), Ok(value));
    }
    let value = IndexValue { key: 77u32, link };
    assert_eq!(
        value.as_bytes(),
        rkyv::to_bytes::<rkyv::rancor::Error>(&(77u32, plain(link)))
            .unwrap()
            .to_vec()
    );
}

#[test]
fn a_value_that_is_written_reads_as_itself() {
    assert_eq!(round_trip(&17u8), 17);
    assert_eq!(round_trip(&17u16), 17);
    assert_eq!(round_trip(&17u32), 17);
    assert_eq!(round_trip(&17u64), 17);
    assert_eq!(round_trip(&17u128), 17);
    assert_eq!(round_trip(&()), ());
    assert_eq!(round_trip(&"seventeen".to_string()), "seventeen");
    let link = Link {
        page_id: 1.into(),
        offset: 2,
        length: 3,
    };
    assert_eq!(round_trip(&link), link);
    assert_eq!(round_trip(&(5u64, link)), (5u64, link));
}

#[test]
fn slots_have_the_byte_form_of_the_archive() {
    for n in 0..9u16 {
        let slots: Vec<u16> = (0..n).map(|i| i * 3 + 1).collect();
        let bytes = encode_slots(&slots);
        assert_eq!(
            bytes,
            rkyv::to_bytes::<rkyv::rancor::Error>(&slots)
                .unwrap()
                .to_vec()
        );
        assert_eq!(decode_slots(&bytes), Some(slots));
    }
    assert_eq!(decode_slots(&[1, 0, 0, 0, 0, 0, 0, 0, 0, 0, 0, 1]), None);
}

#[test]
fn aligned_vectors_are_filled_up_to_four() {
    let mut v = rkyv::util::AlignedVec::<16>::new();
    v.extend_from_slice(&[1, 2, 3, 4, 5]);
    let aligned = data_bucket::align_vec(v);
    assert_eq!(aligned.as_slice(), &[1, 2, 3, 4, 5, 0, 0, 0]);
    let mut v = rkyv::util::AlignedVec::<16>::new();
    v.extend_from_slice(&[1, 2, 3, 4]);
    let aligned = try_align_vec(v).unwrap();
    assert_eq!(aligned.as_slice(), &[1, 2, 3, 4]);
}

#[test]
fn signed_numbers_are_written_in_twos_complement() {
    for v in [0i64, 1, -1, i64::MIN, i64::MAX, -123456789] {
        let bytes = Persistable::as_bytes(&v);
        assert_eq!(
            bytes,
            rkyv::to_bytes::<rkyv::rancor::Error>(&v).unwrap().to_vec()
        );
        assert_eq!(i64::from_bytes(&bytes), Ok(v));
        assert_eq!(round_trip(&v), v);
    }
    for v in [0i32, 1, -1, i32::MIN, i32::MAX, -123456789] {
        let bytes = Persistable::as_bytes(&v);
        assert_eq!(
            bytes,
            rkyv::to_bytes::<rkyv::rancor::Error>(&v).unwrap().to_vec()
        );
        assert_eq!(i32::from_bytes(&bytes), Ok(v));
    }
    assert_eq!(i32::from_bytes(&[0; 3]), Err(Error::Decode));
    let mut page = data_bucket::IndexPage::<i64>::new(0, 4);
    let value = IndexValue {
        key: -5i64,
        link: Link::default(),
    };
    page.apply_change_event(data_bucket::ChangeEvent::InsertAt {
        max_value: value.clone(),
        value: value.clone(),
        index: 0,
    })
    .unwrap();
    // A key is above the node id of an empty page only if it is above zero.
    assert_eq!(page.node_id, 0);
    assert_eq!(round_trip(&page), page);
}

#[test]
fn short_and_wide_numbers_are_keys() {
    let link = Link {
        page_id: 1.into(),
        offset: 2,
        length: 3,
    };
    for v in [i8::MIN, -1, 0, 1, i8::MAX] {
        let bytes = Persistable::as_bytes(&v);
        assert_eq!(
            bytes,
            rkyv::to_bytes::<rkyv::rancor::Error>(&v).unwrap().to_vec()
        );
        assert_eq!(<i8 as Persistable>::from_bytes(&bytes), Ok(v));
        assert_eq!(round_trip(&IndexValue { key: v, link }).key, v);
    }
    for v in [i16::MIN, -2, 0, 258, i16::MAX] {
        let bytes = Persistable::as_bytes(&v);
        assert_eq!(
            bytes,
            rkyv::to_bytes::<rkyv::rancor::Error>(&v).unwrap().to_vec()
        );
        assert_eq!(<i16 as Persistable>::from_bytes(&bytes), Ok(v));
        assert_eq!(round_trip(&IndexValue { key: v, link }).key, v);
    }
    for v in [i128::MIN, -3, 0, 1 << 100, i128::MAX] {
        let bytes = Persistable::as_bytes(&v);
        assert_eq!(
            bytes,
            rkyv::to_bytes::<rkyv::rancor::Error>(&v).unwrap().to_vec()
        );
        assert_eq!(<i128 as Persistable>::from_bytes(&bytes), Ok(v));
        assert_eq!(round_trip(&IndexValue { key: v, link }).key, v);
    }
    assert_eq!(<i16 as Persistable>::from_bytes(&[1]), Err(Error::Decode));
    assert_eq!(<i128 as Persistable>::from_bytes(&[0; 15]), Err(Error::Decode));
    let wide = IndexValue {
        key: u128::MAX - 5,
        link,
    };
    assert_eq!(round_trip(&wide), wide);
    assert_eq!(Persistable::as_bytes(&wide).len(), 32);
    let mut page = data_bucket::IndexPage::<i16>::new(0, 4);
    page.apply_change_event(data_bucket::ChangeEvent::InsertAt {
        max_value: IndexValue { key: -5, link },
        value: IndexValue { key: -5, link },
        index: 0,
    })
    .unwrap();
    page.apply_change_event(data_bucket::ChangeEvent::InsertAt {
        max_value: IndexValue { key: 9, link },
        value: IndexValue { key: 9, link },
        index: 1,
    })
    .unwrap();
    assert_eq!(page.node_id, 9);
    let bytes = page.as_bytes();
    assert_eq!(data_bucket::IndexPage::<i16>::from_bytes(&bytes), Ok(page));
}

#[test]
fn vectors_have_the_byte_form_of_the_archive() {
    for n in [0usize, 1, 2, 3, 7, 100] {
        let bytes: Vec<u8> = (0..n).map(|i| i as u8).collect();
        assert_eq!(
            Persistable::as_bytes(&bytes),
            rkyv::to_bytes::<rkyv::rancor::Error>(&bytes).unwrap().to_vec()
        );
        assert_eq!(Persistable::as_bytes(&bytes).len(), bytes.aligned_size());
        assert_eq!(round_trip(&bytes), bytes);
        let shorts: Vec<u16> = (0..n).map(|i| (i * 259) as u16).collect();
        assert_eq!(
            Persistable::as_bytes(&shorts),
            rkyv::to_bytes::<rkyv::rancor::Error>(&shorts).unwrap().to_vec()
        );
        assert_eq!(Persistable::as_bytes(&shorts).len(), shorts.aligned_size());
        assert_eq!(round_trip(&shorts), shorts);
        let words: Vec<u32> = (0..n).map(|i| (i * 65537) as u32).collect();
        assert_eq!(
            Persistable::as_bytes(&words),
            rkyv::to_bytes::<rkyv::rancor::Error>(&words).unwrap().to_vec()
        );
        assert_eq!(Persistable::as_bytes(&words).len(), words.aligned_size());
        let wide: Vec<u64> = (0..n).map(|i| (i as u64) << 40).collect();
        assert_eq!(
            Persistable::as_bytes(&wide),
            rkyv::to_bytes::<rkyv::rancor::Error>(&wide).unwrap().to_vec()
        );
        assert_eq!(Persistable::as_bytes(&wide).len(), wide.aligned_size());
        assert_eq!(round_trip(&wide), wide);
        let signed: Vec<i64> = (0..n).map(|i| -(i as i64)).collect();
        assert_eq!(
            Persistable::as_bytes(&signed),
            rkyv::to_bytes::<rkyv::rancor::Error>(&signed).unwrap().to_vec()
        );
        let links: Vec<Link> = (0..n)
            .map(|i| Link {
                page_id: (i as u32).into(),
                offset: 2,
                length: 3,
            })
            .collect();
        let plain_links: Vec<(u32, u32, u32)> = links.iter().map(|l| plain(*l)).collect();
        assert_eq!(
            Persistable::as_bytes(&links),
            rkyv::to_bytes::<rkyv::rancor::Error>(&plain_links)
                .unwrap()
                .to_vec()
        );
        assert_eq!(Persistable::as_bytes(&links).len(), links.aligned_size());
        assert_eq!(round_trip(&links), links);
        let pairs: Vec<(u64, Link)> = links.iter().map(|l| (7u64, *l)).collect();
        let plain_pairs: Vec<(u64, (u32, u32, u32))> =
            links.iter().map(|l| (7u64, plain(*l))).collect();
        assert_eq!(
            Persistable::as_bytes(&pairs),
            rkyv::to_bytes::<rkyv::rancor::Error>(&plain_pairs)
                .unwrap()
                .to_vec()
        );
        assert_eq!(Persistable::as_bytes(&pairs).len(), pairs.aligned_size());
    }
    assert_eq!(
        <Vec<u32> as Persistable>::from_bytes(&[1, 0, 0, 0, 0, 0, 0, 0, 0, 0, 0]),
        Err(Error::Decode)
    );
    let mut bytes = Persistable::as_bytes(&vec![1u16, 2, 3]);
    assert_eq!(bytes.len(), 16);
    bytes[6] = 1;
    assert_eq!(<Vec<u16> as Persistable>::from_bytes(&bytes), Err(Error::Decode));
}

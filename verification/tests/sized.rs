use data_bucket::{
    align, align8, struct_aligned_size, IndexValue, Link, Persistable, SizeMeasurable,
    VariableSizeMeasurable,
};
use uuid::Uuid;

fn plain(link: Link) -> (u32, u32, u32) {
    (link.page_id.0, link.offset, link.length)
}

#[test]
fn test_uuid() {
    let u = Uuid::new_v4();
    assert_eq!(
        u.aligned_size(),
        rkyv::to_bytes::<rkyv::rancor::Error>(&u).unwrap().len()
    );
    let t = (Uuid::new_v4(), Link::default());
    assert_eq!(
        t.aligned_size(),
        rkyv::to_bytes::<rkyv::rancor::Error>(&(t.0, plain(t.1)))
            .unwrap()
            .len()
    );
    let v = IndexValue {
        key: u,
        link: Default::default(),
    };
    assert_eq!(
        v.aligned_size(),
        rkyv::to_bytes::<rkyv::rancor::Error>(&(v.key, plain(v.link)))
            .unwrap()
            .len()
    );
    let mut vec = Vec::new();
    vec.push(IndexValue {
        key: Uuid::new_v4(),
        link: Default::default(),
    });
    assert_eq!(
        vec.aligned_size(),
        rkyv::to_bytes::<rkyv::rancor::Error>(&tuples(&vec))
            .unwrap()
            .len()
    );
    for _ in 0..600 {
        vec.push(IndexValue {
            key: Uuid::new_v4(),
            link: Default::default(),
        })
    }
    assert_eq!(
        vec.aligned_size(),
        rkyv::to_bytes::<rkyv::rancor::Error>(&tuples(&vec))
            .unwrap()
            .len()
    )
}

fn tuples(entries: &[IndexValue<Uuid>]) -> Vec<(Uuid, (u32, u32, u32))> {
    entries.iter().map(|v| (v.key, plain(v.link))).collect()
}

#[test]
fn test_tuple() {
    let t = (u64::MAX, Link::default());
    assert_eq!(
        t.aligned_size(),
        rkyv::to_bytes::<rkyv::rancor::Error>(&(t.0, plain(t.1)))
            .unwrap()
            .len()
    );
    let t = (u32::MAX, Link::default());
    assert_eq!(
        t.aligned_size(),
        rkyv::to_bytes::<rkyv::rancor::Error>(&(t.0, plain(t.1)))
            .unwrap()
            .len()
    );
    let t = (u8::MAX, Link::default());
    assert_eq!(
        t.aligned_size(),
        rkyv::to_bytes::<rkyv::rancor::Error>(&(t.0, plain(t.1)))
            .unwrap()
            .len()
    )
}

#[test]
fn test_string() {
    for i in 0..10_000 {
        let s = String::from_utf8(vec![b'a'; i]).unwrap();
        assert_eq!(
            s.aligned_size(),
            rkyv::to_bytes::<rkyv::rancor::Error>(&s).unwrap().len()
        )
    }
}

#[test]
fn test_index_value_str() {
    for i in 0..10_000 {
        let s = String::from_utf8(vec![b'a'; i]).unwrap();
        let v = IndexValue {
            key: s,
            link: Default::default(),
        };
        assert_eq!(
            v.aligned_size(),
            rkyv::to_bytes::<rkyv::rancor::Error>(&(v.key.clone(), plain(v.link)))
                .unwrap()
                .len()
        )
    }
}

struct StringU {
    pub str: String,
    pub u: u16,
}

impl StringU {
    fn aligned_size(&self) -> usize {
        struct_aligned_size(&[self.str.aligned_size(), self.u.aligned_size()])
    }
}

#[test]
fn test_string_u16() {
    let s = StringU {
        str: "123456789".to_string(),
        u: 2,
    };
    assert_eq!(
        s.aligned_size(),
        rkyv::to_bytes::<rkyv::rancor::Error>(&(s.str.clone(), s.u))
            .unwrap()
            .len()
    )
}

struct MeasuredStruct {
    a: u32,
    b: u32,
}

impl MeasuredStruct {
    fn aligned_size(&self) -> usize {
        struct_aligned_size(&[self.a.aligned_size(), self.b.aligned_size()])
    }
}

#[test]
fn test_size_measure() {
    let measured_struct = MeasuredStruct { a: 3, b: 4 };
    assert_eq!(measured_struct.aligned_size(), 8);
}

#[test]
fn align_rounds_up_to_four() {
    assert_eq!(align(0), 0);
    assert_eq!(align(1), 4);
    assert_eq!(align(4), 4);
    assert_eq!(align(13), 16);
    assert_eq!(align8(0), 0);
    assert_eq!(align8(9), 16);
    assert_eq!(align8(16), 16);
}

#[test]
fn sizes_of_the_plain_types() {
    assert_eq!(7u8.aligned_size(), 1);
    assert_eq!(7u16.aligned_size(), 2);
    assert_eq!(7u32.aligned_size(), 4);
    assert_eq!(7u64.aligned_size(), 8);
    assert_eq!(7u128.aligned_size(), 16);
    assert_eq!((-7i64).aligned_size(), 8);
    assert_eq!(true.aligned_size(), 1);
    assert_eq!(Link::default().aligned_size(), 12);
    assert_eq!(<u64 as SizeMeasurable>::align(), Some(8));
    assert_eq!(<u8 as SizeMeasurable>::align(), Some(4));
    assert_eq!(<Link as SizeMeasurable>::align(), None);
    assert_eq!(<(u64, Link) as SizeMeasurable>::align(), Some(8));
    assert_eq!(<(u32, Link) as SizeMeasurable>::align(), None);
}

#[test]
fn sizes_of_strings_and_vectors() {
    assert_eq!("".to_string().aligned_size(), 8);
    assert_eq!("12345678".to_string().aligned_size(), 8);
    assert_eq!("123456789".to_string().aligned_size(), 20);
    assert_eq!(<String as VariableSizeMeasurable>::aligned_size(9), 20);
    assert_eq!(<String as VariableSizeMeasurable>::aligned_size(8), 8);
    assert_eq!(vec![1u16, 2, 3].aligned_size(), 16);
    assert_eq!(vec![1u32, 2, 3].aligned_size(), 20);
    assert_eq!(vec![1u64, 2, 3].aligned_size(), 32);
    assert_eq!(Vec::<u64>::new().aligned_size(), 8);
    assert_eq!((1u64, 2u8).aligned_size(), 16);
    assert_eq!((1u32, 2u16).aligned_size(), 8);
}

#[test]
fn measured_size_is_the_length_of_the_byte_form() {
    assert_eq!(Persistable::as_bytes(&7u8).len(), 7u8.aligned_size());
    assert_eq!(Persistable::as_bytes(&7u16).len(), 7u16.aligned_size());
    assert_eq!(Persistable::as_bytes(&7u32).len(), 7u32.aligned_size());
    assert_eq!(Persistable::as_bytes(&7u64).len(), 7u64.aligned_size());
    let link = Link {
        page_id: 1.into(),
        offset: 10,
        length: 20,
    };
    assert_eq!(Persistable::as_bytes(&link).len(), link.aligned_size());
    let pair = (9u64, link);
    assert_eq!(Persistable::as_bytes(&pair).len(), pair.aligned_size());
    for i in 0..64 {
        let s = String::from_utf8(vec![b'x'; i]).unwrap();
        assert_eq!(Persistable::as_bytes(&s).len(), s.aligned_size());
        let value = IndexValue { key: s, link };
        assert_eq!(Persistable::as_bytes(&value).len(), value.aligned_size());
    }
    let value = IndexValue { key: 5u64, link };
    assert_eq!(Persistable::as_bytes(&value).len(), value.aligned_size());
}

#[test]
fn an_entry_is_rounded_up_as_its_key_asks() {
    let link = Link {
        page_id: 1.into(),
        offset: 10,
        length: 20,
    };
    // A key of 8 bytes forces a multiple of 8.
    let value = IndexValue { key: 1u64, link };
    assert_eq!(value.aligned_size(), 24);
    let bytes = Persistable::as_bytes(&value);
    assert_eq!(
        bytes,
        rkyv::to_bytes::<rkyv::rancor::Error>(&(1u64, plain(link)))
            .unwrap()
            .to_vec()
    );
    assert_eq!(&bytes[20..], &[0u8; 4]);
    assert_eq!(IndexValue::<u64>::from_bytes(&bytes), Ok(value));
    assert_eq!(
        IndexValue::<u64>::from_bytes(&bytes[..20]),
        Err(data_bucket::Error::Decode)
    );
    let mut spoilt = bytes.clone();
    spoilt[21] = 1;
    assert_eq!(
        IndexValue::<u64>::from_bytes(&spoilt),
        Err(data_bucket::Error::Decode)
    );
    assert_eq!(IndexValue { key: -1i64, link }.aligned_size(), 24);
    assert_eq!(IndexValue { key: (1u64, link), link }.aligned_size(), 40);
    // Other keys ask for a multiple of 4.
    assert_eq!(IndexValue { key: 1u32, link }.aligned_size(), 16);
    assert_eq!(IndexValue { key: link, link }.aligned_size(), 24);
    // A key shorter than 4 bytes is followed by zeroes, so that the link
    // starts on a multiple of 4.
    let small = IndexValue { key: 1u8, link };
    assert_eq!(small.aligned_size(), 16);
    assert_eq!(
        Persistable::as_bytes(&small),
        rkyv::to_bytes::<rkyv::rancor::Error>(&(1u8, plain(link)))
            .unwrap()
            .to_vec()
    );
    let small = IndexValue { key: 0x0102u16, link };
    assert_eq!(small.aligned_size(), 16);
    assert_eq!(
        Persistable::as_bytes(&small),
        rkyv::to_bytes::<rkyv::rancor::Error>(&(0x0102u16, plain(link)))
            .unwrap()
            .to_vec()
    );
    let small = IndexValue { key: -2i16, link };
    assert_eq!(
        Persistable::as_bytes(&small),
        rkyv::to_bytes::<rkyv::rancor::Error>(&(-2i16, plain(link)))
            .unwrap()
            .to_vec()
    );
    let wide = IndexValue { key: 5u128, link };
    assert_eq!(
        Persistable::as_bytes(&wide),
        rkyv::to_bytes::<rkyv::rancor::Error>(&(5u128, plain(link)))
            .unwrap()
            .to_vec()
    );
    let mut spoilt = Persistable::as_bytes(&IndexValue { key: 7u8, link });
    spoilt[2] = 1;
    assert_eq!(
        IndexValue::<u8>::from_bytes(&spoilt),
        Err(data_bucket::Error::Decode)
    );
    let small = IndexValue { key: 7u8, link };
    assert_eq!(
        IndexValue::<u8>::from_bytes(&Persistable::as_bytes(&small)),
        Ok(small)
    );
    let small = IndexValue { key: 7u16, link };
    assert_eq!(
        IndexValue::<u16>::from_bytes(&Persistable::as_bytes(&small)),
        Ok(small)
    );
}

#[test]
fn a_growing_index_is_measured_in_pages() {
    let page_count = data_bucket::util::tree_index::page_count;
    let size_with_entry = data_bucket::util::tree_index::size_with_entry::<u32>;
    assert_eq!(page_count(0), 0);
    assert_eq!(page_count(1), 1);
    assert_eq!(page_count(16384), 1);
    assert_eq!(page_count(16385), 2);
    assert_eq!(page_count(usize::MAX), usize::MAX / 16384 + 1);
    let mut size = 0;
    for key in 0..1024u32 {
        size = size_with_entry(size, &key).unwrap();
    }
    assert_eq!(size, 1024 * 16);
    assert_eq!(page_count(size), 1);
    size = size_with_entry(size, &1024).unwrap();
    assert_eq!(page_count(size), 2);
    assert_eq!(size_with_entry(usize::MAX - 15, &1), None);
    assert_eq!(size_with_entry(usize::MAX - 16, &1), Some(usize::MAX));
}

use data_bucket::{
    align8, Error, IndexValue, Link, NewIndexPage, Persistable, SizeMeasurable,
    GENERAL_HEADER_SIZE, INNER_PAGE_SIZE, PAGE_SIZE,
};

pub fn get_size_from_data_length<T>(length: usize) -> usize
where
    T: Default + SizeMeasurable,
{
    let node_id_size = T::default().aligned_size();
    let slot_size = u16::default().aligned_size();
    let index_value_size = align8(T::default().aligned_size() + Link::default().aligned_size());
    let vec_util_size = 8;
    let size = (length - node_id_size - slot_size * 2 - vec_util_size * 2)
        / (slot_size + index_value_size);
    size
}

#[test]
fn new_page_test_bytes() {
    let size: usize = get_size_from_data_length::<u64>(INNER_PAGE_SIZE);
    let page = NewIndexPage::<u64>::new(1, size);
    let bytes = page.as_bytes();
    let new_page = NewIndexPage::<u64>::from_bytes(bytes.as_ref()).unwrap();

    assert_eq!(new_page.node_id, page.node_id);
    assert_eq!(new_page.values_count, page.values_count);
    assert_eq!(new_page.size, page.size);
    assert_eq!(new_page.slots, page.slots);
    assert_eq!(new_page.index_values, page.index_values);
}

#[test]
fn the_parts_of_a_new_page_lie_one_after_another() {
    let mut page = NewIndexPage::<u64>::new(0x0102, 3);
    page.values_count = 2;
    page.slots = vec![1, 0, 0];
    let bytes = page.as_bytes();
    // 2 + 8 + 2 + (8 + 8) + (3 * 24 + 8)
    assert_eq!(bytes.len(), 108);
    assert_eq!(&bytes[0..2], &[3, 0]);
    assert_eq!(&bytes[2..10], &[2, 1, 0, 0, 0, 0, 0, 0]);
    assert_eq!(&bytes[10..12], &[2, 0]);
    assert_eq!(&bytes[12..14], &[1, 0]);
    assert_eq!(NewIndexPage::<u64>::values_count_offset(), 28 + 8 + 2);
    assert_eq!(NewIndexPage::<u64>::slots_length(3), 16);
    assert_eq!(NewIndexPage::<u64>::from_bytes(&bytes), Ok(page));
    assert!(NewIndexPage::<u64>::from_bytes(&bytes[..107]).is_err());
}

#[test]
fn the_slots_and_the_entries_of_a_page_are_changed_where_they_lie() {
    let mut page = NewIndexPage::<u64>::new(1, 5);
    page.slots = vec![3, 1, 0, 0, 0];
    page.values_count = 2;
    let inner = page.as_bytes();
    let mut file = vec![0u8; 3 * PAGE_SIZE];
    file[2 * PAGE_SIZE + GENERAL_HEADER_SIZE..2 * PAGE_SIZE + GENERAL_HEADER_SIZE + inner.len()]
        .copy_from_slice(&inner);
    let untouched = file.clone();
    assert_eq!(
        NewIndexPage::<u64>::parse_slots_and_values_count(&file, 2.into(), 5),
        Ok((vec![3, 1, 0, 0, 0], 2))
    );
    assert_eq!(
        NewIndexPage::<u64>::parse_slots_and_values_count(&file, 3.into(), 5),
        Err(Error::Io)
    );
    // A page of zeroes holds no vector of five slots.
    assert_eq!(
        NewIndexPage::<u64>::parse_slots_and_values_count(&file, 1.into(), 5),
        Err(Error::Decode)
    );
    assert_eq!(
        NewIndexPage::<u64>::parse_slots_and_values_count(&file, 2.into(), 60000),
        Err(Error::Decode)
    );

    let slots = vec![4, 3, 1, 0, 0];
    assert_eq!(
        NewIndexPage::<u64>::persist_slots(&mut file, 2.into(), &slots, 3),
        Ok(())
    );
    let value = IndexValue {
        key: 77u64,
        link: Link {
            page_id: 9.into(),
            offset: 8,
            length: 7,
        },
    };
    assert_eq!(
        NewIndexPage::<u64>::persist_value(&mut file, 2.into(), 5, &value, 4),
        Ok(())
    );
    page.slots = slots;
    page.values_count = 3;
    page.index_values[4] = value.clone();
    let inner = page.as_bytes();
    let from = 2 * PAGE_SIZE + GENERAL_HEADER_SIZE;
    assert_eq!(&file[from..from + inner.len()], &inner[..]);
    assert_eq!(
        NewIndexPage::<u64>::from_bytes(&file[from..from + inner.len()]),
        Ok(page)
    );
    // 28 + 8 + 2 behind the start of the page lies the count.
    assert_eq!(&file[2 * PAGE_SIZE + 38..2 * PAGE_SIZE + 40], &[3, 0]);
    assert_eq!(&file[..from], &untouched[..from]);
    assert_eq!(&file[from + inner.len()..], &untouched[from + inner.len()..]);

    let before = file.clone();
    assert_eq!(
        NewIndexPage::<u64>::persist_slots(&mut file, 3.into(), &vec![1], 1),
        Err(Error::Io)
    );
    assert_eq!(
        NewIndexPage::<u64>::persist_slots(&mut file, 2.into(), &vec![0; 9000], 1),
        Err(Error::PageFull)
    );
    assert_eq!(
        NewIndexPage::<u64>::persist_value(&mut file, 3.into(), 5, &value, 0),
        Err(Error::Io)
    );
    assert_eq!(
        NewIndexPage::<u64>::persist_value(&mut file, 2.into(), 5, &value, 700),
        Err(Error::PageFull)
    );
    assert_eq!(file, before);
}

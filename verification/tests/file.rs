use data_bucket::page::index::in_file::cell_bytes;
use data_bucket::{
    frame_page, link_offset, map_data_pages_to_general, page_offset, parse_data_page,
    parse_general_header_by_index, parse_page, persist_page, unframe_page, update_at, DataPage,
    Error, ErrorKind, GeneralHeader, GeneralPage, IndexPage, IndexPageUtility, IndexValue, Link,
    PageId, PageType, Persistable, UnsizedIndexPage, GENERAL_HEADER_SIZE, PAGE_SIZE,
};

fn entry(key: u64) -> IndexValue<u64> {
    IndexValue {
        key,
        link: Link {
            page_id: 1.into(),
            offset: key as u32,
            length: 8,
        },
    }
}

fn index_page() -> GeneralPage<IndexPage<u64>> {
    GeneralPage {
        header: GeneralHeader::new(2.into(), PageType::Index, 1.into()),
        inner: IndexPage::from_node(&[entry(3), entry(5), entry(8)], 6),
    }
}

#[test]
fn a_page_that_is_persisted_parses_as_itself() {
    let mut file: Vec<u8> = vec![];
    let mut page = index_page();
    assert_eq!(persist_page(&mut page, &mut file), Ok(()));
    assert_eq!(file.len(), 3 * PAGE_SIZE);
    assert_eq!(file.len() % PAGE_SIZE, 0);
    assert_eq!(page.header.data_length as usize, page.inner.as_bytes().len());
    let back = parse_page::<IndexPage<u64>>(&file, 2).unwrap();
    assert_eq!(back, page);

    let mut first = GeneralPage {
        header: GeneralHeader::new(0.into(), PageType::Index, 1.into()),
        inner: IndexPage::<u64>::new(9, 4),
    };
    persist_page(&mut first, &mut file).unwrap();
    assert_eq!(file.len(), 3 * PAGE_SIZE);
    assert_eq!(parse_page::<IndexPage<u64>>(&file, 0).unwrap(), first);
    assert_eq!(parse_page::<IndexPage<u64>>(&file, 2).unwrap(), page);
    assert_eq!(
        parse_general_header_by_index(&file, 2),
        Ok(page.header)
    );
}

#[test]
fn a_file_that_is_too_short_or_holds_no_page_is_refused() {
    let mut file: Vec<u8> = vec![];
    let mut page = index_page();
    persist_page(&mut page, &mut file).unwrap();
    let err = parse_page::<IndexPage<u64>>(&file, 3).unwrap_err();
    assert_eq!(err, Error::Io);
    assert_eq!(err.kind(), ErrorKind::Io);
    assert_eq!(parse_general_header_by_index(&file, 3), Err(Error::Io));
    // Page 1 was never written: its header is all zeroes, which holds no inner part.
    assert_eq!(
        parse_page::<IndexPage<u64>>(&file, 1).unwrap_err(),
        Error::Decode
    );
    assert_eq!(
        parse_page::<IndexPage<u32>>(&file, 2).unwrap_err(),
        Error::Decode
    );
}

#[test]
fn a_page_of_another_number_is_refused() {
    let mut file: Vec<u8> = vec![];
    let mut page = index_page();
    persist_page(&mut page, &mut file).unwrap();
    // The page 2 is copied to the place of the page 1.
    let image = file[2 * PAGE_SIZE..].to_vec();
    file[PAGE_SIZE..2 * PAGE_SIZE].copy_from_slice(&image);
    assert_eq!(
        parse_page::<IndexPage<u64>>(&file, 1).unwrap_err(),
        Error::Decode
    );
    assert_eq!(parse_page::<IndexPage<u64>>(&file, 2).unwrap(), page);
}

#[test]
fn framing_fills_the_page_with_zeroes() {
    let mut page = index_page();
    let image = frame_page(&mut page).unwrap();
    assert_eq!(image.len(), PAGE_SIZE);
    let inner = page.inner.as_bytes();
    assert_eq!(&image[..28], &page.header.as_bytes()[..]);
    assert_eq!(&image[28..28 + inner.len()], &inner[..]);
    assert!(image[28 + inner.len()..].iter().all(|b| *b == 0));
    assert_eq!(unframe_page::<IndexPage<u64>>(&image), Ok(page));
    assert_eq!(
        unframe_page::<IndexPage<u64>>(&image[1..]),
        Err(Error::Decode)
    );
}

#[test]
fn a_page_that_is_too_long_is_not_written() {
    let mut page = GeneralPage {
        header: GeneralHeader::new(0.into(), PageType::Index, 1.into()),
        inner: IndexPage::<u64>::new(9, 700),
    };
    let mut file: Vec<u8> = vec![];
    assert_eq!(persist_page(&mut page, &mut file), Err(Error::PageFull));
    assert!(file.is_empty());
}

#[test]
fn places_in_the_file() {
    assert_eq!(page_offset(0), 0);
    assert_eq!(page_offset(3), 3 * 16384);
    assert_eq!(
        link_offset(Link {
            page_id: 2.into(),
            offset: 10,
            length: 4
        }),
        2 * 16384 + 28 + 10
    );
    assert_eq!(PageId(4).next(), PageId(5));
    assert!(PageId(0).is_empty());
    assert!(!PageId(1).is_empty());
}

#[test]
fn data_is_updated_in_the_file() {
    let pages = map_data_pages_to_general(vec![
        DataPage::<16356> {
            length: 0,
            data: [0; 16356],
        },
        DataPage::<16356> {
            length: 0,
            data: [0; 16356],
        },
        DataPage::<16356> {
            length: 0,
            data: [0; 16356],
        },
    ]);
    assert_eq!(pages.len(), 3);
    assert_eq!(pages[0].header.page_id, 1.into());
    assert_eq!(pages[0].header.previous_id, 0.into());
    assert_eq!(pages[0].header.next_id, 2.into());
    assert_eq!(pages[1].header.page_id, 2.into());
    assert_eq!(pages[1].header.previous_id, 1.into());
    assert_eq!(pages[1].header.next_id, 3.into());
    assert_eq!(pages[2].header.page_id, 3.into());
    assert_eq!(pages[2].header.next_id, 0.into());
    assert_eq!(pages[2].header.page_type, PageType::Data);

    let mut file = vec![0u8; 4 * PAGE_SIZE];
    let header = pages[1].header.as_bytes();
    file[2 * PAGE_SIZE..2 * PAGE_SIZE + 28].copy_from_slice(&header);
    let link = Link {
        page_id: 2.into(),
        offset: 16353,
        length: 3,
    };
    assert_eq!(update_at::<16356>(&mut file, link, &[7, 8, 9]), Ok(()));
    assert_eq!(&file[3 * PAGE_SIZE - 3..3 * PAGE_SIZE], &[7, 8, 9]);
    let page = parse_data_page::<16356>(&file, 2).unwrap();
    assert_eq!(page.header, pages[1].header);
    assert_eq!(page.inner.get_at(link).unwrap(), &[7, 8, 9]);

    let beyond = Link {
        page_id: 2.into(),
        offset: 16354,
        length: 3,
    };
    assert_eq!(
        update_at::<16356>(&mut file, beyond, &[7, 8, 9])
            .unwrap_err()
            .kind(),
        ErrorKind::InvalidLink
    );
    assert_eq!(
        update_at::<16356>(&mut file, link, &[7, 8])
            .unwrap_err()
            .kind(),
        ErrorKind::InvalidLink
    );
    let outside = Link {
        page_id: 4.into(),
        offset: 0,
        length: 3,
    };
    assert_eq!(
        update_at::<16356>(&mut file, outside, &[7, 8, 9]),
        Err(Error::Io)
    );
    assert_eq!(parse_data_page::<16356>(&file, 4).unwrap_err(), Error::Io);
}

#[test]
fn an_index_page_is_changed_where_it_lies() {
    let mut file: Vec<u8> = vec![];
    let mut page = index_page();
    persist_page(&mut page, &mut file).unwrap();
    let id = PageId(2);

    let head = IndexPage::<u64>::parse_index_page_utility(&file, id).unwrap();
    assert_eq!(head.size, 6);
    assert_eq!(head.node_id, 8);
    assert_eq!(head.current_index, 3);
    assert_eq!(head.current_length, 3);
    assert_eq!(head.slots, vec![0, 1, 2, 0, 0, 0]);

    assert_eq!(
        IndexPage::<u64>::read_value_with_index(&file, id, 6, 1),
        Ok(entry(5))
    );
    assert_eq!(
        IndexPage::<u64>::read_value_with_index(&file, id, 6, 4),
        Ok(IndexValue::default())
    );
    let at = 2 * PAGE_SIZE + IndexPage::<u64>::get_value_offset(6, 1) as usize;
    assert_eq!(&file[at..at + 24], &cell_bytes(&entry(5))[..]);

    // The entries 0..3 are held: the next free place behind 3 is 4.
    assert_eq!(
        IndexPage::<u64>::persist_value(&mut file, id, 6, &entry(9), 3),
        Ok(Some(4))
    );
    assert_eq!(
        IndexPage::<u64>::persist_value(&mut file, id, 6, &entry(10), 4),
        Ok(Some(5))
    );
    // Behind the last place no place is free.
    assert_eq!(
        IndexPage::<u64>::persist_value(&mut file, id, 6, &entry(11), 5),
        Ok(None)
    );
    assert_eq!(IndexPage::<u64>::remove_value(&mut file, id, 6, 4), Ok(()));
    assert_eq!(
        IndexPage::<u64>::persist_value(&mut file, id, 6, &entry(4), 1),
        Ok(Some(4))
    );

    let new_head = IndexPageUtility {
        size: 6,
        node_id: 11u64,
        current_index: 4,
        current_length: 5,
        slots: vec![0, 1, 2, 3, 5, 0],
    };
    assert_eq!(
        IndexPage::<u64>::persist_index_page_utility(&mut file, id, &new_head),
        Ok(())
    );
    let back = parse_page::<IndexPage<u64>>(&file, 2).unwrap().inner;
    assert_eq!(back.node_id, 11);
    assert_eq!(
        back.get_node(),
        vec![entry(3), entry(4), entry(8), entry(9), entry(11)]
    );

    assert_eq!(
        IndexPage::<u64>::read_value_with_index(&file, PageId(3), 6, 1),
        Err(Error::Io)
    );
    assert_eq!(
        IndexPage::<u64>::persist_value(&mut file, PageId(3), 6, &entry(9), 3),
        Err(Error::Io)
    );
    assert_eq!(
        IndexPage::<u64>::persist_value(&mut file, id, 700, &entry(9), 3),
        Err(Error::PageFull)
    );
}

#[test]
fn an_unsized_page_is_changed_where_it_lies() {
    let first = IndexValue {
        key: "Someone from somewhere".to_string(),
        link: Link::default(),
    };
    let second = IndexValue {
        key: "Someone".to_string(),
        link: Link::default(),
    };
    let mut page = GeneralPage {
        header: GeneralHeader::new(1.into(), PageType::Index, 1.into()),
        inner: UnsizedIndexPage::<String, 16356>::new(first.clone()).unwrap(),
    };
    let mut file: Vec<u8> = vec![];
    persist_page(&mut page, &mut file).unwrap();
    let id = PageId(1);
    let head = UnsizedIndexPage::<String, 16356>::parse_index_page_utility(&file, id).unwrap();
    assert_eq!(head.slots, vec![(44, 44)]);
    assert_eq!(head.node_id, first);
    assert_eq!(
        UnsizedIndexPage::<String, 16356>::read_value_with_offset(&file, id, 44, 44),
        Ok(first)
    );
    assert_eq!(
        UnsizedIndexPage::<String, 16356>::persist_value(&mut file, id, 44, &second),
        Ok(64)
    );
    assert_eq!(
        UnsizedIndexPage::<String, 16356>::read_value_with_offset(&file, id, 64, 20),
        Ok(second.clone())
    );
    assert_eq!(
        UnsizedIndexPage::<String, 16356>::persist_value(&mut file, id, 16350, &second),
        Err(Error::PageFull)
    );
    assert_eq!(
        UnsizedIndexPage::<String, 16356>::read_value_with_offset(&file, id, 10, 20),
        Err(Error::Decode)
    );
    assert_eq!(GENERAL_HEADER_SIZE, 28);
}

use data_bucket::{
    Error, ErrorKind, GeneralHeader, PageType, Persistable, DATA_VERSION, GENERAL_HEADER_SIZE,
    PAGE_SIZE,
};

#[test]
fn test_data_version() {
    let header = GeneralHeader::new(1.into(), PageType::Empty, 2.into());
    assert_eq!(header.data_version, 1u32);
}

#[test]
fn header_test_as_bytes() {
    let header = GeneralHeader {
        data_version: DATA_VERSION,
        page_id: 1.into(),
        previous_id: 2.into(),
        next_id: 3.into(),
        page_type: PageType::Empty,
        space_id: 4.into(),
        data_length: PAGE_SIZE as u32,
    };
    let bytes = header.as_bytes();
    assert_eq!(bytes.len(), GENERAL_HEADER_SIZE)
}

#[test]
fn test_as_bytes_max() {
    let header = GeneralHeader {
        data_version: DATA_VERSION,
        page_id: u32::MAX.into(),
        previous_id: (u32::MAX - 1).into(),
        next_id: (u32::MAX - 2).into(),
        page_type: PageType::Empty,
        space_id: (u32::MAX - 3).into(),
        data_length: PAGE_SIZE as u32,
    };
    let bytes = header.as_bytes();
    assert_eq!(bytes.len(), GENERAL_HEADER_SIZE)
}

#[test]
fn general_header_length_valid() {
    let header = GeneralHeader {
        data_version: DATA_VERSION,
        page_id: 1.into(),
        previous_id: 2.into(),
        next_id: 4.into(),
        page_type: PageType::Index,
        space_id: 5.into(),
        data_length: PAGE_SIZE as u32,
    };
    let bytes = header.as_bytes();

    assert_eq!(bytes.len(), GENERAL_HEADER_SIZE)
}

#[test]
fn header_fields_lie_where_the_format_says() {
    let header = GeneralHeader {
        data_version: DATA_VERSION,
        page_id: 0x0a0b0c0d.into(),
        previous_id: 2.into(),
        next_id: 3.into(),
        page_type: PageType::IndexTableOfContents,
        space_id: 4.into(),
        data_length: 0x01020304,
    };
    let bytes = header.as_bytes();
    assert_eq!(&bytes[0..4], &[1, 0, 0, 0]);
    assert_eq!(&bytes[4..8], &[4, 0, 0, 0]);
    assert_eq!(&bytes[8..12], &[0x0d, 0x0c, 0x0b, 0x0a]);
    assert_eq!(&bytes[12..16], &[2, 0, 0, 0]);
    assert_eq!(&bytes[16..20], &[3, 0, 0, 0]);
    assert_eq!(&bytes[20..22], &[31, 0]);
    assert_eq!(&bytes[22..26], &[4, 3, 2, 1]);
    assert_eq!(&bytes[26..28], &[0, 0]);
    assert_eq!(GeneralHeader::from_bytes(&bytes), Ok(header));
}

#[test]
fn headers_that_are_none_are_refused() {
    let header = GeneralHeader::new(1.into(), PageType::Data, 2.into());
    let mut bytes = header.as_bytes();
    bytes[20] = 9;
    assert_eq!(GeneralHeader::from_bytes(&bytes), Err(Error::Decode));
    let mut bytes = header.as_bytes();
    bytes[27] = 1;
    assert_eq!(GeneralHeader::from_bytes(&bytes), Err(Error::Decode));
    assert_eq!(GeneralHeader::from_bytes(&bytes[..27]), Err(Error::Decode));

    let mut other = header;
    other.data_version = 2;
    assert_eq!(header.check_version(), Ok(()));
    assert_eq!(
        other.check_version(),
        Err(Error::VersionMismatch { found: 2 })
    );
    assert_eq!(
        Error::VersionMismatch { found: 2 }.kind(),
        ErrorKind::VersionMismatch
    );
    assert!(Error::VersionMismatch { found: 2 }.to_string().contains("2"));
}

#[test]
fn a_page_that_follows_is_linked_to_the_page_before() {
    let mut header = GeneralHeader::new(7.into(), PageType::Index, 2.into());
    assert_eq!(header.previous_id, 0.into());
    assert_eq!(header.next_id, 0.into());
    assert_eq!(header.data_length, PAGE_SIZE as u32);
    let next = header.follow();
    assert_eq!(header.next_id, 8.into());
    assert_eq!(next.page_id, 8.into());
    assert_eq!(next.previous_id, 7.into());
    assert_eq!(next.next_id, 0.into());
    assert_eq!(next.page_type, PageType::Index);
    assert_eq!(next.space_id, 2.into());
    let mut header = next;
    let data = header.follow_with(PageType::Data);
    assert_eq!(header.next_id, 9.into());
    assert_eq!(data.page_id, 9.into());
    assert_eq!(data.page_type, PageType::Data);
}

#[test]
fn page_types_have_their_numbers() {
    assert_eq!(PageType::Empty.code(), 0);
    assert_eq!(PageType::SpaceInfo.code(), 1);
    assert_eq!(PageType::Data.code(), 2);
    assert_eq!(PageType::Index.code(), 3);
    assert_eq!(PageType::IndexTableOfContents.code(), 31);
    assert_eq!(PageType::from_code(31), Some(PageType::IndexTableOfContents));
    assert_eq!(PageType::from_code(4), None);
}

#[test]
fn errors_are_told_in_words_with_their_numbers() {
    assert_eq!(
        Error::Io.to_string(),
        "The file ends before the bytes that were asked for"
    );
    assert_eq!(
        Error::Decode.to_string(),
        "The bytes are not the byte form of a value"
    );
    assert_eq!(
        Error::NodeEvent.to_string(),
        "Events of `SplitNode`, `CreateNode` or `RemoveNode` can not be applied"
    );
    assert_eq!(
        Error::PageFull.to_string(),
        "The page has no free place for another value"
    );
    assert_eq!(
        Error::LengthMismatch {
            data_length: 2,
            link_length: 3
        }
        .to_string(),
        "New data length 2 does not match link length 3"
    );
    assert_eq!(
        Error::LengthMismatch {
            data_length: 0,
            link_length: u32::MAX
        }
        .to_string(),
        "New data length 0 does not match link length 4294967295"
    );
    assert_eq!(
        Error::OutOfBounds {
            offset: 98,
            length: 3,
            bound: 100
        }
        .to_string(),
        "Link range (offset: 98, length: 3) exceeds data bounds (100)"
    );
    assert_eq!(
        Error::OutOfBounds {
            offset: 10,
            length: 1009,
            bound: usize::MAX
        }
        .to_string(),
        format!(
            "Link range (offset: 10, length: 1009) exceeds data bounds ({})",
            usize::MAX
        )
    );
    assert_eq!(
        Error::MisplacedEvent {
            index: 12,
            entries: 7
        }
        .to_string(),
        "Event position 12 lies outside the page's 7 entries"
    );
    assert_eq!(
        Error::VersionMismatch { found: 20 }.to_string(),
        "Data version 20 is not the version of this library"
    );
}

use data_bucket::{DataPage, Error, ErrorKind, Link, Persistable};

#[test]
fn test_update_at_success() {
    let mut data = DataPage {
        length: 0,
        data: [0; 100],
    };

    let link = Link {
        page_id: 1.into(),
        offset: 5,
        length: 3,
    };

    data.update_at(link, &[1, 2, 3]).unwrap();
    assert_eq!(data.get_at(link).unwrap(), &[1, 2, 3]);
    assert_eq!(data.length, 8);
}

#[test]
fn test_update_at_wrong_length() {
    let mut data = DataPage {
        length: 0,
        data: [0; 100],
    };

    let link = Link {
        page_id: 1.into(),
        offset: 5,
        length: 3,
    };

    let err = data.update_at(link, &[1, 2]).unwrap_err();
    assert!(err
        .to_string()
        .contains("New data length 2 does not match link length 3"));
}

#[test]
fn test_update_at_out_of_bounds() {
    let mut data = DataPage {
        length: 0,
        data: [0; 100],
    };

    let link = Link {
        page_id: 1.into(),
        offset: 98,
        length: 3,
    };

    let err = data.update_at(link, &[1, 2, 3]).unwrap_err();
    assert!(err
        .to_string()
        .contains("Link range (offset: 98, length: 3) exceeds data bounds (100)"));
}

#[test]
fn test_get_at_out_of_bounds() {
    let data = DataPage {
        length: 0,
        data: [0; 100],
    };

    let link = Link {
        page_id: 1.into(),
        offset: 98,
        length: 3,
    };

    let err = data.get_at(link).unwrap_err();
    assert!(err
        .to_string()
        .contains("Link range (offset: 98, length: 3) exceeds data bounds (100)"));
}

#[test]
fn update_at_the_end_of_the_page() {
    let mut data = DataPage {
        length: 0,
        data: [0; 100],
    };
    let link = Link {
        page_id: 1.into(),
        offset: 97,
        length: 3,
    };
    assert_eq!(data.update_at(link, &[1, 2, 3]), Ok(()));
    assert_eq!(data.length, 100);
    assert_eq!(&data.data[97..], &[1, 2, 3]);

    let beyond = Link {
        page_id: 1.into(),
        offset: 98,
        length: 3,
    };
    let err = data.update_at(beyond, &[1, 2, 3]).unwrap_err();
    assert_eq!(
        err,
        Error::OutOfBounds {
            offset: 98,
            length: 3,
            bound: 100
        }
    );
    assert_eq!(err.kind(), ErrorKind::InvalidLink);
    assert_eq!(data.length, 100);

    let err = data.update_at(link, &[1, 2]).unwrap_err();
    assert_eq!(
        err,
        Error::LengthMismatch {
            data_length: 2,
            link_length: 3
        }
    );
    assert_eq!(err.kind(), ErrorKind::InvalidLink);
}

#[test]
fn update_keeps_the_length_that_is_above() {
    let mut data = DataPage {
        length: 50,
        data: [0; 100],
    };
    let link = Link {
        page_id: 1.into(),
        offset: 5,
        length: 3,
    };
    data.update_at(link, &[1, 2, 3]).unwrap();
    assert_eq!(data.length, 50);
    assert_eq!(data.get_at(link).unwrap(), &[1, 2, 3]);
}

#[test]
fn a_data_page_is_written_as_its_bytes_in_use() {
    let mut data = DataPage {
        length: 0,
        data: [0; 100],
    };
    let link = Link {
        page_id: 1.into(),
        offset: 2,
        length: 3,
    };
    data.update_at(link, &[1, 2, 3]).unwrap();
    let bytes = data.as_bytes();
    assert_eq!(bytes, vec![0, 0, 1, 2, 3]);
    let back = DataPage::<100>::from_bytes(&bytes).unwrap();
    assert_eq!(back.length, 5);
    assert_eq!(back.data, data.data);
    assert!(DataPage::<4>::from_bytes(&bytes).is_err());
}

#[test]
fn links_are_united_where_they_touch() {
    let a = Link {
        page_id: 1.into(),
        offset: 10,
        length: 20,
    };
    let b = Link {
        page_id: 1.into(),
        offset: 30,
        length: 5,
    };
    assert_eq!(
        a.unite(b),
        Some(Link {
            page_id: 1.into(),
            offset: 10,
            length: 25
        })
    );
    assert_eq!(b.unite(a), None);
    let c = Link {
        page_id: 2.into(),
        offset: 30,
        length: 5,
    };
    assert_eq!(a.unite(c), None);
}

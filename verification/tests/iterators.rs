use data_bucket::{Interval, PageIterator};

#[test]
fn test_page_iterator() {
    let interval1 = Interval(1, 2);
    let interval2 = Interval(5, 7);
    let page_iterator = PageIterator::new(vec![interval1, interval2]);
    let collected = page_iterator.collect();
    assert_eq!(collected, vec![1, 2, 5, 6, 7]);
}

#[test]
fn test_page_iterator_empty() {
    let page_iterator = PageIterator::new(vec![]);
    let collected = page_iterator.collect();
    assert_eq!(collected, Vec::<u32>::new());
}

#[test]
fn intervals_that_can_be_walked() {
    assert!(data_bucket::page::iterators::intervals_can_be_walked(&[
        Interval(1, 2),
        Interval(5, 7)
    ]));
    assert!(data_bucket::page::iterators::intervals_can_be_walked(&[
        Interval(3, 2)
    ]));
    assert!(!data_bucket::page::iterators::intervals_can_be_walked(&[
        Interval(3, u32::MAX as usize)
    ]));
    let mut iterator = PageIterator::new(vec![Interval(3, 3), Interval(1, 2)]);
    assert_eq!(iterator.next(), Some(3));
    assert_eq!(iterator.next(), Some(1));
    assert_eq!(iterator.next(), Some(2));
    assert_eq!(iterator.next(), None);
    assert_eq!(iterator.next(), None);
}

#[test]
fn an_interval_that_starts_above_its_end_is_passed_over() {
    let iterator = PageIterator::new(vec![
        Interval(5, 4),
        Interval(1, 2),
        Interval(9, 3),
        Interval(7, 7),
        Interval(2, 0),
    ]);
    assert_eq!(iterator.collect(), vec![1, 2, 7]);
    let mut iterator = PageIterator::new(vec![Interval(3, 1)]);
    assert_eq!(iterator.next(), None);
}

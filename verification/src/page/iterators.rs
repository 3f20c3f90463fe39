//! Walking the page numbers of a list of intervals.

use crate::page::space_info::Interval;
use vstd::prelude::*;

verus! {

/// Walks the page numbers of a list of intervals, interval by interval.
pub struct PageIterator {
    intervals: Vec<Interval>,
    current_intervals_index: usize,
    current_position_in_interval: usize,
}

/// Whether every interval ends below the greatest page number.
pub open spec fn intervals_fit(intervals: Seq<Interval>) -> bool {
    forall|i: int| 0 <= i < intervals.len() ==> (#[trigger] intervals[i]).1 < u32::MAX
}

/// Tells whether every interval ends below the greatest page number.
pub fn intervals_can_be_walked(intervals: &[Interval]) -> (r: bool)
    ensures
        r == intervals_fit(intervals@),
{
    let mut i: usize = 0;
    while i < intervals.len()
        invariant
            i <= intervals@.len(),
            forall|j: int| 0 <= j < i ==> (#[trigger] intervals@[j]).1 < u32::MAX,
        decreases intervals@.len() - i,
    {
        if intervals[i].1 as u64 >= u32::MAX as u64 {
            return false;
        }
        i += 1;
    }
    true
}

/// The page numbers from `from` up to and including `to`: none if `from`
/// lies above `to`.
pub open spec fn numbers(from: int, to: int) -> Seq<u32> {
    Seq::new(
        if from <= to {
            (to - from + 1) as nat
        } else {
            0
        },
        |i: int| (from + i) as u32,
    )
}

/// The page numbers of the intervals from the `index`-th on, in order.
pub open spec fn numbers_from(intervals: Seq<Interval>, index: int) -> Seq<u32>
    decreases intervals.len() - index,
{
    if index < 0 || index >= intervals.len() {
        Seq::empty()
    } else {
        numbers(intervals[index].0 as int, intervals[index].1 as int) + numbers_from(
            intervals,
            index + 1,
        )
    }
}

impl PageIterator {
    /// The intervals that are walked.
    pub closed spec fn intervals(&self) -> Seq<Interval> {
        self.intervals@
    }

    /// The page numbers that are still to come.
    pub closed spec fn remaining(&self) -> Seq<u32> {
        if self.current_intervals_index >= self.intervals@.len() {
            Seq::empty()
        } else {
            numbers(
                self.current_position_in_interval as int,
                self.intervals@[self.current_intervals_index as int].1 as int,
            ) + numbers_from(self.intervals@, self.current_intervals_index + 1)
        }
    }

    /// The intervals that the iterator walks end below the greatest page
    /// number.
    pub closed spec fn wf(&self) -> bool {
        intervals_fit(self.intervals@)
    }

    /// Creates the iterator over the page numbers of `intervals`. An
    /// interval that starts above its end holds no page number.
    pub fn new(intervals: Vec<Interval>) -> (iterator: PageIterator)
        requires
            intervals_fit(intervals@),
        ensures
            iterator.wf(),
            iterator.intervals() == intervals@,
            iterator.remaining() == numbers_from(intervals@, 0),
    {
        let start: usize = if intervals.len() > 0 {
            intervals[0].0
        } else {
            0
        };
        PageIterator {
            current_intervals_index: 0,
            current_position_in_interval: start,
            intervals,
        }
    }

    /// Returns the next page number, or `None` when all were given.
    pub fn next(&mut self) -> (r: Option<u32>)
        requires
            old(self).wf(),
        ensures
            final(self).wf(),
            final(self).intervals() == old(self).intervals(),
            match r {
                Some(id) => old(self).remaining().len() > 0 && id == old(self).remaining()[0]
                    && final(self).remaining() == old(self).remaining().drop_first(),
                None => old(self).remaining().len() == 0 && final(self).remaining().len() == 0,
            },
    {
        let ghost before = self.remaining();
        while self.current_intervals_index < self.intervals.len()
            && self.current_position_in_interval
            > self.intervals[self.current_intervals_index].1
            invariant
                self.wf(),
                self.intervals@ == old(self).intervals@,
                self.remaining() == before,
            decreases self.intervals@.len() - self.current_intervals_index,
        {
            proof {
                assert(numbers(
                    self.current_position_in_interval as int,
                    self.intervals@[self.current_intervals_index as int].1 as int,
                ) =~= Seq::<u32>::empty());
                let next = self.current_intervals_index + 1;
                if next < self.intervals@.len() {
                    assert(numbers_from(self.intervals@, next) == numbers(
                        self.intervals@[next].0 as int,
                        self.intervals@[next].1 as int,
                    ) + numbers_from(self.intervals@, next + 1));
                } else {
                    assert(numbers_from(self.intervals@, next) =~= Seq::<u32>::empty());
                }
            }
            self.current_intervals_index += 1;
            if self.current_intervals_index < self.intervals.len() {
                self.current_position_in_interval = self.intervals[self.current_intervals_index].0;
            }
        }
        if self.current_intervals_index >= self.intervals.len() {
            return None;
        }
        let position: usize = self.current_position_in_interval;
        let ghost end = self.intervals@[self.current_intervals_index as int].1 as int;
        let ghost rest = numbers_from(self.intervals@, self.current_intervals_index + 1);
        assert(numbers(position as int, end)[0] == position as u32);
        assert((numbers(position as int, end) + rest).drop_first() =~= numbers(position + 1, end)
            + rest);
        self.current_position_in_interval += 1;
        Some(position as u32)
    }

    /// Returns all the page numbers that are still to come.
    pub fn collect(self) -> (ids: Vec<u32>)
        requires
            self.wf(),
        ensures
            ids@ == self.remaining(),
    {
        let mut iterator = self;
        let mut ids: Vec<u32> = Vec::new();
        loop
            invariant
                iterator.wf(),
                ids@ + iterator.remaining() == self.remaining(),
            decreases iterator.remaining().len(),
        {
            let ghost before = iterator.remaining();
            match iterator.next() {
                Some(id) => {
                    ids.push(id);
                    assert(ids@ + iterator.remaining() =~= ids@.drop_last() + before);
                },
                None => {
                    assert(ids@ + iterator.remaining() =~= ids@);
                    return ids;
                },
            }
        }
    }
}

} // verus!

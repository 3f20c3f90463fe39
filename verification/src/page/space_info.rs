//! [`SpaceInfoPage`]: the description of a space, which its first page
//! holds; and intervals of page numbers.

use crate::link::Link;
use crate::space;
use vstd::prelude::*;

verus! {

/// The name of a space.
pub type SpaceName = String;

/// The pages from the first number to the second, both included.
#[derive(Clone, Debug, PartialEq, Eq, Hash, PartialOrd, Ord)]
pub struct Interval(pub usize, pub usize);

impl Interval {
    /// Tells whether `interval` lies inside this interval.
    pub fn contains(&self, interval: &Interval) -> (r: bool)
        ensures
            r == (self.0 <= interval.0 && interval.1 <= self.1),
    {
        self.0 <= interval.0 && self.1 >= interval.1
    }
}

/// The values of a vector as mathematical values.
pub open spec fn models<T: View>(items: Seq<T>) -> Seq<T::V> {
    Seq::new(items.len(), |i: int| items[i]@)
}

/// The description of a space: its identifier, the number of its pages,
/// the state of the generator of primary keys, its name, the names and
/// types of the columns of its rows, the names of the columns that make
/// the primary key, the names and types of its other indexes, and the
/// links to the places that came free in its data.
#[derive(Clone, Debug, PartialEq)]
pub struct SpaceInfoPage<Pk = ()> {
    pub id: space::Id,
    pub page_count: u32,
    pub pk_gen_state: Pk,
    pub name: SpaceName,
    pub row_schema: Vec<(String, String)>,
    pub primary_key_fields: Vec<String>,
    pub secondary_index_types: Vec<(String, String)>,
    pub empty_links_list: Vec<Link>,
}

/// The description of a space as a mathematical value.
pub struct SpaceInfoView<P> {
    pub id: space::Id,
    pub page_count: u32,
    pub pk_gen_state: P,
    pub name: Seq<char>,
    pub row_schema: Seq<(Seq<char>, Seq<char>)>,
    pub primary_key_fields: Seq<Seq<char>>,
    pub secondary_index_types: Seq<(Seq<char>, Seq<char>)>,
    pub empty_links_list: Seq<Link>,
}

impl<Pk: View> View for SpaceInfoPage<Pk> {
    type V = SpaceInfoView<Pk::V>;

    open spec fn view(&self) -> SpaceInfoView<Pk::V> {
        SpaceInfoView {
            id: self.id,
            page_count: self.page_count,
            pk_gen_state: self.pk_gen_state@,
            name: self.name@,
            row_schema: models(self.row_schema@),
            primary_key_fields: models(self.primary_key_fields@),
            secondary_index_types: models(self.secondary_index_types@),
            empty_links_list: models(self.empty_links_list@),
        }
    }
}

} // verus!

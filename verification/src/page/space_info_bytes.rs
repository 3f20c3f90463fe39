//! The byte form of a [`SpaceInfoPage`]: the archive of its fields in
//! their order. What lies out of line comes first, in the order of the
//! fields: the text of a long name, then for each vector of strings the
//! texts of its long strings and its elements, then the links. The fields
//! themselves come last:
//!
//! | field | bytes |
//! |---|---|
//! | `id` | 4 |
//! | `page_count` | 4 |
//! | `pk_gen_state` | its byte form, at a multiple of its unit |
//! | `name` | 8, at a multiple of 4 |
//! | `row_schema` | 8: distance and count |
//! | `primary_key_fields` | 8 |
//! | `secondary_index_types` | 8 |
//! | `empty_links_list` | 8 |
//!
//! with zeroes up to a multiple of the unit of the state: 16, 8 or 4.

use crate::error::Error;
use crate::link::{lemma_link_bytes_len, link_bytes, Link};
use crate::page::space_info::{models, SpaceInfoPage, SpaceInfoView};
use crate::space;
use crate::util::archive::{
    distance32, gap, le32, le32_at, le32_bytes, le32_value, lemma_le32, lemma_repr_length,
    lemma_string_at, lemma_strings_at, lemma_strings_block, lemma_vector_ref, read_string_at,
    read_strings, repr_bytes, string_at, string_data, string_repr, string_views, strings_at,
    strings_block, strings_do_fit, strings_fit, strings_reach, vector_ref, vector_ref_bytes,
    write_strings,
};
use crate::util::persistable::{decode, decoding, lemma_round_trip, Persistable};
use crate::util::sized::{align, lemma_round_up, round_up, DefaultSizeMeasurable, SizeMeasurable};
use crate::util::text::{filler, same_bytes, text_bytes, MAX_STRING_LENGTH};
use vstd::prelude::*;
use vstd::slice::slice_subrange;

verus! {

/// The greatest number of bytes of the byte form of a description, and of
/// elements of each of its vectors.
pub const MAX_INFO_LENGTH: usize = 0x7fff_ffff;

/// The strings of pairs, one after another.
pub open spec fn flat_pairs(pairs: Seq<(Seq<char>, Seq<char>)>) -> Seq<Seq<char>> {
    Seq::new(
        2 * pairs.len(),
        |i: int|
            if i % 2 == 0 {
                pairs[i / 2].0
            } else {
                pairs[i / 2].1
            },
    )
}

/// The pairs of strings that come two by two.
pub open spec fn paired(strs: Seq<Seq<char>>) -> Seq<(Seq<char>, Seq<char>)> {
    Seq::new(strs.len() / 2, |i: int| (strs[2 * i], strs[2 * i + 1]))
}

/// Pairing the strings of pairs gives the pairs back.
pub proof fn lemma_paired(pairs: Seq<(Seq<char>, Seq<char>)>)
    ensures
        paired(flat_pairs(pairs)) == pairs,
{
    assert(paired(flat_pairs(pairs)) =~= pairs);
}

/// The links, 12 bytes each, one after another.
pub open spec fn links_run(links: Seq<Link>, count: int) -> Seq<u8>
    decreases count,
{
    if count <= 0 {
        Seq::empty()
    } else {
        links_run(links, count - 1) + link_bytes(links[count - 1])
    }
}

/// The links lie one after another, 12 bytes each.
pub proof fn lemma_links_run(links: Seq<Link>, count: int, i: int)
    requires
        0 <= i < count <= links.len(),
    ensures
        links_run(links, count).len() == 12 * count,
        links_run(links, count).subrange(12 * i, 12 * i + 12) == link_bytes(links[i]),
    decreases count,
{
    lemma_links_length(links, count);
    lemma_links_length(links, count - 1);
    lemma_link_bytes_len(links[count - 1]);
    if i == count - 1 {
        assert(links_run(links, count).subrange(12 * i, 12 * i + 12) =~= link_bytes(links[i]));
    } else {
        lemma_links_run(links, count - 1, i);
        assert(links_run(links, count).subrange(12 * i, 12 * i + 12) =~= links_run(
            links,
            count - 1,
        ).subrange(12 * i, 12 * i + 12));
    }
}

/// `count` links are 12 times `count` bytes.
pub proof fn lemma_links_length(links: Seq<Link>, count: int)
    requires
        0 <= count <= links.len(),
    ensures
        links_run(links, count).len() == 12 * count,
    decreases count,
{
    if count > 0 {
        lemma_links_length(links, count - 1);
        lemma_link_bytes_len(links[count - 1]);
    }
}

/// The multiple that the state of the key generator lies at, and that the
/// fields are filled up to: 16 or 8 where the type of the state asks for
/// it, else 4.
pub open spec fn state_unit<Pk: SizeMeasurable>() -> nat {
    match Pk::alignment() {
        Some(a) => if a == 16 {
            16
        } else if a % 8 == 0 {
            8
        } else {
            4
        },
        None => 4,
    }
}

/// Where the state lies among the fields.
pub open spec fn state_place<Pk: SizeMeasurable>() -> nat {
    round_up(8, state_unit::<Pk>())
}

/// Where the name lies among the fields.
pub open spec fn name_place<Pk: DefaultSizeMeasurable>() -> nat {
    round_up(state_place::<Pk>() + Pk::default_size(), 4)
}

/// The number of bytes of the fields.
pub open spec fn fields_size<Pk: DefaultSizeMeasurable>() -> nat {
    round_up(name_place::<Pk>() + 40, state_unit::<Pk>())
}

/// The places of the fields follow one another.
pub proof fn lemma_places<Pk: DefaultSizeMeasurable>()
    ensures
        state_unit::<Pk>() == 4 || state_unit::<Pk>() == 8 || state_unit::<Pk>() == 16,
        8 <= state_place::<Pk>() <= 16,
        state_place::<Pk>() + Pk::default_size() <= name_place::<Pk>() < state_place::<Pk>()
            + Pk::default_size() + 4,
        name_place::<Pk>() + 40 <= fields_size::<Pk>() < name_place::<Pk>() + 56,
        Pk::default_size() <= u16::MAX,
{
    Pk::lemma_default_size_fits();
    lemma_round_up(8, state_unit::<Pk>());
    lemma_round_up(state_place::<Pk>() + Pk::default_size(), 4);
    lemma_round_up(name_place::<Pk>() + 40, state_unit::<Pk>());
}

/// Where the parts of the byte form of a description lie.
pub struct InfoPlaces {
    pub rows_start: nat,
    pub rows: nat,
    pub keys_start: nat,
    pub keys: nat,
    pub indexes_start: nat,
    pub indexes: nat,
    pub links: nat,
    pub links_end: nat,
    pub fields: nat,
}

/// Where the parts of the byte form of the description lie.
#[verifier::opaque]
pub open spec fn info_places<Pk: DefaultSizeMeasurable + View>(
    v: SpaceInfoView<Pk::V>,
) -> InfoPlaces {
    let rows_start = string_data(v.name).len();
    let rows_block = strings_block(flat_pairs(v.row_schema), rows_start);
    let keys_start = rows_start + rows_block.len();
    let keys_block = strings_block(v.primary_key_fields, keys_start);
    let indexes_start = keys_start + keys_block.len();
    let indexes_block = strings_block(flat_pairs(v.secondary_index_types), indexes_start);
    let end = indexes_start + indexes_block.len();
    let links = end + gap(end, 4);
    let links_end = links + 12 * v.empty_links_list.len();
    InfoPlaces {
        rows_start,
        rows: rows_start + strings_reach(flat_pairs(v.row_schema), rows_start),
        keys_start,
        keys: keys_start + strings_reach(v.primary_key_fields, keys_start),
        indexes_start,
        indexes: indexes_start + strings_reach(
            flat_pairs(v.secondary_index_types),
            indexes_start,
        ),
        links,
        links_end,
        fields: links_end + gap(links_end, state_unit::<Pk>()),
    }
}

/// What lies out of line of the description, with the zeroes that bring
/// the fields to their multiple.
#[verifier::opaque]
pub open spec fn info_body<Pk: DefaultSizeMeasurable + View>(v: SpaceInfoView<Pk::V>) -> Seq<u8> {
    let p = info_places::<Pk>(v);
    string_data(v.name) + strings_block(flat_pairs(v.row_schema), p.rows_start) + strings_block(
        v.primary_key_fields,
        p.keys_start,
    ) + strings_block(flat_pairs(v.secondary_index_types), p.indexes_start) + filler(
        p.links - p.indexes_start - strings_block(
            flat_pairs(v.secondary_index_types),
            p.indexes_start,
        ).len(),
        0,
    ) + links_run(v.empty_links_list, v.empty_links_list.len() as int) + filler(
        p.fields - p.links_end,
        0,
    )
}

/// The fields of the description.
#[verifier::opaque]
pub open spec fn info_fields<Pk: Persistable + DefaultSizeMeasurable>(
    v: SpaceInfoView<Pk::V>,
) -> Seq<u8> {
    let p = info_places::<Pk>(v);
    let name = p.fields + name_place::<Pk>();
    le32(v.id.0) + le32(v.page_count) + filler(state_place::<Pk>() - 8, 0) + Pk::encoding(
        v.pk_gen_state,
    ) + filler(name_place::<Pk>() - state_place::<Pk>() - Pk::default_size(), 0) + string_repr(
        v.name,
        name,
    ) + vector_ref(name + 8 - p.rows, v.row_schema.len()) + vector_ref(
        name + 16 - p.keys,
        v.primary_key_fields.len(),
    ) + vector_ref(name + 24 - p.indexes, v.secondary_index_types.len()) + vector_ref(
        name + 32 - p.links,
        v.empty_links_list.len(),
    ) + filler(fields_size::<Pk>() - name_place::<Pk>() - 40, 0)
}

/// The byte form of the description.
pub open spec fn info_bytes<Pk: Persistable + DefaultSizeMeasurable>(
    v: SpaceInfoView<Pk::V>,
) -> Seq<u8> {
    info_body::<Pk>(v) + info_fields::<Pk>(v)
}

/// Whether the parts of the description have byte forms: the state one
/// of the length of its type, each string a text of a length that a
/// reference holds, and no vector more elements than a count holds.
pub open spec fn info_fits<Pk: Persistable + DefaultSizeMeasurable>(
    v: SpaceInfoView<Pk::V>,
) -> bool {
    &&& Pk::storable(v.pk_gen_state)
    &&& Pk::encoding(v.pk_gen_state).len() == Pk::default_size()
    &&& text_bytes(v.name).len() <= MAX_STRING_LENGTH
    &&& strings_fit(flat_pairs(v.row_schema))
    &&& strings_fit(v.primary_key_fields)
    &&& strings_fit(flat_pairs(v.secondary_index_types))
    &&& v.row_schema.len() <= MAX_INFO_LENGTH
    &&& v.primary_key_fields.len() <= MAX_INFO_LENGTH
    &&& v.secondary_index_types.len() <= MAX_INFO_LENGTH
    &&& v.empty_links_list.len() <= MAX_INFO_LENGTH
}

/// Whether the description has a byte form: its parts have, and the whole
/// is short enough for every distance to fit a reference.
pub open spec fn info_storable<Pk: Persistable + DefaultSizeMeasurable>(
    v: SpaceInfoView<Pk::V>,
) -> bool {
    info_fits::<Pk>(v) && info_bytes::<Pk>(v).len() <= MAX_INFO_LENGTH
}

/// The strings of the vector that the 8 bytes at `field` stand for, `per`
/// for each of its elements, if they stand for one.
pub open spec fn strings_of(bytes: Seq<u8>, field: int, per: nat) -> Option<Seq<Seq<char>>> {
    let distance = distance32(le32_value(bytes.subrange(field, field + 4)));
    let count = le32_value(bytes.subrange(field + 4, field + 8));
    if distance > field {
        None
    } else {
        strings_at(bytes, field - distance, (count * per) as nat)
    }
}

/// The links that lie from `at` on, 12 bytes each.
pub open spec fn links_at(bytes: Seq<u8>, at: int, count: nat) -> Option<Seq<Link>> {
    if at < 0 || at + 12 * count > bytes.len() {
        None
    } else if forall|i: int|
        0 <= i < count ==> (#[trigger] decoding::<Link>(
            bytes.subrange(at + 12 * i, at + 12 * i + 12),
        )) is Some {
        Some(
            Seq::new(
                count,
                |i: int| decoding::<Link>(bytes.subrange(at + 12 * i, at + 12 * i + 12)).unwrap(),
            ),
        )
    } else {
        None
    }
}

/// The links of the vector that the 8 bytes at `field` stand for, if they
/// stand for one.
pub open spec fn links_of(bytes: Seq<u8>, field: int) -> Option<Seq<Link>> {
    let distance = distance32(le32_value(bytes.subrange(field, field + 4)));
    let count = le32_value(bytes.subrange(field + 4, field + 8));
    if distance > field {
        None
    } else {
        links_at(bytes, field - distance, count as nat)
    }
}

/// The description that the bytes spell, read from the fields at their
/// end, if they spell one.
pub open spec fn info_read<Pk: Persistable + DefaultSizeMeasurable>(bytes: Seq<u8>) -> Option<
    SpaceInfoView<Pk::V>,
> {
    let fields = bytes.len() - fields_size::<Pk>();
    let name = fields + name_place::<Pk>();
    if fields < 0 || bytes.len() > MAX_INFO_LENGTH {
        None
    } else {
        let state = decoding::<Pk>(
            bytes.subrange(
                fields + state_place::<Pk>(),
                fields + state_place::<Pk>() + Pk::default_size(),
            ),
        );
        let title = string_at(bytes, name);
        let rows = strings_of(bytes, name + 8, 2);
        let keys = strings_of(bytes, name + 16, 1);
        let indexes = strings_of(bytes, name + 24, 2);
        let links = links_of(bytes, name + 32);
        if state is Some && title is Some && rows is Some && keys is Some && indexes is Some
            && links is Some {
            Some(
                SpaceInfoView {
                    id: space::Id(le32_value(bytes.subrange(fields, fields + 4))),
                    page_count: le32_value(bytes.subrange(fields + 4, fields + 8)),
                    pk_gen_state: state.unwrap(),
                    name: title.unwrap(),
                    row_schema: paired(rows.unwrap()),
                    primary_key_fields: keys.unwrap(),
                    secondary_index_types: paired(indexes.unwrap()),
                    empty_links_list: links.unwrap(),
                },
            )
        } else {
            None
        }
    }
}

/// Where the parts of a run of bytes made of eight parts lie.
pub proof fn lemma_eight_parts(
    a: Seq<u8>,
    b: Seq<u8>,
    c: Seq<u8>,
    d: Seq<u8>,
    e: Seq<u8>,
    f: Seq<u8>,
    g: Seq<u8>,
    h: Seq<u8>,
)
    ensures
        ({
            let whole = a + b + c + d + e + f + g + h;
            let at_b = a.len() as int;
            let at_c = at_b + b.len();
            let at_d = at_c + c.len();
            let at_e = at_d + d.len();
            let at_f = at_e + e.len();
            let at_g = at_f + f.len();
            let at_h = at_g + g.len();
            &&& whole.len() == at_h + h.len()
            &&& whole.subrange(0, at_b) == a
            &&& whole.subrange(at_b, at_c) == b
            &&& whole.subrange(at_c, at_d) == c
            &&& whole.subrange(at_d, at_e) == d
            &&& whole.subrange(at_e, at_f) == e
            &&& whole.subrange(at_f, at_g) == f
            &&& whole.subrange(at_g, at_h) == g
            &&& whole.subrange(at_h, at_h + h.len()) == h
        }),
{
    let whole = a + b + c + d + e + f + g + h;
    let at_b = a.len() as int;
    let at_c = at_b + b.len();
    let at_d = at_c + c.len();
    let at_e = at_d + d.len();
    let at_f = at_e + e.len();
    let at_g = at_f + f.len();
    let at_h = at_g + g.len();
    assert(whole.subrange(0, at_b) =~= a);
    assert(whole.subrange(at_b, at_c) =~= b);
    assert(whole.subrange(at_c, at_d) =~= c);
    assert(whole.subrange(at_d, at_e) =~= d);
    assert(whole.subrange(at_e, at_f) =~= e);
    assert(whole.subrange(at_f, at_g) =~= f);
    assert(whole.subrange(at_g, at_h) =~= g);
    assert(whole.subrange(at_h, at_h + h.len()) =~= h);
}

/// Where the parts of the description lie, one behind another.
pub proof fn lemma_info_places<Pk: Persistable + DefaultSizeMeasurable>(v: SpaceInfoView<Pk::V>)
    ensures
        ({
            let p = info_places::<Pk>(v);
            let rows = strings_block(flat_pairs(v.row_schema), p.rows_start);
            let keys = strings_block(v.primary_key_fields, p.keys_start);
            let indexes = strings_block(flat_pairs(v.secondary_index_types), p.indexes_start);
            &&& p.rows_start == string_data(v.name).len()
            &&& p.keys_start == p.rows_start + rows.len()
            &&& p.indexes_start == p.keys_start + keys.len()
            &&& p.rows == p.rows_start + strings_reach(flat_pairs(v.row_schema), p.rows_start)
            &&& p.keys == p.keys_start + strings_reach(v.primary_key_fields, p.keys_start)
            &&& p.indexes == p.indexes_start + strings_reach(
                flat_pairs(v.secondary_index_types),
                p.indexes_start,
            )
            &&& p.rows + 8 * flat_pairs(v.row_schema).len() == p.keys_start
            &&& p.keys + 8 * v.primary_key_fields.len() == p.indexes_start
            &&& p.indexes + 8 * flat_pairs(v.secondary_index_types).len() == p.indexes_start
                + indexes.len()
            &&& p.indexes_start + indexes.len() <= p.links
            &&& p.links_end == p.links + 12 * v.empty_links_list.len()
            &&& p.links_end <= p.fields
            &&& p.links == round_up(p.indexes_start + indexes.len(), 4)
            &&& p.fields == round_up(p.links_end, state_unit::<Pk>())
            &&& p.rows_start <= p.rows
            &&& p.keys_start <= p.keys
            &&& p.indexes_start <= p.indexes
        }),
{
    reveal(info_places);
    let p = info_places::<Pk>(v);
    let indexes = strings_block(flat_pairs(v.secondary_index_types), p.indexes_start);
    let end = p.indexes_start + indexes.len();
    lemma_strings_block(flat_pairs(v.row_schema), p.rows_start);
    lemma_strings_block(v.primary_key_fields, p.keys_start);
    lemma_strings_block(flat_pairs(v.secondary_index_types), p.indexes_start);
    lemma_round_up(end, 4);
    lemma_round_up(p.links_end, state_unit::<Pk>());
}

/// How the byte form of a description is laid out.
pub proof fn lemma_info_layout<Pk: Persistable + DefaultSizeMeasurable>(v: SpaceInfoView<Pk::V>)
    requires
        Pk::encoding(v.pk_gen_state).len() == Pk::default_size(),
    ensures
        ({
            let p = info_places::<Pk>(v);
            let bytes = info_bytes::<Pk>(v);
            let rows = strings_block(flat_pairs(v.row_schema), p.rows_start);
            let keys = strings_block(v.primary_key_fields, p.keys_start);
            let indexes = strings_block(flat_pairs(v.secondary_index_types), p.indexes_start);
            &&& bytes.len() == p.fields + fields_size::<Pk>()
            &&& bytes.subrange(0, p.rows_start as int) == string_data(v.name)
            &&& bytes.subrange(p.rows_start as int, p.keys_start as int) == rows
            &&& bytes.subrange(p.keys_start as int, p.indexes_start as int) == keys
            &&& bytes.subrange(p.indexes_start as int, (p.indexes_start + indexes.len()) as int)
                == indexes
            &&& bytes.subrange(p.links as int, p.links_end as int) == links_run(
                v.empty_links_list,
                v.empty_links_list.len() as int,
            )
            &&& bytes.subrange(p.fields as int, bytes.len() as int) == info_fields::<Pk>(v)
        }),
{
    let p = info_places::<Pk>(v);
    let rows = strings_block(flat_pairs(v.row_schema), p.rows_start);
    let keys = strings_block(v.primary_key_fields, p.keys_start);
    let indexes = strings_block(flat_pairs(v.secondary_index_types), p.indexes_start);
    let first = filler(p.links - p.indexes_start - indexes.len(), 0);
    let run = links_run(v.empty_links_list, v.empty_links_list.len() as int);
    let second = filler(p.fields - p.links_end, 0);
    let fields = info_fields::<Pk>(v);
    reveal(info_body);
    lemma_info_places::<Pk>(v);
    lemma_links_length(v.empty_links_list, v.empty_links_list.len() as int);
    lemma_fields_length::<Pk>(v);
    assert(first.len() == p.links - p.indexes_start - indexes.len());
    assert(second.len() == p.fields - p.links_end);
    assert(run.len() == 12 * v.empty_links_list.len());
    lemma_eight_parts(string_data(v.name), rows, keys, indexes, first, run, second, fields);
    assert(info_bytes::<Pk>(v) == string_data(v.name) + rows + keys + indexes + first + run
        + second + fields) by {
        assert(info_body::<Pk>(v) == string_data(v.name) + rows + keys + indexes + first + run
            + second);
        assert(info_bytes::<Pk>(v) =~= string_data(v.name) + rows + keys + indexes + first + run
            + second + fields);
    }
}

/// The fields of a description take the number of bytes of the fields.
pub proof fn lemma_fields_length<Pk: Persistable + DefaultSizeMeasurable>(
    v: SpaceInfoView<Pk::V>,
)
    requires
        Pk::encoding(v.pk_gen_state).len() == Pk::default_size(),
    ensures
        info_fields::<Pk>(v).len() == fields_size::<Pk>(),
{
    reveal(info_fields);
    let p = info_places::<Pk>(v);
    let name = p.fields + name_place::<Pk>();
    lemma_places::<Pk>();
    lemma_le32(v.id.0);
    lemma_le32(v.page_count);
    lemma_repr_length(v.name, name);
    lemma_vector_ref(name + 8 - p.rows, v.row_schema.len());
    lemma_vector_ref(name + 16 - p.keys, v.primary_key_fields.len());
    lemma_vector_ref(name + 24 - p.indexes, v.secondary_index_types.len());
    lemma_vector_ref(name + 32 - p.links, v.empty_links_list.len());
}

/// How the fields of a description are laid out.
pub proof fn lemma_fields_layout<Pk: Persistable + DefaultSizeMeasurable>(
    v: SpaceInfoView<Pk::V>,
)
    requires
        Pk::encoding(v.pk_gen_state).len() == Pk::default_size(),
    ensures
        ({
            let p = info_places::<Pk>(v);
            let fields = info_fields::<Pk>(v);
            let state = state_place::<Pk>() as int;
            let name = name_place::<Pk>() as int;
            let at = p.fields + name_place::<Pk>();
            &&& fields.len() == fields_size::<Pk>()
            &&& fields.subrange(0, 4) == le32(v.id.0)
            &&& fields.subrange(4, 8) == le32(v.page_count)
            &&& fields.subrange(state, state + Pk::default_size()) == Pk::encoding(
                v.pk_gen_state,
            )
            &&& fields.subrange(name, name + 8) == string_repr(v.name, at)
            &&& fields.subrange(name + 8, name + 16) == vector_ref(
                at + 8 - p.rows,
                v.row_schema.len(),
            )
            &&& fields.subrange(name + 16, name + 24) == vector_ref(
                at + 16 - p.keys,
                v.primary_key_fields.len(),
            )
            &&& fields.subrange(name + 24, name + 32) == vector_ref(
                at + 24 - p.indexes,
                v.secondary_index_types.len(),
            )
            &&& fields.subrange(name + 32, name + 40) == vector_ref(
                at + 32 - p.links,
                v.empty_links_list.len(),
            )
        }),
{
    reveal(info_fields);
    let p = info_places::<Pk>(v);
    let at = p.fields + name_place::<Pk>();
    let a = le32(v.id.0);
    let b = le32(v.page_count);
    let c = filler(state_place::<Pk>() - 8, 0);
    let d = Pk::encoding(v.pk_gen_state);
    let e = filler(name_place::<Pk>() - state_place::<Pk>() - Pk::default_size(), 0);
    let f = string_repr(v.name, at);
    let r1 = vector_ref(at + 8 - p.rows, v.row_schema.len());
    let r2 = vector_ref(at + 16 - p.keys, v.primary_key_fields.len());
    let r3 = vector_ref(at + 24 - p.indexes, v.secondary_index_types.len());
    let r4 = vector_ref(at + 32 - p.links, v.empty_links_list.len());
    let g = r1 + r2 + r3 + r4;
    let h = filler(fields_size::<Pk>() - name_place::<Pk>() - 40, 0);
    lemma_places::<Pk>();
    lemma_le32(v.id.0);
    lemma_le32(v.page_count);
    lemma_repr_length(v.name, at);
    lemma_vector_ref(at + 8 - p.rows, v.row_schema.len());
    lemma_vector_ref(at + 16 - p.keys, v.primary_key_fields.len());
    lemma_vector_ref(at + 24 - p.indexes, v.secondary_index_types.len());
    lemma_vector_ref(at + 32 - p.links, v.empty_links_list.len());
    lemma_eight_parts(a, b, c, d, e, f, g, h);
    let whole = a + b + c + d + e + f + g + h;
    assert(info_fields::<Pk>(v) =~= whole);
    let name = name_place::<Pk>() as int;
    assert(whole.subrange(name + 8, name + 40) == g);
    assert(whole.subrange(name + 8, name + 16) =~= g.subrange(0, 8));
    assert(whole.subrange(name + 16, name + 24) =~= g.subrange(8, 16));
    assert(whole.subrange(name + 24, name + 32) =~= g.subrange(16, 24));
    assert(whole.subrange(name + 32, name + 40) =~= g.subrange(24, 32));
    assert(g.subrange(0, 8) =~= r1);
    assert(g.subrange(8, 16) =~= r2);
    assert(g.subrange(16, 24) =~= r3);
    assert(g.subrange(24, 32) =~= r4);
}

/// The strings of a vector of the description are read back through the
/// bytes that stand for the vector.
pub proof fn lemma_strings_of(
    bytes: Seq<u8>,
    field: int,
    start: int,
    strs: Seq<Seq<char>>,
    per: nat,
    count: nat,
)
    requires
        strings_fit(strs),
        strs.len() == count * per,
        count <= MAX_INFO_LENGTH,
        bytes.len() <= MAX_INFO_LENGTH,
        0 <= start,
        start + strings_block(strs, start as nat).len() <= field,
        field + 8 <= bytes.len(),
        bytes.subrange(start, start + strings_block(strs, start as nat).len()) == strings_block(
            strs,
            start as nat,
        ),
        bytes.subrange(field, field + 8) == vector_ref(
            field - start - strings_reach(strs, start as nat),
            count,
        ),
    ensures
        strings_of(bytes, field, per) == Some(strs),
{
    let reach = strings_reach(strs, start as nat);
    let distance = field - start - reach;
    lemma_strings_block(strs, start as nat);
    lemma_vector_ref(distance, count);
    let r = bytes.subrange(field, field + 8);
    assert(bytes.subrange(field, field + 4) =~= r.subrange(0, 4));
    assert(bytes.subrange(field + 4, field + 8) =~= r.subrange(4, 8));
    lemma_strings_at(bytes, start, strs, start as nat);
}

/// The links of the description are read back through the bytes that
/// stand for their vector.
pub proof fn lemma_links_of(bytes: Seq<u8>, field: int, start: int, links: Seq<Link>)
    requires
        links.len() <= MAX_INFO_LENGTH,
        bytes.len() <= MAX_INFO_LENGTH,
        0 <= start,
        start + 12 * links.len() <= field,
        field + 8 <= bytes.len(),
        bytes.subrange(start, start + 12 * links.len()) == links_run(links, links.len() as int),
        bytes.subrange(field, field + 8) == vector_ref(field - start, links.len()),
    ensures
        links_of(bytes, field) == Some(links),
{
    lemma_vector_ref(field - start, links.len());
    let r = bytes.subrange(field, field + 8);
    assert(bytes.subrange(field, field + 4) =~= r.subrange(0, 4));
    assert(bytes.subrange(field + 4, field + 8) =~= r.subrange(4, 8));
    let run = links_run(links, links.len() as int);
    assert forall|i: int| 0 <= i < links.len() implies #[trigger] decoding::<Link>(
        bytes.subrange(start + 12 * i, start + 12 * i + 12),
    ) == Some(links[i]) by {
        lemma_links_run(links, links.len() as int, i);
        assert(bytes.subrange(start + 12 * i, start + 12 * i + 12) =~= run.subrange(
            12 * i,
            12 * i + 12,
        ));
        lemma_round_trip::<Link>(links[i]);
    }
    assert(links_at(bytes, start, links.len()).unwrap() =~= links);
}

/// A part of a part of the bytes is a part of the bytes.
pub proof fn lemma_inner(bytes: Seq<u8>, base: int, inner: Seq<u8>, from: int, to: int)
    requires
        0 <= base,
        base + inner.len() <= bytes.len(),
        bytes.subrange(base, base + inner.len()) == inner,
        0 <= from <= to <= inner.len(),
    ensures
        bytes.subrange(base + from, base + to) == inner.subrange(from, to),
{
    assert(bytes.subrange(base + from, base + to) =~= bytes.subrange(
        base,
        base + inner.len(),
    ).subrange(from, to));
}

/// The numbers and the state of the description are read back from its
/// byte form.
pub proof fn lemma_read_head<Pk: Persistable + DefaultSizeMeasurable>(v: SpaceInfoView<Pk::V>)
    requires
        info_storable::<Pk>(v),
    ensures
        ({
            let bytes = info_bytes::<Pk>(v);
            let fields = bytes.len() - fields_size::<Pk>();
            &&& fields >= 0
            &&& fields == info_places::<Pk>(v).fields
            &&& le32_value(bytes.subrange(fields, fields + 4)) == v.id.0
            &&& le32_value(bytes.subrange(fields + 4, fields + 8)) == v.page_count
            &&& decoding::<Pk>(
                bytes.subrange(
                    fields + state_place::<Pk>(),
                    fields + state_place::<Pk>() + Pk::default_size(),
                ),
            ) == Some(v.pk_gen_state)
        }),
{
    let p = info_places::<Pk>(v);
    let bytes = info_bytes::<Pk>(v);
    let fields = info_fields::<Pk>(v);
    let state = state_place::<Pk>() as int;
    let base = p.fields as int;
    lemma_info_layout::<Pk>(v);
    lemma_fields_layout::<Pk>(v);
    lemma_places::<Pk>();
    lemma_le32(v.id.0);
    lemma_le32(v.page_count);
    lemma_inner(bytes, base, fields, 0, 4);
    lemma_inner(bytes, base, fields, 4, 8);
    lemma_inner(bytes, base, fields, state, state + Pk::default_size());
    lemma_round_trip::<Pk>(v.pk_gen_state);
}

/// The name of the description is read back from its byte form.
pub proof fn lemma_read_name<Pk: Persistable + DefaultSizeMeasurable>(v: SpaceInfoView<Pk::V>)
    requires
        info_storable::<Pk>(v),
    ensures
        string_at(
            info_bytes::<Pk>(v),
            (info_places::<Pk>(v).fields + name_place::<Pk>()) as int,
        ) == Some(v.name),
{
    let p = info_places::<Pk>(v);
    let bytes = info_bytes::<Pk>(v);
    let fields = info_fields::<Pk>(v);
    let name = name_place::<Pk>() as int;
    let at = p.fields + name_place::<Pk>();
    lemma_info_layout::<Pk>(v);
    lemma_info_places::<Pk>(v);
    lemma_fields_layout::<Pk>(v);
    lemma_places::<Pk>();
    lemma_inner(bytes, p.fields as int, fields, name, name + 8);
    lemma_string_at(bytes, at as int, v.name, at);
}

/// The columns of the description are read back from its byte form.
#[verifier::rlimit(40)]
pub proof fn lemma_read_rows<Pk: Persistable + DefaultSizeMeasurable>(v: SpaceInfoView<Pk::V>)
    requires
        info_storable::<Pk>(v),
    ensures
        strings_of(
            info_bytes::<Pk>(v),
            (info_places::<Pk>(v).fields + name_place::<Pk>() + 8) as int,
            2,
        ) == Some(flat_pairs(v.row_schema)),
{
    let p = info_places::<Pk>(v);
    let bytes = info_bytes::<Pk>(v);
    let fields = info_fields::<Pk>(v);
    let name = name_place::<Pk>() as int;
    let at = p.fields + name_place::<Pk>();
    lemma_info_layout::<Pk>(v);
    lemma_info_places::<Pk>(v);
    lemma_fields_layout::<Pk>(v);
    lemma_places::<Pk>();
    lemma_inner(bytes, p.fields as int, fields, name + 8, name + 8 + 8);
    let strs = flat_pairs(v.row_schema);
    let block = strings_block(strs, p.rows_start);
    let start = p.rows_start as int;
    assert(start + block.len() <= p.fields);
    assert(bytes.subrange(start, start + block.len()) == block);
    assert(strs.len() == v.row_schema.len() * 2);
    lemma_strings_of(bytes, (at + 8) as int, p.rows_start as int, flat_pairs(v.row_schema), 2, v.row_schema.len());
}

/// The fields of the primary key are read back from the byte form of the
/// description.
#[verifier::rlimit(40)]
pub proof fn lemma_read_keys<Pk: Persistable + DefaultSizeMeasurable>(v: SpaceInfoView<Pk::V>)
    requires
        info_storable::<Pk>(v),
    ensures
        strings_of(
            info_bytes::<Pk>(v),
            (info_places::<Pk>(v).fields + name_place::<Pk>() + 16) as int,
            1,
        ) == Some(v.primary_key_fields),
{
    let p = info_places::<Pk>(v);
    let bytes = info_bytes::<Pk>(v);
    let fields = info_fields::<Pk>(v);
    let name = name_place::<Pk>() as int;
    let at = p.fields + name_place::<Pk>();
    lemma_info_layout::<Pk>(v);
    lemma_info_places::<Pk>(v);
    lemma_fields_layout::<Pk>(v);
    lemma_places::<Pk>();
    lemma_inner(bytes, p.fields as int, fields, name + 16, name + 16 + 8);
    let strs = v.primary_key_fields;
    let block = strings_block(strs, p.keys_start);
    let start = p.keys_start as int;
    assert(start + block.len() <= p.fields);
    assert(bytes.subrange(start, start + block.len()) == block);
    assert(strs.len() == v.primary_key_fields.len() * 1);
    lemma_strings_of(bytes, (at + 16) as int, p.keys_start as int, v.primary_key_fields, 1, v.primary_key_fields.len());
}

/// The indexes of the description are read back from its byte form.
#[verifier::rlimit(40)]
pub proof fn lemma_read_indexes<Pk: Persistable + DefaultSizeMeasurable>(v: SpaceInfoView<Pk::V>)
    requires
        info_storable::<Pk>(v),
    ensures
        strings_of(
            info_bytes::<Pk>(v),
            (info_places::<Pk>(v).fields + name_place::<Pk>() + 24) as int,
            2,
        ) == Some(flat_pairs(v.secondary_index_types)),
{
    let p = info_places::<Pk>(v);
    let bytes = info_bytes::<Pk>(v);
    let fields = info_fields::<Pk>(v);
    let name = name_place::<Pk>() as int;
    let at = p.fields + name_place::<Pk>();
    lemma_info_layout::<Pk>(v);
    lemma_info_places::<Pk>(v);
    lemma_fields_layout::<Pk>(v);
    lemma_places::<Pk>();
    lemma_inner(bytes, p.fields as int, fields, name + 24, name + 24 + 8);
    let strs = flat_pairs(v.secondary_index_types);
    let block = strings_block(strs, p.indexes_start);
    let start = p.indexes_start as int;
    assert(start + block.len() <= p.links);
    assert(p.links <= p.links_end);
    assert(p.links_end <= p.fields);
    assert(bytes.subrange(start, start + block.len()) == block);
    assert(strs.len() == v.secondary_index_types.len() * 2);
    assert(bytes.subrange((at + 24) as int, (at + 24 + 8) as int) == vector_ref(
        at + 24 - p.indexes,
        v.secondary_index_types.len(),
    ));
    lemma_strings_of(bytes, (at + 24) as int, p.indexes_start as int, flat_pairs(v.secondary_index_types), 2, v.secondary_index_types.len());
}

/// The links of the description are read back from its byte form.
pub proof fn lemma_read_links<Pk: Persistable + DefaultSizeMeasurable>(v: SpaceInfoView<Pk::V>)
    requires
        info_storable::<Pk>(v),
    ensures
        links_of(
            info_bytes::<Pk>(v),
            (info_places::<Pk>(v).fields + name_place::<Pk>() + 32) as int,
        ) == Some(v.empty_links_list),
{
    let p = info_places::<Pk>(v);
    let bytes = info_bytes::<Pk>(v);
    let fields = info_fields::<Pk>(v);
    let name = name_place::<Pk>() as int;
    let at = p.fields + name_place::<Pk>();
    lemma_info_layout::<Pk>(v);
    lemma_info_places::<Pk>(v);
    lemma_fields_layout::<Pk>(v);
    lemma_places::<Pk>();
    lemma_inner(bytes, p.fields as int, fields, name + 32, name + 40);
    lemma_links_of(bytes, (at + 32) as int, p.links as int, v.empty_links_list);
}

/// The byte form of a description reads as the description.
pub proof fn lemma_info_read<Pk: Persistable + DefaultSizeMeasurable>(v: SpaceInfoView<Pk::V>)
    requires
        info_storable::<Pk>(v),
    ensures
        info_read::<Pk>(info_bytes::<Pk>(v)) == Some(v),
{
    lemma_read_head::<Pk>(v);
    lemma_read_name::<Pk>(v);
    lemma_read_rows::<Pk>(v);
    lemma_read_keys::<Pk>(v);
    lemma_read_indexes::<Pk>(v);
    lemma_read_links::<Pk>(v);
    lemma_paired(v.row_schema);
    lemma_paired(v.secondary_index_types);
}

/// Returns `count` zeroes.
fn zeroes(count: usize) -> (bytes: Vec<u8>)
    ensures
        bytes@ == filler(count as int, 0),
{
    let mut bytes: Vec<u8> = Vec::new();
    let mut i: usize = 0;
    while i < count
        invariant
            i <= count,
            bytes@ == filler(i as int, 0),
        decreases count - i,
    {
        bytes.push(0);
        i += 1;
        assert(bytes@ =~= filler(i as int, 0));
    }
    bytes
}

/// The zeroes that bring a length up to a multiple of 4, 8 or 16 are as
/// many as the unit has above what the length has above a multiple.
proof fn lemma_gap(length: nat, unit: nat)
    requires
        unit == 4 || unit == 8 || unit == 16,
    ensures
        gap(length, unit) == (unit - length % unit) % (unit as int),
        round_up(length, unit) == length + gap(length, unit),
{
    lemma_round_up(length, unit);
    if unit == 4 {
        assert(gap(length, 4) == (4 - length % 4) % 4);
    } else if unit == 8 {
        assert(gap(length, 8) == (8 - length % 8) % 8);
    } else {
        assert(gap(length, 16) == (16 - length % 16) % 16);
    }
}

/// Puts zeroes behind the bytes until their number is a multiple of
/// `unit`.
fn fill_up(bytes: &mut Vec<u8>, unit: usize)
    requires
        unit == 4 || unit == 8 || unit == 16,
    ensures
        final(bytes)@ == old(bytes)@ + filler(gap(old(bytes)@.len(), unit as nat) as int, 0),
        final(bytes)@.len() == round_up(old(bytes)@.len(), unit as nat),
{
    proof {
        lemma_gap(bytes@.len(), unit as nat);
    }
    let count: usize = (unit - bytes.len() % unit) % unit;
    let mut part: Vec<u8> = zeroes(count);
    bytes.append(&mut part);
}

/// Returns the strings of the pairs, one after another.
fn flat_strings(pairs: &Vec<(String, String)>) -> (strs: Vec<String>)
    ensures
        string_views(strs@) == flat_pairs(models(pairs@)),
{
    let mut strs: Vec<String> = Vec::new();
    let mut i: usize = 0;
    while i < pairs.len()
        invariant
            i <= pairs@.len(),
            strs@.len() == 2 * i,
            forall|j: int| 0 <= j < i ==> (#[trigger] strs@[2 * j])@ == pairs@[j].0@,
            forall|j: int| 0 <= j < i ==> (#[trigger] strs@[2 * j + 1])@ == pairs@[j].1@,
        decreases pairs@.len() - i,
    {
        strs.push(pairs[i].0.clone());
        strs.push(pairs[i].1.clone());
        i += 1;
    }
    proof {
        let flat = flat_pairs(models(pairs@));
        assert forall|k: int| 0 <= k < flat.len() implies string_views(strs@)[k] == flat[k] by {
            let j = k / 2;
            assert(models(pairs@)[j] == pairs@[j]@);
            if k % 2 == 0 {
                assert(k == 2 * j);
                assert(strs@[2 * j]@ == pairs@[j].0@);
            } else {
                assert(k == 2 * j + 1);
                assert(strs@[2 * j + 1]@ == pairs@[j].1@);
            }
        }
        assert(string_views(strs@) =~= flat);
    }
    strs
}

/// Returns the pairs of the strings, which come two by two.
fn pair_strings(strs: &Vec<String>) -> (pairs: Vec<(String, String)>)
    ensures
        models(pairs@) == paired(string_views(strs@)),
{
    let total: usize = strs.len();
    let count: usize = total / 2;
    let mut pairs: Vec<(String, String)> = Vec::new();
    let mut i: usize = 0;
    while i < count
        invariant
            i <= count,
            count == strs@.len() / 2,
            total == strs@.len(),
            2 * count <= total,
            pairs@.len() == i,
            forall|j: int|
                0 <= j < i ==> (#[trigger] pairs@[j])@ == (strs@[2 * j]@, strs@[2 * j + 1]@),
        decreases count - i,
    {
        assert(2 * i + 1 < strs@.len());
        pairs.push((strs[2 * i].clone(), strs[2 * i + 1].clone()));
        i += 1;
    }
    proof {
        let model = paired(string_views(strs@));
        assert forall|j: int| 0 <= j < model.len() implies models(pairs@)[j] == model[j] by {
            assert(models(pairs@)[j] == pairs@[j]@);
            assert(string_views(strs@)[2 * j] == strs@[2 * j]@);
            assert(string_views(strs@)[2 * j + 1] == strs@[2 * j + 1]@);
        }
        assert(models(pairs@) =~= model);
    }
    pairs
}

/// Where the parts of the byte form of a description lie, as they are
/// found while it is written.
struct Places {
    rows: usize,
    keys: usize,
    indexes: usize,
    links: usize,
    fields: usize,
}

impl<Pk: Persistable + DefaultSizeMeasurable> SpaceInfoPage<Pk> {
    /// Returns the multiple that the state lies at.
    fn unit() -> (r: usize)
        ensures
            r == state_unit::<Pk>(),
            r == 4 || r == 8 || r == 16,
    {
        match Pk::align() {
            Some(a) => if a == 16 {
                16
            } else if a % 8 == 0 {
                8
            } else {
                4
            },
            None => 4,
        }
    }

    /// Returns where the state and the name lie among the fields, and the
    /// number of bytes of the fields.
    fn field_places() -> (r: (usize, usize, usize))
        ensures
            r.0 == state_place::<Pk>(),
            r.1 == name_place::<Pk>(),
            r.2 == fields_size::<Pk>(),
            r.1 + 40 <= r.2 <= 0x2_0000,
    {
        proof {
            lemma_places::<Pk>();
        }
        let unit: usize = Self::unit();
        let state: usize = if unit == 16 {
            16
        } else {
            8
        };
        let name: usize = align(state + Pk::default_aligned_size());
        let end: usize = name + 40;
        let size: usize = if end % unit == 0 {
            end
        } else {
            (end / unit + 1) * unit
        };
        (state, name, size)
    }

    /// Tells whether the parts of the description have byte forms.
    fn fits(&self) -> (r: bool)
        ensures
            r == info_fits::<Pk>(self@),
    {
        if !self.pk_gen_state.is_storable() {
            return false;
        }
        if self.pk_gen_state.as_bytes().len() != Pk::default_aligned_size() {
            return false;
        }
        if self.name.as_str().as_bytes().len() > MAX_STRING_LENGTH {
            return false;
        }
        let rows: Vec<String> = flat_strings(&self.row_schema);
        let indexes: Vec<String> = flat_strings(&self.secondary_index_types);
        proof {
            assert(string_views(self.primary_key_fields@) =~= self@.primary_key_fields);
        }
        strings_do_fit(&rows) && strings_do_fit(&self.primary_key_fields) && strings_do_fit(
            &indexes,
        ) && self.row_schema.len() <= MAX_INFO_LENGTH && self.primary_key_fields.len()
            <= MAX_INFO_LENGTH && self.secondary_index_types.len() <= MAX_INFO_LENGTH
            && self.empty_links_list.len() <= MAX_INFO_LENGTH
    }

    /// Writes what lies out of line of the description, and tells where
    /// its parts lie.
    fn encode_body(&self) -> (r: (Vec<u8>, Places))
        requires
            info_fits::<Pk>(self@),
        ensures
            r.0@ == info_body::<Pk>(self@),
            r.1.rows == info_places::<Pk>(self@).rows,
            r.1.keys == info_places::<Pk>(self@).keys,
            r.1.indexes == info_places::<Pk>(self@).indexes,
            r.1.links == info_places::<Pk>(self@).links,
            r.1.fields == info_places::<Pk>(self@).fields,
            r.1.fields == r.0@.len(),
    {
        let ghost v = self@;
        let ghost p = info_places::<Pk>(v);
        proof {
            reveal(info_body);
            lemma_info_places::<Pk>(v);
            assert(string_views(self.primary_key_fields@) =~= v.primary_key_fields);
        }
        let mut bytes: Vec<u8> = Vec::new();
        let text: &[u8] = self.name.as_str().as_bytes();
        if text.len() > 8 {
            let mut part: Vec<u8> = vstd::slice::slice_to_vec(text);
            bytes.append(&mut part);
        }
        assert(bytes@ =~= string_data(v.name));
        let strs: Vec<String> = flat_strings(&self.row_schema);
        let rows: usize = write_strings(&mut bytes, &strs);
        let ghost first = bytes@;
        let keys: usize = write_strings(&mut bytes, &self.primary_key_fields);
        let ghost second = bytes@;
        let strs: Vec<String> = flat_strings(&self.secondary_index_types);
        let indexes: usize = write_strings(&mut bytes, &strs);
        let ghost third = bytes@;
        fill_up(&mut bytes, 4);
        let ghost fourth = bytes@;
        let links: usize = bytes.len();
        let mut i: usize = 0;
        assert(bytes@ =~= fourth + links_run(v.empty_links_list, 0));
        while i < self.empty_links_list.len()
            invariant
                i <= self.empty_links_list@.len(),
                v == self@,
                bytes@ == fourth + links_run(v.empty_links_list, i as int),
            decreases self.empty_links_list@.len() - i,
        {
            assert(v.empty_links_list[i as int] == self.empty_links_list@[i as int]);
            let mut part: Vec<u8> = self.empty_links_list[i].as_bytes();
            bytes.append(&mut part);
            i += 1;
            assert(bytes@ =~= fourth + links_run(v.empty_links_list, i as int));
        }
        let ghost fifth = bytes@;
        proof {
            lemma_links_length(v.empty_links_list, v.empty_links_list.len() as int);
        }
        fill_up(&mut bytes, Self::unit());
        let fields: usize = bytes.len();
        proof {
            assert(first.len() == p.keys_start);
            assert(second.len() == p.indexes_start);
            assert(fourth.len() == p.links);
            assert(fifth.len() == p.links_end);
            assert(bytes@ =~= info_body::<Pk>(v));
        }
        (bytes, Places { rows, keys, indexes, links, fields })
    }

    /// Writes the fields of the description, which lie at `places.fields`
    /// in its byte form.
    fn encode_fields(&self, places: &Places) -> (bytes: Vec<u8>)
        requires
            info_fits::<Pk>(self@),
            places.rows == info_places::<Pk>(self@).rows,
            places.keys == info_places::<Pk>(self@).keys,
            places.indexes == info_places::<Pk>(self@).indexes,
            places.links == info_places::<Pk>(self@).links,
            places.fields == info_places::<Pk>(self@).fields,
        ensures
            bytes@ == info_fields::<Pk>(self@),
    {
        let ghost v = self@;
        proof {
            reveal(info_fields);
            lemma_info_places::<Pk>(v);
            lemma_places::<Pk>();
        }
        let (state, name, size) = Self::field_places();
        let at: u128 = places.fields as u128 + name as u128;
        let mut bytes: Vec<u8> = le32_bytes(self.id.0);
        let mut part: Vec<u8> = le32_bytes(self.page_count);
        bytes.append(&mut part);
        let mut part: Vec<u8> = zeroes(state - 8);
        bytes.append(&mut part);
        let mut part: Vec<u8> = self.pk_gen_state.as_bytes();
        bytes.append(&mut part);
        let mut part: Vec<u8> = zeroes(name - state - Pk::default_aligned_size());
        bytes.append(&mut part);
        let mut part: Vec<u8> = repr_bytes(&self.name, at);
        bytes.append(&mut part);
        let mut part: Vec<u8> = vector_ref_bytes(at + 8 - places.rows as u128, self.row_schema.len());
        bytes.append(&mut part);
        let mut part: Vec<u8> = vector_ref_bytes(
            at + 16 - places.keys as u128,
            self.primary_key_fields.len(),
        );
        bytes.append(&mut part);
        let mut part: Vec<u8> = vector_ref_bytes(
            at + 24 - places.indexes as u128,
            self.secondary_index_types.len(),
        );
        bytes.append(&mut part);
        let mut part: Vec<u8> = vector_ref_bytes(
            at + 32 - places.links as u128,
            self.empty_links_list.len(),
        );
        bytes.append(&mut part);
        let mut part: Vec<u8> = zeroes(size - name - 40);
        bytes.append(&mut part);
        assert(bytes@ =~= info_fields::<Pk>(v));
        bytes
    }

    /// Writes the byte form of a description whose parts have byte
    /// forms.
    fn encode(&self) -> (bytes: Vec<u8>)
        requires
            info_fits::<Pk>(self@),
        ensures
            bytes@ == info_bytes::<Pk>(self@),
    {
        let (mut bytes, places) = self.encode_body();
        let mut part: Vec<u8> = self.encode_fields(&places);
        bytes.append(&mut part);
        bytes
    }
}

/// Reads the strings of the vector that the 8 bytes at `field` stand for,
/// `per` for each of its elements. Returns `None` if they stand for none.
fn read_vector_strings(bytes: &[u8], field: usize, per: usize) -> (r: Option<Vec<String>>)
    requires
        field + 8 <= bytes@.len(),
        per == 1 || per == 2,
    ensures
        match r {
            Some(strs) => strings_of(bytes@, field as int, per as nat) == Some(
                string_views(strs@),
            ),
            None => strings_of(bytes@, field as int, per as nat) is None,
        },
{
    let total: usize = bytes.len();
    let back: u32 = le32_at(bytes, field);
    let count: u32 = le32_at(bytes, field + 4);
    let distance: u64 = (0x1_0000_0000u64 - back as u64) % 0x1_0000_0000;
    if distance > field as u64 {
        return None;
    }
    let at: usize = field - distance as usize;
    let wanted: u64 = count as u64 * per as u64;
    if wanted > (bytes.len() as u64) / 8 {
        proof {
            let last = wanted as int - 1;
            assert(at + 8 * last + 8 > bytes@.len());
            assert(string_at(bytes@, at + 8 * last) is None);
        }
        return None;
    }
    read_strings(bytes, at, wanted as usize)
}

/// Reads the links of the vector that the 8 bytes at `field` stand for.
/// Returns `None` if they stand for none.
fn read_vector_links(bytes: &[u8], field: usize) -> (r: Option<Vec<Link>>)
    requires
        field + 8 <= bytes@.len(),
    ensures
        match r {
            Some(links) => links_of(bytes@, field as int) == Some(models(links@)),
            None => links_of(bytes@, field as int) is None,
        },
{
    let total: usize = bytes.len();
    let back: u32 = le32_at(bytes, field);
    let count: u32 = le32_at(bytes, field + 4);
    let distance: u64 = (0x1_0000_0000u64 - back as u64) % 0x1_0000_0000;
    if distance > field as u64 {
        return None;
    }
    let at: usize = field - distance as usize;
    if count as u64 > ((total - at) as u64) / 12 {
        return None;
    }
    let mut links: Vec<Link> = Vec::new();
    let mut i: usize = 0;
    while i < count as usize
        invariant
            i <= count,
            total == bytes@.len(),
            at + 12 * count <= total,
            at as int == field - distance32(le32_value(bytes@.subrange(field as int, field + 4))),
            count == le32_value(bytes@.subrange(field + 4, field + 8)),
            links@.len() == i,
            forall|j: int|
                0 <= j < i ==> #[trigger] decoding::<Link>(
                    bytes@.subrange(at + 12 * j, at + 12 * j + 12),
                ) == Some(links@[j]),
        decreases count - i,
    {
        match decode::<Link>(slice_subrange(bytes, at + 12 * i, at + 12 * i + 12)) {
            Ok(link) => {
                links.push(link);
            },
            Err(_) => {
                assert(decoding::<Link>(bytes@.subrange(at + 12 * i, at + 12 * i + 12)) is None);
                assert(links_at(bytes@, at as int, count as nat) is None);
                return None;
            },
        }
        i += 1;
    }
    assert(links_at(bytes@, at as int, count as nat).unwrap() =~= models(links@));
    Some(links)
}

impl<Pk: Persistable + DefaultSizeMeasurable> SpaceInfoPage<Pk> {
    /// Reads the description that the bytes spell, from the fields at
    /// their end. Returns `None` if they spell none.
    fn read(bytes: &[u8]) -> (r: Option<Self>)
        ensures
            match r {
                Some(page) => info_read::<Pk>(bytes@) == Some(page@),
                None => info_read::<Pk>(bytes@) is None,
            },
    {
        let (state, name, size) = Self::field_places();
        let total: usize = bytes.len();
        if total < size || total > MAX_INFO_LENGTH {
            return None;
        }
        proof {
            lemma_places::<Pk>();
        }
        let fields: usize = total - size;
        let at: usize = fields + name;
        let id: u32 = le32_at(bytes, fields);
        let page_count: u32 = le32_at(bytes, fields + 4);
        let pk_gen_state = match decode::<Pk>(
            slice_subrange(bytes, fields + state, fields + state + Pk::default_aligned_size()),
        ) {
            Ok(state) => state,
            Err(_) => {
                return None;
            },
        };
        let title = match read_string_at(bytes, at) {
            Some(title) => title,
            None => {
                return None;
            },
        };
        let rows = match read_vector_strings(bytes, at + 8, 2) {
            Some(rows) => rows,
            None => {
                return None;
            },
        };
        let keys = match read_vector_strings(bytes, at + 16, 1) {
            Some(keys) => keys,
            None => {
                return None;
            },
        };
        let indexes = match read_vector_strings(bytes, at + 24, 2) {
            Some(indexes) => indexes,
            None => {
                return None;
            },
        };
        let links = match read_vector_links(bytes, at + 32) {
            Some(links) => links,
            None => {
                return None;
            },
        };
        let page = SpaceInfoPage {
            id: space::Id(id),
            page_count,
            pk_gen_state,
            name: title,
            row_schema: pair_strings(&rows),
            primary_key_fields: keys,
            secondary_index_types: pair_strings(&indexes),
            empty_links_list: links,
        };
        proof {
            assert(page@.primary_key_fields =~= string_views(page.primary_key_fields@));
        }
        Some(page)
    }
}

/// The byte form of a description: the archive of its fields in their
/// order.
impl<Pk: Persistable + DefaultSizeMeasurable> Persistable for SpaceInfoPage<Pk> {
    open spec fn storable(v: SpaceInfoView<Pk::V>) -> bool {
        info_storable::<Pk>(v)
    }

    open spec fn encoding(v: SpaceInfoView<Pk::V>) -> Seq<u8> {
        info_bytes::<Pk>(v)
    }

    proof fn lemma_encoding_injective(a: SpaceInfoView<Pk::V>, b: SpaceInfoView<Pk::V>) {
        lemma_info_read::<Pk>(a);
        lemma_info_read::<Pk>(b);
    }

    fn is_storable(&self) -> (r: bool) {
        if !self.fits() {
            return false;
        }
        self.encode().len() <= MAX_INFO_LENGTH
    }

    fn as_bytes(&self) -> (bytes: Vec<u8>) {
        self.encode()
    }

    fn from_bytes(bytes: &[u8]) -> (r: Result<Self, Error>) {
        proof {
            assert forall|v: SpaceInfoView<Pk::V>|
                Self::storable(v) && bytes@ == #[trigger] Self::encoding(v) implies info_read::<Pk>(
                bytes@,
            ) == Some(v) by {
                lemma_info_read::<Pk>(v);
            }
        }
        let page = match Self::read(bytes) {
            Some(page) => page,
            None => {
                return Err(Error::Decode);
            },
        };
        if !page.is_storable() {
            return Err(Error::Decode);
        }
        let again: Vec<u8> = page.encode();
        if !same_bytes(again.as_slice(), bytes) {
            return Err(Error::Decode);
        }
        Ok(page)
    }
}

} // verus!

//! The byte form of a vector of cells of one size.
//!
//! The cells lie one after another, zeroes fill up to a multiple of 4, and
//! an 8-byte reference follows: the distance back to the first cell and
//! the number of cells.

use crate::util::sized::{lemma_round_up, round_up};
use crate::util::text::{backward, filler};
use vstd::bytes::*;
use vstd::prelude::*;
use vstd::slice::slice_subrange;

verus! {

/// The cells one after another.
pub open spec fn joined(cells: Seq<Seq<u8>>) -> Seq<u8>
    decreases cells.len(),
{
    if cells.len() == 0 {
        Seq::empty()
    } else {
        joined(cells.drop_last()) + cells.last()
    }
}

/// Whether every cell has `stride` bytes.
pub open spec fn cells_of(cells: Seq<Seq<u8>>, stride: nat) -> bool {
    forall|i: int| 0 <= i < cells.len() ==> (#[trigger] cells[i]).len() == stride
}

/// Cells of `stride` bytes, joined, lie at the multiples of `stride`.
pub proof fn lemma_joined(cells: Seq<Seq<u8>>, stride: nat)
    requires
        cells_of(cells, stride),
    ensures
        joined(cells).len() == cells.len() * stride,
        forall|i: int|
            0 <= i < cells.len() ==> joined(cells).subrange(i * stride, (i + 1) * stride)
                == #[trigger] cells[i],
    decreases cells.len(),
{
    let n = cells.len() as int;
    if n > 0 {
        let front = cells.drop_last();
        lemma_joined(front, stride);
        assert((n - 1) * stride + stride == n * stride) by (nonlinear_arith);
        assert forall|i: int| 0 <= i < n implies joined(cells).subrange(
            i * stride,
            (i + 1) * stride,
        ) == #[trigger] cells[i] by {
            assert((i + 1) * stride == i * stride + stride) by (nonlinear_arith);
            assert(0 <= i * stride) by (nonlinear_arith)
                requires
                    0 <= i,
            ;
            if i < n - 1 {
                assert((i + 1) * stride <= (n - 1) * stride) by (nonlinear_arith)
                    requires
                        i + 1 <= n - 1,
                ;
                assert(front[i] == cells[i]);
                assert(joined(cells).subrange(i * stride, (i + 1) * stride) =~= joined(
                    front,
                ).subrange(i * stride, (i + 1) * stride));
            } else {
                assert(joined(cells).subrange(i * stride, (i + 1) * stride) =~= cells.last());
            }
        }
    } else {
        assert(cells.len() * stride == 0) by (nonlinear_arith)
            requires
                cells.len() == 0,
        ;
    }
}

/// Bytes that hold a cell at each multiple of `stride` are the cells
/// joined.
pub proof fn lemma_joined_from_cells(bytes: Seq<u8>, cells: Seq<Seq<u8>>, stride: nat)
    requires
        bytes.len() == cells.len() * stride,
        forall|i: int|
            0 <= i < cells.len() ==> bytes.subrange(i * stride, (i + 1) * stride)
                == #[trigger] cells[i],
    ensures
        bytes == joined(cells),
    decreases cells.len(),
{
    let n = cells.len() as int;
    if n > 0 {
        let front = cells.drop_last();
        assert((n - 1) * stride + stride == n * stride) by (nonlinear_arith);
        assert(0 <= (n - 1) * stride) by (nonlinear_arith)
            requires
                n >= 1,
        ;
        let head = bytes.subrange(0, (n - 1) * stride);
        assert forall|i: int| 0 <= i < front.len() implies head.subrange(
            i * stride,
            (i + 1) * stride,
        ) == #[trigger] front[i] by {
            assert((i + 1) * stride == i * stride + stride) by (nonlinear_arith);
            assert(0 <= i * stride) by (nonlinear_arith)
                requires
                    0 <= i,
            ;
            assert((i + 1) * stride <= (n - 1) * stride) by (nonlinear_arith)
                requires
                    i + 1 <= n - 1,
            ;
            assert(front[i] == cells[i]);
            assert(head.subrange(i * stride, (i + 1) * stride) =~= bytes.subrange(
                i * stride,
                (i + 1) * stride,
            ));
        }
        lemma_joined_from_cells(head, front, stride);
        assert(bytes.subrange((n - 1) * stride, n * stride) == cells[n - 1]);
        assert(bytes =~= head + cells.last());
    } else {
        assert(cells.len() * stride == 0) by (nonlinear_arith)
            requires
                cells.len() == 0,
        ;
        assert(bytes =~= joined(cells));
    }
}

/// The byte form of a vector of cells of `stride` bytes.
pub open spec fn vector_bytes(cells: Seq<Seq<u8>>, stride: nat) -> Seq<u8> {
    let body = joined(cells);
    let span = round_up(body.len(), 4);
    body + filler(span - body.len(), 0) + spec_u32_to_le_bytes(backward(span))
        + spec_u32_to_le_bytes(cells.len() as u32)
}

/// The number of bytes of a vector of `count` cells of `stride` bytes.
pub open spec fn vector_size(count: nat, stride: nat) -> nat {
    round_up(count * stride, 4) + 8
}

/// Whether cells can make a vector: each has `stride` bytes, and the
/// count and the bytes fit the 32 bits of the reference.
pub open spec fn vector_ok(cells: Seq<Seq<u8>>, stride: nat) -> bool {
    &&& cells_of(cells, stride)
    &&& cells.len() <= u32::MAX
    &&& cells.len() * stride <= 0xffff_fff0
}

/// How the byte form of a vector is laid out.
pub proof fn lemma_vector_layout(cells: Seq<Seq<u8>>, stride: nat)
    requires
        vector_ok(cells, stride),
    ensures
        vector_bytes(cells, stride).len() == vector_size(cells.len(), stride),
        vector_bytes(cells, stride).subrange(0, (cells.len() * stride) as int) == joined(cells),
        forall|i: int|
            cells.len() * stride <= i < round_up(cells.len() * stride, 4) ==> vector_bytes(
                cells,
                stride,
            )[i] == 0,
        ({
            let span = round_up(cells.len() * stride, 4) as int;
            &&& vector_bytes(cells, stride).subrange(span, span + 4) == spec_u32_to_le_bytes(
                backward(span as nat),
            )
            &&& vector_bytes(cells, stride).subrange(span + 4, span + 8) == spec_u32_to_le_bytes(
                cells.len() as u32,
            )
        }),
{
    lemma_joined(cells, stride);
    lemma_auto_spec_u32_to_from_le_bytes();
    let body = joined(cells);
    let span = round_up(body.len(), 4);
    lemma_round_up(body.len(), 4);
    let e = vector_bytes(cells, stride);
    let back = spec_u32_to_le_bytes(backward(span));
    let count = spec_u32_to_le_bytes(cells.len() as u32);
    assert(back.len() == 4);
    assert(count.len() == 4);
    assert(e.subrange(0, body.len() as int) =~= body);
    assert(e.subrange(span as int, span as int + 4) =~= back);
    assert(e.subrange(span as int + 4, span as int + 8) =~= count);
}

/// Two vectors with the same byte form have the same cells.
pub proof fn lemma_vector_injective(a: Seq<Seq<u8>>, b: Seq<Seq<u8>>, stride: nat)
    requires
        vector_ok(a, stride),
        vector_ok(b, stride),
        vector_bytes(a, stride) == vector_bytes(b, stride),
    ensures
        a == b,
{
    lemma_vector_layout(a, stride);
    lemma_vector_layout(b, stride);
    lemma_auto_spec_u32_to_from_le_bytes();
    lemma_round_up(a.len() * stride, 4);
    lemma_round_up(b.len() * stride, 4);
    let e = vector_bytes(a, stride);
    let na = spec_u32_to_le_bytes(a.len() as u32);
    let nb = spec_u32_to_le_bytes(b.len() as u32);
    assert(na.len() == 4 && nb.len() == 4);
    assert(e.subrange(e.len() - 4, e.len() as int) == na);
    assert(e.subrange(e.len() - 4, e.len() as int) == nb);
    assert(spec_u32_from_le_bytes(na) == a.len() as u32);
    assert(spec_u32_from_le_bytes(nb) == b.len() as u32);
    assert(a.len() == b.len());
    lemma_joined(a, stride);
    lemma_joined(b, stride);
    assert(joined(a) == joined(b));
    assert forall|i: int| 0 <= i < a.len() implies a[i] == b[i] by {
        assert(joined(a).subrange(i * stride, (i + 1) * stride) == a[i]);
        assert(joined(b).subrange(i * stride, (i + 1) * stride) == b[i]);
    }
    assert(a =~= b);
}

/// The cells of a vector of byte vectors.
pub open spec fn cells_view(cells: Seq<Vec<u8>>) -> Seq<Seq<u8>> {
    Seq::new(cells.len(), |i: int| cells[i]@)
}

/// Returns the byte form of the vector of `cells`.
pub fn encode_vector(cells: &Vec<Vec<u8>>, stride: usize) -> (bytes: Vec<u8>)
    requires
        vector_ok(cells_view(cells@), stride as nat),
    ensures
        bytes@ == vector_bytes(cells_view(cells@), stride as nat),
{
    let ghost model = cells_view(cells@);
    let mut bytes: Vec<u8> = Vec::new();
    let mut i: usize = 0;
    proof {
        assert(model.subrange(0, 0) =~= Seq::<Seq<u8>>::empty());
    }
    while i < cells.len()
        invariant
            i <= cells@.len(),
            model == cells_view(cells@),
            vector_ok(model, stride as nat),
            bytes@ == joined(model.subrange(0, i as int)),
        decreases cells@.len() - i,
    {
        let cell: &Vec<u8> = &cells[i];
        let mut j: usize = 0;
        let ghost start = bytes@;
        assert(model[i as int] == cell@);
        while j < cell.len()
            invariant
                j <= cell@.len(),
                bytes@ == start + cell@.subrange(0, j as int),
            decreases cell@.len() - j,
        {
            bytes.push(cell[j]);
            j += 1;
            assert(bytes@ =~= start + cell@.subrange(0, j as int));
        }
        i += 1;
        proof {
            assert(cell@.subrange(0, cell@.len() as int) =~= cell@);
            let part = model.subrange(0, i as int);
            assert(part.drop_last() =~= model.subrange(0, i - 1));
            assert(part.last() == cell@);
        }
    }
    proof {
        assert(model.subrange(0, cells@.len() as int) =~= model);
        lemma_joined(model, stride as nat);
        lemma_round_up(bytes@.len(), 4);
    }
    let body: usize = bytes.len();
    let span: usize = if body % 4 == 0 {
        body
    } else {
        (body / 4 + 1) * 4
    };
    let ghost joined_cells = bytes@;
    let mut k: usize = body;
    while k < span
        invariant
            body <= k <= span,
            bytes@ == joined_cells + filler(k - body, 0),
        decreases span - k,
    {
        bytes.push(0);
        k += 1;
        assert(bytes@ =~= joined_cells + filler(k - body, 0));
    }
    let back: u32 = if span == 0 {
        0
    } else {
        (u32::MAX - span as u32) + 1
    };
    let mut part: Vec<u8> = u32_to_le_bytes(back);
    bytes.append(&mut part);
    let mut part: Vec<u8> = u32_to_le_bytes(cells.len() as u32);
    bytes.append(&mut part);
    bytes
}

/// What the byte form of a vector tells: its length, the reference at its
/// end, the zeroes before that, and the cells at its start.
pub proof fn lemma_vector_parse(cells: Seq<Seq<u8>>, stride: nat, bytes: Seq<u8>)
    requires
        vector_ok(cells, stride),
        vector_bytes(cells, stride) == bytes,
    ensures
        bytes.len() >= 8,
        bytes.len() % 4 == 0,
        cells.len() * stride <= bytes.len() - 8 < cells.len() * stride + 4,
        spec_u32_from_le_bytes(bytes.subrange(bytes.len() - 8, bytes.len() - 4)) == backward(
            (bytes.len() - 8) as nat,
        ),
        spec_u32_from_le_bytes(bytes.subrange(bytes.len() - 4, bytes.len() as int))
            == cells.len(),
        forall|i: int| cells.len() * stride <= i < bytes.len() - 8 ==> bytes[i] == 0,
        bytes.subrange(0, (cells.len() * stride) as int) == joined(cells),
{
    lemma_vector_layout(cells, stride);
    lemma_auto_spec_u32_to_from_le_bytes();
    lemma_round_up(cells.len() * stride, 4);
    let span = round_up(cells.len() * stride, 4);
    let back = spec_u32_to_le_bytes(backward(span));
    let count = spec_u32_to_le_bytes(cells.len() as u32);
    assert(back.len() == 4 && count.len() == 4);
    assert(spec_u32_from_le_bytes(back) == backward(span));
    assert(spec_u32_from_le_bytes(count) == cells.len() as u32);
}

/// Bytes that hold cells, zeroes and the reference as a vector does are
/// the byte form of the vector of those cells.
pub proof fn lemma_vector_built(cells: Seq<Seq<u8>>, stride: nat, bytes: Seq<u8>)
    requires
        vector_ok(cells, stride),
        bytes.len() >= 8,
        bytes.len() % 4 == 0,
        cells.len() * stride <= bytes.len() - 8 < cells.len() * stride + 4,
        bytes.subrange(bytes.len() - 8, bytes.len() - 4) == spec_u32_to_le_bytes(
            backward((bytes.len() - 8) as nat),
        ),
        bytes.subrange(bytes.len() - 4, bytes.len() as int) == spec_u32_to_le_bytes(
            cells.len() as u32,
        ),
        forall|i: int| cells.len() * stride <= i < bytes.len() - 8 ==> bytes[i] == 0,
        forall|j: int|
            0 <= j < cells.len() ==> bytes.subrange(j * stride, (j + 1) * stride)
                == #[trigger] cells[j],
    ensures
        vector_bytes(cells, stride) == bytes,
{
    let body = cells.len() * stride;
    let span = (bytes.len() - 8) as nat;
    let head = bytes.subrange(0, body as int);
    assert forall|j: int| 0 <= j < cells.len() implies head.subrange(
        j * stride,
        (j + 1) * stride,
    ) == #[trigger] cells[j] by {
        assert((j + 1) * stride == j * stride + stride) by (nonlinear_arith);
        assert((j + 1) * stride <= cells.len() * stride) by (nonlinear_arith)
            requires
                j + 1 <= cells.len(),
        ;
        assert(0 <= j * stride) by (nonlinear_arith)
            requires
                0 <= j,
        ;
        assert(head.subrange(j * stride, (j + 1) * stride) =~= bytes.subrange(
            j * stride,
            (j + 1) * stride,
        ));
    }
    lemma_joined_from_cells(head, cells, stride);
    lemma_round_up(body, 4);
    crate::util::sized::lemma_round_up_least(body, 4, span);
    lemma_auto_spec_u32_to_from_le_bytes();
    assert(spec_u32_to_le_bytes(backward(span)).len() == 4);
    assert(spec_u32_to_le_bytes(cells.len() as u32).len() == 4);
    assert(vector_bytes(cells, stride) =~= bytes);
}

/// Returns the cells of the vector whose byte form `bytes` is, or `None`
/// if it is the byte form of no vector of cells of `stride` bytes.
#[verifier::rlimit(40)]
pub fn decode_vector(bytes: &[u8], stride: usize) -> (r: Option<Vec<Vec<u8>>>)
    requires
        0 < stride <= 0x2_0000,
    ensures
        match r {
            Some(cells) => vector_ok(cells_view(cells@), stride as nat) && vector_bytes(
                cells_view(cells@),
                stride as nat,
            ) == bytes@,
            None => forall|cells: Seq<Seq<u8>>|
                vector_ok(cells, stride as nat) ==> #[trigger] vector_bytes(cells, stride as nat)
                    != bytes@,
        },
{
    let total: usize = bytes.len();
    if total < 8 || total % 4 != 0 || total - 8 > 0xffff_fff0 {
        proof {
            assert forall|cells: Seq<Seq<u8>>| vector_ok(cells, stride as nat) implies #[trigger] vector_bytes(
                cells,
                stride as nat,
            ) != bytes@ by {
                if vector_bytes(cells, stride as nat) == bytes@ {
                    lemma_vector_parse(cells, stride as nat, bytes@);
                }
            }
        }
        return None;
    }
    proof {
        lemma_auto_spec_u32_to_from_le_bytes();
    }
    let span: usize = total - 8;
    let back: u32 = u32_from_le_bytes(slice_subrange(bytes, span, span + 4));
    let count: u32 = u32_from_le_bytes(slice_subrange(bytes, span + 4, span + 8));
    assert(count as u64 * stride as u64 <= 0x1_0000_0000 * 0x2_0000) by (nonlinear_arith)
        requires
            count <= 0xffff_ffff,
            stride <= 0x2_0000,
    ;
    let wide: u64 = count as u64 * stride as u64;
    let expected: u32 = if span == 0 {
        0
    } else {
        (u32::MAX - span as u32) + 1
    };
    if wide > span as u64 || (span as u64) - wide >= 4 || back != expected {
        proof {
            assert forall|cells: Seq<Seq<u8>>| vector_ok(cells, stride as nat) implies #[trigger] vector_bytes(
                cells,
                stride as nat,
            ) != bytes@ by {
                if vector_bytes(cells, stride as nat) == bytes@ {
                    lemma_vector_parse(cells, stride as nat, bytes@);
                    assert(cells.len() == count);
                    assert(cells.len() * stride == count * stride) by (nonlinear_arith)
                        requires
                            cells.len() == count,
                    ;
                }
            }
        }
        return None;
    }
    let body: usize = wide as usize;
    let mut k: usize = body;
    while k < span
        invariant
            body <= k <= span,
            span + 8 == bytes@.len(),
            body == count * stride,
            count == spec_u32_from_le_bytes(bytes@.subrange(span + 4, span + 8)),
            forall|i: int| body <= i < k ==> bytes@[i] == 0,
        decreases span - k,
    {
        if bytes[k] != 0 {
            proof {
                assert forall|cells: Seq<Seq<u8>>| vector_ok(cells, stride as nat) implies #[trigger] vector_bytes(
                    cells,
                    stride as nat,
                ) != bytes@ by {
                    if vector_bytes(cells, stride as nat) == bytes@ {
                        lemma_vector_parse(cells, stride as nat, bytes@);
                        assert(cells.len() == count);
                        assert(cells.len() * stride == count * stride) by (nonlinear_arith)
                            requires
                                cells.len() == count,
                        ;
                    }
                }
            }
            return None;
        }
        k += 1;
    }
    let mut cells: Vec<Vec<u8>> = Vec::new();
    let mut i: usize = 0;
    while i < count as usize
        invariant
            i <= count,
            0 < stride,
            body == count * stride,
            body <= bytes@.len(),
            cells@.len() == i,
            forall|j: int|
                0 <= j < i ==> (#[trigger] cells@[j])@ == bytes@.subrange(
                    j * stride,
                    (j + 1) * stride,
                ) && cells@[j]@.len() == stride,
        decreases count - i,
    {
        proof {
            assert((i + 1) * stride == i * stride + stride) by (nonlinear_arith);
            assert((i + 1) * stride <= count * stride) by (nonlinear_arith)
                requires
                    i + 1 <= count,
            ;
            assert(0 <= i * stride) by (nonlinear_arith)
                requires
                    0 <= i,
            ;
        }
        let start: usize = i * stride;
        let cell: Vec<u8> = vstd::slice::slice_to_vec(slice_subrange(bytes, start, start + stride));
        cells.push(cell);
        i += 1;
    }
    proof {
        let model = cells_view(cells@);
        assert(cells_of(model, stride as nat));
        assert(spec_u32_to_le_bytes(back) == bytes@.subrange(span as int, span + 4));
        assert(spec_u32_to_le_bytes(count) == bytes@.subrange(span + 4, span + 8));
        assert forall|j: int| 0 <= j < model.len() implies bytes@.subrange(
            j * stride,
            (j + 1) * stride,
        ) == #[trigger] model[j] by {
            assert(cells@[j]@ == bytes@.subrange(j * stride, (j + 1) * stride));
        }
        lemma_vector_built(model, stride as nat, bytes@);
    }
    Some(cells)
}

} // verus!

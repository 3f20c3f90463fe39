//! Arithmetic that predicts how many bytes a value occupies once archived.

use vstd::prelude::*;
use vstd::string::StringSliceAdditionalSpecFns;
use vstd::utf8::encode_utf8;

verus! {

/// `len` rounded up to the next multiple of `unit`.
pub open spec fn round_up(len: nat, unit: nat) -> nat {
    if len % unit == 0 {
        len
    } else {
        ((len / unit + 1) * unit) as nat
    }
}

/// `round_up(len, unit)` is a multiple of `unit`, not below `len` and less
/// than one `unit` above it.
pub proof fn lemma_round_up(len: nat, unit: nat)
    requires
        unit > 0,
    ensures
        round_up(len, unit) % unit == 0,
        len <= round_up(len, unit) < len + unit,
{
    let q = len / unit;
    assert(len == q * unit + len % unit) by (nonlinear_arith)
        requires
            unit > 0,
            q == len / unit,
    ;
    assert(((q + 1) * unit) % unit == 0) by (nonlinear_arith)
        requires
            unit > 0,
    ;
    assert((q + 1) * unit == q * unit + unit) by (nonlinear_arith);
}

/// No multiple of `unit` lies between `len` and `round_up(len, unit)`.
pub proof fn lemma_round_up_least(len: nat, unit: nat, m: nat)
    requires
        unit > 0,
        m % unit == 0,
        len <= m,
    ensures
        round_up(len, unit) <= m,
{
    if len % unit != 0 {
        let q = len / unit;
        let k = m / unit;
        assert(len == q * unit + len % unit) by (nonlinear_arith)
            requires
                unit > 0,
                q == len / unit,
        ;
        assert(m == k * unit) by (nonlinear_arith)
            requires
                unit > 0,
                k == m / unit,
                m % unit == 0,
        ;
        assert(k >= q + 1) by (nonlinear_arith)
            requires
                unit > 0,
                k * unit >= q * unit + len % unit,
                len % unit > 0,
        ;
        assert(k * unit >= (q + 1) * unit) by (nonlinear_arith)
            requires
                k >= q + 1,
                unit > 0,
        ;
    }
}

/// Rounds `len` up to a multiple of 4.
pub fn align(len: usize) -> (r: usize)
    requires
        len <= usize::MAX - 3,
    ensures
        r == round_up(len as nat, 4),
{
    if len % 4 == 0 {
        len
    } else {
        (len / 4 + 1) * 4
    }
}

/// Rounds `len` up to a multiple of 8.
pub fn align8(len: usize) -> (r: usize)
    requires
        len <= usize::MAX - 7,
    ensures
        r == round_up(len as nat, 8),
{
    if len % 8 == 0 {
        len
    } else {
        (len / 8 + 1) * 8
    }
}

/// A value that knows how many bytes it occupies once archived.
pub trait SizeMeasurable {
    /// The number of bytes of the archived value.
    spec fn size(&self) -> nat;

    /// The alignment that the type forces on a value that holds it, if any.
    spec fn alignment() -> Option<usize>;

    /// Returns the number of bytes of the archived value.
    fn aligned_size(&self) -> (r: usize)
        requires
            self.size() <= usize::MAX,
        ensures
            r == self.size(),
    ;

    /// Returns the alignment that the type forces, if any.
    fn align() -> (r: Option<usize>)
        ensures
            r == Self::alignment(),
    ;
}


/// A type whose values all occupy the same number of bytes once archived.
pub trait DefaultSizeMeasurable: SizeMeasurable {
    /// The number of bytes of every archived value of the type.
    spec fn default_size() -> nat;

    /// Every value has the size of the type.
    proof fn lemma_default_size(&self)
        ensures
            self.size() == Self::default_size(),
    ;

    /// The size of the type fits a 16-bit size field.
    proof fn lemma_default_size_fits()
        ensures
            Self::default_size() <= u16::MAX,
    ;

    /// Returns the number of bytes of every archived value of the type.
    fn default_aligned_size() -> (r: usize)
        ensures
            r == Self::default_size(),
    ;
}

/// A type whose archived size follows from a logical length alone.
pub trait VariableSizeMeasurable {
    /// The number of bytes of an archived value of logical length `length`.
    spec fn size_for(length: nat) -> nat;

    /// Returns the number of bytes of an archived value of logical length
    /// `length`.
    fn aligned_size(length: usize) -> (r: usize)
        requires
            Self::size_for(length as nat) <= usize::MAX,
        ensures
            r == Self::size_for(length as nat),
    ;
}

/// Whether a type with this alignment puts what holds it on 8-byte bounds.
pub open spec fn forces_eight(alignment: Option<usize>) -> bool {
    match alignment {
        Some(a) => a % 8 == 0,
        None => false,
    }
}

/// Tells whether a type with this alignment puts what holds it on 8-byte
/// bounds.
pub fn is_eight_aligned(alignment: Option<usize>) -> (r: bool)
    ensures
        r == forces_eight(alignment),
{
    match alignment {
        Some(a) => a % 8 == 0,
        None => false,
    }
}

impl SizeMeasurable for () {
    open spec fn size(&self) -> nat {
        0
    }

    open spec fn alignment() -> Option<usize> {
        None
    }

    fn aligned_size(&self) -> (r: usize) {
        0
    }

    fn align() -> (r: Option<usize>) {
        None
    }
}

impl DefaultSizeMeasurable for () {
    open spec fn default_size() -> nat {
        0
    }

    proof fn lemma_default_size(&self) {
    }

    proof fn lemma_default_size_fits() {
    }

    fn default_aligned_size() -> (r: usize) {
        0
    }
}

impl SizeMeasurable for u8 {
    open spec fn size(&self) -> nat {
        1
    }

    open spec fn alignment() -> Option<usize> {
        Some(4usize)
    }

    fn aligned_size(&self) -> (r: usize) {
        1
    }

    fn align() -> (r: Option<usize>) {
        Some(4)
    }
}

impl DefaultSizeMeasurable for u8 {
    open spec fn default_size() -> nat {
        1
    }

    proof fn lemma_default_size(&self) {
    }

    proof fn lemma_default_size_fits() {
    }

    fn default_aligned_size() -> (r: usize) {
        1
    }
}

impl SizeMeasurable for u16 {
    open spec fn size(&self) -> nat {
        2
    }

    open spec fn alignment() -> Option<usize> {
        Some(4usize)
    }

    fn aligned_size(&self) -> (r: usize) {
        2
    }

    fn align() -> (r: Option<usize>) {
        Some(4)
    }
}

impl DefaultSizeMeasurable for u16 {
    open spec fn default_size() -> nat {
        2
    }

    proof fn lemma_default_size(&self) {
    }

    proof fn lemma_default_size_fits() {
    }

    fn default_aligned_size() -> (r: usize) {
        2
    }
}

impl SizeMeasurable for u32 {
    open spec fn size(&self) -> nat {
        4
    }

    open spec fn alignment() -> Option<usize> {
        Some(4usize)
    }

    fn aligned_size(&self) -> (r: usize) {
        4
    }

    fn align() -> (r: Option<usize>) {
        Some(4)
    }
}

impl DefaultSizeMeasurable for u32 {
    open spec fn default_size() -> nat {
        4
    }

    proof fn lemma_default_size(&self) {
    }

    proof fn lemma_default_size_fits() {
    }

    fn default_aligned_size() -> (r: usize) {
        4
    }
}

impl SizeMeasurable for u64 {
    open spec fn size(&self) -> nat {
        8
    }

    open spec fn alignment() -> Option<usize> {
        Some(8usize)
    }

    fn aligned_size(&self) -> (r: usize) {
        8
    }

    fn align() -> (r: Option<usize>) {
        Some(8)
    }
}

impl DefaultSizeMeasurable for u64 {
    open spec fn default_size() -> nat {
        8
    }

    proof fn lemma_default_size(&self) {
    }

    proof fn lemma_default_size_fits() {
    }

    fn default_aligned_size() -> (r: usize) {
        8
    }
}

impl SizeMeasurable for u128 {
    open spec fn size(&self) -> nat {
        16
    }

    open spec fn alignment() -> Option<usize> {
        Some(16usize)
    }

    fn aligned_size(&self) -> (r: usize) {
        16
    }

    fn align() -> (r: Option<usize>) {
        Some(16)
    }
}

impl DefaultSizeMeasurable for u128 {
    open spec fn default_size() -> nat {
        16
    }

    proof fn lemma_default_size(&self) {
    }

    proof fn lemma_default_size_fits() {
    }

    fn default_aligned_size() -> (r: usize) {
        16
    }
}

impl SizeMeasurable for i8 {
    open spec fn size(&self) -> nat {
        1
    }

    open spec fn alignment() -> Option<usize> {
        Some(4usize)
    }

    fn aligned_size(&self) -> (r: usize) {
        1
    }

    fn align() -> (r: Option<usize>) {
        Some(4)
    }
}

impl DefaultSizeMeasurable for i8 {
    open spec fn default_size() -> nat {
        1
    }

    proof fn lemma_default_size(&self) {
    }

    proof fn lemma_default_size_fits() {
    }

    fn default_aligned_size() -> (r: usize) {
        1
    }
}

impl SizeMeasurable for i16 {
    open spec fn size(&self) -> nat {
        2
    }

    open spec fn alignment() -> Option<usize> {
        Some(4usize)
    }

    fn aligned_size(&self) -> (r: usize) {
        2
    }

    fn align() -> (r: Option<usize>) {
        Some(4)
    }
}

impl DefaultSizeMeasurable for i16 {
    open spec fn default_size() -> nat {
        2
    }

    proof fn lemma_default_size(&self) {
    }

    proof fn lemma_default_size_fits() {
    }

    fn default_aligned_size() -> (r: usize) {
        2
    }
}

impl SizeMeasurable for i32 {
    open spec fn size(&self) -> nat {
        4
    }

    open spec fn alignment() -> Option<usize> {
        Some(4usize)
    }

    fn aligned_size(&self) -> (r: usize) {
        4
    }

    fn align() -> (r: Option<usize>) {
        Some(4)
    }
}

impl DefaultSizeMeasurable for i32 {
    open spec fn default_size() -> nat {
        4
    }

    proof fn lemma_default_size(&self) {
    }

    proof fn lemma_default_size_fits() {
    }

    fn default_aligned_size() -> (r: usize) {
        4
    }
}

impl SizeMeasurable for i64 {
    open spec fn size(&self) -> nat {
        8
    }

    open spec fn alignment() -> Option<usize> {
        Some(8usize)
    }

    fn aligned_size(&self) -> (r: usize) {
        8
    }

    fn align() -> (r: Option<usize>) {
        Some(8)
    }
}

impl DefaultSizeMeasurable for i64 {
    open spec fn default_size() -> nat {
        8
    }

    proof fn lemma_default_size(&self) {
    }

    proof fn lemma_default_size_fits() {
    }

    fn default_aligned_size() -> (r: usize) {
        8
    }
}

impl SizeMeasurable for i128 {
    open spec fn size(&self) -> nat {
        16
    }

    open spec fn alignment() -> Option<usize> {
        Some(16usize)
    }

    fn aligned_size(&self) -> (r: usize) {
        16
    }

    fn align() -> (r: Option<usize>) {
        Some(16)
    }
}

impl DefaultSizeMeasurable for i128 {
    open spec fn default_size() -> nat {
        16
    }

    proof fn lemma_default_size(&self) {
    }

    proof fn lemma_default_size_fits() {
    }

    fn default_aligned_size() -> (r: usize) {
        16
    }
}

impl SizeMeasurable for bool {
    open spec fn size(&self) -> nat {
        1
    }

    open spec fn alignment() -> Option<usize> {
        Some(4usize)
    }

    fn aligned_size(&self) -> (r: usize) {
        1
    }

    fn align() -> (r: Option<usize>) {
        Some(4)
    }
}

impl DefaultSizeMeasurable for bool {
    open spec fn default_size() -> nat {
        1
    }

    proof fn lemma_default_size(&self) {
    }

    proof fn lemma_default_size_fits() {
    }

    fn default_aligned_size() -> (r: usize) {
        1
    }
}

impl SizeMeasurable for usize {
    open spec fn size(&self) -> nat {
        (usize::BITS / 8) as nat
    }

    open spec fn alignment() -> Option<usize> {
        Some((usize::BITS / 8) as usize)
    }

    fn aligned_size(&self) -> (r: usize) {
        (usize::BITS / 8) as usize
    }

    fn align() -> (r: Option<usize>) {
        Some((usize::BITS / 8) as usize)
    }
}

impl SizeMeasurable for isize {
    open spec fn size(&self) -> nat {
        (usize::BITS / 8) as nat
    }

    open spec fn alignment() -> Option<usize> {
        Some((usize::BITS / 8) as usize)
    }

    fn aligned_size(&self) -> (r: usize) {
        (usize::BITS / 8) as usize
    }

    fn align() -> (r: Option<usize>) {
        Some((usize::BITS / 8) as usize)
    }
}

/// An optional value takes the bytes that it takes in memory.
impl<T> SizeMeasurable for Option<T> {
    open spec fn size(&self) -> nat {
        vstd::layout::size_of::<Option<T>>()
    }

    open spec fn alignment() -> Option<usize> {
        None
    }

    fn aligned_size(&self) -> (r: usize) {
        core::mem::size_of::<Option<T>>()
    }

    fn align() -> (r: Option<usize>) {
        None
    }
}

/// The sizes summed up to and without the place `count`.
pub open spec fn sizes_sum(sizes: Seq<usize>, count: int) -> nat
    decreases count,
{
    if count <= 0 {
        0
    } else {
        sizes_sum(sizes, count - 1) + sizes[count - 1] as nat
    }
}

/// Returns the archived size of a structure whose fields have the sizes
/// given: their sum, rounded up to a multiple of 4.
pub fn struct_aligned_size(field_sizes: &[usize]) -> (r: usize)
    requires
        sizes_sum(field_sizes@, field_sizes@.len() as int) + 3 <= usize::MAX,
    ensures
        r == round_up(sizes_sum(field_sizes@, field_sizes@.len() as int), 4),
{
    let mut sum: usize = 0;
    let mut i: usize = 0;
    while i < field_sizes.len()
        invariant
            i <= field_sizes@.len(),
            sum == sizes_sum(field_sizes@, i as int),
            sizes_sum(field_sizes@, field_sizes@.len() as int) + 3 <= usize::MAX,
        decreases field_sizes@.len() - i,
    {
        proof {
            lemma_sizes_sum_grows(field_sizes@, i + 1, field_sizes@.len() as int);
        }
        sum += field_sizes[i];
        i += 1;
    }
    align(sum)
}

/// The sum of sizes grows with their number.
pub proof fn lemma_sizes_sum_grows(sizes: Seq<usize>, i: int, j: int)
    requires
        0 <= i <= j,
    ensures
        sizes_sum(sizes, i) <= sizes_sum(sizes, j),
    decreases j - i,
{
    if i < j {
        lemma_sizes_sum_grows(sizes, i, j - 1);
    }
}

/// `uuid::Uuid`: a 128-bit identifier.
#[verifier::external_type_specification]
#[verifier::external_body]
pub struct ExUuid(uuid::Uuid);

impl SizeMeasurable for uuid::Uuid {
    open spec fn size(&self) -> nat {
        16
    }

    open spec fn alignment() -> Option<usize> {
        None
    }

    fn aligned_size(&self) -> (r: usize) {
        16
    }

    fn align() -> (r: Option<usize>) {
        None
    }
}

impl DefaultSizeMeasurable for uuid::Uuid {
    open spec fn default_size() -> nat {
        16
    }

    proof fn lemma_default_size(&self) {
    }

    proof fn lemma_default_size_fits() {
    }

    fn default_aligned_size() -> (r: usize) {
        16
    }
}

impl SizeMeasurable for [u8; 32] {
    open spec fn size(&self) -> nat {
        32
    }

    open spec fn alignment() -> Option<usize> {
        None
    }

    fn aligned_size(&self) -> (r: usize) {
        32
    }

    fn align() -> (r: Option<usize>) {
        None
    }
}

impl SizeMeasurable for [u8; 20] {
    open spec fn size(&self) -> nat {
        20
    }

    open spec fn alignment() -> Option<usize> {
        None
    }

    fn aligned_size(&self) -> (r: usize) {
        20
    }

    fn align() -> (r: Option<usize>) {
        None
    }
}

impl<T: SizeMeasurable> SizeMeasurable for std::sync::Arc<T> {
    open spec fn size(&self) -> nat {
        (**self).size()
    }

    open spec fn alignment() -> Option<usize> {
        None
    }

    fn aligned_size(&self) -> (r: usize) {
        (**self).aligned_size()
    }

    fn align() -> (r: Option<usize>) {
        None
    }
}

/// The archived size of a string of `length` bytes: short strings are held
/// in place, longer ones out of line behind an 8-byte reference.
pub open spec fn string_size(length: nat) -> nat {
    if length <= 8 {
        8
    } else {
        round_up(length + 8, 4)
    }
}

impl SizeMeasurable for String {
    open spec fn size(&self) -> nat {
        string_size(encode_utf8(self@).len())
    }

    open spec fn alignment() -> Option<usize> {
        None
    }

    fn aligned_size(&self) -> (r: usize) {
        let length: usize = self.as_str().len();
        <String as VariableSizeMeasurable>::aligned_size(length)
    }

    fn align() -> (r: Option<usize>) {
        None
    }
}

impl VariableSizeMeasurable for String {
    open spec fn size_for(length: nat) -> nat {
        string_size(length)
    }

    fn aligned_size(length: usize) -> (r: usize) {
        assert(Self::size_for(length as nat) == string_size(length as nat));
        if length <= 8 {
            8
        } else {
            proof {
                lemma_round_up((length + 8) as nat, 4);
                let size = round_up((length + 8) as nat, 4);
                assert(size == string_size(length as nat));
                assert(size % 4 == 0);
                assert(size <= usize::MAX);
                assert(usize::MAX == 0xffff_ffff || usize::MAX == 0xffff_ffff_ffff_ffff);
                assert(size <= usize::MAX - 3);
                assert(length + 8 <= size);
            }
            align(length + 8)
        }
    }
}

impl<T1: SizeMeasurable, T2: SizeMeasurable> SizeMeasurable for (T1, T2) {
    open spec fn size(&self) -> nat {
        if forces_eight(T1::alignment()) || forces_eight(T2::alignment()) {
            round_up(self.0.size() + self.1.size(), 8)
        } else {
            round_up(self.0.size() + self.1.size(), 4)
        }
    }

    open spec fn alignment() -> Option<usize> {
        if forces_eight(T1::alignment()) || forces_eight(T2::alignment()) {
            Some(8usize)
        } else {
            None
        }
    }

    fn aligned_size(&self) -> (r: usize) {
        proof {
            lemma_round_up(self.0.size() + self.1.size(), 8);
            lemma_round_up(self.0.size() + self.1.size(), 4);
        }
        let sum: usize = self.0.aligned_size() + self.1.aligned_size();
        if is_eight_aligned(T1::align()) || is_eight_aligned(T2::align()) {
            align8(sum)
        } else {
            align(sum)
        }
    }

    fn align() -> (r: Option<usize>) {
        if is_eight_aligned(T1::align()) || is_eight_aligned(T2::align()) {
            Some(8)
        } else {
            None
        }
    }
}

/// The number of bytes that one element of a vector of `T` takes.
pub open spec fn element_size<T: DefaultSizeMeasurable>() -> nat {
    if T::default_size() == 2 || T::default_size() == 4 {
        T::default_size()
    } else if forces_eight(T::alignment()) {
        round_up(T::default_size(), 8)
    } else {
        T::default_size()
    }
}

/// The archived size of a vector of `length` elements of `T`: the elements,
/// rounded up to a multiple of 4, and an 8-byte reference.
pub open spec fn vec_size<T: DefaultSizeMeasurable>(length: nat) -> nat {
    round_up(length * element_size::<T>(), 4) + 8
}

/// Returns the number of bytes that one element of a vector of `T` takes.
pub fn vec_element_size<T: DefaultSizeMeasurable>() -> (r: usize)
    ensures
        r == element_size::<T>(),
        r <= u16::MAX + 7,
{
    let val_size: usize = T::default_aligned_size();
    proof {
        lemma_round_up(T::default_size(), 8);
        T::lemma_default_size_fits();
    }
    if val_size == 2 || val_size == 4 {
        val_size
    } else if is_eight_aligned(T::align()) {
        align8(val_size)
    } else {
        val_size
    }
}

impl<T: DefaultSizeMeasurable> SizeMeasurable for Vec<T> {
    open spec fn size(&self) -> nat {
        vec_size::<T>(self@.len())
    }

    open spec fn alignment() -> Option<usize> {
        None
    }

    fn aligned_size(&self) -> (r: usize) {
        let element: usize = vec_element_size::<T>();
        let length: usize = self.len();
        proof {
            lemma_round_up(length as nat * element as nat, 4);
            assert(length * element <= usize::MAX) by (nonlinear_arith)
                requires
                    length as nat * element as nat <= usize::MAX,
            ;
        }
        align(length * element) + 8
    }

    fn align() -> (r: Option<usize>) {
        None
    }
}

} // verus!

//! Typed views over contiguous buffers.
//!
//! Data crosses the engine boundary as views over pre-allocated buffers. A view
//! borrows the bytes, and says how they are to be read: an element type and a
//! shape. Elements are little-endian.

use vstd::prelude::*;
use vstd::string::*;

verus! {

/// Element types supported by buffer views.
///
/// The set is intentionally narrow: inference data planes move floats (weights,
/// activations, KV cache) and integers (token ids, block ids, slot mappings,
/// `cu_seqlens`).
#[derive(Debug, Clone, Copy, PartialEq, Eq, Hash, Structural)]
pub enum DType {
    /// `float16`: activations, KV cache entries on most GPUs.
    F16,
    /// `bfloat16`: activations, KV cache entries on H100+.
    BF16,
    /// `float32`: fallback / CPU-side computation.
    F32,
    /// `int32`: token ids, block ids, slot mappings.
    I32,
    /// `int64`: `cu_seqlens`, large index arrays.
    I64,
    /// `uint8`: raw byte views (e.g. packed bool masks).
    U8,
}

impl DType {
    /// Size of one element in bytes.
    pub open spec fn size(self) -> nat {
        match self {
            DType::F16 | DType::BF16 => 2,
            DType::F32 | DType::I32 => 4,
            DType::I64 => 8,
            DType::U8 => 1,
        }
    }

    /// Size of one element in bytes.
    pub fn byte_len(self) -> (n: usize)
        ensures
            n == self.size(),
    {
        match self {
            DType::F16 | DType::BF16 => 2,
            DType::F32 | DType::I32 => 4,
            DType::I64 => 8,
            DType::U8 => 1,
        }
    }

    /// `DLPack` type code for this dtype.
    pub fn dlpack_code(self) -> (code: u8)
        ensures
            code == (match self {
                DType::F16 => 1u8,
                DType::BF16 => 5u8,
                DType::F32 => 2u8,
                DType::I32 => 3u8,
                DType::I64 => 4u8,
                DType::U8 => 0u8,
            }),
    {
        match self {
            DType::F16 => 1,
            DType::BF16 => 5,
            DType::F32 => 2,
            DType::I32 => 3,
            DType::I64 => 4,
            DType::U8 => 0,
        }
    }

    /// The name of the dtype.
    pub open spec fn text(self) -> Seq<char> {
        match self {
            DType::F16 => "f16"@,
            DType::BF16 => "bf16"@,
            DType::F32 => "f32"@,
            DType::I32 => "i32"@,
            DType::I64 => "i64"@,
            DType::U8 => "u8"@,
        }
    }

    /// The name of the dtype.
    pub fn to_text(&self) -> (s: String)
        ensures
            s@ == self.text(),
    {
        match self {
            DType::F16 => String::from_str("f16"),
            DType::BF16 => String::from_str("bf16"),
            DType::F32 => String::from_str("f32"),
            DType::I32 => String::from_str("i32"),
            DType::I64 => String::from_str("i64"),
            DType::U8 => String::from_str("u8"),
        }
    }
}

/// Number of elements of a shape: the product of its dimensions.
pub open spec fn product(dims: Seq<usize>) -> nat
    decreases dims.len(),
{
    if dims.len() == 0 {
        1
    } else {
        product(dims.drop_last()) * dims.last() as nat
    }
}

/// The number that little-endian bytes stand for.
pub open spec fn le(bytes: Seq<u8>) -> nat
    decreases bytes.len(),
{
    if bytes.len() == 0 {
        0
    } else {
        bytes[0] as nat + 256 * le(bytes.skip(1))
    }
}

/// The `n` little-endian bytes of a number.
pub open spec fn le_bytes(value: nat, n: nat) -> Seq<u8>
    decreases n,
{
    if n == 0 {
        Seq::empty()
    } else {
        seq![(value % 256) as u8] + le_bytes(value / 256, (n - 1) as nat)
    }
}

/// The `k`th element of the given size, as an unsigned number.
pub open spec fn element(bytes: Seq<u8>, size: nat, k: int) -> nat {
    le(bytes.subrange(k * size, k * size + size))
}

/// The signed number that an unsigned number below `2 * half` stands for.
pub open spec fn signed(value: nat, half: int) -> int {
    if value < half {
        value as int
    } else {
        value - 2 * half
    }
}

/// The unsigned number that stands for a signed number.
pub open spec fn unsigned(value: int, half: int) -> nat {
    if value >= 0 {
        value as nat
    } else {
        (value + 2 * half) as nat
    }
}

/// The elements of a buffer of 32-bit integers.
pub open spec fn i32s(bytes: Seq<u8>, n: nat) -> Seq<i32> {
    Seq::new(n, |k: int| signed(element(bytes, 4, k), 0x8000_0000) as i32)
}

/// The elements of a buffer of 64-bit integers.
pub open spec fn i64s(bytes: Seq<u8>, n: nat) -> Seq<i64> {
    Seq::new(n, |k: int| signed(element(bytes, 8, k), 0x8000_0000_0000_0000) as i64)
}

/// The bits of the elements of a buffer of 32-bit floats.
pub open spec fn f32_bits(bytes: Seq<u8>, n: nat) -> Seq<u32> {
    Seq::new(n, |k: int| element(bytes, 4, k) as u32)
}

/// The bytes with a piece put in place of those at position `at`.
pub open spec fn overwritten(bytes: Seq<u8>, at: int, piece: Seq<u8>) -> Seq<u8> {
    bytes.take(at) + piece + bytes.skip(at + piece.len())
}

/// The bytes with the `k`th 32-bit integer replaced.
pub open spec fn with_i32(bytes: Seq<u8>, k: int, value: i32) -> Seq<u8> {
    overwritten(bytes, k * 4, le_bytes(unsigned(value as int, 0x8000_0000), 4))
}

/// The bytes with the `k`th 64-bit integer replaced.
pub open spec fn with_i64(bytes: Seq<u8>, k: int, value: i64) -> Seq<u8> {
    overwritten(bytes, k * 8, le_bytes(unsigned(value as int, 0x8000_0000_0000_0000), 8))
}

/// The bytes with the bits of the `k`th 32-bit float replaced.
pub open spec fn with_f32_bits(bytes: Seq<u8>, k: int, bits: u32) -> Seq<u8> {
    overwritten(bytes, k * 4, le_bytes(bits as nat, 4))
}

/// 256 to the power of `n`.
pub open spec fn pow256(n: nat) -> nat
    decreases n,
{
    if n == 0 {
        1
    } else {
        256 * pow256((n - 1) as nat)
    }
}

proof fn lemma_pow256()
    ensures
        pow256(4) == 0x1_0000_0000,
        pow256(8) == 0x1_0000_0000_0000_0000,
{
    reveal_with_fuel(pow256, 9);
}

proof fn lemma_pow256_grows(a: nat, b: nat)
    requires
        a <= b,
    ensures
        1 <= pow256(a) <= pow256(b),
    decreases b,
{
    if a < b {
        lemma_pow256_grows(a, (b - 1) as nat);
    } else if a > 0 {
        lemma_pow256_grows((a - 1) as nat, (a - 1) as nat);
    }
}

/// Bytes stand for a number that they can hold.
proof fn lemma_le_bound(bytes: Seq<u8>)
    ensures
        le(bytes) < pow256(bytes.len()),
    decreases bytes.len(),
{
    if bytes.len() > 0 {
        lemma_le_bound(bytes.skip(1));
    }
}

/// The bytes of a number stand for the number.
proof fn lemma_le_round_trip(value: nat, n: nat)
    requires
        value < pow256(n),
    ensures
        le_bytes(value, n).len() == n,
        le(le_bytes(value, n)) == value,
    decreases n,
{
    if n > 0 {
        let rest = le_bytes(value / 256, (n - 1) as nat);
        lemma_le_round_trip(value / 256, (n - 1) as nat);
        assert(le_bytes(value, n).skip(1) =~= rest);
    }
}

proof fn lemma_le_bytes_len(value: nat, n: nat)
    ensures
        le_bytes(value, n).len() == n,
    decreases n,
{
    if n > 0 {
        lemma_le_bytes_len(value / 256, (n - 1) as nat);
    }
}

/// The number that up to eight little-endian bytes stand for.
fn decode(bytes: &[u8]) -> (value: u64)
    requires
        bytes@.len() <= 8,
    ensures
        value == le(bytes@),
{
    let mut value: u64 = 0;
    let mut i: usize = bytes.len();
    while i > 0
        invariant
            i <= bytes@.len() <= 8,
            value == le(bytes@.skip(i as int)),
        decreases i,
    {
        let ghost tail = bytes@.skip(i - 1);
        assert(tail.skip(1) =~= bytes@.skip(i as int));
        proof {
            lemma_le_bound(tail);
            lemma_pow256();
            lemma_pow256_grows(tail.len(), 8);
        }
        value = value * 256 + bytes[i - 1] as u64;
        i = i - 1;
    }
    assert(bytes@.skip(0) =~= bytes@);
    value
}

/// The little-endian bytes of a number.
fn encode(value: u64, n: usize) -> (bytes: Vec<u8>)
    ensures
        bytes@ == le_bytes(value as nat, n as nat),
{
    let mut bytes: Vec<u8> = Vec::new();
    let mut rest: u64 = value;
    let mut i: usize = 0;
    assert(bytes@ + le_bytes(rest as nat, n as nat) =~= le_bytes(value as nat, n as nat));
    while i < n
        invariant
            i <= n,
            bytes@ + le_bytes(rest as nat, (n - i) as nat) == le_bytes(value as nat, n as nat),
        decreases n - i,
    {
        let ghost before = bytes@;
        bytes.push((rest % 256) as u8);
        assert(before.push((rest % 256) as u8) + le_bytes((rest / 256) as nat, (n - i - 1) as nat)
            =~= before + le_bytes(rest as nat, (n - i) as nat));
        rest = rest / 256;
        i = i + 1;
    }
    assert(bytes@ + le_bytes(rest as nat, 0) =~= bytes@);
    bytes
}

/// The signed number that 32 bits stand for.
fn signed32(value: u64) -> (r: i32)
    requires
        value < 0x1_0000_0000,
    ensures
        r == signed(value as nat, 0x8000_0000),
{
    if value < 0x8000_0000 {
        value as i32
    } else {
        (value as i64 - 0x1_0000_0000) as i32
    }
}

/// The signed number that 64 bits stand for.
fn signed64(value: u64) -> (r: i64)
    ensures
        r == signed(value as nat, 0x8000_0000_0000_0000),
{
    if value < 0x8000_0000_0000_0000 {
        value as i64
    } else {
        (value as i128 - 0x1_0000_0000_0000_0000) as i64
    }
}

/// An element lies inside the bytes.
proof fn lemma_element_inside(k: nat, n: nat, size: nat, len: nat)
    requires
        k < n,
        n * size <= len,
    ensures
        k * size + size <= len,
        k * size >= 0,
{
    assert(k * size + size <= n * size) by (nonlinear_arith)
        requires
            k < n,
    ;
    assert(k * size >= 0) by (nonlinear_arith);
}

/// Different elements do not overlap.
proof fn lemma_elements_apart(j: nat, k: nat, size: nat)
    requires
        j < k,
    ensures
        j * size + size <= k * size,
{
    assert(j * size + size <= k * size) by (nonlinear_arith)
        requires
            j < k,
    ;
}

/// A shape without a zero dimension has at least one element, and no more in
/// its first dimensions than in all.
proof fn lemma_product_grows(dims: Seq<usize>, i: int)
    requires
        forall|j: int| 0 <= j < dims.len() ==> #[trigger] dims[j] > 0,
        0 <= i <= dims.len(),
    ensures
        1 <= product(dims.take(i)) <= product(dims),
    decreases dims.len(),
{
    if dims.len() == 0 {
        assert(dims.take(i) =~= dims);
    } else {
        let init = dims.drop_last();
        assert forall|j: int| 0 <= j < init.len() implies #[trigger] init[j] > 0 by {
            assert(init[j] == dims[j]);
        }
        let k = if i < dims.len() {
            i
        } else {
            i - 1
        };
        lemma_product_grows(init, k);
        assert(init.take(k) =~= dims.take(k));
        let before = product(init);
        let last = dims.last() as nat;
        assert(dims[dims.len() - 1] > 0);
        assert(before <= before * last) by (nonlinear_arith)
            requires
                last >= 1,
        ;
        if i == dims.len() {
            assert(dims.take(i) =~= dims);
        }
    }
}

/// A shape with a zero dimension has no elements.
proof fn lemma_product_zero(dims: Seq<usize>, i: int)
    requires
        0 <= i < dims.len(),
        dims[i] == 0,
    ensures
        product(dims) == 0,
    decreases dims.len(),
{
    let before = product(dims.drop_last());
    let last = dims.last() as nat;
    if i < dims.len() - 1 {
        lemma_product_zero(dims.drop_last(), i);
    }
    assert(before == 0 || last == 0 ==> before * last == 0) by (nonlinear_arith);
}

/// How a buffer is to be read: up to eight dimensions and an element type.
#[derive(Debug, Clone, Copy)]
pub struct Layout {
    ndim: u8,
    shape: [usize; 8],
    dtype: DType,
}

impl Layout {
    #[verifier::type_invariant]
    spec fn inv(self) -> bool {
        self.ndim <= 8
    }

    /// The shape.
    pub closed spec fn dims(&self) -> Seq<usize> {
        self.shape@.take(self.ndim as int)
    }

    /// The element type.
    pub closed spec fn elem(&self) -> DType {
        self.dtype
    }

    /// A layout of the given shape and element type.
    pub fn new(shape: &[usize], dtype: DType) -> (layout: Layout)
        requires
            shape@.len() <= 8,
        ensures
            layout.dims() == shape@,
            layout.elem() == dtype,
    {
        let mut dims: [usize; 8] = [0; 8];
        let n = shape.len();
        let mut i: usize = 0;
        while i < n
            invariant
                i <= n,
                n == shape@.len(),
                n <= 8,
                dims@.len() == 8,
                dims@.take(i as int) == shape@.take(i as int),
            decreases n - i,
        {
            dims[i] = shape[i];
            i = i + 1;
            assert(dims@.take(i as int) =~= shape@.take(i as int));
        }
        assert(shape@.take(n as int) =~= shape@);
        Layout { ndim: n as u8, shape: dims, dtype }
    }

    /// The shape.
    pub fn shape(&self) -> (shape: &[usize])
        ensures
            shape@ == self.dims(),
    {
        proof {
            use_type_invariant(self);
        }
        let shape = vstd::slice::slice_subrange(self.shape.as_slice(), 0, self.ndim as usize);
        assert(shape@ =~= self.dims());
        shape
    }

    /// The element type.
    pub fn dtype(&self) -> (dtype: DType)
        ensures
            dtype == self.elem(),
    {
        self.dtype
    }

    /// Number of elements (product of shape dims).
    pub fn numel(&self) -> (n: usize)
        requires
            product(self.dims()) <= usize::MAX,
        ensures
            n == product(self.dims()),
    {
        let shape = self.shape();
        let mut i: usize = 0;
        while i < shape.len()
            invariant
                shape@ == self.dims(),
                i <= shape@.len(),
                forall|j: int| 0 <= j < i ==> #[trigger] shape@[j] > 0,
            decreases shape@.len() - i,
        {
            if shape[i] == 0 {
                proof {
                    lemma_product_zero(shape@, i as int);
                }
                return 0;
            }
            i = i + 1;
        }
        let mut n: usize = 1;
        let mut k: usize = 0;
        assert(shape@.take(0) =~= Seq::empty());
        while k < shape.len()
            invariant
                shape@ == self.dims(),
                k <= shape@.len(),
                product(shape@) <= usize::MAX,
                forall|j: int| 0 <= j < shape@.len() ==> #[trigger] shape@[j] > 0,
                n == product(shape@.take(k as int)),
            decreases shape@.len() - k,
        {
            proof {
                lemma_product_grows(shape@, k + 1);
                assert(shape@.take(k + 1).drop_last() =~= shape@.take(k as int));
            }
            n = n * shape[k];
            k = k + 1;
        }
        assert(shape@.take(k as int) =~= shape@);
        n
    }

    /// Number of elements of a layout that fits in a buffer of the given
    /// length.
    fn numel_in(&self, len: usize) -> (n: usize)
        requires
            self.fits(len as nat),
        ensures
            n == product(self.dims()),
            n * self.elem().size() <= len,
    {
        proof {
            self.lemma_fits(len as nat);
        }
        self.numel()
    }

    /// Whether a buffer of the given length holds all the elements.
    pub open spec fn fits(&self, len: nat) -> bool {
        product(self.dims()) * self.elem().size() <= len
    }

    proof fn lemma_fits(&self, len: nat)
        requires
            self.fits(len),
        ensures
            product(self.dims()) <= len,
    {
        let n = product(self.dims());
        let size = self.elem().size();
        assert(n <= n * size) by (nonlinear_arith)
            requires
                size >= 1,
        ;
    }
}

/// The `k`th element of the given size, as an unsigned number.
fn element_at(bytes: &[u8], size: usize, k: usize, n: usize) -> (value: u64)
    requires
        size <= 8,
        k < n,
        n * size <= bytes@.len(),
    ensures
        value == element(bytes@, size as nat, k as int),
        value < pow256(size as nat),
{
    proof {
        lemma_element_inside(k as nat, n as nat, size as nat, bytes@.len());
    }
    let len = bytes.len();
    assert(k * size + size <= len);
    let start = k * size;
    let piece = vstd::slice::slice_subrange(bytes, start, start + size);
    proof {
        lemma_le_bound(piece@);
    }
    decode(piece)
}

/// An immutable, typed view into a contiguous buffer.
///
/// The view does not copy: it borrows the bytes.
#[derive(Debug, Clone, Copy)]
pub struct BufferView<'a> {
    bytes: &'a [u8],
    layout: Layout,
}

impl<'a> BufferView<'a> {
    /// The bytes of the buffer.
    pub closed spec fn data(&self) -> Seq<u8> {
        self.bytes@
    }

    /// The shape.
    pub closed spec fn dims(&self) -> Seq<usize> {
        self.layout.dims()
    }

    /// The element type.
    pub closed spec fn elem(&self) -> DType {
        self.layout.elem()
    }

    /// Whether the buffer holds all the elements of the shape.
    #[verifier::type_invariant]
    spec fn inv(self) -> bool {
        self.layout.fits(self.bytes@.len())
    }

    /// Construct a view from a buffer, a shape, and a dtype. The shape has at
    /// most eight dimensions, and the buffer holds all of its elements.
    pub fn from_raw(bytes: &'a [u8], shape: &[usize], dtype: DType) -> (view: Self)
        requires
            shape@.len() <= 8,
            product(shape@) * dtype.size() <= bytes@.len(),
        ensures
            view.data() == bytes@,
            view.dims() == shape@,
            view.elem() == dtype,
    {
        BufferView { bytes, layout: Layout::new(shape, dtype) }
    }

    /// Construct a view from a byte slice, inferring 1-D shape.
    pub fn from_bytes(bytes: &'a [u8], dtype: DType) -> (view: Self)
        ensures
            view.data() == bytes@,
            view.dims() == seq![(bytes@.len() / dtype.size()) as usize],
            view.elem() == dtype,
    {
        let size = dtype.byte_len();
        let n = bytes.len() / size;
        let shape: [usize; 1] = [n];
        assert(shape@ =~= seq![n]);
        proof {
            reveal_with_fuel(product, 2);
            assert(shape@.drop_last() =~= Seq::empty());
            assert(product(shape@.drop_last()) == 1);
            assert(shape@.last() == n);
            assert(product(shape@) == 1 * n as nat);
            let len = bytes@.len();
            assert(n * size <= len) by (nonlinear_arith)
                requires
                    n == len / size as nat,
                    size > 0,
            ;
        }
        Self::from_raw(bytes, &shape, dtype)
    }

    /// Shape of the buffer (the slice that was passed in).
    pub fn shape(&self) -> (shape: &[usize])
        ensures
            shape@ == self.dims(),
    {
        self.layout.shape()
    }

    /// Number of elements (product of shape dims).
    pub fn numel(&self) -> (n: usize)
        ensures
            n == product(self.dims()),
    {
        proof {
            use_type_invariant(self);
        }
        self.layout.numel_in(self.bytes.len())
    }

    /// Total bytes spanned by this view.
    pub fn byte_len(&self) -> (n: usize)
        ensures
            n == product(self.dims()) * self.elem().size(),
            n <= self.data().len(),
    {
        proof {
            use_type_invariant(self);
        }
        let len = self.bytes.len();
        let n = self.layout.numel_in(len);
        n * self.layout.dtype().byte_len()
    }

    /// Element dtype.
    pub fn dtype(&self) -> (dtype: DType)
        ensures
            dtype == self.elem(),
    {
        self.layout.dtype()
    }

    /// The bytes of the elements.
    pub fn as_bytes(&self) -> (bytes: &'a [u8])
        ensures
            bytes@ == self.data().take((product(self.dims()) * self.elem().size()) as int),
    {
        let n = self.byte_len();
        let bytes = vstd::slice::slice_subrange(self.bytes, 0, n);
        assert(bytes@ =~= self.data().take(n as int));
        bytes
    }

    /// The bits of the elements, if the dtype is F32.
    pub fn as_f32_bits(&self) -> (values: Option<Vec<u32>>)
        ensures
            match values {
                Some(values) => self.elem() == DType::F32 && values@ == f32_bits(
                    self.data(),
                    product(self.dims()),
                ),
                None => self.elem() != DType::F32,
            },
    {
        if self.dtype() != DType::F32 {
            return None;
        }
        proof {
            use_type_invariant(self);
            lemma_pow256();
        }
        let n = self.layout.numel_in(self.bytes.len());
        let mut values: Vec<u32> = Vec::new();
        let mut k: usize = 0;
        while k < n
            invariant
                k <= n,
                n == product(self.dims()),
                n * 4 <= self.data().len(),
                pow256(4) == 0x1_0000_0000,
                values@ == f32_bits(self.data(), k as nat),
            decreases n - k,
        {
            values.push(element_at(self.bytes, 4, k, n) as u32);
            k = k + 1;
            assert(values@ =~= f32_bits(self.data(), k as nat));
        }
        Some(values)
    }

    /// The elements, if the dtype is I32.
    pub fn as_i32(&self) -> (values: Option<Vec<i32>>)
        ensures
            match values {
                Some(values) => self.elem() == DType::I32 && values@ == i32s(
                    self.data(),
                    product(self.dims()),
                ),
                None => self.elem() != DType::I32,
            },
    {
        if self.dtype() != DType::I32 {
            return None;
        }
        proof {
            use_type_invariant(self);
            lemma_pow256();
        }
        let n = self.layout.numel_in(self.bytes.len());
        let mut values: Vec<i32> = Vec::new();
        let mut k: usize = 0;
        while k < n
            invariant
                k <= n,
                n == product(self.dims()),
                n * 4 <= self.data().len(),
                pow256(4) == 0x1_0000_0000,
                values@ == i32s(self.data(), k as nat),
            decreases n - k,
        {
            values.push(signed32(element_at(self.bytes, 4, k, n)));
            k = k + 1;
            assert(values@ =~= i32s(self.data(), k as nat));
        }
        Some(values)
    }

    /// The elements, if the dtype is I64.
    pub fn as_i64(&self) -> (values: Option<Vec<i64>>)
        ensures
            match values {
                Some(values) => self.elem() == DType::I64 && values@ == i64s(
                    self.data(),
                    product(self.dims()),
                ),
                None => self.elem() != DType::I64,
            },
    {
        if self.dtype() != DType::I64 {
            return None;
        }
        proof {
            use_type_invariant(self);
        }
        let n = self.layout.numel_in(self.bytes.len());
        let mut values: Vec<i64> = Vec::new();
        let mut k: usize = 0;
        while k < n
            invariant
                k <= n,
                n == product(self.dims()),
                n * 8 <= self.data().len(),
                values@ == i64s(self.data(), k as nat),
            decreases n - k,
        {
            values.push(signed64(element_at(self.bytes, 8, k, n)));
            k = k + 1;
            assert(values@ =~= i64s(self.data(), k as nat));
        }
        Some(values)
    }
}

/// A mutable, typed view into a contiguous buffer.
///
/// Like [`BufferView`] but allows writing. Used for output buffers that the
/// engine pre-allocates and the component writes into.
#[derive(Debug)]
pub struct BufferViewMut<'a> {
    /// The bytes of the buffer.
    pub bytes: &'a mut [u8],
    /// How they are to be read.
    pub layout: Layout,
}

impl<'a> BufferViewMut<'a> {
    /// The bytes of the buffer.
    pub open spec fn data(&self) -> Seq<u8> {
        self.bytes@
    }

    /// Whether the buffer holds all the elements of the shape.
    pub open spec fn wf(&self) -> bool {
        self.layout.fits(self.bytes@.len())
    }

    /// Construct a mutable view from a buffer, a shape, and a dtype. The shape
    /// has at most eight dimensions, and the buffer holds all of its elements.
    /// What is written through the view is in the buffer afterwards.
    pub fn from_raw(bytes: &'a mut [u8], shape: &[usize], dtype: DType) -> (view: Self)
        requires
            shape@.len() <= 8,
            product(shape@) * dtype.size() <= old(bytes)@.len(),
        ensures
            view.wf(),
            view.data() == old(bytes)@,
            final(view.bytes)@ == final(bytes)@,
            view.layout.dims() == shape@,
            view.layout.elem() == dtype,
    {
        BufferViewMut { bytes, layout: Layout::new(shape, dtype) }
    }

    /// Shape of the buffer.
    pub fn shape(&self) -> (shape: &[usize])
        ensures
            shape@ == self.layout.dims(),
    {
        self.layout.shape()
    }

    /// Number of elements.
    pub fn numel(&self) -> (n: usize)
        requires
            self.wf(),
        ensures
            n == product(self.layout.dims()),
    {
        self.layout.numel_in(self.bytes.len())
    }

    /// Element dtype.
    pub fn dtype(&self) -> (dtype: DType)
        ensures
            dtype == self.layout.elem(),
    {
        self.layout.dtype()
    }

    /// Demote to an immutable view (cheap).
    pub fn as_view(&self) -> (view: BufferView<'_>)
        requires
            self.wf(),
        ensures
            view.data() == self.data(),
            view.dims() == self.layout.dims(),
            view.elem() == self.layout.elem(),
    {
        BufferView { bytes: &*self.bytes, layout: self.layout }
    }

    /// Put bytes in place of those at position `at`.
    fn put(&mut self, at: usize, piece: &[u8])
        requires
            at + piece@.len() <= old(self).data().len(),
        ensures
            final(self).data() == overwritten(old(self).data(), at as int, piece@),
            final(final(self).bytes)@ == final(old(self).bytes)@,
            final(self).layout == old(self).layout,
    {
        let ghost before = self.bytes@;
        let total = self.bytes.len();
        let n = piece.len();
        let mut i: usize = 0;
        while i < n
            invariant
                i <= n,
                n == piece@.len(),
                at + n <= before.len(),
                total == before.len(),
                self.bytes@.len() == before.len(),
                forall|j: int| 0 <= j < at ==> self.bytes@[j] == before[j],
                forall|j: int| at <= j < at + i ==> self.bytes@[j] == piece@[j - at],
                forall|j: int| at + i <= j < before.len() ==> self.bytes@[j] == before[j],
                final(self.bytes)@ == final(old(self).bytes)@,
                self.layout == old(self).layout,
            decreases n - i,
        {
            self.bytes[at + i] = piece[i];
            i = i + 1;
        }
        assert(self.bytes@ =~= overwritten(before, at as int, piece@));
    }

    /// Set the `k`th element to a number of the given size.
    fn set_element(&mut self, k: usize, size: usize, value: u64)
        requires
            old(self).wf(),
            size == old(self).layout.elem().size(),
            k < product(old(self).layout.dims()),
        ensures
            final(self).data() == overwritten(
                old(self).data(),
                k * size,
                le_bytes(value as nat, size as nat),
            ),
            final(final(self).bytes)@ == final(old(self).bytes)@,
            final(self).layout == old(self).layout,
    {
        let len = self.bytes.len();
        let n = self.layout.numel_in(len);
        proof {
            lemma_element_inside(k as nat, n as nat, size as nat, len as nat);
            lemma_le_bytes_len(value as nat, size as nat);
        }
        let piece = encode(value, size);
        self.put(k * size, piece.as_slice());
    }

    /// Set the bits of the `k`th element, if the dtype is F32. Returns whether
    /// it is.
    pub fn set_f32_bits(&mut self, k: usize, bits: u32) -> (done: bool)
        requires
            old(self).wf(),
            k < product(old(self).layout.dims()),
        ensures
            final(self).wf(),
            final(final(self).bytes)@ == final(old(self).bytes)@,
            final(self).layout == old(self).layout,
            done == (old(self).layout.elem() == DType::F32),
            done ==> final(self).data() == with_f32_bits(old(self).data(), k as int, bits),
            final(self).data() == (if done {
                overwritten(old(self).data(), k * 4, le_bytes(bits as nat, 4))
            } else {
                old(self).data()
            }),
    {
        if self.dtype() != DType::F32 {
            return false;
        }
        self.set_element(k, 4, bits as u64);
        proof {
            lemma_overwritten_len(old(self).data(), self.layout, k as nat, bits as nat);
        }
        true
    }

    /// Set the `k`th element, if the dtype is I32. Returns whether it is.
    pub fn set_i32(&mut self, k: usize, value: i32) -> (done: bool)
        requires
            old(self).wf(),
            k < product(old(self).layout.dims()),
        ensures
            final(self).wf(),
            final(final(self).bytes)@ == final(old(self).bytes)@,
            final(self).layout == old(self).layout,
            done == (old(self).layout.elem() == DType::I32),
            done ==> final(self).data() == with_i32(old(self).data(), k as int, value),
            final(self).data() == (if done {
                overwritten(
                    old(self).data(),
                    k * 4,
                    le_bytes(unsigned(value as int, 0x8000_0000), 4),
                )
            } else {
                old(self).data()
            }),
    {
        if self.dtype() != DType::I32 {
            return false;
        }
        let bits: u64 = if value >= 0 {
            value as u64
        } else {
            (value as i64 + 0x1_0000_0000) as u64
        };
        self.set_element(k, 4, bits);
        proof {
            lemma_overwritten_len(old(self).data(), self.layout, k as nat, bits as nat);
        }
        true
    }

    /// Set the `k`th element, if the dtype is I64. Returns whether it is.
    pub fn set_i64(&mut self, k: usize, value: i64) -> (done: bool)
        requires
            old(self).wf(),
            k < product(old(self).layout.dims()),
        ensures
            final(self).wf(),
            final(final(self).bytes)@ == final(old(self).bytes)@,
            final(self).layout == old(self).layout,
            done == (old(self).layout.elem() == DType::I64),
            done ==> final(self).data() == with_i64(old(self).data(), k as int, value),
            final(self).data() == (if done {
                overwritten(
                    old(self).data(),
                    k * 8,
                    le_bytes(unsigned(value as int, 0x8000_0000_0000_0000), 8),
                )
            } else {
                old(self).data()
            }),
    {
        if self.dtype() != DType::I64 {
            return false;
        }
        let bits: u64 = if value >= 0 {
            value as u64
        } else {
            (value as i128 + 0x1_0000_0000_0000_0000) as u64
        };
        self.set_element(k, 8, bits);
        proof {
            lemma_overwritten_len(old(self).data(), self.layout, k as nat, bits as nat);
        }
        true
    }
}

/// Writing an element keeps the length of the buffer.
proof fn lemma_overwritten_len(bytes: Seq<u8>, layout: Layout, k: nat, value: nat)
    requires
        layout.fits(bytes.len()),
        k < product(layout.dims()),
    ensures
        overwritten(
            bytes,
            (k * layout.elem().size()) as int,
            le_bytes(value, layout.elem().size()),
        ).len() == bytes.len(),
{
    let size = layout.elem().size();
    lemma_element_inside(k, product(layout.dims()), size, bytes.len());
    lemma_le_bytes_len(value, size);
}

/// A written element reads back, and the others are as they were.
proof fn lemma_write_element(bytes: Seq<u8>, size: nat, n: nat, k: nat, value: nat, j: nat)
    requires
        n * size <= bytes.len(),
        k < n,
        j < n,
        value < pow256(size),
    ensures
        ({
            let after = overwritten(bytes, (k * size) as int, le_bytes(value, size));
            &&& element(after, size, j as int) == (if j == k {
                value
            } else {
                element(bytes, size, j as int)
            })
        }),
{
    let at = (k * size) as int;
    let piece = le_bytes(value, size);
    let after = overwritten(bytes, at, piece);
    lemma_le_round_trip(value, size);
    lemma_element_inside(k, n, size, bytes.len());
    lemma_element_inside(j, n, size, bytes.len());
    let from = (j * size) as int;
    assert(j as int * size == from);
    if j == k {
        assert(after.subrange(from, from + size) =~= piece);
    } else {
        if j < k {
            lemma_elements_apart(j, k, size);
        } else {
            lemma_elements_apart(k, j, size);
        }
        assert(after.subrange(from, from + size) =~= bytes.subrange(from, from + size));
    }
}

/// Writing a 32-bit integer and reading the elements gives the elements with
/// that one replaced.
pub proof fn law_i32_write_read(bytes: Seq<u8>, n: nat, k: int, value: i32)
    requires
        n * 4 <= bytes.len(),
        0 <= k < n,
    ensures
        i32s(
            overwritten(bytes, k * 4, le_bytes(unsigned(value as int, 0x8000_0000), 4)),
            n,
        ) == i32s(bytes, n).update(k, value),
{
    lemma_pow256();
    let stored = unsigned(value as int, 0x8000_0000);
    let after = overwritten(bytes, k * 4, le_bytes(stored, 4));
    assert forall|j: int| 0 <= j < n implies #[trigger] i32s(after, n)[j] == i32s(
        bytes,
        n,
    ).update(k, value)[j] by {
        lemma_write_element(bytes, 4, n, k as nat, stored, j as nat);
    }
    assert(i32s(after, n) =~= i32s(bytes, n).update(k, value));
}

/// Writing a 64-bit integer and reading the elements gives the elements with
/// that one replaced.
pub proof fn law_i64_write_read(bytes: Seq<u8>, n: nat, k: int, value: i64)
    requires
        n * 8 <= bytes.len(),
        0 <= k < n,
    ensures
        i64s(
            overwritten(bytes, k * 8, le_bytes(unsigned(value as int, 0x8000_0000_0000_0000), 8)),
            n,
        ) == i64s(bytes, n).update(k, value),
{
    lemma_pow256();
    let stored = unsigned(value as int, 0x8000_0000_0000_0000);
    let after = overwritten(bytes, k * 8, le_bytes(stored, 8));
    assert forall|j: int| 0 <= j < n implies #[trigger] i64s(after, n)[j] == i64s(
        bytes,
        n,
    ).update(k, value)[j] by {
        lemma_write_element(bytes, 8, n, k as nat, stored, j as nat);
    }
    assert(i64s(after, n) =~= i64s(bytes, n).update(k, value));
}

/// Writing the bits of a 32-bit float and reading the elements gives the
/// elements with that one replaced.
pub proof fn law_f32_write_read(bytes: Seq<u8>, n: nat, k: int, bits: u32)
    requires
        n * 4 <= bytes.len(),
        0 <= k < n,
    ensures
        f32_bits(overwritten(bytes, k * 4, le_bytes(bits as nat, 4)), n) == f32_bits(
            bytes,
            n,
        ).update(k, bits),
{
    lemma_pow256();
    let after = overwritten(bytes, k * 4, le_bytes(bits as nat, 4));
    assert forall|j: int| 0 <= j < n implies #[trigger] f32_bits(after, n)[j] == f32_bits(
        bytes,
        n,
    ).update(k, bits)[j] by {
        lemma_write_element(bytes, 4, n, k as nat, bits as nat, j as nat);
    }
    assert(f32_bits(after, n) =~= f32_bits(bytes, n).update(k, bits));
}

/// A written element is there, and all other elements are as they were, as are the
/// bytes behind the elements. The length stays.
pub proof fn law_writing_is_local(
    bytes: Seq<u8>,
    n: nat,
    k: int,
    word: i32,
    long: i64,
    bits: u32,
)
    requires
        0 <= k < n,
    ensures
        n * 4 <= bytes.len() ==> {
            &&& i32s(with_i32(bytes, k, word), n) == i32s(bytes, n).update(k, word)
            &&& f32_bits(with_f32_bits(bytes, k, bits), n) == f32_bits(bytes, n).update(k, bits)
            &&& with_i32(bytes, k, word).len() == bytes.len()
            &&& with_f32_bits(bytes, k, bits).len() == bytes.len()
            &&& with_i32(bytes, k, word).skip((n * 4) as int) == bytes.skip((n * 4) as int)
            &&& with_f32_bits(bytes, k, bits).skip((n * 4) as int) == bytes.skip((n * 4) as int)
        },
        n * 8 <= bytes.len() ==> {
            &&& i64s(with_i64(bytes, k, long), n) == i64s(bytes, n).update(k, long)
            &&& with_i64(bytes, k, long).len() == bytes.len()
            &&& with_i64(bytes, k, long).skip((n * 8) as int) == bytes.skip((n * 8) as int)
        },
{
    lemma_le_bytes_len(unsigned(word as int, 0x8000_0000), 4);
    lemma_le_bytes_len(bits as nat, 4);
    lemma_le_bytes_len(unsigned(long as int, 0x8000_0000_0000_0000), 8);
    if n * 4 <= bytes.len() {
        law_i32_write_read(bytes, n, k, word);
        law_f32_write_read(bytes, n, k, bits);
        let m = (n * 4) as int;
        assert(with_i32(bytes, k, word).skip(m) =~= bytes.skip(m));
        assert(with_f32_bits(bytes, k, bits).skip(m) =~= bytes.skip(m));
    }
    if n * 8 <= bytes.len() {
        law_i64_write_read(bytes, n, k, long);
        let m = (n * 8) as int;
        assert(with_i64(bytes, k, long).skip(m) =~= bytes.skip(m));
    }
}

/// The number of elements is multiplicative over the shape, at any rank: that of a
/// shape in two parts is the product of those of the parts. One dimension counts
/// for what it is, and no dimensions for one element.
pub proof fn law_elements_multiply(a: Seq<usize>, b: Seq<usize>, d: usize)
    ensures
        product(a + b) == product(a) * product(b),
        product(seq![d]) == d,
        product(Seq::<usize>::empty()) == 1,
    decreases b.len(),
{
    reveal_with_fuel(product, 2);
    assert(seq![d].drop_last() =~= Seq::empty());
    assert(product(seq![d]) == 1 * d as nat);
    if b.len() == 0 {
        assert(a + b =~= a);
        assert(product(a) * 1 == product(a)) by (nonlinear_arith);
    } else {
        let init = b.drop_last();
        law_elements_multiply(a, init, d);
        assert((a + b).drop_last() =~= a + init);
        let x = product(a);
        let y = product(init);
        let z = b.last() as nat;
        assert((x * y) * z == x * (y * z)) by (nonlinear_arith);
    }
}

/// The order of the dimensions does not matter for the number of elements.
pub proof fn law_dimensions_commute(a: Seq<usize>, b: Seq<usize>)
    ensures
        product(a + b) == product(b + a),
{
    law_elements_multiply(a, b, 0);
    law_elements_multiply(b, a, 0);
    let x = product(a);
    let y = product(b);
    assert(x * y == y * x) by (nonlinear_arith);
}

/// Bytes are read little end first: of two parts, the second counts for its number
/// times 256 to the power of the length of the first. One byte counts for what it
/// is.
pub proof fn law_little_end_first(a: Seq<u8>, b: Seq<u8>, byte: u8)
    ensures
        le(a + b) == le(a) + pow256(a.len()) * le(b),
        le(seq![byte]) == byte,
    decreases a.len(),
{
    reveal_with_fuel(le, 2);
    assert(seq![byte].skip(1) =~= Seq::empty());
    if a.len() == 0 {
        assert(a + b =~= b);
        assert(1 * le(b) == le(b));
    } else {
        let tail = a.skip(1);
        law_little_end_first(tail, b, byte);
        assert((a + b).skip(1) =~= tail + b);
        let p = pow256(tail.len());
        let y = le(b);
        assert(256 * (p * y) == (256 * p) * y) by (nonlinear_arith);
    }
}

/// 256 to the power of `n`: a power of two parts is the product of the powers.
pub proof fn law_powers_multiply(m: nat, n: nat)
    ensures
        pow256(m + n) == pow256(m) * pow256(n),
        pow256(0) == 1,
        pow256(1) == 256,
    decreases m,
{
    reveal_with_fuel(pow256, 2);
    let y = pow256(n);
    if m == 0 {
        assert(1 * y == y);
    } else {
        law_powers_multiply((m - 1) as nat, n);
        let x = pow256((m - 1) as nat);
        assert(256 * (x * y) == (256 * x) * y) by (nonlinear_arith);
    }
}

/// Writing a number as bytes and reading them gives the number, and reading bytes
/// and writing the number gives the bytes.
pub proof fn law_bytes_read_back(value: nat, bytes: Seq<u8>)
    requires
        value < pow256(bytes.len()),
    ensures
        le_bytes(value, bytes.len()).len() == bytes.len(),
        le(le_bytes(value, bytes.len())) == value,
        le_bytes(le(bytes), bytes.len()) == bytes,
    decreases bytes.len(),
{
    lemma_le_round_trip(value, bytes.len());
    if bytes.len() > 0 {
        let tail = bytes.skip(1);
        lemma_le_bound(tail);
        law_bytes_read_back(le(tail), tail);
        assert(le(bytes) % 256 == bytes[0] as nat);
        assert(le(bytes) / 256 == le(tail));
        assert(le_bytes(le(bytes), bytes.len()) =~= bytes);
    }
}

/// Signed numbers are the two's complement of unsigned ones: they are the same up to
/// a multiple of `2 * half`, and lie from `-half` up to `half`. Each is turned into
/// the other.
pub proof fn law_twos_complement(value: nat, number: int, half: int)
    requires
        half > 0,
        value < 2 * half,
        -half <= number < half,
    ensures
        -half <= signed(value, half) < half,
        signed(value, half) == value || signed(value, half) == value - 2 * half,
        unsigned(signed(value, half), half) == value,
        unsigned(number, half) < 2 * half,
        signed(unsigned(number, half), half) == number,
{
}

/// Each 32-bit element is read from its own four bytes, at its place, and there are
/// as many elements as asked for.
pub proof fn law_words_are_read_in_place(bytes: Seq<u8>, n: nat, k: int)
    requires
        0 <= k < n,
        n * 4 <= bytes.len(),
    ensures
        i32s(bytes, n).len() == n && f32_bits(bytes, n).len() == n,
        i32s(bytes, n)[k] == signed(le(bytes.subrange(4 * k, 4 * k + 4)), 0x8000_0000),
        f32_bits(bytes, n)[k] == le(bytes.subrange(4 * k, 4 * k + 4)),
{
    lemma_pow256();
    lemma_le_bound(bytes.subrange(4 * k, 4 * k + 4));
}

/// Each 64-bit element is read from its own eight bytes, at its place, and there are
/// as many elements as asked for.
pub proof fn law_long_words_are_read_in_place(bytes: Seq<u8>, n: nat, k: int)
    requires
        0 <= k < n,
        n * 8 <= bytes.len(),
    ensures
        i64s(bytes, n).len() == n,
        i64s(bytes, n)[k] == signed(
            le(bytes.subrange(8 * k, 8 * k + 8)),
            0x8000_0000_0000_0000,
        ),
{
    lemma_pow256();
    lemma_le_bound(bytes.subrange(8 * k, 8 * k + 8));
}

/// The element types have the sizes that their names say, in bits.
pub proof fn law_sizes()
    ensures
        DType::F16.size() * 8 == 16,
        DType::BF16.size() * 8 == 16,
        DType::F32.size() * 8 == 32,
        DType::I32.size() * 8 == 32,
        DType::I64.size() * 8 == 64,
        DType::U8.size() * 8 == 8,
{
}

/// A view over bytes has as many elements as fit, in one dimension.
pub proof fn law_view_over_bytes(bytes: &[u8], dtype: DType, view: BufferView<'_>, n: usize)
    requires
        bytes@.len() <= usize::MAX,
        call_ensures(BufferView::from_bytes, (bytes, dtype), view),
        call_ensures(BufferView::numel, (&view,), n),
    ensures
        view.dims().len() == 1 && view.dims()[0] == n,
        n * dtype.size() <= bytes@.len() < (n + 1) * dtype.size(),
        view.data() == bytes@,
        view.elem() == dtype,
{
    let len = bytes@.len();
    let size = dtype.size();
    let dims = view.dims();
    law_elements_multiply(Seq::empty(), dims, dims[0]);
    assert(dims =~= seq![dims[0]]);
    assert(product(dims) == dims[0]);
    let q = len / size;
    assert(q * size <= len && len < (q + 1) * size && q <= len) by (nonlinear_arith)
        requires
            q == len / size,
            size > 0,
    ;
}

/// What a view hands out fits together: as many elements as the shape has, in as
/// many bytes as they take.
pub proof fn law_view_fits_together(
    view: BufferView<'_>,
    n: usize,
    len: usize,
    bytes: &[u8],
    i32_values: Option<Vec<i32>>,
    i64_values: Option<Vec<i64>>,
    f32_values: Option<Vec<u32>>,
)
    requires
        call_ensures(BufferView::numel, (&view,), n),
        call_ensures(BufferView::byte_len, (&view,), len),
        call_ensures(BufferView::as_bytes, (&view,), bytes),
        call_ensures(BufferView::as_i32, (&view,), i32_values),
        call_ensures(BufferView::as_i64, (&view,), i64_values),
        call_ensures(BufferView::as_f32_bits, (&view,), f32_values),
    ensures
        n == product(view.dims()),
        len == n * view.elem().size(),
        bytes@ == view.data().take(len as int),
        i32_values is Some <==> view.elem() == DType::I32,
        i64_values is Some <==> view.elem() == DType::I64,
        f32_values is Some <==> view.elem() == DType::F32,
        i32_values matches Some(v) ==> v@ == i32s(view.data(), n as nat),
        i64_values matches Some(v) ==> v@ == i64s(view.data(), n as nat),
        f32_values matches Some(v) ==> v@ == f32_bits(view.data(), n as nat),
{
}

} // verus!

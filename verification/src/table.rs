//! Schema-driven decoder for binary table files.
//!
//! A table file splits into a fixed-row segment (`row_count * row_width`
//! bytes) and a heap segment. Each row is sliced at `row_index * row_width`;
//! fixed-width columns are read in place, and reference columns hold a
//! little-endian offset into the heap, where the referenced value lives:
//! a null-terminated byte string, or a count-prefixed run of fixed-width
//! elements. Any offset outside the heap, a missing terminator, or a file
//! size that is not an exact multiple of the row width is a
//! `SchemaMismatch`: the whole table fails, never a partial decode.
use vstd::prelude::*;

use crate::DecodeError;
use crate::bytes::find_nul;
use crate::bytes::find_nul_at;
use crate::bytes::le_uint;
use crate::bytes::lemma_le_uint_bound;
use crate::bytes::lemma_pow256_small;
use crate::bytes::pow256;
use crate::bytes::read_u16;
use crate::bytes::read_u32;
use crate::bytes::read_u64;

verus! {

/// How the bytes of a fixed-width element are interpreted.
#[derive(Clone, Copy, Debug, PartialEq, Eq, Structural)]
pub enum PrimKind {
    /// Little-endian unsigned integer.
    Unsigned,
    /// Little-endian two's-complement signed integer.
    Signed,
    /// IEEE-754 bit pattern, kept as raw bits.
    FloatBits,
    /// One byte; nonzero means true.
    Boolean,
}

/// A fixed-width element type: a kind plus its width in bytes.
#[derive(Clone, Copy, Debug, PartialEq, Eq, Structural)]
pub struct PrimType {
    pub kind: PrimKind,
    pub width: u8,
}

/// One column of a schema: a fixed-width scalar, or a reference into the
/// heap (a string, or an array of fixed-width elements). `wide` selects
/// an 8-byte rather than a 4-byte heap offset in the fixed row.
#[derive(Clone, Copy, Debug, PartialEq, Eq, Structural)]
pub enum ColumnType {
    Scalar(PrimType),
    StringRef { wide: bool },
    ArrayRef { elem: PrimType, wide: bool },
}

/// A named column.
#[derive(Clone, Debug)]
pub struct Column {
    pub name: String,
    pub ty: ColumnType,
}

/// An ordered list of column descriptors for one table.
#[derive(Clone, Debug)]
pub struct Schema {
    pub columns: Vec<Column>,
}

/// One decoded cell value.
#[derive(Clone, Debug, PartialEq)]
pub enum Value {
    Unsigned(u64),
    Signed(i64),
    /// Raw bits of a 32-bit float.
    F32Bits(u32),
    /// Raw bits of a 64-bit float.
    F64Bits(u64),
    Bool(bool),
    /// Bytes of a heap string, terminator excluded.
    Str(Vec<u8>),
    UnsignedList(Vec<u64>),
    SignedList(Vec<i64>),
    F32List(Vec<u32>),
    F64List(Vec<u64>),
    BoolList(Vec<bool>),
}

/// The mathematical shape of a cell value.
pub enum ValueV {
    Unsigned(u64),
    Signed(i64),
    F32Bits(u32),
    F64Bits(u64),
    Bool(bool),
    Str(Seq<u8>),
    UnsignedList(Seq<u64>),
    SignedList(Seq<i64>),
    F32List(Seq<u32>),
    F64List(Seq<u64>),
    BoolList(Seq<bool>),
}

impl View for Value {
    type V = ValueV;

    open spec fn view(&self) -> ValueV {
        match self {
            Value::Unsigned(x) => ValueV::Unsigned(*x),
            Value::Signed(x) => ValueV::Signed(*x),
            Value::F32Bits(x) => ValueV::F32Bits(*x),
            Value::F64Bits(x) => ValueV::F64Bits(*x),
            Value::Bool(x) => ValueV::Bool(*x),
            Value::Str(v) => ValueV::Str(v@),
            Value::UnsignedList(v) => ValueV::UnsignedList(v@),
            Value::SignedList(v) => ValueV::SignedList(v@),
            Value::F32List(v) => ValueV::F32List(v@),
            Value::F64List(v) => ValueV::F64List(v@),
            Value::BoolList(v) => ValueV::BoolList(v@),
        }
    }
}

impl PrimType {
    /// A element width the format knows: 1, 2, 4 or 8 bytes, with floats
    /// only 4 or 8 wide and booleans one byte.
    pub open spec fn wf(self) -> bool {
        &&& (self.width == 1 || self.width == 2 || self.width == 4 || self.width == 8)
        &&& (self.kind is FloatBits ==> self.width == 4 || self.width == 8)
        &&& (self.kind is Boolean ==> self.width == 1)
    }
}

impl ColumnType {
    /// Every element type in the column is well formed.
    pub open spec fn wf(self) -> bool {
        match self {
            ColumnType::Scalar(t) => t.wf(),
            ColumnType::StringRef { .. } => true,
            ColumnType::ArrayRef { elem, .. } => elem.wf(),
        }
    }

    /// The number of bytes the column occupies inside a fixed row.
    pub open spec fn width(self) -> int {
        match self {
            ColumnType::Scalar(t) => t.width as int,
            ColumnType::StringRef { wide } => if wide { 8 } else { 4 },
            ColumnType::ArrayRef { wide, .. } => if wide { 8 } else { 4 },
        }
    }
}

impl Schema {
    /// All columns are well formed and the fixed row is not empty.
    pub open spec fn wf(self) -> bool {
        &&& forall|j: int| 0 <= j < self.columns@.len() ==> (#[trigger] self.columns@[j].ty).wf()
        &&& row_width(self.types()) > 0
    }

    /// The ordered column types of the schema.
    pub open spec fn types(self) -> Seq<ColumnType> {
        self.columns@.map_values(|c: Column| c.ty)
    }
}

/// The total width of a fixed row: the sum of the column widths.
pub open spec fn row_width(cols: Seq<ColumnType>) -> int
    decreases cols.len(),
{
    if cols.len() == 0 {
        0
    } else {
        row_width(cols.drop_last()) + cols.last().width()
    }
}

/// The unsigned value of a fixed-width element at `off`.
pub open spec fn prim_unsigned(b: Seq<u8>, off: int, width: int) -> u64 {
    le_uint(b, off, width) as u64
}

/// The two's-complement signed value of a fixed-width element at `off`.
pub open spec fn prim_signed(b: Seq<u8>, off: int, width: int) -> i64 {
    if le_uint(b, off, width) >= pow256(width) / 2 {
        (le_uint(b, off, width) - pow256(width)) as i64
    } else {
        le_uint(b, off, width) as i64
    }
}

/// The value of one fixed-width element of kind `t` at `off` in `b`.
pub open spec fn prim_value(b: Seq<u8>, off: int, t: PrimType) -> ValueV {
    match t.kind {
        PrimKind::Unsigned => ValueV::Unsigned(prim_unsigned(b, off, t.width as int)),
        PrimKind::Signed => ValueV::Signed(prim_signed(b, off, t.width as int)),
        PrimKind::FloatBits => if t.width == 4 {
            ValueV::F32Bits(le_uint(b, off, 4) as u32)
        } else {
            ValueV::F64Bits(le_uint(b, off, 8) as u64)
        },
        PrimKind::Boolean => ValueV::Bool(b[off] != 0),
    }
}

/// The list value of `count` elements of kind `t` packed at `off` in the heap.
pub open spec fn prim_list(heap: Seq<u8>, off: int, count: int, t: PrimType) -> ValueV {
    match t.kind {
        PrimKind::Unsigned => ValueV::UnsignedList(
            Seq::new(count as nat, |k: int| prim_unsigned(heap, off + k * t.width, t.width as int)),
        ),
        PrimKind::Signed => ValueV::SignedList(
            Seq::new(count as nat, |k: int| prim_signed(heap, off + k * t.width, t.width as int)),
        ),
        PrimKind::FloatBits => if t.width == 4 {
            ValueV::F32List(
                Seq::new(count as nat, |k: int| le_uint(heap, off + k * 4, 4) as u32),
            )
        } else {
            ValueV::F64List(
                Seq::new(count as nat, |k: int| le_uint(heap, off + k * 8, 8) as u64),
            )
        },
        PrimKind::Boolean => ValueV::BoolList(
            Seq::new(count as nat, |k: int| heap[off + k] != 0),
        ),
    }
}

/// Decodes the column `c` of one row. `rowb` is the fixed slice of the row,
/// `off` the column's offset inside it. `None` is a schema mismatch: a heap
/// offset out of bounds, an unterminated string, or an array run past the
/// heap's end.
pub open spec fn spec_decode_col(rowb: Seq<u8>, off: int, heap: Seq<u8>, c: ColumnType) -> Option<
    ValueV,
> {
    match c {
        ColumnType::Scalar(t) => Some(prim_value(rowb, off, t)),
        ColumnType::StringRef { wide } => {
            let o = le_uint(rowb, off, if wide { 8 } else { 4 });
            if o > heap.len() {
                None
            } else {
                let z = find_nul(heap, o);
                if z >= heap.len() {
                    None
                } else {
                    Some(ValueV::Str(heap.subrange(o, z)))
                }
            }
        },
        ColumnType::ArrayRef { elem, wide } => {
            let o = le_uint(rowb, off, if wide { 8 } else { 4 });
            if o + 4 > heap.len() {
                None
            } else {
                let count = le_uint(heap, o, 4);
                if o + 4 + count * elem.width > heap.len() {
                    None
                } else {
                    Some(prim_list(heap, o + 4, count, elem))
                }
            }
        },
    }
}

/// Decodes every column of one row, left to right.
pub open spec fn spec_decode_row(rowb: Seq<u8>, heap: Seq<u8>, cols: Seq<ColumnType>) -> Option<
    Seq<ValueV>,
>
    decreases cols.len(),
{
    if cols.len() == 0 {
        Some(Seq::empty())
    } else {
        match spec_decode_row(rowb, heap, cols.drop_last()) {
            None => None,
            Some(vs) => match spec_decode_col(
                rowb,
                row_width(cols.drop_last()),
                heap,
                cols.last(),
            ) {
                None => None,
                Some(v) => Some(vs.push(v)),
            },
        }
    }
}

/// Decodes a whole table: the fixed segment `rows` must be an exact
/// multiple of the row width, and every row must decode; otherwise the
/// whole table is a `SchemaMismatch`.
pub open spec fn spec_decode_table(cols: Seq<ColumnType>, rows: Seq<u8>, heap: Seq<u8>) -> Result<
    Seq<Seq<ValueV>>,
    DecodeError,
> {
    let rw = row_width(cols);
    if rw <= 0 {
        Err(DecodeError::SchemaMismatch)
    } else if rows.len() % (rw as nat) != 0 {
        Err(DecodeError::SchemaMismatch)
    } else {
        let n = rows.len() as int / rw;
        if forall|r: int|
            0 <= r < n ==> #[trigger] spec_decode_row(
                rows.subrange(r * rw, (r + 1) * rw),
                heap,
                cols,
            ) is Some {
            Ok(
                Seq::new(
                    n as nat,
                    |r: int| spec_decode_row(rows.subrange(r * rw, (r + 1) * rw), heap, cols)
                        .unwrap(),
                ),
            )
        } else {
            Err(DecodeError::SchemaMismatch)
        }
    }
}

impl DeepView for Value {
    type V = ValueV;

    open spec fn deep_view(&self) -> ValueV {
        self.view()
    }
}

/// `row_width` distributes over concatenation.
pub proof fn lemma_row_width_concat(a: Seq<ColumnType>, b: Seq<ColumnType>)
    ensures
        row_width(a + b) == row_width(a) + row_width(b),
    decreases b.len(),
{
    if b.len() == 0 {
        assert(a + b =~= a);
    } else {
        lemma_row_width_concat(a, b.drop_last());
        assert((a + b).drop_last() =~= a + b.drop_last());
    }
}

/// Column widths are nonnegative, so a row width is too.
pub proof fn lemma_row_width_nonneg(cols: Seq<ColumnType>)
    ensures
        row_width(cols) >= 0,
    decreases cols.len(),
{
    if cols.len() > 0 {
        lemma_row_width_nonneg(cols.drop_last());
    }
}

/// Reads one little-endian unsigned element of `width` bytes.
pub fn read_prim_u(b: &Vec<u8>, off: usize, width: u8) -> (r: u64)
    requires
        width == 1 || width == 2 || width == 4 || width == 8,
        off + width <= b@.len(),
    ensures
        r == le_uint(b@, off as int, width as int),
{
    proof {
        lemma_le_uint_bound(b@, off as int, width as int);
        lemma_pow256_small();
    }
    let n = b.len();
    if width == 1 {
        proof {
            assert(le_uint(b@, off as int, 1) == b@[off as int] + 256 * le_uint(b@, off + 1, 0));
        }
        b[off] as u64
    } else if width == 2 {
        read_u16(b, off) as u64
    } else if width == 4 {
        read_u32(b, off) as u64
    } else {
        read_u64(b, off)
    }
}

/// Reads one little-endian two's-complement element of `width` bytes.
pub fn read_prim_i(b: &Vec<u8>, off: usize, width: u8) -> (r: i64)
    requires
        width == 1 || width == 2 || width == 4 || width == 8,
        off + width <= b@.len(),
    ensures
        r == prim_signed(b@, off as int, width as int),
{
    proof {
        lemma_le_uint_bound(b@, off as int, width as int);
        lemma_pow256_small();
    }
    let u = read_prim_u(b, off, width);
    if width == 8 {
        if u >= 0x8000_0000_0000_0000 {
            let m = u - 0x8000_0000_0000_0000;
            proof {
                assert(le_uint(b@, off as int, 8) - pow256(8) == i64::MIN + m);
            }
            i64::MIN + (m as i64)
        } else {
            u as i64
        }
    } else {
        let pow: u64 = if width == 1 {
            256
        } else if width == 2 {
            65536
        } else {
            0x1_0000_0000
        };
        if u >= pow / 2 {
            (u as i64) - (pow as i64)
        } else {
            u as i64
        }
    }
}

/// Reads a heap offset: 8 little-endian bytes if `wide`, else 4.
fn read_ref(b: &Vec<u8>, off: usize, wide: bool) -> (r: u64)
    requires
        off + (if wide { 8int } else { 4int }) <= b@.len(),
    ensures
        r == le_uint(b@, off as int, if wide { 8int } else { 4int }),
{
    if wide {
        read_u64(b, off)
    } else {
        read_u32(b, off) as u64
    }
}

/// Reads `count` packed elements of kind `t` starting at `off` in the heap.
fn read_array(heap: &Vec<u8>, off: usize, count: u32, t: PrimType) -> (r: Value)
    requires
        t.wf(),
        off + count * t.width <= heap@.len(),
    ensures
        r@ == prim_list(heap@, off as int, count as int, t),
{
    let n = heap.len();
    let w = t.width;
    match t.kind {
        PrimKind::Unsigned => {
            let mut out: Vec<u64> = Vec::new();
            let mut k: u32 = 0;
            while k < count
                invariant
                    k <= count,
                    n == heap@.len(),
                    w == t.width,
                    w == 1 || w == 2 || w == 4 || w == 8,
                    off + count * w <= n,
                    out@ == Seq::new(
                        k as nat,
                        |i: int| prim_unsigned(heap@, off + i * w, w as int),
                    ),
                decreases count - k,
            {
                proof {
                    assert((k + 1) * w <= count * w && 0 <= k * w) by (nonlinear_arith)
                        requires
                            k < count,
                            0 < w,
                    ;
                }
                let x = read_prim_u(heap, off + (k as usize) * (w as usize), w);
                out.push(x);
                proof {
                    assert(out@ =~= Seq::new(
                        (k + 1) as nat,
                        |i: int| prim_unsigned(heap@, off + i * w, w as int),
                    ));
                }
                k = k + 1;
            }
            Value::UnsignedList(out)
        },
        PrimKind::Signed => {
            let mut out: Vec<i64> = Vec::new();
            let mut k: u32 = 0;
            while k < count
                invariant
                    k <= count,
                    n == heap@.len(),
                    w == t.width,
                    w == 1 || w == 2 || w == 4 || w == 8,
                    off + count * w <= n,
                    out@ == Seq::new(k as nat, |i: int| prim_signed(heap@, off + i * w, w as int)),
                decreases count - k,
            {
                proof {
                    assert((k + 1) * w <= count * w && 0 <= k * w) by (nonlinear_arith)
                        requires
                            k < count,
                            0 < w,
                    ;
                }
                let x = read_prim_i(heap, off + (k as usize) * (w as usize), w);
                out.push(x);
                proof {
                    assert(out@ =~= Seq::new(
                        (k + 1) as nat,
                        |i: int| prim_signed(heap@, off + i * w, w as int),
                    ));
                }
                k = k + 1;
            }
            Value::SignedList(out)
        },
        PrimKind::FloatBits => {
            if w == 4 {
                let mut out: Vec<u32> = Vec::new();
                let mut k: u32 = 0;
                while k < count
                    invariant
                        k <= count,
                        n == heap@.len(),
                        off + count * 4 <= n,
                        out@ == Seq::new(k as nat, |i: int| le_uint(heap@, off + i * 4, 4) as u32),
                    decreases count - k,
                {
                    proof {
                        assert((k + 1) * 4 <= count * 4 && 0 <= k * 4) by (nonlinear_arith)
                            requires
                                k < count,
                        ;
                        lemma_le_uint_bound(heap@, off + k * 4, 4);
                        lemma_pow256_small();
                    }
                    let x = read_u32(heap, off + (k as usize) * 4);
                    out.push(x);
                    proof {
                        assert(out@ =~= Seq::new(
                            (k + 1) as nat,
                            |i: int| le_uint(heap@, off + i * 4, 4) as u32,
                        ));
                    }
                    k = k + 1;
                }
                Value::F32List(out)
            } else {
                let mut out: Vec<u64> = Vec::new();
                let mut k: u32 = 0;
                while k < count
                    invariant
                        k <= count,
                        n == heap@.len(),
                        off + count * 8 <= n,
                        out@ == Seq::new(k as nat, |i: int| le_uint(heap@, off + i * 8, 8) as u64),
                    decreases count - k,
                {
                    proof {
                        assert((k + 1) * 8 <= count * 8 && 0 <= k * 8) by (nonlinear_arith)
                            requires
                                k < count,
                        ;
                        lemma_le_uint_bound(heap@, off + k * 8, 8);
                        lemma_pow256_small();
                    }
                    let x = read_u64(heap, off + (k as usize) * 8);
                    out.push(x);
                    proof {
                        assert(out@ =~= Seq::new(
                            (k + 1) as nat,
                            |i: int| le_uint(heap@, off + i * 8, 8) as u64,
                        ));
                    }
                    k = k + 1;
                }
                Value::F64List(out)
            }
        },
        PrimKind::Boolean => {
            let mut out: Vec<bool> = Vec::new();
            let mut k: u32 = 0;
            while k < count
                invariant
                    k <= count,
                    n == heap@.len(),
                    off + count <= n,
                    out@ == Seq::new(k as nat, |i: int| heap@[off + i] != 0),
                decreases count - k,
            {
                let x = heap[off + (k as usize)];
                out.push(x != 0);
                proof {
                    assert(out@ =~= Seq::new((k + 1) as nat, |i: int| heap@[off + i] != 0));
                }
                k = k + 1;
            }
            Value::BoolList(out)
        },
    }
}

/// Decodes the column `c` of one row, at offset `off` inside the fixed
/// slice `rowb`, resolving references into `heap`.
pub fn decode_col(rowb: &Vec<u8>, off: usize, heap: &Vec<u8>, c: &ColumnType) -> (r: Result<
    Value,
    DecodeError,
>)
    requires
        c.wf(),
        off + c.width() <= rowb@.len(),
    ensures
        match r {
            Ok(v) => spec_decode_col(rowb@, off as int, heap@, *c) == Some(v@),
            Err(e) => {
                &&& spec_decode_col(rowb@, off as int, heap@, *c) is None
                &&& e == DecodeError::SchemaMismatch
            },
        },
{
    match c {
        ColumnType::Scalar(t) => match t.kind {
            PrimKind::Unsigned => Ok(Value::Unsigned(read_prim_u(rowb, off, t.width))),
            PrimKind::Signed => Ok(Value::Signed(read_prim_i(rowb, off, t.width))),
            PrimKind::FloatBits => {
                proof {
                    lemma_le_uint_bound(rowb@, off as int, t.width as int);
                    lemma_pow256_small();
                }
                if t.width == 4 {
                    Ok(Value::F32Bits(read_u32(rowb, off)))
                } else {
                    Ok(Value::F64Bits(read_u64(rowb, off)))
                }
            },
            PrimKind::Boolean => {
                let n = rowb.len();
                Ok(Value::Bool(rowb[off] != 0))
            },
        },
        ColumnType::StringRef { wide } => {
            let o = read_ref(rowb, off, *wide);
            proof {
                lemma_le_uint_bound(rowb@, off as int, if *wide { 8int } else { 4int });
            }
            let hl = heap.len();
            if o > hl as u64 {
                Err(DecodeError::SchemaMismatch)
            } else {
                let z = find_nul_at(heap, o as usize);
                if z >= hl {
                    Err(DecodeError::SchemaMismatch)
                } else {
                    Ok(Value::Str(crate::bytes::slice_bytes(heap, o as usize, z - o as usize)))
                }
            }
        },
        ColumnType::ArrayRef { elem, wide } => {
            let o = read_ref(rowb, off, *wide);
            proof {
                lemma_le_uint_bound(rowb@, off as int, if *wide { 8int } else { 4int });
            }
            let hl = heap.len() as u64;
            if hl < 4 || o > hl - 4 {
                Err(DecodeError::SchemaMismatch)
            } else {
                let count = read_u32(heap, o as usize);
                proof {
                    lemma_le_uint_bound(heap@, o as int, 4);
                    lemma_pow256_small();
                }
                let ew = elem.width as u64;
                proof {
                    assert((count as int) * (elem.width as int) <= 0xFFFF_FFFF * 8)
                        by (nonlinear_arith)
                        requires
                            count <= 0xFFFF_FFFFu32,
                            0 <= elem.width <= 8,
                    ;
                }
                if (count as u64) * ew > hl - 4 - o {
                    Err(DecodeError::SchemaMismatch)
                } else {
                    Ok(read_array(heap, (o as usize) + 4, count, *elem))
                }
            }
        },
    }
}

/// Decodes every column of one row, left to right.
pub fn decode_row(rowb: &Vec<u8>, heap: &Vec<u8>, schema: &Schema) -> (r: Result<
    Vec<Value>,
    DecodeError,
>)
    requires
        schema.wf(),
        rowb@.len() == row_width(schema.types()),
    ensures
        match r {
            Ok(v) => spec_decode_row(rowb@, heap@, schema.types()) == Some(v.deep_view()),
            Err(e) => {
                &&& spec_decode_row(rowb@, heap@, schema.types()) is None
                &&& e == DecodeError::SchemaMismatch
            },
        },
{
    let ghost cols = schema.types();
    let mut vals: Vec<Value> = Vec::new();
    let mut off: usize = 0;
    let mut j: usize = 0;
    let ncols = schema.columns.len();
    let rowb_len = rowb.len();
    while j < ncols
        invariant
            j <= ncols,
            ncols == schema.columns@.len(),
            schema.wf(),
            cols == schema.types(),
            rowb_len == rowb@.len(),
            rowb@.len() == row_width(cols),
            off == row_width(cols.subrange(0, j as int)),
            spec_decode_row(rowb@, heap@, cols.subrange(0, j as int)) == Some(vals.deep_view()),
        decreases ncols - j,
    {
        proof {
            assert(cols =~= cols.subrange(0, j + 1) + cols.subrange(j + 1, ncols as int));
            lemma_row_width_concat(cols.subrange(0, j + 1), cols.subrange(j + 1, ncols as int));
            lemma_row_width_nonneg(cols.subrange(j + 1, ncols as int));
            assert(cols.subrange(0, j + 1).drop_last() =~= cols.subrange(0, j as int));
            assert(row_width(cols.subrange(0, j + 1)) == off + cols[j as int].width());
            assert(cols[j as int].wf());
        }
        let c = &schema.columns[j].ty;
        match decode_col(rowb, off, heap, c) {
            Ok(v) => {
                vals.push(v);
                proof {
                    assert(vals.deep_view() =~= spec_decode_row(
                        rowb@,
                        heap@,
                        cols.subrange(0, j + 1),
                    ).unwrap());
                }
            },
            Err(e) => {
                proof {
                    lemma_decode_row_fails(rowb@, heap@, cols, j as int);
                }
                return Err(e);
            },
        }
        off = off + column_width_exec(c);
        j = j + 1;
    }
    proof {
        assert(cols.subrange(0, ncols as int) =~= cols);
    }
    Ok(vals)
}

/// The width of a column inside the fixed row, as executable code.
pub fn column_width_exec(c: &ColumnType) -> (r: usize)
    ensures
        r == c.width(),
{
    match c {
        ColumnType::Scalar(t) => t.width as usize,
        ColumnType::StringRef { wide } => if *wide {
            8
        } else {
            4
        },
        ColumnType::ArrayRef { wide, .. } => if *wide {
            8
        } else {
            4
        },
    }
}

/// If a prefix of the columns decodes but the next column fails, the whole
/// row fails.
proof fn lemma_decode_row_fails(rowb: Seq<u8>, heap: Seq<u8>, cols: Seq<ColumnType>, j: int)
    requires
        0 <= j < cols.len(),
        spec_decode_col(rowb, row_width(cols.subrange(0, j)), heap, cols[j]) is None,
    ensures
        spec_decode_row(rowb, heap, cols) is None,
    decreases cols.len() - j,
{
    if j == cols.len() - 1 {
        assert(cols.drop_last() =~= cols.subrange(0, j));
    } else {
        assert(cols.drop_last().subrange(0, j) =~= cols.subrange(0, j));
        assert(cols.drop_last()[j] == cols[j]);
        lemma_decode_row_fails(rowb, heap, cols.drop_last(), j);
    }
}

/// Decodes a whole table file: `rows` is the fixed-row segment, `heap` the
/// heap segment. Fails with `SchemaMismatch`, and only then, when the fixed
/// segment is not an exact multiple of the schema's row width or some row's
/// heap reference falls outside the heap.
pub fn decode_table(schema: &Schema, rows: &Vec<u8>, heap: &Vec<u8>) -> (r: Result<
    Vec<Vec<Value>>,
    DecodeError,
>)
    requires
        schema.wf(),
    ensures
        match r {
            Ok(t) => spec_decode_table(schema.types(), rows@, heap@) == Ok::<
                Seq<Seq<ValueV>>,
                DecodeError,
            >(t.deep_view()),
            Err(e) => spec_decode_table(schema.types(), rows@, heap@) == Err::<
                Seq<Seq<ValueV>>,
                DecodeError,
            >(e),
        },
{
    let ghost cols = schema.types();
    let mut acc: u128 = 0;
    let mut j: usize = 0;
    let ncols = schema.columns.len();
    while j < ncols
        invariant
            j <= ncols,
            ncols == schema.columns@.len(),
            schema.wf(),
            cols == schema.types(),
            acc == row_width(cols.subrange(0, j as int)),
            acc <= 8 * j,
        decreases ncols - j,
    {
        proof {
            assert(cols.subrange(0, j + 1).drop_last() =~= cols.subrange(0, j as int));
            assert(cols[j as int] == schema.columns@[j as int].ty);
            assert(cols[j as int].wf());
        }
        acc = acc + (column_width_exec(&schema.columns[j].ty) as u128);
        j = j + 1;
    }
    proof {
        assert(cols.subrange(0, ncols as int) =~= cols);
    }
    let rw = acc;
    let len = rows.len();
    if (len as u128) % rw != 0 {
        return Err(DecodeError::SchemaMismatch);
    }
    let nrows_w = (len as u128) / rw;
    proof {
        assert(len as int / rw as int <= len as int) by (nonlinear_arith)
            requires
                rw >= 1,
                len >= 0,
        ;
        vstd::arithmetic::div_mod::lemma_fundamental_div_mod(len as int, rw as int);
    }
    let nrows = nrows_w as usize;
    let mut out: Vec<Vec<Value>> = Vec::new();
    let mut r: usize = 0;
    while r < nrows
        invariant
            r <= nrows,
            schema.wf(),
            cols == schema.types(),
            rw == row_width(cols),
            rw >= 1,
            len == rows@.len(),
            nrows * rw == len,
            nrows == len as int / (rw as int),
            out.deep_view().len() == r,
            forall|i: int|
                0 <= i < r ==> #[trigger] spec_decode_row(
                    rows@.subrange(i * rw, (i + 1) * rw),
                    heap@,
                    cols,
                ) == Some(out.deep_view()[i]),
        decreases nrows - r,
    {
        proof {
            assert(rw <= nrows * rw && r * rw + rw == (r + 1) * rw && (r + 1) * rw <= nrows * rw
                && 0 <= r * rw) by (nonlinear_arith)
                requires
                    r < nrows,
                    rw >= 1,
            ;
        }
        let start = r * (rw as usize);
        proof {
            assert(rw <= usize::MAX);
            assert(rw as usize == rw);
            assert(start == r * rw);
            assert(start + rw <= nrows * rw);
            assert(start + rw <= rows@.len());
        }
        let rowb = crate::bytes::slice_bytes(rows, start, rw as usize);
        match decode_row(&rowb, heap, schema) {
            Ok(vals) => {
                let ghost prev = out.deep_view();
                out.push(vals);
                proof {
                    assert(out.deep_view() =~= prev.push(vals.deep_view()));
                }
                r = r + 1;
            },
            Err(e) => {
                proof {
                    let n = rows@.len() as int / (rw as int);
                    assert(spec_decode_row(
                        rows@.subrange(r as int * rw, (r + 1) * rw),
                        heap@,
                        cols,
                    ) is None);
                    assert(!(forall|i: int|
                        0 <= i < n ==> #[trigger] spec_decode_row(
                            rows@.subrange(i * rw, (i + 1) * rw),
                            heap@,
                            cols,
                        ) is Some));
                }
                return Err(DecodeError::SchemaMismatch);
            },
        }
    }
    proof {
        assert(out.deep_view() =~= Seq::new(
            nrows as nat,
            |i: int| spec_decode_row(rows@.subrange(i * rw, (i + 1) * rw), heap@, cols).unwrap(),
        ));
    }
    Ok(out)
}

/// Decodes a whole table file laid out as a little-endian 32-bit row
/// count, then `row_count * row_width` fixed-row bytes, then the heap.
pub open spec fn spec_decode_table_file(cols: Seq<ColumnType>, raw: Seq<u8>) -> Result<
    Seq<Seq<ValueV>>,
    DecodeError,
> {
    let rw = row_width(cols);
    if raw.len() < 4 || rw <= 0 {
        Err(DecodeError::SchemaMismatch)
    } else {
        let rc = le_uint(raw, 0, 4);
        if 4 + rc * rw > raw.len() {
            Err(DecodeError::SchemaMismatch)
        } else {
            spec_decode_table(
                cols,
                raw.subrange(4, 4 + rc * rw),
                raw.subrange(4 + rc * rw, raw.len() as int),
            )
        }
    }
}

/// Splits a count-prefixed table file and decodes it.
pub fn decode_table_file(schema: &Schema, raw: &Vec<u8>) -> (r: Result<
    Vec<Vec<Value>>,
    DecodeError,
>)
    requires
        schema.wf(),
    ensures
        match r {
            Ok(t) => spec_decode_table_file(schema.types(), raw@) == Ok::<
                Seq<Seq<ValueV>>,
                DecodeError,
            >(t.deep_view()),
            Err(e) => spec_decode_table_file(schema.types(), raw@) == Err::<
                Seq<Seq<ValueV>>,
                DecodeError,
            >(e),
        },
{
    let len = raw.len();
    if len < 4 {
        return Err(DecodeError::SchemaMismatch);
    }
    let rc = read_u32(raw, 0);
    let mut acc: u128 = 0;
    let mut j: usize = 0;
    let ghost cols = schema.types();
    let ncols = schema.columns.len();
    while j < ncols
        invariant
            j <= ncols,
            ncols == schema.columns@.len(),
            schema.wf(),
            cols == schema.types(),
            acc == row_width(cols.subrange(0, j as int)),
            acc <= 8 * j,
        decreases ncols - j,
    {
        proof {
            assert(cols.subrange(0, j + 1).drop_last() =~= cols.subrange(0, j as int));
            assert(cols[j as int] == schema.columns@[j as int].ty);
        }
        acc = acc + (column_width_exec(&schema.columns[j].ty) as u128);
        j = j + 1;
    }
    proof {
        assert(cols.subrange(0, ncols as int) =~= cols);
        crate::bytes::lemma_le_uint_bound(raw@, 0, 4);
        crate::bytes::lemma_pow256_small();
    }
    let rw = acc;
    proof {
        assert((rc as int) * (acc as int) < 0x10_0000_0000_0000_0000_0000_0000)
            by (nonlinear_arith)
            requires
                rc < 0x1_0000_0000,
                0 <= acc <= 0x8_0000_0000_0000_0000,
        ;
    }
    let need = (rc as u128) * rw;
    if need > (len as u128) - 4 {
        return Err(DecodeError::SchemaMismatch);
    }
    let fixed_len = (need) as usize;
    let rows = crate::bytes::slice_bytes(raw, 4, fixed_len);
    let heap = crate::bytes::slice_bytes(raw, 4 + fixed_len, len - 4 - fixed_len);
    let r = decode_table(schema, &rows, &heap);
    proof {
        let rci = rc as int;
        let rwi = rw as int;
        assert(rows@.len() == rci * rwi);
        assert(rci * rwi % rwi == 0 && rci * rwi / rwi == rci) by (nonlinear_arith)
            requires
                rwi >= 1,
                rci >= 0,
        ;
    }
    r
}

/// Well-formed columns each take at least one byte.
proof fn lemma_row_width_pos(cols: Seq<ColumnType>)
    requires
        forall|j: int| 0 <= j < cols.len() ==> (#[trigger] cols[j]).wf(),
    ensures
        row_width(cols) >= cols.len(),
    decreases cols.len(),
{
    if cols.len() > 0 {
        assert(forall|j: int|
            0 <= j < cols.drop_last().len() ==> (#[trigger] cols.drop_last()[j]).wf());
        lemma_row_width_pos(cols.drop_last());
    }
}

/// Whether one element type is well formed, as executable code.
pub fn prim_ok(t: &PrimType) -> (r: bool)
    ensures
        r == t.wf(),
{
    let width_ok = t.width == 1 || t.width == 2 || t.width == 4 || t.width == 8;
    match t.kind {
        PrimKind::FloatBits => width_ok && (t.width == 4 || t.width == 8),
        PrimKind::Boolean => t.width == 1,
        PrimKind::Unsigned => width_ok,
        PrimKind::Signed => width_ok,
    }
}

/// Whether a whole schema is well formed: every column's element types
/// are known widths and the fixed row is not empty. Callers that take a
/// schema from outside input check it with this before decoding.
pub fn schema_ok(schema: &Schema) -> (r: bool)
    ensures
        r == schema.wf(),
{
    let ghost cols = schema.types();
    let n = schema.columns.len();
    if n == 0 {
        proof {
            assert(cols =~= Seq::<ColumnType>::empty());
        }
        return false;
    }
    let mut j: usize = 0;
    while j < n
        invariant
            j <= n,
            n == schema.columns@.len(),
            cols == schema.types(),
            forall|k: int| 0 <= k < j ==> (#[trigger] cols[k]).wf(),
        decreases n - j,
    {
        let ok = match &schema.columns[j].ty {
            ColumnType::Scalar(t) => prim_ok(t),
            ColumnType::StringRef { .. } => true,
            ColumnType::ArrayRef { elem, .. } => prim_ok(elem),
        };
        if !ok {
            proof {
                assert(cols[j as int] == schema.columns@[j as int].ty);
                assert(!cols[j as int].wf());
            }
            return false;
        }
        proof {
            assert(cols[j as int] == schema.columns@[j as int].ty);
        }
        j = j + 1;
    }
    proof {
        lemma_row_width_pos(cols);
        assert(forall|k: int|
            0 <= k < schema.columns@.len() ==> (#[trigger] schema.columns@[k].ty).wf() == cols[
                k
            ].wf());
    }
    true
}

/// Determinism: decoding the same table bytes with the same schema twice
/// yields identical row sequences, both being the same function of the
/// schema and the bytes.
pub proof fn lemma_decode_deterministic(
    cols: Seq<ColumnType>,
    rows: Seq<u8>,
    heap: Seq<u8>,
    r1: Result<Seq<Seq<ValueV>>, DecodeError>,
    r2: Result<Seq<Seq<ValueV>>, DecodeError>,
)
    requires
        r1 == spec_decode_table(cols, rows, heap),
        r2 == spec_decode_table(cols, rows, heap),
    ensures
        r1 == r2,
{
}

} // verus!

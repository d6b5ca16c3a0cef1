//! Typed arrays: which element kind a numeric array fits, and the packed
//! little-endian bytes of its elements.
use crate::encoder::{f32_candidate, spec_f32_candidate, spec_le_bytes};
use crate::floatbits::{
    f32_bits_to_f64_bits, f64_is_infinite, f64_is_nan, spec_f32_to_f64, spec_f64_is_infinite,
    spec_f64_is_nan,
};
use crate::value::{view_values, SpecValue, Value};
use vstd::prelude::*;

verus! {

/// The element type of a typed array.
#[derive(Debug, Clone, Copy, PartialEq, Eq, Structural)]
pub enum ElementKind {
    I8,
    I16,
    I32,
    I64,
    U8,
    U16,
    U32,
    U64,
    F32,
    F64,
}

impl ElementKind {
    /// The byte size of one element.
    pub open spec fn spec_size(self) -> nat {
        match self {
            ElementKind::I8 | ElementKind::U8 => 1,
            ElementKind::I16 | ElementKind::U16 => 2,
            ElementKind::I32 | ElementKind::U32 | ElementKind::F32 => 4,
            ElementKind::I64 | ElementKind::U64 | ElementKind::F64 => 8,
        }
    }

    /// Size of each element in bytes.
    pub fn element_size(self) -> (r: usize)
        ensures
            r == self.spec_size(),
    {
        match self {
            ElementKind::I8 | ElementKind::U8 => 1,
            ElementKind::I16 | ElementKind::U16 => 2,
            ElementKind::I32 | ElementKind::U32 | ElementKind::F32 => 4,
            ElementKind::I64 | ElementKind::U64 | ElementKind::F64 => 8,
        }
    }
}

/// A value that a typed array can hold: an integer, or a finite float.
pub open spec fn is_numeric(v: SpecValue) -> bool {
    match v {
        SpecValue::Int(_) | SpecValue::UInt(_) => true,
        SpecValue::Float(b) => !spec_f64_is_nan(b) && !spec_f64_is_infinite(b),
        _ => false,
    }
}

/// A float that binary32 holds exactly (anything else passes).
pub open spec fn f32_exact(v: SpecValue) -> bool {
    match v {
        SpecValue::Float(b) => spec_f32_to_f64(spec_f32_candidate(b)) == b,
        _ => true,
    }
}

/// A signed integer from `lo` to `hi`.
pub open spec fn int_within(v: SpecValue, lo: int, hi: int) -> bool {
    match v {
        SpecValue::Int(n) => lo <= n <= hi,
        _ => false,
    }
}

/// An integer, signed or not, from 0 to `hi`.
pub open spec fn uint_within(v: SpecValue, hi: int) -> bool {
    match v {
        SpecValue::Int(n) => 0 <= n <= hi,
        SpecValue::UInt(n) => n <= hi,
        _ => false,
    }
}

/// The element kind of the typed array that holds `vals`, if any: all floats
/// give binary32 when every one is exact in it, else binary64; all signed
/// integers give the narrowest signed kind that holds them; integers that are
/// all unsigned or not negative, with at least one unsigned, give the
/// narrowest unsigned kind. An empty array, a non-number, a NaN or an
/// infinity, or a mix of floats and integers gives none.
pub open spec fn spec_typed_array_kind(vals: Seq<SpecValue>) -> Option<ElementKind> {
    if vals.len() == 0 || exists|i: int| 0 <= i < vals.len() && !is_numeric(#[trigger] vals[i]) {
        None
    } else if forall|i: int| 0 <= i < vals.len() ==> #[trigger] vals[i] is Float {
        if forall|i: int| 0 <= i < vals.len() ==> #[trigger] f32_exact(vals[i]) {
            Some(ElementKind::F32)
        } else {
            Some(ElementKind::F64)
        }
    } else if forall|i: int| 0 <= i < vals.len() ==> #[trigger] vals[i] is Int {
        if forall|i: int| 0 <= i < vals.len() ==> #[trigger] int_within(vals[i], -0x80, 0x7f) {
            Some(ElementKind::I8)
        } else if forall|i: int|
            0 <= i < vals.len() ==> #[trigger] int_within(vals[i], -0x8000, 0x7fff) {
            Some(ElementKind::I16)
        } else if forall|i: int|
            0 <= i < vals.len() ==> #[trigger] int_within(vals[i], -0x8000_0000, 0x7fff_ffff) {
            Some(ElementKind::I32)
        } else {
            Some(ElementKind::I64)
        }
    } else if forall|i: int|
        0 <= i < vals.len() ==> #[trigger] uint_within(vals[i], 0xffff_ffff_ffff_ffff) {
        if forall|i: int| 0 <= i < vals.len() ==> #[trigger] uint_within(vals[i], 0xff) {
            Some(ElementKind::U8)
        } else if forall|i: int| 0 <= i < vals.len() ==> #[trigger] uint_within(vals[i], 0xffff) {
            Some(ElementKind::U16)
        } else if forall|i: int|
            0 <= i < vals.len() ==> #[trigger] uint_within(vals[i], 0xffff_ffff) {
            Some(ElementKind::U32)
        } else {
            Some(ElementKind::U64)
        }
    } else {
        None
    }
}

proof fn lemma_all_extend(vals: Seq<SpecValue>, i: int, p: spec_fn(SpecValue) -> bool)
    requires
        0 <= i < vals.len(),
    ensures
        (forall|j: int| 0 <= j < i + 1 ==> #[trigger] p(vals[j])) == ((forall|j: int|
            0 <= j < i ==> #[trigger] p(vals[j])) && p(vals[i])),
{
    if (forall|j: int| 0 <= j < i ==> #[trigger] p(vals[j])) && p(vals[i]) {
        assert forall|j: int| 0 <= j < i + 1 implies #[trigger] p(vals[j]) by {
            if j == i {
            }
        }
    }
}

/// Detect whether an array can be encoded as a typed array, and of which kind.
pub fn detect_typed_array(arr: &[Value]) -> (r: Option<ElementKind>)
    ensures
        r == spec_typed_array_kind(view_values(arr@)),
{
    let ghost vals = view_values(arr@);
    if arr.len() == 0 {
        return None;
    }
    let mut all_int = true;
    let mut all_uint = true;
    let mut all_float = true;
    let mut f32_ok = true;
    let mut fits_i8 = true;
    let mut fits_i16 = true;
    let mut fits_i32 = true;
    let mut fits_u8 = true;
    let mut fits_u16 = true;
    let mut fits_u32 = true;
    let mut i: usize = 0;
    while i < arr.len()
        invariant
            vals == view_values(arr@),
            i <= arr@.len(),
            forall|j: int| 0 <= j < i ==> is_numeric(#[trigger] vals[j]),
            all_int == forall|j: int| 0 <= j < i ==> #[trigger] vals[j] is Int,
            all_uint == forall|j: int|
                0 <= j < i ==> #[trigger] uint_within(vals[j], 0xffff_ffff_ffff_ffff),
            all_float == forall|j: int| 0 <= j < i ==> #[trigger] vals[j] is Float,
            f32_ok == forall|j: int| 0 <= j < i ==> #[trigger] f32_exact(vals[j]),
            fits_i8 == forall|j: int| 0 <= j < i ==> #[trigger] int_within(vals[j], -0x80, 0x7f),
            fits_i16 == forall|j: int|
                0 <= j < i ==> #[trigger] int_within(vals[j], -0x8000, 0x7fff),
            fits_i32 == forall|j: int|
                0 <= j < i ==> #[trigger] int_within(vals[j], -0x8000_0000, 0x7fff_ffff),
            fits_u8 == forall|j: int| 0 <= j < i ==> #[trigger] uint_within(vals[j], 0xff),
            fits_u16 == forall|j: int| 0 <= j < i ==> #[trigger] uint_within(vals[j], 0xffff),
            fits_u32 == forall|j: int| 0 <= j < i ==> #[trigger] uint_within(vals[j], 0xffff_ffff),
        decreases arr@.len() - i,
    {
        let ghost v = vals[i as int];
        assert(v == arr@[i as int]@);
        match &arr[i] {
            Value::Int(n) => {
                let n = *n;
                all_float = false;
                fits_i8 = fits_i8 && -0x80 <= n && n <= 0x7f;
                fits_i16 = fits_i16 && -0x8000 <= n && n <= 0x7fff;
                fits_i32 = fits_i32 && -0x8000_0000 <= n && n <= 0x7fff_ffff;
                all_uint = all_uint && n >= 0;
                fits_u8 = fits_u8 && 0 <= n && n <= 0xff;
                fits_u16 = fits_u16 && 0 <= n && n <= 0xffff;
                fits_u32 = fits_u32 && 0 <= n && n <= 0xffff_ffff;
            },
            Value::UInt(n) => {
                let n = *n;
                all_float = false;
                all_int = false;
                fits_i8 = false;
                fits_i16 = false;
                fits_i32 = false;
                fits_u8 = fits_u8 && n <= 0xff;
                fits_u16 = fits_u16 && n <= 0xffff;
                fits_u32 = fits_u32 && n <= 0xffff_ffff;
            },
            Value::Float(b) => {
                let b = *b;
                if f64_is_nan(b) || f64_is_infinite(b) {
                    assert(!is_numeric(vals[i as int]));
                    return None;
                }
                all_int = false;
                all_uint = false;
                fits_i8 = false;
                fits_i16 = false;
                fits_i32 = false;
                fits_u8 = false;
                fits_u16 = false;
                fits_u32 = false;
                f32_ok = f32_ok && f32_bits_to_f64_bits(f32_candidate(b)) == b;
            },
            _ => {
                assert(!is_numeric(vals[i as int]));
                return None;
            },
        }
        proof {
            let k = i as int;
            lemma_all_extend(vals, k, |x: SpecValue| x is Int);
            lemma_all_extend(vals, k, |x: SpecValue| x is Float);
            lemma_all_extend(vals, k, |x: SpecValue| uint_within(x, 0xffff_ffff_ffff_ffff));
            lemma_all_extend(vals, k, |x: SpecValue| f32_exact(x));
            lemma_all_extend(vals, k, |x: SpecValue| int_within(x, -0x80, 0x7f));
            lemma_all_extend(vals, k, |x: SpecValue| int_within(x, -0x8000, 0x7fff));
            lemma_all_extend(vals, k, |x: SpecValue| int_within(x, -0x8000_0000, 0x7fff_ffff));
            lemma_all_extend(vals, k, |x: SpecValue| uint_within(x, 0xff));
            lemma_all_extend(vals, k, |x: SpecValue| uint_within(x, 0xffff));
            lemma_all_extend(vals, k, |x: SpecValue| uint_within(x, 0xffff_ffff));
            assert forall|j: int| 0 <= j < i + 1 implies is_numeric(#[trigger] vals[j]) by {
                if j == i {
                    assert(vals[j] == v);
                }
            }
        }
        i += 1;
    }
    if all_float {
        return Some(
            if f32_ok {
                ElementKind::F32
            } else {
                ElementKind::F64
            },
        );
    }
    if all_int {
        return Some(
            if fits_i8 {
                ElementKind::I8
            } else if fits_i16 {
                ElementKind::I16
            } else if fits_i32 {
                ElementKind::I32
            } else {
                ElementKind::I64
            },
        );
    }
    if all_uint {
        return Some(
            if fits_u8 {
                ElementKind::U8
            } else if fits_u16 {
                ElementKind::U16
            } else if fits_u32 {
                ElementKind::U32
            } else {
                ElementKind::U64
            },
        );
    }
    None
}

/// The packed bytes of one element of the given kind, least significant
/// first: a float as its binary32 or binary64 pattern, a signed integer in
/// two's complement, an unsigned one as it is.
pub open spec fn spec_element_bytes(v: SpecValue, kind: ElementKind) -> Seq<u8> {
    match kind {
        ElementKind::F32 => match v {
            SpecValue::Float(b) => spec_le_bytes(spec_f32_candidate(b) as nat, 4),
            _ => Seq::empty(),
        },
        ElementKind::F64 => match v {
            SpecValue::Float(b) => spec_le_bytes(b as nat, 8),
            _ => Seq::empty(),
        },
        ElementKind::I8 | ElementKind::I16 | ElementKind::I32 | ElementKind::I64 => match v {
            SpecValue::Int(n) => spec_le_bytes((n as u64) as nat, kind.spec_size()),
            _ => Seq::empty(),
        },
        _ => match v {
            SpecValue::Int(n) => spec_le_bytes((n as u64) as nat, kind.spec_size()),
            SpecValue::UInt(n) => spec_le_bytes(n as nat, kind.spec_size()),
            _ => Seq::empty(),
        },
    }
}

/// The packed bytes of a typed array's elements, one after another.
pub open spec fn spec_typed_array_payload(vals: Seq<SpecValue>, kind: ElementKind) -> Seq<u8>
    decreases vals.len(),
{
    if vals.len() == 0 {
        Seq::empty()
    } else {
        spec_typed_array_payload(vals.drop_last(), kind) + spec_element_bytes(vals.last(), kind)
    }
}

/// Append the `n` low-order bytes of `value`, least significant first.
fn push_le_bytes(out: &mut Vec<u8>, value: u64, n: usize)
    requires
        n <= 8,
    ensures
        final(out)@ == old(out)@ + spec_le_bytes(value as nat, n as nat),
{
    let mut cur = value;
    let mut i: usize = 0;
    while i < n
        invariant
            i <= n <= 8,
            old(out)@ + spec_le_bytes(value as nat, n as nat) == out@ + spec_le_bytes(
                cur as nat,
                (n - i) as nat,
            ),
        decreases n - i,
    {
        assert(cur & 0xff == cur % 256 && cur >> 8u64 == cur / 256) by (bit_vector);
        let b = (cur & 0xff) as u8;
        let ghost before = out@;
        out.push(b);
        assert(spec_le_bytes(cur as nat, (n - i) as nat) =~= seq![b] + spec_le_bytes(
            (cur / 256) as nat,
            (n - i - 1) as nat,
        ));
        assert(out@ + spec_le_bytes((cur / 256) as nat, (n - i - 1) as nat) =~= before
            + spec_le_bytes(cur as nat, (n - i) as nat));
        cur = cur >> 8u64;
        i += 1;
    }
    assert(out@ + spec_le_bytes(cur as nat, 0) =~= out@);
}

/// Encode the elements of an array into the packed bytes of a typed array of
/// the given kind.
pub fn encode_typed_array_data(arr: &[Value], kind: ElementKind) -> (r: Vec<u8>)
    requires
        spec_typed_array_kind(view_values(arr@)) == Some(kind),
    ensures
        r@ == spec_typed_array_payload(view_values(arr@), kind),
{
    let ghost vals = view_values(arr@);
    let size = kind.element_size();
    let mut data: Vec<u8> = Vec::new();
    let mut i: usize = 0;
    while i < arr.len()
        invariant
            vals == view_values(arr@),
            i <= arr@.len(),
            size == kind.spec_size(),
            data@ == spec_typed_array_payload(vals.take(i as int), kind),
        decreases arr@.len() - i,
    {
        let ghost before = data@;
        assert(arr@[i as int]@ == vals[i as int]);
        match (kind, &arr[i]) {
            (ElementKind::F32, Value::Float(b)) => push_le_bytes(&mut data, f32_candidate(*b) as u64, 4),
            (ElementKind::F64, Value::Float(b)) => push_le_bytes(&mut data, *b, 8),
            (ElementKind::I8, Value::Int(n)) | (ElementKind::I16, Value::Int(n)) | (
                ElementKind::I32,
                Value::Int(n),
            ) | (ElementKind::I64, Value::Int(n)) => push_le_bytes(&mut data, *n as u64, size),
            (ElementKind::U8, Value::Int(n)) | (ElementKind::U16, Value::Int(n)) | (
                ElementKind::U32,
                Value::Int(n),
            ) | (ElementKind::U64, Value::Int(n)) => push_le_bytes(&mut data, *n as u64, size),
            (ElementKind::U8, Value::UInt(n)) | (ElementKind::U16, Value::UInt(n)) | (
                ElementKind::U32,
                Value::UInt(n),
            ) | (ElementKind::U64, Value::UInt(n)) => push_le_bytes(&mut data, *n, size),
            _ => {},
        }
        proof {
            let t = vals.take(i + 1);
            assert(t.drop_last() =~= vals.take(i as int));
            assert(t.last() == vals[i as int]);
            assert(data@ =~= before + spec_element_bytes(vals[i as int], kind));
        }
        i += 1;
    }
    assert(vals.take(arr@.len() as int) =~= vals);
    data
}

} // verus!

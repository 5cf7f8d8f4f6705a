//! Reading indexed objects back: lookup, revalidation against the capture bytes, reference
//! resolution, scalar decoding and String text.
use vstd::prelude::*;
use crate::bytes::{le_value, mark_shape_ok, spec_aligned, aligned, word_at};
use crate::error::{Error, ErrorView, rview};
use crate::index::{Index, offsets_increase};
use crate::jstring::{spec_payload_text, payload_chars};
use crate::layout::{Class, ClassView, Layout, Object, spec_klass_width, klass_width, spec_generational, generational};
use crate::maps::{spec_translate, translate};
use crate::number::{number, spec_number};
use crate::references::{spec_gen_address, gen_address};
use crate::scanner::word_of;
use crate::text::{str_eq, string_from_chars};

verus! {

/// The index position of the object at `offset`, if any.
pub open spec fn object_at(objects: Seq<Object>, offset: u64) -> Option<int> {
    if exists|i: int| 0 <= i < objects.len() && #[trigger] objects[i].offset == offset {
        Some(choose|i: int| 0 <= i < objects.len() && #[trigger] objects[i].offset == offset)
    } else {
        None
    }
}

/// The indexed object at `offset` (offsets strictly increase in an index).
pub fn find_object(objects: &Vec<Object>, offset: u64) -> (r: Result<Object, Error>)
    requires
        offsets_increase(objects@),
    ensures
        match object_at(objects@, offset) {
            Some(i) => r == Ok::<Object, Error>(objects@[i]),
            None => r == Err::<Object, Error>(Error::NoIndexedObject(offset)),
        },
{
    let ghost v = objects@;
    proof {
        lemma_increasing(v);
    }
    let mut lo: usize = 0;
    let mut hi: usize = objects.len();
    while lo < hi
        invariant
            v == objects@,
            lo <= hi <= v.len(),
            forall|a: int, b: int| 0 <= a < b < v.len() ==> #[trigger] v[a].offset < #[trigger] v[b].offset,
            forall|k: int| 0 <= k < lo ==> (#[trigger] v[k]).offset < offset,
            forall|k: int| hi <= k < v.len() ==> (#[trigger] v[k]).offset > offset,
        decreases hi - lo,
    {
        let mid = lo + (hi - lo) / 2;
        let o = objects[mid];
        if o.offset == offset {
            proof {
                let i = choose|i: int| 0 <= i < v.len() && #[trigger] v[i].offset == offset;
                if i < mid {
                    assert(v[i].offset < v[mid as int].offset);
                } else if i > mid {
                    assert(v[mid as int].offset < v[i].offset);
                }
            }
            return Ok(o);
        } else if o.offset < offset {
            proof {
                assert forall|k: int| 0 <= k <= mid implies (#[trigger] v[k]).offset < offset by {
                    if k < mid {
                        assert(v[k].offset < v[mid as int].offset);
                    }
                }
            }
            lo = mid + 1;
        } else {
            proof {
                assert forall|k: int| mid <= k < v.len() implies (#[trigger] v[k]).offset > offset by {
                    if k > mid {
                        assert(v[mid as int].offset < v[k].offset);
                    }
                }
            }
            hi = mid;
        }
    }
    proof {
        assert forall|i: int| 0 <= i < v.len() implies #[trigger] v[i].offset != offset by {}
    }
    Err(Error::NoIndexedObject(offset))
}

proof fn lemma_increasing(v: Seq<Object>)
    requires
        offsets_increase(v),
    ensures
        forall|a: int, b: int| 0 <= a < b < v.len() ==> #[trigger] v[a].offset < #[trigger] v[b].offset,
{
    assert forall|a: int, b: int| 0 <= a < b < v.len() implies #[trigger] v[a].offset < #[trigger] v[b].offset by {
        lemma_chain(v, a, b);
    }
}

proof fn lemma_chain(v: Seq<Object>, a: int, b: int)
    requires
        offsets_increase(v),
        0 <= a < b < v.len(),
    ensures
        v[a].offset < v[b].offset,
    decreases b - a,
{
    if b > a + 1 {
        lemma_chain(v, a, b - 1);
    }
    assert(v[b - 1].offset < v[b].offset);
}

/// The object's class in the index's layout.
pub fn class_of<'a>(ix: &'a Index, o: &Object) -> (r: Result<&'a Class, Error>)
    ensures
        match ix.layout {
            Some(l) if o.class_id < l.classes@.len() => r matches Ok(c) && *c == l.classes@[o.class_id as int],
            _ => r == Err::<&Class, Error>(Error::ClassMissing),
        },
{
    match &ix.layout {
        Some(l) => {
            if o.class_id < l.classes.len() {
                Ok(&l.classes[o.class_id])
            } else {
                Err(Error::ClassMissing)
            }
        },
        None => Err(Error::ClassMissing),
    }
}

/// A read of `len` bytes at `rel` past an object, whose first capture bytes are `h`.
pub open spec fn readable(h: Seq<u8>, rel: int, len: int) -> bool {
    rel + len <= h.len()
}

/// Revalidates an indexed object against its capture bytes `h` (from the object's offset on,
/// at most 24): the class word, an array's length and size, the object's size, and the mark
/// word, each read inside the capture.
pub open spec fn spec_check_object(l: LayoutViewArg, o: Object, c: ClassView, h: Seq<u8>) -> Result<(), ErrorView> {
    let kw = spec_klass_width(l.profile) as int;
    if !readable(h, 8, kw) {
        Err(ErrorView::ReadOutOfBounds)
    } else {
        match spec_number(c.klass) {
            None => Err(ErrorView::InvalidNumber(c.klass)),
            Some(k) => if word_of(h, 8, kw) != k {
                Err(ErrorView::KlassMismatch)
            } else {
                let size: Result<u64, ErrorView> = if c.kind == "array"@ {
                    if !readable(h, c.length_offset as int, 4) {
                        Err(ErrorView::ReadOutOfBounds)
                    } else {
                        let len = word_of(h, c.length_offset as int, 4) as u64;
                        if len > 0x7fff_ffff || o.length != Some(len) {
                            Err(ErrorView::LengthMismatch)
                        } else if len * c.scale + c.base > u64::MAX || spec_aligned((len * c.scale + c.base) as u64) is None {
                            Err(ErrorView::ArraySizeOverflow)
                        } else {
                            Ok(spec_aligned((len * c.scale + c.base) as u64)->0)
                        }
                    }
                } else {
                    Ok(c.size)
                };
                match size {
                    Err(e) => Err(e),
                    Ok(s) => if s != o.size {
                        Err(ErrorView::SizeMismatch)
                    } else if !mark_shape_ok(word_of(h, 0, 8)) {
                        Err(ErrorView::UnsupportedMark)
                    } else {
                        Ok(())
                    },
                }
            },
        }
    }
}

/// What [`spec_check_object`] needs of a layout.
pub struct LayoutViewArg {
    pub profile: Seq<char>,
}

/// Revalidates an indexed object (see [`spec_check_object`]); `h` holds the capture bytes
/// from the object's offset on, at most 24 of them.
pub fn check_object(l: &Layout, o: &Object, c: &Class, h: &[u8]) -> (r: Result<(), Error>)
    requires
        h@.len() <= 24,
        c.length_offset <= 20,
    ensures
        rview(r) == spec_check_object(LayoutViewArg { profile: l.profile@ }, *o, c@, h@),
{
    let kw = klass_width(l);
    if 8 + kw > h.len() {
        return Err(Error::ReadOutOfBounds);
    }
    let klass = number(c.klass.as_str())?;
    if word_at(h, 8, kw) != klass {
        return Err(Error::KlassMismatch);
    }
    let size = if str_eq(c.kind.as_str(), "array") {
        let lo = c.length_offset as usize;
        if lo + 4 > h.len() {
            return Err(Error::ReadOutOfBounds);
        }
        let len = word_at(h, lo, 4);
        if len > 0x7fff_ffff || o.length != Some(len) {
            return Err(Error::LengthMismatch);
        }
        let total = match len.checked_mul(c.scale) {
            Some(m) => m.checked_add(c.base),
            None => None,
        };
        let total = match total {
            Some(t) => t,
            None => {
                proof {
                    if len * c.scale <= u64::MAX {
                        assert(len * c.scale + c.base > u64::MAX);
                    } else {
                        assert(len * c.scale + c.base > u64::MAX);
                    }
                }
                return Err(Error::ArraySizeOverflow);
            },
        };
        match aligned(total) {
            Some(s) => s,
            None => {
                return Err(Error::ArraySizeOverflow);
            },
        }
    } else {
        c.size
    };
    if size != o.size {
        return Err(Error::SizeMismatch);
    }
    let mark = word_at(h, 0, 8);
    assert(mark & 3 == mark % 4) by (bit_vector);
    assert((mark >> 40u64 == 0) == (mark < 0x100_0000_0000)) by (bit_vector);
    if !(mark & 3 == 1 && mark >> 40u64 == 0) {
        return Err(Error::UnsupportedMark);
    }
    Ok(())
}

/// The capture offset a reference denotes: none with identity mapping; otherwise the
/// (uncolored, for generational layouts) address translated through the mappings.
pub open spec fn spec_reference_target(ix: &Index, raw: u64) -> Option<u64> {
    if ix.identity_mapping {
        None
    } else {
        let address = match ix.layout {
            Some(l) if spec_generational(l.profile@) => spec_gen_address(raw, l.architecture@),
            _ => Some(raw),
        };
        match address {
            None => None,
            Some(a) => spec_translate(ix.mappings@, a),
        }
    }
}

pub fn reference_target(ix: &Index, raw: u64) -> (r: Option<u64>)
    requires
        crate::maps::well_formed_maps(ix.mappings@),
        crate::maps::sorted_by_start(ix.mappings@),
    ensures
        r == spec_reference_target(ix, raw),
        ix.identity_mapping ==> r is None,
{
    if ix.identity_mapping {
        return None;
    }
    let address = match &ix.layout {
        Some(l) => if generational(l) {
            gen_address(raw, l.architecture.as_str())
        } else {
            Some(raw)
        },
        None => Some(raw),
    };
    match address {
        None => None,
        Some(a) => translate(ix.mappings.as_slice(), a),
    }
}

/// A decoded scalar field or array element.
#[derive(Debug, Clone, Copy, PartialEq, Eq)]
pub enum Scalar {
    Boolean { value: bool, valid: bool },
    Byte(i8),
    Short(i16),
    Char(u16),
    Int(i32),
    Long(i64),
    /// The IEEE-754 bits of a `float`.
    Float(u32),
    /// The IEEE-754 bits of a `double`.
    Double(u64),
    /// A raw reference word.
    Reference(u64),
}

/// The scalar of a Java type from its little-endian value.
pub open spec fn spec_scalar(kind: Seq<char>, value: u64) -> Option<Scalar> {
    if kind == "boolean"@ {
        Some(Scalar::Boolean { value: value != 0, valid: value <= 1 })
    } else if kind == "byte"@ {
        Some(Scalar::Byte(value as u8 as i8))
    } else if kind == "short"@ {
        Some(Scalar::Short(value as u16 as i16))
    } else if kind == "char"@ {
        Some(Scalar::Char(value as u16))
    } else if kind == "int"@ {
        Some(Scalar::Int(value as u32 as i32))
    } else if kind == "long"@ {
        Some(Scalar::Long(value as i64))
    } else if kind == "float"@ {
        Some(Scalar::Float(value as u32))
    } else if kind == "double"@ {
        Some(Scalar::Double(value))
    } else if kind == "reference"@ {
        Some(Scalar::Reference(value))
    } else {
        None
    }
}

/// Decodes a scalar (see [`spec_scalar`]).
pub fn scalar(kind: &str, value: u64) -> (r: Result<Scalar, Error>)
    ensures
        match spec_scalar(kind@, value) {
            Some(s) => r == Ok::<Scalar, Error>(s),
            None => r == Err::<Scalar, Error>(Error::UnknownScalar),
        },
{
    if str_eq(kind, "boolean") {
        Ok(Scalar::Boolean { value: value != 0, valid: value <= 1 })
    } else if str_eq(kind, "byte") {
        Ok(Scalar::Byte(value as u8 as i8))
    } else if str_eq(kind, "short") {
        Ok(Scalar::Short(value as u16 as i16))
    } else if str_eq(kind, "char") {
        Ok(Scalar::Char(value as u16))
    } else if str_eq(kind, "int") {
        Ok(Scalar::Int(value as u32 as i32))
    } else if str_eq(kind, "long") {
        Ok(Scalar::Long(value as i64))
    } else if str_eq(kind, "float") {
        Ok(Scalar::Float(value as u32))
    } else if str_eq(kind, "double") {
        Ok(Scalar::Double(value))
    } else if str_eq(kind, "reference") {
        Ok(Scalar::Reference(value))
    } else {
        Err(Error::UnknownScalar)
    }
}

/// The offset of the first field named `name`.
pub open spec fn field_offset(c: ClassView, name: Seq<char>) -> Option<u64>
    decreases c.fields.len(),
{
    if c.fields.len() == 0 {
        None
    } else if c.fields[0].name == name {
        Some(c.fields[0].offset)
    } else {
        field_offset(ClassView { fields: c.fields.drop_first(), ..c }, name)
    }
}

fn find_field(c: &Class, name: &str) -> (r: Option<u64>)
    ensures
        r == field_offset(c@, name@),
{
    let mut i: usize = 0;
    let ghost cv = c@;
    assert(cv.fields.skip(0) =~= cv.fields);
    while i < c.fields.len()
        invariant
            cv == c@,
            i <= c.fields@.len(),
            field_offset(cv, name@) == field_offset(ClassView { fields: cv.fields.skip(i as int), ..cv }, name@),
        decreases c.fields@.len() - i,
    {
        let ghost rest = ClassView { fields: cv.fields.skip(i as int), ..cv };
        assert(rest.fields[0] == c.fields@[i as int]@);
        assert(rest.fields.drop_first() =~= cv.fields.skip(i + 1));
        if str_eq(c.fields[i].name.as_str(), name) {
            return Some(c.fields[i].offset);
        }
        i = i + 1;
    }
    None
}

/// The offsets of a String class's `value` and `coder` fields.
pub fn string_fields(c: &Class) -> (r: Result<(u64, u64), Error>)
    ensures
        match (field_offset(c@, "value"@), field_offset(c@, "coder"@)) {
            (Some(v), Some(k)) => r == Ok::<(u64, u64), Error>((v, k)),
            _ => r == Err::<(u64, u64), Error>(Error::StringFieldMissing),
        },
{
    let v = find_field(c, "value");
    let k = find_field(c, "coder");
    match (v, k) {
        (Some(v), Some(k)) => Ok((v, k)),
        _ => Err(Error::StringFieldMissing),
    }
}

/// How many payload bytes a String preview reads.
pub open spec fn preview_len(length: u64) -> u64 {
    if length < 512 { length } else { 512 }
}

/// A String's text from its coder, array length and first `preview_len(length)` payload
/// bytes: Latin-1 or lossy UTF-16 (even lengths only), with `…` appended when cut.
pub open spec fn spec_string_text(coder: u64, length: u64, bytes: Seq<u8>) -> Result<Seq<char>, ErrorView> {
    if coder == 0 || (coder == 1 && length % 2 == 0) {
        let t = spec_payload_text(bytes, coder as u8).0;
        Ok(if length > 512 { t.push('\u{2026}') } else { t })
    } else {
        Err(ErrorView::InvalidStringCoder)
    }
}

pub fn string_text(coder: u64, length: u64, bytes: &[u8]) -> (r: Result<String, Error>)
    ensures
        match spec_string_text(coder, length, bytes@) {
            Ok(t) => r matches Ok(s) && s@ == t,
            Err(e) => rview(r) == Err::<String, ErrorView>(e),
        },
{
    if !(coder == 0 || (coder == 1 && length % 2 == 0)) {
        return Err(Error::InvalidStringCoder);
    }
    let (mut chars, _) = payload_chars(bytes, coder as u8);
    if length > 512 {
        chars.push('\u{2026}');
    }
    Ok(string_from_chars(chars.as_slice()))
}

/// Where an array's payload starts and how many bytes it holds: only for primitive arrays
/// with a length whose byte size does not overflow.
pub open spec fn spec_extract_plan(o: Object, c: ClassView) -> Result<(u64, u64), ErrorView> {
    if c.kind != "array"@ || c.element == "reference"@ {
        Err(ErrorView::NotPrimitiveArray)
    } else {
        match o.length {
            None => Err(ErrorView::MissingArrayLength),
            Some(len) => if len * c.scale > u64::MAX {
                Err(ErrorView::PayloadOverflow)
            } else {
                Ok(((o.offset + c.base) as u64, (len * c.scale) as u64))
            },
        }
    }
}

pub fn extract_plan(o: &Object, c: &Class) -> (r: Result<(u64, u64), Error>)
    requires
        o.offset + c.base <= u64::MAX,
    ensures
        rview(r) == spec_extract_plan(*o, c@),
{
    if !str_eq(c.kind.as_str(), "array") || str_eq(c.element.as_str(), "reference") {
        return Err(Error::NotPrimitiveArray);
    }
    let len = match o.length {
        None => {
            return Err(Error::MissingArrayLength);
        },
        Some(len) => len,
    };
    match len.checked_mul(c.scale) {
        None => Err(Error::PayloadOverflow),
        Some(n) => Ok((o.offset + c.base, n)),
    }
}


/// What a reference field shows: its target, and its color bits under the layout's generation.
#[derive(Debug, Clone, Copy, PartialEq, Eq)]
pub struct ReferenceView {
    pub raw: u64,
    pub target: Option<u64>,
    pub generational: bool,
    /// Generational: the uncolored address, when the colors decode.
    pub uncolored: Option<u64>,
    /// Generational: the low 16 bits; otherwise bits 42..45.
    pub color_bits: u64,
    /// Non-generational: the word without bits 42..45 (a diagnostic, not an offset).
    pub masked_oop: Option<u64>,
}

/// A reference word's view; `None` for null (zero, or no address bits when generational).
pub open spec fn spec_reference_view(ix: &Index, raw: u64) -> Option<ReferenceView> {
    let generational = ix.layout matches Some(l) && spec_generational(l.profile@);
    if raw == 0 || (generational && raw >> 16u64 == 0) {
        None
    } else {
        Some(ReferenceView {
            raw,
            target: spec_reference_target(ix, raw),
            generational,
            uncolored: if generational { spec_gen_address(raw, ix.layout->0.architecture@) } else { None },
            color_bits: if generational { raw & 0xffffu64 } else { raw & 0x3c0_0000_0000u64 },
            masked_oop: if generational { None } else { Some(raw & !0x3c0_0000_0000u64) },
        })
    }
}

pub fn reference_view(ix: &Index, raw: u64) -> (r: Option<ReferenceView>)
    requires
        crate::maps::well_formed_maps(ix.mappings@),
        crate::maps::sorted_by_start(ix.mappings@),
    ensures
        r == spec_reference_view(ix, raw),
{
    let (generational, arch) = match &ix.layout {
        Some(l) => (generational(l), l.architecture.as_str()),
        None => (false, ""),
    };
    if raw == 0 || (generational && raw >> 16u64 == 0) {
        return None;
    }
    let target = reference_target(ix, raw);
    Some(ReferenceView {
        raw,
        target,
        generational,
        uncolored: if generational { gen_address(raw, arch) } else { None },
        color_bits: if generational { raw & 0xffffu64 } else { raw & 0x3c0_0000_0000u64 },
        masked_oop: if generational { None } else { Some(raw & !0x3c0_0000_0000u64) },
    })
}

/// The elements of an array object that `show` previews: at most 64.
pub const PREVIEW_ELEMENTS: u64 = 64;

/// What `show` reports of an array object's payload.
#[derive(Debug)]
pub struct ArrayPreview {
    /// The capture offsets of the previewed elements, in order.
    pub element_offsets: Vec<u64>,
    /// More elements exist than are previewed.
    pub truncated: bool,
    pub payload_offset: u64,
    pub payload_bytes: u64,
}

/// The payload of an array object of class `c`: the offsets of its first (at most 64)
/// elements, whether more exist, where the payload starts and how many bytes it has.
/// Refuses a missing length, and a payload whose end does not fit in 64 bits.
pub fn array_preview(o: &Object, c: &Class) -> (r: Result<ArrayPreview, Error>)
    ensures
        o.length is None ==> r == Err::<ArrayPreview, Error>(Error::MissingArrayLength),
        o.length matches Some(len) ==> {
            if o.offset + c.base + len * c.scale > u64::MAX {
                r == Err::<ArrayPreview, Error>(Error::PayloadOverflow)
            } else {
                let n = if len < PREVIEW_ELEMENTS { len } else { PREVIEW_ELEMENTS };
                r matches Ok(p) && {
                    &&& p.element_offsets@.len() == n
                    &&& forall|i: int| 0 <= i < n ==> #[trigger] p.element_offsets@[i] == o.offset + c.base + i * c.scale
                    &&& p.truncated == (len > PREVIEW_ELEMENTS)
                    &&& p.payload_offset == o.offset + c.base
                    &&& p.payload_bytes == len * c.scale
                }
            }
        },
{
    let len = match o.length {
        None => {
            return Err(Error::MissingArrayLength);
        },
        Some(len) => len,
    };
    let bytes = match len.checked_mul(c.scale) {
        None => {
            assert(len * c.scale > u64::MAX);
            assert(o.offset + c.base + len * c.scale > u64::MAX) by (nonlinear_arith)
                requires len * c.scale > u64::MAX;
            return Err(Error::PayloadOverflow);
        },
        Some(b) => b,
    };
    let start = match o.offset.checked_add(c.base) {
        None => {
            return Err(Error::PayloadOverflow);
        },
        Some(s) => s,
    };
    if start.checked_add(bytes).is_none() {
        return Err(Error::PayloadOverflow);
    }
    let n = if len < PREVIEW_ELEMENTS { len } else { PREVIEW_ELEMENTS };
    let mut offsets: Vec<u64> = Vec::new();
    let mut i: u64 = 0;
    while i < n
        invariant
            n <= len,
            i <= n,
            bytes == len * c.scale,
            start == o.offset + c.base,
            start + bytes <= u64::MAX,
            offsets@.len() == i,
            forall|k: int| 0 <= k < i ==> #[trigger] offsets@[k] == o.offset + c.base + k * c.scale,
        decreases n - i,
    {
        assert(i * c.scale <= len * c.scale) by (nonlinear_arith)
            requires i < len;
        offsets.push(start + i * c.scale);
        i = i + 1;
    }
    Ok(ArrayPreview { element_offsets: offsets, truncated: len > PREVIEW_ELEMENTS, payload_offset: start, payload_bytes: bytes })
}

/// Law: an extraction plan starts at the array's payload (object offset plus the class's
/// payload base) and spans exactly length times element-scale bytes; it exists exactly for
/// primitive arrays with a length whose byte count fits in 64 bits.
pub proof fn law_extract_plan_spans_payload(o: Object, c: ClassView)
    requires
        o.offset + c.base <= u64::MAX,
    ensures
        spec_extract_plan(o, c) matches Ok((start, n)) ==> {
            &&& o.length is Some
            &&& start == o.offset + c.base
            &&& n == o.length->0 * c.scale
        },
        spec_extract_plan(o, c) is Ok <==> (c.kind == "array"@ && c.element != "reference"@ && o.length is Some
            && o.length->0 * c.scale <= u64::MAX),
{
}

} // verus!

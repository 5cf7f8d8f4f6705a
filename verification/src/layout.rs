//! Class layouts, memory mappings and indexed objects, with layout validation.
use vstd::prelude::*;
use vstd::utf8::encode_utf8;
use vstd::string::StringSliceAdditionalSpecFns;
use crate::error::{Error, ErrorView, rview};
use crate::number::{number, spec_number};
use crate::text::{occurs_at, seq_contains, str_contains, str_eq, str_starts_with};

verus! {

/// Scanner buffer size; also the largest instance a layout may describe.
pub const CHUNK: usize = 1048576;

/// The default profile: non-generational ZGC with uncompressed class pointers.
pub const PROFILE: &'static str = "hotspot21-zgc-nongen-uncompressed-le64";

/// A field of an instance class.
#[derive(Debug)]
pub struct Field {
    pub name: String,
    pub offset: u64,
    /// The Java type: a primitive name or `reference`.
    pub field_type: String,
}

/// A class description: an instance with fields, or a primitive/reference array.
#[derive(Debug)]
pub struct Class {
    pub name: String,
    /// The class identity (`Klass*` or `narrowKlass`), decimal or `0x` hexadecimal.
    pub klass: String,
    /// `instance` or `array`.
    pub kind: String,
    pub size: u64,
    pub fields: Vec<Field>,
    pub element: String,
    pub base: u64,
    pub scale: u64,
    pub length_offset: u64,
}

/// A capture's layout description.
#[derive(Debug)]
pub struct Layout {
    pub version: u32,
    pub profile: String,
    pub java: String,
    pub architecture: String,
    pub classes: Vec<Class>,
}

/// A readable virtual mapping of the heap backing file.
#[derive(Debug, Clone, Copy, PartialEq, Eq)]
pub struct Mapping {
    pub start: u64,
    pub end: u64,
    pub offset: u64,
}

/// An indexed object candidate.
#[derive(Debug, Clone, Copy, PartialEq, Eq)]
pub struct Object {
    pub offset: u64,
    pub size: u64,
    pub class_id: usize,
    pub length: Option<u64>,
}

/// The mathematical form of a [`Field`].
pub struct FieldView {
    pub name: Seq<char>,
    pub offset: u64,
    pub field_type: Seq<char>,
}

/// The mathematical form of a [`Class`].
pub struct ClassView {
    pub name: Seq<char>,
    pub klass: Seq<char>,
    pub kind: Seq<char>,
    pub size: u64,
    pub fields: Seq<FieldView>,
    pub element: Seq<char>,
    pub base: u64,
    pub scale: u64,
    pub length_offset: u64,
}

/// The mathematical form of a [`Layout`].
pub struct LayoutView {
    pub version: u32,
    pub profile: Seq<char>,
    pub java: Seq<char>,
    pub architecture: Seq<char>,
    pub classes: Seq<ClassView>,
}

impl View for Field {
    type V = FieldView;

    open spec fn view(&self) -> FieldView {
        FieldView { name: self.name@, offset: self.offset, field_type: self.field_type@ }
    }
}

impl View for Class {
    type V = ClassView;

    open spec fn view(&self) -> ClassView {
        ClassView {
            name: self.name@,
            klass: self.klass@,
            kind: self.kind@,
            size: self.size,
            fields: self.fields@.map_values(|f: Field| f@),
            element: self.element@,
            base: self.base,
            scale: self.scale,
            length_offset: self.length_offset,
        }
    }
}

impl View for Layout {
    type V = LayoutView;

    open spec fn view(&self) -> LayoutView {
        LayoutView {
            version: self.version,
            profile: self.profile@,
            java: self.java@,
            architecture: self.architecture@,
            classes: self.classes@.map_values(|c: Class| c@),
        }
    }
}

/// The number of UTF-8 bytes that a text occupies.
pub open spec fn utf8_len(s: Seq<char>) -> nat {
    encode_utf8(s).len()
}

/// The names of the supported profiles.
pub open spec fn supported_profile(p: Seq<char>) -> bool {
    ||| p == PROFILE@
    ||| p == "hotspot21-zgc-nongen-compressedklass-le64"@
    ||| p == "hotspot21-zgc-gen-uncompressed-le64"@
    ||| p == "hotspot21-zgc-gen-compressedklass-le64"@
}

/// A profile with compressed (4-byte) class pointers.
pub open spec fn spec_compressed(profile: Seq<char>) -> bool {
    seq_contains(profile, "-compressedklass-"@)
}

/// A generational ZGC profile.
pub open spec fn spec_generational(profile: Seq<char>) -> bool {
    seq_contains(profile, "-gen-"@)
}

/// Width of the class word in the object header.
pub open spec fn spec_klass_width(profile: Seq<char>) -> u64 {
    if spec_compressed(profile) {
        4
    } else {
        8
    }
}

/// Offset of an array's 32-bit length.
pub open spec fn spec_length_offset(profile: Seq<char>) -> u64 {
    if spec_compressed(profile) {
        12
    } else {
        16
    }
}

/// Offset of an array's first element.
pub open spec fn spec_array_base(profile: Seq<char>) -> u64 {
    if spec_compressed(profile) {
        16
    } else {
        24
    }
}

/// Smallest field offset: the end of the header.
pub open spec fn spec_header_end(profile: Seq<char>) -> u64 {
    if spec_compressed(profile) {
        12
    } else {
        16
    }
}

pub fn compressed(layout: &Layout) -> (r: bool)
    ensures
        r == spec_compressed(layout.profile@),
{
    str_contains(layout.profile.as_str(), "-compressedklass-")
}

pub fn generational(layout: &Layout) -> (r: bool)
    ensures
        r == spec_generational(layout.profile@),
{
    str_contains(layout.profile.as_str(), "-gen-")
}

pub fn klass_width(layout: &Layout) -> (r: usize)
    ensures
        r == spec_klass_width(layout.profile@),
{
    if compressed(layout) {
        4
    } else {
        8
    }
}

pub fn length_offset(layout: &Layout) -> (r: usize)
    ensures
        r == spec_length_offset(layout.profile@),
{
    if compressed(layout) {
        12
    } else {
        16
    }
}

/// The byte width of a Java field or element type.
pub open spec fn spec_width(kind: Seq<char>) -> Option<u64> {
    if kind == "boolean"@ || kind == "byte"@ {
        Some(1)
    } else if kind == "char"@ || kind == "short"@ {
        Some(2)
    } else if kind == "int"@ || kind == "float"@ {
        Some(4)
    } else if kind == "long"@ || kind == "double"@ || kind == "reference"@ {
        Some(8)
    } else {
        None
    }
}

pub fn width(kind: &str) -> (r: Result<u64, Error>)
    ensures
        rview(r) == match spec_width(kind@) {
            Some(w) => Ok::<u64, ErrorView>(w),
            None => Err(ErrorView::UnsupportedFieldType(kind@)),
        },
{
    if str_eq(kind, "boolean") || str_eq(kind, "byte") {
        Ok(1)
    } else if str_eq(kind, "char") || str_eq(kind, "short") {
        Ok(2)
    } else if str_eq(kind, "int") || str_eq(kind, "float") {
        Ok(4)
    } else if str_eq(kind, "long") || str_eq(kind, "double") || str_eq(kind, "reference") {
        Ok(8)
    } else {
        Err(Error::UnsupportedFieldType(kind.to_owned()))
    }
}

/// Version, profile, JDK label and architecture of a layout are supported.
pub open spec fn spec_header_ok(l: LayoutView) -> bool {
    &&& l.version == 1
    &&& supported_profile(l.profile)
    &&& occurs_at(l.java, "21."@, 0)
    &&& (l.architecture == "amd64"@ || l.architecture == "aarch64"@ || (l.architecture
        == "unspecified"@ && l.java == "21.0-template"@))
}

/// The checks of one field of an instance class of size `size`.
pub open spec fn spec_field_check(profile: Seq<char>, size: u64, f: FieldView) -> Result<(), ErrorView> {
    if utf8_len(f.name) > 1024 || f.offset < spec_header_end(profile) {
        Err(ErrorView::FieldOutsideInstance)
    } else {
        match spec_width(f.field_type) {
            None => Err(ErrorView::UnsupportedFieldType(f.field_type)),
            Some(w) => if f.offset + w > u64::MAX || f.offset + w > size {
                Err(ErrorView::FieldOutsideInstance)
            } else {
                Ok(())
            },
        }
    }
}

/// The first failing check among the first `n` fields.
pub open spec fn spec_fields_check(profile: Seq<char>, size: u64, fields: Seq<FieldView>, n: nat) -> Result<(), ErrorView>
    decreases n,
{
    if n == 0 {
        Ok(())
    } else {
        match spec_fields_check(profile, size, fields, (n - 1) as nat) {
            Err(e) => Err(e),
            Ok(()) => spec_field_check(profile, size, fields[n - 1]),
        }
    }
}

/// The checks that depend on a class's kind.
pub open spec fn spec_kind_check(profile: Seq<char>, c: ClassView) -> Result<(), ErrorView> {
    if c.kind == "array"@ {
        if c.length_offset != spec_length_offset(profile) || c.base != spec_array_base(profile) {
            Err(ErrorView::UnsupportedArrayLayout)
        } else {
            match spec_width(c.element) {
                None => Err(ErrorView::UnsupportedFieldType(c.element)),
                Some(w) => if c.scale != w || c.fields.len() != 0 {
                    Err(ErrorView::UnsupportedArrayLayout)
                } else {
                    Ok(())
                },
            }
        }
    } else if c.kind == "instance"@ {
        if c.size < 16 || c.size > CHUNK || c.size % 8 != 0 {
            Err(ErrorView::InvalidInstanceSize)
        } else {
            spec_fields_check(profile, c.size, c.fields, c.fields.len())
        }
    } else {
        Err(ErrorView::UnknownClassKind)
    }
}

/// The checks of class `i`, given that the classes before it passed.
pub open spec fn spec_class_check(l: LayoutView, i: int) -> Result<(), ErrorView> {
    let c = l.classes[i];
    let narrow = spec_compressed(l.profile);
    match spec_number(c.klass) {
        None => Err(ErrorView::InvalidNumber(c.klass)),
        Some(k) => if k == 0 || (narrow && k > u32::MAX) || (!narrow && k % 8 != 0) || exists|j: int|
            0 <= j < i && spec_number(#[trigger] l.classes[j].klass) == Some(k) {
            Err(ErrorView::InvalidClassIdentity)
        } else if utf8_len(c.name) > 1024 || c.fields.len() > 512 {
            Err(ErrorView::ClassLimits)
        } else {
            spec_kind_check(l.profile, c)
        },
    }
}

/// The first failing check among the first `n` classes.
pub open spec fn spec_classes_check(l: LayoutView, n: nat) -> Result<(), ErrorView>
    decreases n,
{
    if n == 0 {
        Ok(())
    } else {
        match spec_classes_check(l, (n - 1) as nat) {
            Err(e) => Err(e),
            Ok(()) => spec_class_check(l, n - 1),
        }
    }
}

/// Whether a layout is supported: header checks, then 1..2048 classes, each with a valid,
/// distinct identity and a layout consistent with the profile.
pub open spec fn spec_validate_layout(l: LayoutView) -> Result<(), ErrorView> {
    if !spec_header_ok(l) {
        Err(ErrorView::UnsupportedLayout)
    } else if l.classes.len() == 0 || l.classes.len() > 2048 {
        Err(ErrorView::ClassCount)
    } else {
        spec_classes_check(l, l.classes.len())
    }
}

proof fn lemma_fields_err_stays(profile: Seq<char>, size: u64, fields: Seq<FieldView>, n: nat, m: nat)
    requires
        n <= m,
        spec_fields_check(profile, size, fields, n) is Err,
    ensures
        spec_fields_check(profile, size, fields, m) == spec_fields_check(profile, size, fields, n),
    decreases m,
{
    if n < m {
        lemma_fields_err_stays(profile, size, fields, n, (m - 1) as nat);
    }
}

pub(crate) proof fn lemma_classes_err_stays(l: LayoutView, n: nat, m: nat)
    requires
        n <= m,
        spec_classes_check(l, n) is Err,
    ensures
        spec_classes_check(l, m) == spec_classes_check(l, n),
    decreases m,
{
    if n < m {
        lemma_classes_err_stays(l, n, (m - 1) as nat);
    }
}

fn check_fields(layout: &Layout, c: &Class) -> (r: Result<(), Error>)
    ensures
        rview(r) == spec_fields_check(layout.profile@, c.size, c@.fields, c@.fields.len()),
{
    let header_end: u64 = if compressed(layout) {
        12
    } else {
        16
    };
    let n = c.fields.len();
    let mut i: usize = 0;
    while i < n
        invariant
            n == c.fields@.len(),
            i <= n,
            header_end == spec_header_end(layout.profile@),
            spec_fields_check(layout.profile@, c.size, c@.fields, i as nat) == Ok::<(), ErrorView>(()),
        decreases n - i,
    {
        let f = &c.fields[i];
        assert(c@.fields[i as int] == c.fields@[i as int]@);
        let ghost expect = spec_field_check(layout.profile@, c.size, c@.fields[i as int]);
        assert(spec_fields_check(layout.profile@, c.size, c@.fields, (i + 1) as nat) == expect);
        let nm = f.name.as_str();
        assert(nm.spec_bytes().len() == utf8_len(f.name@));
        let failed: Option<Error> = if nm.as_bytes().len() > 1024 || f.offset < header_end {
            Some(Error::FieldOutsideInstance)
        } else {
            match width(f.field_type.as_str()) {
                Err(e) => Some(e),
                Ok(w) => match f.offset.checked_add(w) {
                    None => Some(Error::FieldOutsideInstance),
                    Some(end) => if end > c.size {
                        Some(Error::FieldOutsideInstance)
                    } else {
                        None
                    },
                },
            }
        };
        assert(match failed {
            Some(e) => expect == Err::<(), ErrorView>(e@),
            None => expect == Ok::<(), ErrorView>(()),
        });
        match failed {
            Some(e) => {
                proof {
                    lemma_fields_err_stays(layout.profile@, c.size, c@.fields, (i + 1) as nat, n as nat);
                }
                return Err(e);
            },
            None => {},
        }
        i = i + 1;
    }
    Ok(())
}

fn check_kind(layout: &Layout, c: &Class) -> (r: Result<(), Error>)
    ensures
        rview(r) == spec_kind_check(layout.profile@, c@),
{
    if str_eq(c.kind.as_str(), "array") {
        let base: u64 = if compressed(layout) {
            16
        } else {
            24
        };
        if c.length_offset != length_offset(layout) as u64 || c.base != base {
            return Err(Error::UnsupportedArrayLayout);
        }
        let w = width(c.element.as_str())?;
        if c.scale != w || c.fields.len() != 0 {
            return Err(Error::UnsupportedArrayLayout);
        }
        Ok(())
    } else if str_eq(c.kind.as_str(), "instance") {
        if c.size < 16 || c.size > CHUNK as u64 || c.size % 8 != 0 {
            return Err(Error::InvalidInstanceSize);
        }
        check_fields(layout, c)
    } else {
        Err(Error::UnknownClassKind)
    }
}

/// Refuses unsupported layouts (see [`spec_validate_layout`]).
pub fn validate_layout(layout: &Layout) -> (r: Result<(), Error>)
    ensures
        rview(r) == spec_validate_layout(layout@),
{
    let arch = layout.architecture.as_str();
    let java = layout.java.as_str();
    let profile = layout.profile.as_str();
    let profile_ok = str_eq(profile, PROFILE) || str_eq(profile, "hotspot21-zgc-nongen-compressedklass-le64")
        || str_eq(profile, "hotspot21-zgc-gen-uncompressed-le64") || str_eq(profile, "hotspot21-zgc-gen-compressedklass-le64");
    if layout.version != 1 || !profile_ok || !str_starts_with(java, "21.") || !(str_eq(arch, "amd64")
        || str_eq(arch, "aarch64") || (str_eq(arch, "unspecified") && str_eq(java, "21.0-template"))) {
        return Err(Error::UnsupportedLayout);
    }
    let n = layout.classes.len();
    if n == 0 || n > 2048 {
        return Err(Error::ClassCount);
    }
    let narrow = compressed(layout);
    let mut seen: Vec<u64> = Vec::new();
    let mut i: usize = 0;
    while i < n
        invariant
            n == layout.classes@.len(),
            i <= n,
            narrow == spec_compressed(layout.profile@),
            0 < n <= 2048,
            seen@.len() == i,
            forall|j: int| 0 <= j < i ==> spec_number(#[trigger] layout@.classes[j].klass) == Some(seen@[j]),
            spec_classes_check(layout@, i as nat) == Ok::<(), ErrorView>(()),
            spec_header_ok(layout@),
        decreases n - i,
    {
        let c = &layout.classes[i];
        assert(layout@.classes[i as int] == layout.classes@[i as int]@);
        let ghost expect = spec_class_check(layout@, i as int);
        assert(spec_classes_check(layout@, (i + 1) as nat) == expect);
        let klass = match number(c.klass.as_str()) {
            Ok(k) => k,
            Err(e) => {
                assert(expect == Err::<(), ErrorView>(e@));
                proof {
                    lemma_classes_err_stays(layout@, (i + 1) as nat, n as nat);
                }
                return Err(e);
            },
        };
        let mut duplicate = false;
        let mut j: usize = 0;
        while j < i
            invariant
                i == seen@.len(),
                j <= i,
                duplicate == exists|k: int| 0 <= k < j && seen@[k] == klass,
            decreases i - j,
        {
            if seen[j] == klass {
                duplicate = true;
            }
            j = j + 1;
        }
        assert(duplicate == exists|k: int| 0 <= k < i && spec_number(#[trigger] layout@.classes[k].klass) == Some(klass)) by {
            if duplicate {
                let k = choose|k: int| 0 <= k < i && seen@[k] == klass;
                assert(spec_number(layout@.classes[k].klass) == Some(klass));
            }
        }
        let cname = c.name.as_str();
        assert(cname.spec_bytes().len() == utf8_len(c.name@));
        let failed: Option<Error> = if klass == 0 || (narrow && klass > 0xffff_ffffu64) || (!narrow && klass % 8 != 0) || duplicate {
            Some(Error::InvalidClassIdentity)
        } else if cname.as_bytes().len() > 1024 || c.fields.len() > 512 {
            Some(Error::ClassLimits)
        } else {
            match check_kind(layout, c) {
                Ok(()) => None,
                Err(e) => Some(e),
            }
        };
        assert(match failed {
            Some(e) => expect == Err::<(), ErrorView>(e@),
            None => expect == Ok::<(), ErrorView>(()),
        });
        match failed {
            Some(e) => {
                proof {
                    lemma_classes_err_stays(layout@, (i + 1) as nat, n as nat);
                }
                return Err(e);
            },
            None => {},
        }
        seen.push(klass);
        i = i + 1;
    }
    Ok(())
}

} // verus!

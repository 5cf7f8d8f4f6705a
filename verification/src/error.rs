//! The reasons for which the library refuses an input.
use vstd::prelude::*;

verus! {

/// Why an operation was refused. Each variant stands for one refusal of the reader.
#[derive(Debug, PartialEq, Eq)]
pub enum Error {
    /// A decimal or `0x` hexadecimal unsigned number did not parse.
    InvalidNumber(String),
    /// A field or element type name is not one of the Java primitive or reference kinds.
    UnsupportedFieldType(String),
    /// The layout's version, profile, JDK label or architecture is not supported.
    UnsupportedLayout,
    /// A layout holds no classes, or more than 2048.
    ClassCount,
    /// A class identity is zero, out of range for its width, misaligned or repeated.
    InvalidClassIdentity,
    /// A class name or field list exceeds its bound.
    ClassLimits,
    /// An array class does not follow the profile's array layout.
    UnsupportedArrayLayout,
    /// An instance size is outside 16 bytes..1 MiB or not a multiple of eight.
    InvalidInstanceSize,
    /// A field lies outside its instance or inside the header.
    FieldOutsideInstance,
    /// A class kind is neither `array` nor `instance`.
    UnknownClassKind,
    /// A memory-map line has no `start-end` range.
    BadMappingRange,
    /// A memory-map address or offset is not hexadecimal.
    BadMappingAddress,
    /// A mapping is empty or extends past the backing file.
    MappingOutsideFile,
    /// More than 65536 heap mappings.
    TooManyMappings,
    /// No readable heap mapping was found.
    NoMappings,
    /// Two virtual mappings overlap.
    OverlappingMappings,
    /// A reference hypothesis name is unknown.
    UnknownReferenceHypothesis,
    /// A boot profile name is unknown.
    UnknownBootProfile,
    /// A binding names a class that has no built-in layout.
    NoBuiltInLayout(String),
    /// Binding discovery was asked for on a capture bundle.
    DiscoveryNeedsRawScan,
    /// Binding discovery was combined with a layout, boot bindings or a stream.
    DiscoveryConflict,
    /// A typed scan of a raw file lacks the identity-mapping acknowledgement.
    RawTypedScanNeedsIdentity,
    /// A class selection was given without a layout.
    OnlyNeedsLayout,
    /// A selected class is not in the layout.
    UnknownOnlyClass(String),
    /// The capture is smaller than 24 bytes or larger than 64 GiB.
    HeapSize,
    /// The capture starts like an HPROF, gzip or ELF file.
    NotRawHeap,
    /// An unfiltered in-memory index would exceed two million objects.
    ObjectLimit,
    /// A digest does not match its expected value; the payload names what was checked.
    ChecksumMismatch(String),
    /// An index's version or sizes are outside the supported limits.
    InvalidIndexLimits,
    /// Stored header-group statistics disagree with the group hits or the capture.
    InvalidSpacingStats,
    /// Indexed object offsets do not strictly increase.
    OffsetsNotIncreasing,
    /// An indexed object names a class that the layout lacks.
    ClassIdOutsideLayout,
    /// An indexed object is misaligned or extends past the capture.
    ObjectOutsideHeap,
    /// Stored class counts differ from the indexed objects.
    ClassCountsDiffer,
    /// String commands need exactly the `java.lang.String` and `[B` bindings.
    StringBindingsRequired,
    /// The payload bound is outside 1..1048576 bytes.
    MaxBytesRange,
    /// The reference hypothesis belongs to another generation than the boot profile.
    HypothesisConflictsProfile,
    /// A raw capture for String reading is smaller than 32 bytes or larger than 64 GiB.
    RawFileSize,
    /// A raw capture for String reading starts like an HPROF, gzip or ELF file.
    NotRawCapture,
    /// The sample count is outside 1..10000.
    SamplesRange,
    /// Node class identities must be 1..64 valid identities for the header width.
    NodeKlasses,
    /// The census payload bound is outside 1..1048576 bytes.
    CensusMaxBytes,
    /// The census region size is outside 16 MiB..1 GiB.
    RegionBytes,
    /// Corpus bounds: unique strings 1..2000000, text bytes 1..536870912 per capture.
    CorpusBounds,
    /// The checksum file is not UTF-8 text.
    BadChecksumFile,
    /// A checksum line lacks its digest.
    MissingDigest,
    /// A checksum line lacks its file name.
    MissingChecksumFilename,
    /// A checksum line is malformed, names an unknown file or repeats one.
    InvalidChecksumEntry,
    /// A required file has no checksum.
    MissingChecksum(String),
    /// A capture's decoded String set would exceed the corpus bounds.
    CorpusLimit,
    /// A read exceeds the capture or the 1 MiB request limit.
    ReadOutOfBounds,
    /// No indexed object starts at this offset.
    NoIndexedObject(u64),
    /// The object's class is missing from the layout.
    ClassMissing,
    /// The capture bytes hold another class identity than the index.
    KlassMismatch,
    /// The capture's array length differs from the index, or exceeds `i32::MAX`.
    LengthMismatch,
    /// An array's size overflows.
    ArraySizeOverflow,
    /// The object's size differs from its layout.
    SizeMismatch,
    /// The object's mark word is not an unlocked or hashed one.
    UnsupportedMark,
    /// A scalar type name is unknown.
    UnknownScalar,
    /// The String layout lacks its `value` or `coder` field.
    StringFieldMissing,
    /// A String's backing array is unmapped.
    StringArrayUnmapped,
    /// A String's backing object is not a byte array.
    StringNotBytes,
    /// A String's backing array has no length.
    MissingStringLength,
    /// A String's coder is unknown, or its UTF-16 length is odd.
    InvalidStringCoder,
    /// Only primitive array payloads can be extracted.
    NotPrimitiveArray,
    /// An array has no length.
    MissingArrayLength,
    /// An array payload's size overflows.
    PayloadOverflow,
    /// A regex pack exceeds 64 KiB.
    RegexPackTooLarge,
    /// A regex pack needs version 1 and 1..64 patterns.
    RegexPackShape,
    /// A pattern name or regex breaks the naming or size rules.
    RegexPackNames,
    /// A regex does not compile within the pack's limits.
    RegexPackInvalid,
    /// The operation needs a layout-assisted index.
    TypedIndexRequired,
    /// The index lacks a class the operation needs, by layout or by its class selection.
    IndexMustInclude(String),
    /// The `[B` class of the layout is not a byte array.
    NotByteArrayLayout,
    /// Binding discovery needs an untyped index, not one with class bindings.
    DiscoveryNeedsUntypedIndex,
    /// A diff needs two layout-assisted indexes.
    DiffNeedsTypedIndexes,
    /// The indexes differ in profile, JDK, architecture, mode, identity mapping or class selection.
    DiffNotComparable,
    /// The class schemas of the two layouts differ, so their counts are not comparable.
    SchemasDiffer,
    /// A streamed index holds no objects to read.
    StreamedIndex,
    /// A raw capture is read only through a typed index of an identity-mapping scan.
    RawNeedsTypedIdentityIndex,
    /// The operation needs the layout and maps digests of a capture-bundle index.
    BundleIndexRequired,
    /// Two captures differ in profile, JDK labels, architecture or identity mode.
    CorpusNotComparable,
}


/// The mathematical form of an [`Error`]: text payloads as character sequences.
pub enum ErrorView {
    InvalidNumber(Seq<char>),
    UnsupportedFieldType(Seq<char>),
    UnsupportedLayout,
    ClassCount,
    InvalidClassIdentity,
    ClassLimits,
    UnsupportedArrayLayout,
    InvalidInstanceSize,
    FieldOutsideInstance,
    UnknownClassKind,
    BadMappingRange,
    BadMappingAddress,
    MappingOutsideFile,
    TooManyMappings,
    NoMappings,
    OverlappingMappings,
    UnknownReferenceHypothesis,
    UnknownBootProfile,
    NoBuiltInLayout(Seq<char>),
    DiscoveryNeedsRawScan,
    DiscoveryConflict,
    RawTypedScanNeedsIdentity,
    OnlyNeedsLayout,
    UnknownOnlyClass(Seq<char>),
    HeapSize,
    NotRawHeap,
    ObjectLimit,
    ChecksumMismatch(Seq<char>),
    InvalidIndexLimits,
    InvalidSpacingStats,
    OffsetsNotIncreasing,
    ClassIdOutsideLayout,
    ObjectOutsideHeap,
    ClassCountsDiffer,
    StringBindingsRequired,
    MaxBytesRange,
    HypothesisConflictsProfile,
    RawFileSize,
    NotRawCapture,
    SamplesRange,
    NodeKlasses,
    CensusMaxBytes,
    RegionBytes,
    CorpusBounds,
    BadChecksumFile,
    MissingDigest,
    MissingChecksumFilename,
    InvalidChecksumEntry,
    MissingChecksum(Seq<char>),
    CorpusLimit,
    ReadOutOfBounds,
    NoIndexedObject(u64),
    ClassMissing,
    KlassMismatch,
    LengthMismatch,
    ArraySizeOverflow,
    SizeMismatch,
    UnsupportedMark,
    UnknownScalar,
    StringFieldMissing,
    StringArrayUnmapped,
    StringNotBytes,
    MissingStringLength,
    InvalidStringCoder,
    NotPrimitiveArray,
    MissingArrayLength,
    PayloadOverflow,
    RegexPackTooLarge,
    RegexPackShape,
    RegexPackNames,
    RegexPackInvalid,
    TypedIndexRequired,
    IndexMustInclude(Seq<char>),
    NotByteArrayLayout,
    DiscoveryNeedsUntypedIndex,
    DiffNeedsTypedIndexes,
    DiffNotComparable,
    SchemasDiffer,
    StreamedIndex,
    RawNeedsTypedIdentityIndex,
    BundleIndexRequired,
    CorpusNotComparable,
}

impl View for Error {
    type V = ErrorView;

    open spec fn view(&self) -> ErrorView {
        match self {
            Error::InvalidNumber(s) => ErrorView::InvalidNumber(s@),
            Error::UnsupportedFieldType(s) => ErrorView::UnsupportedFieldType(s@),
            Error::UnsupportedLayout => ErrorView::UnsupportedLayout,
            Error::ClassCount => ErrorView::ClassCount,
            Error::InvalidClassIdentity => ErrorView::InvalidClassIdentity,
            Error::ClassLimits => ErrorView::ClassLimits,
            Error::UnsupportedArrayLayout => ErrorView::UnsupportedArrayLayout,
            Error::InvalidInstanceSize => ErrorView::InvalidInstanceSize,
            Error::FieldOutsideInstance => ErrorView::FieldOutsideInstance,
            Error::UnknownClassKind => ErrorView::UnknownClassKind,
            Error::BadMappingRange => ErrorView::BadMappingRange,
            Error::BadMappingAddress => ErrorView::BadMappingAddress,
            Error::MappingOutsideFile => ErrorView::MappingOutsideFile,
            Error::TooManyMappings => ErrorView::TooManyMappings,
            Error::NoMappings => ErrorView::NoMappings,
            Error::OverlappingMappings => ErrorView::OverlappingMappings,
            Error::UnknownReferenceHypothesis => ErrorView::UnknownReferenceHypothesis,
            Error::UnknownBootProfile => ErrorView::UnknownBootProfile,
            Error::NoBuiltInLayout(s) => ErrorView::NoBuiltInLayout(s@),
            Error::DiscoveryNeedsRawScan => ErrorView::DiscoveryNeedsRawScan,
            Error::DiscoveryConflict => ErrorView::DiscoveryConflict,
            Error::RawTypedScanNeedsIdentity => ErrorView::RawTypedScanNeedsIdentity,
            Error::OnlyNeedsLayout => ErrorView::OnlyNeedsLayout,
            Error::UnknownOnlyClass(s) => ErrorView::UnknownOnlyClass(s@),
            Error::HeapSize => ErrorView::HeapSize,
            Error::NotRawHeap => ErrorView::NotRawHeap,
            Error::ObjectLimit => ErrorView::ObjectLimit,
            Error::ChecksumMismatch(s) => ErrorView::ChecksumMismatch(s@),
            Error::InvalidIndexLimits => ErrorView::InvalidIndexLimits,
            Error::InvalidSpacingStats => ErrorView::InvalidSpacingStats,
            Error::OffsetsNotIncreasing => ErrorView::OffsetsNotIncreasing,
            Error::ClassIdOutsideLayout => ErrorView::ClassIdOutsideLayout,
            Error::ObjectOutsideHeap => ErrorView::ObjectOutsideHeap,
            Error::ClassCountsDiffer => ErrorView::ClassCountsDiffer,
            Error::StringBindingsRequired => ErrorView::StringBindingsRequired,
            Error::MaxBytesRange => ErrorView::MaxBytesRange,
            Error::HypothesisConflictsProfile => ErrorView::HypothesisConflictsProfile,
            Error::RawFileSize => ErrorView::RawFileSize,
            Error::NotRawCapture => ErrorView::NotRawCapture,
            Error::SamplesRange => ErrorView::SamplesRange,
            Error::NodeKlasses => ErrorView::NodeKlasses,
            Error::CensusMaxBytes => ErrorView::CensusMaxBytes,
            Error::RegionBytes => ErrorView::RegionBytes,
            Error::CorpusBounds => ErrorView::CorpusBounds,
            Error::BadChecksumFile => ErrorView::BadChecksumFile,
            Error::MissingDigest => ErrorView::MissingDigest,
            Error::MissingChecksumFilename => ErrorView::MissingChecksumFilename,
            Error::InvalidChecksumEntry => ErrorView::InvalidChecksumEntry,
            Error::MissingChecksum(s) => ErrorView::MissingChecksum(s@),
            Error::CorpusLimit => ErrorView::CorpusLimit,
            Error::ReadOutOfBounds => ErrorView::ReadOutOfBounds,
            Error::NoIndexedObject(n) => ErrorView::NoIndexedObject(*n),
            Error::ClassMissing => ErrorView::ClassMissing,
            Error::KlassMismatch => ErrorView::KlassMismatch,
            Error::LengthMismatch => ErrorView::LengthMismatch,
            Error::ArraySizeOverflow => ErrorView::ArraySizeOverflow,
            Error::SizeMismatch => ErrorView::SizeMismatch,
            Error::UnsupportedMark => ErrorView::UnsupportedMark,
            Error::UnknownScalar => ErrorView::UnknownScalar,
            Error::StringFieldMissing => ErrorView::StringFieldMissing,
            Error::StringArrayUnmapped => ErrorView::StringArrayUnmapped,
            Error::StringNotBytes => ErrorView::StringNotBytes,
            Error::MissingStringLength => ErrorView::MissingStringLength,
            Error::InvalidStringCoder => ErrorView::InvalidStringCoder,
            Error::NotPrimitiveArray => ErrorView::NotPrimitiveArray,
            Error::MissingArrayLength => ErrorView::MissingArrayLength,
            Error::PayloadOverflow => ErrorView::PayloadOverflow,
            Error::RegexPackTooLarge => ErrorView::RegexPackTooLarge,
            Error::RegexPackShape => ErrorView::RegexPackShape,
            Error::RegexPackNames => ErrorView::RegexPackNames,
            Error::RegexPackInvalid => ErrorView::RegexPackInvalid,
            Error::TypedIndexRequired => ErrorView::TypedIndexRequired,
            Error::IndexMustInclude(s) => ErrorView::IndexMustInclude(s@),
            Error::NotByteArrayLayout => ErrorView::NotByteArrayLayout,
            Error::DiscoveryNeedsUntypedIndex => ErrorView::DiscoveryNeedsUntypedIndex,
            Error::DiffNeedsTypedIndexes => ErrorView::DiffNeedsTypedIndexes,
            Error::DiffNotComparable => ErrorView::DiffNotComparable,
            Error::SchemasDiffer => ErrorView::SchemasDiffer,
            Error::StreamedIndex => ErrorView::StreamedIndex,
            Error::RawNeedsTypedIdentityIndex => ErrorView::RawNeedsTypedIdentityIndex,
            Error::BundleIndexRequired => ErrorView::BundleIndexRequired,
            Error::CorpusNotComparable => ErrorView::CorpusNotComparable,
        }
    }
}

/// A result with its error taken by view.
pub open spec fn rview<T>(r: Result<T, Error>) -> Result<T, ErrorView> {
    match r {
        Ok(v) => Ok(v),
        Err(e) => Err(e@),
    }
}

} // verus!

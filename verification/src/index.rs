//! The index of a scanned capture.
use vstd::prelude::*;
use crate::counts::Counts;
use crate::layout::{Layout, Mapping, Object};
use crate::spacing::{GroupStats, MAX_GROUPS, spec_validate, validate};
use crate::error::{Error, ErrorView, rview};
use crate::layout::{validate_layout, spec_validate_layout, ClassView};
use crate::scanner::{MAX_FILE, MAX_OBJECTS};
use crate::text::str_eq;

verus! {

/// An index of object candidates and header-group statistics of one capture.
#[derive(Debug)]
pub struct Index {
    pub version: u32,
    /// `layout-assisted` or `raw-candidates`.
    pub mode: String,
    /// Lower-case hexadecimal SHA-256 of the capture.
    pub heap_sha256: String,
    pub heap_bytes: u64,
    pub zero_bytes: u64,
    pub layout_sha256: Option<String>,
    pub maps_sha256: Option<String>,
    pub layout: Option<Layout>,
    pub mappings: Vec<Mapping>,
    /// Object candidates in offset order (empty for a streamed scan).
    pub objects: Vec<Object>,
    /// Hits per header group key.
    pub raw_header_groups: Vec<(String, u64)>,
    pub header_group_stats: Vec<(String, GroupStats)>,
    pub groups_truncated: bool,
    pub rejected_headers: u64,
    pub limitations: Vec<String>,
    pub identity_mapping: bool,
    pub only: Vec<String>,
    pub streamed: bool,
    /// Candidates per class name.
    pub class_counts: Counts,
}

pub open spec fn limitation_texts() -> Seq<Seq<char>> {
    seq![
        "Objects are structural candidates, not proof of liveness; roots are absent."@,
        "Only ordinary unlocked/hash mark words are scanned; locked objects can be omitted."@,
        "Unknown classes are not enumerated in layout-assisted mode; counts are partial."@,
        "A process stop freezes an arbitrary GC phase; stale copies and unresolved references may remain."@,
        "Header-shape detection is heuristic, not a profile selection or class-name identification."@,
        "Periodicity is sampled spacing evidence, not proof of metadata; filtering can exclude regularly allocated real objects."@,
        "Forwarding tables and ZGC liveness metadata are not available in a heap backing-file capture; GC state is unknown."@,
        "Class metadata identities are not colored oops and must not be color-masked."@
    ]
}

/// The limitations that every index states.
pub fn limitations() -> (v: Vec<String>)
    ensures
        v@.map_values(|s: String| s@) == limitation_texts(),
{
    let mut v: Vec<String> = Vec::new();
    v.push("Objects are structural candidates, not proof of liveness; roots are absent.".to_owned());
    v.push("Only ordinary unlocked/hash mark words are scanned; locked objects can be omitted.".to_owned());
    v.push("Unknown classes are not enumerated in layout-assisted mode; counts are partial.".to_owned());
    v.push("A process stop freezes an arbitrary GC phase; stale copies and unresolved references may remain.".to_owned());
    v.push("Header-shape detection is heuristic, not a profile selection or class-name identification.".to_owned());
    v.push("Periodicity is sampled spacing evidence, not proof of metadata; filtering can exclude regularly allocated real objects.".to_owned());
    v.push("Forwarding tables and ZGC liveness metadata are not available in a heap backing-file capture; GC state is unknown.".to_owned());
    v.push("Class metadata identities are not colored oops and must not be color-masked.".to_owned());
    assert(v@.map_values(|s: String| s@) =~= limitation_texts());
    v
}


/// The hits stored for a group key: the first entry with that key.
pub open spec fn group_hits(groups: Seq<(String, u64)>, key: Seq<char>) -> Option<u64>
    decreases groups.len(),
{
    if groups.len() == 0 {
        None
    } else if groups[0].0@ == key {
        Some(groups[0].1)
    } else {
        group_hits(groups.drop_first(), key)
    }
}

/// Sizes and totals of an index are within the supported limits.
pub open spec fn limits_ok(ix: &Index) -> bool {
    &&& ix.version == 1
    &&& ix.heap_bytes <= MAX_FILE
    &&& ix.objects@.len() <= MAX_OBJECTS
    &&& ix.mappings@.len() <= 65536
    &&& ix.raw_header_groups@.len() <= 4096
    &&& ix.header_group_stats@.len() <= MAX_GROUPS
    &&& ix.only@.len() <= 2048
    &&& ix.class_counts.view_entries().len() <= 2048
    &&& ix.class_counts.total() <= ix.heap_bytes / 8
    &&& !(ix.streamed && ix.objects@.len() > 0)
}

/// Stored group statistics, when present, match the group hits and the capture size.
pub open spec fn spacing_ok(ix: &Index) -> bool {
    ix.header_group_stats@.len() == 0 || {
        &&& ix.header_group_stats@.len() == ix.raw_header_groups@.len()
        &&& forall|i: int| 0 <= i < ix.header_group_stats@.len() ==> {
            &&& group_hits(ix.raw_header_groups@, (#[trigger] ix.header_group_stats@[i]).0@) == Some(ix.header_group_stats@[i].1.hits)
            &&& spec_validate(&ix.header_group_stats@[i].1, ix.heap_bytes)
        }
    }
}

/// Object offsets strictly increase.
pub open spec fn offsets_increase(objects: Seq<Object>) -> bool {
    forall|i: int| 0 <= i < objects.len() - 1 ==> (#[trigger] objects[i]).offset < objects[i + 1].offset
}

/// The number of classes of an optional layout.
pub open spec fn class_total(l: Option<Layout>) -> int {
    match l {
        Some(l) => l.classes@.len() as int,
        None => -1,
    }
}

/// The first check that object `o` fails: its class, then its alignment and extent.
pub open spec fn object_check(o: Object, classes: int, heap_bytes: u64) -> Result<(), ErrorView> {
    if classes < 0 || o.class_id >= classes {
        Err(ErrorView::ClassIdOutsideLayout)
    } else if o.offset % 8 != 0 || o.offset + o.size > heap_bytes {
        Err(ErrorView::ObjectOutsideHeap)
    } else {
        Ok(())
    }
}

/// The first failing object check among the first `n` objects.
pub open spec fn objects_check(objects: Seq<Object>, classes: int, heap_bytes: u64, n: int) -> Result<(), ErrorView>
    decreases n,
{
    if n <= 0 {
        Ok(())
    } else {
        match objects_check(objects, classes, heap_bytes, n - 1) {
            Err(e) => Err(e),
            Ok(()) => object_check(objects[n - 1], classes, heap_bytes),
        }
    }
}

/// Objects whose class is named `name`.
pub open spec fn name_count(objects: Seq<Object>, classes: Seq<ClassView>, name: Seq<char>) -> nat
    decreases objects.len(),
{
    if objects.len() == 0 {
        0
    } else {
        name_count(objects.drop_last(), classes, name) + if classes[objects.last().class_id as int].name == name { 1nat } else { 0nat }
    }
}

/// Stored class counts, when checked, equal the per-name counts of the objects.
pub open spec fn counts_ok(ix: &Index) -> bool {
    ix.streamed || ix.class_counts.view_entries().len() == 0 || {
        &&& ix.class_counts.positive()
        &&& forall|name: Seq<char>| #[trigger] ix.class_counts.get(name).0 == name_count(ix.objects@, ix.layout->0@.classes, name)
    }
}

/// The checks of a loaded index, in order.
pub open spec fn spec_validate_index(ix: &Index) -> Result<(), ErrorView> {
    if !limits_ok(ix) {
        Err(ErrorView::InvalidIndexLimits)
    } else if !spacing_ok(ix) {
        Err(ErrorView::InvalidSpacingStats)
    } else if ix.layout is Some && spec_validate_layout(ix.layout->0@) is Err {
        spec_validate_layout(ix.layout->0@)
    } else if !offsets_increase(ix.objects@) {
        Err(ErrorView::OffsetsNotIncreasing)
    } else if objects_check(ix.objects@, class_total(ix.layout), ix.heap_bytes, ix.objects@.len() as int) is Err {
        objects_check(ix.objects@, class_total(ix.layout), ix.heap_bytes, ix.objects@.len() as int)
    } else if !counts_ok(ix) {
        Err(ErrorView::ClassCountsDiffer)
    } else {
        Ok(())
    }
}

fn find_group_hits(groups: &Vec<(String, u64)>, key: &str) -> (r: Option<u64>)
    ensures
        r == group_hits(groups@, key@),
{
    let mut i: usize = 0;
    assert(groups@.skip(0) =~= groups@);
    while i < groups.len()
        invariant
            i <= groups@.len(),
            group_hits(groups@, key@) == group_hits(groups@.skip(i as int), key@),
        decreases groups@.len() - i,
    {
        assert(groups@.skip(i as int).drop_first() =~= groups@.skip(i + 1));
        if str_eq(groups[i].0.as_str(), key) {
            return Some(groups[i].1);
        }
        i = i + 1;
    }
    None
}

proof fn lemma_objects_err_stays(objects: Seq<Object>, classes: int, heap_bytes: u64, n: int, m: int)
    requires
        0 <= n <= m,
        objects_check(objects, classes, heap_bytes, n) is Err,
    ensures
        objects_check(objects, classes, heap_bytes, m) == objects_check(objects, classes, heap_bytes, n),
    decreases m,
{
    if n < m {
        lemma_objects_err_stays(objects, classes, heap_bytes, n, m - 1);
    }
}

fn check_spacing(ix: &Index) -> (r: bool)
    ensures
        r == spacing_ok(ix),
{
    let n = ix.header_group_stats.len();
    if n == 0 {
        return true;
    }
    if n != ix.raw_header_groups.len() {
        return false;
    }
    let mut i: usize = 0;
    while i < n
        invariant
            n == ix.header_group_stats@.len(),
            i <= n,
            forall|k: int| 0 <= k < i ==> {
                &&& group_hits(ix.raw_header_groups@, (#[trigger] ix.header_group_stats@[k]).0@) == Some(ix.header_group_stats@[k].1.hits)
                &&& spec_validate(&ix.header_group_stats@[k].1, ix.heap_bytes)
            },
        decreases n - i,
    {
        let entry = &ix.header_group_stats[i];
        let hits = find_group_hits(&ix.raw_header_groups, entry.0.as_str());
        let same = match hits {
            Some(h) => h == entry.1.hits,
            None => false,
        };
        if !same || !validate(&entry.1, ix.heap_bytes) {
            return false;
        }
        i = i + 1;
    }
    true
}

fn check_limits(ix: &Index) -> (r: bool)
    ensures
        r == limits_ok(ix),
{
    let total = ix.class_counts.checked_total();
    let total_ok = match total {
        Some(t) => t <= ix.heap_bytes / 8,
        None => false,
    };
    ix.version == 1 && ix.heap_bytes <= MAX_FILE && ix.objects.len() <= MAX_OBJECTS && ix.mappings.len() <= 65536
        && ix.raw_header_groups.len() <= 4096 && ix.header_group_stats.len() <= MAX_GROUPS && ix.only.len() <= 2048
        && ix.class_counts.len() <= 2048 && total_ok && !(ix.streamed && ix.objects.len() > 0)
}

fn check_offsets(objects: &Vec<Object>) -> (r: bool)
    ensures
        r == offsets_increase(objects@),
{
    let n = objects.len();
    let mut i: usize = 0;
    while i + 1 < n
        invariant
            n == objects@.len(),
            n <= usize::MAX,
            i <= n,
            i < usize::MAX,
            forall|k: int| 0 <= k < i && k < n - 1 ==> (#[trigger] objects@[k]).offset < objects@[k + 1].offset,
        decreases n - i,
    {
        if objects[i].offset >= objects[i + 1].offset {
            return false;
        }
        i = i + 1;
        assert(i < usize::MAX);
    }
    true
}

fn check_objects(objects: &Vec<Object>, classes: Option<usize>, heap_bytes: u64) -> (r: Result<(), Error>)
    ensures
        rview(r) == objects_check(objects@, match classes { Some(c) => c as int, None => -1 }, heap_bytes, objects@.len() as int),
{
    let ghost ct = match classes { Some(c) => c as int, None => -1 };
    let n = objects.len();
    let mut j: usize = 0;
    while j < n
        invariant
            n == objects@.len(),
            j <= n,
            ct == match classes { Some(c) => c as int, None => -1 },
            objects_check(objects@, ct, heap_bytes, j as int) == Ok::<(), ErrorView>(()),
        decreases n - j,
    {
        let o = objects[j];
        let class_ok = match classes {
            Some(c) => o.class_id < c,
            None => false,
        };
        let fits = match o.offset.checked_add(o.size) {
            Some(end) => end <= heap_bytes,
            None => false,
        };
        let failed: Option<Error> = if !class_ok {
            Some(Error::ClassIdOutsideLayout)
        } else if o.offset % 8 != 0 || !fits {
            Some(Error::ObjectOutsideHeap)
        } else {
            None
        };
        let ghost expect = object_check(objects@[j as int], ct, heap_bytes);
        assert(objects_check(objects@, ct, heap_bytes, j + 1) == expect);
        assert(match failed {
            Some(e) => expect == Err::<(), ErrorView>(e@),
            None => expect == Ok::<(), ErrorView>(()),
        });
        match failed {
            Some(e) => {
                proof {
                    lemma_objects_err_stays(objects@, ct, heap_bytes, j + 1, n as int);
                }
                return Err(e);
            },
            None => {},
        }
        j = j + 1;
    }
    Ok(())
}

proof fn lemma_name_count_bound(objects: Seq<Object>, classes: Seq<ClassView>, name: Seq<char>)
    ensures
        name_count(objects, classes, name) <= objects.len(),
    decreases objects.len(),
{
    if objects.len() > 0 {
        lemma_name_count_bound(objects.drop_last(), classes, name);
    }
}

fn check_counts(ix: &Index) -> (r: bool)
    requires
        ix.class_counts.wf(),
        objects_check(ix.objects@, class_total(ix.layout), ix.heap_bytes, ix.objects@.len() as int) == Ok::<(), ErrorView>(()),
    ensures
        r == counts_ok(ix),
{
    if ix.streamed || ix.class_counts.len() == 0 {
        return true;
    }
    let n = ix.objects.len();
    if n == 0 {
        proof {
            assert forall|name: Seq<char>| #[trigger] name_count(ix.objects@, ix.layout->0@.classes, name) == 0 by {}
        }
        let empty = Counts::new();
        return ix.class_counts.all_positive() && ix.class_counts.agrees_with(&empty);
    }
    proof {
        lemma_objects_ok_each(ix.objects@, class_total(ix.layout), ix.heap_bytes, n as int, 0);
    }
    let l = match &ix.layout {
        Some(l) => l,
        None => {
            assert(false);
            return false;
        },
    };
    let mut actual = Counts::new();
    let ghost classes_v = l@.classes;
    let mut k: usize = 0;
    while k < n
        invariant
            n == ix.objects@.len(),
            k <= n,
            classes_v == l@.classes,
            class_total(ix.layout) == l.classes@.len(),
            objects_check(ix.objects@, class_total(ix.layout), ix.heap_bytes, n as int) == Ok::<(), ErrorView>(()),
            actual.wf(),
            forall|name: Seq<char>| #[trigger] actual.get(name).0 == name_count(ix.objects@.take(k as int), classes_v, name),
        decreases n - k,
    {
        proof {
            lemma_objects_ok_each(ix.objects@, class_total(ix.layout), ix.heap_bytes, n as int, k as int);
        }
        let id = ix.objects[k].class_id;
        let name = l.classes[id].name.as_str();
        proof {
            assert(ix.objects@.take(k + 1).drop_last() =~= ix.objects@.take(k as int));
            assert(name@ == classes_v[id as int].name);
            lemma_name_count_bound(ix.objects@.take(k as int), classes_v, name@);
        }
        actual.bump(name);
        k = k + 1;
    }
    assert(ix.objects@.take(n as int) =~= ix.objects@);
    ix.class_counts.all_positive() && ix.class_counts.agrees_with(&actual)
}

/// Refuses an index that is inconsistent or exceeds the limits (see [`spec_validate_index`]).
pub fn validate_index(ix: &Index) -> (r: Result<(), Error>)
    requires
        ix.class_counts.wf(),
    ensures
        rview(r) == spec_validate_index(ix),
{
    if !check_limits(ix) {
        return Err(Error::InvalidIndexLimits);
    }
    if !check_spacing(ix) {
        return Err(Error::InvalidSpacingStats);
    }
    match &ix.layout {
        Some(l) => validate_layout(l)?,
        None => {},
    }
    if !check_offsets(&ix.objects) {
        return Err(Error::OffsetsNotIncreasing);
    }
    let classes: Option<usize> = match &ix.layout {
        Some(l) => Some(l.classes.len()),
        None => None,
    };
    assert(class_total(ix.layout) == match classes { Some(c) => c as int, None => -1 });
    check_objects(&ix.objects, classes, ix.heap_bytes)?;
    if !check_counts(ix) {
        return Err(Error::ClassCountsDiffer);
    }
    Ok(())
}

proof fn lemma_objects_ok_each(objects: Seq<Object>, classes: int, heap_bytes: u64, n: int, k: int)
    requires
        0 <= k < n <= objects.len(),
        objects_check(objects, classes, heap_bytes, n) == Ok::<(), ErrorView>(()),
    ensures
        object_check(objects[k], classes, heap_bytes) == Ok::<(), ErrorView>(()),
    decreases n,
{
    if k < n - 1 {
        lemma_objects_ok_each(objects, classes, heap_bytes, n - 1, k);
    }
}

/// Some class of the layout has this name.
pub open spec fn layout_has(l: Layout, name: Seq<char>) -> bool {
    exists|i: int| 0 <= i < l.classes@.len() && (#[trigger] l.classes@[i]).name@ == name
}

/// The class selection is empty or names this class.
pub open spec fn selects(only: Seq<String>, name: Seq<char>) -> bool {
    only.len() == 0 || exists|i: int| 0 <= i < only.len() && (#[trigger] only[i])@ == name
}

/// Refuses an index without a layout, or one whose layout or class selection lacks `name`.
pub fn require_indexed(ix: &Index, name: &str) -> (r: Result<(), Error>)
    ensures
        match ix.layout {
            None => r == Err::<(), Error>(Error::TypedIndexRequired),
            Some(l) => if layout_has(l, name@) && selects(ix.only@, name@) {
                r is Ok
            } else {
                rview(r) == Err::<(), ErrorView>(ErrorView::IndexMustInclude(name@))
            },
        },
{
    let l = match &ix.layout {
        None => {
            return Err(Error::TypedIndexRequired);
        },
        Some(l) => l,
    };
    let mut found = false;
    let mut i: usize = 0;
    while i < l.classes.len()
        invariant
            i <= l.classes@.len(),
            found == exists|k: int| 0 <= k < i && (#[trigger] l.classes@[k]).name@ == name@,
        decreases l.classes@.len() - i,
    {
        if str_eq(l.classes[i].name.as_str(), name) {
            found = true;
        }
        i = i + 1;
    }
    let mut selected = ix.only.len() == 0;
    let mut j: usize = 0;
    while j < ix.only.len()
        invariant
            j <= ix.only@.len(),
            selected == (ix.only@.len() == 0 || exists|k: int| 0 <= k < j && (#[trigger] ix.only@[k])@ == name@),
        decreases ix.only@.len() - j,
    {
        if str_eq(ix.only[j].as_str(), name) {
            selected = true;
        }
        j = j + 1;
    }
    if found && selected {
        Ok(())
    } else {
        Err(Error::IndexMustInclude(name.to_owned()))
    }
}

/// Refuses to read objects through this index: a streamed index has none; a raw capture
/// needs a typed index of an identity-mapping scan; a bundle needs the digests of its
/// layout and maps.
pub fn check_readable(ix: &Index, raw_file: bool) -> (r: Result<(), Error>)
    ensures
        r is Ok <==> !ix.streamed && if raw_file {
            ix.identity_mapping && ix.layout is Some && ix.layout_sha256 is None
        } else {
            ix.layout_sha256 is Some && ix.maps_sha256 is Some
        },
        ix.streamed ==> r == Err::<(), Error>(Error::StreamedIndex),
        !ix.streamed && raw_file && r is Err ==> r == Err::<(), Error>(Error::RawNeedsTypedIdentityIndex),
        !ix.streamed && !raw_file && r is Err ==> r == Err::<(), Error>(Error::BundleIndexRequired),
{
    if ix.streamed {
        return Err(Error::StreamedIndex);
    }
    if raw_file {
        if !ix.identity_mapping || ix.layout.is_none() || ix.layout_sha256.is_some() {
            return Err(Error::RawNeedsTypedIdentityIndex);
        }
    } else if ix.layout_sha256.is_none() || ix.maps_sha256.is_none() {
        return Err(Error::BundleIndexRequired);
    }
    Ok(())
}

} // verus!

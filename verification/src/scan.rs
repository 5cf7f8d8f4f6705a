//! The class table of a scan: each layout class's identity and size rules, sorted by identity.
use vstd::prelude::*;
use crate::bytes::{le_value, mark_shape_ok, spec_aligned, aligned, word_at, mark_ok};
use crate::error::{Error, ErrorView, rview};
use crate::layout::{Layout, spec_validate_layout, spec_classes_check, spec_class_check, spec_compressed};
use crate::number::{number, spec_number};
use crate::text::str_eq;

verus! {

/// What the scan needs of one class of the layout.
#[derive(Debug, Clone, Copy, PartialEq, Eq)]
pub struct ClassInfo {
    /// The class identity word.
    pub klass: u64,
    /// The class's index in the layout.
    pub id: usize,
    pub array: bool,
    pub scale: u64,
    pub base: u64,
    pub size: u64,
    /// The class is in the caller's selection (every class when nothing is selected).
    pub selected: bool,
}

/// The class is selected: no selection, or its name is among the selected names.
pub open spec fn spec_selected(only: Seq<Seq<char>>, name: Seq<char>) -> bool {
    only.len() == 0 || only.contains(name)
}

/// The scan's description of class `i` of a validated layout.
#[verifier::opaque]
pub open spec fn spec_info(l: &Layout, only: Seq<Seq<char>>, i: int) -> ClassInfo {
    let c = l.classes@[i];
    ClassInfo {
        klass: spec_number(c.klass@)->0,
        id: i as usize,
        array: c.kind@ == "array"@,
        scale: c.scale,
        base: c.base,
        size: c.size,
        selected: spec_selected(only, c.name@),
    }
}

/// Class identities strictly increase.
pub open spec fn table_sorted(t: Seq<ClassInfo>) -> bool {
    forall|a: int, b: int| 0 <= a < b < t.len() ==> (#[trigger] t[a]).klass < (#[trigger] t[b]).klass
}

/// The table holds exactly the descriptions of the layout's classes: each entry describes
/// the class named by its `id`, and every class has an entry.
pub open spec fn table_describes(t: Seq<ClassInfo>, l: &Layout, only: Seq<Seq<char>>) -> bool {
    &&& table_sorted(t)
    &&& t.len() == l.classes@.len()
    &&& forall|j: int| 0 <= j < t.len() ==> (#[trigger] t[j]).id < l.classes@.len() && t[j] == spec_info(l, only, t[j].id as int)
    &&& forall|i: int| 0 <= i < l.classes@.len() ==> #[trigger] has_entry(t, i)
}

/// Some entry of the table describes class `i`.
pub open spec fn has_entry(t: Seq<ClassInfo>, i: int) -> bool {
    exists|j: int| 0 <= j < t.len() && (#[trigger] t[j]).id == i
}

/// Entry `j` of the table has identity `k`.
pub open spec fn klass_at(t: Seq<ClassInfo>, k: u64, j: int) -> bool {
    0 <= j < t.len() && t[j].klass == k
}

/// The table entry with identity `k`, if any.
pub open spec fn spec_find(t: Seq<ClassInfo>, k: u64) -> Option<ClassInfo> {
    if exists|j: int| #[trigger] klass_at(t, k, j) {
        Some(t[choose|j: int| #[trigger] klass_at(t, k, j)])
    } else {
        None
    }
}

pub(crate) proof fn lemma_find_at(t: Seq<ClassInfo>, j: int)
    requires
        table_sorted(t),
        0 <= j < t.len(),
    ensures
        spec_find(t, t[j].klass) == Some(t[j]),
{
    let k = t[j].klass;
    assert(klass_at(t, k, j));
    let c = choose|c: int| #[trigger] klass_at(t, k, c);
    if c < j {
        assert(t[c].klass < t[j].klass);
    } else if c > j {
        assert(t[j].klass < t[c].klass);
    }
}

/// A validated layout's classes have numeric, pairwise distinct identities.
pub proof fn lemma_validated_identities(l: &Layout, n: nat)
    requires
        spec_classes_check(l@, n) is Ok,
        n <= l.classes@.len(),
    ensures
        forall|i: int| 0 <= i < n ==> (#[trigger] spec_number(l.classes@[i].klass@)) is Some,
        forall|i: int, j: int| 0 <= i < j < n ==> spec_number(#[trigger] l.classes@[i].klass@) != spec_number(#[trigger] l.classes@[j].klass@),
    decreases n,
{
    if n > 0 {
        let m = (n - 1) as nat;
        assert(spec_classes_check(l@, m) is Ok);
        lemma_validated_identities(l, m);
        assert(spec_class_check(l@, m as int) is Ok);
        assert forall|i: int| 0 <= i < n implies l@.classes[i] == l.classes@[i]@ by {}
        assert forall|i: int, j: int| 0 <= i < j < n implies spec_number(#[trigger] l.classes@[i].klass@) != spec_number(#[trigger] l.classes@[j].klass@) by {
            if j == m {
                if spec_number(l.classes@[i].klass@) == spec_number(l.classes@[j].klass@) {
                    assert(l@.classes[i].klass == l.classes@[i].klass@);
                    assert(l@.classes[m as int].klass == l.classes@[m as int].klass@);
                    assert(spec_number(l@.classes[i].klass) == Some(spec_number(l@.classes[m as int].klass)->0));
                }
            }
        }
    }
}

/// Whether `name` is among the selected names.
fn selected(only: &Vec<String>, name: &str) -> (r: bool)
    ensures
        r == spec_selected(only@.map_values(|s: String| s@), name@),
{
    let ghost names = only@.map_values(|s: String| s@);
    if only.len() == 0 {
        return true;
    }
    let mut i: usize = 0;
    while i < only.len()
        invariant
            i <= only@.len(),
            names == only@.map_values(|s: String| s@),
            forall|k: int| 0 <= k < i ==> names[k] != name@,
        decreases only@.len() - i,
    {
        if str_eq(only[i].as_str(), name) {
            assert(names[i as int] == name@);
            return true;
        }
        i = i + 1;
    }
    false
}


/// Builds the class table of a validated layout, sorted by identity.
pub fn class_table(l: &Layout, only: &Vec<String>) -> (t: Vec<ClassInfo>)
    requires
        spec_validate_layout(l@) is Ok,
    ensures
        table_describes(t@, l, only@.map_values(|s: String| s@)),
{
    let ghost names = only@.map_values(|s: String| s@);
    let n = l.classes.len();
    proof {
        lemma_validated_identities(l, n as nat);
    }
    let mut t: Vec<ClassInfo> = Vec::new();
    let ghost mut pos: Seq<int> = Seq::empty();
    let mut i: usize = 0;
    while i < n
        invariant
            n == l.classes@.len(),
            n <= 2048,
            i <= n,
            names == only@.map_values(|s: String| s@),
            forall|a: int| 0 <= a < n ==> (#[trigger] spec_number(l.classes@[a].klass@)) is Some,
            forall|a: int, b: int| 0 <= a < b < n ==> spec_number(#[trigger] l.classes@[a].klass@) != spec_number(#[trigger] l.classes@[b].klass@),
            table_sorted(t@),
            t@.len() == i,
            forall|j: int| 0 <= j < t@.len() ==> (#[trigger] t@[j]).id < i && t@[j] == spec_info(l, names, t@[j].id as int),
            pos.len() == i,
            forall|a: int| 0 <= a < i ==> 0 <= #[trigger] pos[a] < t@.len() && t@[pos[a]].id == a,
        decreases n - i,
    {
        let c = &l.classes[i];
        assert(spec_number(l.classes@[i as int].klass@) is Some);
        let klass = match number(c.klass.as_str()) {
            Ok(k) => k,
            Err(_) => {
                assert(false);
                0
            },
        };
        let info = ClassInfo {
            klass,
            id: i,
            array: str_eq(c.kind.as_str(), "array"),
            scale: c.scale,
            base: c.base,
            size: c.size,
            selected: selected(only, c.name.as_str()),
        };
        assert(info == spec_info(l, names, i as int)) by {
            reveal(spec_info);
        }
        let mut k = t.len();
        while k > 0 && t[k - 1].klass > klass
            invariant
                k <= t@.len(),
                forall|a: int| k <= a < t@.len() ==> (#[trigger] t@[a]).klass > klass,
            decreases k,
        {
            k = k - 1;
        }
        let ghost before = t@;
        proof {
            if k > 0 {
                let j = k - 1;
                let a = before[j].id as int;
                assert(before[j] == spec_info(l, names, a));
                assert(spec_number(l.classes@[a].klass@) != spec_number(l.classes@[i as int].klass@));
                reveal(spec_info);
                assert(before[j].klass != klass);
            }
        }
        t.insert(k, info);
        proof {
            assert forall|a: int, b: int| 0 <= a < b < t@.len() implies (#[trigger] t@[a]).klass < (#[trigger] t@[b]).klass by {
                if b < k {
                    assert(before[a].klass < before[b].klass);
                } else if b == k {
                    if a < k - 1 {
                        assert(before[a].klass < before[k - 1].klass);
                    }
                } else if a == k {
                    assert(t@[b] == before[b - 1]);
                } else if a < k {
                    assert(t@[b] == before[b - 1]);
                    assert(before[a].klass < before[b - 1].klass);
                } else {
                    assert(before[a - 1].klass < before[b - 1].klass);
                }
            }
            assert forall|j: int| 0 <= j < t@.len() implies (#[trigger] t@[j]).id < i + 1 && t@[j] == spec_info(l, names, t@[j].id as int) by {
                if j < k {
                    assert(t@[j] == before[j]);
                } else if j > k {
                    assert(t@[j] == before[j - 1]);
                }
            }
            let old_pos = pos;
            pos = Seq::new((i + 1) as nat, |a: int| if a == i { k as int } else if old_pos[a] >= k { old_pos[a] + 1 } else { old_pos[a] });
            assert forall|a: int| 0 <= a < i + 1 implies 0 <= #[trigger] pos[a] < t@.len() && t@[pos[a]].id == a by {
                if a < i {
                    if old_pos[a] >= k {
                        assert(t@[old_pos[a] + 1] == before[old_pos[a]]);
                    } else {
                        assert(t@[old_pos[a]] == before[old_pos[a]]);
                    }
                }
            }
        }
        i = i + 1;
    }
    proof {
        assert forall|a: int| 0 <= a < n implies #[trigger] has_entry(t@, a) by {
            assert(t@[pos[a]].id == a);
        }
    }
    t
}

/// Looks a class identity up in a sorted table.
pub fn find_class(t: &Vec<ClassInfo>, k: u64) -> (r: Option<ClassInfo>)
    requires
        table_sorted(t@),
    ensures
        r == spec_find(t@, k),
{
    let mut lo: usize = 0;
    let mut hi: usize = t.len();
    while lo < hi
        invariant
            table_sorted(t@),
            lo <= hi <= t@.len(),
            forall|j: int| 0 <= j < lo ==> (#[trigger] t@[j]).klass < k,
            forall|j: int| hi <= j < t@.len() ==> (#[trigger] t@[j]).klass > k,
        decreases hi - lo,
    {
        let mid = lo + (hi - lo) / 2;
        let e = t[mid];
        if e.klass == k {
            proof {
                lemma_find_at(t@, mid as int);
            }
            return Some(e);
        } else if e.klass < k {
            proof {
                assert forall|j: int| 0 <= j <= mid implies (#[trigger] t@[j]).klass < k by {
                    if j < mid {
                        assert(t@[j].klass < t@[mid as int].klass);
                    }
                }
            }
            lo = mid + 1;
        } else {
            proof {
                assert forall|j: int| mid <= j < t@.len() implies (#[trigger] t@[j]).klass > k by {
                    if j > mid {
                        assert(t@[mid as int].klass < t@[j].klass);
                    }
                }
            }
            hi = mid;
        }
    }
    proof {
        assert forall|j: int| !#[trigger] klass_at(t@, k, j) by {
            if 0 <= j < t@.len() {
                assert(t@[j].klass != k);
            }
        }
    }
    None
}


} // verus!

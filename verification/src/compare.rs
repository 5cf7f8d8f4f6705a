//! Whether two indexes' class counts are comparable: same layout family, mode and class
//! selection, and the same class schemas (class identities may differ).
use vstd::prelude::*;
use crate::error::Error;
use crate::index::Index;
use crate::layout::{Class, ClassView, Field, FieldView, Layout, LayoutView};
use crate::text::str_eq;
use crate::classmap::{ClassBindings, chars_lt};

verus! {

/// A class without its identity.
pub open spec fn schema_of(c: ClassView) -> ClassView {
    ClassView { klass: Seq::empty(), ..c }
}

pub open spec fn class_views(cs: Seq<Class>) -> Seq<ClassView> {
    cs.map_values(|c: Class| c@)
}

/// The last class with this name: the one a name-keyed map of the classes keeps.
pub open spec fn last_named(cs: Seq<ClassView>, name: Seq<char>) -> Option<ClassView>
    decreases cs.len(),
{
    if cs.len() == 0 {
        None
    } else if cs.last().name == name {
        Some(cs.last())
    } else {
        last_named(cs.drop_last(), name)
    }
}

/// If `a` has a class named `n`, `b` has one too, with the same schema.
pub open spec fn keeps(a: Seq<ClassView>, b: Seq<ClassView>, n: Seq<char>) -> bool {
    match last_named(a, n) {
        Some(x) => match last_named(b, n) {
            Some(y) => schema_of(x) == schema_of(y),
            None => false,
        },
        None => true,
    }
}

/// Both layouts hold the same schema under every class name.
pub open spec fn schemas_equal(a: Seq<ClassView>, b: Seq<ClassView>) -> bool {
    forall|n: Seq<char>| #![trigger keeps(a, b, n)] #![trigger keeps(b, a, n)] keeps(a, b, n) && keeps(b, a, n)
}

/// The comparability of two indexes: both typed; same profile, JDK label, architecture,
/// class selection, identity mapping and mode; and equal class schemas.
pub open spec fn spec_diff_check(before: &Index, after: &Index) -> Result<(), Error> {
    match (before.layout, after.layout) {
        (Some(a), Some(b)) => if a@.profile != b@.profile || a@.java != b@.java || a@.architecture != b@.architecture
            || before.only@.map_values(|s: String| s@) != after.only@.map_values(|s: String| s@)
            || before.identity_mapping != after.identity_mapping || before.mode@ != after.mode@ {
            Err(Error::DiffNotComparable)
        } else if !schemas_equal(a@.classes, b@.classes) {
            Err(Error::SchemasDiffer)
        } else {
            Ok(())
        },
        _ => Err(Error::DiffNeedsTypedIndexes),
    }
}

fn same_fields(a: &Vec<Field>, b: &Vec<Field>) -> (r: bool)
    ensures
        r == (a@.map_values(|f: Field| f@) == b@.map_values(|f: Field| f@)),
{
    if a.len() != b.len() {
        assert(a@.map_values(|f: Field| f@).len() != b@.map_values(|f: Field| f@).len());
        return false;
    }
    let mut i: usize = 0;
    while i < a.len()
        invariant
            a@.len() == b@.len(),
            i <= a@.len(),
            forall|k: int| 0 <= k < i ==> a@[k]@ == b@[k]@,
        decreases a@.len() - i,
    {
        if !(str_eq(a[i].name.as_str(), b[i].name.as_str()) && a[i].offset == b[i].offset
            && str_eq(a[i].field_type.as_str(), b[i].field_type.as_str())) {
            assert(a@.map_values(|f: Field| f@)[i as int] != b@.map_values(|f: Field| f@)[i as int]);
            return false;
        }
        i = i + 1;
    }
    assert(a@.map_values(|f: Field| f@) =~= b@.map_values(|f: Field| f@));
    true
}

fn same_schema(a: &Class, b: &Class) -> (r: bool)
    ensures
        r == (schema_of(a@) == schema_of(b@)),
{
    str_eq(a.name.as_str(), b.name.as_str()) && str_eq(a.kind.as_str(), b.kind.as_str()) && a.size == b.size
        && same_fields(&a.fields, &b.fields) && str_eq(a.element.as_str(), b.element.as_str()) && a.base == b.base
        && a.scale == b.scale && a.length_offset == b.length_offset
}

/// The position of the last class with this name.
fn last_index(cs: &Vec<Class>, name: &str) -> (r: Option<usize>)
    ensures
        match r {
            Some(i) => i < cs@.len() && last_named(cs@.map_values(|c: Class| c@), name@) == Some(cs@[i as int]@),
            None => last_named(cs@.map_values(|c: Class| c@), name@) is None,
        },
{
    let ghost v = cs@.map_values(|c: Class| c@);
    let mut i: usize = cs.len();
    assert(v.take(cs@.len() as int) =~= v);
    while i > 0
        invariant
            i <= cs@.len(),
            v == cs@.map_values(|c: Class| c@),
            last_named(v, name@) == last_named(v.take(i as int), name@),
        decreases i,
    {
        assert(v.take(i as int).drop_last() =~= v.take(i - 1));
        assert(v.take(i as int).last() == cs@[i - 1]@);
        if str_eq(cs[i - 1].name.as_str(), name) {
            return Some(i - 1);
        }
        i = i - 1;
    }
    assert(v.take(0) =~= Seq::<ClassView>::empty());
    None
}

proof fn lemma_last_named_some(cs: Seq<ClassView>, i: int)
    requires
        0 <= i < cs.len(),
    ensures
        last_named(cs, cs[i].name) is Some,
    decreases cs.len(),
{
    if cs.last().name != cs[i].name {
        assert(i < cs.len() - 1);
        assert(cs.drop_last()[i] == cs[i]);
        lemma_last_named_some(cs.drop_last(), i);
    }
}

proof fn lemma_last_named_in(cs: Seq<ClassView>, n: Seq<char>)
    requires
        last_named(cs, n) is Some,
    ensures
        exists|i: int| 0 <= i < cs.len() && (#[trigger] cs[i]).name == n,
    decreases cs.len(),
{
    if cs.last().name != n {
        lemma_last_named_in(cs.drop_last(), n);
        let i = choose|i: int| 0 <= i < cs.drop_last().len() && (#[trigger] cs.drop_last()[i]).name == n;
        assert(cs[i] == cs.drop_last()[i]);
    } else {
        assert(cs[cs.len() - 1].name == n);
    }
}

/// Checks every name of `a` against `b`: both keep a class of that name with one schema.
fn covers(a: &Vec<Class>, b: &Vec<Class>) -> (r: bool)
    ensures
        r == forall|n: Seq<char>| #[trigger] keeps(class_views(a@), class_views(b@), n),
{
    let ghost va = class_views(a@);
    let ghost vb = class_views(b@);
    let mut i: usize = 0;
    while i < a.len()
        invariant
            i <= a@.len(),
            va == class_views(a@),
            vb == class_views(b@),
            forall|k: int| 0 <= k < i ==> keeps(va, vb, #[trigger] va[k].name),
        decreases a@.len() - i,
    {
        let name = a[i].name.as_str();
        assert(va[i as int].name == name@);
        let ia = last_index(a, name);
        let ib = last_index(b, name);
        match (ia, ib) {
            (Some(x), Some(y)) => {
                if !same_schema(&a[x], &b[y]) {
                    assert(!keeps(va, vb, name@));
                    return false;
                }
            },
            (Some(_), None) => {
                assert(!keeps(va, vb, name@));
                return false;
            },
            (None, _) => {
                proof {
                    lemma_last_named_some(va, i as int);
                }
            },
        }
        i = i + 1;
    }
    assert forall|n: Seq<char>| #[trigger] keeps(va, vb, n) by {
        if last_named(va, n) is Some {
            lemma_last_named_in(va, n);
            let k = choose|k: int| 0 <= k < va.len() && (#[trigger] va[k]).name == n;
            assert(keeps(va, vb, va[k].name));
        }
    }
    true
}

fn same_selection(a: &Vec<String>, b: &Vec<String>) -> (r: bool)
    ensures
        r == (a@.map_values(|s: String| s@) == b@.map_values(|s: String| s@)),
{
    if a.len() != b.len() {
        assert(a@.map_values(|s: String| s@).len() != b@.map_values(|s: String| s@).len());
        return false;
    }
    let mut i: usize = 0;
    while i < a.len()
        invariant
            a@.len() == b@.len(),
            i <= a@.len(),
            forall|k: int| 0 <= k < i ==> a@[k]@ == b@[k]@,
        decreases a@.len() - i,
    {
        if !str_eq(a[i].as_str(), b[i].as_str()) {
            assert(a@.map_values(|s: String| s@)[i as int] != b@.map_values(|s: String| s@)[i as int]);
            return false;
        }
        i = i + 1;
    }
    assert(a@.map_values(|s: String| s@) =~= b@.map_values(|s: String| s@));
    true
}

/// Refuses to compare the class counts of two indexes (see [`spec_diff_check`]).
pub fn diff_check(before: &Index, after: &Index) -> (r: Result<(), Error>)
    ensures
        r == spec_diff_check(before, after),
{
    let (a, b) = match (&before.layout, &after.layout) {
        (Some(a), Some(b)) => (a, b),
        _ => {
            return Err(Error::DiffNeedsTypedIndexes);
        },
    };
    if !str_eq(a.profile.as_str(), b.profile.as_str()) || !str_eq(a.java.as_str(), b.java.as_str())
        || !str_eq(a.architecture.as_str(), b.architecture.as_str()) || !same_selection(&before.only, &after.only)
        || before.identity_mapping != after.identity_mapping || !str_eq(before.mode.as_str(), after.mode.as_str()) {
        return Err(Error::DiffNotComparable);
    }
    let forward = covers(&a.classes, &b.classes);
    let backward = covers(&b.classes, &a.classes);
    proof {
        let va = class_views(a.classes@);
        let vb = class_views(b.classes@);
        assert(a@.classes == va);
        assert(b@.classes == vb);
        if !forward {
            let n = choose|n: Seq<char>| !(#[trigger] keeps(va, vb, n));
            assert(!(keeps(va, vb, n) && keeps(vb, va, n)));
            assert(!schemas_equal(va, vb));
        } else if !backward {
            let n = choose|n: Seq<char>| !(#[trigger] keeps(vb, va, n));
            assert(!(keeps(va, vb, n) && keeps(vb, va, n)));
            assert(!schemas_equal(va, vb));
        }
    }
    if !(forward && backward) {
        return Err(Error::SchemasDiffer);
    }
    Ok(())
}

/// The first class with this name.
pub open spec fn first_named(cs: Seq<ClassView>, name: Seq<char>) -> Option<ClassView>
    decreases cs.len(),
{
    if cs.len() == 0 {
        None
    } else if cs[0].name == name {
        Some(cs[0])
    } else {
        first_named(cs.drop_first(), name)
    }
}

/// Every class of `expected` is, identity included, the first class of its name in `classes`.
pub open spec fn conforms(classes: Seq<ClassView>, expected: Seq<ClassView>) -> bool {
    forall|i: int| 0 <= i < expected.len() ==> first_named(classes, (#[trigger] expected[i]).name) == Some(expected[i])
}

fn same_class(a: &Class, b: &Class) -> (r: bool)
    ensures
        r == (a@ == b@),
{
    let s = same_schema(a, b);
    let k = str_eq(a.klass.as_str(), b.klass.as_str());
    proof {
        if s && k {
            assert(a@ == ClassView { klass: a.klass@, ..schema_of(a@) });
            assert(b@ == ClassView { klass: b.klass@, ..schema_of(b@) });
        }
    }
    s && k
}

fn first_index(cs: &Vec<Class>, name: &str) -> (r: Option<usize>)
    ensures
        match r {
            Some(i) => i < cs@.len() && first_named(class_views(cs@), name@) == Some(cs@[i as int]@),
            None => first_named(class_views(cs@), name@) is None,
        },
{
    let ghost v = class_views(cs@);
    let mut i: usize = 0;
    assert(v.skip(0) =~= v);
    while i < cs.len()
        invariant
            i <= cs@.len(),
            v == class_views(cs@),
            first_named(v, name@) == first_named(v.skip(i as int), name@),
        decreases cs@.len() - i,
    {
        assert(v.skip(i as int).drop_first() =~= v.skip(i + 1));
        assert(v.skip(i as int)[0] == cs@[i as int]@);
        if str_eq(cs[i].name.as_str(), name) {
            return Some(i);
        }
        i = i + 1;
    }
    None
}

/// Whether every class of `expected` is exactly the first class of its name in `layout`.
pub fn conforms_to(layout: &Layout, expected: &Layout) -> (r: bool)
    ensures
        r == conforms(layout@.classes, expected@.classes),
{
    let ghost got = class_views(layout.classes@);
    let ghost want = class_views(expected.classes@);
    assert(layout@.classes == got);
    assert(expected@.classes == want);
    let mut i: usize = 0;
    while i < expected.classes.len()
        invariant
            i <= expected.classes@.len(),
            got == class_views(layout.classes@),
            want == class_views(expected.classes@),
            forall|k: int| 0 <= k < i ==> first_named(got, (#[trigger] want[k]).name) == Some(want[k]),
        decreases expected.classes@.len() - i,
    {
        let c = &expected.classes[i];
        assert(want[i as int] == c@);
        match first_index(&layout.classes, c.name.as_str()) {
            None => {
                return false;
            },
            Some(j) => {
                if !same_class(&layout.classes[j], c) {
                    return false;
                }
            },
        }
        i = i + 1;
    }
    true
}

/// The binding of `name` to the identity of class `c`, if there is one.
pub open spec fn binding_of(name: Seq<char>, c: Option<ClassView>) -> Seq<(Seq<char>, Seq<char>)> {
    match c {
        Some(x) => seq![(name, x.klass)],
        None => Seq::empty(),
    }
}

/// The String and `[B` bindings of a typed layout: each name bound to the identity of the
/// last class of that name (a later class of the same name replaces an earlier one).
pub fn string_bindings(l: &Layout) -> (b: ClassBindings)
    ensures
        b.well_formed(),
        b.entries() == binding_of("[B"@, last_named(l@.classes, "[B"@))
            + binding_of("java.lang.String"@, last_named(l@.classes, "java.lang.String"@)),
{
    proof {
        reveal_strlit("[B");
        reveal_strlit("java.lang.String");
    }
    let ghost v = l.classes@.map_values(|c: Class| c@);
    assert(l@.classes == v);
    let mut b = ClassBindings::new();
    let ghost e0 = b.entries();
    if let Some(i) = last_index(&l.classes, "[B") {
        let added = b.insert("[B".to_owned(), l.classes[i].klass.clone());
        proof {
            let k = choose|k: int| 0 <= k <= e0.len() && b.entries() == e0.insert(k, ("[B"@, v[i as int].klass));
            assert(b.entries() =~= seq![("[B"@, v[i as int].klass)]);
        }
    } else {
        assert(b.entries() =~= Seq::<(Seq<char>, Seq<char>)>::empty());
    }
    let ghost e1 = b.entries();
    assert(e1 == binding_of("[B"@, last_named(v, "[B"@)));
    if let Some(i) = last_index(&l.classes, "java.lang.String") {
        let ghost s = ("java.lang.String"@, v[i as int].klass);
        assert(e1.len() == 0 || e1[0].0 == "[B"@);
        assert(b.spec_get("java.lang.String"@) is None) by {
            if e1.len() > 0 {
                assert(e1[0].0[0] != "java.lang.String"@[0]);
            }
        }
        let added = b.insert("java.lang.String".to_owned(), l.classes[i].klass.clone());
        proof {
            let k = choose|k: int| 0 <= k <= e1.len() && b.entries() == e1.insert(k, s);
            if e1.len() > 0 && k == 0 {
                b.lemma_sorted();
                assert(chars_lt(b.entries()[0].0, b.entries()[1].0));
                assert(b.entries()[0].0 == "java.lang.String"@);
                assert(b.entries()[1].0 == "[B"@);
                assert(!chars_lt("java.lang.String"@, "[B"@));
            }
            assert(b.entries() =~= e1 + seq![s]);
        }
    } else {
        assert(b.entries() =~= e1 + Seq::<(Seq<char>, Seq<char>)>::empty());
    }
    b
}

} // verus!

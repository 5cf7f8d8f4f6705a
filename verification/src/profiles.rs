//! Built-in Java 21 boot-class layout templates. Templates are reusable; class identities
//! are capture-specific and come only from explicit bindings.
use vstd::prelude::*;
use crate::classmap::ClassBindings;
use crate::error::{Error, ErrorView, rview};
use crate::layout::{
    spec_class_check, utf8_len, lemma_classes_err_stays, spec_classes_check, spec_header_ok, spec_validate_layout,
    Class, ClassView, Field, FieldView, Layout, LayoutView, PROFILE, spec_compressed, supported_profile,
};
use crate::number::spec_number;
use crate::text::{str_contains, str_eq};

verus! {

/// The supported profile names.
pub const SUPPORTED: [&'static str; 4] = [
    PROFILE,
    "hotspot21-zgc-nongen-compressedklass-le64",
    "hotspot21-zgc-gen-uncompressed-le64",
    "hotspot21-zgc-gen-compressedklass-le64",
];

/// The identity a template class gets: its binding, or `UNBOUND`.
pub open spec fn bound_klass(bindings: Seq<(Seq<char>, Seq<char>)>, name: Seq<char>) -> Seq<char> {
    if exists|i: int| 0 <= i < bindings.len() && #[trigger] bindings[i].0 == name {
        let i = choose|i: int| 0 <= i < bindings.len() && #[trigger] bindings[i].0 == name;
        bindings[i].1
    } else {
        "UNBOUND"@
    }
}

pub open spec fn fv(name: Seq<char>, offset: u64, t: Seq<char>) -> FieldView {
    FieldView { name, offset, field_type: t }
}

pub open spec fn instance_template(name: Seq<char>, klass: Seq<char>, size: u64, fields: Seq<FieldView>) -> ClassView {
    ClassView {
        name,
        klass,
        kind: "instance"@,
        size,
        fields,
        element: Seq::empty(),
        base: 0,
        scale: 0,
        length_offset: 0,
    }
}

pub open spec fn array_template(name: Seq<char>, klass: Seq<char>, element: Seq<char>, scale: u64, narrow: bool) -> ClassView {
    ClassView {
        name,
        klass,
        kind: "array"@,
        size: if narrow { 16 } else { 24 },
        fields: Seq::empty(),
        element,
        base: if narrow { 16 } else { 24 },
        scale,
        length_offset: if narrow { 12 } else { 16 },
    }
}

pub open spec fn string_fields(narrow: bool) -> Seq<FieldView> {
    if narrow {
        seq![fv("hash"@, 12, "int"@), fv("coder"@, 16, "byte"@), fv("hashIsZero"@, 17, "boolean"@), fv("value"@, 24, "reference"@)]
    } else {
        seq![fv("hash"@, 16, "int"@), fv("coder"@, 20, "byte"@), fv("hashIsZero"@, 21, "boolean"@), fv("value"@, 24, "reference"@)]
    }
}

pub open spec fn list_fields(narrow: bool) -> Seq<FieldView> {
    if narrow {
        seq![fv("modCount"@, 12, "int"@), fv("size"@, 16, "int"@), fv("elementData"@, 24, "reference"@)]
    } else {
        seq![fv("modCount"@, 16, "int"@), fv("size"@, 20, "int"@), fv("elementData"@, 24, "reference"@)]
    }
}

pub open spec fn node_fields(narrow: bool) -> Seq<FieldView> {
    if narrow {
        seq![fv("hash"@, 12, "int"@), fv("key"@, 16, "reference"@), fv("value"@, 24, "reference"@), fv("next"@, 32, "reference"@)]
    } else {
        seq![fv("hash"@, 16, "int"@), fv("key"@, 24, "reference"@), fv("value"@, 32, "reference"@), fv("next"@, 40, "reference"@)]
    }
}

fn fields_of(specs: &[(&'static str, u64, &'static str)]) -> (v: Vec<Field>)
    ensures
        v@.map_values(|f: Field| f@) == specs@.map_values(|t: (&'static str, u64, &'static str)| fv(t.0@, t.1, t.2@)),
{
    let mut v: Vec<Field> = Vec::new();
    let mut i: usize = 0;
    while i < specs.len()
        invariant
            i <= specs@.len(),
            v@.map_values(|f: Field| f@) == specs@.take(i as int).map_values(|t: (&'static str, u64, &'static str)| fv(t.0@, t.1, t.2@)),
        decreases specs@.len() - i,
    {
        let (n, o, t) = specs[i];
        let ghost before = v@;
        v.push(field(n, o, t));
        assert(specs@.take(i + 1).map_values(|t: (&'static str, u64, &'static str)| fv(t.0@, t.1, t.2@)) =~= specs@.take(i as int).map_values(|t: (&'static str, u64, &'static str)| fv(t.0@, t.1, t.2@)).push(fv(n@, o, t@)));
        assert(v@.map_values(|f: Field| f@) =~= before.map_values(|f: Field| f@).push(fv(n@, o, t@)));
        i = i + 1;
    }
    assert(specs@.take(specs@.len() as int) =~= specs@);
    v
}

/// The six built-in class templates, with identities taken from `bindings`.
pub open spec fn templates(narrow: bool, bindings: Seq<(Seq<char>, Seq<char>)>) -> Seq<ClassView> {
    let k = |n: Seq<char>| bound_klass(bindings, n);
    seq![
        instance_template("java.lang.String"@, k("java.lang.String"@), 32, string_fields(narrow)),
        instance_template("java.util.ArrayList"@, k("java.util.ArrayList"@), 32, list_fields(narrow)),
        instance_template(
            "java.util.HashMap$Node"@,
            k("java.util.HashMap$Node"@),
            if narrow { 40 } else { 48 },
            node_fields(narrow),
        ),
        array_template("[B"@, k("[B"@), "byte"@, 1, narrow),
        array_template("[I"@, k("[I"@), "int"@, 4, narrow),
        array_template("[J"@, k("[J"@), "long"@, 8, narrow),
    ]
}

/// The first bound name (in name order) that has no template.
pub open spec fn first_unknown(names: Seq<Seq<char>>, known: Seq<ClassView>) -> Option<Seq<char>>
    decreases names.len(),
{
    if names.len() == 0 {
        None
    } else if exists|j: int| 0 <= j < known.len() && #[trigger] known[j].name == names[0] {
        first_unknown(names.drop_first(), known)
    } else {
        Some(names[0])
    }
}

/// The boot layout of a profile: all templates when nothing is bound, otherwise only the
/// bound ones, each with its bound identity.
pub open spec fn spec_boot(profile: Seq<char>, bindings: Seq<(Seq<char>, Seq<char>)>) -> Result<LayoutView, ErrorView> {
    if !supported_profile(profile) {
        Err(ErrorView::UnknownBootProfile)
    } else {
        let all = templates(spec_compressed(profile), bindings);
        match first_unknown(bindings.map_values(|b: (Seq<char>, Seq<char>)| b.0), all) {
            Some(name) => Err(ErrorView::NoBuiltInLayout(name)),
            None => Ok(LayoutView {
                version: 1,
                profile,
                java: "21.0-template"@,
                architecture: "unspecified"@,
                classes: if bindings.len() == 0 {
                    all
                } else {
                    all.filter(|c: ClassView| exists|i: int| 0 <= i < bindings.len() && #[trigger] bindings[i].0 == c.name)
                },
            }),
        }
    }
}

fn field(name: &str, offset: u64, t: &str) -> (f: Field)
    ensures
        f@ == fv(name@, offset, t@),
{
    Field { name: name.to_owned(), offset, field_type: t.to_owned() }
}

fn klass_for(bindings: &ClassBindings, name: &str) -> (k: String)
    requires
        bindings.well_formed(),
    ensures
        k@ == bound_klass(bindings.entries(), name@),
{
    match bindings.get(name) {
        Some(id) => id.clone(),
        None => "UNBOUND".to_owned(),
    }
}

fn instance(bindings: &ClassBindings, name: &str, size: u64, fields: Vec<Field>) -> (c: Class)
    requires
        bindings.well_formed(),
    ensures
        c@ == instance_template(name@, bound_klass(bindings.entries(), name@), size, fields@.map_values(|f: Field| f@)),
{
    let c = Class {
        name: name.to_owned(),
        klass: klass_for(bindings, name),
        kind: "instance".to_owned(),
        size,
        fields,
        element: String::new(),
        base: 0,
        scale: 0,
        length_offset: 0,
    };
    c
}

fn array(bindings: &ClassBindings, name: &str, element: &str, scale: u64, narrow: bool) -> (c: Class)
    requires
        bindings.well_formed(),
    ensures
        c@ == array_template(name@, bound_klass(bindings.entries(), name@), element@, scale, narrow),
{
    let v: Vec<Field> = Vec::new();
    let c = Class {
        name: name.to_owned(),
        klass: klass_for(bindings, name),
        kind: "array".to_owned(),
        size: if narrow { 16 } else { 24 },
        fields: v,
        element: element.to_owned(),
        base: if narrow { 16 } else { 24 },
        scale,
        length_offset: if narrow { 12 } else { 16 },
    };
    assert(c.fields@.map_values(|f: Field| f@) =~= Seq::<FieldView>::empty());
    c
}

/// The built-in boot layout of `profile` with the given class bindings (see [`spec_boot`]).
pub fn boot(profile: &str, bindings: &ClassBindings) -> (r: Result<Layout, Error>)
    requires
        bindings.well_formed(),
    ensures
        match r {
            Ok(l) => spec_boot(profile@, bindings.entries()) == Ok::<LayoutView, ErrorView>(l@),
            Err(e) => spec_boot(profile@, bindings.entries()) == Err::<LayoutView, ErrorView>(e@),
        },
{
    if !(str_eq(profile, SUPPORTED[0]) || str_eq(profile, SUPPORTED[1]) || str_eq(profile, SUPPORTED[2])
        || str_eq(profile, SUPPORTED[3])) {
        return Err(Error::UnknownBootProfile);
    }
    let narrow = str_contains(profile, "-compressedklass-");
    let ghost b = bindings.entries();
    let mut all: Vec<Class> = Vec::new();
    let sf = if narrow {
        fields_of(&[("hash", 12, "int"), ("coder", 16, "byte"), ("hashIsZero", 17, "boolean"), ("value", 24, "reference")])
    } else {
        fields_of(&[("hash", 16, "int"), ("coder", 20, "byte"), ("hashIsZero", 21, "boolean"), ("value", 24, "reference")])
    };
    assert(sf@.map_values(|f: Field| f@) =~= string_fields(narrow));
    all.push(instance(bindings, "java.lang.String", 32, sf));
    let lf = if narrow {
        fields_of(&[("modCount", 12, "int"), ("size", 16, "int"), ("elementData", 24, "reference")])
    } else {
        fields_of(&[("modCount", 16, "int"), ("size", 20, "int"), ("elementData", 24, "reference")])
    };
    assert(lf@.map_values(|f: Field| f@) =~= list_fields(narrow));
    all.push(instance(bindings, "java.util.ArrayList", 32, lf));
    let nf = if narrow {
        fields_of(&[("hash", 12, "int"), ("key", 16, "reference"), ("value", 24, "reference"), ("next", 32, "reference")])
    } else {
        fields_of(&[("hash", 16, "int"), ("key", 24, "reference"), ("value", 32, "reference"), ("next", 40, "reference")])
    };
    assert(nf@.map_values(|f: Field| f@) =~= node_fields(narrow));
    all.push(instance(bindings, "java.util.HashMap$Node", if narrow { 40 } else { 48 }, nf));
    all.push(array(bindings, "[B", "byte", 1, narrow));
    all.push(array(bindings, "[I", "int", 4, narrow));
    all.push(array(bindings, "[J", "long", 8, narrow));
    let ghost tv = templates(narrow, b);
    assert(all@.map_values(|c: Class| c@) =~= tv);
    // Every bound name needs a template, checked in name order.
    let n = bindings.len();
    let mut i: usize = 0;
    let ghost names = b.map_values(|e: (Seq<char>, Seq<char>)| e.0);
    assert(names.skip(0) =~= names);
    while i < n
        invariant
            n == b.len(),
            b == bindings.entries(),
            names == b.map_values(|e: (Seq<char>, Seq<char>)| e.0),
            i <= n,
            all@.map_values(|c: Class| c@) == tv,
            all@.len() == 6,
            tv.len() == 6,
            supported_profile(profile@),
            narrow == spec_compressed(profile@),
            tv == templates(narrow, b),
            first_unknown(names, tv) == first_unknown(names.skip(i as int), tv),
        decreases n - i,
    {
        let (name, _) = bindings.entry(i);
        let mut found = false;
        let mut j: usize = 0;
        while j < all.len()
            invariant
                all@.len() == 6,
                all@.map_values(|c: Class| c@) == tv,
                j <= 6,
                found == exists|k: int| 0 <= k < j && #[trigger] tv[k].name == name@,
            decreases 6 - j,
        {
            assert(tv[j as int] == all@[j as int]@);
            assert(tv[j as int].name == all@[j as int].name@);
            if str_eq(all[j].name.as_str(), name.as_str()) {
                found = true;
            }
            j = j + 1;
        }
        assert(j == 6);
        let ghost rest = names.skip(i as int);
        assert(rest[0] == name@);
        assert(rest.drop_first() =~= names.skip(i + 1));
        if !found {
            return Err(Error::NoBuiltInLayout(name.clone()));
        }
        i = i + 1;
    }
    assert(names.skip(n as int) =~= Seq::<Seq<char>>::empty());
    let classes = if n == 0 {
        all
    } else {
        let mut kept: Vec<Class> = Vec::new();
        let ghost pred = |c: ClassView| exists|i: int| 0 <= i < b.len() && #[trigger] b[i].0 == c.name;
        let mut j: usize = 0;
        let mut rest = all;
        assert(tv.skip(0) =~= tv);
        // Keep the bound templates, in template order.
        while j < 6
            invariant
                rest@.len() == 6 - j,
                tv.len() == 6,
                rest@.map_values(|c: Class| c@) == tv.skip(j as int),
                j <= 6,
                b == bindings.entries(),
                bindings.well_formed(),
                pred == (|c: ClassView| exists|i: int| 0 <= i < b.len() && #[trigger] b[i].0 == c.name),
                kept@.map_values(|c: Class| c@) == tv.take(j as int).filter(pred),
            decreases 6 - j,
        {
            reveal_with_fuel(Seq::<_>::filter, 1);
            assert(tv.take(j + 1).drop_last() =~= tv.take(j as int));
            assert(tv[j as int] == tv.skip(j as int)[0]);
            assert(rest@[0]@ == tv.skip(j as int)[0]);
            let ghost old_rest = rest@;
            let c = rest.remove(0);
            assert forall|k: int| 0 <= k < rest@.len() implies #[trigger] rest@[k]@ == tv.skip(j + 1)[k] by {
                assert(rest@[k] == old_rest[k + 1]);
                assert(old_rest.map_values(|c: Class| c@)[k + 1] == old_rest[k + 1]@);
            }
            assert(rest@.map_values(|c: Class| c@) =~= tv.skip(j + 1));
            let keep = bindings.contains_key(c.name.as_str());
            if keep {
                let ghost before = kept@;
                kept.push(c);
                assert(kept@.map_values(|c: Class| c@) =~= before.map_values(|c: Class| c@).push(tv[j as int]));
            }
            j = j + 1;
        }
        assert(tv.take(6) =~= tv);
        kept
    };
    Ok(Layout {
        version: 1,
        profile: profile.to_owned(),
        java: "21.0-template".to_owned(),
        architecture: "unspecified".to_owned(),
        classes,
    })
}

/// Law: a boot template without class bindings never validates. Its class identities are
/// placeholders; only capture-specific bindings make a usable layout.
pub proof fn law_unbound_template_invalid(profile: Seq<char>)
    requires
        supported_profile(profile),
    ensures
        spec_boot(profile, Seq::empty()) matches Ok(l) && spec_validate_layout(l) is Err,
{
    reveal_strlit("UNBOUND");
    let b = Seq::<(Seq<char>, Seq<char>)>::empty();
    let all = templates(spec_compressed(profile), b);
    assert(b.map_values(|e: (Seq<char>, Seq<char>)| e.0) =~= Seq::<Seq<char>>::empty());
    let l = spec_boot(profile, b)->Ok_0;
    assert(l.classes == all);
    assert(bound_klass(b, "java.lang.String"@) == "UNBOUND"@);
    assert(l.classes[0].klass == "UNBOUND"@);
    let u = "UNBOUND"@;
    assert(u.last() == 'D');
    assert(spec_number(u) is None);
    if spec_header_ok(l) {
        assert(spec_classes_check(l, 1) is Err);
        lemma_classes_err_stays(l, 1, 6);
    }
}

proof fn lemma_utf8_len_bound(s: Seq<char>)
    ensures
        vstd::utf8::encode_utf8(s).len() <= 4 * s.len(),
    decreases s.len(),
{
    if s.len() > 0 {
        lemma_utf8_len_bound(s.drop_first());
    }
}

/// Law: a boot template whose one binding gives `[B` an identity valid for the header width
/// (nonzero; at most 32 bits when compressed, 8-aligned otherwise) validates.
pub proof fn law_bound_array_template_valid(profile: Seq<char>, id: Seq<char>)
    requires
        supported_profile(profile),
        spec_number(id) matches Some(k) && k != 0 && (spec_compressed(profile) ==> k <= u32::MAX)
            && (!spec_compressed(profile) ==> k % 8 == 0),
    ensures
        spec_boot(profile, seq![("[B"@, id)]) matches Ok(l) && spec_validate_layout(l) is Ok,
{
    reveal_strlit("java.lang.String");
    reveal_strlit("java.util.ArrayList");
    reveal_strlit("java.util.HashMap$Node");
    reveal_strlit("[B");
    reveal_strlit("[I");
    reveal_strlit("[J");
    reveal_strlit("byte");
    reveal_strlit("array");
    reveal_strlit("21.0-template");
    reveal_strlit("21.");
    reveal_strlit("unspecified");
    let b = seq![("[B"@, id)];
    let narrow = spec_compressed(profile);
    let all = templates(narrow, b);
    let names = b.map_values(|e: (Seq<char>, Seq<char>)| e.0);
    assert(names =~= seq!["[B"@]);
    assert(all[3].name == names[0]);
    assert(names.drop_first() =~= Seq::<Seq<char>>::empty());
    assert(first_unknown(names.drop_first(), all) is None);
    assert(exists|j: int| 0 <= j < all.len() && #[trigger] all[j].name == names[0]);
    assert(first_unknown(names, all) is None);
    let pred = |c: ClassView| exists|i: int| 0 <= i < b.len() && #[trigger] b[i].0 == c.name;
    assert(b.len() == 1 && b[0].0 == "[B"@);
    assert(pred(all[3]));
    assert(all[0].name.len() != 2 && all[1].name.len() != 2 && all[2].name.len() != 2);
    assert(all[4].name[1] != 'B' && all[5].name[1] != 'B');
    assert(!pred(all[0]));
    assert(!pred(all[1]));
    assert(!pred(all[2]));
    assert(!pred(all[4]));
    assert(!pred(all[5]));
    reveal_with_fuel(Seq::filter, 7);
    assert(all.take(6) =~= all);
    assert(all.filter(pred) =~= seq![all[3]]);
    let l = spec_boot(profile, b)->Ok_0;
    assert(l.classes =~= seq![all[3]]);
    assert(bound_klass(b, "[B"@) == id) by {
        assert(b[0].0 == "[B"@);
    }
    assert(l.classes[0].klass == id);
    assert("21.0-template"@.subrange(0, 3) =~= "21."@);
    assert(spec_header_ok(l));
    assert(utf8_len("[B"@) <= 1024) by {
        lemma_utf8_len_bound("[B"@);
    }
    assert(spec_class_check(l, 0) is Ok);
    assert(spec_classes_check(l, 0) is Ok);
    assert(spec_classes_check(l, 1) is Ok);
}

} // verus!

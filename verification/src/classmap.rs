//! Class-name to class-identity bindings, kept sorted by name.
use vstd::prelude::*;
use crate::text::chars_of;

verus! {

/// Lexicographic order on character sequences (by code point, which is also the byte
/// order of their UTF-8 encodings).
pub open spec fn chars_lt(a: Seq<char>, b: Seq<char>) -> bool
    decreases a.len(),
{
    if a.len() == 0 {
        b.len() > 0
    } else if b.len() == 0 {
        false
    } else if a[0] < b[0] {
        true
    } else if a[0] > b[0] {
        false
    } else {
        chars_lt(a.drop_first(), b.drop_first())
    }
}

pub proof fn lemma_chars_lt_irreflexive(a: Seq<char>)
    ensures
        !chars_lt(a, a),
    decreases a.len(),
{
    if a.len() > 0 {
        lemma_chars_lt_irreflexive(a.drop_first());
    }
}

pub proof fn lemma_chars_lt_transitive(a: Seq<char>, b: Seq<char>, c: Seq<char>)
    requires
        chars_lt(a, b),
        chars_lt(b, c),
    ensures
        chars_lt(a, c),
    decreases a.len(),
{
    if a.len() > 0 && b.len() > 0 && c.len() > 0 && a[0] == b[0] && b[0] == c[0] {
        lemma_chars_lt_transitive(a.drop_first(), b.drop_first(), c.drop_first());
    }
    if a.len() == 0 {
        assert(c.len() > 0);
    }
}

pub proof fn lemma_chars_lt_total(a: Seq<char>, b: Seq<char>)
    ensures
        chars_lt(a, b) || chars_lt(b, a) || a == b,
    decreases a.len(),
{
    if a.len() > 0 && b.len() > 0 && a[0] == b[0] {
        lemma_chars_lt_total(a.drop_first(), b.drop_first());
        if a.drop_first() == b.drop_first() {
            assert(a.len() == b.len());
            assert forall|k: int| 0 <= k < a.len() implies a[k] == b[k] by {
                if k > 0 {
                    assert(a[k] == a.drop_first()[k - 1]);
                    assert(b[k] == b.drop_first()[k - 1]);
                }
            }
            assert(a =~= b);
        }
    } else if a.len() == 0 && b.len() == 0 {
        assert(a =~= b);
    } else if a.len() > 0 && b.len() > 0 {
        assert(a[0] != b[0]);
    }
}

/// Three-way comparison of character slices: -1, 0 or 1.
pub fn compare_chars(a: &[char], b: &[char]) -> (r: i8)
    ensures
        r == -1 <==> chars_lt(a@, b@),
        r == 0 <==> a@ == b@,
        r == 1 <==> chars_lt(b@, a@),
        r == -1 || r == 0 || r == 1,
{
    let n = a.len();
    let m = b.len();
    let mut i: usize = 0;
    proof {
        lemma_chars_lt_irreflexive(a@);
        lemma_chars_lt_total(a@, b@);
        assert(a@.skip(0) =~= a@);
        assert(b@.skip(0) =~= b@);
    }
    while i < n && i < m
        invariant
            n == a@.len(),
            m == b@.len(),
            i <= n,
            i <= m,
            forall|k: int| 0 <= k < i ==> a@[k] == b@[k],
            chars_lt(a@, b@) == chars_lt(a@.skip(i as int), b@.skip(i as int)),
            chars_lt(b@, a@) == chars_lt(b@.skip(i as int), a@.skip(i as int)),
        decreases n - i,
    {
        let x = a[i];
        let y = b[i];
        assert(a@.skip(i as int)[0] == x && b@.skip(i as int)[0] == y);
        if x < y {
            return -1;
        }
        if x > y {
            return 1;
        }
        assert(a@.skip(i as int).drop_first() =~= a@.skip(i + 1));
        assert(b@.skip(i as int).drop_first() =~= b@.skip(i + 1));
        i = i + 1;
    }
    if n == m {
        assert(a@ =~= b@);
        0
    } else if n < m {
        assert(a@.skip(i as int).len() == 0 && b@.skip(i as int).len() > 0);
        -1
    } else {
        assert(b@.skip(i as int).len() == 0 && a@.skip(i as int).len() > 0);
        1
    }
}

/// A map from class names to class-identity strings, strictly sorted by name.
pub struct ClassBindings {
    pairs: Vec<(String, String)>,
}

impl ClassBindings {
    /// The bindings as (name, identity) character sequences, in name order.
    pub closed spec fn entries(&self) -> Seq<(Seq<char>, Seq<char>)> {
        self.pairs@.map_values(|p: (String, String)| (p.0@, p.1@))
    }

    /// Names strictly increase.
    pub closed spec fn well_formed(&self) -> bool {
        forall|i: int, j: int|
            0 <= i < j < self.pairs@.len() ==> chars_lt(
                #[trigger] self.pairs@[i].0@,
                #[trigger] self.pairs@[j].0@,
            )
    }

    /// The names of well-formed bindings strictly increase.
    pub proof fn lemma_sorted(&self)
        requires
            self.well_formed(),
        ensures
            forall|i: int, j: int| 0 <= i < j < self.entries().len() ==> chars_lt(#[trigger] self.entries()[i].0, #[trigger] self.entries()[j].0),
    {
        assert forall|i: int, j: int| 0 <= i < j < self.entries().len() implies chars_lt(#[trigger] self.entries()[i].0, #[trigger] self.entries()[j].0) by {
            assert(self.entries()[i].0 == self.pairs@[i].0@);
            assert(self.entries()[j].0 == self.pairs@[j].0@);
        }
    }

    /// The identity bound to `name`, if any.
    pub open spec fn spec_get(&self, name: Seq<char>) -> Option<Seq<char>> {
        if exists|i: int| 0 <= i < self.entries().len() && #[trigger] self.entries()[i].0 == name {
            let i = choose|i: int| 0 <= i < self.entries().len() && #[trigger] self.entries()[i].0 == name;
            Some(self.entries()[i].1)
        } else {
            None
        }
    }

    pub fn new() -> (r: ClassBindings)
        ensures
            r.well_formed(),
            r.entries() == Seq::<(Seq<char>, Seq<char>)>::empty(),
    {
        let r = ClassBindings { pairs: Vec::new() };
        assert(r.entries() =~= Seq::<(Seq<char>, Seq<char>)>::empty());
        r
    }

    pub fn len(&self) -> (n: usize)
        ensures
            n == self.entries().len(),
    {
        self.pairs.len()
    }

    /// The `i`-th binding in name order.
    pub fn entry(&self, i: usize) -> (r: (&String, &String))
        requires
            i < self.entries().len(),
        ensures
            (r.0@, r.1@) == self.entries()[i as int],
    {
        (&self.pairs[i].0, &self.pairs[i].1)
    }

    /// Position of `name`, or the position where it would be inserted.
    fn find(&self, name: &[char]) -> (r: (usize, bool))
        requires
            self.well_formed(),
        ensures
            r.0 <= self.entries().len(),
            r.1 ==> self.entries()[r.0 as int].0 == name@ && r.0 < self.entries().len(),
            !r.1 ==> forall|k: int| 0 <= k < self.entries().len() ==> self.entries()[k].0 != name@,
            forall|k: int| 0 <= k < r.0 ==> chars_lt(#[trigger] self.entries()[k].0, name@),
            !r.1 ==> forall|k: int| r.0 <= k < self.entries().len() ==> chars_lt(name@, #[trigger] self.entries()[k].0),
    {
        let n = self.pairs.len();
        let mut i: usize = 0;
        while i < n
            invariant
                n == self.pairs@.len(),
                self.well_formed(),
                i <= n,
                forall|k: int| 0 <= k < i ==> chars_lt(#[trigger] self.entries()[k].0, name@),
            decreases n - i,
        {
            let key = chars_of(self.pairs[i].0.as_str());
            let c = compare_chars(key.as_slice(), name);
            if c == 0 {
                proof {
                    assert forall|k: int| 0 <= k < i implies chars_lt(#[trigger] self.entries()[k].0, name@) by {}
                }
                return (i, true);
            }
            if c == 1 {
                proof {
                    assert forall|k: int| i <= k < self.entries().len() implies chars_lt(name@, #[trigger] self.entries()[k].0) by {
                        if k > i {
                            assert(chars_lt(self.pairs@[i as int].0@, self.pairs@[k].0@));
                            lemma_chars_lt_transitive(name@, self.entries()[i as int].0, self.entries()[k].0);
                        }
                    }
                    assert forall|k: int| 0 <= k < self.entries().len() implies self.entries()[k].0 != name@ by {
                        if k < i {
                            lemma_chars_lt_irreflexive(name@);
                        } else {
                            lemma_chars_lt_irreflexive(name@);
                        }
                    }
                }
                return (i, false);
            }
            i = i + 1;
        }
        proof {
            assert forall|k: int| 0 <= k < self.entries().len() implies self.entries()[k].0 != name@ by {
                lemma_chars_lt_irreflexive(name@);
            }
        }
        (n, false)
    }

    /// The identity bound to `name`.
    pub fn get(&self, name: &str) -> (r: Option<&String>)
        requires
            self.well_formed(),
        ensures
            match self.spec_get(name@) {
                Some(id) => r matches Some(s) && s@ == id,
                None => r is None,
            },
    {
        let key = chars_of(name);
        let (i, found) = self.find(key.as_slice());
        if found {
            proof {
                let j = choose|j: int| 0 <= j < self.entries().len() && #[trigger] self.entries()[j].0 == name@;
                if j != i {
                    if j < i {
                        assert(chars_lt(self.pairs@[j].0@, self.pairs@[i as int].0@));
                    } else {
                        assert(chars_lt(self.pairs@[i as int].0@, self.pairs@[j].0@));
                    }
                    lemma_chars_lt_irreflexive(name@);
                }
            }
            Some(&self.pairs[i].1)
        } else {
            None
        }
    }

    /// Whether `name` is bound.
    pub fn contains_key(&self, name: &str) -> (r: bool)
        requires
            self.well_formed(),
        ensures
            r == (self.spec_get(name@) is Some),
    {
        self.get(name).is_some()
    }

    /// Binds `name` to `id` unless `name` is already bound; returns whether it was added.
    pub fn insert(&mut self, name: String, id: String) -> (added: bool)
        requires
            old(self).well_formed(),
        ensures
            final(self).well_formed(),
            added == (old(self).spec_get(name@) is None),
            added ==> exists|i: int|
                0 <= i <= old(self).entries().len() && final(self).entries() == old(self).entries().insert(i, (name@, id@)),
            !added ==> final(self).entries() == old(self).entries(),
    {
        let key = chars_of(name.as_str());
        let (i, found) = self.find(key.as_slice());
        if found {
            proof {
                assert(self.entries()[i as int].0 == name@);
            }
            return false;
        }
        let ghost old_pairs = self.pairs@;
        let ghost olde = self.entries();
        let ghost nm = name@;
        assert(forall|k: int| 0 <= k < i ==> chars_lt(#[trigger] old_pairs[k].0@, nm)) by {
            assert forall|k: int| 0 <= k < i implies chars_lt(#[trigger] old_pairs[k].0@, nm) by {
                assert(olde[k].0 == old_pairs[k].0@);
            }
        }
        assert(forall|k: int| i <= k < old_pairs.len() ==> chars_lt(nm, #[trigger] old_pairs[k].0@)) by {
            assert forall|k: int| i <= k < old_pairs.len() implies chars_lt(nm, #[trigger] old_pairs[k].0@) by {
                assert(olde[k].0 == old_pairs[k].0@);
            }
        }
        self.pairs.insert(i, (name, id));
        proof {
            assert(self.entries() =~= old(self).entries().insert(i as int, (name@, id@)));
            assert forall|a: int, b: int| 0 <= a < b < self.pairs@.len() implies chars_lt(
                #[trigger] self.pairs@[a].0@,
                #[trigger] self.pairs@[b].0@,
            ) by {
                if a < i && b == i {
                    assert(self.pairs@[a] == old_pairs[a]);
                    assert(chars_lt(old_pairs[a].0@, nm));
                } else if a == i && b > i {
                    assert(self.pairs@[b] == old_pairs[b - 1]);
                    assert(chars_lt(nm, old_pairs[b - 1].0@));
                } else if a < i && b > i {
                    assert(chars_lt(old_pairs[a].0@, old_pairs[b - 1].0@));
                } else if a > i {
                    assert(chars_lt(old_pairs[a - 1].0@, old_pairs[b - 1].0@));
                } else {
                    assert(chars_lt(old_pairs[a].0@, old_pairs[b].0@));
                }
            }
        }
        true
    }
}

} // verus!

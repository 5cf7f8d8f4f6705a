//! Named counters kept sorted by name: an occurrence count and a second number per name
//! (a byte total, or the offset of the first occurrence).
use vstd::prelude::*;
use crate::classmap::{chars_lt, compare_chars, lemma_chars_lt_irreflexive, lemma_chars_lt_transitive};
use crate::text::chars_of;

verus! {

/// Counters by name, strictly sorted by name.
#[derive(Debug)]
pub struct Counts {
    entries: Vec<(String, u64, u64)>,
}

/// The counter of `name` in sorted entries: (count, total), zero when absent.
pub open spec fn entries_get(es: Seq<(Seq<char>, u64, u64)>, name: Seq<char>) -> (u64, u64) {
    if exists|i: int| #[trigger] named_at(es, name, i) {
        let i = choose|i: int| #[trigger] named_at(es, name, i);
        (es[i].1, es[i].2)
    } else {
        (0, 0)
    }
}

/// Entry `i` exists and carries `name`.
pub open spec fn named_at(es: Seq<(Seq<char>, u64, u64)>, name: Seq<char>, i: int) -> bool {
    0 <= i < es.len() && es[i].0 == name
}

/// Entries strictly increase by name.
pub open spec fn entries_sorted(es: Seq<(Seq<char>, u64, u64)>) -> bool {
    forall|i: int, j: int| 0 <= i < j < es.len() ==> chars_lt(#[trigger] es[i].0, #[trigger] es[j].0)
}

pub(crate) proof fn lemma_get_at(es: Seq<(Seq<char>, u64, u64)>, at: int)
    requires
        entries_sorted(es),
        0 <= at < es.len(),
    ensures
        entries_get(es, es[at].0) == (es[at].1, es[at].2),
{
    let name = es[at].0;
    assert(named_at(es, name, at));
    let i = choose|i: int| #[trigger] named_at(es, name, i);
    if i != at {
        if i < at {
            assert(chars_lt(es[i].0, es[at].0));
        } else {
            assert(chars_lt(es[at].0, es[i].0));
        }
        lemma_chars_lt_irreflexive(name);
    }
}

impl Counts {
    /// The counters as (name, count, total), in name order.
    pub closed spec fn view_entries(&self) -> Seq<(Seq<char>, u64, u64)> {
        self.entries@.map_values(|e: (String, u64, u64)| (e.0@, e.1, e.2))
    }

    pub open spec fn wf(&self) -> bool {
        entries_sorted(self.view_entries())
    }

    /// The (count, total) of `name`, zero when absent.
    pub open spec fn get(&self, name: Seq<char>) -> (u64, u64) {
        entries_get(self.view_entries(), name)
    }

    pub fn new() -> (r: Counts)
        ensures
            r.wf(),
            r.view_entries() == Seq::<(Seq<char>, u64, u64)>::empty(),
    {
        let r = Counts { entries: Vec::new() };
        assert(r.view_entries() =~= Seq::<(Seq<char>, u64, u64)>::empty());
        r
    }

    pub fn len(&self) -> (n: usize)
        ensures
            n == self.view_entries().len(),
    {
        self.entries.len()
    }

    /// The `i`-th counter in name order.
    pub fn entry(&self, i: usize) -> (r: (&String, u64, u64))
        requires
            i < self.view_entries().len(),
        ensures
            (r.0@, r.1, r.2) == self.view_entries()[i as int],
    {
        (&self.entries[i].0, self.entries[i].1, self.entries[i].2)
    }

    /// Position of `name`, or where it would be inserted.
    fn find(&self, name: &[char]) -> (r: (usize, bool))
        requires
            self.wf(),
        ensures
            r.0 <= self.view_entries().len(),
            r.1 ==> r.0 < self.view_entries().len() && self.view_entries()[r.0 as int].0 == name@,
            !r.1 ==> forall|k: int| 0 <= k < self.view_entries().len() ==> self.view_entries()[k].0 != name@,
            forall|k: int| 0 <= k < r.0 ==> chars_lt(#[trigger] self.view_entries()[k].0, name@),
            !r.1 ==> forall|k: int| r.0 <= k < self.view_entries().len() ==> chars_lt(name@, #[trigger] self.view_entries()[k].0),
    {
        let n = self.entries.len();
        let ghost es = self.view_entries();
        let mut lo: usize = 0;
        let mut hi: usize = n;
        while lo < hi
            invariant
                n == es.len(),
                es == self.view_entries(),
                self.wf(),
                lo <= hi <= n,
                forall|k: int| 0 <= k < lo ==> chars_lt(#[trigger] es[k].0, name@),
                forall|k: int| hi <= k < n ==> chars_lt(name@, #[trigger] es[k].0),
            decreases hi - lo,
        {
            let mid = lo + (hi - lo) / 2;
            let key = chars_of(self.entries[mid].0.as_str());
            assert(key@ == es[mid as int].0);
            let c = compare_chars(key.as_slice(), name);
            if c == 0 {
                proof {
                    assert forall|k: int| 0 <= k < mid implies chars_lt(#[trigger] es[k].0, name@) by {
                        if k >= lo {
                            assert(chars_lt(es[k].0, es[mid as int].0));
                        }
                    }
                }
                return (mid, true);
            } else if c == -1 {
                proof {
                    assert forall|k: int| 0 <= k <= mid implies chars_lt(#[trigger] es[k].0, name@) by {
                        if lo <= k < mid {
                            assert(chars_lt(es[k].0, es[mid as int].0));
                            lemma_chars_lt_transitive(es[k].0, es[mid as int].0, name@);
                        }
                    }
                }
                lo = mid + 1;
            } else {
                proof {
                    assert forall|k: int| mid <= k < n implies chars_lt(name@, #[trigger] es[k].0) by {
                        if mid < k < hi {
                            assert(chars_lt(es[mid as int].0, es[k].0));
                            lemma_chars_lt_transitive(name@, es[mid as int].0, es[k].0);
                        }
                    }
                }
                hi = mid;
            }
        }
        proof {
            assert forall|k: int| 0 <= k < n implies es[k].0 != name@ by {
                lemma_chars_lt_irreflexive(name@);
            }
        }
        (lo, false)
    }

    /// The counter of `name`.
    pub fn lookup(&self, name: &str) -> (r: (u64, u64))
        requires
            self.wf(),
        ensures
            r == self.get(name@),
    {
        let key = chars_of(name);
        let (i, found) = self.find(key.as_slice());
        if found {
            proof {
                lemma_get_at(self.view_entries(), i as int);
            }
            (self.entries[i].1, self.entries[i].2)
        } else {
            (0, 0)
        }
    }

    /// Adds `count` occurrences and `amount` to the total of `name`; every other counter
    /// is unchanged.
    pub fn add(&mut self, name: &str, count: u64, amount: u64)
        requires
            old(self).wf(),
            old(self).get(name@).0 + count <= u64::MAX,
            old(self).get(name@).1 + amount <= u64::MAX,
        ensures
            final(self).wf(),
            final(self).get(name@) == ((old(self).get(name@).0 + count) as u64, (old(self).get(name@).1 + amount) as u64),
            forall|other: Seq<char>| other != name@ ==> #[trigger] final(self).get(other) == old(self).get(other),
            old(self).positive() && old(self).get(name@).0 + count > 0 ==> final(self).positive(),
            final(self).total() == old(self).total() + count,
            final(self).amount_total() == old(self).amount_total() + amount,
    {
        let key = chars_of(name);
        let (i, found) = self.find(key.as_slice());
        let ghost olde = self.view_entries();
        if found {
            proof {
                lemma_get_at(olde, i as int);
            }
            let (c, t) = (self.entries[i].1, self.entries[i].2);
            let mut e = self.entries.remove(i);
            e.1 = c + count;
            e.2 = t + amount;
            let ghost ne = (e.0@, e.1, e.2);
            self.entries.insert(i, e);
            proof {
                let es = self.view_entries();
                assert(es =~= olde.update(i as int, ne));
                lemma_sums_update(olde, i as int, ne);
                assert(entries_sorted(es)) by {
                    assert forall|a: int, b: int| 0 <= a < b < es.len() implies chars_lt(#[trigger] es[a].0, #[trigger] es[b].0) by {
                        assert(es[a].0 == olde[a].0);
                        assert(es[b].0 == olde[b].0);
                    }
                }
                lemma_get_at(es, i as int);
                assert(self.positive() || !(old(self).positive() && old(self).get(name@).0 + count > 0)) by {
                    if old(self).positive() && old(self).get(name@).0 + count > 0 {
                        assert forall|k: int| 0 <= k < es.len() implies (#[trigger] es[k]).1 > 0 by {
                            if k != i {
                                assert(es[k] == olde[k]);
                            }
                        }
                    }
                }
                assert forall|other: Seq<char>| other != name@ implies #[trigger] entries_get(es, other) == entries_get(olde, other) by {
                    if exists|k: int| #[trigger] named_at(olde, other, k) {
                        let k = choose|k: int| #[trigger] named_at(olde, other, k);
                        lemma_get_at(olde, k);
                        lemma_get_at(es, k);
                    } else {
                        assert forall|k: int| !#[trigger] named_at(es, other, k) by {
                            if 0 <= k < es.len() {
                                assert(es[k].0 == olde[k].0);
                                assert(!named_at(olde, other, k));
                            }
                        }
                    }
                }
            }
        } else {
            let ghost ne = (name@, count, amount);
            self.entries.insert(i, (name.to_owned(), count, amount));
            proof {
                let es = self.view_entries();
                assert(es =~= olde.insert(i as int, ne));
                lemma_sums_insert(olde, i as int, ne);
                assert(entries_sorted(es)) by {
                    assert forall|a: int, b: int| 0 <= a < b < es.len() implies chars_lt(#[trigger] es[a].0, #[trigger] es[b].0) by {
                        if a < i && b == i {
                            assert(chars_lt(olde[a].0, name@));
                        } else if a == i && b > i {
                            assert(chars_lt(name@, olde[b - 1].0));
                        } else if a < i && b > i {
                            assert(chars_lt(olde[a].0, olde[b - 1].0));
                        } else if a > i {
                            assert(chars_lt(olde[a - 1].0, olde[b - 1].0));
                        } else {
                            assert(chars_lt(olde[a].0, olde[b].0));
                        }
                    }
                }
                lemma_get_at(es, i as int);
                assert(!(exists|k: int| #[trigger] named_at(olde, name@, k)));
                assert(self.positive() || !(old(self).positive() && old(self).get(name@).0 + count > 0)) by {
                    if old(self).positive() && old(self).get(name@).0 + count > 0 {
                        assert forall|k: int| 0 <= k < es.len() implies (#[trigger] es[k]).1 > 0 by {
                            if k < i {
                                assert(es[k] == olde[k]);
                            } else if k > i {
                                assert(es[k] == olde[k - 1]);
                            }
                        }
                    }
                }
                assert forall|other: Seq<char>| other != name@ implies #[trigger] entries_get(es, other) == entries_get(olde, other) by {
                    if exists|k: int| #[trigger] named_at(olde, other, k) {
                        let k = choose|k: int| #[trigger] named_at(olde, other, k);
                        lemma_get_at(olde, k);
                        if k < i {
                            assert(es[k] == olde[k]);
                            lemma_get_at(es, k);
                        } else {
                            assert(es[k + 1] == olde[k]);
                            lemma_get_at(es, k + 1);
                        }
                    } else {
                        assert forall|k: int| !#[trigger] named_at(es, other, k) by {
                            if 0 <= k < es.len() {
                                if k < i {
                                    assert(es[k] == olde[k]);
                                    assert(!named_at(olde, other, k));
                                } else if k > i {
                                    assert(es[k] == olde[k - 1]);
                                    assert(!named_at(olde, other, k - 1));
                                }
                            }
                        }
                    }
                }
            }
        }
    }

    /// Adds one occurrence of `name`.
    pub fn bump(&mut self, name: &str)
        requires
            old(self).wf(),
            old(self).get(name@).0 < u64::MAX,
        ensures
            final(self).wf(),
            old(self).positive() ==> final(self).positive(),
            final(self).get(name@) == ((old(self).get(name@).0 + 1) as u64, old(self).get(name@).1),
            forall|other: Seq<char>| other != name@ ==> #[trigger] final(self).get(other) == old(self).get(other),
            final(self).total() == old(self).total() + 1,
            final(self).amount_total() == old(self).amount_total(),
    {
        self.add(name, 1, 0);
    }
}


/// The sum of the counts of some entries.
pub open spec fn count_sum(es: Seq<(Seq<char>, u64, u64)>) -> nat
    decreases es.len(),
{
    if es.len() == 0 {
        0
    } else {
        count_sum(es.drop_last()) + es.last().1 as nat
    }
}

impl Counts {
    /// Every counter has a positive count.
    pub open spec fn positive(&self) -> bool {
        forall|i: int| 0 <= i < self.view_entries().len() ==> (#[trigger] self.view_entries()[i]).1 > 0
    }

    /// The sum of all counts.
    pub open spec fn total(&self) -> nat {
        count_sum(self.view_entries())
    }

    /// The sum of all second numbers.
    pub open spec fn amount_total(&self) -> nat {
        amount_sum(self.view_entries())
    }

    /// The sum of all counts, `None` when it exceeds `u64::MAX`.
    pub fn checked_total(&self) -> (r: Option<u64>)
        ensures
            r == if self.total() <= u64::MAX { Some(self.total() as u64) } else { None::<u64> },
    {
        let ghost es = self.view_entries();
        let mut sum: u64 = 0;
        let mut i: usize = 0;
        while i < self.entries.len()
            invariant
                es == self.view_entries(),
                i <= es.len(),
                sum == count_sum(es.take(i as int)),
            decreases es.len() - i,
        {
            assert(es.take(i + 1).drop_last() =~= es.take(i as int));
            match sum.checked_add(self.entries[i].1) {
                Some(t) => sum = t,
                None => {
                    proof {
                        lemma_count_sum_prefix(es, i + 1);
                    }
                    return None;
                },
            }
            i = i + 1;
        }
        assert(es.take(es.len() as int) =~= es);
        Some(sum)
    }

    /// Whether every counter has a positive count.
    pub fn all_positive(&self) -> (r: bool)
        ensures
            r == self.positive(),
    {
        let mut i: usize = 0;
        while i < self.entries.len()
            invariant
                i <= self.view_entries().len(),
                forall|k: int| 0 <= k < i ==> (#[trigger] self.view_entries()[k]).1 > 0,
            decreases self.view_entries().len() - i,
        {
            if self.entries[i].1 == 0 {
                assert(self.view_entries()[i as int].1 == 0);
                return false;
            }
            i = i + 1;
        }
        true
    }

    /// Whether both hold the same count for every name.
    pub fn agrees_with(&self, other: &Counts) -> (r: bool)
        requires
            self.wf(),
            other.wf(),
        ensures
            r == forall|name: Seq<char>| #[trigger] self.get(name).0 == other.get(name).0,
    {
        let ghost a = self.view_entries();
        let ghost b = other.view_entries();
        let mut i: usize = 0;
        while i < self.entries.len()
            invariant
                a == self.view_entries(),
                b == other.view_entries(),
                self.wf(),
                other.wf(),
                i <= a.len(),
                forall|k: int| 0 <= k < i ==> self.get(#[trigger] a[k].0).0 == other.get(a[k].0).0,
            decreases a.len() - i,
        {
            let name = self.entries[i].0.as_str();
            let (c, _) = other.lookup(name);
            proof {
                lemma_get_at(a, i as int);
            }
            if c != self.entries[i].1 {
                assert(self.get(a[i as int].0).0 != other.get(a[i as int].0).0);
                return false;
            }
            i = i + 1;
        }
        let mut j: usize = 0;
        while j < other.entries.len()
            invariant
                a == self.view_entries(),
                b == other.view_entries(),
                self.wf(),
                other.wf(),
                j <= b.len(),
                forall|k: int| 0 <= k < a.len() ==> self.get(#[trigger] a[k].0).0 == other.get(a[k].0).0,
                forall|k: int| 0 <= k < j ==> self.get(#[trigger] b[k].0).0 == other.get(b[k].0).0,
            decreases b.len() - j,
        {
            let name = other.entries[j].0.as_str();
            let (c, _) = self.lookup(name);
            proof {
                lemma_get_at(b, j as int);
            }
            if c != other.entries[j].1 {
                assert(self.get(b[j as int].0).0 != other.get(b[j as int].0).0);
                return false;
            }
            j = j + 1;
        }
        proof {
            assert forall|name: Seq<char>| #[trigger] self.get(name).0 == other.get(name).0 by {
                if exists|k: int| #[trigger] named_at(a, name, k) {
                    let k = choose|k: int| #[trigger] named_at(a, name, k);
                    assert(self.get(a[k].0).0 == other.get(a[k].0).0);
                } else if exists|k: int| #[trigger] named_at(b, name, k) {
                    let k = choose|k: int| #[trigger] named_at(b, name, k);
                    assert(self.get(b[k].0).0 == other.get(b[k].0).0);
                }
            }
        }
        true
    }
}

/// The sum of the second numbers of some entries.
pub open spec fn amount_sum(es: Seq<(Seq<char>, u64, u64)>) -> nat
    decreases es.len(),
{
    if es.len() == 0 {
        0
    } else {
        amount_sum(es.drop_last()) + es.last().2 as nat
    }
}

proof fn lemma_sums_update(es: Seq<(Seq<char>, u64, u64)>, i: int, e: (Seq<char>, u64, u64))
    requires
        0 <= i < es.len(),
    ensures
        count_sum(es.update(i, e)) + es[i].1 == count_sum(es) + e.1,
        amount_sum(es.update(i, e)) + es[i].2 == amount_sum(es) + e.2,
    decreases es.len(),
{
    let u = es.update(i, e);
    if i == es.len() - 1 {
        assert(u.drop_last() =~= es.drop_last());
    } else {
        assert(u.drop_last() =~= es.drop_last().update(i, e));
        lemma_sums_update(es.drop_last(), i, e);
    }
}

proof fn lemma_sums_insert(es: Seq<(Seq<char>, u64, u64)>, i: int, e: (Seq<char>, u64, u64))
    requires
        0 <= i <= es.len(),
    ensures
        count_sum(es.insert(i, e)) == count_sum(es) + e.1,
        amount_sum(es.insert(i, e)) == amount_sum(es) + e.2,
    decreases es.len(),
{
    let u = es.insert(i, e);
    if i == es.len() {
        assert(u.drop_last() =~= es);
    } else {
        assert(u.drop_last() =~= es.drop_last().insert(i, e));
        lemma_sums_insert(es.drop_last(), i, e);
    }
}

proof fn lemma_count_sum_prefix(es: Seq<(Seq<char>, u64, u64)>, i: int)
    requires
        0 <= i <= es.len(),
    ensures
        count_sum(es.take(i)) <= count_sum(es),
    decreases es.len(),
{
    if i < es.len() {
        assert(es.take(i) =~= es.drop_last().take(i));
        lemma_count_sum_prefix(es.drop_last(), i);
    } else {
        assert(es.take(i) =~= es);
    }
}


impl Counts {
    /// Counts one occurrence of `name`; a new name records `first` as its second number.
    pub fn note(&mut self, name: &str, first: u64)
        requires
            old(self).wf(),
            old(self).positive(),
            old(self).get(name@).0 < u64::MAX,
        ensures
            final(self).wf(),
            final(self).positive(),
            final(self).get(name@) == if old(self).get(name@).0 == 0 {
                (1u64, first)
            } else {
                ((old(self).get(name@).0 + 1) as u64, old(self).get(name@).1)
            },
            forall|other: Seq<char>| other != name@ ==> #[trigger] final(self).get(other) == old(self).get(other),
    {
        let (c, _) = self.lookup(name);
        if c == 0 {
            proof {
                let es = self.view_entries();
                if exists|k: int| #[trigger] named_at(es, name@, k) {
                    let k = choose|k: int| #[trigger] named_at(es, name@, k);
                    lemma_get_at(es, k);
                    assert(es[k].1 > 0);
                }
            }
            self.add(name, 1, first);
        } else {
            self.add(name, 1, 0);
        }
    }
}

} // verus!

//! Ranking of keyed counts: most hits first, then by key, then by position.
use vstd::prelude::*;
use crate::classmap::{chars_lt, compare_chars, lemma_chars_lt_irreflexive, lemma_chars_lt_transitive, lemma_chars_lt_total};
use crate::text::chars_of;

verus! {

/// Entry `a` ranks before entry `b`: more hits, then the smaller key, then the earlier position.
pub open spec fn ranks_before(es: Seq<(Seq<char>, u64)>, a: int, b: int) -> bool {
    ||| es[a].1 > es[b].1
    ||| (es[a].1 == es[b].1 && chars_lt(es[a].0, es[b].0))
    ||| (es[a].1 == es[b].1 && es[a].0 == es[b].0 && a < b)
}

pub proof fn lemma_ranks_strict(es: Seq<(Seq<char>, u64)>, a: int, b: int, c: int)
    ensures
        !ranks_before(es, a, a),
        ranks_before(es, a, b) && ranks_before(es, b, c) ==> ranks_before(es, a, c),
        a != b ==> ranks_before(es, a, b) || ranks_before(es, b, a),
        ranks_before(es, a, b) ==> !ranks_before(es, b, a),
{
    lemma_chars_lt_irreflexive(es[a].0);
    lemma_chars_lt_total(es[a].0, es[b].0);
    if chars_lt(es[a].0, es[b].0) && chars_lt(es[b].0, es[c].0) {
        lemma_chars_lt_transitive(es[a].0, es[b].0, es[c].0);
    }
    if chars_lt(es[a].0, es[b].0) && chars_lt(es[b].0, es[a].0) {
        lemma_chars_lt_transitive(es[a].0, es[b].0, es[a].0);
    }
}

/// `picked` lists the best eligible entries in rank order: each pick is eligible, picks
/// strictly ascend in rank, every other eligible entry ranks after all picks, and the
/// list is cut at `limit` only when eligible entries remain.
pub open spec fn top_ranked(es: Seq<(Seq<char>, u64)>, eligible: Seq<bool>, limit: nat, picked: Seq<usize>) -> bool {
    &&& picked.len() <= limit
    &&& forall|i: int| 0 <= i < picked.len() ==> (#[trigger] picked[i]) < es.len() && eligible[picked[i] as int]
    &&& forall|i: int, j: int| 0 <= i < j < picked.len() ==> ranks_before(es, #[trigger] picked[i] as int, #[trigger] picked[j] as int)
    &&& forall|e: int| 0 <= e < es.len() && eligible[e] && !picked.contains(e as usize) ==>
        forall|i: int| 0 <= i < picked.len() ==> ranks_before(es, #[trigger] picked[i] as int, e)
    &&& picked.len() < limit ==> forall|e: int| 0 <= e < es.len() && eligible[e] ==> picked.contains(e as usize)
}

fn ranks_before_exec(es: &Vec<(String, u64)>, a: usize, b: usize) -> (r: bool)
    requires
        a < es@.len(),
        b < es@.len(),
    ensures
        r == ranks_before(es@.map_values(|e: (String, u64)| (e.0@, e.1)), a as int, b as int),
{
    let ghost v = es@.map_values(|e: (String, u64)| (e.0@, e.1));
    assert(v[a as int] == (es@[a as int].0@, es@[a as int].1));
    assert(v[b as int] == (es@[b as int].0@, es@[b as int].1));
    if es[a].1 != es[b].1 {
        return es[a].1 > es[b].1;
    }
    let ka = chars_of(es[a].0.as_str());
    let kb = chars_of(es[b].0.as_str());
    let c = compare_chars(ka.as_slice(), kb.as_slice());
    if c == 0 {
        a < b
    } else {
        c == -1
    }
}

/// The indices of the best `limit` eligible entries, in rank order (see [`top_ranked`]).
pub fn rank_top(es: &Vec<(String, u64)>, eligible: &Vec<bool>, limit: usize) -> (picked: Vec<usize>)
    requires
        eligible@.len() == es@.len(),
    ensures
        top_ranked(es@.map_values(|e: (String, u64)| (e.0@, e.1)), eligible@, limit as nat, picked@),
{
    let ghost v = es@.map_values(|e: (String, u64)| (e.0@, e.1));
    let n = es.len();
    let mut picked: Vec<usize> = Vec::new();
    let mut exhausted = false;
    while picked.len() < limit && !exhausted
        invariant
            n == es@.len(),
            n == eligible@.len(),
            v == es@.map_values(|e: (String, u64)| (e.0@, e.1)),
            picked@.len() <= limit,
            forall|i: int| 0 <= i < picked@.len() ==> (#[trigger] picked@[i]) < n && eligible@[picked@[i] as int],
            forall|i: int, j: int| 0 <= i < j < picked@.len() ==> ranks_before(v, #[trigger] picked@[i] as int, #[trigger] picked@[j] as int),
            forall|e: int| 0 <= e < n && eligible@[e] && !picked@.contains(e as usize) ==>
                forall|i: int| 0 <= i < picked@.len() ==> ranks_before(v, #[trigger] picked@[i] as int, e),
            exhausted ==> forall|e: int| 0 <= e < n && eligible@[e] ==> picked@.contains(e as usize),
        decreases limit - picked@.len(), if exhausted { 0int } else { 1int },
    {
        let has_last = picked.len() > 0;
        let last: usize = if has_last {
            picked[picked.len() - 1]
        } else {
            0
        };
        let mut best: Option<usize> = None;
        let mut e: usize = 0;
        while e < n
            invariant
                n == es@.len(),
                n == eligible@.len(),
                v == es@.map_values(|e: (String, u64)| (e.0@, e.1)),
                e <= n,
                has_last == (picked@.len() > 0),
                has_last ==> last == picked@.last() && last < n,
                best matches Some(b) ==> b < e && eligible@[b as int] && (has_last ==> ranks_before(v, last as int, b as int)),
                forall|x: int| 0 <= x < e && eligible@[x] && (has_last ==> ranks_before(v, last as int, x)) ==>
                    best is Some && (x == best->0 || ranks_before(v, best->0 as int, x)),
            decreases n - e,
        {
            if eligible[e] {
                let after = !has_last || ranks_before_exec(es, last, e);
                if after {
                    let better = match best {
                        None => true,
                        Some(b) => ranks_before_exec(es, e, b),
                    };
                    if better {
                        proof {
                            assert forall|x: int| 0 <= x < e && eligible@[x] && (has_last ==> ranks_before(v, last as int, x)) implies
                                x == e || ranks_before(v, e as int, x) by {
                                let b = best->0 as int;
                                lemma_ranks_strict(v, e as int, b, x);
                            }
                        }
                        best = Some(e);
                    } else {
                        proof {
                            let b = best->0 as int;
                            lemma_ranks_strict(v, b, e as int, b);
                        }
                    }
                }
            }
            e = e + 1;
        }
        match best {
            None => {
                proof {
                    assert forall|x: int| 0 <= x < n && eligible@[x] implies picked@.contains(x as usize) by {
                        if !picked@.contains(x as usize) {
                            if has_last {
                                assert(ranks_before(v, picked@[picked@.len() - 1] as int, x));
                            }
                        }
                    }
                }
                exhausted = true;
            },
            Some(b) => {
                let ghost old_picked = picked@;
                proof {
                    assert(!old_picked.contains(b)) by {
                        if old_picked.contains(b) {
                            let i = choose|i: int| 0 <= i < old_picked.len() && old_picked[i] == b;
                            if i < old_picked.len() - 1 {
                                assert(ranks_before(v, old_picked[i] as int, old_picked[old_picked.len() - 1] as int));
                                lemma_ranks_strict(v, b as int, last as int, b as int);
                            } else {
                                lemma_ranks_strict(v, b as int, b as int, b as int);
                            }
                        }
                    }
                }
                picked.push(b);
                proof {
                    assert forall|i: int, j: int| 0 <= i < j < picked@.len() implies ranks_before(v, #[trigger] picked@[i] as int, #[trigger] picked@[j] as int) by {
                        if j == picked@.len() - 1 && i < j {
                            if i < j - 1 {
                                assert(ranks_before(v, old_picked[i] as int, last as int));
                                lemma_ranks_strict(v, old_picked[i] as int, last as int, b as int);
                            }
                        } else {
                            assert(picked@[i] == old_picked[i] && picked@[j] == old_picked[j]);
                        }
                    }
                    assert forall|x: int| 0 <= x < n && eligible@[x] && !picked@.contains(x as usize) implies
                        forall|i: int| 0 <= i < picked@.len() ==> ranks_before(v, #[trigger] picked@[i] as int, x) by {
                        assert(!old_picked.contains(x as usize)) by {
                            if old_picked.contains(x as usize) {
                                let i = choose|i: int| 0 <= i < old_picked.len() && old_picked[i] == x as usize;
                                assert(picked@[i] == x as usize);
                            }
                        }
                        assert(picked@[picked@.len() - 1] == b);
                        assert(picked@.contains(b));
                        assert(x != b);
                        assert(ranks_before(v, b as int, x));
                        assert forall|i: int| 0 <= i < picked@.len() implies ranks_before(v, #[trigger] picked@[i] as int, x) by {
                            if i < picked@.len() - 1 {
                                assert(picked@[i] == old_picked[i]);
                            }
                        }
                    }
                }
            },
        }
    }
    picked
}

} // verus!

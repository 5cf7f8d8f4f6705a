//! The ranked header-group lists and class counts that an index summary reports.
use vstd::prelude::*;
use crate::counts::Counts;
use crate::index::Index;
use crate::layout::{ClassView, Layout, Object};
use crate::rank::{rank_top, top_ranked};
use crate::spacing::{GroupStats, MIN_GAPS};
use crate::text::str_eq;

verus! {

/// How many groups each summary list shows.
pub const SUMMARY_GROUPS: usize = 20;

/// Group keys with their hits.
pub open spec fn keyed_hits(stats: Seq<(String, GroupStats)>) -> Seq<(Seq<char>, u64)> {
    stats.map_values(|e: (String, GroupStats)| (e.0@, e.1.hits))
}

/// The three summary categories of a group: periodic (structural or metadata candidates),
/// too few sampled gaps (unclassified), or otherwise object-like.
pub open spec fn periodic_mask(stats: Seq<(String, GroupStats)>) -> Seq<bool> {
    stats.map_values(|e: (String, GroupStats)| e.1.periodic)
}

pub open spec fn unclassified_mask(stats: Seq<(String, GroupStats)>) -> Seq<bool> {
    stats.map_values(|e: (String, GroupStats)| !e.1.periodic && e.1.sampled_gaps < MIN_GAPS)
}

pub open spec fn object_like_mask(stats: Seq<(String, GroupStats)>) -> Seq<bool> {
    stats.map_values(|e: (String, GroupStats)| !e.1.periodic && e.1.sampled_gaps >= MIN_GAPS)
}

pub(crate) fn keyed(stats: &Vec<(String, GroupStats)>) -> (es: Vec<(String, u64)>)
    ensures
        es@.map_values(|e: (String, u64)| (e.0@, e.1)) == keyed_hits(stats@),
        es@.len() == stats@.len(),
{
    let mut es: Vec<(String, u64)> = Vec::new();
    let mut i: usize = 0;
    while i < stats.len()
        invariant
            i <= stats@.len(),
            es@.map_values(|e: (String, u64)| (e.0@, e.1)) == keyed_hits(stats@).take(i as int),
            es@.len() == i,
        decreases stats@.len() - i,
    {
        let ghost before = es@;
        es.push((stats[i].0.clone(), stats[i].1.hits));
        assert(es@.map_values(|e: (String, u64)| (e.0@, e.1)) =~= before.map_values(|e: (String, u64)| (e.0@, e.1)).push((stats@[i as int].0@, stats@[i as int].1.hits)));
        assert(keyed_hits(stats@).take(i + 1) =~= keyed_hits(stats@).take(i as int).push((stats@[i as int].0@, stats@[i as int].1.hits)));
        i = i + 1;
    }
    assert(keyed_hits(stats@).take(stats@.len() as int) =~= keyed_hits(stats@));
    es
}

/// The object-like, periodic and unclassified groups, each list the 20 with the most hits
/// (ties by key), as indices into `stats`.
pub fn summary_groups(stats: &Vec<(String, GroupStats)>) -> (r: (Vec<usize>, Vec<usize>, Vec<usize>))
    ensures
        top_ranked(keyed_hits(stats@), object_like_mask(stats@), SUMMARY_GROUPS as nat, r.0@),
        top_ranked(keyed_hits(stats@), periodic_mask(stats@), SUMMARY_GROUPS as nat, r.1@),
        top_ranked(keyed_hits(stats@), unclassified_mask(stats@), SUMMARY_GROUPS as nat, r.2@),
{
    let es = keyed(stats);
    let mut objects: Vec<bool> = Vec::new();
    let mut periodic: Vec<bool> = Vec::new();
    let mut unclassified: Vec<bool> = Vec::new();
    let mut i: usize = 0;
    while i < stats.len()
        invariant
            i <= stats@.len(),
            objects@ == object_like_mask(stats@).take(i as int),
            periodic@ == periodic_mask(stats@).take(i as int),
            unclassified@ == unclassified_mask(stats@).take(i as int),
        decreases stats@.len() - i,
    {
        let s = &stats[i].1;
        objects.push(!s.periodic && s.sampled_gaps >= MIN_GAPS);
        periodic.push(s.periodic);
        unclassified.push(!s.periodic && s.sampled_gaps < MIN_GAPS);
        assert(objects@ =~= object_like_mask(stats@).take(i + 1));
        assert(periodic@ =~= periodic_mask(stats@).take(i + 1));
        assert(unclassified@ =~= unclassified_mask(stats@).take(i + 1));
        i = i + 1;
    }
    assert(objects@ =~= object_like_mask(stats@));
    assert(periodic@ =~= periodic_mask(stats@));
    assert(unclassified@ =~= unclassified_mask(stats@));
    (rank_top(&es, &objects, SUMMARY_GROUPS), rank_top(&es, &periodic, SUMMARY_GROUPS), rank_top(&es, &unclassified, SUMMARY_GROUPS))
}

/// The statistics stored for a group key: the first entry with that key.
pub open spec fn stats_for(stats: Seq<(String, GroupStats)>, key: Seq<char>) -> Option<GroupStats>
    decreases stats.len(),
{
    if stats.len() == 0 {
        None
    } else if stats[0].0@ == key {
        Some(stats[0].1)
    } else {
        stats_for(stats.drop_first(), key)
    }
}

/// Whether the statistics stored for `key`, if any, are periodic.
fn periodic_for(stats: &Vec<(String, GroupStats)>, key: &str) -> (r: bool)
    ensures
        r == (stats_for(stats@, key@) matches Some(s) && s.periodic),
{
    let mut i: usize = 0;
    assert(stats@.skip(0) =~= stats@);
    while i < stats.len()
        invariant
            i <= stats@.len(),
            stats_for(stats@, key@) == stats_for(stats@.skip(i as int), key@),
        decreases stats@.len() - i,
    {
        assert(stats@.skip(i as int).drop_first() =~= stats@.skip(i + 1));
        if str_eq(stats[i].0.as_str(), key) {
            return stats[i].1.periodic;
        }
        i = i + 1;
    }
    false
}

/// Groups that are not known to be periodic.
pub open spec fn non_periodic_mask(groups: Seq<(String, u64)>, stats: Seq<(String, GroupStats)>) -> Seq<bool> {
    groups.map_values(|g: (String, u64)| !(stats_for(stats, g.0@) matches Some(s) && s.periodic))
}

/// The 20 raw header groups with the most hits (ties by key), leaving out those whose stored
/// statistics are periodic; indices into `groups`.
pub fn top_groups(groups: &Vec<(String, u64)>, stats: &Vec<(String, GroupStats)>) -> (r: Vec<usize>)
    ensures
        top_ranked(groups@.map_values(|e: (String, u64)| (e.0@, e.1)), non_periodic_mask(groups@, stats@), SUMMARY_GROUPS as nat, r@),
{
    let mut keep: Vec<bool> = Vec::new();
    let mut i: usize = 0;
    while i < groups.len()
        invariant
            i <= groups@.len(),
            keep@ == non_periodic_mask(groups@, stats@).take(i as int),
        decreases groups@.len() - i,
    {
        keep.push(!periodic_for(stats, groups[i].0.as_str()));
        assert(keep@ =~= non_periodic_mask(groups@, stats@).take(i + 1));
        i = i + 1;
    }
    assert(keep@ =~= non_periodic_mask(groups@, stats@));
    rank_top(groups, &keep, SUMMARY_GROUPS)
}

/// The class name an index reports for an object: its layout class, or `unknown`.
pub open spec fn object_class_name(layout: Option<Layout>, o: Object) -> Seq<char> {
    match layout {
        Some(l) if o.class_id < l.classes@.len() => l.classes@[o.class_id as int].name@,
        _ => "unknown"@,
    }
}

/// Objects reported under `name`.
pub open spec fn objects_named(layout: Option<Layout>, objects: Seq<Object>, name: Seq<char>) -> nat
    decreases objects.len(),
{
    if objects.len() == 0 {
        0
    } else {
        objects_named(layout, objects.drop_last(), name) + if object_class_name(layout, objects.last()) == name { 1nat } else { 0nat }
    }
}

proof fn lemma_objects_named_bound(layout: Option<Layout>, objects: Seq<Object>, name: Seq<char>)
    ensures
        objects_named(layout, objects, name) <= objects.len(),
    decreases objects.len(),
{
    if objects.len() > 0 {
        lemma_objects_named_bound(layout, objects.drop_last(), name);
    }
}

/// The name an index reports for an object's class.
pub fn class_name<'a>(ix: &'a Index, o: &Object) -> (r: &'a str)
    ensures
        r@ == object_class_name(ix.layout, *o),
{
    match &ix.layout {
        Some(l) => {
            if o.class_id < l.classes.len() {
                l.classes[o.class_id].name.as_str()
            } else {
                "unknown"
            }
        },
        None => "unknown",
    }
}

/// Indexed objects per reported class name.
pub fn object_counts(ix: &Index) -> (c: Counts)
    ensures
        c.wf(),
        forall|name: Seq<char>| #[trigger] c.get(name).0 == objects_named(ix.layout, ix.objects@, name),
{
    let mut c = Counts::new();
    let n = ix.objects.len();
    let mut k: usize = 0;
    while k < n
        invariant
            n == ix.objects@.len(),
            k <= n,
            c.wf(),
            forall|name: Seq<char>| #[trigger] c.get(name).0 == objects_named(ix.layout, ix.objects@.take(k as int), name),
        decreases n - k,
    {
        let name = class_name(ix, &ix.objects[k]);
        proof {
            assert(ix.objects@.take(k + 1).drop_last() =~= ix.objects@.take(k as int));
            lemma_objects_named_bound(ix.layout, ix.objects@.take(k as int), name@);
        }
        c.bump(name);
        k = k + 1;
    }
    assert(ix.objects@.take(n as int) =~= ix.objects@);
    c
}

} // verus!

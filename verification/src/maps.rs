//! Heap mappings from `/proc/PID/maps` and virtual-address translation.
use vstd::prelude::*;
use crate::error::{Error, ErrorView, rview};
use crate::layout::Mapping;
use crate::lines::{copy_range, deep, index_of, lemma_index_of, lemma_index_of_first, lemma_index_of_none, next_line, spec_lines, spec_words, words};
use crate::number::{parse_radix, parse_radix_exec};
use crate::text::{chars_contain, chars_of, seq_contains};

verus! {

broadcast use vstd::seq_lib::group_to_multiset_ensures;

/// What one line of a maps file contributes.
pub enum LineOutcome {
    /// Not a readable heap mapping.
    Skip,
    Refuse(ErrorView),
    Mapped(Mapping),
}

/// A line is a candidate when it mentions the heap memfd; it needs at least six columns
/// and a readable permission column. The range `start-end` and the file offset are
/// hexadecimal; the mapping must be nonempty and lie inside the backing file.
pub open spec fn spec_line(line: Seq<char>, file_size: u64) -> LineOutcome {
    let cols = spec_words(line);
    if !seq_contains(line, "/memfd:java_heap"@) {
        LineOutcome::Skip
    } else if cols.len() < 6 || !(cols[1].len() > 0 && cols[1][0] == 'r') {
        LineOutcome::Skip
    } else {
        match index_of(cols[0], '-') {
            None => LineOutcome::Refuse(ErrorView::BadMappingRange),
            Some(i) => match (
                parse_radix(cols[0].take(i), 16),
                parse_radix(cols[0].skip(i + 1), 16),
                parse_radix(cols[2], 16),
            ) {
                (Some(start), Some(end), Some(offset)) => if end <= start || offset + (end - start)
                    > file_size {
                    LineOutcome::Refuse(ErrorView::MappingOutsideFile)
                } else {
                    LineOutcome::Mapped(Mapping { start, end, offset })
                },
                _ => LineOutcome::Refuse(ErrorView::BadMappingAddress),
            },
        }
    }
}

/// The mappings of the lines in order, refusing at the first bad line or past 65536.
pub open spec fn spec_collect(lines: Seq<Seq<char>>, file_size: u64, acc: Seq<Mapping>) -> Result<Seq<Mapping>, ErrorView>
    decreases lines.len(),
{
    if lines.len() == 0 {
        Ok(acc)
    } else {
        match spec_line(lines[0], file_size) {
            LineOutcome::Skip => spec_collect(lines.drop_first(), file_size, acc),
            LineOutcome::Refuse(e) => Err(e),
            LineOutcome::Mapped(m) => if acc.len() + 1 > 65536 {
                Err(ErrorView::TooManyMappings)
            } else {
                spec_collect(lines.drop_first(), file_size, acc.push(m))
            },
        }
    }
}

/// Two of the mappings share virtual addresses.
pub open spec fn has_overlap(ms: Seq<Mapping>) -> bool {
    exists|i: int, j: int|
        0 <= i < ms.len() && 0 <= j < ms.len() && i != j && #[trigger] ms[i].start < #[trigger] ms[j].end
            && ms[j].start < ms[i].end
}

/// Sorted by start address, strictly.
pub open spec fn sorted_by_start(ms: Seq<Mapping>) -> bool {
    forall|i: int, j: int| 0 <= i < j < ms.len() ==> #[trigger] ms[i].start < #[trigger] ms[j].start
}

/// Every mapping is nonempty and its file range does not overflow.
pub open spec fn well_formed_maps(ms: Seq<Mapping>) -> bool {
    forall|i: int| 0 <= i < ms.len() ==> #[trigger] ms[i].start < ms[i].end && ms[i].offset + (ms[i].end
        - ms[i].start) <= u64::MAX
}

fn parse_line(line: &[char], file_size: u64) -> (r: LineOutcomeExec)
    ensures
        r.spec() == spec_line(line@, file_size),
{
    let marker = chars_of("/memfd:java_heap");
    if !chars_contain(line, marker.as_slice()) {
        return LineOutcomeExec::Skip;
    }
    let cols = words(line);
    let ghost scols = spec_words(line@);
    assert(deep(cols@) == scols);
    if cols.len() < 6 {
        return LineOutcomeExec::Skip;
    }
    assert(scols[1] == cols@[1]@ && scols[0] == cols@[0]@ && scols[2] == cols@[2]@);
    if !(cols[1].len() > 0 && cols[1][0] == 'r') {
        return LineOutcomeExec::Skip;
    }
    let range = &cols[0];
    let n = range.len();
    let mut i: usize = 0;
    while i < n && range[i] != '-'
        invariant
            i <= n,
            n == range@.len(),
            forall|k: int| 0 <= k < i ==> range@[k] != '-',
        decreases n - i,
    {
        i = i + 1;
    }
    if i == n {
        proof {
            lemma_index_of_none(range@, '-');
        }
        return LineOutcomeExec::Refuse(Error::BadMappingRange);
    }
    proof {
        lemma_index_of_first(range@, '-', i as int);
    }
    let lo = copy_range(range.as_slice(), 0, i);
    let hi_start = i + 1;
    assert(range@.subrange(0, i as int) =~= range@.take(i as int));
    assert(lo@.skip(0) =~= lo@);
    let start = parse_radix_exec(lo.as_slice(), 0, 16);
    let start = match start {
        Some(v) => v,
        None => return LineOutcomeExec::Refuse(Error::BadMappingAddress),
    };
    let end = match parse_radix_exec(range.as_slice(), hi_start, 16) {
        Some(v) => v,
        None => return LineOutcomeExec::Refuse(Error::BadMappingAddress),
    };
    assert(cols@[2]@.skip(0) =~= cols@[2]@);
    let offset = match parse_radix_exec(cols[2].as_slice(), 0, 16) {
        Some(v) => v,
        None => return LineOutcomeExec::Refuse(Error::BadMappingAddress),
    };
    if end <= start {
        return LineOutcomeExec::Refuse(Error::MappingOutsideFile);
    }
    match offset.checked_add(end - start) {
        None => LineOutcomeExec::Refuse(Error::MappingOutsideFile),
        Some(last) => if last > file_size {
            LineOutcomeExec::Refuse(Error::MappingOutsideFile)
        } else {
            LineOutcomeExec::Mapped(Mapping { start, end, offset })
        },
    }
}

/// The executable form of a [`LineOutcome`].
pub enum LineOutcomeExec {
    Skip,
    Refuse(Error),
    Mapped(Mapping),
}

impl LineOutcomeExec {
    pub open spec fn spec(&self) -> LineOutcome {
        match self {
            LineOutcomeExec::Skip => LineOutcome::Skip,
            LineOutcomeExec::Refuse(e) => LineOutcome::Refuse(e@),
            LineOutcomeExec::Mapped(m) => LineOutcome::Mapped(*m),
        }
    }
}

proof fn lemma_adjacent_overlap(v: Seq<Mapping>)
    requires
        forall|i: int, j: int| 0 <= i < j < v.len() ==> #[trigger] v[i].start <= #[trigger] v[j].start,
        forall|i: int| 0 <= i < v.len() ==> #[trigger] v[i].start < v[i].end,
    ensures
        has_overlap(v) <==> exists|k: int| 0 <= k < v.len() - 1 && #[trigger] v[k].end > v[k + 1].start,
{
    if has_overlap(v) {
        let (i, j) = choose|i: int, j: int|
            0 <= i < v.len() && 0 <= j < v.len() && i != j && #[trigger] v[i].start < #[trigger] v[j].end
                && v[j].start < v[i].end;
        let (a, b) = if i < j { (i, j) } else { (j, i) };
        assert(v[a].start <= v[b].start);
        if a + 1 < b {
            assert(v[a + 1].start <= v[b].start);
        }
        assert(v[a].end > v[a + 1].start);
    }
    if exists|k: int| 0 <= k < v.len() - 1 && #[trigger] v[k].end > v[k + 1].start {
        let k = choose|k: int| 0 <= k < v.len() - 1 && #[trigger] v[k].end > v[k + 1].start;
        assert(v[k].start <= v[k + 1].start);
        assert(v[k].start < v[k + 1].end);
        assert(v[k + 1].start < v[k].end);
    }
}

fn collect_maps(cs: &[char], file_size: u64) -> (r: Result<Vec<Mapping>, Error>)
    ensures
        match spec_collect(spec_lines(cs@), file_size, seq![]) {
            Err(e) => rview(r) == Err::<Vec<Mapping>, ErrorView>(e),
            Ok(ms) => r matches Ok(v) && v@ == ms,
        },
        r matches Ok(v) ==> forall|i: int| 0 <= i < v@.len() ==> #[trigger] v@[i].start < v@[i].end
            && v@[i].offset + (v@[i].end - v@[i].start) <= file_size,
{
    let n = cs.len();
    let mut maps: Vec<Mapping> = Vec::new();
    let mut pos: usize = 0;
    assert(cs@.skip(0) =~= cs@);
    while pos < n
        invariant
            n == cs@.len(),
            pos <= n,
            maps@.len() <= 65536,
            spec_collect(spec_lines(cs@), file_size, seq![]) == spec_collect(spec_lines(cs@.skip(pos as int)), file_size, maps@),
            forall|i: int| 0 <= i < maps@.len() ==> #[trigger] maps@[i].start < maps@[i].end && maps@[i].offset + (maps@[i].end - maps@[i].start) <= file_size,
        decreases n - pos,
    {
        let (line, next) = next_line(cs, pos);
        let ghost ls = spec_lines(cs@.skip(pos as int));
        assert(ls[0] == line@);
        assert(ls.drop_first() =~= spec_lines(cs@.skip(next as int)));
        match parse_line(line.as_slice(), file_size) {
            LineOutcomeExec::Skip => {},
            LineOutcomeExec::Refuse(e) => return Err(e),
            LineOutcomeExec::Mapped(m) => {
                if maps.len() + 1 > 65536 {
                    return Err(Error::TooManyMappings);
                }
                maps.push(m);
            },
        }
        pos = next;
    }
    assert(cs@.skip(n as int) =~= Seq::<char>::empty());
    assert(spec_lines(cs@.skip(n as int)) =~= Seq::<Seq<char>>::empty());
    Ok(maps)
}

/// Starts never decrease.
pub open spec fn weakly_sorted(v: Seq<Mapping>) -> bool {
    forall|a: int, b: int| 0 <= a < b < v.len() ==> #[trigger] v[a].start <= #[trigger] v[b].start
}

fn sort_by_start(ms: &Vec<Mapping>, file_size: u64) -> (sorted: Vec<Mapping>)
    requires
        forall|a: int| 0 <= a < ms@.len() ==> #[trigger] ms@[a].start < ms@[a].end && ms@[a].offset + (ms@[a].end - ms@[a].start) <= file_size,
    ensures
        sorted@.to_multiset() == ms@.to_multiset(),
        sorted@.len() == ms@.len(),
        weakly_sorted(sorted@),
        forall|a: int| 0 <= a < sorted@.len() ==> #[trigger] sorted@[a].start < sorted@[a].end && sorted@[a].offset + (sorted@[a].end - sorted@[a].start) <= file_size,
{
    let mut sorted: Vec<Mapping> = Vec::new();
    let mut i: usize = 0;
    while i < ms.len()
        invariant
            i <= ms@.len(),
            sorted@.to_multiset() == ms@.take(i as int).to_multiset(),
            sorted@.len() == i,
            weakly_sorted(sorted@),
            forall|a: int| 0 <= a < sorted@.len() ==> #[trigger] sorted@[a].start < sorted@[a].end && sorted@[a].offset + (sorted@[a].end - sorted@[a].start) <= file_size,
            forall|a: int| 0 <= a < ms@.len() ==> #[trigger] ms@[a].start < ms@[a].end && ms@[a].offset + (ms@[a].end - ms@[a].start) <= file_size,
        decreases ms@.len() - i,
    {
        let m = ms[i];
        let mut k = sorted.len();
        while k > 0 && sorted[k - 1].start > m.start
            invariant
                k <= sorted@.len(),
                forall|a: int| k <= a < sorted@.len() ==> #[trigger] sorted@[a].start > m.start,
            decreases k,
        {
            k = k - 1;
        }
        let ghost before = sorted@;
        sorted.insert(k, m);
        proof {
            assert(ms@.take(i + 1) =~= ms@.take(i as int).push(m));
            assert(sorted@ == before.insert(k as int, m));
            assert forall|a: int, b: int| 0 <= a < b < sorted@.len() implies #[trigger] sorted@[a].start <= #[trigger] sorted@[b].start by {
                if b < k {
                    assert(sorted@[a] == before[a] && sorted@[b] == before[b]);
                } else if b == k {
                    assert(sorted@[a] == before[a]);
                    assert(before[k - 1].start <= m.start);
                    if a < k - 1 {
                        assert(before[a].start <= before[k - 1].start);
                    }
                } else if a == k {
                    assert(sorted@[b] == before[b - 1]);
                } else if a < k {
                    assert(sorted@[a] == before[a] && sorted@[b] == before[b - 1]);
                } else {
                    assert(sorted@[a] == before[a - 1] && sorted@[b] == before[b - 1]);
                }
            }
            assert forall|a: int| 0 <= a < sorted@.len() implies #[trigger] sorted@[a].start < sorted@[a].end && sorted@[a].offset + (sorted@[a].end - sorted@[a].start) <= file_size by {
                if a < k {
                    assert(sorted@[a] == before[a]);
                } else if a > k {
                    assert(sorted@[a] == before[a - 1]);
                }
            }
        }
        i = i + 1;
    }
    assert(ms@.take(ms@.len() as int) =~= ms@);
    sorted
}

/// Parses the readable heap mappings of a maps file for a backing file of `file_size`
/// bytes, sorted by start address. Refuses malformed or out-of-file lines, more than
/// 65536 mappings, no mapping at all, and overlapping virtual ranges.
pub fn parse_maps(text: &str, file_size: u64) -> (r: Result<Vec<Mapping>, Error>)
    ensures
        match spec_collect(spec_lines(text@), file_size, seq![]) {
            Err(e) => rview(r) == Err::<Vec<Mapping>, ErrorView>(e),
            Ok(ms) => if ms.len() == 0 {
                rview(r) == Err::<Vec<Mapping>, ErrorView>(ErrorView::NoMappings)
            } else if has_overlap(ms) {
                rview(r) == Err::<Vec<Mapping>, ErrorView>(ErrorView::OverlappingMappings)
            } else {
                r matches Ok(v) && sorted_by_start(v@) && v@.to_multiset() == ms.to_multiset()
            },
        },
        r matches Ok(v) ==> well_formed_maps(v@),
{
    let cs = chars_of(text);
    let maps = collect_maps(cs.as_slice(), file_size)?;
    if maps.len() == 0 {
        return Err(Error::NoMappings);
    }
    let sorted = sort_by_start(&maps, file_size);
    let adjacent = adjacent_overlap(sorted.as_slice());
    proof {
        assert(adjacent == has_overlap(maps@)) by {
            lemma_adjacent_overlap(sorted@);
            lemma_overlap_multiset(sorted@, maps@);
        }
    }
    if adjacent {
        return Err(Error::OverlappingMappings);
    }
    proof {
        assert forall|a: int, b: int| 0 <= a < b < sorted@.len() implies #[trigger] sorted@[a].start < #[trigger] sorted@[b].start by {
            lemma_strict_chain(sorted@, a, b);
        }
    }
    Ok(sorted)
}

/// Whether some mapping ends after the next one starts.
fn adjacent_overlap(v: &[Mapping]) -> (r: bool)
    ensures
        r == exists|k: int| 0 <= k < v@.len() - 1 && #[trigger] v@[k].end > v@[k + 1].start,
{
    let count = v.len();
    if count == 0 {
        return false;
    }
    let mut k: usize = 0;
    while k < count - 1
        invariant
            count == v@.len(),
            count >= 1,
            forall|a: int| 0 <= a < k ==> #[trigger] v@[a].end <= v@[a + 1].start,
        decreases count - k,
    {
        if v[k].end > v[k + 1].start {
            assert(v@[k as int].end > v@[k as int + 1].start);
            return true;
        }
        k = k + 1;
    }
    false
}

proof fn lemma_strict_chain(v: Seq<Mapping>, a: int, b: int)
    requires
        0 <= a < b < v.len(),
        forall|x: int| 0 <= x < v.len() ==> #[trigger] v[x].start < v[x].end,
        forall|x: int| 0 <= x < v.len() - 1 ==> #[trigger] v[x].end <= v[x + 1].start,
    ensures
        v[a].start < v[b].start,
    decreases b - a,
{
    if b > a + 1 {
        lemma_strict_chain(v, a + 1, b);
    }
    assert(v[a].end <= v[a + 1].start);
}

/// Overlap is a property of the multiset of mappings.
proof fn lemma_overlap_multiset(v: Seq<Mapping>, w: Seq<Mapping>)
    requires
        v.to_multiset() == w.to_multiset(),
    ensures
        has_overlap(v) == has_overlap(w),
{
    assert forall|x: Seq<Mapping>, y: Seq<Mapping>| x.to_multiset() == y.to_multiset() && #[trigger] has_overlap(x) implies #[trigger] has_overlap(y) by {
        lemma_overlap_transfer(x, y);
    }
    if has_overlap(v) {
        assert(has_overlap(w));
    }
    if has_overlap(w) {
        assert(has_overlap(v));
    }
}

proof fn lemma_overlap_transfer(x: Seq<Mapping>, y: Seq<Mapping>)
    requires
        x.to_multiset() == y.to_multiset(),
        has_overlap(x),
    ensures
        has_overlap(y),
{
    broadcast use vstd::multiset::group_multiset_axioms;
    let (i, j) = choose|i: int, j: int|
        0 <= i < x.len() && 0 <= j < x.len() && i != j && #[trigger] x[i].start < #[trigger] x[j].end
            && x[j].start < x[i].end;
    let p = x[i];
    let q = x[j];
    assert(x.to_multiset().contains(p));
    assert(y.to_multiset().contains(p));
    let yi = choose|k: int| 0 <= k < y.len() && y[k] == p;
    // q is still in y once p's occurrence at yi is removed.
    let xr = x.remove(i);
    assert(xr.to_multiset() == x.to_multiset().remove(p));
    let jj = if j < i { j } else { j - 1 };
    assert(xr[jj] == q);
    assert(xr.to_multiset().contains(q));
    let yr = y.remove(yi);
    assert(yr.to_multiset() == y.to_multiset().remove(p));
    assert(yr.to_multiset().contains(q));
    let k = choose|k: int| 0 <= k < yr.len() && yr[k] == q;
    let yj = if k < yi { k } else { k + 1 };
    assert(y[yj] == q);
    assert(y[yi].start < y[yj].end && y[yj].start < y[yi].end);
}

/// The file offset of a virtual address: the last mapping whose start is at most the
/// address must contain it.
pub open spec fn spec_translate(maps: Seq<Mapping>, address: u64) -> Option<u64> {
    let below = maps.filter(|m: Mapping| m.start <= address);
    if below.len() == 0 {
        None
    } else {
        let m = below.last();
        if address < m.end {
            Some((m.offset + (address - m.start)) as u64)
        } else {
            None
        }
    }
}

/// The mapping containing `address`, if any, for sorted, well-formed mappings.
pub open spec fn containing(maps: Seq<Mapping>, address: u64) -> Option<int> {
    if exists|i: int| 0 <= i < maps.len() && #[trigger] maps[i].start <= address && address < maps[i].end {
        Some(choose|i: int| 0 <= i < maps.len() && #[trigger] maps[i].start <= address && address < maps[i].end)
    } else {
        None
    }
}

/// Translates a virtual address to a backing-file offset through sorted mappings.
pub fn translate(maps: &[Mapping], address: u64) -> (r: Option<u64>)
    requires
        sorted_by_start(maps@),
        well_formed_maps(maps@),
    ensures
        r == spec_translate(maps@, address),
{
    // Number of mappings whose start is at most `address` (a prefix, as starts increase).
    let n = maps.len();
    let mut lo: usize = 0;
    let mut hi: usize = n;
    while lo < hi
        invariant
            0 <= lo <= hi <= n == maps@.len(),
            forall|k: int| 0 <= k < lo ==> #[trigger] maps@[k].start <= address,
            forall|k: int| hi <= k < n ==> #[trigger] maps@[k].start > address,
            sorted_by_start(maps@),
        decreases hi - lo,
    {
        let mid = lo + (hi - lo) / 2;
        if maps[mid].start <= address {
            lo = mid + 1;
        } else {
            hi = mid;
        }
    }
    let ghost below = maps@.filter(|m: Mapping| m.start <= address);
    proof {
        lemma_filter_prefix(maps@, address, lo as int);
    }
    if lo == 0 {
        return None;
    }
    let m = maps[lo - 1];
    assert(below.last() == m);
    if address < m.end {
        Some(m.offset + (address - m.start))
    } else {
        None
    }
}

proof fn lemma_filter_prefix(maps: Seq<Mapping>, address: u64, p: int)
    requires
        0 <= p <= maps.len(),
        forall|k: int| 0 <= k < p ==> #[trigger] maps[k].start <= address,
        forall|k: int| p <= k < maps.len() ==> #[trigger] maps[k].start > address,
    ensures
        maps.filter(|m: Mapping| m.start <= address) == maps.take(p),
    decreases maps.len(),
{
    reveal_with_fuel(Seq::<_>::filter, 1);
    if maps.len() > 0 {
        if p == maps.len() {
            lemma_filter_prefix(maps.drop_last(), address, p - 1);
            assert(maps.drop_last().take(p - 1) =~= maps.take(p - 1));
            assert(maps.take(p) =~= maps.take(p - 1).push(maps.last()));
        } else {
            lemma_filter_prefix(maps.drop_last(), address, p);
            assert(maps.drop_last().take(p) =~= maps.take(p));
        }
    } else {
        assert(maps.take(p) =~= maps);
    }
}

proof fn lemma_split_point(maps: Seq<Mapping>, address: u64) -> (p: int)
    requires
        sorted_by_start(maps),
    ensures
        0 <= p <= maps.len(),
        forall|k: int| 0 <= k < p ==> #[trigger] maps[k].start <= address,
        forall|k: int| p <= k < maps.len() ==> #[trigger] maps[k].start > address,
    decreases maps.len(),
{
    if maps.len() == 0 {
        0
    } else if maps.last().start <= address {
        assert forall|k: int| 0 <= k < maps.len() implies #[trigger] maps[k].start <= address by {
            if k < maps.len() - 1 {
                assert(maps[k].start < maps[maps.len() - 1].start);
            }
        }
        maps.len() as int
    } else {
        let p = lemma_split_point(maps.drop_last(), address);
        assert forall|k: int| 0 <= k < p implies #[trigger] maps[k].start <= address by {
            assert(maps[k] == maps.drop_last()[k]);
        }
        assert forall|k: int| p <= k < maps.len() implies #[trigger] maps[k].start > address by {
            if k < maps.len() - 1 {
                assert(maps[k] == maps.drop_last()[k]);
            }
        }
        p
    }
}

/// Law: when the mappings are sorted and disjoint, translation finds exactly the mapping
/// that contains the address, and nothing when no mapping does.
pub proof fn law_translate_finds_containing(maps: Seq<Mapping>, address: u64)
    requires
        sorted_by_start(maps),
        well_formed_maps(maps),
        !has_overlap(maps),
    ensures
        match containing(maps, address) {
            Some(i) => spec_translate(maps, address) == Some((maps[i].offset + (address - maps[i].start)) as u64),
            None => spec_translate(maps, address) is None,
        },
{
    let p = lemma_split_point(maps, address);
    lemma_filter_prefix(maps, address, p);
    let below = maps.filter(|m: Mapping| m.start <= address);
    if let Some(i) = containing(maps, address) {
        assert(maps[i].start <= address < maps[i].end);
        assert(i < p);
        if i < p - 1 {
            assert(maps[i].start < maps[p - 1].start);
            assert(maps[p - 1].start <= address);
            assert(maps[i].start < maps[p - 1].end);
        }
        assert(below.last() == maps[p - 1]);
    } else {
        if p > 0 {
            assert(below.last() == maps[p - 1]);
            assert(!(maps[p - 1].start <= address && address < maps[p - 1].end));
        }
    }
}

/// The mapping one line names, if any.
pub open spec fn line_maps(line: Seq<char>, file_size: u64) -> Seq<Mapping> {
    match spec_line(line, file_size) {
        LineOutcome::Mapped(m) => seq![m],
        _ => Seq::empty(),
    }
}

/// The mappings the lines name, in line order.
pub open spec fn mapped_of(lines: Seq<Seq<char>>, file_size: u64) -> Seq<Mapping>
    decreases lines.len(),
{
    if lines.len() == 0 {
        Seq::empty()
    } else {
        line_maps(lines[0], file_size) + mapped_of(lines.drop_first(), file_size)
    }
}

/// No line is refused.
pub open spec fn no_refusal(lines: Seq<Seq<char>>, file_size: u64) -> bool {
    forall|i: int| 0 <= i < lines.len() ==> !(#[trigger] spec_line(lines[i], file_size) is Refuse)
}

/// Without refused lines, collecting gives the named mappings, unless there are too many.
proof fn lemma_collect_clean(lines: Seq<Seq<char>>, file_size: u64, acc: Seq<Mapping>)
    requires
        no_refusal(lines, file_size),
        acc.len() <= 65536,
    ensures
        spec_collect(lines, file_size, acc) == if acc.len() + mapped_of(lines, file_size).len() > 65536 {
            Err::<Seq<Mapping>, ErrorView>(ErrorView::TooManyMappings)
        } else {
            Ok::<Seq<Mapping>, ErrorView>(acc + mapped_of(lines, file_size))
        },
    decreases lines.len(),
{
    if lines.len() > 0 {
        let rest = lines.drop_first();
        assert(no_refusal(rest, file_size)) by {
            assert forall|i: int| 0 <= i < rest.len() implies !(#[trigger] spec_line(rest[i], file_size) is Refuse) by {
                assert(rest[i] == lines[i + 1]);
            }
        }
        assert(!(spec_line(lines[0], file_size) is Refuse));
        match spec_line(lines[0], file_size) {
            LineOutcome::Mapped(m) => {
                assert(line_maps(lines[0], file_size) == seq![m]);
                assert(mapped_of(lines, file_size) == seq![m] + mapped_of(rest, file_size));
                assert(mapped_of(lines, file_size).len() == 1 + mapped_of(rest, file_size).len());
                if acc.len() + 1 > 65536 {
                    assert(spec_collect(lines, file_size, acc) == Err::<Seq<Mapping>, ErrorView>(ErrorView::TooManyMappings));
                } else {
                    lemma_collect_clean(rest, file_size, acc.push(m));
                    assert(acc.push(m) + mapped_of(rest, file_size) =~= acc + mapped_of(lines, file_size));
                    assert(spec_collect(lines, file_size, acc) == spec_collect(rest, file_size, acc.push(m)));
                }
            },
            LineOutcome::Skip => {
                lemma_collect_clean(rest, file_size, acc);
                assert(line_maps(lines[0], file_size) =~= Seq::<Mapping>::empty());
                assert(mapped_of(lines, file_size) =~= mapped_of(rest, file_size));
                assert(spec_collect(lines, file_size, acc) == spec_collect(rest, file_size, acc));
            },
            LineOutcome::Refuse(_) => {},
        }
    } else {
        assert(acc + mapped_of(lines, file_size) =~= acc);
    }
}

/// Removing a line removes exactly its mapping from the multiset of named mappings.
proof fn lemma_mapped_remove(lines: Seq<Seq<char>>, file_size: u64, j: int)
    requires
        0 <= j < lines.len(),
    ensures
        mapped_of(lines, file_size).to_multiset()
            == mapped_of(lines.remove(j), file_size).to_multiset().add(line_maps(lines[j], file_size).to_multiset()),
    decreases lines.len(),
{
    broadcast use vstd::multiset::group_multiset_axioms;
    broadcast use vstd::seq_lib::lemma_multiset_commutative;
    let head = line_maps(lines[0], file_size);
    let rest = lines.drop_first();
    if j == 0 {
        assert(lines.remove(0) =~= rest);
        assert((head + mapped_of(rest, file_size)).to_multiset() =~= head.to_multiset().add(mapped_of(rest, file_size).to_multiset()));
        assert(mapped_of(rest, file_size).to_multiset().add(head.to_multiset())
            =~= head.to_multiset().add(mapped_of(rest, file_size).to_multiset()));
    } else {
        lemma_mapped_remove(rest, file_size, j - 1);
        let r = lines.remove(j);
        assert(r.drop_first() =~= rest.remove(j - 1));
        assert(r[0] == lines[0]);
        assert(rest[j - 1] == lines[j]);
        let mr = mapped_of(rest.remove(j - 1), file_size);
        let x = line_maps(lines[j], file_size);
        assert(mapped_of(r, file_size) == head + mr);
        assert((head + mr).to_multiset() =~= head.to_multiset().add(mr.to_multiset()));
        assert((head + mapped_of(rest, file_size)).to_multiset() =~= head.to_multiset().add(mapped_of(rest, file_size).to_multiset()));
        assert(head.to_multiset().add(mr.to_multiset().add(x.to_multiset()))
            =~= head.to_multiset().add(mr.to_multiset()).add(x.to_multiset()));
    }
}

/// Lines in another order name the same multiset of mappings.
proof fn lemma_mapped_perm(l1: Seq<Seq<char>>, l2: Seq<Seq<char>>, file_size: u64)
    requires
        l1.to_multiset() == l2.to_multiset(),
    ensures
        mapped_of(l1, file_size).to_multiset() == mapped_of(l2, file_size).to_multiset(),
    decreases l1.len(),
{
    broadcast use vstd::multiset::group_multiset_axioms;
    if l1.len() == 0 {
        assert(l2.to_multiset().len() == 0);
        assert(l2.len() == 0);
        assert(l2 =~= l1);
    } else {
        let x = l1[0];
        assert(l1.to_multiset().count(x) > 0);
        assert(l2.contains(x));
        let j = choose|j: int| 0 <= j < l2.len() && l2[j] == x;
        let r1 = l1.remove(0);
        let r2 = l2.remove(j);
        assert(r1.to_multiset() =~= r2.to_multiset());
        lemma_mapped_perm(r1, r2, file_size);
        lemma_mapped_remove(l1, file_size, 0);
        lemma_mapped_remove(l2, file_size, j);
    }
}

/// Law: a maps file read in another line order gives the same mappings, or the same
/// refusal, as long as no line is refused (the first refused line decides otherwise).
pub proof fn law_maps_line_order(l1: Seq<Seq<char>>, l2: Seq<Seq<char>>, file_size: u64)
    requires
        l1.to_multiset() == l2.to_multiset(),
        no_refusal(l1, file_size),
    ensures
        no_refusal(l2, file_size),
        match (spec_collect(l1, file_size, seq![]), spec_collect(l2, file_size, seq![])) {
            (Ok(a), Ok(b)) => a.to_multiset() == b.to_multiset(),
            (Err(e1), Err(e2)) => e1 == e2,
            _ => false,
        },
{
    assert forall|i: int| 0 <= i < l2.len() implies !(#[trigger] spec_line(l2[i], file_size) is Refuse) by {
        assert(l2.to_multiset().count(l2[i]) > 0);
        assert(l1.contains(l2[i]));
        let k = choose|k: int| 0 <= k < l1.len() && l1[k] == l2[i];
        assert(!(spec_line(l1[k], file_size) is Refuse));
    }
    lemma_collect_clean(l1, file_size, seq![]);
    lemma_collect_clean(l2, file_size, seq![]);
    lemma_mapped_perm(l1, l2, file_size);
    assert(mapped_of(l1, file_size).to_multiset().len() == mapped_of(l2, file_size).to_multiset().len());
    assert(seq![] + mapped_of(l1, file_size) =~= mapped_of(l1, file_size));
    assert(seq![] + mapped_of(l2, file_size) =~= mapped_of(l2, file_size));
}

/// Law: lines that name no heap mapping (no `/memfd:java_heap`, too few columns, or not
/// readable), inserted anywhere, change nothing.
pub proof fn law_maps_skip_lines(a: Seq<Seq<char>>, extra: Seq<Seq<char>>, b: Seq<Seq<char>>, file_size: u64, acc: Seq<Mapping>)
    requires
        forall|i: int| 0 <= i < extra.len() ==> #[trigger] spec_line(extra[i], file_size) is Skip,
    ensures
        spec_collect(a + extra + b, file_size, acc) == spec_collect(a + b, file_size, acc),
    decreases a.len(), extra.len(),
{
    if a.len() > 0 {
        assert((a + extra + b).drop_first() =~= a.drop_first() + extra + b);
        assert((a + b).drop_first() =~= a.drop_first() + b);
        assert((a + extra + b)[0] == a[0] && (a + b)[0] == a[0]);
        match spec_line(a[0], file_size) {
            LineOutcome::Mapped(m) => law_maps_skip_lines(a.drop_first(), extra, b, file_size, acc.push(m)),
            _ => law_maps_skip_lines(a.drop_first(), extra, b, file_size, acc),
        }
    } else if extra.len() > 0 {
        assert(a + extra + b =~= seq![extra[0]] + (a + extra.drop_first() + b));
        assert(spec_line(extra[0], file_size) is Skip);
        assert((a + extra + b).drop_first() =~= a + extra.drop_first() + b);
        assert((a + extra + b)[0] == extra[0]);
        law_maps_skip_lines(a, extra.drop_first(), b, file_size, acc);
    } else {
        assert(a + extra + b =~= a + b);
    }
}

} // verus!

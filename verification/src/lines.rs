//! Lines and whitespace-separated words of text, as `str::lines` and
//! `str::split_whitespace` produce them.
use vstd::prelude::*;

verus! {

/// `char::is_whitespace`: the Unicode `White_Space` property.
pub open spec fn is_ws(c: char) -> bool {
    ||| ('\t' <= c && c <= '\r')
    ||| c == ' '
    ||| c == '\u{85}'
    ||| c == '\u{a0}'
    ||| c == '\u{1680}'
    ||| ('\u{2000}' <= c && c <= '\u{200a}')
    ||| c == '\u{2028}'
    ||| c == '\u{2029}'
    ||| c == '\u{202f}'
    ||| c == '\u{205f}'
    ||| c == '\u{3000}'
}

pub fn is_ws_exec(c: char) -> (r: bool)
    ensures
        r == is_ws(c),
{
    ('\t' <= c && c <= '\r') || c == ' ' || c == '\u{85}' || c == '\u{a0}' || c == '\u{1680}' || (
    '\u{2000}' <= c && c <= '\u{200a}') || c == '\u{2028}' || c == '\u{2029}' || c == '\u{202f}'
        || c == '\u{205f}' || c == '\u{3000}'
}

/// Index of the first occurrence of `c`.
pub open spec fn index_of(s: Seq<char>, c: char) -> Option<int>
    decreases s.len(),
{
    if s.len() == 0 {
        None
    } else if s[0] == c {
        Some(0)
    } else {
        match index_of(s.drop_first(), c) {
            Some(i) => Some(i + 1),
            None => None,
        }
    }
}

pub proof fn lemma_index_of(s: Seq<char>, c: char)
    ensures
        match index_of(s, c) {
            Some(i) => 0 <= i < s.len() && s[i] == c && forall|k: int| 0 <= k < i ==> s[k] != c,
            None => forall|k: int| 0 <= k < s.len() ==> s[k] != c,
        },
    decreases s.len(),
{
    if s.len() > 0 && s[0] != c {
        lemma_index_of(s.drop_first(), c);
        if let Some(i) = index_of(s.drop_first(), c) {
            assert forall|k: int| 0 <= k < i + 1 implies s[k] != c by {
                if k > 0 {
                    assert(s[k] == s.drop_first()[k - 1]);
                }
            }
        } else {
            assert forall|k: int| 0 <= k < s.len() implies s[k] != c by {
                if k > 0 {
                    assert(s[k] == s.drop_first()[k - 1]);
                }
            }
        }
    }
}

pub proof fn lemma_index_of_first(s: Seq<char>, c: char, i: int)
    requires
        0 <= i < s.len(),
        s[i] == c,
        forall|k: int| 0 <= k < i ==> s[k] != c,
    ensures
        index_of(s, c) == Some(i),
    decreases s.len(),
{
    if i > 0 {
        lemma_index_of_first(s.drop_first(), c, i - 1);
    }
}

pub proof fn lemma_index_of_none(s: Seq<char>, c: char)
    requires
        forall|k: int| 0 <= k < s.len() ==> s[k] != c,
    ensures
        index_of(s, c) is None,
    decreases s.len(),
{
    if s.len() > 0 {
        lemma_index_of_none(s.drop_first(), c);
    }
}

/// Drops one trailing carriage return.
pub open spec fn strip_cr(l: Seq<char>) -> Seq<char> {
    if l.len() > 0 && l.last() == '\r' {
        l.drop_last()
    } else {
        l
    }
}

/// `str::lines`: split at `\n`, strip the `\r` of a `\r\n` ending, no line after a
/// final newline.
pub open spec fn spec_lines(s: Seq<char>) -> Seq<Seq<char>>
    decreases s.len(),
{
    if s.len() == 0 {
        seq![]
    } else {
        match index_of(s, '\n') {
            None => seq![s],
            Some(i) => {
                proof {
                    lemma_index_of(s, '\n');
                }
                seq![strip_cr(s.take(i))] + spec_lines(s.skip(i + 1))
            },
        }
    }
}

/// Length of the leading run of non-whitespace characters.
pub open spec fn word_end(s: Seq<char>) -> nat
    decreases s.len(),
{
    if s.len() == 0 || is_ws(s[0]) {
        0
    } else {
        1 + word_end(s.drop_first())
    }
}

pub proof fn lemma_word_end(s: Seq<char>, e: int)
    requires
        0 <= e <= s.len(),
        forall|k: int| 0 <= k < e ==> !is_ws(s[k]),
        e == s.len() || is_ws(s[e]),
    ensures
        word_end(s) == e,
    decreases e,
{
    if e > 0 {
        lemma_word_end(s.drop_first(), e - 1);
    }
}

pub proof fn lemma_word_end_bound(s: Seq<char>)
    ensures
        word_end(s) <= s.len(),
        s.len() > 0 && !is_ws(s[0]) ==> word_end(s) >= 1,
    decreases s.len(),
{
    if s.len() > 0 && !is_ws(s[0]) {
        lemma_word_end_bound(s.drop_first());
    }
}

/// `str::split_whitespace`: the maximal runs of non-whitespace characters.
pub open spec fn spec_words(s: Seq<char>) -> Seq<Seq<char>>
    decreases s.len(),
{
    if s.len() == 0 {
        seq![]
    } else if is_ws(s[0]) {
        spec_words(s.drop_first())
    } else {
        proof {
            lemma_word_end_bound(s);
        }
        seq![s.take(word_end(s) as int)] + spec_words(s.skip(word_end(s) as int))
    }
}

/// The characters `cs[lo..hi]` as a vector.
pub fn copy_range(cs: &[char], lo: usize, hi: usize) -> (v: Vec<char>)
    requires
        lo <= hi <= cs@.len(),
    ensures
        v@ == cs@.subrange(lo as int, hi as int),
{
    let mut v: Vec<char> = Vec::new();
    let mut i = lo;
    while i < hi
        invariant
            lo <= i <= hi <= cs@.len(),
            v@ == cs@.subrange(lo as int, i as int),
        decreases hi - i,
    {
        v.push(cs[i]);
        i = i + 1;
        assert(v@ =~= cs@.subrange(lo as int, i as int));
    }
    v
}

/// The deep view of a vector of character vectors.
pub open spec fn deep(v: Seq<Vec<char>>) -> Seq<Seq<char>> {
    v.map_values(|w: Vec<char>| w@)
}

/// The line that starts at `pos`, and where the next one starts.
pub fn next_line(cs: &[char], pos: usize) -> (r: (Vec<char>, usize))
    requires
        pos < cs@.len(),
    ensures
        pos < r.1 <= cs@.len(),
        spec_lines(cs@.skip(pos as int)) == seq![r.0@] + spec_lines(cs@.skip(r.1 as int)),
{
    let n = cs.len();
    let ghost s = cs@.skip(pos as int);
    let mut j = pos;
    while j < n && cs[j] != '\n'
        invariant
            pos <= j <= n,
            n == cs@.len(),
            forall|k: int| pos <= k < j ==> cs@[k] != '\n',
        decreases n - j,
    {
        j = j + 1;
    }
    if j == n {
        proof {
            lemma_index_of_none(s, '\n');
            assert(cs@.skip(n as int) =~= Seq::<char>::empty());
            assert(spec_lines(cs@.skip(n as int)) =~= Seq::<Seq<char>>::empty());
            assert(cs@.subrange(pos as int, n as int) =~= s);
        }
        let line = copy_range(cs, pos, n);
        assert(seq![line@] + Seq::<Seq<char>>::empty() =~= seq![line@]);
        return (line, n);
    }
    proof {
        lemma_index_of_first(s, '\n', j - pos);
        assert(s.skip(j - pos + 1) =~= cs@.skip(j + 1));
        assert(s.take(j - pos) =~= cs@.subrange(pos as int, j as int));
    }
    let end = if j > pos && cs[j - 1] == '\r' {
        j - 1
    } else {
        j
    };
    let line = copy_range(cs, pos, end);
    proof {
        let t = s.take(j - pos);
        if j > pos && cs@[j - 1] == '\r' {
            assert(strip_cr(t) =~= line@);
        } else {
            assert(strip_cr(t) =~= line@);
        }
    }
    (line, j + 1)
}

/// The whitespace-separated words of a line.
pub fn words(line: &[char]) -> (r: Vec<Vec<char>>)
    ensures
        deep(r@) == spec_words(line@),
{
    let n = line.len();
    let mut out: Vec<Vec<char>> = Vec::new();
    let mut pos: usize = 0;
    assert(line@.skip(0) =~= line@);
    while pos < n
        invariant
            n == line@.len(),
            pos <= n,
            spec_words(line@) == deep(out@) + spec_words(line@.skip(pos as int)),
        decreases n - pos,
    {
        let ghost s = line@.skip(pos as int);
        assert(s[0] == line@[pos as int]);
        if is_ws_exec(line[pos]) {
            assert(s.drop_first() =~= line@.skip(pos + 1));
            pos = pos + 1;
        } else {
            let mut e = pos + 1;
            while e < n && !is_ws_exec(line[e])
                invariant
                    pos < e <= n,
                    n == line@.len(),
                    forall|k: int| pos <= k < e ==> !is_ws(line@[k]),
                decreases n - e,
            {
                e = e + 1;
            }
            proof {
                lemma_word_end(s, e - pos);
                assert(s.take(e - pos) =~= line@.subrange(pos as int, e as int));
                assert(s.skip(e - pos) =~= line@.skip(e as int));
            }
            let w = copy_range(line, pos, e);
            let ghost before = out@;
            out.push(w);
            assert(deep(out@) =~= deep(before) + seq![w@]);
            pos = e;
        }
    }
    assert(line@.skip(n as int) =~= Seq::<char>::empty());
    assert(deep(out@) + Seq::<Seq<char>>::empty() =~= deep(out@));
    out
}

} // verus!

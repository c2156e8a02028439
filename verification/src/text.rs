//! Character-level text primitives: whitespace, trimming, splitting,
//! prefixes. Each spec function states the meaning of the matching
//! operation on `str`; each executable function works on a `Vec<char>`
//! copy of the text and reports positions into it.
use vstd::prelude::*;

verus! {

/// Unicode `White_Space`, the property that `char::is_whitespace` tests.
pub open spec fn is_whitespace(c: char) -> bool {
    ||| ('\u{9}' <= c && c <= '\u{d}')
    ||| c == ' '
    ||| c == '\u{85}'
    ||| c == '\u{a0}'
    ||| c == '\u{1680}'
    ||| ('\u{2000}' <= c && c <= '\u{200a}')
    ||| c == '\u{2028}'
    ||| c == '\u{2029}'
    ||| c == '\u{202f}'
    ||| c == '\u{205f}'
    ||| c == '\u{3000}'
}

pub fn whitespace(c: char) -> (r: bool)
    ensures
        r == is_whitespace(c),
{
    ('\u{9}' <= c && c <= '\u{d}') || c == ' ' || c == '\u{85}' || c == '\u{a0}' || c
        == '\u{1680}' || ('\u{2000}' <= c && c <= '\u{200a}') || c == '\u{2028}' || c
        == '\u{2029}' || c == '\u{202f}' || c == '\u{205f}' || c == '\u{3000}'
}

/// What text is split on.
#[derive(Clone, Copy, Debug)]
pub enum Sep {
    /// One given character.
    Char(char),
    /// Any whitespace character.
    Whitespace,
}

impl Sep {
    pub open spec fn separates(self, c: char) -> bool {
        match self {
            Sep::Char(x) => c == x,
            Sep::Whitespace => is_whitespace(c),
        }
    }

    pub fn matches(&self, c: char) -> (r: bool)
        ensures
            r == self.separates(c),
    {
        match self {
            Sep::Char(x) => c == *x,
            Sep::Whitespace => whitespace(c),
        }
    }
}

/// The pieces that `str::split` yields: the text between separators, in
/// order, empty pieces included; always at least one piece.
pub open spec fn pieces(s: Seq<char>, sep: Sep) -> Seq<Seq<char>>
    decreases s.len(),
{
    if s.len() == 0 {
        seq![Seq::empty()]
    } else {
        let p = pieces(s.drop_last(), sep);
        if sep.separates(s.last()) {
            p.push(Seq::empty())
        } else {
            p.update(p.len() - 1, p.last().push(s.last()))
        }
    }
}

/// The non-empty members of `ps`, in order.
pub open spec fn non_empty(ps: Seq<Seq<char>>) -> Seq<Seq<char>>
    decreases ps.len(),
{
    if ps.len() == 0 {
        Seq::empty()
    } else if ps.last().len() == 0 {
        non_empty(ps.drop_last())
    } else {
        non_empty(ps.drop_last()).push(ps.last())
    }
}

/// What `str::split_whitespace` yields.
pub open spec fn words(s: Seq<char>) -> Seq<Seq<char>> {
    non_empty(pieces(s, Sep::Whitespace))
}

/// `str::trim_start`.
pub open spec fn trim_start(s: Seq<char>) -> Seq<char>
    decreases s.len(),
{
    if s.len() > 0 && is_whitespace(s[0]) {
        trim_start(s.drop_first())
    } else {
        s
    }
}

/// `str::trim_end`.
pub open spec fn trim_end(s: Seq<char>) -> Seq<char>
    decreases s.len(),
{
    if s.len() > 0 && is_whitespace(s.last()) {
        trim_end(s.drop_last())
    } else {
        s
    }
}

/// `str::trim`.
pub open spec fn trim(s: Seq<char>) -> Seq<char> {
    trim_end(trim_start(s))
}

/// `str::trim_end_matches` with one character.
pub open spec fn trim_end_char(s: Seq<char>, c: char) -> Seq<char>
    decreases s.len(),
{
    if s.len() > 0 && s.last() == c {
        trim_end_char(s.drop_last(), c)
    } else {
        s
    }
}

/// `str::strip_prefix`.
pub open spec fn strip_prefix(s: Seq<char>, p: Seq<char>) -> Option<Seq<char>> {
    if p.len() <= s.len() && s.take(p.len() as int) == p {
        Some(s.skip(p.len() as int))
    } else {
        None
    }
}

/// `str::starts_with`.
pub open spec fn starts_with(s: Seq<char>, p: Seq<char>) -> bool {
    strip_prefix(s, p) is Some
}

/// Position `i` holds the first `c` in `s`.
pub open spec fn first_at(s: Seq<char>, c: char, i: int) -> bool {
    &&& 0 <= i < s.len()
    &&& s[i] == c
    &&& forall|j: int| 0 <= j < i ==> s[j] != c
}

/// `str::split_once` with one character: the text before the first `c`
/// and the text after it.
pub open spec fn split_once(s: Seq<char>, c: char) -> Option<(Seq<char>, Seq<char>)> {
    if exists|i: int| 0 <= i < s.len() && s[i] == c {
        let i = choose|i: int| first_at(s, c, i);
        Some((s.take(i), s.skip(i + 1)))
    } else {
        None
    }
}

/// The texts that the spans `sps` cut out of `cs`.
pub open spec fn texts(cs: Seq<char>, sps: Seq<(usize, usize)>) -> Seq<Seq<char>> {
    sps.map_values(|sp: (usize, usize)| cs.subrange(sp.0 as int, sp.1 as int))
}

/// Every span of `sps` lies within `lo..hi`.
pub open spec fn spans_within(sps: Seq<(usize, usize)>, lo: int, hi: int) -> bool {
    forall|k: int| 0 <= k < sps.len() ==> lo <= #[trigger] sps[k].0 <= sps[k].1 <= hi
}

/// The characters of `s`, one per element.
pub fn chars_of(s: &str) -> (r: Vec<char>)
    ensures
        r@ == s@,
{
    let mut r: Vec<char> = Vec::new();
    for c in it: s.chars()
        invariant
            r@ == it.seq().take(it.index() as int),
    {
        r.push(c);
    }
    r
}

pub proof fn lemma_pieces_not_empty(s: Seq<char>, sep: Sep)
    ensures
        pieces(s, sep).len() >= 1,
    decreases s.len(),
{
    if s.len() > 0 {
        lemma_pieces_not_empty(s.drop_last(), sep);
    }
}

/// The spans of the pieces of `cs[lo..hi]` split at `sep`.
pub fn split_spans(cs: &Vec<char>, lo: usize, hi: usize, sep: Sep) -> (r: Vec<(usize, usize)>)
    requires
        lo <= hi <= cs@.len(),
    ensures
        texts(cs@, r@) == pieces(cs@.subrange(lo as int, hi as int), sep),
        spans_within(r@, lo as int, hi as int),
{
    let mut out: Vec<(usize, usize)> = Vec::new();
    let mut start: usize = lo;
    let mut i: usize = lo;
    assert(texts(cs@, out@) =~= Seq::<Seq<char>>::empty());
    assert(cs@.subrange(lo as int, lo as int) =~= Seq::<char>::empty());
    assert(texts(cs@, out@).push(cs@.subrange(start as int, i as int)) =~= pieces(
        cs@.subrange(lo as int, i as int),
        sep,
    ));
    while i < hi
        invariant
            lo <= start <= i <= hi <= cs@.len(),
            spans_within(out@, lo as int, start as int),
            texts(cs@, out@).push(cs@.subrange(start as int, i as int)) == pieces(
                cs@.subrange(lo as int, i as int),
                sep,
            ),
        decreases hi - i,
    {
        let ghost before = texts(cs@, out@);
        let ghost grown = cs@.subrange(lo as int, i + 1);
        assert(grown.drop_last() =~= cs@.subrange(lo as int, i as int));
        assert(grown.last() == cs@[i as int]);
        proof {
            lemma_pieces_not_empty(cs@.subrange(lo as int, i as int), sep);
        }
        if sep.matches(cs[i]) {
            out.push((start, i));
            assert(texts(cs@, out@) =~= before.push(cs@.subrange(start as int, i as int)));
            start = i + 1;
            i = i + 1;
            assert(cs@.subrange(start as int, i as int) =~= Seq::<char>::empty());
        } else {
            i = i + 1;
            assert(cs@.subrange(start as int, i as int) =~= cs@.subrange(
                start as int,
                i - 1,
            ).push(cs@[i - 1]));
        }
        assert(texts(cs@, out@).push(cs@.subrange(start as int, i as int)) =~= pieces(
            cs@.subrange(lo as int, i as int),
            sep,
        ));
    }
    let ghost before = texts(cs@, out@);
    out.push((start, hi));
    assert(texts(cs@, out@) =~= before.push(cs@.subrange(start as int, hi as int)));
    out
}

/// The spans of the words of `cs[lo..hi]`, as `str::split_whitespace`
/// finds them.
pub fn word_spans(cs: &Vec<char>, lo: usize, hi: usize) -> (r: Vec<(usize, usize)>)
    requires
        lo <= hi <= cs@.len(),
    ensures
        texts(cs@, r@) == words(cs@.subrange(lo as int, hi as int)),
        spans_within(r@, lo as int, hi as int),
{
    let all = split_spans(cs, lo, hi, Sep::Whitespace);
    let ghost ps = texts(cs@, all@);
    let mut out: Vec<(usize, usize)> = Vec::new();
    let mut k: usize = 0;
    assert(ps.take(0) =~= Seq::<Seq<char>>::empty());
    while k < all.len()
        invariant
            k <= all@.len(),
            lo <= hi <= cs@.len(),
            ps == texts(cs@, all@),
            spans_within(all@, lo as int, hi as int),
            spans_within(out@, lo as int, hi as int),
            texts(cs@, out@) == non_empty(ps.take(k as int)),
        decreases all@.len() - k,
    {
        let ghost before = texts(cs@, out@);
        assert(ps.take(k + 1).drop_last() =~= ps.take(k as int));
        assert(ps.take(k + 1).last() == ps[k as int]);
        let (a, b) = all[k];
        assert(lo <= all@[k as int].0 <= all@[k as int].1 <= hi);
        assert(ps[k as int] == cs@.subrange(a as int, b as int));
        if a < b {
            out.push((a, b));
            assert(texts(cs@, out@) =~= before.push(cs@.subrange(a as int, b as int)));
        }
        k = k + 1;
    }
    assert(ps.take(all@.len() as int) =~= ps);
    out
}

/// The span of `trim(cs[lo..hi])`.
pub fn trim_span(cs: &Vec<char>, lo: usize, hi: usize) -> (r: (usize, usize))
    requires
        lo <= hi <= cs@.len(),
    ensures
        lo <= r.0 <= r.1 <= hi,
        cs@.subrange(r.0 as int, r.1 as int) == trim(cs@.subrange(lo as int, hi as int)),
{
    let mut a: usize = lo;
    while a < hi && whitespace(cs[a])
        invariant
            lo <= a <= hi <= cs@.len(),
            trim_start(cs@.subrange(lo as int, hi as int)) == trim_start(
                cs@.subrange(a as int, hi as int),
            ),
        decreases hi - a,
    {
        assert(cs@.subrange(a as int, hi as int).drop_first() =~= cs@.subrange(
            a + 1,
            hi as int,
        ));
        a = a + 1;
    }
    assert(trim_start(cs@.subrange(a as int, hi as int)) == cs@.subrange(a as int, hi as int));
    let mut b: usize = hi;
    while a < b && whitespace(cs[b - 1])
        invariant
            lo <= a <= b <= hi <= cs@.len(),
            trim(cs@.subrange(lo as int, hi as int)) == trim_end(
                cs@.subrange(a as int, b as int),
            ),
        decreases b - a,
    {
        assert(cs@.subrange(a as int, b as int).drop_last() =~= cs@.subrange(a as int, b - 1));
        b = b - 1;
    }
    (a, b)
}

/// The end of `trim_end_char(cs[lo..hi], c)`.
pub fn trim_end_char_span(cs: &Vec<char>, lo: usize, hi: usize, c: char) -> (r: usize)
    requires
        lo <= hi <= cs@.len(),
    ensures
        lo <= r <= hi,
        cs@.subrange(lo as int, r as int) == trim_end_char(cs@.subrange(lo as int, hi as int), c),
{
    let mut b: usize = hi;
    while lo < b && cs[b - 1] == c
        invariant
            lo <= b <= hi <= cs@.len(),
            trim_end_char(cs@.subrange(lo as int, hi as int), c) == trim_end_char(
                cs@.subrange(lo as int, b as int),
                c,
            ),
        decreases b - lo,
    {
        assert(cs@.subrange(lo as int, b as int).drop_last() =~= cs@.subrange(lo as int, b - 1));
        b = b - 1;
    }
    b
}

/// Where `cs[lo..hi]` continues after the prefix `p`, if it starts with it.
pub fn after_prefix(cs: &Vec<char>, lo: usize, hi: usize, p: &Vec<char>) -> (r: Option<usize>)
    requires
        lo <= hi <= cs@.len(),
    ensures
        match strip_prefix(cs@.subrange(lo as int, hi as int), p@) {
            Some(rest) => r == Some((lo + p@.len()) as usize) && rest == cs@.subrange(
                lo + p@.len(),
                hi as int,
            ),
            None => r is None,
        },
{
    let ghost s = cs@.subrange(lo as int, hi as int);
    if p.len() > hi - lo {
        return None;
    }
    let mut k: usize = 0;
    while k < p.len()
        invariant
            k <= p@.len() <= hi - lo,
            lo <= hi <= cs@.len(),
            s == cs@.subrange(lo as int, hi as int),
            forall|j: int| 0 <= j < k ==> s[j] == p@[j],
        decreases p@.len() - k,
    {
        if cs[lo + k] != p[k] {
            assert(s.take(p@.len() as int)[k as int] != p@[k as int]);
            return None;
        }
        k = k + 1;
    }
    assert(s.take(p@.len() as int) =~= p@);
    assert(s.skip(p@.len() as int) =~= cs@.subrange(lo + p@.len(), hi as int));
    Some(lo + p.len())
}

/// The position of the first `c` in `cs[lo..hi]`, if any.
pub fn find_char(cs: &Vec<char>, lo: usize, hi: usize, c: char) -> (r: Option<usize>)
    requires
        lo <= hi <= cs@.len(),
    ensures
        match split_once(cs@.subrange(lo as int, hi as int), c) {
            Some((before, after)) => {
                &&& r matches Some(i)
                &&& lo <= i < hi
                &&& before == cs@.subrange(lo as int, i as int)
                &&& after == cs@.subrange(i + 1, hi as int)
            },
            None => r is None,
        },
{
    let ghost s = cs@.subrange(lo as int, hi as int);
    let mut i: usize = lo;
    while i < hi
        invariant
            lo <= i <= hi <= cs@.len(),
            s == cs@.subrange(lo as int, hi as int),
            forall|j: int| 0 <= j < i - lo ==> s[j] != c,
        decreases hi - i,
    {
        if cs[i] == c {
            let ghost at = (i - lo) as int;
            assert(first_at(s, c, at));
            assert(s[at] == c);
            let ghost chosen = choose|j: int| first_at(s, c, j);
            assert(first_at(s, c, chosen));
            assert(chosen == at) by {
                if chosen < at {
                    assert(s[chosen] != c);
                }
                if chosen > at {
                    assert(s[at] != c);
                }
            }
            assert(s.take(at) =~= cs@.subrange(lo as int, i as int));
            assert(s.skip(at + 1) =~= cs@.subrange(i + 1, hi as int));
            return Some(i);
        }
        i = i + 1;
    }
    None
}

} // verus!

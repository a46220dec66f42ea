//! Character-level helpers shared by the parsers of this crate: Unicode
//! white space, substring search, splitting and line breaking, all stated
//! over the `Seq<char>` view of strings.
use vstd::prelude::*;
use vstd::string::{StrSliceExecFns, StringExecFns};

verus! {

/// The characters of a string slice, in order.
pub fn chars_of(s: &str) -> (v: Vec<char>)
    ensures
        v@ == s@,
{
    let mut v: Vec<char> = Vec::new();
    for c in it: s.chars()
        invariant
            v@ == it.seq().take(it.index() as int),
            it.seq() == s@,
    {
        v.push(c);
    }
    v
}

/// A new string holding the characters `from..to` of `s`.
pub fn sub_string(s: &str, from: usize, to: usize) -> (r: String)
    requires
        from <= to <= s@.len(),
    ensures
        r@ == s@.subrange(from as int, to as int),
{
    String::from_str(s.substring_char(from, to))
}

/// Unicode `White_Space`: the characters for which `char::is_whitespace`
/// holds (U+0009..U+000D, U+0020, U+0085, U+00A0, U+1680, U+2000..U+200A,
/// U+2028, U+2029, U+202F, U+205F, U+3000).
pub open spec fn is_ws(c: char) -> bool {
    let u = c as u32;
    ||| 0x9 <= u <= 0xd
    ||| u == 0x20
    ||| u == 0x85
    ||| u == 0xa0
    ||| u == 0x1680
    ||| 0x2000 <= u <= 0x200a
    ||| u == 0x2028
    ||| u == 0x2029
    ||| u == 0x202f
    ||| u == 0x205f
    ||| u == 0x3000
}

/// Whether `c` is white space in the sense of `char::is_whitespace`.
pub fn is_whitespace(c: char) -> (b: bool)
    ensures
        b == is_ws(c),
{
    let u = c as u32;
    (0x9 <= u && u <= 0xd) || u == 0x20 || u == 0x85 || u == 0xa0 || u == 0x1680 || (0x2000 <= u
        && u <= 0x200a) || u == 0x2028 || u == 0x2029 || u == 0x202f || u == 0x205f || u == 0x3000
}

/// What separates the pieces of a split.
#[derive(Clone, Copy)]
pub enum Sep {
    /// One given character.
    Char(char),
    /// Any white-space character.
    Space,
}

pub open spec fn is_sep(sep: Sep, c: char) -> bool {
    match sep {
        Sep::Char(d) => c == d,
        Sep::Space => is_ws(c),
    }
}

fn is_separator(sep: Sep, c: char) -> (b: bool)
    ensures
        b == is_sep(sep, c),
{
    match sep {
        Sep::Char(d) => c == d,
        Sep::Space => is_whitespace(c),
    }
}

/// The pieces of `s` between separators, as `str::split` gives them:
/// always at least one piece, empty pieces included.
pub open spec fn split(s: Seq<char>, sep: Sep) -> Seq<Seq<char>>
    decreases s.len(),
{
    if s.len() == 0 {
        seq![Seq::<char>::empty()]
    } else {
        let p = split(s.drop_last(), sep);
        if is_sep(sep, s.last()) {
            p.push(Seq::<char>::empty())
        } else {
            p.update(p.len() - 1, p.last().push(s.last()))
        }
    }
}

pub proof fn lemma_split_nonempty(s: Seq<char>, sep: Sep)
    ensures
        split(s, sep).len() >= 1,
    decreases s.len(),
{
    if s.len() > 0 {
        lemma_split_nonempty(s.drop_last(), sep);
    }
}

/// No piece of a split holds a separator.
pub proof fn lemma_split_pieces_have_no_sep(s: Seq<char>, sep: Sep)
    ensures
        forall|k: int, i: int|
            0 <= k < split(s, sep).len() && 0 <= i < split(s, sep)[k].len() ==> !is_sep(
                sep,
                #[trigger] split(s, sep)[k][i],
            ),
    decreases s.len(),
{
    if s.len() > 0 {
        let rest = s.drop_last();
        lemma_split_pieces_have_no_sep(rest, sep);
        lemma_split_nonempty(rest, sep);
        let p = split(rest, sep);
        assert forall|k: int, i: int|
            0 <= k < split(s, sep).len() && 0 <= i < split(s, sep)[k].len() implies !is_sep(
            sep,
            #[trigger] split(s, sep)[k][i],
        ) by {
            if !is_sep(sep, s.last()) && k == p.len() - 1 {
                if i < p.last().len() {
                    assert(split(s, sep)[k][i] == p[k][i]);
                }
            } else if k < p.len() {
                assert(split(s, sep)[k] == p[k]);
            }
        }
    }
}

/// Splitting two texts joined by a separator gives the pieces of the first
/// followed by those of the second.
pub proof fn lemma_split_concat(a: Seq<char>, c: char, b: Seq<char>, sep: Sep)
    requires
        is_sep(sep, c),
    ensures
        split(a.push(c) + b, sep) == split(a, sep) + split(b, sep),
    decreases b.len(),
{
    lemma_split_nonempty(a, sep);
    if b.len() == 0 {
        assert(a.push(c) + b =~= a.push(c));
        assert(a.push(c).drop_last() =~= a);
        assert(split(b, sep) =~= seq![Seq::<char>::empty()]);
        assert(split(a, sep).push(Seq::<char>::empty()) =~= split(a, sep) + split(b, sep));
    } else {
        let b0 = b.drop_last();
        lemma_split_concat(a, c, b0, sep);
        lemma_split_nonempty(b0, sep);
        let x = a.push(c) + b;
        assert(x.drop_last() =~= a.push(c) + b0);
        assert(x.last() == b.last());
        let pa = split(a, sep);
        let pb = split(b0, sep);
        if is_sep(sep, b.last()) {
            assert((pa + pb).push(Seq::<char>::empty()) =~= pa + pb.push(Seq::<char>::empty()));
        } else {
            assert((pa + pb).last() == pb.last());
            assert((pa + pb).update((pa + pb).len() - 1, pb.last().push(b.last())) =~= pa
                + pb.update(pb.len() - 1, pb.last().push(b.last())));
        }
    }
}

/// Every piece of a split is a stretch of the text, and the last piece
/// ends the text.
pub proof fn lemma_split_pieces_occur(s: Seq<char>, sep: Sep)
    ensures
        forall|k: int|
            0 <= k < split(s, sep).len() ==> contains(s, #[trigger] split(s, sep)[k]),
        split(s, sep).last().len() <= s.len(),
        split(s, sep).last() == s.subrange(s.len() - split(s, sep).last().len(), s.len() as int),
    decreases s.len(),
{
    lemma_split_nonempty(s, sep);
    if s.len() == 0 {
        assert(split(s, sep)[0] == Seq::<char>::empty());
        assert(s.subrange(0, 0) =~= Seq::<char>::empty());
        assert(matches_at(s, Seq::<char>::empty(), 0));
        assert(split(s, sep).last() == split(s, sep)[0]);
    } else {
        let s0 = s.drop_last();
        lemma_split_pieces_occur(s0, sep);
        lemma_split_nonempty(s0, sep);
        let p0 = split(s0, sep);
        let p = split(s, sep);
        assert forall|k: int| 0 <= k < p.len() implies contains(s, #[trigger] p[k]) by {
            if k < p0.len() && (is_sep(sep, s.last()) || k < p0.len() - 1) {
                assert(p[k] == p0[k]);
                let i = choose|i: int| matches_at(s0, p0[k], i);
                assert(s.subrange(i, i + p0[k].len()) =~= s0.subrange(i, i + p0[k].len()));
                assert(matches_at(s, p[k], i));
            } else if is_sep(sep, s.last()) {
                assert(p[k] == Seq::<char>::empty());
                assert(s.subrange(0, 0) =~= p[k]);
                assert(matches_at(s, p[k], 0));
            } else {
                let l = p0.last();
                let i = s0.len() - l.len();
                assert(p[k] == l.push(s.last()));
                assert(s.subrange(i, s.len() as int) =~= l.push(s.last()));
                assert(matches_at(s, p[k], i));
            }
        }
        if is_sep(sep, s.last()) {
            assert(s.subrange(s.len() as int, s.len() as int) =~= p.last());
        } else {
            let l = p0.last();
            assert(s.subrange(s.len() - l.len() - 1, s.len() as int) =~= l.push(s.last()));
        }
    }
}

/// Appending text without separators extends the last piece.
pub proof fn lemma_split_append(a: Seq<char>, w: Seq<char>, sep: Sep)
    requires
        forall|i: int| 0 <= i < w.len() ==> !is_sep(sep, #[trigger] w[i]),
    ensures
        split(a + w, sep) == split(a, sep).update(
            split(a, sep).len() - 1,
            split(a, sep).last() + w,
        ),
    decreases w.len(),
{
    lemma_split_nonempty(a, sep);
    if w.len() == 0 {
        assert(a + w =~= a);
        assert(split(a, sep).last() + w =~= split(a, sep).last());
        assert(split(a, sep).update(split(a, sep).len() - 1, split(a, sep).last()) =~= split(
            a,
            sep,
        ));
    } else {
        let w0 = w.drop_last();
        lemma_split_append(a, w0, sep);
        assert((a + w).drop_last() =~= a + w0);
        assert((a + w).last() == w.last());
        let p = split(a + w0, sep);
        assert(p.last() == split(a, sep).last() + w0);
        assert(p.last().push(w.last()) =~= split(a, sep).last() + w);
        assert(split(a + w, sep) =~= split(a, sep).update(
            split(a, sep).len() - 1,
            split(a, sep).last() + w,
        ));
    }
}

/// Text without separators is a single piece.
pub proof fn lemma_split_single(w: Seq<char>, sep: Sep)
    requires
        forall|i: int| 0 <= i < w.len() ==> !is_sep(sep, #[trigger] w[i]),
    ensures
        split(w, sep) == seq![w],
{
    let e = Seq::<char>::empty();
    lemma_split_append(e, w, sep);
    assert(e + w =~= w);
    assert(split(e, sep) =~= seq![e]);
    assert(seq![e].update(0, e + w) =~= seq![w]);
}

/// The positions `(from, to)` of the pieces of `split(s, sep)` in `s`.
pub fn split_ranges(s: &Vec<char>, sep: Sep) -> (r: Vec<(usize, usize)>)
    ensures
        r.len() == split(s@, sep).len(),
        forall|k: int|
            0 <= k < r.len() ==> {
                &&& (#[trigger] r@[k]).0 <= r@[k].1 <= s.len()
                &&& split(s@, sep)[k] == s@.subrange(r@[k].0 as int, r@[k].1 as int)
            },
{
    let mut r: Vec<(usize, usize)> = Vec::new();
    let mut start: usize = 0;
    let mut i: usize = 0;
    proof {
        assert(s@.take(0) =~= Seq::<char>::empty());
    }
    while i < s.len()
        invariant
            i <= s.len(),
            start <= i,
            r.len() + 1 == split(s@.take(i as int), sep).len(),
            forall|k: int|
                0 <= k < r.len() ==> {
                    &&& (#[trigger] r@[k]).0 <= r@[k].1 <= i
                    &&& split(s@.take(i as int), sep)[k] == s@.subrange(
                        r@[k].0 as int,
                        r@[k].1 as int,
                    )
                },
            split(s@.take(i as int), sep).last() == s@.subrange(start as int, i as int),
        decreases s.len() - i,
    {
        let ghost old_split = split(s@.take(i as int), sep);
        proof {
            assert(s@.take(i + 1).drop_last() =~= s@.take(i as int));
            lemma_split_nonempty(s@.take(i as int), sep);
        }
        let c = s[i];
        if is_separator(sep, c) {
            r.push((start, i));
            start = i + 1;
            proof {
                assert(s@.subrange(start as int, i + 1) =~= Seq::<char>::empty());
            }
        } else {
            proof {
                assert(s@.subrange(start as int, i + 1) =~= s@.subrange(start as int, i as int).push(
                    c,
                ));
            }
        }
        i = i + 1;
        proof {
            let new_split = split(s@.take(i as int), sep);
            assert forall|k: int| 0 <= k < r.len() implies {
                &&& (#[trigger] r@[k]).0 <= r@[k].1 <= i
                &&& new_split[k] == s@.subrange(r@[k].0 as int, r@[k].1 as int)
            } by {
                if k < r.len() - 1 || !is_sep(sep, c) {
                    assert(new_split[k] == old_split[k]);
                }
            }
        }
    }
    r.push((start, i));
    proof {
        assert(s@.take(i as int) =~= s@);
    }
    r
}

/// `l` without a final carriage return, if it has one.
pub open spec fn strip_cr(l: Seq<char>) -> Seq<char> {
    if l.len() > 0 && l.last() == '\r' {
        l.drop_last()
    } else {
        l
    }
}

/// The lines of `s` as `str::lines` gives them: pieces ended by `\n` or
/// `\r\n` (the line ending removed), and a last piece without a line ending
/// when it is not empty.
pub open spec fn lines_of(s: Seq<char>) -> Seq<Seq<char>> {
    let p = split(s, Sep::Char('\n'));
    let body = p.drop_last().map_values(|l: Seq<char>| strip_cr(l));
    if p.last().len() == 0 {
        body
    } else {
        body.push(p.last())
    }
}

/// The positions `(from, to)` of the lines of `s` in `s`.
pub fn line_ranges(s: &Vec<char>) -> (r: Vec<(usize, usize)>)
    ensures
        r.len() == lines_of(s@).len(),
        forall|k: int|
            0 <= k < r.len() ==> {
                &&& (#[trigger] r@[k]).0 <= r@[k].1 <= s.len()
                &&& lines_of(s@)[k] == s@.subrange(r@[k].0 as int, r@[k].1 as int)
            },
{
    let pieces = split_ranges(s, Sep::Char('\n'));
    let ghost p = split(s@, Sep::Char('\n'));
    let ghost body = p.drop_last().map_values(|l: Seq<char>| strip_cr(l));
    let n = pieces.len();
    proof {
        lemma_split_nonempty(s@, Sep::Char('\n'));
    }
    let mut r: Vec<(usize, usize)> = Vec::new();
    let mut k: usize = 0;
    while k + 1 < n
        invariant
            n == pieces.len() == p.len(),
            p == split(s@, Sep::Char('\n')),
            body == p.drop_last().map_values(|l: Seq<char>| strip_cr(l)),
            n >= 1,
            k < n,
            r.len() == k,
            forall|j: int|
                0 <= j < pieces.len() ==> {
                    &&& (#[trigger] pieces@[j]).0 <= pieces@[j].1 <= s.len()
                    &&& p[j] == s@.subrange(pieces@[j].0 as int, pieces@[j].1 as int)
                },
            forall|j: int|
                0 <= j < k ==> {
                    &&& (#[trigger] r@[j]).0 <= r@[j].1 <= s.len()
                    &&& body[j] == s@.subrange(r@[j].0 as int, r@[j].1 as int)
                },
        decreases n - k,
    {
        let (from, to) = pieces[k];
        if from < to && s[to - 1] == '\r' {
            r.push((from, to - 1));
            proof {
                assert(s@.subrange(from as int, to - 1) =~= s@.subrange(
                    from as int,
                    to as int,
                ).drop_last());
            }
        } else {
            r.push((from, to));
        }
        proof {
            assert(body[k as int] == strip_cr(p[k as int]));
        }
        k = k + 1;
    }
    let (from, to) = pieces[n - 1];
    if from < to {
        r.push((from, to));
    }
    proof {
        assert(r@.len() == lines_of(s@).len());
    }
    r
}

/// `p` occurs in `t` at position `i`.
pub open spec fn matches_at(t: Seq<char>, p: Seq<char>, i: int) -> bool {
    0 <= i && i + p.len() <= t.len() && t.subrange(i, i + p.len()) == p
}

/// The first position at or after `i` where `p` occurs in `t`.
pub open spec fn first_match_from(t: Seq<char>, p: Seq<char>, i: int) -> Option<int>
    decreases t.len() + 1 - i,
{
    if i < 0 || i > t.len() {
        None
    } else if matches_at(t, p, i) {
        Some(i)
    } else {
        first_match_from(t, p, i + 1)
    }
}

/// The first position where `p` occurs in `t`, as `str::find` gives it.
pub open spec fn first_match(t: Seq<char>, p: Seq<char>) -> Option<int> {
    first_match_from(t, p, 0)
}

/// `p` occurs somewhere in `t`, as `str::contains` says.
pub open spec fn contains(t: Seq<char>, p: Seq<char>) -> bool {
    exists|i: int| matches_at(t, p, i)
}

/// `first_match_from` finds the earliest occurrence at or after `i`, and
/// finds none only where there is none.
pub proof fn lemma_first_match_from(t: Seq<char>, p: Seq<char>, i: int)
    requires
        0 <= i,
    ensures
        first_match_from(t, p, i) matches Some(k) ==> i <= k && matches_at(t, p, k) && forall|
            j: int,
        |
            i <= j < k ==> !matches_at(t, p, j),
        first_match_from(t, p, i) is None ==> forall|j: int| i <= j ==> !matches_at(t, p, j),
    decreases t.len() + 1 - i,
{
    if i <= t.len() && !matches_at(t, p, i) {
        lemma_first_match_from(t, p, i + 1);
        assert forall|j: int| i <= j && first_match_from(t, p, i) is None implies !matches_at(
            t,
            p,
            j,
        ) by {
            if j > i {
            }
        }
    }
}

/// `first_match` finds an occurrence exactly when there is one.
pub proof fn lemma_first_match_contains(t: Seq<char>, p: Seq<char>)
    ensures
        first_match(t, p) is Some <==> contains(t, p),
{
    lemma_first_match_from(t, p, 0);
    if first_match(t, p) is Some {
        assert(matches_at(t, p, first_match(t, p)->0));
    }
}

/// Whether `p` occurs in `s` exactly on `pos..end`.
fn occurs_at(s: &Vec<char>, pos: usize, end: usize, p: &Vec<char>) -> (r: bool)
    requires
        pos <= end <= s.len(),
    ensures
        r == (pos + p.len() <= end && s@.subrange(pos as int, pos + p.len()) == p@),
{
    if p.len() > end - pos {
        return false;
    }
    let mut k: usize = 0;
    while k < p.len()
        invariant
            pos + p.len() <= end <= s.len(),
            k <= p.len(),
            forall|j: int| 0 <= j < k ==> s@[pos + j] == p@[j],
        decreases p.len() - k,
    {
        if s[pos + k] != p[k] {
            proof {
                assert(s@.subrange(pos as int, pos + p.len())[k as int] != p@[k as int]);
            }
            return false;
        }
        k = k + 1;
    }
    proof {
        assert(s@.subrange(pos as int, pos + p.len()) =~= p@);
    }
    true
}

/// Whether the characters `from..to` of `s` are exactly `p`.
pub fn range_equals(s: &Vec<char>, from: usize, to: usize, p: &Vec<char>) -> (r: bool)
    requires
        from <= to <= s.len(),
    ensures
        r == (s@.subrange(from as int, to as int) == p@),
{
    if to - from != p.len() {
        return false;
    }
    occurs_at(s, from, to, p)
}

/// Whether the characters `from..to` of `s` begin with `p`.
pub fn range_starts_with(s: &Vec<char>, from: usize, to: usize, p: &Vec<char>) -> (r: bool)
    requires
        from <= to <= s.len(),
    ensures
        r == has_prefix(s@.subrange(from as int, to as int), p@),
{
    let r = occurs_at(s, from, to, p);
    proof {
        if from + p.len() <= to {
            assert(s@.subrange(from as int, to as int).subrange(0, p.len() as int)
                =~= s@.subrange(from as int, from + p.len()));
        }
    }
    r
}

/// `t` begins with `p`.
pub open spec fn has_prefix(t: Seq<char>, p: Seq<char>) -> bool {
    p.len() <= t.len() && t.subrange(0, p.len() as int) == p
}

/// The first position where `p` occurs within the characters `from..to` of
/// `s`, counted from `from`.
pub fn find_in(s: &Vec<char>, from: usize, to: usize, p: &Vec<char>) -> (r: Option<usize>)
    requires
        from <= to <= s.len(),
    ensures
        match r {
            Some(k) => first_match(s@.subrange(from as int, to as int), p@) == Some(k as int),
            None => first_match(s@.subrange(from as int, to as int), p@) is None,
        },
{
    let ghost t = s@.subrange(from as int, to as int);
    let mut i: usize = 0;
    loop
        invariant
            from <= to <= s.len(),
            t == s@.subrange(from as int, to as int),
            i <= to - from,
            first_match_from(t, p@, 0) == first_match_from(t, p@, i as int),
        decreases to - from - i,
    {
        let here = occurs_at(s, from + i, to, p);
        proof {
            if from + i + p.len() <= to {
                assert(t.subrange(i as int, i + p.len()) =~= s@.subrange(
                    from + i,
                    from + i + p.len(),
                ));
            }
        }
        if here {
            return Some(i);
        }
        if i == to - from {
            proof {
                assert(first_match_from(t, p@, i + 1) is None);
            }
            return None;
        }
        i = i + 1;
    }
}

/// The lower-case form of a string, as `str::to_lowercase` gives it (Unicode
/// case mapping, character by character, with the final-sigma rule).
pub uninterp spec fn lowercase_of(s: Seq<char>) -> Seq<char>;

/// Every character of `s` is ASCII.
pub open spec fn is_ascii_text(s: Seq<char>) -> bool {
    forall|i: int| 0 <= i < s.len() ==> (s[i] as u32) < 0x80
}

/// The ASCII lower case of a character: `A`..`Z` become `a`..`z`, every
/// other character stays.
pub open spec fn ascii_lower(c: char) -> char {
    if 0x41 <= (c as u32) <= 0x5a {
        ((c as u32) + 0x20) as char
    } else {
        c
    }
}

/// Every character of `s` in ASCII lower case.
pub open spec fn ascii_lowercase(s: Seq<char>) -> Seq<char> {
    s.map_values(|c: char| ascii_lower(c))
}

/// Calls `str::to_lowercase`. Its contract claims that the result is a
/// function of the characters of `s`, named `lowercase_of`, and that on ASCII
/// text it is the ASCII lower case of each character: std documents the
/// result as each character's Unicode lower-case mapping (`char::to_lowercase`,
/// which keeps a character without one; the final-sigma rule touches only
/// `Σ`), and in Unicode the ASCII letters `A`..`Z` map to `a`..`z` and no
/// other ASCII character changes. The case tables for other characters are
/// not stated.
#[verifier::external_body]
pub(crate) fn to_lowercase(s: &str) -> (r: String)
    ensures
        r@ == lowercase_of(s@),
        is_ascii_text(s@) ==> r@ == ascii_lowercase(s@),
{
    s.to_lowercase()
}

} // verus!

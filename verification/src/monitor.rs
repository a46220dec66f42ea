//! Finding the name of the focused output in the JSON that `hyprctl -j
//! monitors` or `swaymsg -t get_outputs` prints. The JSON is not parsed:
//! the text is cut at every `{`, the first piece that says `"focused": true`
//! is taken, and the quoted string after `"name":` in it is the answer.
use vstd::prelude::*;
use crate::text::{
    chars_of, contains, find_in, first_match, first_match_from, is_sep, is_whitespace, is_ws,
    lemma_first_match_contains, lemma_first_match_from, lemma_split_concat,
    lemma_split_pieces_occur, lemma_split_single, matches_at, split, split_ranges, sub_string, Sep,
};

verus! {

/// The piece of text says that its output is focused.
pub open spec fn has_focus(block: Seq<char>) -> bool {
    contains(block, "\"focused\": true"@) || contains(block, "\"focused\":true"@)
}

/// The index of the first piece, at or after `k`, that has the focus mark.
pub open spec fn first_focused_from(blocks: Seq<Seq<char>>, k: int) -> Option<int>
    decreases blocks.len() - k,
{
    if k < 0 || k >= blocks.len() {
        None
    } else if has_focus(blocks[k]) {
        Some(k)
    } else {
        first_focused_from(blocks, k + 1)
    }
}

/// `t` without its leading white space, as `str::trim_start` gives it.
pub open spec fn trim_start(t: Seq<char>) -> Seq<char>
    decreases t.len(),
{
    if t.len() > 0 && is_ws(t[0]) {
        trim_start(t.subrange(1, t.len() as int))
    } else {
        t
    }
}

/// The string in quotes that follows the first `"name":` of `block`
/// (white space allowed before the opening quote).
pub open spec fn quoted_name(block: Seq<char>) -> Option<Seq<char>> {
    match first_match(block, "\"name\":"@) {
        None => None,
        Some(i) => {
            let after = trim_start(block.subrange(i + "\"name\":"@.len(), block.len() as int));
            if after.len() > 0 && after[0] == '"' {
                let rest = after.subrange(1, after.len() as int);
                match first_match(rest, "\""@) {
                    None => None,
                    Some(e) => Some(rest.subrange(0, e)),
                }
            } else {
                None
            }
        }
    }
}

/// The name of the focused output in `json`, if the text holds one.
pub open spec fn focused_name(json: Seq<char>) -> Option<Seq<char>> {
    let blocks = split(json, Sep::Char('{'));
    match first_focused_from(blocks, 0) {
        None => None,
        Some(k) => quoted_name(blocks[k]),
    }
}

/// The name in quotes after the first `"name":` in the characters
/// `from..to` of `s`.
fn quoted_name_in(json: &str, s: &Vec<char>, from: usize, to: usize) -> (r: Option<String>)
    requires
        s@ == json@,
        from <= to <= s.len(),
    ensures
        match r {
            Some(n) => quoted_name(s@.subrange(from as int, to as int)) == Some(n@),
            None => quoted_name(s@.subrange(from as int, to as int)) is None,
        },
{
    let ghost block = s@.subrange(from as int, to as int);
    let key = chars_of("\"name\":");
    let quote = chars_of("\"");
    let found = find_in(s, from, to, &key);
    let i = match found {
        None => return None,
        Some(i) => i,
    };
    proof {
        lemma_first_match_from(block, key@, 0);
    }
    let start = from + i + key.len();
    let mut j = start;
    proof {
        assert(block.subrange(i + key@.len(), block.len() as int) =~= s@.subrange(
            start as int,
            to as int,
        ));
    }
    while j < to && is_whitespace(s[j])
        invariant
            start <= j <= to <= s.len(),
            trim_start(s@.subrange(start as int, to as int)) == trim_start(
                s@.subrange(j as int, to as int),
            ),
        decreases to - j,
    {
        proof {
            assert(s@.subrange(j as int, to as int).subrange(1, to - j) =~= s@.subrange(
                j + 1,
                to as int,
            ));
        }
        j = j + 1;
    }
    let ghost after = s@.subrange(j as int, to as int);
    proof {
        assert(trim_start(after) == after);
    }
    if j < to && s[j] == '"' {
        proof {
            assert(after.subrange(1, after.len() as int) =~= s@.subrange(j + 1, to as int));
        }
        match find_in(s, j + 1, to, &quote) {
            None => None,
            Some(e) => {
                proof {
                    lemma_first_match_from(s@.subrange(j + 1, to as int), quote@, 0);
                    assert(s@.subrange(j + 1, to as int).subrange(0, e as int) =~= s@.subrange(
                        j + 1,
                        j + 1 + e,
                    ));
                }
                Some(sub_string(json, j + 1, j + 1 + e))
            },
        }
    } else {
        None
    }
}

fn focused_output_name(json: &str) -> (r: Option<String>)
    ensures
        match r {
            Some(n) => focused_name(json@) == Some(n@),
            None => focused_name(json@) is None,
        },
{
    let s = chars_of(json);
    let blocks = split_ranges(&s, Sep::Char('{'));
    let ghost parts = split(s@, Sep::Char('{'));
    let focus_spaced = chars_of("\"focused\": true");
    let focus_tight = chars_of("\"focused\":true");
    let mut k: usize = 0;
    while k < blocks.len()
        invariant
            s@ == json@,
            parts == split(s@, Sep::Char('{')),
            focus_spaced@ == "\"focused\": true"@,
            focus_tight@ == "\"focused\":true"@,
            k <= blocks.len() == parts.len(),
            forall|j: int|
                0 <= j < blocks.len() ==> {
                    &&& (#[trigger] blocks@[j]).0 <= blocks@[j].1 <= s.len()
                    &&& parts[j] == s@.subrange(blocks@[j].0 as int, blocks@[j].1 as int)
                },
            first_focused_from(parts, 0) == first_focused_from(parts, k as int),
        decreases blocks.len() - k,
    {
        let (from, to) = blocks[k];
        let spaced = find_in(&s, from, to, &focus_spaced);
        let tight = find_in(&s, from, to, &focus_tight);
        proof {
            lemma_first_match_contains(parts[k as int], focus_spaced@);
            lemma_first_match_contains(parts[k as int], focus_tight@);
        }
        if spaced.is_some() || tight.is_some() {
            return quoted_name_in(json, &s, from, to);
        }
        k = k + 1;
    }
    None
}

/// The name of the focused monitor in the output of `hyprctl -j monitors`.
pub fn parse_hyprctl_focused_monitor(json: &str) -> (r: Option<String>)
    ensures
        match r {
            Some(n) => focused_name(json@) == Some(n@),
            None => focused_name(json@) is None,
        },
{
    focused_output_name(json)
}

/// The name of the focused output in the output of `swaymsg -t get_outputs`.
pub fn parse_sway_focused_output(json: &str) -> (r: Option<String>)
    ensures
        match r {
            Some(n) => focused_name(json@) == Some(n@),
            None => focused_name(json@) is None,
        },
{
    focused_output_name(json)
}

// ── laws ────────────────────────────────────────────────────────────────────

proof fn lemma_trim_start_is_suffix(t: Seq<char>)
    ensures
        trim_start(t).len() <= t.len(),
        trim_start(t) == t.subrange(t.len() - trim_start(t).len(), t.len() as int),
    decreases t.len(),
{
    if t.len() > 0 && is_ws(t[0]) {
        let u = t.subrange(1, t.len() as int);
        lemma_trim_start_is_suffix(u);
        assert(u.subrange(u.len() - trim_start(u).len(), u.len() as int) =~= t.subrange(
            t.len() - trim_start(u).len(),
            t.len() as int,
        ));
    } else {
        assert(t.subrange(0, t.len() as int) =~= t);
    }
}

proof fn lemma_contains_trans(a: Seq<char>, b: Seq<char>, c: Seq<char>)
    requires
        contains(a, b),
        contains(b, c),
    ensures
        contains(a, c),
{
    let i = choose|i: int| matches_at(a, b, i);
    let j = choose|j: int| matches_at(b, c, j);
    assert(a.subrange(i + j, i + j + c.len()) =~= b.subrange(j, j + c.len()));
    assert(matches_at(a, c, i + j));
}

proof fn lemma_first_focused(blocks: Seq<Seq<char>>, k: int)
    requires
        0 <= k,
    ensures
        first_focused_from(blocks, k) matches Some(f) ==> k <= f < blocks.len() && has_focus(
            blocks[f],
        ),
    decreases blocks.len() - k,
{
    if k < blocks.len() && !has_focus(blocks[k]) {
        lemma_first_focused(blocks, k + 1);
    }
}

/// The name found is text of the JSON between two quotes, holds no quote
/// itself, and the JSON says somewhere that an output is focused.
pub proof fn lemma_focused_name_is_quoted_in_text(json: Seq<char>)
    ensures
        focused_name(json) matches Some(n) ==> {
            &&& contains(json, "\""@ + n + "\""@)
            &&& forall|i: int| 0 <= i < n.len() ==> n[i] != '"'
            &&& contains(json, "\"focused\": true"@) || contains(json, "\"focused\":true"@)
        },
{
    reveal_strlit("\"");
    let blocks = split(json, Sep::Char('{'));
    lemma_first_focused(blocks, 0);
    lemma_split_pieces_occur(json, Sep::Char('{'));
    if let Some(k) = first_focused_from(blocks, 0) {
        let block = blocks[k];
        assert(contains(json, block));
        if contains(block, "\"focused\": true"@) {
            lemma_contains_trans(json, block, "\"focused\": true"@);
        } else {
            lemma_contains_trans(json, block, "\"focused\":true"@);
        }
        let key = "\"name\":"@;
        lemma_first_match_from(block, key, 0);
        if let Some(i) = first_match(block, key) {
            let t = block.subrange(i + key.len(), block.len() as int);
            let after = trim_start(t);
            lemma_trim_start_is_suffix(t);
            let st = block.len() - after.len();
            assert(after =~= block.subrange(st, block.len() as int));
            if after.len() > 0 && after[0] == '"' {
                let rest = after.subrange(1, after.len() as int);
                lemma_first_match_from(rest, "\""@, 0);
                if let Some(e) = first_match(rest, "\""@) {
                    let n = rest.subrange(0, e);
                    assert(rest.subrange(e, e + 1)[0] == rest[e]);
                    assert(rest[e] == '"');
                    assert(block.subrange(st, st + e + 2) =~= "\""@ + n + "\""@);
                    assert(matches_at(block, "\""@ + n + "\""@, st));
                    lemma_contains_trans(json, block, "\""@ + n + "\""@);
                    assert forall|j: int| 0 <= j < n.len() implies n[j] != '"' by {
                        assert(!matches_at(rest, "\""@, j));
                        if n[j] == '"' {
                            assert(rest.subrange(j, j + 1) =~= "\""@);
                        }
                    }
                }
            }
        }
    }
}


proof fn lemma_first_focused_shift(a: Seq<Seq<char>>, b: Seq<Seq<char>>, j: int)
    requires
        0 <= j,
    ensures
        first_focused_from(a + b, a.len() + j) == match first_focused_from(b, j) {
            Some(f) => Some(f + a.len()),
            None => None,
        },
    decreases b.len() - j,
{
    if j < b.len() {
        assert((a + b)[a.len() + j] == b[j]);
        if !has_focus(b[j]) {
            lemma_first_focused_shift(a, b, j + 1);
        }
    }
}

proof fn lemma_first_focused_concat(a: Seq<Seq<char>>, b: Seq<Seq<char>>, k: int)
    requires
        0 <= k <= a.len(),
        forall|i: int| k <= i < a.len() ==> !has_focus(#[trigger] a[i]),
    ensures
        first_focused_from(a + b, k) == match first_focused_from(b, 0) {
            Some(f) => Some(f + a.len()),
            None => None,
        },
    decreases a.len() - k,
{
    if k < a.len() {
        assert((a + b)[k] == a[k]);
        lemma_first_focused_concat(a, b, k + 1);
    } else {
        lemma_first_focused_shift(a, b, 0);
    }
}

/// Text before a `{` that says nothing of focus changes nothing: the name
/// is read from what follows.
pub proof fn lemma_text_without_focus_is_skipped(x: Seq<char>, y: Seq<char>)
    requires
        !contains(x, "\"focused\": true"@),
        !contains(x, "\"focused\":true"@),
    ensures
        focused_name(x + "{"@ + y) == focused_name(y),
{
    reveal_strlit("{");
    let sep = Sep::Char('{');
    assert(x + "{"@ + y =~= x.push('{') + y);
    lemma_split_concat(x, '{', y, sep);
    let a = split(x, sep);
    let b = split(y, sep);
    lemma_split_pieces_occur(x, sep);
    assert forall|i: int| 0 <= i < a.len() implies !has_focus(#[trigger] a[i]) by {
        assert(contains(x, a[i]));
        if contains(a[i], "\"focused\": true"@) {
            lemma_contains_trans(x, a[i], "\"focused\": true"@);
        }
        if contains(a[i], "\"focused\":true"@) {
            lemma_contains_trans(x, a[i], "\"focused\":true"@);
        }
    }
    lemma_first_focused_concat(a, b, 0);
    if let Some(f) = first_focused_from(b, 0) {
        lemma_first_focused(b, 0);
        assert((a + b)[f + a.len()] == b[f]);
    }
}

/// The first piece with the focus mark decides: whatever follows the `{`
/// after it, focused or not, changes nothing.
pub proof fn lemma_first_focused_piece_decides(x: Seq<char>, y: Seq<char>)
    requires
        forall|i: int| 0 <= i < x.len() ==> x[i] != '{',
        contains(x, "\"focused\": true"@) || contains(x, "\"focused\":true"@),
    ensures
        focused_name(x + "{"@ + y) == focused_name(x),
{
    reveal_strlit("{");
    let sep = Sep::Char('{');
    assert(x + "{"@ + y =~= x.push('{') + y);
    lemma_split_concat(x, '{', y, sep);
    assert forall|i: int| 0 <= i < x.len() implies !is_sep(sep, #[trigger] x[i]) by {}
    lemma_split_single(x, sep);
    let b = split(y, sep);
    assert((seq![x] + b)[0] == x);
    assert(has_focus(x));
}


/// Searching from `i`, a text is first found at `at` when it occurs there
/// and no character before `at` is its first one.
proof fn lemma_found_at(t: Seq<char>, k: Seq<char>, i: int, at: int)
    requires
        0 <= i <= at,
        k.len() > 0,
        matches_at(t, k, at),
        forall|j: int| i <= j < at ==> t[j] != k[0],
    ensures
        first_match_from(t, k, i) == Some(at),
    decreases at - i,
{
    if i < at {
        if matches_at(t, k, i) {
            assert(t.subrange(i, i + k.len())[0] == t[i]);
        }
        lemma_found_at(t, k, i + 1, at);
    }
}

/// The first occurrence of a text that begins with a quote, after text
/// without quotes, is right after that text.
proof fn lemma_first_match_after_unquoted(p: Seq<char>, k: Seq<char>, z: Seq<char>)
    requires
        forall|i: int| 0 <= i < p.len() ==> p[i] != '"',
        k.len() > 0,
        k[0] == '"',
    ensures
        first_match(p + k + z, k) == Some(p.len() as int),
{
    let t = p + k + z;
    let at = p.len() as int;
    assert(t.subrange(at, at + k.len()) =~= k);
    assert forall|j: int| 0 <= j < at implies t[j] != k[0] by {
        assert(t[j] == p[j]);
    }
    lemma_found_at(t, k, 0, at);
}

/// Leading white space goes, and a text that begins with something else
/// stays as it is.
proof fn lemma_trim_start_of_space(w: Seq<char>, z: Seq<char>)
    requires
        forall|i: int| 0 <= i < w.len() ==> is_ws(w[i]),
        z.len() > 0,
        !is_ws(z[0]),
    ensures
        trim_start(w + z) == z,
    decreases w.len(),
{
    if w.len() == 0 {
        assert(w + z =~= z);
    } else {
        let w1 = w.subrange(1, w.len() as int);
        assert((w + z).subrange(1, (w + z).len() as int) =~= w1 + z);
        lemma_trim_start_of_space(w1, z);
    }
}

/// The name is the quoted text right after the first `"name":` of the
/// first piece with the focus mark, white space allowed before its opening
/// quote; what follows the closing quote, and the pieces after that one,
/// change nothing.
pub proof fn lemma_name_after_the_name_key(
    p: Seq<char>,
    w: Seq<char>,
    n: Seq<char>,
    q: Seq<char>,
    y: Seq<char>,
)
    requires
        forall|i: int| 0 <= i < p.len() ==> p[i] != '"' && p[i] != '{',
        forall|i: int| 0 <= i < w.len() ==> is_ws(w[i]),
        forall|i: int| 0 <= i < n.len() ==> n[i] != '"' && n[i] != '{',
        forall|i: int| 0 <= i < q.len() ==> q[i] != '{',
        contains(q, "\"focused\": true"@) || contains(q, "\"focused\":true"@),
    ensures
        focused_name(p + "\"name\":"@ + w + "\""@ + n + "\""@ + q + "{"@ + y) == Some(n),
{
    reveal_strlit("\"name\":");
    reveal_strlit("\"");
    let key = "\"name\":"@;
    let qt = "\""@;
    let block = p + key + w + qt + n + qt + q;
    let after_key = w + qt + n + qt + q;
    // the first "name": is the one after p
    assert(block =~= p + key + after_key);
    lemma_first_match_after_unquoted(p, key, after_key);
    assert(block.subrange((p.len() + key.len()) as int, block.len() as int) =~= after_key);
    // white space before the opening quote goes
    assert(after_key =~= w + (qt + n + qt + q));
    lemma_trim_start_of_space(w, qt + n + qt + q);
    let rest = n + qt + q;
    assert((qt + n + qt + q).subrange(1, (qt + n + qt + q).len() as int) =~= rest);
    // the name ends at the first quote after it
    let e = Seq::<char>::empty();
    assert(e + n + (qt + q) =~= rest);
    assert forall|i: int| 0 <= i < (e + n).len() implies (e + n)[i] != '"' by {
        assert((e + n)[i] == n[i]);
    }
    lemma_first_match_after_unquoted(e + n, qt, q);
    assert(e + n + qt + q =~= rest);
    assert(rest.subrange(0, n.len() as int) =~= n);
    assert(quoted_name(block) == Some(n));
    // the block is the first focused piece
    assert forall|i: int| 0 <= i < w.len() implies w[i] != '{' by {
        assert(is_ws(w[i]));
    }
    assert forall|i: int| 0 <= i < block.len() implies block[i] != '{' by {}
    let off = block.len() - q.len();
    assert(block.subrange(off, off + q.len()) =~= q);
    assert(matches_at(block, q, off));
    if contains(q, "\"focused\": true"@) {
        lemma_contains_trans(block, q, "\"focused\": true"@);
    } else {
        lemma_contains_trans(block, q, "\"focused\":true"@);
    }
    lemma_first_focused_piece_decides(block, y);
    let sep = Sep::Char('{');
    assert forall|i: int| 0 <= i < block.len() implies !is_sep(sep, #[trigger] block[i]) by {}
    lemma_split_single(block, sep);
    assert(has_focus(block));
}

} // verus!

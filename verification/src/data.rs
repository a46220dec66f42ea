//! Installed applications: reading `.desktop` entries, cleaning their
//! `Exec=` lines, and ordering the list that the launcher searches.
use vstd::prelude::*;
use vstd::string::{StrSliceExecFns, StringExecFns};
use crate::text::{
    chars_of, has_prefix, is_sep, is_ws, lemma_split_append, lemma_split_concat,
    lemma_split_nonempty,
    lemma_split_pieces_have_no_sep, lemma_split_single, line_ranges, lines_of, lowercase_of,
    range_equals, range_starts_with, split, split_ranges, strip_cr, sub_string, to_lowercase, Sep,
};

verus! {

/// An application that the launcher can start.
#[derive(Clone)]
pub struct App {
    /// The name shown in the list and searched.
    pub name: String,
    /// The command line, run by `sh -c` (the `Exec=` value, cleaned).
    pub command: String,
}

/// What an [`App`] holds, as text.
pub struct AppView {
    pub name: Seq<char>,
    pub command: Seq<char>,
}

impl View for App {
    type V = AppView;

    open spec fn view(&self) -> AppView {
        AppView { name: self.name@, command: self.command@ }
    }
}

/// The views of a list of applications.
pub open spec fn views(apps: Seq<App>) -> Seq<AppView> {
    apps.map_values(|a: App| a@)
}

// ── Exec= lines ─────────────────────────────────────────────────────────────

/// A word of an `Exec=` line that is kept: not empty, and not a field code
/// such as `%U` or `%f`.
pub open spec fn keep_word(w: Seq<char>) -> bool {
    w.len() > 0 && w[0] != '%'
}

/// The words of `ws` that are kept, in order.
pub open spec fn kept_words(ws: Seq<Seq<char>>) -> Seq<Seq<char>>
    decreases ws.len(),
{
    if ws.len() == 0 {
        ws
    } else {
        let k = kept_words(ws.drop_last());
        if keep_word(ws.last()) {
            k.push(ws.last())
        } else {
            k
        }
    }
}

/// The words of `ws` joined, with `sep` between two words.
pub open spec fn join(ws: Seq<Seq<char>>, sep: Seq<char>) -> Seq<char>
    decreases ws.len(),
{
    if ws.len() == 0 {
        Seq::<char>::empty()
    } else if ws.len() == 1 {
        ws[0]
    } else {
        join(ws.drop_last(), sep) + sep + ws.last()
    }
}

/// An `Exec=` value without its field codes: the white-space separated
/// words that do not begin with `%`, joined by single spaces.
pub open spec fn cleaned_exec(value: Seq<char>) -> Seq<char> {
    join(kept_words(split(value, Sep::Space)), " "@)
}

/// Removes the field codes (`%U`, `%f`, ...) from an `Exec=` value and
/// joins what is left with single spaces.
pub fn clean_exec(value: &str) -> (r: String)
    ensures
        r@ == cleaned_exec(value@),
{
    let s = chars_of(value);
    let pieces = split_ranges(&s, Sep::Space);
    let ghost parts = split(s@, Sep::Space);
    let mut res = String::new();
    let mut first = true;
    let mut k: usize = 0;
    proof {
        assert(parts.take(0) =~= Seq::<Seq<char>>::empty());
    }
    while k < pieces.len()
        invariant
            s@ == value@,
            parts == split(s@, Sep::Space),
            k <= pieces.len() == parts.len(),
            forall|j: int|
                0 <= j < pieces.len() ==> {
                    &&& (#[trigger] pieces@[j]).0 <= pieces@[j].1 <= s.len()
                    &&& parts[j] == s@.subrange(pieces@[j].0 as int, pieces@[j].1 as int)
                },
            res@ == join(kept_words(parts.take(k as int)), " "@),
            first == (kept_words(parts.take(k as int)).len() == 0),
        decreases pieces.len() - k,
    {
        let (from, to) = pieces[k];
        let ghost before = kept_words(parts.take(k as int));
        proof {
            assert(parts.take(k + 1).drop_last() =~= parts.take(k as int));
            assert(parts.take(k + 1).last() == parts[k as int]);
        }
        if from < to && s[from] != '%' {
            if !first {
                res.append(" ");
            }
            res.append(value.substring_char(from, to));
            first = false;
            proof {
                let now = kept_words(parts.take(k + 1));
                assert(now == before.push(parts[k as int]));
                assert(now.drop_last() =~= before);
            }
        }
        k = k + 1;
    }
    proof {
        assert(parts.take(k as int) =~= parts);
    }
    res
}

/// The kept words are words that are kept, each one of the given words.
proof fn lemma_kept_words(ws: Seq<Seq<char>>)
    ensures
        forall|i: int|
            0 <= i < kept_words(ws).len() ==> keep_word(#[trigger] kept_words(ws)[i])
                && ws.contains(kept_words(ws)[i]),
        (forall|i: int| 0 <= i < ws.len() ==> keep_word(#[trigger] ws[i])) ==> kept_words(ws)
            == ws,
    decreases ws.len(),
{
    if ws.len() > 0 {
        let rest = ws.drop_last();
        lemma_kept_words(rest);
        let k = kept_words(rest);
        assert forall|i: int| 0 <= i < kept_words(ws).len() implies keep_word(
            #[trigger] kept_words(ws)[i],
        ) && ws.contains(kept_words(ws)[i]) by {
            if i < k.len() {
                assert(kept_words(ws)[i] == k[i]);
                let w = choose|w: int| 0 <= w < rest.len() && rest[w] == k[i];
                assert(ws[w] == k[i]);
            } else {
                assert(ws[ws.len() - 1] == kept_words(ws)[i]);
            }
        }
        if forall|i: int| 0 <= i < ws.len() ==> keep_word(#[trigger] ws[i]) {
            assert forall|i: int| 0 <= i < rest.len() implies keep_word(#[trigger] rest[i]) by {
                assert(rest[i] == ws[i]);
            }
            assert(keep_word(ws[ws.len() - 1]));
            assert(rest.push(ws.last()) =~= ws);
        }
    }
}

/// Splitting words joined by single spaces at white space gives the words
/// back, when they are not empty and hold no white space.
proof fn lemma_split_join(ws: Seq<Seq<char>>)
    requires
        ws.len() >= 1,
        forall|i: int| 0 <= i < ws.len() ==> (#[trigger] ws[i]).len() > 0,
        forall|i: int, j: int|
            0 <= i < ws.len() && 0 <= j < ws[i].len() ==> !is_ws(#[trigger] ws[i][j]),
    ensures
        split(join(ws, " "@), Sep::Space) == ws,
    decreases ws.len(),
{
    reveal_strlit(" ");
    let w = ws.last();
    assert forall|i: int| 0 <= i < w.len() implies !is_sep(Sep::Space, #[trigger] w[i]) by {
        assert(w[i] == ws[ws.len() - 1][i]);
    }
    if ws.len() == 1 {
        let e = Seq::<char>::empty();
        lemma_split_append(e, w, Sep::Space);
        assert(e + w =~= w);
        assert(split(e, Sep::Space).last() + w =~= w);
        assert(split(w, Sep::Space) =~= ws);
    } else {
        let rest = ws.drop_last();
        assert forall|i: int, j: int|
            0 <= i < rest.len() && 0 <= j < rest[i].len() implies !is_ws(#[trigger] rest[i][j]) by {
            assert(rest[i] == ws[i]);
        }
        assert forall|i: int| 0 <= i < rest.len() implies (#[trigger] rest[i]).len() > 0 by {
            assert(rest[i] == ws[i]);
        }
        lemma_split_join(rest);
        let j = join(rest, " "@);
        let js = j + " "@;
        assert(js.drop_last() =~= j);
        assert(js.last() == ' ');
        assert(split(js, Sep::Space) == split(j, Sep::Space).push(Seq::<char>::empty()));
        lemma_split_append(js, w, Sep::Space);
        assert(join(ws, " "@) == js + w);
        assert(split(js, Sep::Space).last() + w =~= w);
        assert(split(js + w, Sep::Space) =~= rest.push(w));
        assert(rest.push(w) =~= ws);
    }
}

/// Cleaning an `Exec=` value twice changes nothing more than cleaning it
/// once: no field code and no extra white space is left to remove.
pub proof fn lemma_clean_exec_idempotent(value: Seq<char>)
    ensures
        cleaned_exec(cleaned_exec(value)) == cleaned_exec(value),
{
    reveal_strlit(" ");
    let ws = kept_words(split(value, Sep::Space));
    lemma_kept_words(split(value, Sep::Space));
    lemma_split_pieces_have_no_sep(value, Sep::Space);
    if ws.len() == 0 {
        let e = Seq::<char>::empty();
        assert(split(e, Sep::Space) =~= seq![e]);
        let one = seq![e];
        assert(one.drop_last() =~= Seq::<Seq<char>>::empty());
        assert(kept_words(one.drop_last()).len() == 0);
        assert(!keep_word(one.last()));
        assert(kept_words(one).len() == 0);
    } else {
        assert forall|i: int, j: int| 0 <= i < ws.len() && 0 <= j < ws[i].len() implies !is_ws(
            #[trigger] ws[i][j],
        ) by {
            assert(split(value, Sep::Space).contains(ws[i]));
            let k = choose|k: int|
                0 <= k < split(value, Sep::Space).len() && split(value, Sep::Space)[k] == ws[i];
            assert(!is_sep(Sep::Space, split(value, Sep::Space)[k][j]));
        }
        assert forall|i: int| 0 <= i < ws.len() implies (#[trigger] ws[i]).len() > 0 by {
            assert(keep_word(ws[i]));
        }
        lemma_split_join(ws);
        assert forall|i: int| 0 <= i < ws.len() implies keep_word(#[trigger] ws[i]) by {}
        lemma_kept_words(ws);
    }
}

/// Every word that is kept is among the kept words.
proof fn lemma_kept_words_complete(ws: Seq<Seq<char>>)
    ensures
        forall|i: int|
            0 <= i < ws.len() && keep_word(#[trigger] ws[i]) ==> kept_words(ws).contains(ws[i]),
    decreases ws.len(),
{
    if ws.len() > 0 {
        let rest = ws.drop_last();
        lemma_kept_words_complete(rest);
        let k = kept_words(rest);
        assert forall|i: int| 0 <= i < ws.len() && keep_word(#[trigger] ws[i]) implies kept_words(
            ws,
        ).contains(ws[i]) by {
            if i < rest.len() {
                assert(rest[i] == ws[i]);
                assert(k.contains(rest[i]));
                let w = choose|w: int| 0 <= w < k.len() && k[w] == rest[i];
                assert(kept_words(ws)[w] == k[w]);
            } else {
                assert(kept_words(ws)[kept_words(ws).len() - 1] == ws[i]);
            }
        }
    }
}

/// Cleaning an `Exec=` value removes exactly the field codes: every white-
/// space separated word of the value that does not begin with `%` is a word
/// of the result, and every word of the result is a word of the value that
/// does not begin with `%`.
pub proof fn lemma_clean_exec_keeps_the_words(value: Seq<char>)
    ensures
        forall|i: int|
            0 <= i < split(value, Sep::Space).len() && (#[trigger] split(value, Sep::Space)[i]).len()
                > 0 && split(value, Sep::Space)[i][0] != '%' ==> split(
                cleaned_exec(value),
                Sep::Space,
            ).contains(split(value, Sep::Space)[i]),
        cleaned_exec(value).len() > 0 ==> forall|j: int|
            0 <= j < split(cleaned_exec(value), Sep::Space).len() ==> {
                let w = #[trigger] split(cleaned_exec(value), Sep::Space)[j];
                &&& w.len() > 0
                &&& w[0] != '%'
                &&& split(value, Sep::Space).contains(w)
            },
{
    reveal_strlit(" ");
    let parts = split(value, Sep::Space);
    let ws = kept_words(parts);
    lemma_kept_words(parts);
    lemma_kept_words_complete(parts);
    lemma_split_pieces_have_no_sep(value, Sep::Space);
    if ws.len() == 0 {
        assert forall|i: int|
            0 <= i < parts.len() && (#[trigger] parts[i]).len() > 0 && parts[i][0] != '%' implies split(
            cleaned_exec(value),
            Sep::Space,
        ).contains(parts[i]) by {
            assert(keep_word(parts[i]));
            assert(ws.contains(parts[i]));
        }
    } else {
        assert forall|i: int, j: int| 0 <= i < ws.len() && 0 <= j < ws[i].len() implies !is_ws(
            #[trigger] ws[i][j],
        ) by {
            assert(parts.contains(ws[i]));
            let k = choose|k: int| 0 <= k < parts.len() && parts[k] == ws[i];
            assert(!is_sep(Sep::Space, parts[k][j]));
        }
        assert forall|i: int| 0 <= i < ws.len() implies (#[trigger] ws[i]).len() > 0 by {
            assert(keep_word(ws[i]));
        }
        lemma_split_join(ws);
        assert forall|i: int|
            0 <= i < parts.len() && (#[trigger] parts[i]).len() > 0 && parts[i][0] != '%' implies split(
            cleaned_exec(value),
            Sep::Space,
        ).contains(parts[i]) by {
            assert(keep_word(parts[i]));
        }
        assert forall|j: int| 0 <= j < split(cleaned_exec(value), Sep::Space).len() implies {
            let w = #[trigger] split(cleaned_exec(value), Sep::Space)[j];
            &&& w.len() > 0
            &&& w[0] != '%'
            &&& parts.contains(w)
        } by {
            assert(split(cleaned_exec(value), Sep::Space)[j] == ws[j]);
            assert(keep_word(ws[j]));
        }
    }
}

/// Two command lines put together with one space between them, or the one
/// that is not empty.
pub open spec fn join_two(a: Seq<char>, b: Seq<char>) -> Seq<char> {
    if a.len() == 0 {
        b
    } else if b.len() == 0 {
        a
    } else {
        a + " "@ + b
    }
}

proof fn lemma_kept_words_concat(x: Seq<Seq<char>>, y: Seq<Seq<char>>)
    ensures
        kept_words(x + y) == kept_words(x) + kept_words(y),
    decreases y.len(),
{
    if y.len() == 0 {
        assert(x + y =~= x);
        assert(kept_words(x) + kept_words(y) =~= kept_words(x));
    } else {
        let y0 = y.drop_last();
        lemma_kept_words_concat(x, y0);
        assert((x + y).drop_last() =~= x + y0);
        assert((x + y).last() == y.last());
        if keep_word(y.last()) {
            assert((kept_words(x) + kept_words(y0)).push(y.last()) =~= kept_words(x) + kept_words(
                y0,
            ).push(y.last()));
        }
    }
}

proof fn lemma_join_nonempty(ws: Seq<Seq<char>>)
    requires
        ws.len() > 0,
        forall|i: int| 0 <= i < ws.len() ==> (#[trigger] ws[i]).len() > 0,
    ensures
        join(ws, " "@).len() > 0,
    decreases ws.len(),
{
    if ws.len() > 1 {
        assert(ws.last() == ws[ws.len() - 1]);
    } else {
        assert(ws[0].len() > 0);
    }
}

proof fn lemma_join_concat(x: Seq<Seq<char>>, y: Seq<Seq<char>>)
    requires
        forall|i: int| 0 <= i < x.len() ==> (#[trigger] x[i]).len() > 0,
        forall|i: int| 0 <= i < y.len() ==> (#[trigger] y[i]).len() > 0,
    ensures
        join(x + y, " "@) == join_two(join(x, " "@), join(y, " "@)),
    decreases y.len(),
{
    if x.len() > 0 {
        lemma_join_nonempty(x);
    }
    if y.len() == 0 {
        assert(x + y =~= x);
    } else if y.len() == 1 {
        assert(y[0].len() > 0);
        if x.len() == 0 {
            assert(x + y =~= y);
        } else {
            assert((x + y).drop_last() =~= x);
            assert((x + y).last() == y[0]);
        }
    } else {
        let y0 = y.drop_last();
        assert forall|i: int| 0 <= i < y0.len() implies (#[trigger] y0[i]).len() > 0 by {
            assert(y0[i] == y[i]);
        }
        lemma_join_concat(x, y0);
        lemma_join_nonempty(y0);
        assert((x + y).drop_last() =~= x + y0);
        assert((x + y).last() == y.last());
        let jx = join(x, " "@);
        let jy0 = join(y0, " "@);
        if jx.len() == 0 {
        } else {
            assert(jx + " "@ + jy0 + " "@ + y.last() =~= jx + " "@ + (jy0 + " "@ + y.last()));
        }
    }
}

/// Cleaning two parts of an `Exec=` value separated by a space is
/// cleaning each part and putting the results together: a field code
/// removes only itself, and the words keep their order.
pub proof fn lemma_clean_exec_concat(a: Seq<char>, b: Seq<char>)
    ensures
        cleaned_exec(a + " "@ + b) == join_two(cleaned_exec(a), cleaned_exec(b)),
{
    reveal_strlit(" ");
    assert(a + " "@ + b =~= a.push(' ') + b);
    lemma_split_concat(a, ' ', b, Sep::Space);
    let pa = split(a, Sep::Space);
    let pb = split(b, Sep::Space);
    lemma_kept_words_concat(pa, pb);
    lemma_kept_words(pa);
    lemma_kept_words(pb);
    let ka = kept_words(pa);
    let kb = kept_words(pb);
    assert forall|i: int| 0 <= i < ka.len() implies (#[trigger] ka[i]).len() > 0 by {
        assert(keep_word(ka[i]));
    }
    assert forall|i: int| 0 <= i < kb.len() implies (#[trigger] kb[i]).len() > 0 by {
        assert(keep_word(kb[i]));
    }
    lemma_join_concat(ka, kb);
}

// ── .desktop entries ────────────────────────────────────────────────────────

/// A line that opens a section, such as `[Desktop Entry]`.
pub open spec fn is_header(l: Seq<char>) -> bool {
    l.len() > 0 && l[0] == '['
}

/// After the first `n` lines, the reader is inside the `[Desktop Entry]`
/// section: the last section header among them is exactly that one.
pub open spec fn in_entry_after(ls: Seq<Seq<char>>, n: int) -> bool
    decreases n,
{
    if n <= 0 || n > ls.len() {
        false
    } else if ls[n - 1] == "[Desktop Entry]"@ {
        true
    } else if is_header(ls[n - 1]) {
        false
    } else {
        in_entry_after(ls, n - 1)
    }
}

/// Line `i` is a key line of the `[Desktop Entry]` section.
pub open spec fn is_entry_line(ls: Seq<Seq<char>>, i: int) -> bool {
    0 <= i < ls.len() && !is_header(ls[i]) && in_entry_after(ls, i)
}

/// The value of the first entry line among the first `n` that begins with
/// `key`, with the key removed.
pub open spec fn first_value(ls: Seq<Seq<char>>, key: Seq<char>, n: int) -> Option<Seq<char>>
    decreases n,
{
    if n <= 0 {
        None
    } else {
        match first_value(ls, key, n - 1) {
            Some(v) => Some(v),
            None => if is_entry_line(ls, n - 1) && has_prefix(ls[n - 1], key) {
                Some(ls[n - 1].subrange(key.len() as int, ls[n - 1].len() as int))
            } else {
                None
            },
        }
    }
}

/// An entry line says that the entry is not to be listed.
pub open spec fn hides(ls: Seq<Seq<char>>, i: int) -> bool {
    is_entry_line(ls, i) && (ls[i] == "NoDisplay=true"@ || ls[i] == "Type=Directory"@)
}

/// The application that a `.desktop` file describes: its first `Name=` and
/// its first `Exec=` (cleaned) in the `[Desktop Entry]` section; none when
/// one of them is missing, or when the section has `NoDisplay=true` or
/// `Type=Directory`.
pub open spec fn desktop_entry(content: Seq<char>) -> Option<AppView> {
    let ls = lines_of(content);
    if exists|i: int| hides(ls, i) {
        None
    } else {
        match (first_value(ls, "Name="@, ls.len() as int), first_value(ls, "Exec="@, ls.len() as int)) {
            (Some(n), Some(e)) => Some(AppView { name: n, command: cleaned_exec(e) }),
            _ => None,
        }
    }
}

/// Reads the application out of the text of a `.desktop` file.
pub fn parse_desktop_entry(content: &str) -> (r: Option<App>)
    ensures
        match r {
            Some(app) => desktop_entry(content@) == Some(app@),
            None => desktop_entry(content@) is None,
        },
{
    let s = chars_of(content);
    let lines = line_ranges(&s);
    let ghost ls = lines_of(s@);
    let header = chars_of("[Desktop Entry]");
    let name_key = chars_of("Name=");
    let exec_key = chars_of("Exec=");
    let no_display_line = chars_of("NoDisplay=true");
    let directory_line = chars_of("Type=Directory");
    let mut in_entry = false;
    let mut name: Option<(usize, usize)> = None;
    let mut command: Option<(usize, usize)> = None;
    let mut no_display = false;
    let mut k: usize = 0;
    while k < lines.len()
        invariant
            s@ == content@,
            ls == lines_of(s@),
            header@ == "[Desktop Entry]"@,
            name_key@ == "Name="@,
            exec_key@ == "Exec="@,
            no_display_line@ == "NoDisplay=true"@,
            directory_line@ == "Type=Directory"@,
            k <= lines.len() == ls.len(),
            forall|j: int|
                0 <= j < lines.len() ==> {
                    &&& (#[trigger] lines@[j]).0 <= lines@[j].1 <= s.len()
                    &&& ls[j] == s@.subrange(lines@[j].0 as int, lines@[j].1 as int)
                },
            in_entry == in_entry_after(ls, k as int),
            no_display == exists|i: int| 0 <= i < k && hides(ls, i),
            match name {
                Some((a, b)) => a <= b <= s.len() && first_value(ls, name_key@, k as int) == Some(
                    s@.subrange(a as int, b as int),
                ),
                None => first_value(ls, name_key@, k as int) is None,
            },
            match command {
                Some((a, b)) => a <= b <= s.len() && first_value(ls, exec_key@, k as int) == Some(
                    s@.subrange(a as int, b as int),
                ),
                None => first_value(ls, exec_key@, k as int) is None,
            },
        decreases lines.len() - k,
    {
        let (from, to) = lines[k];
        let ghost line = ls[k as int];
        if range_equals(&s, from, to, &header) {
            in_entry = true;
        } else if from < to && s[from] == '[' {
            in_entry = false;
        } else if in_entry {
            if range_starts_with(&s, from, to, &name_key) {
                if name.is_none() {
                    name = Some((from + name_key.len(), to));
                    proof {
                        assert(line.subrange(name_key@.len() as int, line.len() as int)
                            =~= s@.subrange(from + name_key@.len(), to as int));
                    }
                }
            } else if range_starts_with(&s, from, to, &exec_key) {
                if command.is_none() {
                    command = Some((from + exec_key.len(), to));
                    proof {
                        assert(line.subrange(exec_key@.len() as int, line.len() as int)
                            =~= s@.subrange(from + exec_key@.len(), to as int));
                    }
                }
            } else if range_equals(&s, from, to, &no_display_line) || range_equals(
                &s,
                from,
                to,
                &directory_line,
            ) {
                no_display = true;
                proof {
                    assert(is_entry_line(ls, k as int));
                    assert(hides(ls, k as int));
                }
            }
        }
        proof {
            assert(line == s@.subrange(from as int, to as int));
            if is_header(line) || !in_entry_after(ls, k as int) {
                assert(!is_entry_line(ls, k as int));
            }
            reveal_strlit("Name=");
            reveal_strlit("Exec=");
            reveal_strlit("NoDisplay=true");
            reveal_strlit("Type=Directory");
            if line.len() >= 5 {
                assert(line.subrange(0, 5)[0] == line[0]);
                assert(line.subrange(0, 5)[1] == line[1]);
            }
            if line == header@ {
                reveal_strlit("[Desktop Entry]");
                assert(is_header(line));
            }
        }
        let ghost hid_here = hides(ls, k as int);
        k = k + 1;
        proof {
            if hid_here {
                assert(0 <= k - 1 < k && hides(ls, k - 1));
            }
            assert forall|i: int| 0 <= i < k && hides(ls, i) implies no_display by {
                if i == k - 1 {
                    assert(line == ls[i]);
                }
            }
        }
    }
    if no_display {
        return None;
    }
    match (name, command) {
        (Some((na, nb)), Some((ea, eb))) => Some(
            App {
                name: sub_string(content, na, nb),
                command: clean_exec(content.substring_char(ea, eb)),
            },
        ),
        _ => None,
    }
}

/// Text that can stand as one line of a file: no line break in it, and no
/// carriage return at its end.
pub open spec fn one_line(t: Seq<char>) -> bool {
    &&& forall|i: int| 0 <= i < t.len() ==> t[i] != '\n'
    &&& (t.len() == 0 || t.last() != '\r')
}

/// Lines joined by line breaks split back into those lines.
proof fn lemma_split_lines_join(ls: Seq<Seq<char>>)
    requires
        ls.len() >= 1,
        forall|i: int| 0 <= i < ls.len() ==> one_line(#[trigger] ls[i]),
    ensures
        split(join(ls, "\n"@), Sep::Char('\n')) == ls,
    decreases ls.len(),
{
    reveal_strlit("\n");
    let w = ls.last();
    assert(one_line(ls[ls.len() - 1]));
    assert forall|i: int| 0 <= i < w.len() implies !is_sep(Sep::Char('\n'), #[trigger] w[i]) by {}
    lemma_split_single(w, Sep::Char('\n'));
    if ls.len() == 1 {
        assert(ls =~= seq![w]);
    } else {
        let rest = ls.drop_last();
        assert forall|i: int| 0 <= i < rest.len() implies one_line(#[trigger] rest[i]) by {
            assert(rest[i] == ls[i]);
        }
        lemma_split_lines_join(rest);
        let j = join(rest, "\n"@);
        assert(j + "\n"@ + w =~= j.push('\n') + w);
        lemma_split_concat(j, '\n', w, Sep::Char('\n'));
        assert(rest + seq![w] =~= ls);
    }
}

/// The lines of lines joined by line breaks are those lines, when the last
/// one is not empty.
proof fn lemma_lines_of_join(ls: Seq<Seq<char>>)
    requires
        ls.len() >= 1,
        forall|i: int| 0 <= i < ls.len() ==> one_line(#[trigger] ls[i]),
        ls.last().len() > 0,
    ensures
        lines_of(join(ls, "\n"@)) == ls,
{
    lemma_split_lines_join(ls);
    let body = ls.drop_last().map_values(|l: Seq<char>| strip_cr(l));
    assert forall|i: int| 0 <= i < body.len() implies body[i] == ls.drop_last()[i] by {
        assert(one_line(ls[i]));
    }
    assert(body =~= ls.drop_last());
    assert(ls.drop_last().push(ls.last()) =~= ls);
}

/// A line ends at `\n` or at `\r\n`, and its ending is not part of it:
/// the lines of a line followed by either ending and more text are that
/// line and the lines of the rest.
pub proof fn lemma_line_endings(l: Seq<char>, rest: Seq<char>)
    requires
        one_line(l),
    ensures
        lines_of(l + "\n"@ + rest) == seq![l] + lines_of(rest),
        lines_of(l + "\r\n"@ + rest) == seq![l] + lines_of(rest),
{
    reveal_strlit("\n");
    reveal_strlit("\r\n");
    let sep = Sep::Char('\n');
    let x = l.push('\r');
    assert forall|i: int| 0 <= i < l.len() implies !is_sep(sep, #[trigger] l[i]) by {}
    assert forall|i: int| 0 <= i < x.len() implies !is_sep(sep, #[trigger] x[i]) by {
        if i < l.len() {
            assert(x[i] == l[i]);
        }
    }
    lemma_split_single(l, sep);
    lemma_split_single(x, sep);
    assert(l + "\n"@ + rest =~= l.push('\n') + rest);
    assert(l + "\r\n"@ + rest =~= x.push('\n') + rest);
    lemma_split_concat(l, '\n', rest, sep);
    lemma_split_concat(x, '\n', rest, sep);
    lemma_split_nonempty(rest, sep);
    let pr = split(rest, sep);
    let body = pr.drop_last().map_values(|t: Seq<char>| strip_cr(t));
    assert(strip_cr(x) == l);
    assert(strip_cr(l) == l);
    assert((seq![l] + pr).drop_last().map_values(|t: Seq<char>| strip_cr(t)) =~= seq![l] + body);
    assert((seq![x] + pr).drop_last().map_values(|t: Seq<char>| strip_cr(t)) =~= seq![l] + body);
    assert((seq![l] + pr).last() == pr.last());
    assert((seq![x] + pr).last() == pr.last());
    assert((seq![l] + body).push(pr.last()) =~= seq![l] + body.push(pr.last()));
}

/// A key line `key + x`: it begins with the key, and what follows the key
/// is `x`.
proof fn lemma_key_line(key: Seq<char>, x: Seq<char>)
    requires
        key.len() > 0,
        one_line(key),
        one_line(x),
    ensures
        has_prefix(key + x, key),
        (key + x).subrange(key.len() as int, (key + x).len() as int) == x,
        one_line(key + x),
        (key + x).len() > 0,
        (key + x)[0] == key[0],
{
    assert((key + x).subrange(0, key.len() as int) =~= key);
    assert((key + x).subrange(key.len() as int, (key + x).len() as int) =~= x);
    assert forall|i: int| 0 <= i < (key + x).len() implies (key + x)[i] != '\n' by {
        if i >= key.len() {
            assert((key + x)[i] == x[i - key.len()]);
        }
    }
    if x.len() > 0 {
        assert((key + x).last() == x.last());
    } else {
        assert((key + x).last() == key.last());
    }
}

/// A `.desktop` file lists the application that its `[Desktop Entry]`
/// section describes: the first `Name=` and the first `Exec=` of that
/// section count, the command without its field codes; keys, and
/// `NoDisplay=true` or `Type=Directory` lines, of other sections change
/// nothing.
pub proof fn lemma_entry_section_decides(n: Seq<char>, e: Seq<char>, m: Seq<char>)
    requires
        one_line(n),
        one_line(e),
        one_line(m),
    ensures
        desktop_entry(
            join(
                seq![
                    "[Other]"@,
                    "Name="@ + m,
                    "NoDisplay=true"@,
                    "[Desktop Entry]"@,
                    "Name="@ + n,
                    "Exec="@ + e,
                    "Name="@ + m,
                    "Exec="@ + m,
                    "[Desktop Action new]"@,
                    "Exec="@ + m,
                    "Type=Directory"@,
                ],
                "\n"@,
            ),
        ) == Some((AppView { name: n, command: cleaned_exec(e) })),
{
    reveal_strlit("[Other]");
    reveal_strlit("Name=");
    reveal_strlit("Exec=");
    reveal_strlit("NoDisplay=true");
    reveal_strlit("Type=Directory");
    reveal_strlit("[Desktop Entry]");
    reveal_strlit("[Desktop Action new]");
    let h = "[Desktop Entry]"@;
    let nk = "Name="@;
    let ek = "Exec="@;
    let ls = seq![
        "[Other]"@,
        nk + m,
        "NoDisplay=true"@,
        h,
        nk + n,
        ek + e,
        nk + m,
        ek + m,
        "[Desktop Action new]"@,
        ek + m,
        "Type=Directory"@,
    ];
    lemma_key_line(nk, m);
    lemma_key_line(nk, n);
    lemma_key_line(ek, e);
    lemma_key_line(ek, m);
    assert forall|i: int| 0 <= i < ls.len() implies one_line(#[trigger] ls[i]) by {}
    lemma_lines_of_join(ls);
    // which lines open a section, and which are the entry header
    assert(!in_entry_after(ls, 1));
    assert(!in_entry_after(ls, 2));
    assert(!in_entry_after(ls, 3));
    assert(in_entry_after(ls, 4));
    assert(in_entry_after(ls, 5));
    assert(in_entry_after(ls, 6));
    assert(in_entry_after(ls, 7));
    assert(in_entry_after(ls, 8));
    assert(!in_entry_after(ls, 9));
    assert(!in_entry_after(ls, 10));
    // the first name and the first command of the entry
    assert(!has_prefix(ek + e, nk));
    assert(!has_prefix(ek + m, nk));
    assert(!has_prefix(nk + n, ek));
    assert(!has_prefix(nk + m, ek));
    assert(!in_entry_after(ls, 0));
    assert(first_value(ls, nk, 0) is None);
    assert(first_value(ls, nk, 1) is None);
    assert(first_value(ls, nk, 2) is None);
    assert(first_value(ls, nk, 3) is None);
    assert(first_value(ls, nk, 4) is None);
    assert(first_value(ls, nk, 5) == Some(n));
    assert(first_value(ls, nk, 6) == Some(n));
    assert(first_value(ls, nk, 7) == Some(n));
    assert(first_value(ls, nk, 8) == Some(n));
    assert(first_value(ls, nk, 9) == Some(n));
    assert(first_value(ls, nk, 10) == Some(n));
    assert(first_value(ls, nk, 11) == Some(n));
    assert(first_value(ls, ek, 0) is None);
    assert(first_value(ls, ek, 1) is None);
    assert(first_value(ls, ek, 2) is None);
    assert(first_value(ls, ek, 3) is None);
    assert(first_value(ls, ek, 4) is None);
    assert(first_value(ls, ek, 5) is None);
    assert(first_value(ls, ek, 6) == Some(e));
    assert(first_value(ls, ek, 7) == Some(e));
    assert(first_value(ls, ek, 8) == Some(e));
    assert(first_value(ls, ek, 9) == Some(e));
    assert(first_value(ls, ek, 10) == Some(e));
    assert(first_value(ls, ek, 11) == Some(e));
    // nothing in the entry hides it
    assert forall|i: int| !hides(ls, i) by {
        if 0 <= i < ls.len() {
            if i == 4 || i == 6 {
                assert(ls[i][1] == 'a');
            }
        }
    }
}

/// A `[Desktop Entry]` section with a `NoDisplay=true` or a
/// `Type=Directory` line lists nothing, wherever in the section that line
/// stands.
pub proof fn lemma_hidden_entry_lists_nothing(n: Seq<char>, e: Seq<char>)
    requires
        one_line(n),
        one_line(e),
    ensures
        desktop_entry(
            join(seq!["[Desktop Entry]"@, "Name="@ + n, "Exec="@ + e, "NoDisplay=true"@], "\n"@),
        ) is None,
        desktop_entry(
            join(seq!["[Desktop Entry]"@, "Type=Directory"@, "Name="@ + n, "Exec="@ + e], "\n"@),
        ) is None,
{
    reveal_strlit("Name=");
    reveal_strlit("Exec=");
    reveal_strlit("NoDisplay=true");
    reveal_strlit("Type=Directory");
    reveal_strlit("[Desktop Entry]");
    let h = "[Desktop Entry]"@;
    let nk = "Name="@;
    let ek = "Exec="@;
    lemma_key_line(nk, n);
    lemma_key_line(ek, e);
    let a = seq![h, nk + n, ek + e, "NoDisplay=true"@];
    assert forall|i: int| 0 <= i < a.len() implies one_line(#[trigger] a[i]) by {}
    lemma_lines_of_join(a);
    assert(in_entry_after(a, 1));
    assert(in_entry_after(a, 2));
    assert(in_entry_after(a, 3));
    assert(hides(a, 3));
    let b = seq![h, "Type=Directory"@, nk + n, ek + e];
    assert forall|i: int| 0 <= i < b.len() implies one_line(#[trigger] b[i]) by {}
    lemma_lines_of_join(b);
    assert(in_entry_after(b, 1));
    assert(hides(b, 1));
}

/// A file whose `[Desktop Entry]` section lacks a `Name=` or an `Exec=`
/// line lists nothing, though another section, or the text before the
/// first section, has one.
pub proof fn lemma_incomplete_entry_lists_nothing(n: Seq<char>, e: Seq<char>)
    requires
        one_line(n),
        one_line(e),
    ensures
        desktop_entry(
            join(seq!["[Desktop Entry]"@, "Name="@ + n, "[Other]"@, "Exec="@ + e], "\n"@),
        ) is None,
        desktop_entry(join(seq!["Exec="@ + e, "[Desktop Entry]"@, "Name="@ + n], "\n"@)) is None,
        desktop_entry(join(seq!["Name="@ + n, "[Desktop Entry]"@, "Exec="@ + e], "\n"@)) is None,
{
    reveal_strlit("Name=");
    reveal_strlit("Exec=");
    reveal_strlit("[Other]");
    reveal_strlit("[Desktop Entry]");
    let h = "[Desktop Entry]"@;
    let nk = "Name="@;
    let ek = "Exec="@;
    lemma_key_line(nk, n);
    lemma_key_line(ek, e);
    assert(!has_prefix(nk + n, ek));
    assert(!has_prefix(ek + e, nk));
    let a = seq![h, nk + n, "[Other]"@, ek + e];
    assert forall|i: int| 0 <= i < a.len() implies one_line(#[trigger] a[i]) by {}
    lemma_lines_of_join(a);
    assert(!in_entry_after(a, 0));
    assert(in_entry_after(a, 1));
    assert(in_entry_after(a, 2));
    assert(!in_entry_after(a, 3));
    assert(first_value(a, ek, 0) is None);
    assert(first_value(a, ek, 1) is None);
    assert(first_value(a, ek, 2) is None);
    assert(first_value(a, ek, 3) is None);
    assert(first_value(a, ek, 4) is None);
    let b = seq![ek + e, h, nk + n];
    assert forall|i: int| 0 <= i < b.len() implies one_line(#[trigger] b[i]) by {}
    lemma_lines_of_join(b);
    assert(!in_entry_after(b, 0));
    assert(in_entry_after(b, 2));
    assert(first_value(b, ek, 0) is None);
    assert(first_value(b, ek, 1) is None);
    assert(first_value(b, ek, 2) is None);
    assert(first_value(b, ek, 3) is None);
    let c = seq![nk + n, h, ek + e];
    assert forall|i: int| 0 <= i < c.len() implies one_line(#[trigger] c[i]) by {}
    lemma_lines_of_join(c);
    assert(!in_entry_after(c, 0));
    assert(in_entry_after(c, 2));
    assert(first_value(c, nk, 0) is None);
    assert(first_value(c, nk, 1) is None);
    assert(first_value(c, nk, 2) is None);
    assert(first_value(c, nk, 3) is None);
}

// ── ordering the list ───────────────────────────────────────────────────────

/// The key by which the list is ordered: the name in lower case.
pub open spec fn sort_key(a: AppView) -> Seq<char> {
    lowercase_of(a.name)
}

/// `a` comes before `b` in the order of `str`'s `cmp`: character by
/// character by code point, a proper prefix first. (UTF-8 keeps code-point
/// order, so this is also the order of the bytes.)
pub open spec fn key_lt(a: Seq<char>, b: Seq<char>) -> bool
    decreases a.len(),
{
    if b.len() == 0 {
        false
    } else if a.len() == 0 {
        true
    } else if a[0] != b[0] {
        (a[0] as u32) < (b[0] as u32)
    } else {
        key_lt(a.subrange(1, a.len() as int), b.subrange(1, b.len() as int))
    }
}

/// Where a stable insertion puts `x` into the ordered list `sorted`,
/// searching from `j`: before the first element whose key is greater.
pub open spec fn insert_pos(sorted: Seq<AppView>, x: AppView, j: int) -> int
    decreases sorted.len() - j,
{
    if j >= sorted.len() {
        sorted.len() as int
    } else if key_lt(sort_key(x), sort_key(sorted[j])) {
        j
    } else {
        insert_pos(sorted, x, j + 1)
    }
}

/// The list ordered by key, applications with equal keys kept in the order
/// in which they came (a stable sort, as `slice::sort_by` is).
pub open spec fn sort_by_name(apps: Seq<AppView>) -> Seq<AppView>
    decreases apps.len(),
{
    if apps.len() == 0 {
        apps
    } else {
        let sorted = sort_by_name(apps.drop_last());
        sorted.insert(insert_pos(sorted, apps.last(), 0), apps.last())
    }
}

/// The list without an application whose name equals that of the one kept
/// just before it (as `Vec::dedup_by` with equal names removes them).
pub open spec fn dedup_names(apps: Seq<AppView>) -> Seq<AppView>
    decreases apps.len(),
{
    if apps.len() == 0 {
        apps
    } else {
        let d = dedup_names(apps.drop_last());
        if d.len() > 0 && d.last().name == apps.last().name {
            d
        } else {
            d.push(apps.last())
        }
    }
}

/// Whether key `a` comes before key `b`.
pub fn key_less(a: &Vec<char>, b: &Vec<char>) -> (r: bool)
    ensures
        r == key_lt(a@, b@),
{
    let mut i: usize = 0;
    proof {
        assert(a@.subrange(0, a@.len() as int) =~= a@);
        assert(b@.subrange(0, b@.len() as int) =~= b@);
    }
    loop
        invariant
            i <= a.len(),
            i <= b.len(),
            key_lt(a@, b@) == key_lt(
                a@.subrange(i as int, a@.len() as int),
                b@.subrange(i as int, b@.len() as int),
            ),
        decreases a.len() - i,
    {
        if i == b.len() {
            return false;
        }
        if i == a.len() {
            return true;
        }
        if a[i] != b[i] {
            return (a[i] as u32) < (b[i] as u32);
        }
        proof {
            let ta = a@.subrange(i as int, a@.len() as int);
            let tb = b@.subrange(i as int, b@.len() as int);
            assert(ta.subrange(1, ta.len() as int) =~= a@.subrange(i + 1, a@.len() as int));
            assert(tb.subrange(1, tb.len() as int) =~= b@.subrange(i + 1, b@.len() as int));
        }
        i = i + 1;
    }
}

/// Where a stable insertion puts an item with key `key` into the list of
/// (key, application) pairs `sorted`, searching from `j`: before the first
/// pair whose key is greater.
pub open spec fn pair_insert_pos(sorted: Seq<(Seq<char>, AppView)>, key: Seq<char>, j: int) -> int
    decreases sorted.len() - j,
{
    if j >= sorted.len() {
        sorted.len() as int
    } else if key_lt(key, sorted[j].0) {
        j
    } else {
        pair_insert_pos(sorted, key, j + 1)
    }
}

/// (key, application) pairs ordered by key, pairs with equal keys kept in
/// the order in which they came (a stable sort).
pub open spec fn sort_pairs(items: Seq<(Seq<char>, AppView)>) -> Seq<(Seq<char>, AppView)>
    decreases items.len(),
{
    if items.len() == 0 {
        items
    } else {
        let sorted = sort_pairs(items.drop_last());
        sorted.insert(pair_insert_pos(sorted, items.last().0, 0), items.last())
    }
}

/// The texts of a list of (key, application) pairs.
pub open spec fn keyed_views(items: Seq<(Vec<char>, App)>) -> Seq<(Seq<char>, AppView)> {
    items.map_values(|p: (Vec<char>, App)| (p.0@, p.1@))
}

/// The applications of a list of (key, application) pairs.
pub open spec fn apps_of(pairs: Seq<(Seq<char>, AppView)>) -> Seq<AppView> {
    pairs.map_values(|p: (Seq<char>, AppView)| p.1)
}

/// Each application paired with its key, the name in lower case.
pub open spec fn named(apps: Seq<AppView>) -> Seq<(Seq<char>, AppView)> {
    apps.map_values(|a: AppView| (sort_key(a), a))
}

proof fn lemma_pair_insert_pos(
    pairs: Seq<(Seq<char>, AppView)>,
    apps: Seq<AppView>,
    x: AppView,
    j: int,
)
    requires
        0 <= j,
        pairs.len() == apps.len(),
        forall|i: int|
            0 <= i < pairs.len() ==> (#[trigger] pairs[i]).0 == sort_key(apps[i]) && pairs[i].1
                == apps[i],
    ensures
        pair_insert_pos(pairs, sort_key(x), j) == insert_pos(apps, x, j),
    decreases pairs.len() - j,
{
    if j < pairs.len() {
        assert(pairs[j].0 == sort_key(apps[j]));
        lemma_pair_insert_pos(pairs, apps, x, j + 1);
    }
}

/// Sorting the applications paired with their lower-case names orders them
/// as `sort_by_name` does, each pair keeping its own key.
proof fn lemma_sort_pairs_by_name(apps: Seq<AppView>)
    ensures
        apps_of(sort_pairs(named(apps))) == sort_by_name(apps),
        sort_pairs(named(apps)).len() == apps.len(),
        forall|i: int|
            0 <= i < sort_pairs(named(apps)).len() ==> (#[trigger] sort_pairs(named(apps))[i]).0
                == sort_key(sort_pairs(named(apps))[i].1),
    decreases apps.len(),
{
    if apps.len() > 0 {
        let rest = apps.drop_last();
        let l = apps.last();
        lemma_sort_pairs_by_name(rest);
        assert(named(apps).drop_last() =~= named(rest));
        assert(named(apps).last() == (sort_key(l), l));
        let t = sort_pairs(named(rest));
        let srt = sort_by_name(rest);
        assert forall|i: int| 0 <= i < t.len() implies (#[trigger] t[i]).0 == sort_key(srt[i])
            && t[i].1 == srt[i] by {
            assert(apps_of(t)[i] == t[i].1);
        }
        lemma_pair_insert_pos(t, srt, l, 0);
        lemma_insert_pos(srt, l, 0);
        let p = insert_pos(srt, l, 0);
        let t2 = t.insert(p, (sort_key(l), l));
        assert(apps_of(t2) =~= srt.insert(p, l));
        assert forall|i: int| 0 <= i < t2.len() implies (#[trigger] t2[i]).0 == sort_key(t2[i].1) by {
            if i < p {
                assert(t2[i] == t[i]);
            } else if i > p {
                assert(t2[i] == t[i - 1]);
            }
        }
    }
}

/// Orders (key, application) pairs by key, stably, and gives the
/// applications in that order.
pub fn sort_by_keys(items: Vec<(Vec<char>, App)>) -> (r: Vec<App>)
    ensures
        views(r@) == apps_of(sort_pairs(keyed_views(items@))),
{
    let ghost orig = keyed_views(items@);
    let mut rest = items;
    let mut sorted: Vec<App> = Vec::new();
    let mut keys: Vec<Vec<char>> = Vec::new();
    let ghost mut done: int = 0;
    proof {
        assert(keyed_views(rest@) =~= orig.subrange(0, orig.len() as int));
        assert(orig.take(0) =~= Seq::<(Seq<char>, AppView)>::empty());
    }
    while rest.len() > 0
        invariant
            0 <= done <= orig.len(),
            keyed_views(rest@) == orig.subrange(done, orig.len() as int),
            keys.len() == sorted.len() == sort_pairs(orig.take(done)).len(),
            forall|j: int|
                0 <= j < keys.len() ==> ((#[trigger] keys@[j])@, sorted@[j]@) == sort_pairs(
                    orig.take(done),
                )[j],
        decreases rest.len(),
    {
        let ghost before = sort_pairs(orig.take(done));
        proof {
            assert(keyed_views(rest@).len() == rest@.len());
            assert(keyed_views(rest@)[0] == (rest@[0].0@, rest@[0].1@));
        }
        let ghost rest_before = keyed_views(rest@);
        let (key, a) = rest.remove(0);
        proof {
            assert(keyed_views(rest@) =~= rest_before.subrange(1, rest_before.len() as int));
            assert(orig[done] == (key@, a@)) by {
                assert(orig.subrange(done, orig.len() as int)[0] == orig[done]);
            }
        }
        let mut j: usize = 0;
        loop
            invariant
                j <= sorted.len(),
                keys.len() == sorted.len() == before.len(),
                forall|i: int|
                    0 <= i < keys.len() ==> ((#[trigger] keys@[i])@, sorted@[i]@) == before[i],
                pair_insert_pos(before, key@, 0) == pair_insert_pos(before, key@, j as int),
            ensures
                j <= sorted.len(),
                pair_insert_pos(before, key@, 0) == j as int,
            decreases sorted.len() - j,
        {
            if j == sorted.len() {
                break;
            }
            proof {
                assert(keys@[j as int]@ == before[j as int].0);
            }
            if key_less(&key, &keys[j]) {
                break;
            }
            j = j + 1;
        }
        proof {
            assert(orig.take(done + 1).drop_last() =~= orig.take(done));
            assert(orig.take(done + 1).last() == (key@, a@));
        }
        let ghost old_keys = keys@;
        let ghost old_sorted = sorted@;
        let ghost item = (key@, a@);
        sorted.insert(j, a);
        keys.insert(j, key);
        proof {
            done = done + 1;
            let now = sort_pairs(orig.take(done));
            assert(now == before.insert(j as int, item));
            assert(keyed_views(rest@) =~= orig.subrange(done, orig.len() as int));
            assert forall|i: int| 0 <= i < keys.len() implies ((#[trigger] keys@[i])@, sorted@[i]@)
                == now[i] by {
                if i > j {
                    assert(keys@[i] == old_keys[i - 1]);
                    assert(sorted@[i] == old_sorted[i - 1]);
                } else if i < j {
                    assert(keys@[i] == old_keys[i]);
                    assert(sorted@[i] == old_sorted[i]);
                }
            }
        }
    }
    proof {
        assert(orig.take(done) =~= orig);
        assert(views(sorted@) =~= apps_of(sort_pairs(orig))) by {
            assert forall|j: int| 0 <= j < sorted.len() implies views(sorted@)[j] == apps_of(
                sort_pairs(orig),
            )[j] by {
                assert((keys@[j]@, sorted@[j]@) == sort_pairs(orig)[j]);
            }
        }
    }
    sorted
}

/// The applications paired with their names in lower case.
fn with_lowercase_keys(apps: Vec<App>) -> (r: Vec<(Vec<char>, App)>)
    ensures
        keyed_views(r@) == named(views(apps@)),
{
    let ghost orig = views(apps@);
    let mut rest = apps;
    let mut items: Vec<(Vec<char>, App)> = Vec::new();
    let ghost mut done: int = 0;
    proof {
        assert(views(rest@) =~= orig.subrange(0, orig.len() as int));
        assert(keyed_views(items@) =~= named(orig).take(0));
    }
    while rest.len() > 0
        invariant
            0 <= done <= orig.len(),
            views(rest@) == orig.subrange(done, orig.len() as int),
            keyed_views(items@) == named(orig).take(done),
        decreases rest.len(),
    {
        proof {
            assert(views(rest@).len() == rest@.len());
            assert(views(rest@)[0] == rest@[0]@);
        }
        let ghost rest_before = views(rest@);
        let a = rest.remove(0);
        proof {
            assert(views(rest@) =~= rest_before.subrange(1, rest_before.len() as int));
            assert(orig[done] == a@) by {
                assert(orig.subrange(done, orig.len() as int)[0] == orig[done]);
            }
        }
        let lower = to_lowercase(a.name.as_str());
        let key = chars_of(lower.as_str());
        let ghost before = keyed_views(items@);
        items.push((key, a));
        proof {
            assert(keyed_views(items@) =~= before.push((key@, a@)));
            done = done + 1;
            assert(named(orig).take(done) =~= named(orig).take(done - 1).push(named(orig)[done - 1]));
            assert(views(rest@) =~= orig.subrange(done, orig.len() as int));
        }
    }
    proof {
        assert(named(orig).take(done) =~= named(orig));
    }
    items
}

fn dedup_apps(apps: Vec<App>) -> (r: Vec<App>)
    ensures
        views(r@) == dedup_names(views(apps@)),
{
    let ghost orig = views(apps@);
    let mut rest = apps;
    let mut out: Vec<App> = Vec::new();
    let ghost mut done: int = 0;
    proof {
        assert(views(rest@) =~= orig.subrange(0, orig.len() as int));
        assert(orig.take(0) =~= Seq::<AppView>::empty());
        assert(views(out@) =~= Seq::<AppView>::empty());
    }
    while rest.len() > 0
        invariant
            0 <= done <= orig.len(),
            views(rest@) == orig.subrange(done, orig.len() as int),
            views(out@) == dedup_names(orig.take(done)),
        decreases rest.len(),
    {
        let ghost before = views(out@);
        proof {
            assert(views(rest@).len() == rest@.len());
            assert(views(rest@)[0] == rest@[0]@);
        }
        let ghost rest_before = views(rest@);
        let a = rest.remove(0);
        proof {
            assert(views(rest@) =~= rest_before.subrange(1, rest_before.len() as int));
            assert(orig[done] == a@) by {
                assert(orig.subrange(done, orig.len() as int)[0] == orig[done]);
            }
            assert(orig.take(done + 1).drop_last() =~= orig.take(done));
            assert(orig.take(done + 1).last() == a@);
        }
        let n = out.len();
        let duplicate = n > 0 && a.name == out[n - 1].name;
        if !duplicate {
            out.push(a);
            proof {
                assert(views(out@) =~= before.push(a@));
            }
        }
        proof {
            done = done + 1;
            assert(views(rest@) =~= orig.subrange(done, orig.len() as int));
        }
    }
    proof {
        assert(orig.take(done) =~= orig);
    }
    out
}

/// Orders the applications found on disk for the launcher: by name in
/// lower case, and without an application whose name equals that of the one
/// before it.
pub fn load_apps(found: Vec<App>) -> (r: Vec<App>)
    ensures
        views(r@) == dedup_names(sort_by_name(views(found@))),
{
    let ghost found_views = views(found@);
    let items = with_lowercase_keys(found);
    let sorted = sort_by_keys(items);
    proof {
        lemma_sort_pairs_by_name(found_views);
    }
    dedup_apps(sorted)
}

// ── laws of the ordered list ───────────────────────────────────────────────

/// The list is ordered by key: no application has a smaller key than one
/// before it.
pub open spec fn sorted_by_key(apps: Seq<AppView>) -> bool {
    forall|i: int, j: int|
        0 <= i < j < apps.len() ==> !key_lt(sort_key(apps[j]), sort_key(apps[i]))
}

/// No key comes before itself.
pub proof fn lemma_key_lt_irreflexive(a: Seq<char>)
    ensures
        !key_lt(a, a),
    decreases a.len(),
{
    if a.len() > 0 {
        lemma_key_lt_irreflexive(a.subrange(1, a.len() as int));
    }
}

/// The order of keys is transitive.
pub proof fn lemma_key_lt_transitive(a: Seq<char>, b: Seq<char>, c: Seq<char>)
    requires
        key_lt(a, b),
        key_lt(b, c),
    ensures
        key_lt(a, c),
    decreases a.len(),
{
    if a.len() > 0 && b.len() > 0 && c.len() > 0 && a[0] == b[0] && b[0] == c[0] {
        lemma_key_lt_transitive(
            a.subrange(1, a.len() as int),
            b.subrange(1, b.len() as int),
            c.subrange(1, c.len() as int),
        );
    }
}

proof fn lemma_insert_pos(sorted: Seq<AppView>, x: AppView, j: int)
    requires
        0 <= j <= sorted.len(),
    ensures
        j <= insert_pos(sorted, x, j) <= sorted.len(),
        forall|i: int|
            j <= i < insert_pos(sorted, x, j) ==> !key_lt(sort_key(x), sort_key(#[trigger] sorted[i])),
        insert_pos(sorted, x, j) < sorted.len() ==> key_lt(
            sort_key(x),
            sort_key(sorted[insert_pos(sorted, x, j)]),
        ),
    decreases sorted.len() - j,
{
    if j < sorted.len() && !key_lt(sort_key(x), sort_key(sorted[j])) {
        lemma_insert_pos(sorted, x, j + 1);
    }
}

proof fn lemma_insert_keeps_order(sorted: Seq<AppView>, x: AppView)
    requires
        sorted_by_key(sorted),
    ensures
        sorted_by_key(sorted.insert(insert_pos(sorted, x, 0), x)),
{
    let p = insert_pos(sorted, x, 0);
    lemma_insert_pos(sorted, x, 0);
    let r = sorted.insert(p, x);
    assert forall|i: int, j: int| 0 <= i < j < r.len() implies !key_lt(
        sort_key(r[j]),
        sort_key(r[i]),
    ) by {
        if i == p {
            let y = sorted[j - 1];
            assert(r[j] == y);
            if key_lt(sort_key(y), sort_key(x)) {
                if j - 1 == p {
                    lemma_key_lt_transitive(sort_key(y), sort_key(x), sort_key(y));
                    lemma_key_lt_irreflexive(sort_key(y));
                } else {
                    lemma_key_lt_transitive(sort_key(y), sort_key(x), sort_key(sorted[p]));
                }
            }
        } else if j == p {
            assert(r[i] == sorted[i]);
        } else {
            let oi = if i < p { i } else { i - 1 };
            let oj = if j < p { j } else { j - 1 };
            assert(r[i] == sorted[oi]);
            assert(r[j] == sorted[oj]);
        }
    }
}

/// The sorted list is in order of keys.
pub proof fn lemma_sort_by_name_sorted(apps: Seq<AppView>)
    ensures
        sorted_by_key(sort_by_name(apps)),
    decreases apps.len(),
{
    if apps.len() > 0 {
        lemma_sort_by_name_sorted(apps.drop_last());
        lemma_insert_keeps_order(sort_by_name(apps.drop_last()), apps.last());
    }
}

/// Sorting neither adds nor loses an application.
pub proof fn lemma_sort_by_name_permutes(apps: Seq<AppView>)
    ensures
        sort_by_name(apps).to_multiset() == apps.to_multiset(),
    decreases apps.len(),
{
    broadcast use vstd::seq_lib::group_to_multiset_ensures;

    if apps.len() > 0 {
        let rest = apps.drop_last();
        lemma_sort_by_name_permutes(rest);
        let sorted = sort_by_name(rest);
        lemma_insert_pos(sorted, apps.last(), 0);
        assert(apps =~= rest.push(apps.last()));
    }
}

/// Every application that removing the repeats keeps comes from the list.
proof fn lemma_dedup_from_list(apps: Seq<AppView>)
    ensures
        forall|i: int|
            0 <= i < dedup_names(apps).len() ==> apps.contains(#[trigger] dedup_names(apps)[i]),
    decreases apps.len(),
{
    if apps.len() > 0 {
        let rest = apps.drop_last();
        lemma_dedup_from_list(rest);
        let d = dedup_names(rest);
        let r = dedup_names(apps);
        assert forall|i: int| 0 <= i < r.len() implies apps.contains(#[trigger] r[i]) by {
            if i < d.len() {
                let w = choose|w: int| 0 <= w < rest.len() && rest[w] == d[i];
                assert(apps[w] == r[i]);
            } else {
                assert(apps[apps.len() - 1] == r[i]);
            }
        }
    }
}

/// Removing the repeats keeps every name of the list.
proof fn lemma_dedup_keeps_names(apps: Seq<AppView>)
    ensures
        forall|i: int|
            0 <= i < apps.len() ==> exists|k: int|
                0 <= k < dedup_names(apps).len() && (#[trigger] dedup_names(apps)[k]).name
                    == (#[trigger] apps[i]).name,
    decreases apps.len(),
{
    if apps.len() > 0 {
        let rest = apps.drop_last();
        lemma_dedup_keeps_names(rest);
        let d = dedup_names(rest);
        let r = dedup_names(apps);
        assert forall|i: int| 0 <= i < apps.len() implies exists|k: int|
            0 <= k < r.len() && (#[trigger] r[k]).name == (#[trigger] apps[i]).name by {
            if i < rest.len() {
                assert(apps[i] == rest[i]);
                let k = choose|k: int| 0 <= k < d.len() && d[k].name == rest[i].name;
                assert(r[k] == d[k]);
            } else if d.len() > 0 && d.last().name == apps.last().name {
                assert(r[d.len() - 1] == d.last());
            } else {
                assert(r[r.len() - 1] == apps.last());
            }
        }
    }
}

/// After removing the repeats, two neighbours never have the same name.
proof fn lemma_dedup_neighbours_differ(apps: Seq<AppView>)
    ensures
        forall|i: int|
            0 <= i < dedup_names(apps).len() - 1 ==> (#[trigger] dedup_names(apps)[i]).name
                != dedup_names(apps)[i + 1].name,
    decreases apps.len(),
{
    if apps.len() > 0 {
        let rest = apps.drop_last();
        lemma_dedup_neighbours_differ(rest);
        let d = dedup_names(rest);
        let r = dedup_names(apps);
        assert forall|i: int| 0 <= i < r.len() - 1 implies (#[trigger] r[i]).name != r[i
            + 1].name by {
            if i + 1 < d.len() {
                assert(r[i] == d[i] && r[i + 1] == d[i + 1]);
            } else {
                assert(r[i] == d[i]);
            }
        }
    }
}

proof fn lemma_dedup_keeps_order(apps: Seq<AppView>)
    requires
        sorted_by_key(apps),
    ensures
        sorted_by_key(dedup_names(apps)),
    decreases apps.len(),
{
    if apps.len() > 0 {
        let rest = apps.drop_last();
        lemma_dedup_keeps_order(rest);
        lemma_dedup_from_list(rest);
        let d = dedup_names(rest);
        let r = dedup_names(apps);
        assert forall|i: int, j: int| 0 <= i < j < r.len() implies !key_lt(
            sort_key(r[j]),
            sort_key(r[i]),
        ) by {
            if j >= d.len() {
                assert(r[j] == apps.last());
                assert(r[i] == d[i]);
                assert(rest.contains(d[i]));
                let w = choose|w: int| 0 <= w < rest.len() && rest[w] == d[i];
                assert(apps[w] == d[i]);
            } else {
                assert(r[i] == d[i] && r[j] == d[j]);
            }
        }
    }
}

/// The applications of `apps` whose key is `key`, in their order.
pub open spec fn with_key(apps: Seq<AppView>, key: Seq<char>) -> Seq<AppView>
    decreases apps.len(),
{
    if apps.len() == 0 {
        apps
    } else {
        let w = with_key(apps.drop_last(), key);
        if sort_key(apps.last()) == key {
            w.push(apps.last())
        } else {
            w
        }
    }
}

proof fn lemma_with_key_concat(a: Seq<AppView>, b: Seq<AppView>, key: Seq<char>)
    ensures
        with_key(a + b, key) == with_key(a, key) + with_key(b, key),
    decreases b.len(),
{
    if b.len() == 0 {
        assert(a + b =~= a);
        assert(with_key(a, key) + with_key(b, key) =~= with_key(a, key));
    } else {
        let b0 = b.drop_last();
        lemma_with_key_concat(a, b0, key);
        assert((a + b).drop_last() =~= a + b0);
        assert((a + b).last() == b.last());
        if sort_key(b.last()) == key {
            assert((with_key(a, key) + with_key(b0, key)).push(b.last()) =~= with_key(a, key)
                + with_key(b0, key).push(b.last()));
        }
    }
}

proof fn lemma_with_key_none(apps: Seq<AppView>, key: Seq<char>)
    requires
        forall|i: int| 0 <= i < apps.len() ==> sort_key(#[trigger] apps[i]) != key,
    ensures
        with_key(apps, key).len() == 0,
    decreases apps.len(),
{
    if apps.len() > 0 {
        let rest = apps.drop_last();
        assert forall|i: int| 0 <= i < rest.len() implies sort_key(#[trigger] rest[i]) != key by {
            assert(rest[i] == apps[i]);
        }
        lemma_with_key_none(rest, key);
        assert(sort_key(apps[apps.len() - 1]) != key);
    }
}

/// Sorting is stable: applications with the same name in lower case keep
/// the order in which they were found.
pub proof fn lemma_sort_by_name_stable(apps: Seq<AppView>, key: Seq<char>)
    ensures
        with_key(sort_by_name(apps), key) == with_key(apps, key),
    decreases apps.len(),
{
    if apps.len() > 0 {
        let rest = apps.drop_last();
        let x = apps.last();
        lemma_sort_by_name_stable(rest, key);
        lemma_sort_by_name_sorted(rest);
        let s = sort_by_name(rest);
        let p = insert_pos(s, x, 0);
        lemma_insert_pos(s, x, 0);
        let front = s.take(p);
        let back = s.skip(p);
        assert(s =~= front + back);
        assert(s.insert(p, x) =~= front + (seq![x] + back));
        lemma_with_key_concat(front, back, key);
        lemma_with_key_concat(front, seq![x] + back, key);
        lemma_with_key_concat(seq![x], back, key);
        assert(seq![x].drop_last() =~= Seq::<AppView>::empty());
        assert(sort_by_name(apps) == s.insert(p, x));
        assert(with_key(Seq::<AppView>::empty(), key) =~= Seq::<AppView>::empty());
        if sort_key(x) == key {
            assert(with_key(seq![x], key) =~= seq![x]);
            assert forall|i: int| 0 <= i < back.len() implies sort_key(#[trigger] back[i]) != key by {
                assert(back[i] == s[p + i]);
                assert(key_lt(sort_key(x), sort_key(s[p])));
                if i > 0 {
                    assert(!key_lt(sort_key(s[p + i]), sort_key(s[p])));
                }
                if sort_key(s[p + i]) == key {
                    lemma_key_lt_irreflexive(key);
                }
            }
            lemma_with_key_none(back, key);
            assert(with_key(back, key) =~= Seq::<AppView>::empty());
            assert(with_key(front, key) + (seq![x] + with_key(back, key)) =~= (with_key(front, key)
                + with_key(back, key)).push(x));
        } else {
            assert(with_key(seq![x], key) =~= Seq::<AppView>::empty());
            assert(with_key(front, key) + (Seq::<AppView>::empty() + with_key(back, key))
                =~= with_key(front, key) + with_key(back, key));
        }
        assert(apps.drop_last() == rest);
    }
}

/// The last application kept by removing the repeats has the name of the
/// last one of the list.
proof fn lemma_dedup_last_name(apps: Seq<AppView>)
    requires
        apps.len() > 0,
    ensures
        dedup_names(apps).len() > 0,
        dedup_names(apps).last().name == apps.last().name,
    decreases apps.len(),
{
    if apps.len() > 1 {
        lemma_dedup_last_name(apps.drop_last());
    }
}

/// Removing the repeats keeps the first application of each run of equal
/// names: every application kept stands in the list at the start of such a
/// run.
pub proof fn lemma_dedup_keeps_first_of_each_run(apps: Seq<AppView>)
    ensures
        forall|k: int|
            #![trigger dedup_names(apps)[k]]
            0 <= k < dedup_names(apps).len() ==> exists|i: int|
                0 <= i < apps.len() && dedup_names(apps)[k] == #[trigger] apps[i] && (i == 0
                    || apps[i - 1].name != apps[i].name),
    decreases apps.len(),
{
    if apps.len() > 0 {
        let rest = apps.drop_last();
        let x = apps.last();
        lemma_dedup_keeps_first_of_each_run(rest);
        let d = dedup_names(rest);
        let r = dedup_names(apps);
        if rest.len() > 0 {
            lemma_dedup_last_name(rest);
        }
        assert forall|k: int| #![trigger r[k]] 0 <= k < r.len() implies exists|i: int|
            0 <= i < apps.len() && r[k] == #[trigger] apps[i] && (i == 0 || apps[i - 1].name
                != apps[i].name) by {
            if k < d.len() {
                let i = choose|i: int|
                    0 <= i < rest.len() && d[k] == #[trigger] rest[i] && (i == 0 || rest[i - 1].name
                        != rest[i].name);
                assert(r[k] == d[k]);
                assert(apps[i] == rest[i]);
                if i > 0 {
                    assert(apps[i - 1] == rest[i - 1]);
                }
            } else {
                let i = apps.len() - 1;
                assert(r[k] == apps[i]);
                if i > 0 {
                    assert(apps[i - 1] == rest.last());
                }
            }
        }
    }
}

/// The list that the launcher shows is ordered by the whole name in lower
/// case: no application's lower-case name comes before that of an
/// application shown ahead of it.
pub proof fn lemma_load_apps_ordered_by_lowercase_name(found: Seq<AppView>)
    ensures
        forall|i: int, j: int|
            0 <= i < j < dedup_names(sort_by_name(found)).len() ==> !key_lt(
                lowercase_of(dedup_names(sort_by_name(found))[j].name),
                lowercase_of(dedup_names(sort_by_name(found))[i].name),
            ),
{
    lemma_load_apps(found);
    let r = dedup_names(sort_by_name(found));
    assert forall|i: int, j: int| 0 <= i < j < r.len() implies !key_lt(
        lowercase_of(r[j].name),
        lowercase_of(r[i].name),
    ) by {
        assert(!key_lt(sort_key(r[j]), sort_key(r[i])));
    }
}

/// The list that the launcher shows is ordered by name in lower case; two
/// neighbours never have the same name; every name found is in it; and it
/// holds only applications that were found.
pub proof fn lemma_load_apps(found: Seq<AppView>)
    ensures
        sorted_by_key(dedup_names(sort_by_name(found))),
        forall|i: int|
            0 <= i < dedup_names(sort_by_name(found)).len() - 1 ==> (#[trigger] dedup_names(
                sort_by_name(found),
            )[i]).name != dedup_names(sort_by_name(found))[i + 1].name,
        forall|a: AppView|
            found.contains(a) ==> exists|b: AppView|
                dedup_names(sort_by_name(found)).contains(b) && b.name == a.name,
        forall|b: AppView| dedup_names(sort_by_name(found)).contains(b) ==> found.contains(b),
{
    broadcast use vstd::seq_lib::group_to_multiset_ensures;

    let sorted = sort_by_name(found);
    let r = dedup_names(sorted);
    lemma_sort_by_name_sorted(found);
    lemma_sort_by_name_permutes(found);
    lemma_dedup_keeps_order(sorted);
    lemma_dedup_from_list(sorted);
    lemma_dedup_keeps_names(sorted);
    lemma_dedup_neighbours_differ(sorted);
    assert forall|a: AppView| found.contains(a) implies exists|b: AppView|
        r.contains(b) && b.name == a.name by {
        assert(found.to_multiset().count(a) > 0);
        assert(sorted.contains(a));
        let i = choose|i: int| 0 <= i < sorted.len() && sorted[i] == a;
        let k = choose|k: int| 0 <= k < r.len() && r[k].name == sorted[i].name;
        assert(r.contains(r[k]));
    }
    assert forall|b: AppView| r.contains(b) implies found.contains(b) by {
        let k = choose|k: int| 0 <= k < r.len() && r[k] == b;
        assert(sorted.contains(r[k]));
        assert(sorted.to_multiset().count(b) > 0);
    }
}

} // verus!

//! Configuration values: where the window is anchored, its margins, colours
//! written as `#RRGGBB[AA]`, and where the configuration file is.
use vstd::prelude::*;
use vstd::string::{StringExecFns, StringSliceAdditionalSpecFns};

verus! {

// ── window ──────────────────────────────────────────────────────────────────

/// The edge of the screen that the launcher window sticks to.
#[derive(Clone, Copy, Debug, PartialEq, Eq, Structural)]
pub enum AnchorPosition {
    Center,
    Top,
    Bottom,
    Left,
    Right,
}

impl Default for AnchorPosition {
    fn default() -> (r: Self)
        ensures
            r == AnchorPosition::Top,
    {
        AnchorPosition::Top
    }
}

/// The edges of the screen that a layer-shell surface is anchored to.
#[derive(Clone, Copy, Debug, PartialEq, Eq, Structural)]
pub struct AnchorEdges {
    pub top: bool,
    pub bottom: bool,
    pub left: bool,
    pub right: bool,
}

/// Window settings: anchor, width in pixels, and the distance in pixels
/// from the anchored edge (ignored when centred).
#[derive(Clone, Copy, Debug, PartialEq, Eq, Structural)]
pub struct WindowConfig {
    pub anchor: AnchorPosition,
    pub width: u32,
    pub margin: i32,
}

impl Default for WindowConfig {
    fn default() -> (r: Self)
        ensures
            r == (WindowConfig { anchor: AnchorPosition::Top, width: 600, margin: 0 }),
    {
        WindowConfig { anchor: AnchorPosition::Top, width: 600, margin: 0 }
    }
}

/// The edges anchored for a position: none for `Center`, otherwise the one
/// edge named.
pub open spec fn edges_of(p: AnchorPosition) -> AnchorEdges {
    AnchorEdges {
        top: p == AnchorPosition::Top,
        bottom: p == AnchorPosition::Bottom,
        left: p == AnchorPosition::Left,
        right: p == AnchorPosition::Right,
    }
}

/// The margins (top, right, bottom, left) for a position: `edge` on the
/// anchored edge, 0 elsewhere, all 0 when centred.
pub open spec fn margins_of(p: AnchorPosition, edge: i32) -> (i32, i32, i32, i32) {
    match p {
        AnchorPosition::Center => (0i32, 0i32, 0i32, 0i32),
        AnchorPosition::Top => (edge, 0i32, 0i32, 0i32),
        AnchorPosition::Bottom => (0i32, 0i32, edge, 0i32),
        AnchorPosition::Left => (0i32, 0i32, 0i32, edge),
        AnchorPosition::Right => (0i32, edge, 0i32, 0i32),
    }
}

impl AnchorPosition {
    /// The edges to anchor to: none for `Center`, otherwise the one edge.
    pub fn to_anchor(&self) -> (r: AnchorEdges)
        ensures
            r == edges_of(*self),
    {
        let none = AnchorEdges { top: false, bottom: false, left: false, right: false };
        match self {
            AnchorPosition::Center => none,
            AnchorPosition::Top => AnchorEdges { top: true, ..none },
            AnchorPosition::Bottom => AnchorEdges { bottom: true, ..none },
            AnchorPosition::Left => AnchorEdges { left: true, ..none },
            AnchorPosition::Right => AnchorEdges { right: true, ..none },
        }
    }

    /// The margins (top, right, bottom, left) in pixels: `edge` on the
    /// anchored edge, 0 elsewhere, all 0 when centred.
    pub fn to_margin(&self, edge: i32) -> (r: (i32, i32, i32, i32))
        ensures
            r == margins_of(*self, edge),
    {
        match self {
            AnchorPosition::Center => (0, 0, 0, 0),
            AnchorPosition::Top => (edge, 0, 0, 0),
            AnchorPosition::Bottom => (0, 0, edge, 0),
            AnchorPosition::Left => (0, 0, 0, edge),
            AnchorPosition::Right => (0, edge, 0, 0),
        }
    }
}

// ── colours ─────────────────────────────────────────────────────────────────

/// A colour read from `#RRGGBB` or `#RRGGBBAA`.
#[derive(Clone, Copy, Debug, PartialEq, Eq, Structural)]
pub enum HexColor {
    /// Six hex digits: red, green, blue, fully opaque.
    Rgb(u8, u8, u8),
    /// Eight hex digits: red, green, blue and alpha.
    Rgba(u8, u8, u8, u8),
    /// Neither six nor eight bytes after the `#`s.
    Invalid,
}

/// The number of `#` bytes at the start of `b`.
pub open spec fn hash_prefix_len(b: Seq<u8>) -> nat
    decreases b.len(),
{
    if b.len() > 0 && b[0] == 0x23u8 {
        1 + hash_prefix_len(b.subrange(1, b.len() as int))
    } else {
        0
    }
}

/// The value of a hexadecimal digit, as `char::to_digit(16)` gives it.
pub open spec fn hex_digit(c: u8) -> Option<u8> {
    if 0x30 <= c <= 0x39 {
        Some((c - 0x30) as u8)
    } else if 0x61 <= c <= 0x66 {
        Some((c - 0x61 + 10) as u8)
    } else if 0x41 <= c <= 0x46 {
        Some((c - 0x41 + 10) as u8)
    } else {
        None
    }
}

/// What `u8::from_str_radix(.., 16).unwrap_or(0)` gives for the two bytes
/// `x y`: a leading `+` is a sign, anything that is not a digit makes 0.
pub open spec fn hex_pair(x: u8, y: u8) -> u8 {
    if x == 0x2bu8 {
        match hex_digit(y) {
            Some(d) => d,
            None => 0,
        }
    } else {
        match (hex_digit(x), hex_digit(y)) {
            (Some(a), Some(b)) => (16 * a + b) as u8,
            _ => 0,
        }
    }
}

/// The colour that the bytes of a `#RRGGBB[AA]` text stand for.
pub open spec fn color_of(bytes: Seq<u8>) -> HexColor {
    let h = bytes.subrange(hash_prefix_len(bytes) as int, bytes.len() as int);
    if h.len() == 6 {
        HexColor::Rgb(hex_pair(h[0], h[1]), hex_pair(h[2], h[3]), hex_pair(h[4], h[5]))
    } else if h.len() == 8 {
        HexColor::Rgba(
            hex_pair(h[0], h[1]),
            hex_pair(h[2], h[3]),
            hex_pair(h[4], h[5]),
            hex_pair(h[6], h[7]),
        )
    } else {
        HexColor::Invalid
    }
}

/// A UTF-8 continuation byte: one that does not begin a character.
pub open spec fn is_continuation(b: u8) -> bool {
    0x80 <= b < 0xc0
}

/// The two-byte pieces of a six- or eight-byte colour start on character
/// boundaries, that is, not on a continuation byte (slicing the text there
/// would panic otherwise).
pub open spec fn color_pieces_aligned(bytes: Seq<u8>) -> bool {
    let k = hash_prefix_len(bytes) as int;
    let n = bytes.len() - k;
    &&& (n == 6 || n == 8) ==> !is_continuation(bytes[k + 2]) && !is_continuation(bytes[k + 4])
    &&& n == 8 ==> !is_continuation(bytes[k + 6])
}

/// `hex_digit` reads every hexadecimal digit and nothing else: `0`..`9`
/// are 0..9, `a`..`f` and `A`..`F` alike are 10..15.
pub proof fn lemma_hex_digit_reads_all_digits(c: u8)
    ensures
        hex_digit(c) is Some <==> (0x30 <= c <= 0x39 || 0x41 <= c <= 0x46 || 0x61 <= c <= 0x66),
        0x30 <= c <= 0x39 ==> hex_digit(c) == Some((c - 0x30) as u8),
        0x61 <= c <= 0x66 ==> hex_digit(c) == Some((c - 0x57) as u8),
        0x41 <= c <= 0x46 ==> hex_digit(c) == Some((c - 0x37) as u8),
        0x61 <= c <= 0x66 ==> hex_digit((c - 0x20) as u8) == hex_digit(c),
        hex_digit(c) matches Some(v) ==> v < 16,
{
}

/// Two hexadecimal digits are read as one byte, the first the high digit.
pub proof fn lemma_hex_pair_of_digits(x: u8, y: u8)
    requires
        0x30 <= x <= 0x39 || 0x41 <= x <= 0x46 || 0x61 <= x <= 0x66,
        0x30 <= y <= 0x39 || 0x41 <= y <= 0x46 || 0x61 <= y <= 0x66,
    ensures
        hex_pair(x, y) == 16 * (hex_digit(x)->0 as int) + (hex_digit(y)->0 as int),
        hex_pair(x, y) == 16 * (if x <= 0x39 {
            x - 0x30
        } else if x <= 0x46 {
            x - 0x37
        } else {
            x - 0x57
        }) + (if y <= 0x39 {
            y - 0x30
        } else if y <= 0x46 {
            y - 0x37
        } else {
            y - 0x57
        }),
{
    lemma_hex_digit_reads_all_digits(x);
    lemma_hex_digit_reads_all_digits(y);
}

proof fn lemma_hash_prefix_len_bound(b: Seq<u8>)
    ensures
        hash_prefix_len(b) <= b.len(),
    decreases b.len(),
{
    if b.len() > 0 && b[0] == 0x23u8 {
        lemma_hash_prefix_len_bound(b.subrange(1, b.len() as int));
    }
}

/// Leading `#`s do not matter: one more in front reads the same colour.
pub proof fn lemma_color_ignores_leading_hash(b: Seq<u8>)
    ensures
        color_of(seq![0x23u8] + b) == color_of(b),
{
    let hb = seq![0x23u8] + b;
    assert(hb.subrange(1, hb.len() as int) =~= b);
    assert(hash_prefix_len(hb) == 1 + hash_prefix_len(b));
    lemma_hash_prefix_len_bound(b);
    let k = hash_prefix_len(b) as int;
    assert(hb.subrange(k + 1, hb.len() as int) =~= b.subrange(k, b.len() as int));
}

/// The colour of `#` and six hexadecimal digits: each pair of digits is a
/// byte, the first digit the high one.
pub proof fn lemma_six_digit_color(b: Seq<u8>)
    requires
        b.len() == 7,
        b[0] == 0x23u8,
        forall|i: int|
            1 <= i < 7 ==> (0x30 <= #[trigger] b[i] <= 0x39 || 0x41 <= b[i] <= 0x46 || 0x61 <= b[i]
                <= 0x66),
    ensures
        color_of(b) == HexColor::Rgb(
            (16 * (hex_digit(b[1])->0 as int) + (hex_digit(b[2])->0 as int)) as u8,
            (16 * (hex_digit(b[3])->0 as int) + (hex_digit(b[4])->0 as int)) as u8,
            (16 * (hex_digit(b[5])->0 as int) + (hex_digit(b[6])->0 as int)) as u8,
        ),
{
    let rest = b.subrange(1, 7);
    assert(hash_prefix_len(rest) == 0) by {
        assert(rest[0] == b[1]);
    }
    assert(b.subrange(1, b.len() as int) =~= rest);
    assert(hash_prefix_len(b) == 1);
    assert(b.subrange(1, 7) =~= rest);
    lemma_hex_pair_of_digits(b[1], b[2]);
    lemma_hex_pair_of_digits(b[3], b[4]);
    lemma_hex_pair_of_digits(b[5], b[6]);
}

/// The colour of `#` and eight hexadecimal digits: red, green, blue and
/// then alpha, each pair of digits a byte, the first digit the high one.
pub proof fn lemma_eight_digit_color(b: Seq<u8>)
    requires
        b.len() == 9,
        b[0] == 0x23u8,
        forall|i: int|
            1 <= i < 9 ==> (0x30 <= #[trigger] b[i] <= 0x39 || 0x41 <= b[i] <= 0x46 || 0x61 <= b[i]
                <= 0x66),
    ensures
        color_of(b) == HexColor::Rgba(
            (16 * (hex_digit(b[1])->0 as int) + (hex_digit(b[2])->0 as int)) as u8,
            (16 * (hex_digit(b[3])->0 as int) + (hex_digit(b[4])->0 as int)) as u8,
            (16 * (hex_digit(b[5])->0 as int) + (hex_digit(b[6])->0 as int)) as u8,
            (16 * (hex_digit(b[7])->0 as int) + (hex_digit(b[8])->0 as int)) as u8,
        ),
{
    let rest = b.subrange(1, 9);
    assert(hash_prefix_len(rest) == 0) by {
        assert(rest[0] == b[1]);
    }
    assert(b.subrange(1, b.len() as int) =~= rest);
    assert(hash_prefix_len(b) == 1);
    lemma_hex_pair_of_digits(b[1], b[2]);
    lemma_hex_pair_of_digits(b[3], b[4]);
    lemma_hex_pair_of_digits(b[5], b[6]);
    lemma_hex_pair_of_digits(b[7], b[8]);
}

/// Only six or eight digits make a colour: `#` and five, seven or nine
/// hexadecimal digits is not one.
pub proof fn lemma_other_digit_counts_invalid(b: Seq<u8>)
    requires
        b.len() == 6 || b.len() == 8 || b.len() == 10,
        b[0] == 0x23u8,
        forall|i: int|
            1 <= i < b.len() ==> (0x30 <= #[trigger] b[i] <= 0x39 || 0x41 <= b[i] <= 0x46 || 0x61
                <= b[i] <= 0x66),
    ensures
        color_of(b) == HexColor::Invalid,
{
    let rest = b.subrange(1, b.len() as int);
    assert(hash_prefix_len(rest) == 0) by {
        assert(rest[0] == b[1]);
    }
    assert(hash_prefix_len(b) == 1);
}

fn hex_digit_of(c: u8) -> (r: Option<u8>)
    ensures
        r == hex_digit(c),
{
    if 0x30 <= c && c <= 0x39 {
        Some(c - 0x30)
    } else if 0x61 <= c && c <= 0x66 {
        Some(c - 0x61 + 10)
    } else if 0x41 <= c && c <= 0x46 {
        Some(c - 0x41 + 10)
    } else {
        None
    }
}

fn hex_pair_of(x: u8, y: u8) -> (r: u8)
    ensures
        r == hex_pair(x, y),
{
    if x == 0x2b {
        match hex_digit_of(y) {
            Some(d) => d,
            None => 0,
        }
    } else {
        match (hex_digit_of(x), hex_digit_of(y)) {
            (Some(a), Some(b)) => 16 * a + b,
            _ => 0,
        }
    }
}

/// Reads `#RRGGBB` or `#RRGGBBAA` (any number of leading `#`).
pub fn parse_color(hex: &str) -> (r: HexColor)
    requires
        color_pieces_aligned(hex.spec_bytes()),
    ensures
        r == color_of(hex.spec_bytes()),
{
    let b = hex.as_bytes();
    let ghost bytes = b@;
    let mut k: usize = 0;
    proof {
        assert(bytes.subrange(0, bytes.len() as int) =~= bytes);
    }
    while k < b.len() && b[k] == 0x23
        invariant
            bytes == b@,
            k <= b.len(),
            hash_prefix_len(bytes) == k + hash_prefix_len(
                bytes.subrange(k as int, bytes.len() as int),
            ),
        decreases b.len() - k,
    {
        proof {
            let t = bytes.subrange(k as int, bytes.len() as int);
            assert(t.subrange(1, t.len() as int) =~= bytes.subrange(k + 1, bytes.len() as int));
        }
        k = k + 1;
    }
    proof {
        assert(hash_prefix_len(bytes.subrange(k as int, bytes.len() as int)) == 0);
    }
    let n = b.len() - k;
    if n == 6 {
        HexColor::Rgb(
            hex_pair_of(b[k], b[k + 1]),
            hex_pair_of(b[k + 2], b[k + 3]),
            hex_pair_of(b[k + 4], b[k + 5]),
        )
    } else if n == 8 {
        HexColor::Rgba(
            hex_pair_of(b[k], b[k + 1]),
            hex_pair_of(b[k + 2], b[k + 3]),
            hex_pair_of(b[k + 4], b[k + 5]),
            hex_pair_of(b[k + 6], b[k + 7]),
        )
    } else {
        HexColor::Invalid
    }
}

// ── where the configuration lives ──────────────────────────────────────────

/// The configuration file: the path given on the command line if any, else
/// `$XDG_CONFIG_HOME/rust-app-menu/config.toml`, with `$HOME/.config` (or
/// `/root/.config`) in place of an unset `XDG_CONFIG_HOME`.
pub open spec fn config_file(
    given: Option<Seq<char>>,
    xdg_config_home: Option<Seq<char>>,
    home: Option<Seq<char>>,
) -> Seq<char> {
    match given {
        Some(p) => p,
        None => {
            let home_dir = match home {
                Some(h) => h,
                None => "/root"@,
            };
            let base = match xdg_config_home {
                Some(x) => x,
                None => home_dir + "/.config"@,
            };
            base + "/rust-app-menu/config.toml"@
        },
    }
}

/// The path of the configuration file, from the path given on the command
/// line and the values of `XDG_CONFIG_HOME` and `HOME` (`None` when unset).
pub fn config_path(given: Option<String>, xdg_config_home: Option<String>, home: Option<String>) -> (r:
    String)
    ensures
        r@ == config_file(
            match given {
                Some(p) => Some(p@),
                None => None,
            },
            match xdg_config_home {
                Some(x) => Some(x@),
                None => None,
            },
            match home {
                Some(h) => Some(h@),
                None => None,
            },
        ),
{
    match given {
        Some(p) => p,
        None => {
            let mut base = match xdg_config_home {
                Some(x) => x,
                None => {
                    let mut h = match home {
                        Some(h) => h,
                        None => String::from_str("/root"),
                    };
                    h.append("/.config");
                    h
                },
            };
            base.append("/rust-app-menu/config.toml");
            base
        },
    }
}

/// What the path slot holds after `set_path(slot, path)`.
pub open spec fn path_after(slot: Option<String>, path: String) -> Option<String> {
    match slot {
        Some(p) => Some(p),
        None => Some(path),
    }
}

/// Records the path given on the command line; only the first one given is
/// kept, as a `OnceLock` keeps its first value.
pub fn set_path(slot: &mut Option<String>, path: String)
    ensures
        *final(slot) == path_after(*old(slot), path),
{
    if slot.is_none() {
        *slot = Some(path);
    }
}

/// Replaces the configuration in use by one freshly read.
pub fn reload<C>(slot: &mut Option<C>, fresh: C)
    ensures
        *final(slot) == Some(fresh),
{
    *slot = Some(fresh);
}

// ── laws ────────────────────────────────────────────────────────────────────

/// The first path given wins: setting it again changes nothing.
pub proof fn lemma_first_path_wins(first: String, later: String)
    ensures
        path_after(path_after(None, first), later) == Some(first),
{
}

/// The margin sits on the anchored edge and nowhere else: a non-zero
/// `edge` shows up in exactly the places that `to_anchor` anchors, and a
/// centred window has no margin.
pub proof fn lemma_margin_on_anchored_edge(p: AnchorPosition, edge: i32)
    ensures
        ({
            let m = margins_of(p, edge);
            let a = edges_of(p);
            &&& edge != 0 ==> ((m.0 != 0) == a.top && (m.1 != 0) == a.right && (m.2 != 0)
                == a.bottom && (m.3 != 0) == a.left)
            &&& p == AnchorPosition::Center ==> m == (0i32, 0i32, 0i32, 0i32) && !a.top
                && !a.bottom && !a.left && !a.right
        }),
{
}

} // verus!

//! Typed IP addresses: parsing from text and canonical rendering.
//!
//! The grammar accepted here is the usual textual one: dotted-quad decimal
//! for IPv4 (each octet 1 to 3 digits, no leading zero, value at most 255)
//! and colon-hex for IPv6 (eight groups of 1 to 4 hex digits, a single `::`
//! standing for one or more zero groups, and an optional trailing embedded
//! dotted quad standing for the last two groups, as in `::ffff:1.2.3.4`);
//! the whitespace ignored around an address is Unicode whitespace, as
//! `str::trim` removes it. Rendering produces the dotted-quad form for IPv4
//! and the standard colon-hex form for IPv6: IPv4-compatible and
//! IPv4-mapped addresses keep their embedded dotted quad, everything else
//! is lowercase hex with the leftmost longest run of two or more zero
//! groups written `::`.

use vstd::prelude::*;
use vstd::string::*;

verus! {

/// An IP address discovered by one of the sources: either a 32-bit IPv4
/// address given by its four octets, or a 128-bit IPv6 address given by its
/// eight 16-bit groups.
#[derive(Clone, Copy, PartialEq, Eq, Structural, Debug)]
pub enum MyIp {
    V4(u8, u8, u8, u8),
    V6(u16, u16, u16, u16, u16, u16, u16, u16),
}

// ---------------------------------------------------------------------------
// Character classes and digit values
// ---------------------------------------------------------------------------

/// The characters with Unicode's White_Space property, as `str::trim`
/// removes them.
pub open spec fn is_ws(c: char) -> bool {
    ||| 0x09 <= c as u32 <= 0x0D
    ||| c as u32 == 0x20
    ||| c as u32 == 0x85
    ||| c as u32 == 0xA0
    ||| c as u32 == 0x1680
    ||| 0x2000 <= c as u32 <= 0x200A
    ||| c as u32 == 0x2028
    ||| c as u32 == 0x2029
    ||| c as u32 == 0x202F
    ||| c as u32 == 0x205F
    ||| c as u32 == 0x3000
}

pub open spec fn is_digit(c: char) -> bool {
    48 <= c as u32 <= 57
}

pub open spec fn digit_val(c: char) -> int {
    c as u32 - 48
}

pub open spec fn is_hex_digit(c: char) -> bool {
    is_digit(c) || 97 <= c as u32 <= 102 || 65 <= c as u32 <= 70
}

pub open spec fn hex_digit_val(c: char) -> int {
    if is_digit(c) {
        c as u32 - 48
    } else if 97 <= c as u32 {
        c as u32 - 87
    } else {
        c as u32 - 55
    }
}

/// The character for one digit value, lowercase for 10 to 15.
pub open spec fn digit_char(d: int) -> char {
    if d == 0 { '0' }
    else if d == 1 { '1' }
    else if d == 2 { '2' }
    else if d == 3 { '3' }
    else if d == 4 { '4' }
    else if d == 5 { '5' }
    else if d == 6 { '6' }
    else if d == 7 { '7' }
    else if d == 8 { '8' }
    else if d == 9 { '9' }
    else if d == 10 { 'a' }
    else if d == 11 { 'b' }
    else if d == 12 { 'c' }
    else if d == 13 { 'd' }
    else if d == 14 { 'e' }
    else { 'f' }
}

// ---------------------------------------------------------------------------
// Whitespace trimming
// ---------------------------------------------------------------------------

/// The text with surrounding (not inner) whitespace removed.
pub open spec fn trim_spec(s: Seq<char>) -> Seq<char>
    decreases s.len(),
{
    if s.len() > 0 && is_ws(s[0]) {
        trim_spec(s.drop_first())
    } else if s.len() > 0 && is_ws(s.last()) {
        trim_spec(s.drop_last())
    } else {
        s
    }
}

// ---------------------------------------------------------------------------
// Digit runs and their values
// ---------------------------------------------------------------------------

pub open spec fn all_digits(s: Seq<char>) -> bool {
    forall|k: int| 0 <= k < s.len() ==> is_digit(s[k])
}

pub open spec fn dec_val(s: Seq<char>) -> int
    decreases s.len(),
{
    if s.len() == 0 {
        0
    } else {
        dec_val(s.drop_last()) * 10 + digit_val(s.last())
    }
}

/// A valid textual IPv4 octet: one to three digits whose value fits a
/// byte, with no leading zero.
pub open spec fn is_octet(s: Seq<char>) -> bool {
    1 <= s.len() <= 3 && all_digits(s) && dec_val(s) <= 255 && (s.len() > 1 ==> s[0] != '0')
}

pub open spec fn all_hex_digits(s: Seq<char>) -> bool {
    forall|k: int| 0 <= k < s.len() ==> is_hex_digit(s[k])
}

pub open spec fn hex_val(s: Seq<char>) -> int
    decreases s.len(),
{
    if s.len() == 0 {
        0
    } else {
        hex_val(s.drop_last()) * 16 + hex_digit_val(s.last())
    }
}

/// A valid textual IPv6 group: one to four hex digits (either case).
pub open spec fn is_hex_group(s: Seq<char>) -> bool {
    1 <= s.len() <= 4 && all_hex_digits(s)
}

// ---------------------------------------------------------------------------
// Splitting on a separator, and joining with one
// ---------------------------------------------------------------------------

/// Index of the first occurrence of `sep` in `s`, or `s.len()` if none.
pub open spec fn find_first(s: Seq<char>, sep: char) -> int
    decreases s.len(),
{
    if s.len() == 0 {
        0
    } else if s[0] == sep {
        0
    } else {
        1 + find_first(s.drop_first(), sep)
    }
}

/// The maximal split of `s` on `sep`; separators are dropped, empty pieces kept.
pub open spec fn split_on(s: Seq<char>, sep: char) -> Seq<Seq<char>>
    decreases s.len(),
{
    let i = find_first(s, sep);
    if 0 <= i < s.len() {
        seq![s.take(i)] + split_on(s.skip(i + 1), sep)
    } else {
        seq![s]
    }
}

/// The pieces joined back together with `sep` between adjacent pieces.
pub open spec fn join_with(parts: Seq<Seq<char>>, sep: char) -> Seq<char>
    decreases parts.len(),
{
    if parts.len() == 0 {
        Seq::empty()
    } else if parts.len() == 1 {
        parts[0]
    } else {
        parts[0] + seq![sep] + join_with(parts.drop_first(), sep)
    }
}

// ---------------------------------------------------------------------------
// The IPv4 grammar
// ---------------------------------------------------------------------------

pub open spec fn parse_v4(t: Seq<char>) -> Option<MyIp> {
    let parts = split_on(t, '.');
    if parts.len() == 4 && is_octet(parts[0]) && is_octet(parts[1]) && is_octet(parts[2])
        && is_octet(parts[3]) {
        Some(
            MyIp::V4(
                dec_val(parts[0]) as u8,
                dec_val(parts[1]) as u8,
                dec_val(parts[2]) as u8,
                dec_val(parts[3]) as u8,
            ),
        )
    } else {
        None
    }
}

// ---------------------------------------------------------------------------
// The IPv6 grammar
// ---------------------------------------------------------------------------

pub open spec fn all_groups(parts: Seq<Seq<char>>) -> bool {
    forall|k: int| 0 <= k < parts.len() ==> is_hex_group(parts[k])
}

pub open spec fn group_vals(parts: Seq<Seq<char>>) -> Seq<u16> {
    Seq::new(parts.len(), |k: int| hex_val(parts[k]) as u16)
}

pub open spec fn zero_groups(n: nat) -> Seq<u16> {
    Seq::new(n, |k: int| 0u16)
}

/// Index of the first empty piece, or `parts.len()` if none.
pub open spec fn find_first_empty(parts: Seq<Seq<char>>) -> int
    decreases parts.len(),
{
    if parts.len() == 0 {
        0
    } else if parts[0].len() == 0 {
        0
    } else {
        1 + find_first_empty(parts.drop_first())
    }
}

/// The eight 16-bit groups denoted by the colon-split pieces of an IPv6
/// text, or `None` if the pieces do not form a valid address. A single
/// `::` (two adjacent empty pieces at the ends, or one empty piece in the
/// middle) stands for one or more zero groups.
pub open spec fn parse_v6_groups(parts: Seq<Seq<char>>) -> Option<Seq<u16>> {
    if parts.len() == 8 && all_groups(parts) {
        Some(group_vals(parts))
    } else if parts.len() == 3 && parts[0].len() == 0 && parts[1].len() == 0 && parts[2].len()
        == 0 {
        // the text was exactly "::"
        Some(zero_groups(8))
    } else if 3 <= parts.len() <= 9 && parts[0].len() == 0 && parts[1].len() == 0 && all_groups(
        parts.skip(2),
    ) {
        // leading "::", as in "::1"
        Some(zero_groups((10 - parts.len()) as nat) + group_vals(parts.skip(2)))
    } else if 3 <= parts.len() <= 9 && parts[parts.len() - 1].len() == 0 && parts[parts.len()
        - 2].len() == 0 && all_groups(parts.take(parts.len() - 2)) {
        // trailing "::", as in "1::"
        Some(group_vals(parts.take(parts.len() - 2)) + zero_groups((10 - parts.len()) as nat))
    } else {
        let e = find_first_empty(parts);
        if parts.len() <= 8 && 1 <= e <= parts.len() - 2 && all_groups(parts.take(e))
            && all_groups(parts.skip(e + 1)) {
            // "::" in the middle, as in "1::2"
            Some(
                group_vals(parts.take(e)) + zero_groups((9 - parts.len()) as nat) + group_vals(
                    parts.skip(e + 1),
                ),
            )
        } else {
            None
        }
    }
}

/// The colon-split pieces of an IPv6 text, with a trailing embedded dotted
/// quad (as in `::ffff:1.2.3.4`), if any, replaced by the two 16-bit
/// groups it stands for.
pub open spec fn v6_pieces(t: Seq<char>) -> Seq<Seq<char>> {
    let parts = split_on(t, ':');
    match parse_v4(parts.last()) {
        Some(MyIp::V4(a, b, c, d)) => parts.drop_last().push(
            hex_chars((a as nat) * 256 + (b as nat)),
        ).push(hex_chars((c as nat) * 256 + (d as nat))),
        _ => parts,
    }
}

pub open spec fn parse_v6(t: Seq<char>) -> Option<MyIp> {
    match parse_v6_groups(v6_pieces(t)) {
        Some(gs) => Some(MyIp::V6(gs[0], gs[1], gs[2], gs[3], gs[4], gs[5], gs[6], gs[7])),
        None => None,
    }
}

// ---------------------------------------------------------------------------
// The parser itself
// ---------------------------------------------------------------------------

/// What `ip_from_str` returns: the trimmed text read as IPv4 if possible,
/// else as IPv6, else nothing.
pub open spec fn spec_parse_ip(s: Seq<char>) -> Option<MyIp> {
    let t = trim_spec(s);
    if parse_v4(t) is Some {
        parse_v4(t)
    } else {
        parse_v6(t)
    }
}

// ---------------------------------------------------------------------------
// Canonical rendering
// ---------------------------------------------------------------------------

/// Decimal digits of `v`, most significant first, no leading zeros.
pub open spec fn dec_chars(v: nat) -> Seq<char>
    decreases v,
{
    if v < 10 {
        seq![digit_char(v as int)]
    } else {
        dec_chars(v / 10).push(digit_char((v % 10) as int))
    }
}

/// Lowercase hex digits of `v`, most significant first, no leading zeros.
pub open spec fn hex_chars(v: nat) -> Seq<char>
    decreases v,
{
    if v < 16 {
        seq![digit_char(v as int)]
    } else {
        hex_chars(v / 16).push(digit_char((v % 16) as int))
    }
}

/// The lowercase hex text of each group, in order.
pub open spec fn hex_parts(g: Seq<u16>) -> Seq<Seq<char>> {
    Seq::new(g.len(), |k: int| hex_chars(g[k] as nat))
}

/// Length of the run of zero groups starting at `i`.
pub open spec fn zero_run_len(g: Seq<u16>, i: int) -> int
    decreases g.len() - i,
{
    if 0 <= i < g.len() && g[i] == 0 {
        1 + zero_run_len(g, i + 1)
    } else {
        0
    }
}

/// Scans for the leftmost longest zero run, carrying the best found so far
/// (start `bi`, length `bl`); a start of -1 means none found yet.
pub open spec fn scan_best(g: Seq<u16>, i: int, bi: int, bl: int) -> (int, int)
    decreases g.len() - i,
{
    if !(0 <= i < g.len()) {
        (bi, bl)
    } else if zero_run_len(g, i) > bl {
        scan_best(g, i + 1, i, zero_run_len(g, i))
    } else {
        scan_best(g, i + 1, bi, bl)
    }
}

/// The start and length of the run that `::` stands for: the leftmost
/// longest run of at least two zero groups; start -1 when no such run
/// exists (a single zero group is never compressed).
pub open spec fn best_zero_run(g: Seq<u16>) -> (int, int) {
    scan_best(g, 0, -1, 1)
}

/// The canonical colon-hex text of the groups: the leftmost longest run of
/// two or more zero groups is written `::`, everything else as lowercase
/// hex groups separated by single colons.
pub open spec fn render_groups(g: Seq<u16>) -> Seq<char> {
    let bi = best_zero_run(g).0;
    let bl = best_zero_run(g).1;
    if bi < 0 {
        join_with(hex_parts(g), ':')
    } else {
        join_with(hex_parts(g.take(bi)), ':') + seq![':'] + seq![':'] + join_with(
            hex_parts(g.skip(bi + bl)),
            ':',
        )
    }
}

/// The dotted-quad text of four octets.
pub open spec fn quad_chars(a: u8, b: u8, c: u8, d: u8) -> Seq<char> {
    join_with(
        seq![dec_chars(a as nat), dec_chars(b as nat), dec_chars(c as nat), dec_chars(d as nat)],
        '.',
    )
}

/// The dotted-quad text of the two 16-bit groups `hi`, `lo`.
pub open spec fn v4_tail_chars(hi: u16, lo: u16) -> Seq<char> {
    quad_chars((hi / 256) as u8, (hi % 256) as u8, (lo / 256) as u8, (lo % 256) as u8)
}

/// An IPv4-compatible address other than the unspecified and loopback
/// addresses: rendered with its embedded dotted quad, as std does.
pub open spec fn is_v4_compatible(g: Seq<u16>) -> bool {
    g.len() == 8 && g[0] == 0 && g[1] == 0 && g[2] == 0 && g[3] == 0 && g[4] == 0 && g[5] == 0
        && !(g[6] == 0 && g[7] <= 1)
}

/// An IPv4-mapped address: rendered `::ffff:` plus its dotted quad.
pub open spec fn is_v4_mapped(g: Seq<u16>) -> bool {
    g.len() == 8 && g[0] == 0 && g[1] == 0 && g[2] == 0 && g[3] == 0 && g[4] == 0 && g[5]
        == 0xffff
}

/// The canonical colon-hex text of eight groups: the embedded dotted-quad
/// forms for IPv4-compatible and IPv4-mapped addresses, else the
/// zero-compressed form.
pub open spec fn render_v6_text(g: Seq<u16>) -> Seq<char> {
    if is_v4_compatible(g) {
        seq![':', ':'] + v4_tail_chars(g[6], g[7])
    } else if is_v4_mapped(g) {
        seq![':', ':'] + hex_chars(0xffff) + seq![':'] + v4_tail_chars(g[6], g[7])
    } else {
        render_groups(g)
    }
}

/// The canonical text of an address: dotted-quad decimal for IPv4, the
/// standard colon-hex form for IPv6.
pub open spec fn spec_render(ip: MyIp) -> Seq<char> {
    match ip {
        MyIp::V4(a, b, c, d) => quad_chars(a, b, c, d),
        MyIp::V6(g0, g1, g2, g3, g4, g5, g6, g7) => render_v6_text(
            seq![g0, g1, g2, g3, g4, g5, g6, g7],
        ),
    }
}

// ---------------------------------------------------------------------------
// Bounds of digit-run values
// ---------------------------------------------------------------------------

pub proof fn lemma_dec_val_bounds(s: Seq<char>)
    requires
        all_digits(s),
    ensures
        0 <= dec_val(s),
        s.len() <= 1 ==> dec_val(s) < 10,
        s.len() <= 2 ==> dec_val(s) < 100,
        s.len() <= 3 ==> dec_val(s) < 1000,
    decreases s.len(),
{
    if s.len() > 0 {
        assert(all_digits(s.drop_last())) by {
            assert(forall|k: int| 0 <= k < s.len() - 1 ==> s.drop_last()[k] == s[k]);
        }
        lemma_dec_val_bounds(s.drop_last());
        assert(is_digit(s.last()));
    }
}

pub proof fn lemma_hex_val_bounds(s: Seq<char>)
    requires
        all_hex_digits(s),
    ensures
        0 <= hex_val(s),
        s.len() <= 1 ==> hex_val(s) < 16,
        s.len() <= 2 ==> hex_val(s) < 256,
        s.len() <= 3 ==> hex_val(s) < 4096,
        s.len() <= 4 ==> hex_val(s) < 65536,
    decreases s.len(),
{
    if s.len() > 0 {
        assert(all_hex_digits(s.drop_last())) by {
            assert(forall|k: int| 0 <= k < s.len() - 1 ==> s.drop_last()[k] == s[k]);
        }
        lemma_hex_val_bounds(s.drop_last());
        assert(is_hex_digit(s.last()));
    }
}

// ---------------------------------------------------------------------------
// Properties of find_first / split_on
// ---------------------------------------------------------------------------

pub proof fn lemma_find_first_props(s: Seq<char>, sep: char)
    ensures
        0 <= find_first(s, sep) <= s.len(),
        find_first(s, sep) < s.len() ==> s[find_first(s, sep)] == sep,
        forall|k: int| 0 <= k < find_first(s, sep) ==> s[k] != sep,
    decreases s.len(),
{
    if s.len() > 0 && s[0] != sep {
        lemma_find_first_props(s.drop_first(), sep);
        assert forall|k: int| 0 <= k < find_first(s, sep) implies s[k] != sep by {
            if k >= 1 {
                assert(s.drop_first()[k - 1] == s[k]);
                assert(0 <= k - 1 < find_first(s.drop_first(), sep));
            }
        }
    }
}

pub proof fn lemma_find_first_is(s: Seq<char>, sep: char, i: int)
    requires
        0 <= i <= s.len(),
        forall|k: int| 0 <= k < i ==> s[k] != sep,
        i < s.len() ==> s[i] == sep,
    ensures
        find_first(s, sep) == i,
    decreases s.len(),
{
    if s.len() == 0 {
    } else if s[0] == sep {
        assert(i == 0);
    } else {
        assert(i >= 1);
        let d = s.drop_first();
        assert(forall|k: int| 0 <= k < i - 1 ==> d[k] == s[k + 1] && d[k] != sep);
        assert(i - 1 < d.len() ==> d[i - 1] == s[i]);
        lemma_find_first_is(d, sep, i - 1);
    }
}

pub proof fn lemma_split_no_sep(s: Seq<char>, sep: char)
    requires
        forall|k: int| 0 <= k < s.len() ==> s[k] != sep,
    ensures
        split_on(s, sep) == seq![s],
{
    lemma_find_first_is(s, sep, s.len() as int);
}

// ---------------------------------------------------------------------------
// Exec character helpers
// ---------------------------------------------------------------------------

fn ws_char(c: char) -> (r: bool)
    ensures
        r == is_ws(c),
{
    let u = c as u32;
    (0x09 <= u && u <= 0x0D) || u == 0x20 || u == 0x85 || u == 0xA0 || u == 0x1680 || (0x2000 <= u
        && u <= 0x200A) || u == 0x2028 || u == 0x2029 || u == 0x202F || u == 0x205F || u == 0x3000
}

// ---------------------------------------------------------------------------
// Exec octet and hex-group parsers
// ---------------------------------------------------------------------------

fn parse_octet(part: &str) -> (r: Option<u8>)
    ensures
        r is Some <==> is_octet(part@),
        (r matches Some(v) ==> v as int == dec_val(part@)),
{
    let n = part.unicode_len();
    if n < 1 || n > 3 {
        return None;
    }
    if n > 1 && part.get_char(0) == '0' {
        return None;
    }
    let mut i: usize = 0;
    let mut v: u32 = 0;
    while i < n
        invariant
            n == part@.len(),
            1 <= n <= 3,
            0 <= i <= n,
            forall|k: int| 0 <= k < i ==> is_digit(part@[k]),
            v as int == dec_val(part@.take(i as int)),
            v < 1000,
        decreases n - i,
    {
        let c = part.get_char(i);
        let u = c as u32;
        if u < 48 || u > 57 {
            return None;
        }
        proof {
            assert(part@.take(i + 1).drop_last() =~= part@.take(i as int));
            assert(part@.take(i + 1).last() == part@[i as int]);
            assert(all_digits(part@.take(i + 1)));
            lemma_dec_val_bounds(part@.take(i + 1));
        }
        v = v * 10 + (u - 48);
        i += 1;
    }
    proof {
        assert(part@.take(n as int) =~= part@);
    }
    if v <= 255 {
        Some(v as u8)
    } else {
        None
    }
}

fn parse_hex_group(part: &str) -> (r: Option<u16>)
    ensures
        r is Some <==> is_hex_group(part@),
        (r matches Some(v) ==> v as int == hex_val(part@)),
{
    let n = part.unicode_len();
    if n < 1 || n > 4 {
        return None;
    }
    let mut i: usize = 0;
    let mut v: u32 = 0;
    while i < n
        invariant
            n == part@.len(),
            1 <= n <= 4,
            0 <= i <= n,
            forall|k: int| 0 <= k < i ==> is_hex_digit(part@[k]),
            v as int == hex_val(part@.take(i as int)),
            v < 65536,
        decreases n - i,
    {
        let c = part.get_char(i);
        let u = c as u32;
        let d: u32;
        if 48 <= u && u <= 57 {
            d = u - 48;
        } else if 97 <= u && u <= 102 {
            d = u - 87;
        } else if 65 <= u && u <= 70 {
            d = u - 55;
        } else {
            return None;
        }
        proof {
            assert(part@.take(i + 1).drop_last() =~= part@.take(i as int));
            assert(part@.take(i + 1).last() == part@[i as int]);
            assert(all_hex_digits(part@.take(i + 1)));
            lemma_hex_val_bounds(part@.take(i + 1));
        }
        v = v * 16 + d;
        i += 1;
    }
    proof {
        assert(part@.take(n as int) =~= part@);
        lemma_hex_val_bounds(part@);
    }
    Some(v as u16)
}

// ---------------------------------------------------------------------------
// Exec trimming and splitting
// ---------------------------------------------------------------------------

fn trim_rec(s: &str) -> (r: String)
    ensures
        r@ == trim_spec(s@),
    decreases s@.len(),
{
    let n = s.unicode_len();
    if n > 0 && ws_char(s.get_char(0)) {
        let rest = s.substring_char(1, n);
        proof {
            assert(rest@ =~= s@.drop_first());
        }
        trim_rec(rest)
    } else if n > 0 && ws_char(s.get_char(n - 1)) {
        let rest = s.substring_char(0, n - 1);
        proof {
            assert(rest@ =~= s@.drop_last());
        }
        trim_rec(rest)
    } else {
        s.to_owned()
    }
}

fn split_char(s: &str, sep: char) -> (parts: Vec<String>)
    ensures
        parts.deep_view() == split_on(s@, sep),
        parts@.len() >= 1,
    decreases s@.len(),
{
    let n = s.unicode_len();
    let mut i: usize = 0;
    while i < n && s.get_char(i) != sep
        invariant
            n == s@.len(),
            0 <= i <= n,
            forall|k: int| 0 <= k < i ==> s@[k] != sep,
        decreases n - i,
    {
        i += 1;
    }
    proof {
        lemma_find_first_is(s@, sep, i as int);
    }
    if i == n {
        let mut parts: Vec<String> = Vec::new();
        parts.push(s.to_owned());
        proof {
            assert(parts.deep_view() =~= seq![s@]);
        }
        parts
    } else {
        let head = s.substring_char(0, i);
        let tail = s.substring_char(i + 1, n);
        proof {
            assert(tail@ =~= s@.skip(i + 1));
        }
        let rest = split_char(tail, sep);
        let mut parts: Vec<String> = Vec::new();
        parts.push(head.to_owned());
        let mut j: usize = 0;
        proof {
            assert(parts.deep_view() =~~= seq![s@.take(i as int)] + rest.deep_view().take(0));
        }
        while j < rest.len()
            invariant
                0 <= j <= rest@.len(),
                parts@.len() == j + 1,
                parts.deep_view() == seq![s@.take(i as int)] + rest.deep_view().take(j as int),
            decreases rest@.len() - j,
        {
            let ghost before = parts.deep_view();
            let ghost bvecview = parts@;
            let piece = rest[j].clone();
            proof {
                assert(piece@ == rest.deep_view()[j as int]);
            }
            parts.push(piece);
            proof {
                assert(parts@ == bvecview.push(piece));
                assert(bvecview.len() == j + 1);
                assert(parts@.len() == j + 2);
                assert(parts.deep_view()[j + 1] == piece@);
                assert forall|k: int| 0 <= k <= j implies parts.deep_view()[k] == before[k] by {
                    assert(parts@[k] == bvecview.push(piece)[k]);
                    assert(bvecview.push(piece)[k] == bvecview[k]);
                    assert(parts.deep_view()[k] == parts@[k].deep_view());
                    assert(before[k] == bvecview[k].deep_view());
                }
                let ghost target = seq![s@.take(i as int)] + rest.deep_view().take(j + 1);
                assert(parts.deep_view().len() == j + 2);
                assert(target.len() == j + 2);
                assert forall|k: int| 0 <= k < j + 2 implies parts.deep_view()[k] == target[k] by {
                    if k == 0 {
                        assert(before[0] == s@.take(i as int));
                    } else if k <= j {
                        assert(before[k] == rest.deep_view().take(j as int)[k - 1]);
                        assert(rest.deep_view().take(j as int)[k - 1] == rest.deep_view()[k - 1]);
                        assert(rest.deep_view().take(j + 1)[k - 1] == rest.deep_view()[k - 1]);
                    } else {
                        assert(parts.deep_view()[j + 1] == piece@);
                        assert(rest.deep_view().take(j + 1)[j as int] == rest.deep_view()[j as int]);
                    }
                }
                assert(parts.deep_view() =~= target);
            }
            j += 1;
        }
        proof {
            assert(rest.deep_view().take(rest@.len() as int) =~~= rest.deep_view());
            assert(parts.deep_view() =~~= seq![s@.take(i as int)] + split_on(s@.skip(i + 1), sep));
        }
        parts
    }
}

// ---------------------------------------------------------------------------
// Exec IPv4 parsing
// ---------------------------------------------------------------------------

fn parse_v4_exec(t: &str) -> (r: Option<MyIp>)
    ensures
        r == parse_v4(t@),
{
    let parts = split_char(t, '.');
    let ghost ps = parts.deep_view();
    if parts.len() != 4 {
        return None;
    }
    proof {
        assert(ps[0] == parts@[0]@ && ps[1] == parts@[1]@ && ps[2] == parts@[2]@ && ps[3]
            == parts@[3]@);
    }
    let o0 = parse_octet(parts[0].as_str());
    let o1 = parse_octet(parts[1].as_str());
    let o2 = parse_octet(parts[2].as_str());
    let o3 = parse_octet(parts[3].as_str());
    match (o0, o1, o2, o3) {
        (Some(a), Some(b), Some(c), Some(d)) => Some(MyIp::V4(a, b, c, d)),
        _ => None,
    }
}

// ---------------------------------------------------------------------------
// Exec IPv6 parsing
// ---------------------------------------------------------------------------

proof fn lemma_find_first_empty_is(parts: Seq<Seq<char>>, e: int)
    requires
        0 <= e <= parts.len(),
        forall|k: int| 0 <= k < e ==> parts[k].len() != 0,
        e < parts.len() ==> parts[e].len() == 0,
    ensures
        find_first_empty(parts) == e,
    decreases parts.len(),
{
    if parts.len() == 0 {
    } else if parts[0].len() == 0 {
        assert(e == 0);
    } else {
        assert(e >= 1);
        let d = parts.drop_first();
        assert(forall|k: int| 0 <= k < e - 1 ==> d[k] == parts[k + 1] && d[k].len() != 0);
        assert(e - 1 < d.len() ==> d[e - 1] == parts[e]);
        lemma_find_first_empty_is(d, e - 1);
    }
}

/// Parses the pieces `parts[from..to]` as hex groups; `None` if any piece is
/// not a valid group.
fn hex_groups_range(parts: &Vec<String>, from: usize, to: usize) -> (r: Option<Vec<u16>>)
    requires
        from <= to <= parts@.len(),
    ensures
        r is Some <==> all_groups(parts.deep_view().subrange(from as int, to as int)),
        (r matches Some(v) ==> v@ == group_vals(
            parts.deep_view().subrange(from as int, to as int),
        )),
{
    let ghost sub = parts.deep_view().subrange(from as int, to as int);
    let mut out: Vec<u16> = Vec::new();
    let mut i: usize = from;
    while i < to
        invariant
            from <= i <= to <= parts@.len(),
            sub == parts.deep_view().subrange(from as int, to as int),
            out@.len() == i - from,
            forall|k: int| 0 <= k < i - from ==> is_hex_group(sub[k]),
            forall|k: int| 0 <= k < i - from ==> out@[k] as int == hex_val(sub[k]),
        decreases to - i,
    {
        proof {
            assert(sub[i - from] == parts.deep_view()[i as int]);
            assert(parts.deep_view()[i as int] == parts@[i as int]@);
        }
        match parse_hex_group(parts[i].as_str()) {
            Some(g) => {
                out.push(g);
            },
            None => {
                proof {
                    assert(!is_hex_group(sub[i - from]));
                }
                return None;
            },
        }
        i += 1;
    }
    proof {
        assert(out@ =~= group_vals(sub));
    }
    Some(out)
}

/// `a`, then `zeros` zero groups, then `b`.
fn concat3(a: &Vec<u16>, zeros: usize, b: &Vec<u16>) -> (r: Vec<u16>)
    requires
        a@.len() + zeros + b@.len() <= 8,
    ensures
        r@ == a@ + zero_groups(zeros as nat) + b@,
{
    let mut r: Vec<u16> = Vec::new();
    let mut i: usize = 0;
    while i < a.len()
        invariant
            0 <= i <= a@.len(),
            r@ =~= a@.take(i as int),
        decreases a@.len() - i,
    {
        r.push(a[i]);
        proof {
            assert(r@ =~= a@.take(i + 1));
        }
        i += 1;
    }
    proof {
        assert(r@ =~= a@);
    }
    let mut z: usize = 0;
    while z < zeros
        invariant
            0 <= z <= zeros,
            r@ =~= a@ + zero_groups(z as nat),
        decreases zeros - z,
    {
        r.push(0);
        proof {
            assert(r@ =~= a@ + zero_groups((z + 1) as nat));
        }
        z += 1;
    }
    let mut j: usize = 0;
    while j < b.len()
        invariant
            0 <= j <= b@.len(),
            r@ =~= a@ + zero_groups(zeros as nat) + b@.take(j as int),
        decreases b@.len() - j,
    {
        r.push(b[j]);
        proof {
            assert(r@ =~= a@ + zero_groups(zeros as nat) + b@.take(j + 1));
        }
        j += 1;
    }
    proof {
        assert(r@ =~= a@ + zero_groups(zeros as nat) + b@);
    }
    r
}

fn assemble8(gs: &Vec<u16>) -> (r: MyIp)
    requires
        gs@.len() == 8,
    ensures
        r == MyIp::V6(gs@[0], gs@[1], gs@[2], gs@[3], gs@[4], gs@[5], gs@[6], gs@[7]),
{
    MyIp::V6(gs[0], gs[1], gs[2], gs[3], gs[4], gs[5], gs[6], gs[7])
}

fn parse_v6_exec(t: &str) -> (r: Option<MyIp>)
    ensures
        r == parse_v6(t@),
{
    let mut parts = split_char(t, ':');
    let ghost ps0 = parts.deep_view();
    // a trailing embedded dotted quad stands for the last two groups
    let last_idx = parts.len() - 1;
    proof {
        assert(ps0.last() == parts@[last_idx as int]@);
    }
    match parse_v4_exec(parts[last_idx].as_str()) {
        Some(MyIp::V4(a, b, c, d)) => {
            let ghost bview = parts.deep_view();
            let ghost bvec = parts@;
            let _dropped = parts.pop();
            proof {
                assert(parts@ =~= bvec.drop_last());
                assert forall|k: int|
                    0 <= k < parts@.len() implies parts.deep_view()[k] == bview.drop_last()[k] by {
                    assert(parts@[k] == bvec[k]);
                }
                assert(parts.deep_view() =~~= bview.drop_last());
            }
            let hi: u16 = (a as u16) * 256 + (b as u16);
            let lo: u16 = (c as u16) * 256 + (d as u16);
            let h1 = hex_str(hi);
            let ghost h1v = h1@;
            let ghost m1view = parts.deep_view();
            let ghost m1vec = parts@;
            parts.push(h1);
            proof {
                assert(parts@ == m1vec.push(h1));
                assert(parts.deep_view()[m1vec.len() as int] == h1v);
                assert forall|k: int|
                    0 <= k < m1vec.len() implies parts.deep_view()[k] == m1view[k] by {
                    assert(parts@[k] == m1vec.push(h1)[k]);
                    assert(m1vec.push(h1)[k] == m1vec[k]);
                }
                assert(parts.deep_view() =~~= m1view.push(h1v));
            }
            let h2 = hex_str(lo);
            let ghost h2v = h2@;
            let ghost m2view = parts.deep_view();
            let ghost m2vec = parts@;
            parts.push(h2);
            proof {
                assert(parts@ == m2vec.push(h2));
                assert(parts.deep_view()[m2vec.len() as int] == h2v);
                assert forall|k: int|
                    0 <= k < m2vec.len() implies parts.deep_view()[k] == m2view[k] by {
                    assert(parts@[k] == m2vec.push(h2)[k]);
                    assert(m2vec.push(h2)[k] == m2vec[k]);
                }
                assert(parts.deep_view() =~~= m2view.push(h2v));
                assert((a as nat) * 256 + (b as nat) == hi as nat);
                assert((c as nat) * 256 + (d as nat) == lo as nat);
                assert(parts.deep_view() =~~= v6_pieces(t@));
            }
        },
        _ => {
            proof {
                assert(parts.deep_view() == v6_pieces(t@));
            }
        },
    }
    let ghost ps = parts.deep_view();
    let n = parts.len();
    proof {
        assert(ps == v6_pieces(t@));
        assert(ps.len() == n);
    }
    if n == 8 {
        if let Some(gs) = hex_groups_range(&parts, 0, 8) {
            proof {
                assert(ps.subrange(0, 8) =~= ps);
            }
            return Some(assemble8(&gs));
        }
    }
    if n == 3 && parts[0].as_str().is_empty() && parts[1].as_str().is_empty()
        && parts[2].as_str().is_empty() {
        proof {
            assert(ps[0] == parts@[0]@ && ps[1] == parts@[1]@ && ps[2] == parts@[2]@);
            assert(zero_groups(8) =~= seq![0u16, 0u16, 0u16, 0u16, 0u16, 0u16, 0u16, 0u16]);
        }
        return Some(MyIp::V6(0, 0, 0, 0, 0, 0, 0, 0));
    }
    if n >= 3 && n <= 9 && parts[0].as_str().is_empty() && parts[1].as_str().is_empty() {
        proof {
            assert(ps[0] == parts@[0]@ && ps[1] == parts@[1]@);
            assert(ps.subrange(2, n as int) =~= ps.skip(2));
        }
        if let Some(gs) = hex_groups_range(&parts, 2, n) {
            let empty: Vec<u16> = Vec::new();
            let r = concat3(&empty, 8 - (n - 2), &gs);
            proof {
                assert(r@ =~= zero_groups((10 - ps.len()) as nat) + group_vals(ps.skip(2)));
            }
            return Some(assemble8(&r));
        }
    }
    if n >= 3 && n <= 9 && parts[n - 1].as_str().is_empty() && parts[n - 2].as_str().is_empty() {
        proof {
            assert(ps[n - 1] == parts@[n - 1]@ && ps[n - 2] == parts@[n - 2]@);
            assert(ps.subrange(0, n - 2) =~= ps.take(n - 2));
        }
        if let Some(gs) = hex_groups_range(&parts, 0, n - 2) {
            let empty: Vec<u16> = Vec::new();
            let r = concat3(&gs, 8 - (n - 2), &empty);
            proof {
                assert(r@ =~= group_vals(ps.take(n - 2)) + zero_groups((10 - ps.len()) as nat));
            }
            return Some(assemble8(&r));
        }
    }
    let mut e: usize = 0;
    while e < n && !parts[e].as_str().is_empty()
        invariant
            0 <= e <= n,
            n == parts@.len(),
            ps == parts.deep_view(),
            forall|k: int| 0 <= k < e ==> ps[k].len() != 0,
        decreases n - e,
    {
        proof {
            assert(ps[e as int] == parts@[e as int]@);
        }
        e += 1;
    }
    proof {
        assert(e < n ==> ps[e as int] == parts@[e as int]@);
        lemma_find_first_empty_is(ps, e as int);
    }
    if n <= 8 && 1 <= e && e + 2 <= n {
        proof {
            assert(ps.subrange(0, e as int) =~= ps.take(e as int));
            assert(ps.subrange(e + 1, n as int) =~= ps.skip(e + 1));
        }
        if let Some(g1) = hex_groups_range(&parts, 0, e) {
            if let Some(g2) = hex_groups_range(&parts, e + 1, n) {
                let r = concat3(&g1, 8 - (n - 1), &g2);
                proof {
                    assert(r@ =~= group_vals(ps.take(e as int)) + zero_groups(
                        (9 - ps.len()) as nat,
                    ) + group_vals(ps.skip(e + 1)));
                }
                return Some(assemble8(&r));
            }
        }
    }
    None
}

// ---------------------------------------------------------------------------
// The public parser
// ---------------------------------------------------------------------------

/// Parses text as an IP address: surrounding whitespace is ignored, an IPv4
/// reading is preferred, and on failure the error names the offending text.
pub fn ip_from_str(ip_s: &str) -> (r: Result<MyIp, String>)
    ensures
        (spec_parse_ip(ip_s@) matches Some(ip) ==> r == Ok::<MyIp, String>(ip)),
        spec_parse_ip(ip_s@) is None ==> (r matches Err(m) && m@ == "Invalid IP address "@
            + ip_s@),
{
    let t = trim_rec(ip_s);
    if let Some(ip) = parse_v4_exec(t.as_str()) {
        return Ok(ip);
    }
    if let Some(ip) = parse_v6_exec(t.as_str()) {
        return Ok(ip);
    }
    Err(String::from_str("Invalid IP address ").concat(ip_s))
}

// ---------------------------------------------------------------------------
// Exec rendering
// ---------------------------------------------------------------------------

fn digit_str(d: u8) -> (r: &'static str)
    requires
        d < 16,
    ensures
        r@ == seq![digit_char(d as int)],
{
    let s = match d {
        0 => "0",
        1 => "1",
        2 => "2",
        3 => "3",
        4 => "4",
        5 => "5",
        6 => "6",
        7 => "7",
        8 => "8",
        9 => "9",
        10 => "a",
        11 => "b",
        12 => "c",
        13 => "d",
        14 => "e",
        _ => "f",
    };
    proof {
        reveal_strlit("0");
        reveal_strlit("1");
        reveal_strlit("2");
        reveal_strlit("3");
        reveal_strlit("4");
        reveal_strlit("5");
        reveal_strlit("6");
        reveal_strlit("7");
        reveal_strlit("8");
        reveal_strlit("9");
        reveal_strlit("a");
        reveal_strlit("b");
        reveal_strlit("c");
        reveal_strlit("d");
        reveal_strlit("e");
        reveal_strlit("f");
        assert(s@ =~= seq![digit_char(d as int)]);
    }
    s
}

pub(crate) fn dec_str(v: u16) -> (r: String)
    ensures
        r@ == dec_chars(v as nat),
    decreases v,
{
    if v < 10 {
        String::from_str(digit_str(v as u8))
    } else {
        let mut s = dec_str(v / 10);
        s.append(digit_str((v % 10) as u8));
        proof {
            assert((v as nat) / 10 == (v / 10) as nat);
            assert((v as nat) % 10 == (v % 10) as nat);
            assert(s@ =~= dec_chars((v as nat) / 10).push(digit_char(((v as nat) % 10) as int)));
        }
        s
    }
}

fn hex_str(v: u16) -> (r: String)
    ensures
        r@ == hex_chars(v as nat),
    decreases v,
{
    if v < 16 {
        String::from_str(digit_str(v as u8))
    } else {
        let mut s = hex_str(v / 16);
        s.append(digit_str((v % 16) as u8));
        proof {
            assert((v as nat) / 16 == (v / 16) as nat);
            assert((v as nat) % 16 == (v % 16) as nat);
            assert(s@ =~= hex_chars((v as nat) / 16).push(digit_char(((v as nat) % 16) as int)));
        }
        s
    }
}

/// Joining one more piece appends one separator and the piece.
proof fn lemma_join_snoc(parts: Seq<Seq<char>>, p: Seq<char>, sep: char)
    requires
        parts.len() >= 1,
    ensures
        join_with(parts.push(p), sep) == join_with(parts, sep) + seq![sep] + p,
    decreases parts.len(),
{
    if parts.len() == 1 {
        reveal_with_fuel(join_with, 3);
        assert(parts.push(p).drop_first() =~= seq![p]);
        assert(join_with(parts.push(p), sep) == parts[0] + seq![sep] + p);
    } else {
        assert(parts.push(p).drop_first() =~= parts.drop_first().push(p));
        lemma_join_snoc(parts.drop_first(), p, sep);
        assert(join_with(parts.push(p), sep) == parts[0] + seq![sep] + join_with(
            parts.drop_first().push(p),
            sep,
        ));
        assert(parts[0] + seq![sep] + (join_with(parts.drop_first(), sep) + seq![sep] + p) =~= (
        parts[0] + seq![sep] + join_with(parts.drop_first(), sep)) + seq![sep] + p);
    }
}

fn render_v4(a: u8, b: u8, c: u8, d: u8) -> (r: String)
    ensures
        r@ == spec_render(MyIp::V4(a, b, c, d)),
{
    let ghost pa = dec_chars(a as nat);
    let ghost pb = dec_chars(b as nat);
    let ghost pc = dec_chars(c as nat);
    let ghost pd = dec_chars(d as nat);
    let mut s = dec_str(a as u16);
    proof {
        reveal_strlit(".");
        assert("."@ =~= seq!['.']);
        assert(s@ == join_with(seq![pa], '.'));
    }
    s.append(".");
    s.append(dec_str(b as u16).as_str());
    proof {
        lemma_join_snoc(seq![pa], pb, '.');
        assert(seq![pa].push(pb) =~= seq![pa, pb]);
    }
    s.append(".");
    s.append(dec_str(c as u16).as_str());
    proof {
        lemma_join_snoc(seq![pa, pb], pc, '.');
        assert(seq![pa, pb].push(pc) =~= seq![pa, pb, pc]);
    }
    s.append(".");
    s.append(dec_str(d as u16).as_str());
    proof {
        lemma_join_snoc(seq![pa, pb, pc], pd, '.');
        assert(seq![pa, pb, pc].push(pd) =~= seq![pa, pb, pc, pd]);
        assert(s@ == join_with(seq![pa, pb, pc, pd], '.'));
    }
    s
}

/// Proves that a counted run of zeros, maximal on its right end, is what
/// `zero_run_len` denotes.
proof fn lemma_zero_run_is(g: Seq<u16>, i: int, c: int)
    requires
        0 <= i,
        0 <= c,
        i + c <= g.len(),
        forall|k: int| 0 <= k < c ==> #[trigger] g[i + k] == 0,
        i + c == g.len() || g[i + c] != 0,
    ensures
        zero_run_len(g, i) == c,
    decreases c,
{
    if c > 0 {
        assert(g[i + 0] == 0);
        assert forall|k: int| 0 <= k < c - 1 implies #[trigger] g[(i + 1) + k] == 0 by {
            assert(g[i + (k + 1)] == 0);
        }
        lemma_zero_run_is(g, i + 1, c - 1);
    }
}

/// Renders `g[from..to]` as lowercase hex groups joined by single colons.
fn join_hex_range(g: &[u16; 8], from: usize, to: usize) -> (r: String)
    requires
        from <= to <= 8,
    ensures
        r@ == join_with(hex_parts(g@.subrange(from as int, to as int)), ':'),
{
    let ghost ps = hex_parts(g@.subrange(from as int, to as int));
    if from == to {
        proof {
            assert(ps.len() == 0);
        }
        return String::new();
    }
    let mut s = hex_str(g[from]);
    proof {
        reveal_strlit(":");
        assert(":"@ =~= seq![':']);
        assert(ps.take(1) =~= seq![ps[0]]);
        assert(ps[0] == hex_chars(g@[from as int] as nat));
        assert(s@ == join_with(ps.take(1), ':'));
    }
    let mut i: usize = from + 1;
    while i < to
        invariant
            from + 1 <= i <= to <= 8,
            ps == hex_parts(g@.subrange(from as int, to as int)),
            ":"@ == seq![':'],
            s@ == join_with(ps.take(i - from), ':'),
        decreases to - i,
    {
        s.append(":");
        s.append(hex_str(g[i]).as_str());
        proof {
            lemma_join_snoc(ps.take(i - from), ps[i - from], ':');
            assert(ps.take(i - from).push(ps[i - from]) =~= ps.take(i - from + 1));
            assert(ps[i - from] == hex_chars(g@[i as int] as nat));
        }
        i += 1;
    }
    proof {
        assert(ps.take(to - from) =~= ps);
    }
    s
}

/// The dotted-quad text of the two 16-bit groups `hi`, `lo`.
fn render_v4_tail(hi: u16, lo: u16) -> (r: String)
    ensures
        r@ == v4_tail_chars(hi, lo),
{
    render_v4((hi / 256) as u8, (hi % 256) as u8, (lo / 256) as u8, (lo % 256) as u8)
}

fn render_v6(g: [u16; 8]) -> (r: String)
    ensures
        r@ == spec_render(MyIp::V6(g[0], g[1], g[2], g[3], g[4], g[5], g[6], g[7])),
{
    let ghost gs = g@;
    proof {
        assert(gs =~= seq![g[0], g[1], g[2], g[3], g[4], g[5], g[6], g[7]]);
    }
    if g[0] == 0 && g[1] == 0 && g[2] == 0 && g[3] == 0 && g[4] == 0 {
        if g[5] == 0 && !(g[6] == 0 && g[7] <= 1) {
            // IPv4-compatible: "::" and the embedded dotted quad
            let mut s = String::from_str("::");
            s.append(render_v4_tail(g[6], g[7]).as_str());
            proof {
                reveal_strlit("::");
                assert("::"@ =~= seq![':', ':']);
                assert(is_v4_compatible(gs));
                assert(s@ == render_v6_text(gs));
            }
            return s;
        }
        if g[5] == 0xffff {
            // IPv4-mapped: "::ffff:" and the embedded dotted quad
            let mut s = String::from_str("::ffff:");
            s.append(render_v4_tail(g[6], g[7]).as_str());
            proof {
                reveal_strlit("::ffff:");
                reveal_with_fuel(hex_chars, 5);
                assert(hex_chars(0xffff) =~= seq!['f', 'f', 'f', 'f']);
                assert("::ffff:"@ =~= seq![':', ':'] + hex_chars(0xffff) + seq![':']);
                assert(is_v4_mapped(gs));
                assert(s@ == render_v6_text(gs));
            }
            return s;
        }
    }
    // find the leftmost longest run of at least two zero groups
    let mut bi: usize = 8;  // 8 stands for: no such run
    let mut bl: usize = 1;
    let mut i: usize = 0;
    while i < 8
        invariant
            0 <= i <= 8,
            gs == g@,
            gs.len() == 8,
            bi <= 8,
            bi == 8 ==> bl == 1,
            bi < 8 ==> bl == zero_run_len(gs, bi as int) && bi + bl <= 8 && bl >= 2,
            scan_best(
                gs,
                i as int,
                if bi == 8 {
                    -1int
                } else {
                    bi as int
                },
                bl as int,
            ) == best_zero_run(gs),
        decreases 8 - i,
    {
        let mut c: usize = 0;
        while i + c < 8 && g[i + c] == 0
            invariant
                i < 8,
                0 <= c,
                i + c <= 8,
                gs == g@,
                forall|k: int| 0 <= k < c ==> #[trigger] gs[i + k] == 0,
            decreases 8 - i - c,
        {
            c += 1;
        }
        let ghost obi: int = if bi == 8 {
            -1int
        } else {
            bi as int
        };
        let ghost obl: int = bl as int;
        proof {
            lemma_zero_run_is(gs, i as int, c as int);
        }
        if c > bl {
            bi = i;
            bl = c;
        }
        proof {
            assert(scan_best(gs, i as int, obi, obl) == scan_best(
                gs,
                i + 1,
                if bi == 8 {
                    -1int
                } else {
                    bi as int
                },
                bl as int,
            ));
        }
        i += 1;
    }
    proof {
        assert(best_zero_run(gs) == (
            if bi == 8 {
                -1int
            } else {
                bi as int
            },
            bl as int,
        ));
    }
    if bi == 8 {
        let r = join_hex_range(&g, 0, 8);
        proof {
            assert(gs.subrange(0, 8) =~= gs);
            assert(!is_v4_compatible(gs) && !is_v4_mapped(gs));
        }
        r
    } else {
        let mut s = join_hex_range(&g, 0, bi);
        s.append(":");
        s.append(":");
        let rest = join_hex_range(&g, bi + bl, 8);
        s.append(rest.as_str());
        proof {
            reveal_strlit(":");
            assert(":"@ =~= seq![':']);
            assert(gs.take(bi as int) =~= gs.subrange(0, bi as int));
            assert(gs.skip(bi + bl) =~= gs.subrange((bi + bl) as int, 8));
            assert(!is_v4_compatible(gs) && !is_v4_mapped(gs));
            assert(s@ =~= render_groups(gs));
        }
        s
    }
}

impl MyIp {
    /// The canonical text of this address: dotted-quad decimal for IPv4;
    /// for IPv6 lowercase colon-hex with the leftmost longest run of two or
    /// more zero groups compressed to `::`.
    pub fn render(&self) -> (r: String)
        ensures
            r@ == spec_render(*self),
    {
        match self {
            MyIp::V4(a, b, c, d) => render_v4(*a, *b, *c, *d),
            MyIp::V6(g0, g1, g2, g3, g4, g5, g6, g7) => render_v6(
                [*g0, *g1, *g2, *g3, *g4, *g5, *g6, *g7],
            ),
        }
    }
}

// ---------------------------------------------------------------------------
// Round trip: parsing a rendered address gives the address back
// ---------------------------------------------------------------------------

proof fn lemma_dec_chars_props(v: nat)
    ensures
        dec_chars(v).len() >= 1,
        all_digits(dec_chars(v)),
        dec_val(dec_chars(v)) == v,
        v > 0 ==> dec_chars(v)[0] != '0',
        v < 10 ==> dec_chars(v).len() == 1,
        v < 100 ==> dec_chars(v).len() <= 2,
        v < 1000 ==> dec_chars(v).len() <= 3,
    decreases v,
{
    if v < 10 {
        let s = dec_chars(v);
        assert(s =~= seq![digit_char(v as int)]);
        assert(is_digit(digit_char(v as int)));
        assert(s.drop_last() =~= Seq::empty());
        assert(dec_val(Seq::<char>::empty()) == 0);
        assert(dec_val(s) == digit_val(digit_char(v as int)));
        assert(digit_val(digit_char(v as int)) == v);
    } else {
        lemma_dec_chars_props(v / 10);
        let h = dec_chars(v / 10);
        let s = dec_chars(v);
        assert(s == h.push(digit_char((v % 10) as int)));
        assert(s.drop_last() =~= h);
        assert(s.last() == digit_char((v % 10) as int));
        assert(is_digit(s.last()));
        assert(digit_val(s.last()) == v % 10);
        assert(dec_val(s) == dec_val(h) * 10 + (v % 10));
        assert((v / 10) * 10 + (v % 10) == v);
        assert forall|k: int| 0 <= k < s.len() implies is_digit(s[k]) by {
            if k < s.len() - 1 {
                assert(s[k] == h[k]);
            }
        }
    }
}

proof fn lemma_hex_chars_props(v: nat)
    ensures
        hex_chars(v).len() >= 1,
        all_hex_digits(hex_chars(v)),
        hex_val(hex_chars(v)) == v,
        v < 16 ==> hex_chars(v).len() == 1,
        v < 256 ==> hex_chars(v).len() <= 2,
        v < 4096 ==> hex_chars(v).len() <= 3,
        v < 65536 ==> hex_chars(v).len() <= 4,
    decreases v,
{
    if v < 16 {
        let s = hex_chars(v);
        assert(s =~= seq![digit_char(v as int)]);
        assert(is_hex_digit(digit_char(v as int)));
        assert(s.drop_last() =~= Seq::empty());
        assert(hex_val(Seq::<char>::empty()) == 0);
        assert(hex_val(s) == hex_digit_val(digit_char(v as int)));
        assert(hex_digit_val(digit_char(v as int)) == v);
    } else {
        lemma_hex_chars_props(v / 16);
        let h = hex_chars(v / 16);
        let s = hex_chars(v);
        assert(s == h.push(digit_char((v % 16) as int)));
        assert(s.drop_last() =~= h);
        assert(s.last() == digit_char((v % 16) as int));
        assert(is_hex_digit(s.last()));
        assert(hex_digit_val(s.last()) == v % 16);
        assert(hex_val(s) == hex_val(h) * 16 + (v % 16));
        assert((v / 16) * 16 + (v % 16) == v);
        assert forall|k: int| 0 <= k < s.len() implies is_hex_digit(s[k]) by {
            if k < s.len() - 1 {
                assert(s[k] == h[k]);
            }
        }
    }
}

/// Splitting a joined text on its separator recovers the pieces, provided
/// no piece holds the separator.
proof fn lemma_split_join(parts: Seq<Seq<char>>, sep: char)
    requires
        parts.len() >= 1,
        forall|i: int, j: int|
            0 <= i < parts.len() && 0 <= j < parts[i].len() ==> parts[i][j] != sep,
    ensures
        split_on(join_with(parts, sep), sep) == parts,
    decreases parts.len(),
{
    let s = join_with(parts, sep);
    if parts.len() == 1 {
        assert(s == parts[0]);
        assert(forall|k: int| 0 <= k < s.len() ==> s[k] != sep);
        lemma_split_no_sep(s, sep);
        assert(seq![s] =~= parts);
    } else {
        let p0 = parts[0];
        let rest = join_with(parts.drop_first(), sep);
        assert(s == p0 + seq![sep] + rest);
        assert forall|k: int| 0 <= k < p0.len() implies s[k] != sep by {
            assert(s[k] == p0[k]);
        }
        assert(s[p0.len() as int] == sep);
        lemma_find_first_is(s, sep, p0.len() as int);
        assert(s.take(p0.len() as int) =~= p0);
        assert(s.skip(p0.len() as int + 1) =~= rest);
        assert(forall|i: int, j: int|
            0 <= i < parts.drop_first().len() && 0 <= j < parts.drop_first()[i].len()
                ==> parts.drop_first()[i][j] == parts[i + 1][j]);
        lemma_split_join(parts.drop_first(), sep);
        assert(split_on(s, sep) == seq![p0] + parts.drop_first());
        assert(seq![p0] + parts.drop_first() =~= parts);
    }
}

/// Every character of a joined text is the separator or satisfies any
/// property that every character of every piece satisfies.
proof fn lemma_join_char_class(parts: Seq<Seq<char>>, sep: char, p: spec_fn(char) -> bool)
    requires
        forall|i: int, j: int| 0 <= i < parts.len() && 0 <= j < parts[i].len() ==> p(parts[i][j]),
    ensures
        forall|k: int|
            0 <= k < join_with(parts, sep).len() ==> (p(join_with(parts, sep)[k]) || join_with(
                parts,
                sep,
            )[k] == sep),
    decreases parts.len(),
{
    let s = join_with(parts, sep);
    if parts.len() <= 1 {
    } else {
        let p0 = parts[0];
        let rest = join_with(parts.drop_first(), sep);
        assert(s == p0 + seq![sep] + rest);
        assert(forall|i: int, j: int|
            0 <= i < parts.drop_first().len() && 0 <= j < parts.drop_first()[i].len()
                ==> parts.drop_first()[i][j] == parts[i + 1][j]);
        lemma_join_char_class(parts.drop_first(), sep, p);
        assert forall|k: int| 0 <= k < s.len() implies (p(s[k]) || s[k] == sep) by {
            if k < p0.len() {
                assert(s[k] == p0[k]);
            } else if k == p0.len() {
                assert(s[k] == sep);
            } else {
                assert(s[k] == rest[k - p0.len() - 1]);
            }
        }
    }
}

/// A joined text of non-empty pieces starts with the first piece's first
/// character and ends with the last piece's last character.
proof fn lemma_join_ends(parts: Seq<Seq<char>>, sep: char)
    requires
        parts.len() >= 1,
        forall|i: int| 0 <= i < parts.len() ==> parts[i].len() >= 1,
    ensures
        join_with(parts, sep).len() >= 1,
        join_with(parts, sep)[0] == parts[0][0],
        join_with(parts, sep).last() == parts.last().last(),
    decreases parts.len(),
{
    let s = join_with(parts, sep);
    if parts.len() == 1 {
    } else {
        let p0 = parts[0];
        let rest = join_with(parts.drop_first(), sep);
        assert(forall|i: int|
            0 <= i < parts.drop_first().len() ==> parts.drop_first()[i] == parts[i + 1]);
        lemma_join_ends(parts.drop_first(), sep);
        assert(s == p0 + seq![sep] + rest);
        assert(s[0] == p0[0]);
        assert(s.last() == rest.last());
        assert(parts.drop_first().last() == parts.last());
    }
}

/// Trimming removes exactly the surrounding whitespace around a text that
/// neither starts nor ends with whitespace.
proof fn lemma_trim_around(pre: Seq<char>, m: Seq<char>, post: Seq<char>)
    requires
        m.len() >= 1,
        !is_ws(m[0]),
        !is_ws(m.last()),
        forall|k: int| 0 <= k < pre.len() ==> is_ws(pre[k]),
        forall|k: int| 0 <= k < post.len() ==> is_ws(post[k]),
    ensures
        trim_spec(pre + m + post) == m,
    decreases pre.len() + post.len(),
{
    let s = pre + m + post;
    if pre.len() > 0 {
        assert(s[0] == pre[0]);
        assert(is_ws(s[0]));
        assert(s.drop_first() =~= pre.drop_first() + m + post);
        assert(forall|k: int|
            0 <= k < pre.drop_first().len() ==> pre.drop_first()[k] == pre[k + 1]);
        lemma_trim_around(pre.drop_first(), m, post);
    } else if post.len() > 0 {
        assert(s[0] == m[0]);
        assert(!is_ws(s[0]));
        assert(s.last() == post.last());
        assert(is_ws(s.last()));
        assert(s.drop_last() =~= pre + m + post.drop_last());
        assert(forall|k: int|
            0 <= k < post.drop_last().len() ==> post.drop_last()[k] == post[k]);
        lemma_trim_around(pre, m, post.drop_last());
    } else {
        assert(s =~= m);
    }
}

/// A zero run is non-negative, stays inside the groups, and covers only
/// zero groups.
proof fn lemma_zero_run(g: Seq<u16>, i: int)
    requires
        0 <= i <= g.len(),
    ensures
        0 <= zero_run_len(g, i),
        i + zero_run_len(g, i) <= g.len(),
        forall|k: int| 0 <= k < zero_run_len(g, i) ==> #[trigger] g[i + k] == 0,
    decreases g.len() - i,
{
    if i < g.len() && g[i] == 0 {
        lemma_zero_run(g, i + 1);
        assert forall|k: int| 0 <= k < zero_run_len(g, i) implies #[trigger] g[i + k] == 0 by {
            if k > 0 {
                assert(g[(i + 1) + (k - 1)] == 0);
            }
        }
    }
}

proof fn lemma_scan_best(g: Seq<u16>, i: int, bi: int, bl: int)
    requires
        0 <= i <= g.len(),
        bl >= 1,
        bi < 0 ==> bl == 1,
        bi >= 0 ==> bl == zero_run_len(g, bi) && bl >= 2 && bi + bl <= g.len(),
    ensures
        ({
            let r = scan_best(g, i, bi, bl);
            &&& (r.0 < 0 ==> r.1 == 1)
            &&& (r.0 >= 0 ==> 0 <= r.0 && r.1 == zero_run_len(g, r.0) && r.1 >= 2 && r.0 + r.1
                <= g.len())
        }),
    decreases g.len() - i,
{
    if i < g.len() {
        if zero_run_len(g, i) > bl {
            lemma_zero_run(g, i);
            lemma_scan_best(g, i + 1, i, zero_run_len(g, i));
        } else {
            lemma_scan_best(g, i + 1, bi, bl);
        }
    }
}

/// What `best_zero_run` hands back: when a run was found it lies inside
/// the groups, has length at least two, and covers only zero groups.
proof fn lemma_best_zero_run(g: Seq<u16>)
    ensures
        ({
            let bi = best_zero_run(g).0;
            let bl = best_zero_run(g).1;
            &&& (bi < 0 ==> bl == 1)
            &&& (bi >= 0 ==> bl >= 2 && bi + bl <= g.len() && forall|k: int|
                0 <= k < bl ==> #[trigger] g[bi + k] == 0)
        }),
{
    lemma_scan_best(g, 0, -1, 1);
    let bi = best_zero_run(g).0;
    if bi >= 0 {
        lemma_zero_run(g, bi);
    }
}

/// Splitting a text assembled from two sides around one separator splits
/// each side on its own.
proof fn lemma_split_concat(s1: Seq<char>, s2: Seq<char>, sep: char)
    ensures
        split_on(s1 + seq![sep] + s2, sep) == split_on(s1, sep) + split_on(s2, sep),
    decreases s1.len(),
{
    let s = s1 + seq![sep] + s2;
    let i = find_first(s1, sep);
    lemma_find_first_props(s1, sep);
    if i == s1.len() {
        assert forall|k: int| 0 <= k < s1.len() implies s[k] != sep by {
            assert(s[k] == s1[k]);
        }
        assert(s[s1.len() as int] == sep);
        lemma_find_first_is(s, sep, s1.len() as int);
        assert(s.take(s1.len() as int) =~= s1);
        assert(s.skip(s1.len() as int + 1) =~= s2);
        lemma_split_no_sep(s1, sep);
        assert(split_on(s, sep) =~= split_on(s1, sep) + split_on(s2, sep));
    } else {
        assert forall|k: int| 0 <= k < i implies s[k] != sep by {
            assert(s[k] == s1[k]);
        }
        assert(s[i] == s1[i]);
        lemma_find_first_is(s, sep, i);
        assert(s.take(i) =~= s1.take(i));
        assert(s.skip(i + 1) =~= s1.skip(i + 1) + seq![sep] + s2);
        lemma_split_concat(s1.skip(i + 1), s2, sep);
        assert(split_on(s, sep) =~= split_on(s1, sep) + split_on(s2, sep));
    }
}

/// Each rendered group is a valid hex group, and reading the rendered
/// groups back gives the group values.
proof fn lemma_group_vals_hex_parts(x: Seq<u16>)
    ensures
        all_groups(hex_parts(x)),
        group_vals(hex_parts(x)) == x,
        forall|i: int, j: int|
            0 <= i < x.len() && 0 <= j < hex_parts(x)[i].len() ==> is_hex_digit(
                hex_parts(x)[i][j],
            ),
{
    let parts = hex_parts(x);
    assert forall|i: int| 0 <= i < parts.len() implies is_hex_group(parts[i]) by {
        lemma_hex_chars_props(x[i] as nat);
    }
    assert forall|i: int, j: int|
        0 <= i < x.len() && 0 <= j < parts[i].len() implies is_hex_digit(parts[i][j]) by {
        assert(is_hex_group(parts[i]));
    }
    assert forall|i: int| 0 <= i < x.len() implies group_vals(parts)[i] == x[i] by {
        lemma_hex_chars_props(x[i] as nat);
    }
    assert(group_vals(parts) =~= x);
}

/// Text without any dot is not dotted-quad IPv4 text.
proof fn lemma_parse_v4_none_no_dot(s: Seq<char>)
    requires
        forall|k: int| 0 <= k < s.len() ==> s[k] != '.',
    ensures
        parse_v4(s) is None,
{
    lemma_split_no_sep(s, '.');
    assert(split_on(s, '.').len() == 1);
}

/// Text starting with a colon is not dotted-quad IPv4 text.
proof fn lemma_parse_v4_none_colon(s: Seq<char>)
    requires
        s.len() >= 1,
        s[0] == ':',
    ensures
        parse_v4(s) is None,
{
    let i = find_first(s, '.');
    lemma_find_first_props(s, '.');
    let parts = split_on(s, '.');
    if 0 <= i < s.len() {
        assert(i >= 1);
        assert(parts[0] == s.take(i));
        assert(parts[0][0] == s[0]);
    } else {
        assert(parts == seq![s]);
        assert(parts[0][0] == s[0]);
    }
    assert(!is_digit(parts[0][0]));
    assert(!is_octet(parts[0]));
}

/// The dotted-quad text of four octets parses back to exactly them, holds
/// only digits and dots, and neither starts nor ends with whitespace.
proof fn lemma_quad_parses(a: u8, b: u8, c: u8, d: u8)
    ensures
        quad_chars(a, b, c, d).len() >= 1,
        !is_ws(quad_chars(a, b, c, d)[0]),
        !is_ws(quad_chars(a, b, c, d).last()),
        forall|k: int|
            0 <= k < quad_chars(a, b, c, d).len() ==> (is_digit(quad_chars(a, b, c, d)[k])
                || quad_chars(a, b, c, d)[k] == '.'),
        forall|k: int| 0 <= k < quad_chars(a, b, c, d).len() ==> quad_chars(a, b, c, d)[k] != ':',
        parse_v4(quad_chars(a, b, c, d)) == Some(MyIp::V4(a, b, c, d)),
{
    let m = quad_chars(a, b, c, d);
    let parts = seq![
        dec_chars(a as nat),
        dec_chars(b as nat),
        dec_chars(c as nat),
        dec_chars(d as nat),
    ];
    lemma_dec_chars_props(a as nat);
    lemma_dec_chars_props(b as nat);
    lemma_dec_chars_props(c as nat);
    lemma_dec_chars_props(d as nat);
    assert forall|i: int, j: int|
        0 <= i < parts.len() && 0 <= j < parts[i].len() implies parts[i][j] != '.' by {
        assert(is_digit(parts[i][j]));
    }
    assert(forall|i: int| 0 <= i < parts.len() ==> parts[i].len() >= 1);
    lemma_join_ends(parts, '.');
    assert(is_digit(m[0]) && is_digit(m.last()));
    lemma_join_char_class(parts, '.', |ch: char| is_digit(ch));
    assert forall|k: int|
        0 <= k < m.len() implies (is_digit(m[k]) || m[k] == '.') && m[k] != ':' by {
        assert(is_digit(m[k]) || m[k] == '.');
    }
    lemma_split_join(parts, '.');
    assert(is_octet(parts[0]) && is_octet(parts[1]) && is_octet(parts[2]) && is_octet(parts[3]));
    assert(parse_v4(m) == Some(MyIp::V4(a, b, c, d)));
}

/// The canonical colon-hex text of eight groups holds only hex digits and
/// colons, never starts or ends with whitespace, and splits back into
/// pieces that denote exactly the eight groups.
#[verifier::rlimit(100)]
proof fn lemma_render_groups_parses(g: Seq<u16>)
    requires
        g.len() == 8,
    ensures
        render_groups(g).len() >= 1,
        !is_ws(render_groups(g)[0]),
        !is_ws(render_groups(g).last()),
        forall|k: int| 0 <= k < render_groups(g).len() ==> render_groups(g)[k] != '.',
        parse_v6_groups(split_on(render_groups(g), ':')) == Some(g),
        ({
            let lastp = split_on(render_groups(g), ':').last();
            forall|k: int| 0 <= k < lastp.len() ==> lastp[k] != '.'
        }),
{
    let m = render_groups(g);
    lemma_best_zero_run(g);
    let bi = best_zero_run(g).0;
    let bl = best_zero_run(g).1;
    if bi < 0 {
        let parts = hex_parts(g);
        lemma_group_vals_hex_parts(g);
        assert forall|i: int, j: int|
            0 <= i < parts.len() && 0 <= j < parts[i].len() implies parts[i][j] != ':' by {
            assert(is_hex_digit(parts[i][j]));
        }
        assert(forall|i: int| 0 <= i < parts.len() ==> parts[i].len() >= 1);
        lemma_join_ends(parts, ':');
        assert(is_hex_digit(m[0]) && is_hex_digit(m.last()));
        lemma_join_char_class(parts, ':', |ch: char| is_hex_digit(ch));
        assert forall|k: int| 0 <= k < m.len() implies m[k] != '.' by {
            assert(is_hex_digit(m[k]) || m[k] == ':');
        }
        lemma_split_join(parts, ':');
        assert(parse_v6_groups(split_on(m, ':')) == Some(group_vals(parts)));
        assert(split_on(m, ':').last() == parts[7]);
        assert forall|k: int| 0 <= k < parts[7].len() implies parts[7][k] != '.' by {
            assert(is_hex_digit(parts[7][k]));
        }
    } else {
        let el = Seq::<char>::empty();
        let left = hex_parts(g.take(bi));
        let right = hex_parts(g.skip(bi + bl));
        let lt = join_with(left, ':');
        let rt = join_with(right, ':');
        lemma_group_vals_hex_parts(g.take(bi));
        lemma_group_vals_hex_parts(g.skip(bi + bl));
        lemma_join_char_class(left, ':', |ch: char| is_hex_digit(ch));
        lemma_join_char_class(right, ':', |ch: char| is_hex_digit(ch));
        assert(m == lt + seq![':'] + seq![':'] + rt);
        assert(m.len() == lt.len() + 2 + rt.len());
        // every character is a hex digit or a colon
        assert forall|k: int| 0 <= k < m.len() implies (is_hex_digit(m[k]) || m[k] == ':') by {
            if k < lt.len() {
                assert(m[k] == lt[k]);
            } else if k == lt.len() || k == lt.len() + 1 {
                assert(m[k] == ':');
            } else {
                assert(m[k] == rt[k - lt.len() - 2]);
            }
        }
        assert forall|k: int| 0 <= k < m.len() implies m[k] != '.' by {
            assert(is_hex_digit(m[k]) || m[k] == ':');
        }
        assert(!is_ws(m[0]) && !is_ws(m.last()));
        // split the text back into pieces
        assert(m =~= lt + seq![':'] + (seq![':'] + rt));
        lemma_split_concat(lt, seq![':'] + rt, ':');
        assert(seq![':'] + rt =~= el + seq![':'] + rt);
        lemma_split_concat(el, rt, ':');
        assert(split_on(el, ':') =~= seq![el]);
        if bi == 0 {
            assert(left.len() == 0);
            assert(lt =~= el);
        } else {
            assert forall|i: int, j: int|
                0 <= i < left.len() && 0 <= j < left[i].len() implies left[i][j] != ':' by {
                assert(is_hex_digit(left[i][j]));
            }
            lemma_split_join(left, ':');
        }
        if bi + bl == 8 {
            assert(right.len() == 0);
            assert(rt =~= el);
        } else {
            assert forall|i: int, j: int|
                0 <= i < right.len() && 0 <= j < right[i].len() implies right[i][j] != ':' by {
                assert(is_hex_digit(right[i][j]));
            }
            lemma_split_join(right, ':');
        }
        let parts = split_on(m, ':');
        assert(parts == split_on(lt, ':') + (seq![el] + split_on(rt, ':')));
        if bi == 0 && bi + bl == 8 {
            assert(parts =~= seq![el, el, el]);
            assert(parts.len() == 3 && parts[0].len() == 0 && parts[1].len() == 0
                && parts[2].len() == 0);
            assert forall|k: int| 0 <= k < 8 implies zero_groups(8)[k] == g[k] by {
                assert(g[bi + k] == 0);
            }
            assert(zero_groups(8) =~= g);
            assert(parse_v6_groups(parts) == Some(zero_groups(8)));
            assert(parts.last().len() == 0);
        } else if bi == 0 {
            assert(parts =~= seq![el, el] + right);
            assert(parts.len() == right.len() + 2 == 10 - bl);
            assert(!is_hex_group(parts[0]));
            assert(parts[parts.len() - 1] == right[right.len() - 1]);
            assert(is_hex_group(parts[parts.len() - 1]));
            assert(parts.skip(2) =~= right);
            assert(all_groups(parts.skip(2)));
            assert(parse_v6_groups(parts) == Some(
                zero_groups((10 - parts.len()) as nat) + group_vals(parts.skip(2)),
            ));
            assert forall|k: int|
                0 <= k < 8 implies (zero_groups(bl as nat) + group_vals(right))[k] == g[k] by {
                if k < bl {
                    assert(g[bi + k] == 0);
                } else {
                    assert(group_vals(right)[k - bl] == g.skip(bi + bl)[k - bl]);
                }
            }
            assert(zero_groups(bl as nat) + group_vals(right) =~= g);
            assert forall|k: int|
                0 <= k < parts.last().len() implies parts.last()[k] != '.' by {
                assert(parts.last() == right[right.len() - 1]);
                assert(is_hex_digit(right[right.len() - 1][k]));
            }
        } else if bi + bl == 8 {
            assert(parts =~= left + seq![el, el]);
            assert(parts.len() == left.len() + 2 == bi + 2);
            assert(parts[0] == left[0]);
            assert(is_hex_group(parts[0]));
            assert(!is_hex_group(parts[parts.len() - 1]));
            assert(parts[parts.len() - 1].len() == 0 && parts[parts.len() - 2].len() == 0);
            assert(parts.take(parts.len() - 2) =~= left);
            assert(all_groups(parts.take(parts.len() - 2)));
            assert(parse_v6_groups(parts) == Some(
                group_vals(parts.take(parts.len() - 2)) + zero_groups(
                    (10 - parts.len()) as nat,
                ),
            ));
            assert forall|k: int|
                0 <= k < 8 implies (group_vals(left) + zero_groups(bl as nat))[k] == g[k] by {
                if k < bi {
                    assert(group_vals(left)[k] == g.take(bi)[k]);
                } else {
                    assert(g[bi + (k - bi)] == 0);
                }
            }
            assert(group_vals(left) + zero_groups(bl as nat) =~= g);
            assert(parts.last().len() == 0);
        } else {
            assert(parts =~= left + seq![el] + right);
            assert(parts.len() == left.len() + 1 + right.len() == 9 - bl);
            assert(parts[0] == left[0]);
            assert(is_hex_group(parts[0]));
            assert(parts[parts.len() - 1] == right[right.len() - 1]);
            assert(is_hex_group(parts[parts.len() - 1]));
            assert(parts[bi] == el);
            assert forall|k: int| 0 <= k < bi implies parts[k].len() != 0 by {
                assert(parts[k] == left[k]);
                assert(is_hex_group(left[k]));
            }
            lemma_find_first_empty_is(parts, bi);
            assert(parts.take(bi) =~= left);
            assert(parts.skip(bi + 1) =~= right);
            assert(all_groups(parts.take(bi)) && all_groups(parts.skip(bi + 1)));
            assert(parse_v6_groups(parts) == Some(
                group_vals(parts.take(bi)) + zero_groups((9 - parts.len()) as nat) + group_vals(
                    parts.skip(bi + 1),
                ),
            ));
            assert forall|k: int|
                0 <= k < 8 implies (group_vals(left) + zero_groups(bl as nat) + group_vals(
                right,
            ))[k] == g[k] by {
                if k < bi {
                    assert(group_vals(left)[k] == g.take(bi)[k]);
                } else if k < bi + bl {
                    assert(g[bi + (k - bi)] == 0);
                } else {
                    assert(group_vals(right)[k - bi - bl] == g.skip(bi + bl)[k - bi - bl]);
                }
            }
            assert(group_vals(left) + zero_groups(bl as nat) + group_vals(right) =~= g);
            assert forall|k: int|
                0 <= k < parts.last().len() implies parts.last()[k] != '.' by {
                assert(parts.last() == right[right.len() - 1]);
                assert(is_hex_digit(right[right.len() - 1][k]));
            }
        }
    }
}

/// The embedded dotted-quad text of an IPv4-compatible or IPv4-mapped
/// address parses back to exactly its eight groups.
#[verifier::rlimit(100)]
proof fn lemma_embedded_parses(g: Seq<u16>)
    requires
        g.len() == 8,
        is_v4_compatible(g) || is_v4_mapped(g),
    ensures
        render_v6_text(g).len() >= 1,
        !is_ws(render_v6_text(g)[0]),
        !is_ws(render_v6_text(g).last()),
        parse_v4(render_v6_text(g)) is None,
        parse_v6(render_v6_text(g)) == Some(
            MyIp::V6(g[0], g[1], g[2], g[3], g[4], g[5], g[6], g[7]),
        ),
{
    let el = Seq::<char>::empty();
    let m = render_v6_text(g);
    let hi = g[6];
    let lo = g[7];
    let a = (hi / 256) as u8;
    let b = (hi % 256) as u8;
    let c = (lo / 256) as u8;
    let d = (lo % 256) as u8;
    lemma_quad_parses(a, b, c, d);
    let quad = quad_chars(a, b, c, d);
    assert(v4_tail_chars(hi, lo) == quad);
    assert((a as nat) * 256 + (b as nat) == hi as nat);
    assert((c as nat) * 256 + (d as nat) == lo as nat);
    lemma_hex_chars_props(hi as nat);
    lemma_hex_chars_props(lo as nat);
    assert(forall|k: int| 0 <= k < quad.len() ==> quad[k] != ':');
    lemma_split_no_sep(quad, ':');
    if is_v4_compatible(g) {
        assert(m == seq![':', ':'] + quad);
        assert(m[0] == ':' && m.len() >= 3);
        assert(m.last() == quad[quad.len() - 1]);
        assert(!is_ws(m[0]) && !is_ws(m.last()));
        lemma_parse_v4_none_colon(m);
        assert(m =~= el + seq![':'] + (el + seq![':'] + quad));
        lemma_split_concat(el, el + seq![':'] + quad, ':');
        lemma_split_concat(el, quad, ':');
        assert(split_on(el, ':') =~= seq![el]);
        let parts = split_on(m, ':');
        assert(parts =~= seq![el, el, quad]);
        assert(parts.last() == quad);
        let parts2 = v6_pieces(m);
        assert(parts.drop_last() =~= seq![el, el]);
        assert(parts2 =~= seq![el, el, hex_chars(hi as nat), hex_chars(lo as nat)]);
        assert(parts2.len() == 4 && parts2[0].len() == 0 && parts2[1].len() == 0);
        assert(parts2.skip(2) =~= seq![hex_chars(hi as nat), hex_chars(lo as nat)]);
        assert forall|k: int| 0 <= k < parts2.skip(2).len() implies is_hex_group(
            parts2.skip(2)[k],
        ) by {
            if k == 0 {
                assert(parts2.skip(2)[k] == hex_chars(hi as nat));
            } else {
                assert(parts2.skip(2)[k] == hex_chars(lo as nat));
            }
        }
        assert(parse_v6_groups(parts2) == Some(
            zero_groups((10 - parts2.len()) as nat) + group_vals(parts2.skip(2)),
        ));
        assert(group_vals(parts2.skip(2))[0] == hi && group_vals(parts2.skip(2))[1] == lo);
        assert(zero_groups(6) + group_vals(parts2.skip(2)) =~= g);
    } else {
        let hf = hex_chars(0xffff as nat);
        lemma_hex_chars_props(0xffff as nat);
        assert(forall|k: int| 0 <= k < hf.len() ==> hf[k] != ':');
        lemma_split_no_sep(hf, ':');
        assert(m == seq![':', ':'] + hf + seq![':'] + quad);
        assert(m[0] == ':' && m.len() >= 3);
        assert(m.last() == quad[quad.len() - 1]);
        assert(!is_ws(m[0]) && !is_ws(m.last()));
        lemma_parse_v4_none_colon(m);
        let r2 = hf + seq![':'] + quad;
        lemma_split_concat(hf, quad, ':');
        assert(split_on(r2, ':') =~= seq![hf, quad]);
        let r1 = el + seq![':'] + r2;
        lemma_split_concat(el, r2, ':');
        assert(split_on(el, ':') =~= seq![el]);
        assert(split_on(r1, ':') =~= seq![el, hf, quad]);
        lemma_split_concat(el, r1, ':');
        assert(m =~= el + seq![':'] + r1);
        let parts = split_on(m, ':');
        assert(parts =~= seq![el, el, hf, quad]);
        assert(parts.last() == quad);
        let parts2 = v6_pieces(m);
        assert(parts.drop_last() =~= seq![el, el, hf]);
        assert(parts2 =~= seq![el, el, hf, hex_chars(hi as nat), hex_chars(lo as nat)]);
        assert(parts2.len() == 5 && parts2[0].len() == 0 && parts2[1].len() == 0);
        assert(parts2.skip(2) =~= seq![hf, hex_chars(hi as nat), hex_chars(lo as nat)]);
        assert forall|k: int| 0 <= k < parts2.skip(2).len() implies is_hex_group(
            parts2.skip(2)[k],
        ) by {
            if k == 0 {
                assert(parts2.skip(2)[k] == hf);
            } else if k == 1 {
                assert(parts2.skip(2)[k] == hex_chars(hi as nat));
            } else {
                assert(parts2.skip(2)[k] == hex_chars(lo as nat));
            }
        }
        assert(parse_v6_groups(parts2) == Some(
            zero_groups((10 - parts2.len()) as nat) + group_vals(parts2.skip(2)),
        ));
        assert(group_vals(parts2.skip(2))[0] == 0xffff && group_vals(parts2.skip(2))[1] == hi
            && group_vals(parts2.skip(2))[2] == lo);
        assert(zero_groups(5) + group_vals(parts2.skip(2)) =~= g);
    }
}

/// Round trip: parsing the canonical text of any address, optionally
/// surrounded by whitespace, gives back exactly that address.
pub proof fn lemma_parse_render_round_trip(ip: MyIp, pre: Seq<char>, post: Seq<char>)
    requires
        forall|k: int| 0 <= k < pre.len() ==> is_ws(pre[k]),
        forall|k: int| 0 <= k < post.len() ==> is_ws(post[k]),
    ensures
        spec_parse_ip(pre + spec_render(ip) + post) == Some(ip),
{
    let m = spec_render(ip);
    match ip {
        MyIp::V4(a, b, c, d) => {
            lemma_quad_parses(a, b, c, d);
            lemma_trim_around(pre, m, post);
            assert(parse_v4(m) == Some(MyIp::V4(a, b, c, d)));
        },
        MyIp::V6(g0, g1, g2, g3, g4, g5, g6, g7) => {
            let g = seq![g0, g1, g2, g3, g4, g5, g6, g7];
            assert(m == render_v6_text(g));
            if is_v4_compatible(g) || is_v4_mapped(g) {
                lemma_embedded_parses(g);
                lemma_trim_around(pre, m, post);
                assert(parse_v6(m) == Some(MyIp::V6(g0, g1, g2, g3, g4, g5, g6, g7)));
            } else {
                assert(m == render_groups(g));
                lemma_render_groups_parses(g);
                lemma_trim_around(pre, m, post);
                // the IPv4 reading fails: the text holds no '.' at all
                lemma_parse_v4_none_no_dot(m);
                // no trailing dotted quad either, so the pieces stand as they are
                lemma_parse_v4_none_no_dot(split_on(m, ':').last());
                assert(v6_pieces(m) == split_on(m, ':'));
                // the IPv6 reading gives the eight groups back
                assert(parse_v6_groups(v6_pieces(m)) == Some(g));
                assert(parse_v6(m) == Some(MyIp::V6(g0, g1, g2, g3, g4, g5, g6, g7)));
            }
        },
    }
}

} // verus!

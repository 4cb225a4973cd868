//! Character, number and byte helpers shared by the object formats.
use vstd::prelude::*;
use vstd::string::StringSliceAdditionalSpecFns;

verus! {

broadcast use vstd::seq_lib::group_seq_properties;

/// Collects the characters of a string slice.
pub fn chars_of(s: &str) -> (out: Vec<char>)
    ensures
        out@ == s@,
{
    let mut out: Vec<char> = Vec::new();
    for c in it: s.chars()
        invariant
            out@ == it.seq().take(it.index() as int),
            it.seq() == s@,
    {
        out.push(c);
    }
    out
}

/// Appends one character to a string (`String::push`).
#[verifier::external_body]
pub(crate) fn push_char(s: &mut String, c: char)
    ensures
        final(s)@ == old(s)@.push(c),
{
    s.push(c)
}

/// Builds a string from a sequence of characters.
pub fn string_from_chars(cs: &[char]) -> (out: String)
    ensures
        out@ == cs@,
{
    let mut out = String::new();
    let mut i: usize = 0;
    while i < cs.len()
        invariant
            i <= cs@.len(),
            out@ == cs@.take(i as int),
        decreases cs@.len() - i,
    {
        push_char(&mut out, cs[i]);
        i = i + 1;
    }
    out
}

/// Builds a string from a subrange of a character sequence.
pub fn string_from_range(cs: &[char], start: usize, end: usize) -> (out: String)
    requires
        start <= end <= cs@.len(),
    ensures
        out@ == cs@.subrange(start as int, end as int),
{
    let mut out = String::new();
    let mut i: usize = start;
    while i < end
        invariant
            start <= i <= end <= cs@.len(),
            out@ == cs@.subrange(start as int, i as int),
        decreases end - i,
    {
        push_char(&mut out, cs[i]);
        i = i + 1;
    }
    out
}

/// Appends the characters of `t` to `s`.
pub fn push_str(s: &mut String, t: &str)
    ensures
        final(s)@ == old(s)@ + t@,
{
    let cs = chars_of(t);
    let ghost start = s@;
    let mut i: usize = 0;
    while i < cs.len()
        invariant
            i <= cs@.len(),
            cs@ == t@,
            s@ == start + cs@.take(i as int),
        decreases cs@.len() - i,
    {
        push_char(s, cs[i]);
        i = i + 1;
    }
}

/// Compares two character sequences.
pub fn chars_eq(a: &[char], b: &[char]) -> (r: bool)
    ensures
        r == (a@ == b@),
{
    if a.len() != b.len() {
        return false;
    }
    let mut i: usize = 0;
    while i < a.len()
        invariant
            a@.len() == b@.len(),
            i <= a@.len(),
            forall|j: int| 0 <= j < i ==> a@[j] == b@[j],
        decreases a@.len() - i,
    {
        if a[i] != b[i] {
            return false;
        }
        i = i + 1;
    }
    assert(a@ =~= b@);
    true
}

/// Compares two string slices by their characters.
pub fn str_eq(a: &str, b: &str) -> (r: bool)
    ensures
        r == (a@ == b@),
{
    let ca = chars_of(a);
    let cb = chars_of(b);
    chars_eq(ca.as_slice(), cb.as_slice())
}

/// Whether `p` is a prefix of `s`.
pub open spec fn is_prefix(p: Seq<char>, s: Seq<char>) -> bool {
    p.len() <= s.len() && s.subrange(0, p.len() as int) == p
}

/// Whether `p` is a suffix of `s`.
pub open spec fn is_suffix(p: Seq<char>, s: Seq<char>) -> bool {
    p.len() <= s.len() && s.subrange(s.len() - p.len(), s.len() as int) == p
}

/// Whether `s` starts with `p`, read at position `at`.
pub fn chars_match_at(s: &[char], at: usize, p: &[char]) -> (r: bool)
    ensures
        r == (at + p@.len() <= s@.len() && s@.subrange(at as int, at + p@.len()) == p@),
{
    let n = s.len();
    if at > n || p.len() > n - at {
        return false;
    }
    let mut i: usize = 0;
    while i < p.len()
        invariant
            n == s@.len(),
            at + p@.len() <= s@.len(),
            i <= p@.len(),
            forall|j: int| 0 <= j < i ==> s@[at + j] == p@[j],
        decreases p@.len() - i,
    {
        if s[at + i] != p[i] {
            return false;
        }
        i = i + 1;
    }
    assert(s@.subrange(at as int, at + p@.len()) =~= p@);
    true
}

/// Whether `s` starts with `p`.
pub fn starts_with(s: &[char], p: &[char]) -> (r: bool)
    ensures
        r == is_prefix(p@, s@),
{
    chars_match_at(s, 0, p)
}

/// Whether `s` ends with `p`.
pub fn ends_with(s: &[char], p: &[char]) -> (r: bool)
    ensures
        r == is_suffix(p@, s@),
{
    if p.len() > s.len() {
        return false;
    }
    chars_match_at(s, s.len() - p.len(), p)
}


/// The character of a decimal digit.
pub open spec fn digit_char(d: nat) -> char {
    (48 + d) as char
}

/// The decimal notation of a natural number.
pub open spec fn decimal(n: nat) -> Seq<char>
    decreases n,
{
    if n < 10 {
        seq![digit_char(n)]
    } else {
        decimal(n / 10).push(digit_char(n % 10))
    }
}

/// The decimal notation of an integer, with a leading `-` when it is negative.
pub open spec fn signed_decimal(n: int) -> Seq<char> {
    if n < 0 {
        seq!['-'] + decimal((-n) as nat)
    } else {
        decimal(n as nat)
    }
}

fn digit(d: u64) -> (c: char)
    requires
        d < 10,
    ensures
        c == digit_char(d as nat),
{
    let b: u8 = 48u8 + (d as u8);
    b as char
}

/// Appends the decimal notation of `n`.
pub fn push_decimal(out: &mut Vec<char>, n: u64)
    ensures
        final(out)@ == old(out)@ + decimal(n as nat),
    decreases n,
{
    if n >= 10 {
        push_decimal(out, n / 10);
    }
    out.push(digit(n % 10));
    proof {
        if n >= 10 {
            assert(decimal(n as nat) == decimal((n / 10) as nat).push(digit_char((n % 10) as nat)));
        }
    }
}

/// Appends the decimal notation of a signed number.
pub fn push_signed_decimal(out: &mut Vec<char>, n: i64)
    ensures
        final(out)@ == old(out)@ + signed_decimal(n as int),
{
    if n < 0 {
        out.push('-');
        let m: i128 = 0i128 - (n as i128);
        push_decimal(out, m as u64);
    } else {
        push_decimal(out, n as u64);
    }
}


/// Whether a character is a hexadecimal digit (either case).
pub open spec fn is_hex_char(c: char) -> bool {
    ('0' <= c && c <= '9') || ('a' <= c && c <= 'f') || ('A' <= c && c <= 'F')
}

/// Whether a character is a lowercase hexadecimal digit.
pub open spec fn is_lower_hex_char(c: char) -> bool {
    ('0' <= c && c <= '9') || ('a' <= c && c <= 'f')
}

/// The value of a hexadecimal digit.
pub open spec fn hex_value(c: char) -> nat {
    if '0' <= c && c <= '9' {
        (c as nat - 48) as nat
    } else if 'a' <= c && c <= 'f' {
        (c as nat - 87) as nat
    } else {
        (c as nat - 55) as nat
    }
}

/// The lowercase hexadecimal digit of a value below 16.
pub open spec fn hex_char(v: nat) -> char {
    if v < 10 {
        (48 + v) as char
    } else {
        (87 + v) as char
    }
}

/// Whether `c` is a hexadecimal digit.
pub fn is_ascii_hexdigit(c: char) -> (r: bool)
    ensures
        r == is_hex_char(c),
{
    ('0' <= c && c <= '9') || ('a' <= c && c <= 'f') || ('A' <= c && c <= 'F')
}

/// The value of a hexadecimal digit.
pub fn hex_digit_value(c: char) -> (v: u8)
    requires
        is_hex_char(c),
    ensures
        v as nat == hex_value(c),
        v < 16,
{
    if '0' <= c && c <= '9' {
        ((c as u32) - 48) as u8
    } else if 'a' <= c && c <= 'f' {
        ((c as u32) - 87) as u8
    } else {
        ((c as u32) - 55) as u8
    }
}

/// The lowercase hexadecimal digit of a value below 16.
pub fn hex_digit_char(v: u8) -> (c: char)
    requires
        v < 16,
    ensures
        c == hex_char(v as nat),
        is_lower_hex_char(c),
{
    if v < 10 {
        (48u8 + v) as char
    } else {
        (87u8 + v) as char
    }
}

/// Whether a character is white space in the sense of `char::is_whitespace`.
pub open spec fn is_white(c: char) -> bool {
    ||| '\u{9}' <= c && c <= '\u{d}'
    ||| c == ' '
    ||| c == '\u{85}'
    ||| c == '\u{a0}'
    ||| c == '\u{1680}'
    ||| '\u{2000}' <= c && c <= '\u{200a}'
    ||| c == '\u{2028}'
    ||| c == '\u{2029}'
    ||| c == '\u{202f}'
    ||| c == '\u{205f}'
    ||| c == '\u{3000}'
}

/// Whether a character is white space.
pub fn is_whitespace(c: char) -> (r: bool)
    ensures
        r == is_white(c),
{
    ('\u{9}' <= c && c <= '\u{d}') || c == ' ' || c == '\u{85}' || c == '\u{a0}' || c == '\u{1680}'
        || ('\u{2000}' <= c && c <= '\u{200a}') || c == '\u{2028}' || c == '\u{2029}' || c
        == '\u{202f}' || c == '\u{205f}' || c == '\u{3000}'
}

/// The number of leading white-space characters.
pub open spec fn leading_white(s: Seq<char>) -> nat
    decreases s.len(),
{
    if s.len() > 0 && is_white(s[0]) {
        1 + leading_white(s.drop_first())
    } else {
        0
    }
}

/// The number of trailing white-space characters.
pub open spec fn trailing_white(s: Seq<char>) -> nat
    decreases s.len(),
{
    if s.len() > 0 && is_white(s.last()) {
        1 + trailing_white(s.drop_last())
    } else {
        0
    }
}

/// A sequence with white space removed at both ends (`str::trim`).
pub open spec fn trim_seq(s: Seq<char>) -> Seq<char> {
    let front = s.subrange(leading_white(s) as int, s.len() as int);
    front.subrange(0, front.len() - trailing_white(front))
}

proof fn lemma_leading_white_bound(s: Seq<char>)
    ensures
        leading_white(s) <= s.len(),
    decreases s.len(),
{
    if s.len() > 0 && is_white(s[0]) {
        lemma_leading_white_bound(s.drop_first());
    }
}

proof fn lemma_trailing_white_bound(s: Seq<char>)
    ensures
        trailing_white(s) <= s.len(),
    decreases s.len(),
{
    if s.len() > 0 && is_white(s.last()) {
        lemma_trailing_white_bound(s.drop_last());
    }
}

fn count_leading_white(s: &[char]) -> (n: usize)
    ensures
        n as nat == leading_white(s@),
{
    let mut i: usize = 0;
    while i < s.len() && is_whitespace(s[i])
        invariant
            i <= s@.len(),
            forall|j: int| 0 <= j < i ==> is_white(s@[j]),
            leading_white(s@) == i + leading_white(s@.subrange(i as int, s@.len() as int)),
        decreases s@.len() - i,
    {
        let ghost rest = s@.subrange(i as int, s@.len() as int);
        assert(rest.drop_first() =~= s@.subrange(i + 1, s@.len() as int));
        i = i + 1;
    }
    let ghost rest = s@.subrange(i as int, s@.len() as int);
    assert(leading_white(rest) == 0);
    i
}

fn count_trailing_white(s: &[char], start: usize) -> (n: usize)
    requires
        start <= s@.len(),
    ensures
        n as nat == trailing_white(s@.subrange(start as int, s@.len() as int)),
        n <= s@.len() - start,
{
    let ghost w = s@.subrange(start as int, s@.len() as int);
    let mut i: usize = s.len();
    while i > start && is_whitespace(s[i - 1])
        invariant
            start <= i <= s@.len(),
            w == s@.subrange(start as int, s@.len() as int),
            trailing_white(w) == (s@.len() - i) + trailing_white(
                s@.subrange(start as int, i as int),
            ),
        decreases i,
    {
        let ghost cur = s@.subrange(start as int, i as int);
        assert(cur.drop_last() =~= s@.subrange(start as int, i - 1));
        i = i - 1;
    }
    let ghost cur = s@.subrange(start as int, i as int);
    assert(trailing_white(cur) == 0);
    s.len() - i
}

/// The bounds of a character sequence with white space removed at both ends.
pub fn trim_bounds(s: &[char]) -> (r: (usize, usize))
    ensures
        r.0 <= r.1 <= s@.len(),
        s@.subrange(r.0 as int, r.1 as int) == trim_seq(s@),
{
    let a = count_leading_white(s);
    proof {
        lemma_leading_white_bound(s@);
    }
    let t = count_trailing_white(s, a);
    let b = s.len() - t;
    let ghost front = s@.subrange(a as int, s@.len() as int);
    assert(s@.subrange(a as int, b as int) =~= front.subrange(0, front.len() - trailing_white(front)));
    (a, b)
}

/// A string with white space removed at both ends.
pub fn trim_string(s: &str) -> (r: String)
    ensures
        r@ == trim_seq(s@),
{
    let cs = chars_of(s);
    let (a, b) = trim_bounds(cs.as_slice());
    string_from_range(cs.as_slice(), a, b)
}

/// Big-endian encoding of a 32-bit number.
pub open spec fn be32(x: u32) -> Seq<u8> {
    seq![(x >> 24u32) as u8, (x >> 16u32) as u8, (x >> 8u32) as u8, x as u8]
}

/// Big-endian encoding of a 16-bit number.
pub open spec fn be16(x: u16) -> Seq<u8> {
    seq![(x >> 8u16) as u8, x as u8]
}

/// The 32-bit number whose big-endian encoding starts at `at`.
pub open spec fn read_be32(s: Seq<u8>, at: int) -> u32 {
    ((s[at] as u32) << 24u32) | ((s[at + 1] as u32) << 16u32) | ((s[at + 2] as u32) << 8u32) | (
    s[at + 3] as u32)
}

/// The 16-bit number whose big-endian encoding starts at `at`.
pub open spec fn read_be16(s: Seq<u8>, at: int) -> u16 {
    ((s[at] as u16) << 8u16) | (s[at + 1] as u16)
}

/// Appends the big-endian encoding of a 32-bit number.
pub fn push_u32_be(v: &mut Vec<u8>, x: u32)
    ensures
        final(v)@ == old(v)@ + be32(x),
{
    v.push((x >> 24u32) as u8);
    v.push((x >> 16u32) as u8);
    v.push((x >> 8u32) as u8);
    v.push(x as u8);
    assert(v@ =~= old(v)@ + be32(x));
}

/// Appends the big-endian encoding of a 16-bit number.
pub fn push_u16_be(v: &mut Vec<u8>, x: u16)
    ensures
        final(v)@ == old(v)@ + be16(x),
{
    v.push((x >> 8u16) as u8);
    v.push(x as u8);
    assert(v@ =~= old(v)@ + be16(x));
}

/// Reads a big-endian 32-bit number.
pub fn read_u32_be(s: &[u8], at: usize) -> (x: u32)
    requires
        at + 4 <= s@.len(),
    ensures
        x == read_be32(s@, at as int),
{
    ((s[at] as u32) << 24u32) | ((s[at + 1] as u32) << 16u32) | ((s[at + 2] as u32) << 8u32) | (
    s[at + 3] as u32)
}

/// Reads a big-endian 16-bit number.
pub fn read_u16_be(s: &[u8], at: usize) -> (x: u16)
    requires
        at + 2 <= s@.len(),
    ensures
        x == read_be16(s@, at as int),
{
    ((s[at] as u16) << 8u16) | (s[at + 1] as u16)
}

/// Reading back a big-endian 32-bit encoding gives the number.
pub proof fn lemma_be32_roundtrip(x: u32)
    ensures
        read_be32(be32(x), 0) == x,
{
    let b0 = (x >> 24u32) as u8;
    let b1 = (x >> 16u32) as u8;
    let b2 = (x >> 8u32) as u8;
    let b3 = x as u8;
    assert(((b0 as u32) << 24u32) | ((b1 as u32) << 16u32) | ((b2 as u32) << 8u32) | (b3 as u32)
        == x) by (bit_vector)
        requires
            b0 == (x >> 24u32) as u8,
            b1 == (x >> 16u32) as u8,
            b2 == (x >> 8u32) as u8,
            b3 == x as u8,
    ;
}

/// Reading back a big-endian 16-bit encoding gives the number.
pub proof fn lemma_be16_roundtrip(x: u16)
    ensures
        read_be16(be16(x), 0) == x,
{
    let b0 = (x >> 8u16) as u8;
    let b1 = x as u8;
    assert(((b0 as u16) << 8u16) | (b1 as u16) == x) by (bit_vector)
        requires
            b0 == (x >> 8u16) as u8,
            b1 == x as u8,
    ;
}

/// Converts bytes to a string when they are valid UTF-8 (`String::from_utf8`).
#[verifier::external_body]
pub(crate) fn string_from_utf8(bytes: Vec<u8>) -> (r: Option<String>)
    ensures
        r is Some <==> vstd::utf8::valid_utf8(bytes@),
        r matches Some(s) ==> s@ == vstd::utf8::decode_utf8(bytes@),
{
    String::from_utf8(bytes).ok()
}

/// A copy of some bytes.
pub fn bytes_to_vec(s: &[u8]) -> (r: Vec<u8>)
    ensures
        r@ == s@,
{
    let mut out: Vec<u8> = Vec::new();
    let mut i: usize = 0;
    while i < s.len()
        invariant
            i <= s@.len(),
            out@ == s@.take(i as int),
        decreases s@.len() - i,
    {
        out.push(s[i]);
        assert(s@.take(i + 1) =~= s@.take(i as int).push(s@[i as int]));
        i = i + 1;
    }
    assert(s@.take(s@.len() as int) =~= s@);
    out
}

/// The UTF-8 bytes of a string slice.
pub fn utf8_bytes(s: &str) -> (b: Vec<u8>)
    ensures
        b@ == vstd::utf8::encode_utf8(s@),
{
    let bs = s.as_bytes();
    let mut out: Vec<u8> = Vec::new();
    let mut i: usize = 0;
    while i < bs.len()
        invariant
            i <= bs@.len(),
            bs@ == s.spec_bytes(),
            out@ == bs@.take(i as int),
        decreases bs@.len() - i,
    {
        out.push(bs[i]);
        i = i + 1;
    }
    assert(out@ =~= bs@);
    out
}

/// The position just past the last `/` of a path, or 0 when it has none.
pub open spec fn last_component_start(s: Seq<char>) -> int
    decreases s.len(),
{
    if s.len() > 0 && s.last() != '/' {
        last_component_start(s.drop_last())
    } else {
        s.len() as int
    }
}

/// The last component of a `/`-separated path.
pub open spec fn basename_seq(s: Seq<char>) -> Seq<char> {
    s.subrange(last_component_start(s), s.len() as int)
}

pub proof fn lemma_last_component_start(s: Seq<char>)
    ensures
        0 <= last_component_start(s) <= s.len(),
        last_component_start(s) > 0 ==> s[last_component_start(s) - 1] == '/',
        forall|j: int| last_component_start(s) <= j < s.len() ==> s[j] != '/',
    decreases s.len(),
{
    if s.len() > 0 && s.last() != '/' {
        lemma_last_component_start(s.drop_last());
        assert forall|j: int| last_component_start(s) <= j < s.len() implies s[j] != '/' by {
            if j < s.len() - 1 {
                assert(s.drop_last()[j] == s[j]);
            }
        }
    }
}

/// The position just past the last `/` of a path, or 0 when it has none.
pub fn find_last_component_start(s: &[char]) -> (r: usize)
    ensures
        r as int == last_component_start(s@),
{
    let mut i: usize = s.len();
    while i > 0 && s[i - 1] != '/'
        invariant
            i <= s@.len(),
            last_component_start(s@) == last_component_start(s@.subrange(0, i as int)),
        decreases i,
    {
        assert(s@.subrange(0, i as int).drop_last() =~= s@.subrange(0, i - 1));
        i = i - 1;
    }
    proof {
        if i > 0 {
            assert(s@.subrange(0, i as int).last() == '/');
        }
    }
    i
}

/// The first position at or after `from` that holds `c`, or the length.
pub open spec fn find_char(s: Seq<char>, from: int, c: char) -> int
    decreases s.len() - from,
{
    if from >= s.len() {
        s.len() as int
    } else if s[from] == c {
        from
    } else {
        find_char(s, from + 1, c)
    }
}

/// Where `find_char` lands, and that it skips no `c`.
pub proof fn lemma_find_char(s: Seq<char>, from: int, c: char)
    requires
        0 <= from,
    ensures
        from <= s.len() ==> from <= find_char(s, from, c) <= s.len(),
        from > s.len() ==> find_char(s, from, c) == s.len(),
        find_char(s, from, c) < s.len() ==> s[find_char(s, from, c)] == c,
        forall|j: int| from <= j < find_char(s, from, c) ==> s[j] != c,
    decreases s.len() - from,
{
    if from < s.len() && s[from] != c {
        lemma_find_char(s, from + 1, c);
    }
}

/// The first position at or after `from` that holds `c`, or the length.
pub fn find_char_exec(s: &[char], from: usize, c: char) -> (r: usize)
    requires
        from <= s@.len(),
    ensures
        r as int == find_char(s@, from as int, c),
        from <= r <= s@.len(),
{
    proof {
        lemma_find_char(s@, from as int, c);
    }
    let mut i = from;
    while i < s.len() && s[i] != c
        invariant
            from <= i <= s@.len(),
            find_char(s@, from as int, c) == find_char(s@, i as int, c),
        decreases s@.len() - i,
    {
        i = i + 1;
    }
    i
}

/// A line without the carriage return that ended it.
pub open spec fn strip_cr(line: Seq<char>) -> Seq<char> {
    if line.len() > 0 && line.last() == '\r' {
        line.drop_last()
    } else {
        line
    }
}

/// The lines of the text from position `at` (`str::lines`): split at each
/// `\n`, a `\r` before it removed; a last line without `\n` is kept as is,
/// and no empty line follows a final `\n`.
pub open spec fn lines_from(s: Seq<char>, at: int) -> Seq<Seq<char>>
    decreases s.len() - at,
{
    if at < 0 || at >= s.len() {
        seq![]
    } else {
        let j = find_char(s, at, '\n');
        if j >= s.len() {
            seq![s.subrange(at, s.len() as int)]
        } else {
            proof {
                lemma_find_char(s, at, '\n');
            }
            seq![strip_cr(s.subrange(at, j))] + lines_from(s, j + 1)
        }
    }
}

/// The lines of a text.
pub open spec fn lines_of(s: Seq<char>) -> Seq<Seq<char>> {
    lines_from(s, 0)
}

/// The lines of a text (`str::lines`).
pub fn split_lines(text: &str) -> (r: Vec<String>)
    ensures
        r@.map_values(|x: String| x@) == lines_of(text@),
{
    let cs = chars_of(text);
    let mut out: Vec<String> = Vec::new();
    let mut at: usize = 0;
    assert(out@.map_values(|x: String| x@) + lines_from(cs@, 0) =~= lines_of(text@));
    while at < cs.len()
        invariant
            cs@ == text@,
            at <= cs@.len(),
            out@.map_values(|x: String| x@) + lines_from(cs@, at as int) == lines_of(text@),
        decreases cs@.len() - at,
    {
        let ghost before = out@.map_values(|x: String| x@);
        let j = find_char_exec(cs.as_slice(), at, '\n');
        if j >= cs.len() {
            out.push(string_from_range(cs.as_slice(), at, cs.len()));
            assert(out@.map_values(|x: String| x@) =~= before.push(cs@.subrange(at as int, cs@.len() as int)));
            assert(lines_from(cs@, cs@.len() as int) =~= Seq::<Seq<char>>::empty());
            assert(out@.map_values(|x: String| x@) + lines_from(cs@, cs@.len() as int) =~= before
                + lines_from(cs@, at as int));
            at = cs.len();
        } else {
            let end = if j > at && cs[j - 1] == '\r' {
                j - 1
            } else {
                j
            };
            assert(cs@.subrange(at as int, end as int) == strip_cr(cs@.subrange(at as int, j as int))) by {
                if j > at && cs@[j - 1] == '\r' {
                    assert(cs@.subrange(at as int, end as int) =~= cs@.subrange(at as int, j as int).drop_last());
                }
            }
            out.push(string_from_range(cs.as_slice(), at, end));
            assert(out@.map_values(|x: String| x@) =~= before.push(cs@.subrange(at as int, end as int)));
            assert(out@.map_values(|x: String| x@) + lines_from(cs@, j + 1) =~= before
                + lines_from(cs@, at as int));
            at = j + 1;
        }
    }
    assert(lines_from(cs@, at as int) =~= Seq::<Seq<char>>::empty());
    assert(out@.map_values(|x: String| x@) =~= lines_of(text@));
    out
}

/// The lines joined with `\n` between them.
pub open spec fn join_lines(ls: Seq<Seq<char>>) -> Seq<char>
    decreases ls.len(),
{
    if ls.len() == 0 {
        seq![]
    } else if ls.len() == 1 {
        ls[0]
    } else {
        join_lines(ls.drop_last()) + seq!['\n'] + ls.last()
    }
}

/// Joins the strings from position `from` with `\n` between them.
pub fn join_with_newlines(ls: &Vec<String>, from: usize) -> (r: String)
    requires
        from <= ls@.len(),
    ensures
        r@ == join_lines(ls@.map_values(|x: String| x@).skip(from as int)),
{
    let ghost v = ls@.map_values(|x: String| x@).skip(from as int);
    let mut out = String::new();
    let mut i: usize = from;
    assert(v.take(0) =~= Seq::<Seq<char>>::empty());
    while i < ls.len()
        invariant
            from <= i <= ls@.len(),
            v == ls@.map_values(|x: String| x@).skip(from as int),
            out@ == join_lines(v.take(i - from)),
        decreases ls@.len() - i,
    {
        let ghost pre = v.take(i - from);
        assert(v.take(i - from + 1).drop_last() =~= pre);
        assert(v.take(i - from + 1).last() == ls@[i as int]@);
        if i > from {
            push_char(&mut out, '\n');
        } else {
            assert(pre =~= Seq::<Seq<char>>::empty());
        }
        push_str(&mut out, ls[i].as_str());
        proof {
            if i > from {
                assert(out@ =~= join_lines(pre) + seq!['\n'] + ls@[i as int]@);
            } else {
                assert(out@ =~= ls@[i as int]@);
            }
        }
        i = i + 1;
    }
    assert(v.take(ls@.len() - from) =~= v);
    out
}

/// Whether a character is a decimal digit.
pub open spec fn is_digit(c: char) -> bool {
    '0' <= c && c <= '9'
}

/// The value of a sequence of decimal digits.
pub open spec fn digits_value(s: Seq<char>) -> nat
    decreases s.len(),
{
    if s.len() == 0 {
        0
    } else {
        digits_value(s.drop_last()) * 10 + ((s.last() as u32) - 48) as nat
    }
}

/// The digits after an optional leading sign.
pub open spec fn unsigned_body(s: Seq<char>) -> Seq<char> {
    if s.len() > 0 && s[0] == '+' {
        s.drop_first()
    } else {
        s
    }
}

/// The value of an unsigned number's text (`u64::from_str`, unbounded): an
/// optional `+`, then one or more digits.
pub open spec fn parse_unsigned(s: Seq<char>) -> Option<nat> {
    let b = unsigned_body(s);
    if b.len() > 0 && forall|i: int| 0 <= i < b.len() ==> is_digit(#[trigger] b[i]) {
        Some(digits_value(b))
    } else {
        None
    }
}

/// The value of a signed number's text (`i64::from_str`, unbounded): an
/// optional `+` or `-`, then one or more digits.
pub open spec fn parse_signed(s: Seq<char>) -> Option<int> {
    if s.len() > 0 && s[0] == '-' {
        let b = s.drop_first();
        if b.len() > 0 && forall|i: int| 0 <= i < b.len() ==> is_digit(#[trigger] b[i]) {
            Some(-(digits_value(b) as int))
        } else {
            None
        }
    } else {
        match parse_unsigned(s) {
            Some(n) => Some(n as int),
            None => None,
        }
    }
}

proof fn lemma_digits_value_prefix(s: Seq<char>, i: int)
    requires
        0 <= i <= s.len(),
    ensures
        digits_value(s.take(i)) <= digits_value(s),
    decreases s.len() - i,
{
    if i < s.len() {
        lemma_digits_value_prefix(s, i + 1);
        assert(s.take(i + 1).drop_last() =~= s.take(i));
    } else {
        assert(s.take(i) =~= s);
    }
}

/// The value of the digits `s[from..]`, when it is at most `limit`.
fn digits_up_to(s: &[char], from: usize, limit: u64) -> (r: Option<u64>)
    requires
        limit >= 9,
        from <= s@.len(),
        forall|i: int| from <= i < s@.len() ==> is_digit(#[trigger] s@[i]),
    ensures
        match r {
            Some(v) => v == digits_value(s@.skip(from as int)) && v <= limit,
            None => digits_value(s@.skip(from as int)) > limit,
        },
{
    let ghost b = s@.skip(from as int);
    let mut acc: u64 = 0;
    let mut i: usize = from;
    assert(b.take(0) =~= Seq::<char>::empty());
    while i < s.len()
        invariant
            from <= i <= s@.len(),
            b == s@.skip(from as int),
            forall|k: int| from <= k < s@.len() ==> is_digit(#[trigger] s@[k]),
            acc == digits_value(b.take(i - from)),
            acc <= limit,
            limit >= 9,
        decreases s@.len() - i,
    {
        let d = (s[i] as u32) - 48;
        assert(b.take(i - from + 1).drop_last() =~= b.take(i - from));
        assert(b.take(i - from + 1).last() == s@[i as int]);
        if acc > (limit - d as u64) / 10 {
            proof {
                assert(acc * 10 + d > limit) by (nonlinear_arith)
                    requires
                        acc > (limit - d as u64) / 10,
                        d <= 9,
                        d <= limit || true,
                ;
                lemma_digits_value_prefix(b, i - from + 1);
            }
            return None;
        }
        assert(acc * 10 + d <= limit) by (nonlinear_arith)
            requires
                acc <= (limit - d as u64) / 10,
                d <= 9,
        ;
        acc = acc * 10 + d as u64;
        i = i + 1;
    }
    assert(b.take(s@.len() - from) =~= b);
    Some(acc)
}

/// Parses an unsigned number that fits in `u64`.
#[verifier::spinoff_prover]
#[verifier::rlimit(40)]
pub fn parse_u64(text: &str) -> (r: Option<u64>)
    ensures
        match r {
            Some(v) => parse_unsigned(text@) == Some(v as nat),
            None => parse_unsigned(text@) is None || parse_unsigned(text@)->0 > u64::MAX,
        },
{
    let cs = chars_of(text);
    let start: usize = if cs.len() > 0 && cs[0] == '+' {
        1
    } else {
        0
    };
    assert(unsigned_body(text@) =~= cs@.skip(start as int));
    if start == cs.len() {
        return None;
    }
    let mut i = start;
    while i < cs.len()
        invariant
            cs@ == text@,
            start <= i <= cs@.len(),
            unsigned_body(text@) == cs@.skip(start as int),
            forall|k: int| start <= k < i ==> is_digit(#[trigger] cs@[k]),
        decreases cs@.len() - i,
    {
        if !('0' <= cs[i] && cs[i] <= '9') {
            assert(unsigned_body(text@)[i - start] == cs@[i as int]);
            assert(!is_digit(unsigned_body(text@)[i - start]));
            return None;
        }
        i = i + 1;
    }
    assert(forall|k: int| 0 <= k < unsigned_body(text@).len() ==> #[trigger] unsigned_body(text@)[k]
        == cs@[k + start]);
    digits_up_to(cs.as_slice(), start, u64::MAX)
}

/// Parses a signed number that fits in `i64`.
#[verifier::spinoff_prover]
#[verifier::rlimit(40)]
pub fn parse_i64(text: &str) -> (r: Option<i64>)
    ensures
        match r {
            Some(v) => parse_signed(text@) == Some(v as int),
            None => parse_signed(text@) is None || parse_signed(text@)->0 > i64::MAX
                || parse_signed(text@)->0 < i64::MIN,
        },
{
    let cs = chars_of(text);
    if cs.len() > 0 && cs[0] == '-' {
        if cs.len() == 1 {
            return None;
        }
        let mut i: usize = 1;
        while i < cs.len()
            invariant
                cs@ == text@,
                cs@.len() > 1,
                cs@[0] == '-',
                1 <= i <= cs@.len(),
                forall|k: int| 1 <= k < i ==> is_digit(#[trigger] cs@[k]),
            decreases cs@.len() - i,
        {
            if !('0' <= cs[i] && cs[i] <= '9') {
                assert(cs@.drop_first()[i - 1] == cs@[i as int]);
                assert(!is_digit(cs@.drop_first()[i - 1]));
                return None;
            }
            i = i + 1;
        }
        assert(cs@.drop_first() =~= cs@.skip(1));
        match digits_up_to(cs.as_slice(), 1, 9223372036854775808u64) {
            Some(m) => {
                if m == 9223372036854775808u64 {
                    Some(i64::MIN)
                } else {
                    Some(0i64 - (m as i64))
                }
            },
            None => None,
        }
    } else {
        match parse_u64(text) {
            Some(v) => {
                if v > 9223372036854775807u64 {
                    None
                } else {
                    Some(v as i64)
                }
            },
            None => None,
        }
    }
}

/// The text after the prefix `p`, when `s` starts with it.
pub fn strip_prefix_str(s: &str, p: &str) -> (r: Option<String>)
    ensures
        r is Some <==> is_prefix(p@, s@),
        r matches Some(t) ==> t@ == s@.skip(p@.len() as int),
{
    let cs = chars_of(s);
    let ps = chars_of(p);
    if starts_with(cs.as_slice(), ps.as_slice()) {
        Some(string_from_range(cs.as_slice(), ps.len(), cs.len()))
    } else {
        None
    }
}

/// Trimming text that neither starts nor ends with white space, followed by
/// white space only, gives the text.
pub proof fn lemma_trim_padded(x: Seq<char>, w: Seq<char>)
    requires
        x.len() > 0,
        !is_white(x[0]),
        !is_white(x.last()),
        forall|i: int| 0 <= i < w.len() ==> #[trigger] is_white(w[i]),
    ensures
        trim_seq(x + w) == x,
{
    assert((x + w)[0] == x[0]);
    assert(leading_white(x + w) == 0);
    assert((x + w).subrange(0, (x + w).len() as int) =~= x + w);
    lemma_trailing_white_padded(x, w);
    assert((x + w).subrange(0, x.len() as int) =~= x);
}

proof fn lemma_trailing_white_padded(x: Seq<char>, w: Seq<char>)
    requires
        x.len() > 0,
        !is_white(x.last()),
        forall|i: int| 0 <= i < w.len() ==> #[trigger] is_white(w[i]),
    ensures
        trailing_white(x + w) == w.len(),
    decreases w.len(),
{
    if w.len() == 0 {
        assert(x + w =~= x);
    } else {
        assert((x + w).last() == w.last());
        assert((x + w).drop_last() =~= x + w.drop_last());
        lemma_trailing_white_padded(x, w.drop_last());
    }
}

/// The UTF-8 encoding of joined characters is the joined encodings.
pub proof fn lemma_encode_utf8_concat(a: Seq<char>, b: Seq<char>)
    ensures
        vstd::utf8::encode_utf8(a + b) == vstd::utf8::encode_utf8(a) + vstd::utf8::encode_utf8(b),
    decreases a.len(),
{
    if a.len() == 0 {
        assert(a + b =~= b);
        assert(vstd::utf8::encode_utf8(a) =~= Seq::<u8>::empty());
        assert(vstd::utf8::encode_utf8(a) + vstd::utf8::encode_utf8(b) =~= vstd::utf8::encode_utf8(b));
    } else {
        assert((a + b).drop_first() =~= a.drop_first() + b);
        assert((a + b)[0] == a[0]);
        lemma_encode_utf8_concat(a.drop_first(), b);
        assert(vstd::utf8::encode_utf8(a + b) =~= vstd::utf8::encode_scalar(a[0] as u32) + (
        vstd::utf8::encode_utf8(a.drop_first()) + vstd::utf8::encode_utf8(b)));
    }
}

/// The decimal notation of a number is made of digits and reads back as the
/// number.
pub proof fn lemma_decimal_digits_value(n: nat)
    ensures
        decimal(n).len() > 0,
        forall|i: int| 0 <= i < decimal(n).len() ==> is_digit(#[trigger] decimal(n)[i]),
        digits_value(decimal(n)) == n,
    decreases n,
{
    if n >= 10 {
        lemma_decimal_digits_value(n / 10);
        let d = decimal(n);
        assert(d.drop_last() =~= decimal(n / 10));
        assert(((d.last() as u32) - 48) as nat == n % 10);
        assert(digits_value(d) == digits_value(d.drop_last()) * 10 + ((d.last() as u32) - 48) as nat);
        assert(digits_value(d.drop_last()) == n / 10);
        assert((n / 10) * 10 + n % 10 == n) by (nonlinear_arith);
    } else {
        let d = decimal(n);
        assert(d.drop_last() =~= Seq::<char>::empty());
        assert(digits_value(d.drop_last()) == 0);
        assert(((d.last() as u32) - 48) as nat == n);
        assert(digits_value(d) == digits_value(d.drop_last()) * 10 + ((d.last() as u32) - 48) as nat);
    }
}

/// The signed decimal notation of a number reads back as the number.
pub proof fn lemma_parse_signed_decimal(x: int)
    ensures
        parse_signed(signed_decimal(x)) == Some(x),
{
    if x < 0 {
        let d = decimal((-x) as nat);
        lemma_decimal_digits_value((-x) as nat);
        assert((seq!['-'] + d).drop_first() =~= d);
    } else {
        lemma_decimal_digits_value(x as nat);
        let d = decimal(x as nat);
        assert(is_digit(d[0]));
        assert(unsigned_body(d) == d);
    }
}

/// `find_char` finds the first `c` at or after `from`.
pub proof fn lemma_find_char_at(s: Seq<char>, from: int, at: int, c: char)
    requires
        0 <= from <= at < s.len(),
        s[at] == c,
        forall|j: int| from <= j < at ==> s[j] != c,
    ensures
        find_char(s, from, c) == at,
    decreases at - from,
{
    if from < at {
        lemma_find_char_at(s, from + 1, at, c);
    }
}

/// Searching after a prefix is searching the rest.
proof fn lemma_find_char_shift(p: Seq<char>, m: Seq<char>, k: int, c: char)
    requires
        0 <= k,
    ensures
        find_char(p + m, p.len() + k, c) == p.len() + find_char(m, k, c),
    decreases m.len() - k,
{
    if k < m.len() {
        assert((p + m)[p.len() + k] == m[k]);
        if m[k] != c {
            lemma_find_char_shift(p, m, k + 1, c);
        }
    }
}

/// The lines after a prefix are the lines of the rest.
pub proof fn lemma_lines_from_shift(p: Seq<char>, m: Seq<char>, k: int)
    requires
        0 <= k,
    ensures
        lines_from(p + m, p.len() + k) == lines_from(m, k),
    decreases m.len() - k,
{
    if k < m.len() {
        lemma_find_char_shift(p, m, k, '\n');
        lemma_find_char(m, k, '\n');
        let j = find_char(m, k, '\n');
        if j < m.len() {
            assert((p + m).subrange(p.len() + k, p.len() + j) =~= m.subrange(k, j));
            lemma_lines_from_shift(p, m, j + 1);
        } else {
            assert((p + m).subrange(p.len() + k, (p + m).len() as int) =~= m.subrange(k, m.len() as int));
        }
    }
}

/// A line followed by `\n` is the first line of what starts with it.
pub proof fn lemma_lines_from_line(s: Seq<char>, at: int, a: Seq<char>)
    requires
        0 <= at,
        at + a.len() < s.len(),
        s.subrange(at, at + a.len()) == a,
        s[at + a.len()] == '\n',
        !a.contains('\n'),
        strip_cr(a) == a,
    ensures
        lines_from(s, at) == seq![a] + lines_from(s, at + a.len() + 1),
{
    assert forall|j: int| at <= j < at + a.len() implies s[j] != '\n' by {
        assert(s[j] == a[j - at]);
        if s[j] == '\n' {
            assert(a.contains('\n'));
        }
    }
    lemma_find_char_at(s, at, at + a.len(), '\n');
}

/// Joining a first line and further lines puts `\n` after the first.
pub proof fn lemma_join_prepend(x: Seq<char>, rest: Seq<Seq<char>>)
    requires
        rest.len() > 0,
    ensures
        join_lines(seq![x] + rest) == x + seq!['\n'] + join_lines(rest),
    decreases rest.len(),
{
    let all = seq![x] + rest;
    assert(all.last() == rest.last());
    if rest.len() == 1 {
        assert(all.drop_last() =~= seq![x]);
        assert(join_lines(seq![x]) == x);
        assert(join_lines(rest) == rest[0]);
        assert(join_lines(all) == join_lines(all.drop_last()) + seq!['\n'] + all.last());
    } else {
        assert(all.drop_last() =~= seq![x] + rest.drop_last());
        lemma_join_prepend(x, rest.drop_last());
        assert(join_lines(all) == join_lines(all.drop_last()) + seq!['\n'] + all.last());
        assert(join_lines(rest) == join_lines(rest.drop_last()) + seq!['\n'] + rest.last());
        assert(join_lines(all) =~= x + seq!['\n'] + join_lines(rest));
    }
}

/// Whether a text has no `\r` right before a `\n`, and does not end with `\n`.
pub open spec fn plain_lines(m: Seq<char>) -> bool {
    &&& forall|i: int| 0 < i < m.len() && #[trigger] m[i] == '\n' ==> m[i - 1] != '\r'
    &&& (m.len() == 0 || m.last() != '\n')
}

/// Joining the lines of a text that has no `\r\n` and does not end with a
/// line feed gives the text back.
pub proof fn lemma_join_lines_of(m: Seq<char>)
    requires
        plain_lines(m),
    ensures
        join_lines(lines_of(m)) == m,
{
    lemma_join_lines_from(m, 0);
    assert(m.subrange(0, m.len() as int) =~= m);
}

proof fn lemma_join_lines_from(m: Seq<char>, at: int)
    requires
        plain_lines(m),
        0 <= at <= m.len(),
    ensures
        join_lines(lines_from(m, at)) == m.subrange(at, m.len() as int),
    decreases m.len() - at,
{
    if at < m.len() {
        lemma_find_char(m, at, '\n');
        let j = find_char(m, at, '\n');
        if j < m.len() {
            lemma_join_step(m, at, j);
            lemma_join_lines_from(m, j + 1);
            let x = m.subrange(at, j);
            assert(m.subrange(at, m.len() as int) =~= x + seq!['\n'] + m.subrange(
                j + 1,
                m.len() as int,
            ));
        } else {
            assert(lines_from(m, at) == seq![m.subrange(at, m.len() as int)]);
        }
    } else {
        assert(m.subrange(at, m.len() as int) =~= Seq::<char>::empty());
    }
}

/// One step of reading lines: the line up to the `\n` at `j`, then the rest.
proof fn lemma_join_step(m: Seq<char>, at: int, j: int)
    requires
        plain_lines(m),
        0 <= at <= j < m.len(),
        m[j] == '\n',
        j == find_char(m, at, '\n'),
    ensures
        j + 1 < m.len(),
        lines_from(m, at) == seq![m.subrange(at, j)] + lines_from(m, j + 1),
        join_lines(lines_from(m, at)) == m.subrange(at, j) + seq!['\n'] + join_lines(
            lines_from(m, j + 1),
        ),
{
    assert(j + 1 < m.len()) by {
        if j + 1 == m.len() {
            assert(m.last() == '\n');
        }
    }
    let x = m.subrange(at, j);
    assert(strip_cr(x) == x) by {
        if x.len() > 0 {
            assert(x.last() == m[j - 1]);
            assert(m[j - 1] != '\r');
        }
    }
    lemma_lines_from_nonempty(m, j + 1);
    lemma_join_prepend(x, lines_from(m, j + 1));
}

proof fn lemma_lines_from_nonempty(m: Seq<char>, at: int)
    requires
        0 <= at < m.len(),
    ensures
        lines_from(m, at).len() > 0,
{
    lemma_find_char(m, at, '\n');
}

/// Whether a line can be written and read back: it holds no line feed and
/// does not end with a carriage return.
pub open spec fn plain_line(a: Seq<char>) -> bool {
    !a.contains('\n') && strip_cr(a) == a
}

/// Lines joined, then `\n` and more text, read back as the lines followed by
/// the lines of the text.
pub proof fn lemma_lines_of_joined(hs: Seq<Seq<char>>, tail: Seq<char>)
    requires
        hs.len() > 0,
        forall|i: int| 0 <= i < hs.len() ==> plain_line(#[trigger] hs[i]),
    ensures
        lines_of(join_lines(hs) + seq!['\n'] + tail) == hs + lines_of(tail),
    decreases hs.len(),
{
    let h = hs.last();
    assert(plain_line(hs[hs.len() - 1]));
    let t2 = h + seq!['\n'] + tail;
    assert(t2.subrange(0, h.len() as int) =~= h);
    lemma_lines_from_line(t2, 0, h);
    assert(t2 =~= (h + seq!['\n']) + tail);
    lemma_lines_from_shift(h + seq!['\n'], tail, 0);
    assert(lines_of(t2) == seq![h] + lines_of(tail));
    if hs.len() == 1 {
        assert(join_lines(hs) == h);
        assert(hs + lines_of(tail) =~= seq![h] + lines_of(tail));
    } else {
        let init = hs.drop_last();
        assert forall|i: int| 0 <= i < init.len() implies plain_line(#[trigger] init[i]) by {
            assert(init[i] == hs[i]);
        }
        lemma_lines_of_joined(init, t2);
        assert(join_lines(hs) + seq!['\n'] + tail =~= join_lines(init) + seq!['\n'] + t2);
        assert(hs + lines_of(tail) =~= init + (seq![h] + lines_of(tail)));
    }
}

/// A character that neither part holds is not in the two joined.
pub proof fn lemma_concat_lacks(a: Seq<char>, b: Seq<char>, c: char)
    requires
        !a.contains(c),
        !b.contains(c),
    ensures
        !(a + b).contains(c),
{
    assert forall|i: int| 0 <= i < (a + b).len() implies (a + b)[i] != c by {
        if i < a.len() {
            assert((a + b)[i] == a[i]);
        } else {
            assert((a + b)[i] == b[i - a.len()]);
        }
    }
}

/// The signed decimal notation is a `-` or digits, and ends with a digit.
pub proof fn lemma_signed_decimal_chars(x: int)
    ensures
        signed_decimal(x).len() > 0,
        is_digit(signed_decimal(x).last()),
        forall|i: int|
            0 <= i < signed_decimal(x).len() ==> #[trigger] signed_decimal(x)[i] == '-' || is_digit(
                signed_decimal(x)[i],
            ),
{
    if x < 0 {
        lemma_decimal_digits_value((-x) as nat);
        let d = decimal((-x) as nat);
        assert forall|i: int| 0 <= i < signed_decimal(x).len() implies #[trigger] signed_decimal(
            x,
        )[i] == '-' || is_digit(signed_decimal(x)[i]) by {
            if i > 0 {
                assert(signed_decimal(x)[i] == d[i - 1]);
            }
        }
        assert(signed_decimal(x).last() == d.last());
        assert(is_digit(d[d.len() - 1]));
    } else {
        lemma_decimal_digits_value(x as nat);
        let d = decimal(x as nat);
        assert(is_digit(d[d.len() - 1]));
    }
}

} // verus!

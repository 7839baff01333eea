//! Character-level text handling: the model of a piece of text is the
//! sequence of its Unicode scalar values (`Seq<char>`), the same as the view
//! of `str` and `String`.
use vstd::prelude::*;

verus! {

// ---------------------------------------------------------------------------
// Character classes
// ---------------------------------------------------------------------------

/// Unicode `White_Space`, the property that `char::is_whitespace` tests and
/// that `str::trim` removes.
pub open spec fn is_ws(c: char) -> bool {
    let n = c as u32;
    ||| 0x09 <= n <= 0x0d
    ||| n == 0x20
    ||| n == 0x85
    ||| n == 0xa0
    ||| n == 0x1680
    ||| 0x2000 <= n <= 0x200a
    ||| n == 0x2028
    ||| n == 0x2029
    ||| n == 0x202f
    ||| n == 0x205f
    ||| n == 0x3000
}

pub fn is_ws_exec(c: char) -> (r: bool)
    ensures
        r == is_ws(c),
{
    let n = c as u32;
    (0x09 <= n && n <= 0x0d) || n == 0x20 || n == 0x85 || n == 0xa0 || n == 0x1680 || (0x2000
        <= n && n <= 0x200a) || n == 0x2028 || n == 0x2029 || n == 0x202f || n == 0x205f || n
        == 0x3000
}

/// An ASCII hexadecimal digit.
pub open spec fn is_hex(c: char) -> bool {
    ||| '0' <= c <= '9'
    ||| 'a' <= c <= 'f'
    ||| 'A' <= c <= 'F'
}

pub fn is_hex_exec(c: char) -> (r: bool)
    ensures
        r == is_hex(c),
{
    ('0' <= c && c <= '9') || ('a' <= c && c <= 'f') || ('A' <= c && c <= 'F')
}

pub open spec fn all_hex(s: Seq<char>) -> bool {
    forall|i: int| 0 <= i < s.len() ==> is_hex(#[trigger] s[i])
}

pub fn all_hex_exec(s: &[char]) -> (r: bool)
    ensures
        r == all_hex(s@),
{
    let mut i: usize = 0;
    while i < s.len()
        invariant
            i <= s@.len(),
            forall|j: int| 0 <= j < i ==> is_hex(#[trigger] s@[j]),
        decreases s@.len() - i,
    {
        if !is_hex_exec(s[i]) {
            return false;
        }
        i = i + 1;
    }
    true
}

/// `char::to_ascii_lowercase`.
pub open spec fn ascii_lower(c: char) -> char {
    if 'A' <= c <= 'Z' {
        ((c as u32) + 32) as char
    } else {
        c
    }
}

/// `char::to_ascii_uppercase`.
pub open spec fn ascii_upper(c: char) -> char {
    if 'a' <= c <= 'z' {
        ((c as u32) - 32) as char
    } else {
        c
    }
}

pub open spec fn lower_ascii(s: Seq<char>) -> Seq<char> {
    s.map_values(|c: char| ascii_lower(c))
}

pub open spec fn upper_ascii(s: Seq<char>) -> Seq<char> {
    s.map_values(|c: char| ascii_upper(c))
}

fn ascii_lower_exec(c: char) -> (r: char)
    ensures
        r == ascii_lower(c),
{
    if 'A' <= c && c <= 'Z' {
        let n = (c as u32) + 32;
        assert(0x61 <= n <= 0x7a);
        char_of_ascii(n)
    } else {
        c
    }
}

fn ascii_upper_exec(c: char) -> (r: char)
    ensures
        r == ascii_upper(c),
{
    if 'a' <= c && c <= 'z' {
        let n = (c as u32) - 32;
        char_of_ascii(n)
    } else {
        c
    }
}

fn char_of_ascii(n: u32) -> (r: char)
    requires
        n < 0x80,
    ensures
        r == n as char,
{
    let b = n as u8;
    b as char
}

pub fn lower_ascii_exec(s: &[char]) -> (r: Vec<char>)
    ensures
        r@ == lower_ascii(s@),
{
    let mut r: Vec<char> = Vec::new();
    let mut i: usize = 0;
    while i < s.len()
        invariant
            i <= s@.len(),
            r@ == lower_ascii(s@.take(i as int)),
        decreases s@.len() - i,
    {
        r.push(ascii_lower_exec(s[i]));
        assert(s@.take(i + 1) == s@.take(i as int).push(s@[i as int]));
        i = i + 1;
    }
    assert(s@.take(i as int) == s@);
    r
}

pub fn upper_ascii_exec(s: &[char]) -> (r: Vec<char>)
    ensures
        r@ == upper_ascii(s@),
{
    let mut r: Vec<char> = Vec::new();
    let mut i: usize = 0;
    while i < s.len()
        invariant
            i <= s@.len(),
            r@ == upper_ascii(s@.take(i as int)),
        decreases s@.len() - i,
    {
        r.push(ascii_upper_exec(s[i]));
        assert(s@.take(i + 1) == s@.take(i as int).push(s@[i as int]));
        i = i + 1;
    }
    assert(s@.take(i as int) == s@);
    r
}

// ---------------------------------------------------------------------------
// Trimming
// ---------------------------------------------------------------------------

/// The characters that a trimming operation removes.
pub enum Strip {
    Whitespace,
    Bom,
    Star,
    Slash,
    Quote,
    QuoteOrComma,
}

pub open spec fn strips(k: Strip, c: char) -> bool {
    match k {
        Strip::Whitespace => is_ws(c),
        Strip::Bom => c == '\u{feff}',
        Strip::Star => c == '*',
        Strip::Slash => c == '/',
        Strip::Quote => c == '"',
        Strip::QuoteOrComma => c == '"' || c == ',',
    }
}

fn strips_exec(k: &Strip, c: char) -> (r: bool)
    ensures
        r == strips(*k, c),
{
    match k {
        Strip::Whitespace => is_ws_exec(c),
        Strip::Bom => c == '\u{feff}',
        Strip::Star => c == '*',
        Strip::Slash => c == '/',
        Strip::Quote => c == '"',
        Strip::QuoteOrComma => c == '"' || c == ',',
    }
}

/// `s` without its leading characters of class `k` (`trim_start_matches`).
pub open spec fn strip_start(s: Seq<char>, k: Strip) -> Seq<char>
    decreases s.len(),
{
    if s.len() > 0 && strips(k, s[0]) {
        strip_start(s.drop_first(), k)
    } else {
        s
    }
}

/// `s` without its trailing characters of class `k` (`trim_end_matches`).
pub open spec fn strip_end(s: Seq<char>, k: Strip) -> Seq<char>
    decreases s.len(),
{
    if s.len() > 0 && strips(k, s.last()) {
        strip_end(s.drop_last(), k)
    } else {
        s
    }
}

/// `s` without the characters of class `k` at either end (`trim_matches`).
pub open spec fn strip_both(s: Seq<char>, k: Strip) -> Seq<char> {
    strip_end(strip_start(s, k), k)
}

/// `str::trim`.
pub open spec fn trim(s: Seq<char>) -> Seq<char> {
    strip_both(s, Strip::Whitespace)
}

pub fn strip_start_exec<'a>(s: &'a [char], k: Strip) -> (r: &'a [char])
    ensures
        r@ == strip_start(s@, k),
{
    let mut i: usize = 0;
    assert(s@.skip(0) == s@);
    while i < s.len() && strips_exec(&k, s[i])
        invariant
            i <= s@.len(),
            strip_start(s@, k) == strip_start(s@.skip(i as int), k),
        decreases s@.len() - i,
    {
        assert(s@.skip(i as int).drop_first() == s@.skip(i + 1));
        i = i + 1;
    }
    &s[i..s.len()]
}

pub fn strip_end_exec<'a>(s: &'a [char], k: Strip) -> (r: &'a [char])
    ensures
        r@ == strip_end(s@, k),
{
    let mut j: usize = s.len();
    assert(s@.take(j as int) == s@);
    while j > 0 && strips_exec(&k, s[j - 1])
        invariant
            j <= s@.len(),
            strip_end(s@, k) == strip_end(s@.take(j as int), k),
        decreases j,
    {
        assert(s@.take(j as int).drop_last() == s@.take(j - 1));
        j = j - 1;
    }
    &s[0..j]
}

pub fn strip_both_exec<'a>(s: &'a [char], k: Strip) -> (r: &'a [char])
    ensures
        r@ == strip_both(s@, k),
{
    let k2 = match k {
        Strip::Whitespace => Strip::Whitespace,
        Strip::Bom => Strip::Bom,
        Strip::Star => Strip::Star,
        Strip::Slash => Strip::Slash,
        Strip::Quote => Strip::Quote,
        Strip::QuoteOrComma => Strip::QuoteOrComma,
    };
    strip_end_exec(strip_start_exec(s, k), k2)
}

pub fn trim_exec<'a>(s: &'a [char]) -> (r: &'a [char])
    ensures
        r@ == trim(s@),
{
    strip_both_exec(s, Strip::Whitespace)
}

/// `strip_start` drops a run of leading characters of class `k`: `n` of them,
/// where the next one, if any, is not of that class.
pub proof fn lemma_strip_start(s: Seq<char>, k: Strip) -> (n: int)
    ensures
        0 <= n <= s.len(),
        strip_start(s, k) == s.skip(n),
        forall|i: int| 0 <= i < n ==> strips(k, #[trigger] s[i]),
        n < s.len() ==> !strips(k, s[n]),
    decreases s.len(),
{
    if s.len() > 0 && strips(k, s[0]) {
        let m = lemma_strip_start(s.drop_first(), k);
        assert(s.drop_first().skip(m) =~= s.skip(m + 1));
        assert forall|i: int| 0 <= i < m + 1 implies strips(k, #[trigger] s[i]) by {
            if i > 0 {
                assert(s[i] == s.drop_first()[i - 1]);
            }
        }
        m + 1
    } else {
        assert(s.skip(0) =~= s);
        0
    }
}

/// `strip_end` keeps the first `m` characters, where the characters after
/// them are of class `k` and the last one kept, if any, is not.
pub proof fn lemma_strip_end(s: Seq<char>, k: Strip) -> (m: int)
    ensures
        0 <= m <= s.len(),
        strip_end(s, k) == s.take(m),
        forall|i: int| m <= i < s.len() ==> strips(k, #[trigger] s[i]),
        m > 0 ==> !strips(k, s[m - 1]),
    decreases s.len(),
{
    if s.len() > 0 && strips(k, s.last()) {
        let m = lemma_strip_end(s.drop_last(), k);
        assert(s.drop_last().take(m) =~= s.take(m));
        assert forall|i: int| m <= i < s.len() implies strips(k, #[trigger] s[i]) by {
            if i < s.len() - 1 {
                assert(s[i] == s.drop_last()[i]);
            }
        }
        m
    } else {
        assert(s.take(s.len() as int) =~= s);
        s.len() as int
    }
}

/// `trim` keeps the range `a..b` of the text: whitespace stands before and
/// after it, and the range neither starts nor ends with whitespace.
pub proof fn lemma_trim(s: Seq<char>) -> (ab: (int, int))
    ensures
        0 <= ab.0 <= ab.1 <= s.len(),
        trim(s) == s.subrange(ab.0, ab.1),
        forall|i: int| 0 <= i < ab.0 ==> is_ws(#[trigger] s[i]),
        forall|i: int| ab.1 <= i < s.len() ==> is_ws(#[trigger] s[i]),
        ab.0 < ab.1 ==> !is_ws(s[ab.0]) && !is_ws(s[ab.1 - 1]),
{
    let n = lemma_strip_start(s, Strip::Whitespace);
    let t = s.skip(n);
    let m = lemma_strip_end(t, Strip::Whitespace);
    assert(t.take(m) =~= s.subrange(n, n + m));
    assert forall|i: int| n + m <= i < s.len() implies is_ws(#[trigger] s[i]) by {
        assert(s[i] == t[i - n]);
        assert(strips(Strip::Whitespace, t[i - n]));
    }
    if m > 0 {
        assert(s[n + m - 1] == t[m - 1]);
    }
    (n, n + m)
}

/// A text that neither starts nor ends with whitespace is its own trim.
pub proof fn lemma_trim_fixed(s: Seq<char>)
    requires
        s.len() > 0 ==> !is_ws(s[0]) && !is_ws(s.last()),
    ensures
        trim(s) == s,
{
}

/// Trimming twice trims no more than once; a trimmed text neither starts nor
/// ends with whitespace.
pub proof fn lemma_trim_trimmed(s: Seq<char>)
    ensures
        trim(trim(s)) == trim(s),
        trim(s).len() > 0 ==> !is_ws(trim(s)[0]) && !is_ws(trim(s).last()),
        text_within(trim(s), s),
{
    lemma_trim(s);
    lemma_trim_fixed(trim(s));
}

/// `x` stands somewhere in `s`, as a run of consecutive characters.
pub open spec fn text_within(x: Seq<char>, s: Seq<char>) -> bool {
    exists|i: int, j: int| 0 <= i <= j <= s.len() && #[trigger] s.subrange(i, j) == x
}

pub proof fn lemma_within_subrange(s: Seq<char>, i: int, j: int)
    requires
        0 <= i <= j <= s.len(),
    ensures
        text_within(s.subrange(i, j), s),
{
}

pub proof fn lemma_within_trans(x: Seq<char>, y: Seq<char>, z: Seq<char>)
    requires
        text_within(x, y),
        text_within(y, z),
    ensures
        text_within(x, z),
{
    let (i, j) = choose|i: int, j: int| 0 <= i <= j <= y.len() && #[trigger] y.subrange(i, j) == x;
    let (a, b) = choose|a: int, b: int| 0 <= a <= b <= z.len() && #[trigger] z.subrange(a, b) == y;
    assert(z.subrange(a + i, a + j) =~= x);
}

// ---------------------------------------------------------------------------
// Searching
// ---------------------------------------------------------------------------

/// The first index at or after `i` where `c` occurs.
pub open spec fn find_char_from(s: Seq<char>, c: char, i: int) -> Option<int>
    decreases s.len() - i,
{
    if i < 0 || i >= s.len() {
        None
    } else if s[i] == c {
        Some(i)
    } else {
        find_char_from(s, c, i + 1)
    }
}

/// `str::find` with a character: the first index where `c` occurs.
pub open spec fn find_char(s: Seq<char>, c: char) -> Option<int> {
    find_char_from(s, c, 0)
}

pub proof fn lemma_find_char_from(s: Seq<char>, c: char, i: int)
    requires
        0 <= i,
    ensures
        find_char_from(s, c, i) matches Some(k) ==> i <= k < s.len() && s[k] == c && forall|
            j: int,
        | i <= j < k ==> s[j] != c,
        find_char_from(s, c, i) is None ==> forall|j: int| i <= j < s.len() ==> s[j] != c,
    decreases s.len() - i,
{
    if i < s.len() && s[i] != c {
        lemma_find_char_from(s, c, i + 1);
    }
}

pub fn find_char_exec(s: &[char], c: char) -> (r: Option<usize>)
    ensures
        match r {
            Some(k) => find_char(s@, c) == Some(k as int),
            None => find_char(s@, c) is None,
        },
{
    let mut i: usize = 0;
    while i < s.len()
        invariant
            i <= s@.len(),
            find_char(s@, c) == find_char_from(s@, c, i as int),
        decreases s@.len() - i,
    {
        if s[i] == c {
            return Some(i);
        }
        i = i + 1;
    }
    None
}

/// Whether `n` occurs in `h` at index `i`.
pub open spec fn occurs_at(h: Seq<char>, n: Seq<char>, i: int) -> bool {
    0 <= i && i + n.len() <= h.len() && h.subrange(i, i + n.len()) == n
}

/// The first index at or after `i` where `n` occurs in `h`.
pub open spec fn find_sub_from(h: Seq<char>, n: Seq<char>, i: int) -> Option<int>
    decreases h.len() + 1 - i,
{
    if i < 0 || i > h.len() || i + n.len() > h.len() {
        None
    } else if occurs_at(h, n, i) {
        Some(i)
    } else {
        find_sub_from(h, n, i + 1)
    }
}

/// `str::find` with a pattern string: the first index where `n` occurs.
pub open spec fn find_sub(h: Seq<char>, n: Seq<char>) -> Option<int> {
    find_sub_from(h, n, 0)
}

/// `str::contains`.
pub open spec fn contains_sub(h: Seq<char>, n: Seq<char>) -> bool {
    find_sub(h, n) is Some
}

pub proof fn lemma_find_sub_from(h: Seq<char>, n: Seq<char>, i: int)
    requires
        0 <= i,
    ensures
        find_sub_from(h, n, i) matches Some(k) ==> i <= k && occurs_at(h, n, k) && forall|j: int|
            i <= j < k ==> !occurs_at(h, n, j),
        find_sub_from(h, n, i) is None ==> forall|j: int| i <= j ==> !occurs_at(h, n, j),
    decreases h.len() + 1 - i,
{
    if i + n.len() <= h.len() && !occurs_at(h, n, i) {
        lemma_find_sub_from(h, n, i + 1);
    }
}

fn occurs_at_exec(h: &[char], n: &[char], i: usize) -> (r: bool)
    ensures
        r == occurs_at(h@, n@, i as int),
{
    if i > h.len() || n.len() > h.len() - i {
        return false;
    }
    let mut j: usize = 0;
    while j < n.len()
        invariant
            i + n@.len() <= h@.len(),
            h@.len() <= usize::MAX,
            j <= n@.len(),
            forall|t: int| 0 <= t < j ==> h@[i + t] == n@[t],
        decreases n@.len() - j,
    {
        if h[i + j] != n[j] {
            assert(h@.subrange(i as int, i + n@.len())[j as int] != n@[j as int]);
            return false;
        }
        j = j + 1;
    }
    assert(h@.subrange(i as int, i + n@.len()) == n@);
    true
}

pub fn find_sub_exec(h: &[char], n: &[char]) -> (r: Option<usize>)
    ensures
        match r {
            Some(k) => find_sub(h@, n@) == Some(k as int),
            None => find_sub(h@, n@) is None,
        },
{
    if n.len() > h.len() {
        return None;
    }
    let last = h.len() - n.len();
    let mut i: usize = 0;
    loop
        invariant
            i <= last,
            last + n@.len() == h@.len(),
            find_sub(h@, n@) == find_sub_from(h@, n@, i as int),
        decreases last - i,
    {
        if occurs_at_exec(h, n, i) {
            return Some(i);
        }
        if i == last {
            assert(find_sub_from(h@, n@, i + 1) is None);
            return None;
        }
        i = i + 1;
    }
}

pub fn contains_exec(h: &[char], n: &[char]) -> (r: bool)
    ensures
        r == contains_sub(h@, n@),
{
    find_sub_exec(h, n).is_some()
}

/// `str::starts_with`.
pub open spec fn starts_with(s: Seq<char>, p: Seq<char>) -> bool {
    p.len() <= s.len() && s.take(p.len() as int) == p
}

/// `str::ends_with`.
pub open spec fn ends_with(s: Seq<char>, p: Seq<char>) -> bool {
    p.len() <= s.len() && s.skip(s.len() - p.len()) == p
}

pub fn starts_with_exec(s: &[char], p: &[char]) -> (r: bool)
    ensures
        r == starts_with(s@, p@),
{
    if p.len() > s.len() {
        return false;
    }
    let r = occurs_at_exec(s, p, 0);
    assert(s@.subrange(0, p@.len() as int) == s@.take(p@.len() as int));
    r
}

pub fn ends_with_exec(s: &[char], p: &[char]) -> (r: bool)
    ensures
        r == ends_with(s@, p@),
{
    if p.len() > s.len() {
        return false;
    }
    let r = occurs_at_exec(s, p, s.len() - p.len());
    assert(s@.subrange(s@.len() - p@.len(), s@.len() as int) == s@.skip(s@.len() - p@.len()));
    r
}

pub fn seq_eq_exec(a: &[char], b: &[char]) -> (r: bool)
    ensures
        r == (a@ == b@),
{
    if a.len() != b.len() {
        return false;
    }
    let r = occurs_at_exec(a, b, 0);
    assert(a@.subrange(0, b@.len() as int) == a@);
    r
}

/// The first index at or after `i` holding a whitespace character.
pub open spec fn find_ws_from(s: Seq<char>, i: int) -> Option<int>
    decreases s.len() - i,
{
    if i < 0 || i >= s.len() {
        None
    } else if is_ws(s[i]) {
        Some(i)
    } else {
        find_ws_from(s, i + 1)
    }
}

/// The first index holding a whitespace character.
pub open spec fn find_ws(s: Seq<char>) -> Option<int> {
    find_ws_from(s, 0)
}

pub proof fn lemma_find_ws_from(s: Seq<char>, i: int)
    requires
        0 <= i,
    ensures
        find_ws_from(s, i) matches Some(k) ==> i <= k < s.len() && is_ws(s[k]) && forall|j: int|
            i <= j < k ==> !is_ws(s[j]),
        find_ws_from(s, i) is None ==> forall|j: int| i <= j < s.len() ==> !is_ws(s[j]),
    decreases s.len() - i,
{
    if i < s.len() && !is_ws(s[i]) {
        lemma_find_ws_from(s, i + 1);
    }
}

pub fn find_ws_exec(s: &[char]) -> (r: Option<usize>)
    ensures
        match r {
            Some(k) => find_ws(s@) == Some(k as int),
            None => find_ws(s@) is None,
        },
{
    let mut i: usize = 0;
    while i < s.len()
        invariant
            i <= s@.len(),
            find_ws(s@) == find_ws_from(s@, i as int),
        decreases s@.len() - i,
    {
        if is_ws_exec(s[i]) {
            return Some(i);
        }
        i = i + 1;
    }
    None
}

/// The first item of `str::split_whitespace`, or the empty text when there
/// is none.
pub open spec fn first_token(s: Seq<char>) -> Seq<char> {
    let t = strip_start(s, Strip::Whitespace);
    match find_ws(t) {
        Some(j) => t.take(j),
        None => t,
    }
}

pub fn first_token_exec<'a>(s: &'a [char]) -> (r: &'a [char])
    ensures
        r@ == first_token(s@),
{
    let t = strip_start_exec(s, Strip::Whitespace);
    match find_ws_exec(t) {
        Some(j) => {
            proof {
                lemma_find_ws_from(t@, 0);
            }
            &t[0..j]
        },
        None => t,
    }
}

/// Every character of `s` is `c`.
pub open spec fn all_are(s: Seq<char>, c: char) -> bool {
    forall|i: int| 0 <= i < s.len() ==> #[trigger] s[i] == c
}

pub fn all_are_exec(s: &[char], c: char) -> (r: bool)
    ensures
        r == all_are(s@, c),
{
    let mut i: usize = 0;
    while i < s.len()
        invariant
            i <= s@.len(),
            forall|j: int| 0 <= j < i ==> #[trigger] s@[j] == c,
        decreases s@.len() - i,
    {
        if s[i] != c {
            return false;
        }
        i = i + 1;
    }
    true
}

// ---------------------------------------------------------------------------
// Lines
// ---------------------------------------------------------------------------

/// A line without the carriage return of a CRLF line ending.
pub open spec fn strip_cr(l: Seq<char>) -> Seq<char> {
    if l.len() > 0 && l.last() == '\r' {
        l.drop_last()
    } else {
        l
    }
}

/// The first line of a non-empty text, as `str::lines` yields it, and the text
/// after that line's ending.
pub open spec fn first_line(s: Seq<char>) -> (Seq<char>, Seq<char>) {
    match find_char(s, '\n') {
        Some(i) => (strip_cr(s.take(i)), s.skip(i + 1)),
        None => (s, Seq::empty()),
    }
}

/// `str::lines`.
pub open spec fn lines(s: Seq<char>) -> Seq<Seq<char>>
    decreases s.len(),
{
    if s.len() == 0 {
        Seq::empty()
    } else {
        proof {
            lemma_first_line_shorter(s);
        }
        seq![first_line(s).0] + lines(first_line(s).1)
    }
}

pub proof fn lemma_first_line_shorter(s: Seq<char>)
    requires
        s.len() > 0,
    ensures
        first_line(s).1.len() < s.len(),
{
    lemma_find_char_from(s, '\n', 0);
}

/// Every line of a text stands in the text.
pub proof fn lemma_lines_within(s: Seq<char>)
    ensures
        forall|i: int| 0 <= i < lines(s).len() ==> text_within(#[trigger] lines(s)[i], s),
    decreases s.len(),
{
    if s.len() > 0 {
        lemma_find_char_from(s, '\n', 0);
        lemma_first_line_shorter(s);
        let l = first_line(s).0;
        let r = first_line(s).1;
        match find_char(s, '\n') {
            Some(i) => {
                if i > 0 && s.take(i).last() == '\r' {
                    assert(l =~= s.subrange(0, i - 1));
                } else {
                    assert(l =~= s.subrange(0, i));
                }
                assert(r =~= s.subrange(i + 1, s.len() as int));
            },
            None => {
                assert(l =~= s.subrange(0, s.len() as int));
                assert(r =~= s.subrange(s.len() as int, s.len() as int));
            },
        }
        lemma_lines_within(r);
        assert forall|i: int| 0 <= i < lines(s).len() implies text_within(#[trigger] lines(s)[i], s) by {
            if i == 0 {
                assert(lines(s)[0] == l);
            } else {
                assert(lines(s)[i] == lines(r)[i - 1]);
                lemma_within_trans(lines(s)[i], r, s);
            }
        }
    }
}

/// Splits a non-empty text at the end of its first line: the line, as a
/// range of the text, and the index where the rest of the text starts.
pub fn first_line_exec(s: &[char]) -> (r: (usize, usize, usize))
    requires
        s@.len() > 0,
    ensures
        r.0 <= r.1 <= r.2 <= s@.len(),
        r.2 > 0,
        s@.subrange(r.0 as int, r.1 as int) == first_line(s@).0,
        s@.skip(r.2 as int) == first_line(s@).1,
{
    proof {
        lemma_find_char_from(s@, '\n', 0);
    }
    match find_char_exec(s, '\n') {
        Some(i) => {
            let end = if i > 0 && s[i - 1] == '\r' {
                i - 1
            } else {
                i
            };
            assert(s@.subrange(0, end as int) == first_line(s@).0);
            (0, end, i + 1)
        },
        None => {
            assert(s@.subrange(0, s@.len() as int) == s@);
            assert(s@.skip(s@.len() as int) == Seq::<char>::empty());
            (0, s.len(), s.len())
        },
    }
}

// ---------------------------------------------------------------------------
// Conversions between `str`/`String` and character vectors
// ---------------------------------------------------------------------------

/// The characters of a string slice, as a vector.
pub fn chars_of(s: &str) -> (r: Vec<char>)
    ensures
        r@ == s@,
{
    let mut r: Vec<char> = Vec::new();
    for c in it: s.chars()
        invariant
            r@ == it.seq().take(it.index() as int),
            it.seq() == s@,
    {
        r.push(c);
    }
    r
}

/// `String::push`: appends one character.
#[verifier::external_body]
fn push_char(s: &mut String, c: char)
    ensures
        final(s)@ == old(s)@.push(c),
{
    s.push(c);
}

/// A `String` holding the given characters.
pub fn string_of(s: &[char]) -> (r: String)
    ensures
        r@ == s@,
{
    let mut r = String::new();
    let mut i: usize = 0;
    while i < s.len()
        invariant
            i <= s@.len(),
            r@ == s@.take(i as int),
        decreases s@.len() - i,
    {
        push_char(&mut r, s[i]);
        assert(s@.take(i + 1) == s@.take(i as int).push(s@[i as int]));
        i = i + 1;
    }
    assert(s@.take(i as int) == s@);
    r
}

/// What `str::to_lowercase` returns for a text: its lowercase form under the
/// Unicode `Lowercase` mapping, which may change the number of characters.
pub uninterp spec fn lowercase(s: Seq<char>) -> Seq<char>;

/// A character whose lowercase form Unicode gives by a simple rule: the
/// ASCII and Latin-1 characters, the CJK symbols and punctuation, the kana,
/// the CJK unified ideographs, and U+FEFF.
pub open spec fn simple_case(c: char) -> bool {
    let n = c as u32;
    ||| n < 0x100
    ||| 0x3000 <= n <= 0x30ff
    ||| 0x4e00 <= n <= 0x9fff
    ||| n == 0xfeff
}

/// The lowercase form of a character of `simple_case`: `A`-`Z` and the
/// Latin-1 capitals `À`-`Þ` (but `×`) move to their small letters; the
/// others stay.
pub open spec fn simple_lower(c: char) -> char {
    let n = c as u32;
    if ('A' <= c <= 'Z') || (0xc0 <= n <= 0xde && n != 0xd7) {
        (n + 32) as char
    } else {
        c
    }
}

/// Every character of the text is of `simple_case`.
pub open spec fn is_simple_text(s: Seq<char>) -> bool {
    forall|i: int| 0 <= i < s.len() ==> simple_case(#[trigger] s[i])
}

pub open spec fn lower_simple(s: Seq<char>) -> Seq<char> {
    s.map_values(|c: char| simple_lower(c))
}

/// Calls `str::to_lowercase`. The result is the named value `lowercase` of
/// the characters; it depends on them alone (not on a locale). Where every
/// character is of `simple_case`, the mapping is character by character and
/// `simple_lower` gives it (none of these characters has a lowercase form of
/// several characters or one that depends on its neighbours). What it does
/// to other characters is left unsaid.
#[verifier::external_body]
pub(crate) fn to_lowercase(s: &[char]) -> (r: Vec<char>)
    ensures
        r@ == lowercase(s@),
        is_simple_text(s@) ==> r@ == lower_simple(s@),
{
    let text: String = s.iter().collect();
    text.to_lowercase().chars().collect()
}

/// The lowercase form of a text: by `simple_lower` where every character is
/// of `simple_case`, by the Unicode mapping (`lowercase`) otherwise.
pub open spec fn to_lower(s: Seq<char>) -> Seq<char> {
    if is_simple_text(s) {
        lower_simple(s)
    } else {
        lowercase(s)
    }
}

/// The lowercase form of a text, as `str::to_lowercase` gives it.
pub fn lower_text(s: &[char]) -> (r: Vec<char>)
    ensures
        r@ == to_lower(s@),
{
    to_lowercase(s)
}

/// The characters of an optional character vector.
pub open spec fn opt_chars(o: Option<Vec<char>>) -> Option<Seq<char>> {
    match o {
        Some(v) => Some(v@),
        None => None,
    }
}

/// The character sequences of a list of character vectors.
pub open spec fn seqs_of(v: Seq<Vec<char>>) -> Seq<Seq<char>> {
    v.map_values(|x: Vec<char>| x@)
}

// ---------------------------------------------------------------------------
// Splitting at a character
// ---------------------------------------------------------------------------

/// `str::split` with a character: the pieces between occurrences of `c`.
pub open spec fn split_char(s: Seq<char>, c: char) -> Seq<Seq<char>>
    decreases s.len(),
{
    match find_char(s, c) {
        Some(i) => {
            proof {
                lemma_find_char_from(s, c, 0);
            }
            seq![s.take(i)] + split_char(s.skip(i + 1), c)
        },
        None => seq![s],
    }
}

/// The first piece of `str::split` with a character: `s` up to the first `c`.
pub open spec fn before_char(s: Seq<char>, c: char) -> Seq<char> {
    match find_char(s, c) {
        Some(i) => s.take(i),
        None => s,
    }
}

pub fn before_char_exec<'a>(s: &'a [char], c: char) -> (r: &'a [char])
    ensures
        r@ == before_char(s@, c),
{
    proof {
        lemma_find_char_from(s@, c, 0);
    }
    match find_char_exec(s, c) {
        Some(i) => &s[0..i],
        None => s,
    }
}

// ---------------------------------------------------------------------------
// UTF-8 lengths
// ---------------------------------------------------------------------------

/// The number of bytes of a character in UTF-8.
pub open spec fn utf8_width(c: char) -> nat {
    let n = c as u32;
    if n < 0x80 {
        1
    } else if n < 0x800 {
        2
    } else if n < 0x10000 {
        3
    } else {
        4
    }
}

/// The number of bytes of a text in UTF-8 (what `str::len` returns).
pub open spec fn utf8_len(s: Seq<char>) -> nat
    decreases s.len(),
{
    if s.len() == 0 {
        0
    } else {
        utf8_len(s.drop_last()) + utf8_width(s.last())
    }
}

pub fn utf8_width_exec(c: char) -> (r: usize)
    ensures
        r == utf8_width(c),
{
    let n = c as u32;
    if n < 0x80 {
        1
    } else if n < 0x800 {
        2
    } else if n < 0x10000 {
        3
    } else {
        4
    }
}

/// Longer prefixes are no shorter in UTF-8.
pub proof fn lemma_utf8_len_prefix(s: Seq<char>, j: int, k: int)
    requires
        0 <= j <= k <= s.len(),
    ensures
        utf8_len(s.take(j)) <= utf8_len(s.take(k)),
    decreases k - j,
{
    if j < k {
        assert(s.take(k).drop_last() == s.take(k - 1));
        lemma_utf8_len_prefix(s, j, k - 1);
    }
}

/// The characters of `a` followed by those of `b`.
pub fn concat_exec(a: &[char], b: &[char]) -> (r: Vec<char>)
    ensures
        r@ == a@ + b@,
{
    let mut r = vstd::slice::slice_to_vec(a);
    let mut i: usize = 0;
    while i < b.len()
        invariant
            i <= b@.len(),
            r@ == a@ + b@.take(i as int),
        decreases b@.len() - i,
    {
        r.push(b[i]);
        assert(b@.take(i + 1) == b@.take(i as int).push(b@[i as int]));
        i = i + 1;
    }
    assert(b@.take(i as int) == b@);
    r
}

/// A `String` holding the characters of `a` followed by those of `b`.
pub fn concat_string(a: &str, b: &str) -> (r: String)
    ensures
        r@ == a@ + b@,
{
    let ca = chars_of(a);
    let cb = chars_of(b);
    let c = concat_exec(ca.as_slice(), cb.as_slice());
    string_of(c.as_slice())
}

/// `str::eq_ignore_ascii_case`.
pub open spec fn eq_ignore_ascii_case(a: Seq<char>, b: Seq<char>) -> bool {
    lower_ascii(a) == lower_ascii(b)
}

pub fn eq_ignore_ascii_case_exec(a: &str, b: &str) -> (r: bool)
    ensures
        r == eq_ignore_ascii_case(a@, b@),
{
    let ca = chars_of(a);
    let cb = chars_of(b);
    let la = lower_ascii_exec(ca.as_slice());
    let lb = lower_ascii_exec(cb.as_slice());
    seq_eq_exec(la.as_slice(), lb.as_slice())
}

/// An owned copy of a string slice.
pub fn owned(s: &str) -> (r: String)
    ensures
        r@ == s@,
{
    string_of(chars_of(s).as_slice())
}

} // verus!

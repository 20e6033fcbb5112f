//! Character-level text utilities: decimal numbers, splitting and
//! whitespace handling, each specified over `Seq<char>`.
use vstd::prelude::*;
use vstd::string::StringExecFns;

verus! {

/// Appends one character to a string.
///
/// Trusted: calls `String::push`, which std documents as appending the
/// given char to the end of the string.
#[verifier::external_body]
pub(crate) fn push_char(s: &mut String, c: char)
    ensures
        final(s)@ == old(s)@.push(c),
{
    s.push(c);
}

/// The characters of `s`, in order.
pub fn chars_of(s: &str) -> (v: Vec<char>)
    ensures
        v@ == s@,
{
    let mut v: Vec<char> = Vec::new();
    for c in it: s.chars()
        invariant
            v@ == it.seq().take(it.index() as int),
    {
        v.push(c);
    }
    v
}

/// A string made of the characters of `v`, in order.
pub fn string_of(v: &[char]) -> (s: String)
    ensures
        s@ == v@,
{
    let mut s = String::new();
    let mut i: usize = 0;
    while i < v.len()
        invariant
            i <= v.len(),
            s@ == v@.take(i as int),
        decreases v.len() - i,
    {
        push_char(&mut s, v[i]);
        assert(v@.take(i as int).push(v@[i as int]) == v@.take(i + 1));
        i = i + 1;
    }
    assert(v@.take(v.len() as int) == v@);
    s
}

/// Appends the characters `v[from..to]` to `s`.
pub fn append_chars(s: &mut String, v: &[char], from: usize, to: usize)
    requires
        from <= to <= v.len(),
    ensures
        final(s)@ == old(s)@ + v@.subrange(from as int, to as int),
{
    let mut i = from;
    while i < to
        invariant
            from <= i <= to <= v.len(),
            s@ == old(s)@ + v@.subrange(from as int, i as int),
        decreases to - i,
    {
        push_char(s, v[i]);
        assert(v@.subrange(from as int, i as int).push(v@[i as int]) == v@.subrange(
            from as int,
            i + 1,
        ));
        i = i + 1;
    }
}

/// Whether `a` and `b` hold the same characters.
pub fn chars_eq(a: &[char], b: &[char]) -> (r: bool)
    ensures
        r == (a@ == b@),
{
    if a.len() != b.len() {
        return false;
    }
    let mut i: usize = 0;
    while i < a.len()
        invariant
            a.len() == b.len(),
            i <= a.len(),
            forall|j: int| 0 <= j < i ==> a@[j] == b@[j],
        decreases a.len() - i,
    {
        if a[i] != b[i] {
            return false;
        }
        i = i + 1;
    }
    assert(a@ =~= b@);
    true
}

/// Whether `a` and `b` hold the same characters.
pub fn str_eq(a: &str, b: &str) -> (r: bool)
    ensures
        r == (a@ == b@),
{
    let x = chars_of(a);
    let y = chars_of(b);
    chars_eq(x.as_slice(), y.as_slice())
}

/// The lowercase equivalent of `s`, as `str::to_lowercase` computes it
/// (Unicode's Lowercase property, where a character may become several).
pub uninterp spec fn lowercase(s: Seq<char>) -> Seq<char>;

/// Whether every character of `s` is ASCII.
pub open spec fn is_ascii_text(s: Seq<char>) -> bool {
    forall|i: int| 0 <= i < s.len() ==> ((#[trigger] s[i]) as u32) < 128
}

/// The lowercase of an ASCII character: `A` to `Z` become `a` to `z`, the
/// others stay as they are.
pub open spec fn ascii_lower(c: char) -> char {
    if 'A' <= c && c <= 'Z' {
        ((c as u32) + 32) as char
    } else {
        c
    }
}

/// The lowercase equivalent of `s`: for ASCII text, each letter `A` to `Z`
/// lowered and the other characters kept; else what `str::to_lowercase`
/// gives.
pub open spec fn lowercased(s: Seq<char>) -> Seq<char> {
    if is_ascii_text(s) {
        s.map_values(|c: char| ascii_lower(c))
    } else {
        lowercase(s)
    }
}

/// The lowercase equivalent of `s`.
///
/// Trusted: calls `str::to_lowercase`. Its result is a function of `s` alone,
/// named `lowercase`. std documents the lowercasing as character by character
/// after Unicode (`char::to_lowercase`), under which the ASCII letters `A` to
/// `Z` become `a` to `z` (as `to_ascii_lowercase` also documents) and every
/// other ASCII character, having no lowercase mapping, stays as it is. So
/// ASCII text comes back lowered letter by letter. Nothing more is claimed.
#[verifier::external_body]
pub(crate) fn to_lowercase(s: &str) -> (r: String)
    ensures
        r@ == lowercase(s@),
        is_ascii_text(s@) ==> r@ == s@.map_values(|c: char| ascii_lower(c)),
{
    s.to_lowercase()
}

// ---------------------------------------------------------------------------
// Decimal representation
// ---------------------------------------------------------------------------
/// The character of the decimal digit `d` (for `d < 10`).
pub open spec fn digit_char(d: nat) -> char {
    ((48 + d) as u8) as char
}

/// The decimal representation of `n`, without sign or leading zeros.
pub open spec fn decimal(n: nat) -> Seq<char>
    decreases n,
{
    if n < 10 {
        seq![digit_char(n)]
    } else {
        decimal(n / 10).push(digit_char(n % 10))
    }
}

/// Appends the decimal representation of `n` to `s`.
pub fn push_decimal(s: &mut String, n: u64)
    ensures
        final(s)@ == old(s)@ + decimal(n as nat),
    decreases n,
{
    if n >= 10 {
        push_decimal(s, n / 10);
    }
    let d: u8 = (n % 10) as u8;
    push_char(s, (48u8 + d) as char);
    proof {
        if n >= 10 {
            assert(decimal(n as nat) == decimal((n / 10) as nat).push(digit_char((n % 10) as nat)));
        }
    }
}

/// The decimal representation of `n` as a new string.
pub fn decimal_string(n: u64) -> (s: String)
    ensures
        s@ == decimal(n as nat),
{
    let mut s = String::new();
    push_decimal(&mut s, n);
    assert(Seq::<char>::empty() + decimal(n as nat) == decimal(n as nat));
    s
}

// ---------------------------------------------------------------------------
// Decimal parsing, as `str::parse` does it for unsigned integers
// ---------------------------------------------------------------------------
/// Why a text is not an unsigned integer (the kinds that `str::parse` gives
/// for an unsigned type).
#[derive(Debug, Clone, Copy, PartialEq, Eq, Structural)]
pub enum IntErrorKind {
    Empty,
    InvalidDigit,
    PosOverflow,
}

/// Whether `c` is an ASCII decimal digit.
pub open spec fn is_digit(c: char) -> bool {
    '0' <= c && c <= '9'
}

/// The value of the digit `c`.
pub open spec fn digit_value(c: char) -> nat {
    (c as int - 48) as nat
}

/// Reads the digits of `d` left to right onto `acc`, failing at the first
/// character that is no digit, or the first digit that takes the value over `max`.
pub open spec fn parse_digits(d: Seq<char>, acc: nat, max: nat) -> Result<nat, IntErrorKind>
    decreases d.len(),
{
    if d.len() == 0 {
        Ok(acc)
    } else if !is_digit(d[0]) {
        Err(IntErrorKind::InvalidDigit)
    } else if acc * 10 + digit_value(d[0]) > max {
        Err(IntErrorKind::PosOverflow)
    } else {
        parse_digits(d.drop_first(), acc * 10 + digit_value(d[0]), max)
    }
}

/// What parsing `s` as an unsigned integer whose largest value is `max` gives:
/// an optional leading `+`, then at least one decimal digit.
pub open spec fn parse_unsigned(s: Seq<char>, max: nat) -> Result<nat, IntErrorKind> {
    if s.len() == 0 {
        Err(IntErrorKind::Empty)
    } else if (s[0] == '+' || s[0] == '-') && s.len() == 1 {
        Err(IntErrorKind::InvalidDigit)
    } else if s[0] == '+' {
        parse_digits(s.drop_first(), 0, max)
    } else {
        parse_digits(s, 0, max)
    }
}

pub proof fn lemma_parse_digits_bound(d: Seq<char>, acc: nat, max: nat)
    requires
        acc <= max,
    ensures
        parse_digits(d, acc, max) matches Ok(v) ==> v <= max,
    decreases d.len(),
{
    if d.len() > 0 && is_digit(d[0]) && acc * 10 + digit_value(d[0]) <= max {
        lemma_parse_digits_bound(d.drop_first(), acc * 10 + digit_value(d[0]), max);
    }
}

/// Parses `s[from..to]` as an unsigned integer no larger than `max`.
pub fn parse_unsigned_range(s: &[char], from: usize, to: usize, max: u64) -> (r: Result<
    u64,
    IntErrorKind,
>)
    requires
        from <= to <= s.len(),
    ensures
        parse_unsigned(s@.subrange(from as int, to as int), max as nat) == match r {
            Ok(v) => Ok(v as nat),
            Err(k) => Err::<nat, IntErrorKind>(k),
        },
{
    let ghost t = s@.subrange(from as int, to as int);
    if from == to {
        return Err(IntErrorKind::Empty);
    }
    let first = s[from];
    if (first == '+' || first == '-') && to - from == 1 {
        return Err(IntErrorKind::InvalidDigit);
    }
    let start = if first == '+' {
        from + 1
    } else {
        from
    };
    let ghost d = s@.subrange(start as int, to as int);
    assert(first == '+' ==> t.drop_first() == d);
    assert(first != '+' ==> t == d);
    assert(t[0] == first);
    assert(parse_unsigned(t, max as nat) == parse_digits(d, 0, max as nat));
    let mut acc: u64 = 0;
    let mut i = start;
    while i < to
        invariant
            start <= i <= to <= s.len(),
            acc <= max,
            t == s@.subrange(from as int, to as int),
            parse_unsigned(t, max as nat) == parse_digits(d, 0, max as nat),
            parse_digits(d, 0, max as nat) == parse_digits(
                s@.subrange(i as int, to as int),
                acc as nat,
                max as nat,
            ),
            d == s@.subrange(start as int, to as int),
        decreases to - i,
    {
        let c = s[i];
        let ghost rest = s@.subrange(i as int, to as int);
        assert(rest[0] == c);
        assert(rest.drop_first() == s@.subrange(i + 1, to as int));
        if !('0' <= c && c <= '9') {
            return Err(IntErrorKind::InvalidDigit);
        }
        let dv: u64 = (c as u32 - 48) as u64;
        assert(dv == digit_value(c));
        let next: u128 = (acc as u128) * 10 + (dv as u128);
        if next > max as u128 {
            return Err(IntErrorKind::PosOverflow);
        }
        acc = next as u64;
        i = i + 1;
    }
    assert(s@.subrange(to as int, to as int) == Seq::<char>::empty());
    Ok(acc)
}

/// The message that `ParseIntError` displays for each kind.
pub open spec fn int_error_message(k: IntErrorKind) -> Seq<char> {
    match k {
        IntErrorKind::Empty => "cannot parse integer from empty string"@,
        IntErrorKind::InvalidDigit => "invalid digit found in string"@,
        IntErrorKind::PosOverflow => "number too large to fit in target type"@,
    }
}

impl IntErrorKind {
    /// The message that `ParseIntError` displays for this kind.
    pub fn message(&self) -> (s: String)
        ensures
            s@ == int_error_message(*self),
    {
        match self {
            IntErrorKind::Empty => String::from_str("cannot parse integer from empty string"),
            IntErrorKind::InvalidDigit => String::from_str("invalid digit found in string"),
            IntErrorKind::PosOverflow => String::from_str("number too large to fit in target type"),
        }
    }
}

// ---------------------------------------------------------------------------
// Splitting on a pattern, as `str::split` does with a `&str` pattern
// ---------------------------------------------------------------------------
/// Whether `p` occurs in `s` at position `i`.
pub open spec fn matches_at(s: Seq<char>, p: Seq<char>, i: int) -> bool {
    0 <= i && i + p.len() <= s.len() && s.subrange(i, i + p.len()) == p
}

/// The first position at or after `i` where `p` occurs in `s`.
pub open spec fn first_match_from(s: Seq<char>, p: Seq<char>, i: int) -> Option<int>
    decreases s.len() - i,
{
    if i < 0 || i + p.len() > s.len() {
        None
    } else if matches_at(s, p, i) {
        Some(i)
    } else if i >= s.len() {
        None
    } else {
        first_match_from(s, p, i + 1)
    }
}

pub proof fn lemma_first_match_bounds(s: Seq<char>, p: Seq<char>, i: int)
    ensures
        first_match_from(s, p, i) matches Some(m) ==> i <= m && m + p.len() <= s.len()
            && matches_at(s, p, m),
    decreases s.len() - i,
{
    if !(i < 0 || i + p.len() > s.len()) && !matches_at(s, p, i) && i < s.len() {
        lemma_first_match_bounds(s, p, i + 1);
    }
}

/// The pieces of `s[start..]` between the occurrences of the non-empty `p`.
pub open spec fn split_from(s: Seq<char>, p: Seq<char>, start: int) -> Seq<Seq<char>>
    decreases s.len() - start,
{
    if p.len() == 0 || start < 0 || start > s.len() {
        seq![]
    } else {
        match first_match_from(s, p, start) {
            None => seq![s.subrange(start, s.len() as int)],
            Some(m) => {
                proof {
                    lemma_first_match_bounds(s, p, start);
                }
                seq![s.subrange(start, m)] + split_from(s, p, m + p.len())
            },
        }
    }
}

/// The pieces that `str::split` yields for the string `s` and the pattern `p`.
pub open spec fn split_pat(s: Seq<char>, p: Seq<char>) -> Seq<Seq<char>> {
    if p.len() == 0 {
        seq![Seq::<char>::empty()] + s.map_values(|c: char| seq![c]) + seq![
            Seq::<char>::empty(),
        ]
    } else {
        split_from(s, p, 0)
    }
}

pub proof fn lemma_split_nonempty(s: Seq<char>, p: Seq<char>)
    ensures
        split_pat(s, p).len() > 0,
{
    if p.len() > 0 {
        match first_match_from(s, p, 0) {
            None => {},
            Some(m) => {
                lemma_first_match_bounds(s, p, 0);
            },
        }
    }
}

/// Whether `p` occurs in `s` at position `i`.
fn occurs_at(s: &[char], p: &[char], i: usize) -> (r: bool)
    requires
        i + p.len() <= s.len(),
    ensures
        r == matches_at(s@, p@, i as int),
{
    let mut j: usize = 0;
    while j < p.len()
        invariant
            j <= p.len(),
            i + p.len() <= s.len(),
            forall|k: int| 0 <= k < j ==> s@[i + k] == p@[k],
        decreases p.len() - j,
    {
        if s[i + j] != p[j] {
            assert(s@.subrange(i as int, i + p.len())[j as int] != p@[j as int]);
            return false;
        }
        j = j + 1;
    }
    assert(s@.subrange(i as int, i + p.len()) =~= p@);
    true
}

/// The pieces of `s` between the occurrences of `p`, as `str::split` gives them.
pub fn split_chars(s: &[char], p: &[char]) -> (r: Vec<Vec<char>>)
    ensures
        r@.map_values(|v: Vec<char>| v@) == split_pat(s@, p@),
{
    let mut out: Vec<Vec<char>> = Vec::new();
    if p.len() == 0 {
        out.push(Vec::new());
        let mut i: usize = 0;
        while i < s.len()
            invariant
                i <= s.len(),
                out@.map_values(|v: Vec<char>| v@) == seq![Seq::<char>::empty()] + s@.take(
                    i as int,
                ).map_values(|c: char| seq![c]),
            decreases s.len() - i,
        {
            let mut piece = Vec::new();
            piece.push(s[i]);
            let ghost before = out@;
            out.push(piece);
            assert(out@ == before.push(piece));
            assert(piece@ == seq![s@[i as int]]);
            assert(out@.map_values(|v: Vec<char>| v@) =~= before.map_values(|v: Vec<char>| v@).push(
                seq![s@[i as int]],
            ));
            assert(s@.take(i + 1) == s@.take(i as int).push(s@[i as int]));
            assert(s@.take(i + 1).map_values(|c: char| seq![c]) =~= s@.take(i as int).map_values(
                |c: char| seq![c],
            ).push(seq![s@[i as int]]));
            assert(out@.map_values(|v: Vec<char>| v@) =~= seq![Seq::<char>::empty()] + s@.take(
                i + 1,
            ).map_values(|c: char| seq![c]));
            i = i + 1;
        }
        out.push(Vec::new());
        assert(s@.take(s.len() as int) == s@);
        assert(out@.map_values(|v: Vec<char>| v@) =~= split_pat(s@, p@));
        return out;
    }
    let n = s.len();
    let plen = p.len();
    let mut start: usize = 0;
    let mut i: usize = 0;
    while plen <= n - i
        invariant
            n == s.len(),
            plen == p.len(),
            plen > 0,
            start <= i <= n,
            first_match_from(s@, p@, start as int) == first_match_from(s@, p@, i as int),
            out@.map_values(|v: Vec<char>| v@) + split_from(s@, p@, start as int) == split_from(
                s@,
                p@,
                0,
            ),
        decreases n - i,
    {
        if occurs_at(s, p, i) {
            let mut piece = Vec::new();
            let mut k = start;
            while k < i
                invariant
                    start <= k <= i <= n,
                    n == s.len(),
                    piece@ == s@.subrange(start as int, k as int),
                decreases i - k,
            {
                piece.push(s[k]);
                assert(s@.subrange(start as int, k as int).push(s@[k as int]) == s@.subrange(
                    start as int,
                    k + 1,
                ));
                k = k + 1;
            }
            let ghost before = out@.map_values(|v: Vec<char>| v@);
            out.push(piece);
            assert(out@.map_values(|v: Vec<char>| v@) == before.push(
                s@.subrange(start as int, i as int),
            ));
            assert(split_from(s@, p@, start as int) == seq![s@.subrange(start as int, i as int)]
                + split_from(s@, p@, i + plen));
            assert(before + split_from(s@, p@, start as int) == before.push(
                s@.subrange(start as int, i as int),
            ) + split_from(s@, p@, i + plen));
            i = i + plen;
            start = i;
        } else {
            i = i + 1;
        }
    }
    let mut piece = Vec::new();
    let mut k = start;
    while k < n
        invariant
            start <= k <= n,
            n == s.len(),
            piece@ == s@.subrange(start as int, k as int),
        decreases n - k,
    {
        piece.push(s[k]);
        assert(s@.subrange(start as int, k as int).push(s@[k as int]) == s@.subrange(
            start as int,
            k + 1,
        ));
        k = k + 1;
    }
    let ghost before = out@.map_values(|v: Vec<char>| v@);
    out.push(piece);
    assert(split_from(s@, p@, start as int) == seq![s@.subrange(start as int, n as int)]);
    assert(out@.map_values(|v: Vec<char>| v@) == before.push(s@.subrange(start as int, n as int)));
    assert(before + split_from(s@, p@, start as int) =~= before.push(
        s@.subrange(start as int, n as int),
    ));
    out
}

// ---------------------------------------------------------------------------
// Whitespace, as `char::is_whitespace` defines it (Unicode White_Space)
// ---------------------------------------------------------------------------
/// Whether `c` has the Unicode `White_Space` property.
pub open spec fn is_whitespace(c: char) -> bool {
    ('\u{9}' <= c && c <= '\u{d}') || c == ' ' || c == '\u{85}' || c == '\u{a0}' || c
        == '\u{1680}' || ('\u{2000}' <= c && c <= '\u{200a}') || c == '\u{2028}' || c
        == '\u{2029}' || c == '\u{202f}' || c == '\u{205f}' || c == '\u{3000}'
}

/// Whether `c` has the Unicode `White_Space` property.
pub fn char_is_whitespace(c: char) -> (r: bool)
    ensures
        r == is_whitespace(c),
{
    ('\u{9}' <= c && c <= '\u{d}') || c == ' ' || c == '\u{85}' || c == '\u{a0}' || c
        == '\u{1680}' || ('\u{2000}' <= c && c <= '\u{200a}') || c == '\u{2028}' || c
        == '\u{2029}' || c == '\u{202f}' || c == '\u{205f}' || c == '\u{3000}'
}

/// The end of the run of non-whitespace characters of `s` that starts at `i`.
pub open spec fn token_end(s: Seq<char>, i: int) -> int
    decreases s.len() - i,
{
    if i < 0 || i >= s.len() || is_whitespace(s[i]) {
        i
    } else {
        token_end(s, i + 1)
    }
}

pub proof fn lemma_token_end(s: Seq<char>, i: int)
    requires
        0 <= i <= s.len(),
    ensures
        i <= token_end(s, i) <= s.len(),
        i < s.len() && !is_whitespace(s[i]) ==> i < token_end(s, i),
        forall|j: int| i <= j < token_end(s, i) ==> !is_whitespace(#[trigger] s[j]),
        token_end(s, i) < s.len() ==> is_whitespace(s[token_end(s, i)]),
    decreases s.len() - i,
{
    if i < s.len() && !is_whitespace(s[i]) {
        lemma_token_end(s, i + 1);
    }
}

/// The whitespace-separated words of `s[i..]`, as `str::split_whitespace` yields them.
pub open spec fn ws_tokens_from(s: Seq<char>, i: int) -> Seq<Seq<char>>
    decreases s.len() - i,
{
    if i < 0 || i >= s.len() {
        seq![]
    } else if is_whitespace(s[i]) {
        ws_tokens_from(s, i + 1)
    } else {
        proof {
            lemma_token_end(s, i);
        }
        seq![s.subrange(i, token_end(s, i))] + ws_tokens_from(s, token_end(s, i))
    }
}

/// The whitespace-separated words of `s`, as `str::split_whitespace` yields them.
pub open spec fn ws_tokens(s: Seq<char>) -> Seq<Seq<char>> {
    ws_tokens_from(s, 0)
}

/// The bounds of the first whitespace-separated word of `s[from..]`, if any.
pub fn next_token(s: &[char], from: usize) -> (r: Option<(usize, usize)>)
    requires
        from <= s.len(),
    ensures
        match r {
            None => ws_tokens_from(s@, from as int) == Seq::<Seq<char>>::empty(),
            Some((a, b)) => from <= a < b <= s.len() && ws_tokens_from(s@, from as int) == seq![
                s@.subrange(a as int, b as int),
            ] + ws_tokens_from(s@, b as int),
        },
{
    let mut i = from;
    while i < s.len() && char_is_whitespace(s[i])
        invariant
            from <= i <= s.len(),
            ws_tokens_from(s@, from as int) == ws_tokens_from(s@, i as int),
        decreases s.len() - i,
    {
        i = i + 1;
    }
    if i == s.len() {
        return None;
    }
    let a = i;
    proof {
        lemma_token_end(s@, a as int);
    }
    while i < s.len() && !char_is_whitespace(s[i])
        invariant
            a <= i <= s.len(),
            a < s.len(),
            !is_whitespace(s@[a as int]),
            token_end(s@, a as int) == token_end(s@, i as int),
            i > a || i == a,
        decreases s.len() - i,
    {
        i = i + 1;
    }
    proof {
        lemma_token_end(s@, a as int);
    }
    Some((a, i))
}

} // verus!

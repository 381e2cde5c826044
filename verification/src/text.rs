//! Character-sequence helpers shared by the parsers and classifiers of the
//! crate: prefix, suffix and substring tests, ASCII case folding and the
//! decimal integer syntax that `str::parse` accepts.
use vstd::prelude::*;

verus! {

// ---------------------------------------------------------------------------
// Specifications
// ---------------------------------------------------------------------------

pub open spec fn is_digit(c: char) -> bool {
    48 <= (c as u32) <= 57
}

pub open spec fn digit_val(c: char) -> int {
    (c as u32) - 48
}

pub open spec fn all_digits(s: Seq<char>) -> bool {
    forall|i: int| 0 <= i < s.len() ==> is_digit(#[trigger] s[i])
}

/// The value of a string of decimal digits, most significant first.
pub open spec fn digits_value(s: Seq<char>) -> int
    decreases s.len(),
{
    if s.len() == 0 {
        0
    } else {
        digits_value(s.drop_last()) * 10 + digit_val(s.last())
    }
}

/// Splits an optional leading sign off a numeral: `+` always, `-` only
/// where negative values are allowed.
pub open spec fn signed_split(s: Seq<char>, allow_neg: bool) -> (int, Seq<char>) {
    if s.len() > 0 && s[0] == '+' {
        (1, s.drop_first())
    } else if allow_neg && s.len() > 0 && s[0] == '-' {
        (-1, s.drop_first())
    } else {
        (1, s)
    }
}

/// What `str::parse` gives for an integer type with range `lo..=hi`:
/// an optional sign, then one or more ASCII digits, and a value in range.
pub open spec fn parse_int_spec(s: Seq<char>, allow_neg: bool, lo: int, hi: int) -> Option<int> {
    let sign = signed_split(s, allow_neg).0;
    let body = signed_split(s, allow_neg).1;
    if body.len() > 0 && all_digits(body) && lo <= sign * digits_value(body) <= hi {
        Some(sign * digits_value(body))
    } else {
        None
    }
}

pub open spec fn is_ascii_upper(c: char) -> bool {
    65 <= (c as u32) <= 90
}

pub open spec fn is_ascii_letter(c: char) -> bool {
    is_ascii_upper(c) || 97 <= (c as u32) <= 122
}

/// `char::to_ascii_lowercase`.
pub open spec fn ascii_lower_char(c: char) -> char {
    if is_ascii_upper(c) {
        ((c as u32) + 32) as char
    } else {
        c
    }
}

pub open spec fn starts_with(s: Seq<char>, p: Seq<char>) -> bool {
    p.len() <= s.len() && s.subrange(0, p.len() as int) == p
}

pub open spec fn ends_with(s: Seq<char>, p: Seq<char>) -> bool {
    p.len() <= s.len() && s.subrange(s.len() - p.len(), s.len() as int) == p
}

pub open spec fn occurs_at(s: Seq<char>, p: Seq<char>, i: int) -> bool {
    0 <= i && i + p.len() <= s.len() && s.subrange(i, i + p.len()) == p
}

pub open spec fn contains_seq(s: Seq<char>, p: Seq<char>) -> bool {
    exists|i: int| occurs_at(s, p, i)
}

// ---------------------------------------------------------------------------
// Lemmas on decimal values
// ---------------------------------------------------------------------------

pub proof fn lemma_digits_value_nonneg(s: Seq<char>)
    requires
        all_digits(s),
    ensures
        digits_value(s) >= 0,
    decreases s.len(),
{
    if s.len() > 0 {
        assert(all_digits(s.drop_last()));
        lemma_digits_value_nonneg(s.drop_last());
        assert(is_digit(s[s.len() - 1]));
    }
}

/// A numeral's value is at least the value of any of its prefixes.
pub proof fn lemma_digits_value_prefix(s: Seq<char>, k: int)
    requires
        all_digits(s),
        0 <= k <= s.len(),
    ensures
        digits_value(s.subrange(0, k)) <= digits_value(s),
    decreases s.len(),
{
    if k == s.len() {
        assert(s.subrange(0, k) =~= s);
    } else {
        let t = s.drop_last();
        assert(all_digits(t));
        assert(t.subrange(0, k) =~= s.subrange(0, k));
        lemma_digits_value_prefix(t, k);
        lemma_digits_value_nonneg(t);
        assert(is_digit(s[s.len() - 1]));
    }
}

proof fn lemma_digits_value_step(s: Seq<char>, a: int, i: int)
    requires
        0 <= a <= i < s.len(),
    ensures
        digits_value(s.subrange(a, i + 1)) == digits_value(s.subrange(a, i)) * 10 + digit_val(
            s[i],
        ),
{
    let t = s.subrange(a, i + 1);
    assert(t.drop_last() =~= s.subrange(a, i));
}

// ---------------------------------------------------------------------------
// Conversions between `str` and character vectors
// ---------------------------------------------------------------------------

/// The characters of `s`, in order.
pub(crate) fn chars_of(s: &str) -> (v: Vec<char>)
    ensures
        v@ == s@,
{
    let mut v: Vec<char> = Vec::new();
    for c in it: s.chars()
        invariant
            v@ == it.seq().take(it.index() as int),
    {
        v.push(c);
    }
    v
}

/// Builds a `String` from characters (`FromIterator<char> for String`).
/// Trusted: the string holds exactly these characters, in order.
#[verifier::external_body]
pub(crate) fn string_from_chars(v: &[char]) -> (s: String)
    ensures
        s@ == v@,
{
    v.iter().collect()
}

/// The Unicode lowercase mapping of `str::to_lowercase`, named rather than
/// written out: it is defined by the Unicode character database.
pub uninterp spec fn spec_to_lowercase(s: Seq<char>) -> Seq<char>;

/// `str::to_lowercase`. Trusted: its result is a function of the input's
/// characters alone, named `spec_to_lowercase`.
#[verifier::external_body]
pub(crate) fn to_lowercase(s: &str) -> (r: String)
    ensures
        r@ == spec_to_lowercase(s@),
{
    s.to_lowercase()
}

// ---------------------------------------------------------------------------
// Verified operations
// ---------------------------------------------------------------------------

pub fn is_digit_char(c: char) -> (b: bool)
    ensures
        b == is_digit(c),
{
    let u = c as u32;
    48 <= u && u <= 57
}

/// `char::to_ascii_lowercase`.
pub fn ascii_lowercase(c: char) -> (r: char)
    ensures
        r == ascii_lower_char(c),
{
    let u = c as u32;
    if 65 <= u && u <= 90 {
        let l = (u + 32) as u8;
        l as char
    } else {
        c
    }
}

pub fn seq_starts_with(s: &[char], p: &[char]) -> (b: bool)
    ensures
        b == starts_with(s@, p@),
{
    if p.len() > s.len() {
        return false;
    }
    let mut i: usize = 0;
    while i < p.len()
        invariant
            p.len() <= s.len(),
            i <= p.len(),
            forall|j: int| 0 <= j < i ==> s@[j] == p@[j],
        decreases p.len() - i,
    {
        if s[i] != p[i] {
            assert(s@.subrange(0, p@.len() as int)[i as int] != p@[i as int]);
            return false;
        }
        i += 1;
    }
    assert(s@.subrange(0, p@.len() as int) =~= p@);
    true
}

/// Whether `p` occurs in `s` starting at index `at`.
pub fn seq_occurs_at(s: &[char], p: &[char], at: usize) -> (b: bool)
    ensures
        b == occurs_at(s@, p@, at as int),
{
    if at > s.len() || p.len() > s.len() - at {
        return false;
    }
    let mut i: usize = 0;
    while i < p.len()
        invariant
            at + p.len() <= s.len(),
            i <= p.len(),
            forall|j: int| 0 <= j < i ==> s@[at + j] == p@[j],
        decreases p.len() - i,
    {
        if s[at + i] != p[i] {
            assert(s@.subrange(at as int, at + p@.len())[i as int] != p@[i as int]);
            return false;
        }
        i += 1;
    }
    assert(s@.subrange(at as int, at + p@.len()) =~= p@);
    true
}

pub fn seq_ends_with(s: &[char], p: &[char]) -> (b: bool)
    ensures
        b == ends_with(s@, p@),
{
    if p.len() > s.len() {
        return false;
    }
    seq_occurs_at(s, p, s.len() - p.len())
}

pub fn seq_contains(s: &[char], p: &[char]) -> (b: bool)
    ensures
        b == contains_seq(s@, p@),
{
    if p.len() > s.len() {
        assert forall|i: int| !occurs_at(s@, p@, i) by {}
        return false;
    }
    let last = s.len() - p.len();
    let mut i: usize = 0;
    loop
        invariant
            last == s.len() - p.len(),
            i <= last,
            forall|j: int| 0 <= j < i ==> !occurs_at(s@, p@, j),
        ensures
            forall|j: int| 0 <= j <= last ==> !occurs_at(s@, p@, j),
        decreases last - i,
    {
        if seq_occurs_at(s, p, i) {
            return true;
        }
        if i == last {
            break;
        }
        i += 1;
    }
    assert forall|j: int| !occurs_at(s@, p@, j) by {
        if 0 <= j <= last {
        }
    }
    false
}

pub fn str_starts_with(s: &str, p: &str) -> (b: bool)
    ensures
        b == starts_with(s@, p@),
{
    let sv = chars_of(s);
    let pv = chars_of(p);
    seq_starts_with(sv.as_slice(), pv.as_slice())
}

pub fn str_ends_with(s: &str, p: &str) -> (b: bool)
    ensures
        b == ends_with(s@, p@),
{
    let sv = chars_of(s);
    let pv = chars_of(p);
    seq_ends_with(sv.as_slice(), pv.as_slice())
}

pub fn str_contains(s: &str, p: &str) -> (b: bool)
    ensures
        b == contains_seq(s@, p@),
{
    let sv = chars_of(s);
    let pv = chars_of(p);
    seq_contains(sv.as_slice(), pv.as_slice())
}

/// The integer syntax of `str::parse` for a type with range `lo..=hi`.
pub fn parse_int(s: &[char], allow_neg: bool, lo: i128, hi: i128) -> (r: Option<i128>)
    requires
        -0x1_0000_0000_0000_0000 <= lo <= hi <= 0x1_0000_0000_0000_0000,
    ensures
        r is Some <==> parse_int_spec(s@, allow_neg, lo as int, hi as int) is Some,
        r matches Some(v) ==> parse_int_spec(s@, allow_neg, lo as int, hi as int) == Some(
            v as int,
        ),
{
    let n = s.len();
    let mut start: usize = 0;
    let mut neg = false;
    if n > 0 && s[0] == '+' {
        start = 1;
    } else if allow_neg && n > 0 && s[0] == '-' {
        start = 1;
        neg = true;
    }
    let ghost sign: int = if neg { -1 } else { 1 };
    let ghost body = s@.subrange(start as int, n as int);
    assert(signed_split(s@, allow_neg).0 == sign);
    assert(signed_split(s@, allow_neg).1 =~= body);
    if start == n {
        return None;
    }
    let mut acc: u128 = 0;
    let mut i: usize = start;
    while i < n
        invariant
            start <= i <= n,
            n == s.len(),
            body == s@.subrange(start as int, n as int),
            signed_split(s@, allow_neg).1 == body,
            signed_split(s@, allow_neg).0 == sign,
            sign == 1 || sign == -1,
            -0x1_0000_0000_0000_0000 <= lo <= hi <= 0x1_0000_0000_0000_0000,
            acc as int == digits_value(s@.subrange(start as int, i as int)),
            acc <= 0x1_0000_0000_0000_0000,
            forall|j: int| start <= j < i ==> is_digit(#[trigger] s@[j]),
        decreases n - i,
    {
        let c = s[i];
        if !is_digit_char(c) {
            assert(body[i - start] == s@[i as int]);
            assert(!all_digits(body));
            return None;
        }
        proof {
            lemma_digits_value_step(s@, start as int, i as int);
        }
        assert(48 <= c as u32 <= 57);
        let d = (c as u32 - 48) as u128;
        acc = acc * 10 + d;
        if acc > 0x1_0000_0000_0000_0000 {
            proof {
                if all_digits(body) {
                    assert(body.subrange(0, i + 1 - start) =~= s@.subrange(
                        start as int,
                        i + 1,
                    ));
                    lemma_digits_value_prefix(body, i + 1 - start);
                    assert(digits_value(body) > 0x1_0000_0000_0000_0000);
                }
            }
            return None;
        }
        i += 1;
    }
    assert(s@.subrange(start as int, n as int) =~= body);
    assert(all_digits(body));
    let v: i128 = if neg {
        -(acc as i128)
    } else {
        acc as i128
    };
    if lo <= v && v <= hi {
        Some(v)
    } else {
        None
    }
}

pub open spec fn to_u64_opt(o: Option<int>) -> Option<u64> {
    match o {
        Some(v) => Some(v as u64),
        None => None,
    }
}

pub open spec fn to_i64_opt(o: Option<int>) -> Option<i64> {
    match o {
        Some(v) => Some(v as i64),
        None => None,
    }
}

pub open spec fn to_u32_opt(o: Option<int>) -> Option<u32> {
    match o {
        Some(v) => Some(v as u32),
        None => None,
    }
}

pub open spec fn to_i32_opt(o: Option<int>) -> Option<i32> {
    match o {
        Some(v) => Some(v as i32),
        None => None,
    }
}

pub open spec fn to_u8_opt(o: Option<int>) -> Option<u8> {
    match o {
        Some(v) => Some(v as u8),
        None => None,
    }
}

/// `<u64 as FromStr>::from_str`, succeeding exactly where it does.
pub fn parse_u64(s: &[char]) -> (r: Option<u64>)
    ensures
        r == to_u64_opt(parse_int_spec(s@, false, 0, u64::MAX as int)),
{
    match parse_int(s, false, 0, 0xffff_ffff_ffff_ffff) {
        Some(v) => Some(v as u64),
        None => None,
    }
}

/// `<i64 as FromStr>::from_str`.
pub fn parse_i64(s: &[char]) -> (r: Option<i64>)
    ensures
        r == to_i64_opt(parse_int_spec(s@, true, i64::MIN as int, i64::MAX as int)),
{
    match parse_int(s, true, -0x8000_0000_0000_0000, 0x7fff_ffff_ffff_ffff) {
        Some(v) => Some(v as i64),
        None => None,
    }
}

/// `<u32 as FromStr>::from_str`.
pub fn parse_u32(s: &[char]) -> (r: Option<u32>)
    ensures
        r == to_u32_opt(parse_int_spec(s@, false, 0, u32::MAX as int)),
{
    match parse_int(s, false, 0, 0xffff_ffff) {
        Some(v) => Some(v as u32),
        None => None,
    }
}

/// `<i32 as FromStr>::from_str`.
pub fn parse_i32(s: &[char]) -> (r: Option<i32>)
    ensures
        r == to_i32_opt(parse_int_spec(s@, true, i32::MIN as int, i32::MAX as int)),
{
    match parse_int(s, true, -0x8000_0000, 0x7fff_ffff) {
        Some(v) => Some(v as i32),
        None => None,
    }
}

/// `<u8 as FromStr>::from_str`.
pub fn parse_u8(s: &[char]) -> (r: Option<u8>)
    ensures
        r == to_u8_opt(parse_int_spec(s@, false, 0, 255)),
{
    match parse_int(s, false, 0, 255) {
        Some(v) => Some(v as u8),
        None => None,
    }
}

/// Copies `s[from..to]` into a new vector.
pub fn slice_to_vec(s: &[char], from: usize, to: usize) -> (r: Vec<char>)
    requires
        from <= to <= s.len(),
    ensures
        r@ == s@.subrange(from as int, to as int),
{
    let mut r: Vec<char> = Vec::new();
    let mut i = from;
    while i < to
        invariant
            from <= i <= to <= s.len(),
            r@ == s@.subrange(from as int, i as int),
        decreases to - i,
    {
        r.push(s[i]);
        assert(r@ =~= s@.subrange(from as int, i + 1));
        i += 1;
    }
    r
}

} // verus!

//! Text handling for the piece list format: splitting, trimming and decimal numbers.
//!
//! The spec functions state what each operation yields on a sequence of characters;
//! the executable functions compute them on a range `lo..hi` of a character vector.
use vstd::prelude::*;

verus! {

broadcast use vstd::string::group_string_axioms;

/// Whether `c` has the Unicode `White_Space` property.
pub open spec fn is_white_space(c: char) -> bool {
    let v = c as u32;
    ||| 0x09 <= v <= 0x0D
    ||| v == 0x20
    ||| v == 0x85
    ||| v == 0xA0
    ||| v == 0x1680
    ||| 0x2000 <= v <= 0x200A
    ||| v == 0x2028
    ||| v == 0x2029
    ||| v == 0x202F
    ||| v == 0x205F
    ||| v == 0x3000
}

/// Index of the first `c` in `s`.
pub open spec fn find_char(s: Seq<char>, c: char) -> Option<int>
    decreases s.len(),
{
    if s.len() == 0 {
        None
    } else if s[0] == c {
        Some(0)
    } else {
        match find_char(s.drop_first(), c) {
            Some(i) => Some(i + 1),
            None => None,
        }
    }
}

/// The text before and after the first `c` in `s`.
pub open spec fn split_once(s: Seq<char>, c: char) -> Option<(Seq<char>, Seq<char>)> {
    match find_char(s, c) {
        Some(i) => Some((s.take(i), s.skip(i + 1))),
        None => None,
    }
}

/// The pieces of `s` between occurrences of `c`; there is always at least one.
pub open spec fn split_all(s: Seq<char>, c: char) -> Seq<Seq<char>>
    decreases s.len(),
{
    match find_char(s, c) {
        Some(i) => {
            if 0 <= i < s.len() {
                seq![s.take(i)] + split_all(s.skip(i + 1), c)
            } else {
                seq![s]
            }
        },
        None => seq![s],
    }
}

/// `s` without its leading white space.
pub open spec fn trim_start(s: Seq<char>) -> Seq<char>
    decreases s.len(),
{
    if s.len() > 0 && is_white_space(s[0]) {
        trim_start(s.drop_first())
    } else {
        s
    }
}

/// `s` without its trailing white space.
pub open spec fn trim_end(s: Seq<char>) -> Seq<char>
    decreases s.len(),
{
    if s.len() > 0 && is_white_space(s.last()) {
        trim_end(s.drop_last())
    } else {
        s
    }
}

/// `s` without leading and trailing white space.
pub open spec fn trim(s: Seq<char>) -> Seq<char> {
    trim_end(trim_start(s))
}

/// Why a text is not a decimal `i32`.
#[derive(Clone, Copy, Debug, PartialEq, Eq, Structural)]
pub enum NumberError {
    /// The text is empty.
    Empty,
    /// The text holds a character that is not a digit where a digit belongs.
    InvalidDigit,
    /// The number is above `i32::MAX`.
    PosOverflow,
    /// The number is below `i32::MIN`.
    NegOverflow,
}

pub open spec fn is_ascii_digit(c: char) -> bool {
    0x30 <= (c as u32) <= 0x39
}

pub open spec fn digit_value(c: char) -> int {
    (c as u32) - 0x30
}

/// Reads `digits` left to right into `acc`, negated digits when `negative`; stops at
/// the first character that is not a digit or that takes the value out of `i32`.
pub open spec fn parse_digits(digits: Seq<char>, negative: bool, acc: int) -> Result<int, NumberError>
    decreases digits.len(),
{
    if digits.len() == 0 {
        Ok(acc)
    } else if !is_ascii_digit(digits[0]) {
        Err(NumberError::InvalidDigit)
    } else {
        let next = if negative {
            acc * 10 - digit_value(digits[0])
        } else {
            acc * 10 + digit_value(digits[0])
        };
        if next > i32::MAX {
            Err(NumberError::PosOverflow)
        } else if next < i32::MIN {
            Err(NumberError::NegOverflow)
        } else {
            parse_digits(digits.drop_first(), negative, next)
        }
    }
}

/// The decimal `i32` that `s` spells: an optional `+` or `-`, then one or more digits.
pub open spec fn parse_i32(s: Seq<char>) -> Result<int, NumberError> {
    if s.len() == 0 {
        Err(NumberError::Empty)
    } else if s.len() == 1 && (s[0] == '+' || s[0] == '-') {
        Err(NumberError::InvalidDigit)
    } else if s[0] == '+' {
        parse_digits(s.drop_first(), false, 0)
    } else if s[0] == '-' {
        parse_digits(s.drop_first(), true, 0)
    } else {
        parse_digits(s, false, 0)
    }
}

// ---------------------------------------------------------------------------
// Lemmas.
// ---------------------------------------------------------------------------
/// `find_char` names the first occurrence.
pub proof fn lemma_find_char(s: Seq<char>, c: char)
    ensures
        match find_char(s, c) {
            Some(i) => 0 <= i < s.len() && s[i] == c && forall|j: int| 0 <= j < i ==> s[j] != c,
            None => forall|j: int| 0 <= j < s.len() ==> s[j] != c,
        },
    decreases s.len(),
{
    if s.len() > 0 && s[0] != c {
        lemma_find_char(s.drop_first(), c);
        match find_char(s.drop_first(), c) {
            Some(i) => {
                assert forall|j: int| 0 <= j < i + 1 implies s[j] != c by {
                    if j > 0 {
                        assert(s[j] == s.drop_first()[j - 1]);
                    }
                }
            },
            None => {
                assert forall|j: int| 0 <= j < s.len() implies s[j] != c by {
                    if j > 0 {
                        assert(s[j] == s.drop_first()[j - 1]);
                    }
                }
            },
        }
    }
}

proof fn lemma_trim_start(s: Seq<char>, k: int)
    requires
        0 <= k <= s.len(),
        forall|j: int| 0 <= j < k ==> is_white_space(s[j]),
        k == s.len() || !is_white_space(s[k]),
    ensures
        trim_start(s) == s.skip(k),
    decreases k,
{
    if k == 0 {
        assert(s.skip(0) =~= s);
    } else {
        lemma_trim_start(s.drop_first(), k - 1);
        assert(s.drop_first().skip(k - 1) =~= s.skip(k));
    }
}

proof fn lemma_trim_end(s: Seq<char>, k: int)
    requires
        0 <= k <= s.len(),
        forall|j: int| k <= j < s.len() ==> is_white_space(s[j]),
        k == 0 || !is_white_space(s[k - 1]),
    ensures
        trim_end(s) == s.take(k),
    decreases s.len() - k,
{
    if k == s.len() {
        assert(s.take(k) =~= s);
    } else {
        lemma_trim_end(s.drop_last(), k);
        assert(s.drop_last().take(k) =~= s.take(k));
    }
}

/// Trimming after appending a white space character gives what trimming gives
/// without it.
proof fn lemma_trim_push_white_space(s: Seq<char>, c: char)
    requires
        is_white_space(c),
    ensures
        trim(s.push(c)) == trim(s),
    decreases s.len(),
{
    let t = s.push(c);
    if s.len() == 0 {
        assert(t.drop_first() =~= Seq::<char>::empty());
        assert(trim_start(t) == trim_start(Seq::<char>::empty()));
    } else if is_white_space(s[0]) {
        assert(t[0] == s[0]);
        assert(t.drop_first() =~= s.drop_first().push(c));
        lemma_trim_push_white_space(s.drop_first(), c);
    } else {
        assert(t[0] == s[0]);
        assert(trim_start(t) == t);
        assert(trim_start(s) == s);
        assert(t.drop_last() =~= s);
    }
}

/// Trimming removes every character with the Unicode `White_Space` property (tab,
/// line feed, vertical tab, form feed, carriage return, space, next line, no-break
/// space and the other spaces and separators listed below) from both ends: adding one
/// before or after a text does not change the trimmed text.
pub proof fn lemma_trim_ignores_white_space(s: Seq<char>, c: char)
    requires
        ({
            let v = c as u32;
            ||| v == 0x09 || v == 0x0A || v == 0x0B || v == 0x0C || v == 0x0D
            ||| v == 0x20 || v == 0x85 || v == 0xA0 || v == 0x1680
            ||| 0x2000 <= v <= 0x200A
            ||| v == 0x2028 || v == 0x2029 || v == 0x202F || v == 0x205F || v == 0x3000
        }),
    ensures
        trim(s.push(c)) == trim(s),
        trim(seq![c] + s) == trim(s),
{
    lemma_trim_push_white_space(s, c);
    let t = seq![c] + s;
    assert(t[0] == c);
    assert(t.drop_first() =~= s);
}

/// Trimming keeps a last character that is not white space: a text ending in a
/// character outside the Unicode `White_Space` property still ends in it after
/// trimming.
pub proof fn lemma_trim_keeps_last_non_white_space(s: Seq<char>, c: char)
    requires
        !is_white_space(c),
    ensures
        trim(s.push(c)).len() > 0,
        trim(s.push(c)).last() == c,
    decreases s.len(),
{
    let t = s.push(c);
    if s.len() == 0 {
        assert(trim_start(t) == t);
        assert(trim_end(t) == t);
    } else if is_white_space(s[0]) {
        assert(t[0] == s[0]);
        assert(t.drop_first() =~= s.drop_first().push(c));
        lemma_trim_keeps_last_non_white_space(s.drop_first(), c);
    } else {
        assert(t[0] == s[0]);
        assert(trim_start(t) == t);
        assert(trim_end(t) == t);
    }
}

/// Searching for `c` in `s` followed by a different character finds what searching
/// `s` finds.
pub proof fn lemma_find_char_push_other(s: Seq<char>, c: char, x: char)
    requires
        x != c,
    ensures
        find_char(s.push(x), c) == find_char(s, c),
    decreases s.len(),
{
    let t = s.push(x);
    if s.len() == 0 {
        assert(t.drop_first() =~= Seq::<char>::empty());
    } else {
        assert(t[0] == s[0]);
        assert(t.drop_first() =~= s.drop_first().push(x));
        lemma_find_char_push_other(s.drop_first(), c, x);
    }
}

// ---------------------------------------------------------------------------
// Executable text operations.
// ---------------------------------------------------------------------------
/// The characters of `s`.
pub fn chars_of(s: &str) -> (r: Vec<char>)
    ensures
        r@ == s@,
{
    let mut r: Vec<char> = Vec::new();
    for c in it: s.chars()
        invariant
            it.seq() == s@,
            r@ == it.seq().take(it.index() as int),
    {
        r.push(c);
        assert(r@ =~= it.seq().take(it.index() + 1));
    }
    assert(r@ =~= s@);
    r
}

/// Whether `c` is white space, as `char::is_whitespace` decides it.
pub fn char_is_white_space(c: char) -> (r: bool)
    ensures
        r == is_white_space(c),
{
    let v = c as u32;
    (0x09 <= v && v <= 0x0D) || v == 0x20 || v == 0x85 || v == 0xA0 || v == 0x1680 || (0x2000
        <= v && v <= 0x200A) || v == 0x2028 || v == 0x2029 || v == 0x202F || v == 0x205F || v
        == 0x3000
}

/// The position of the first `c` in `chars[lo..hi]`.
pub fn find_char_in(chars: &Vec<char>, lo: usize, hi: usize, c: char) -> (r: Option<usize>)
    requires
        lo <= hi <= chars@.len(),
    ensures
        match find_char(chars@.subrange(lo as int, hi as int), c) {
            Some(i) => r == Some((lo + i) as usize),
            None => r is None,
        },
{
    let ghost s = chars@.subrange(lo as int, hi as int);
    proof {
        lemma_find_char(s, c);
    }
    let mut i = lo;
    while i < hi
        invariant
            lo <= i <= hi <= chars@.len(),
            s == chars@.subrange(lo as int, hi as int),
            forall|j: int| lo <= j < i ==> chars@[j] != c,
        decreases hi - i,
    {
        if chars[i] == c {
            proof {
                assert(s[i - lo] == c);
                assert forall|j: int| 0 <= j < i - lo implies s[j] != c by {
                    assert(s[j] == chars@[lo + j]);
                }
                lemma_find_char(s, c);
                match find_char(s, c) {
                    Some(k) => {
                        assert(s[k] == chars@[lo + k]);
                    },
                    None => {},
                }
            }
            return Some(i);
        }
        i += 1;
    }
    proof {
        assert forall|j: int| 0 <= j < s.len() implies s[j] != c by {
            assert(s[j] == chars@[lo + j]);
        }
    }
    None
}

/// The range of `chars[lo..hi]` left after trimming white space from both ends.
pub fn trim_range(chars: &Vec<char>, lo: usize, hi: usize) -> (r: (usize, usize))
    requires
        lo <= hi <= chars@.len(),
    ensures
        lo <= r.0 <= r.1 <= hi,
        chars@.subrange(r.0 as int, r.1 as int) == trim(chars@.subrange(lo as int, hi as int)),
{
    let ghost s = chars@.subrange(lo as int, hi as int);
    let mut a = lo;
    while a < hi && char_is_white_space(chars[a])
        invariant
            lo <= a <= hi <= chars@.len(),
            forall|j: int| lo <= j < a ==> is_white_space(chars@[j]),
        decreases hi - a,
    {
        a += 1;
    }
    proof {
        assert forall|j: int| 0 <= j < a - lo implies is_white_space(s[j]) by {
            assert(s[j] == chars@[lo + j]);
        }
        if a < hi {
            assert(s[a - lo] == chars@[a as int]);
        }
        lemma_trim_start(s, a - lo);
        assert(s.skip(a - lo) =~= chars@.subrange(a as int, hi as int));
    }
    let ghost t = chars@.subrange(a as int, hi as int);
    let mut b = hi;
    while b > a && char_is_white_space(chars[b - 1])
        invariant
            lo <= a <= b <= hi <= chars@.len(),
            forall|j: int| b <= j < hi ==> is_white_space(chars@[j]),
        decreases b - a,
    {
        b -= 1;
    }
    proof {
        assert forall|j: int| b - a <= j < t.len() implies is_white_space(t[j]) by {
            assert(t[j] == chars@[a + j]);
        }
        if b > a {
            assert(t[b - a - 1] == chars@[b - 1]);
        }
        lemma_trim_end(t, b - a);
        assert(t.take(b - a) =~= chars@.subrange(a as int, b as int));
    }
    (a, b)
}

/// The decimal `i32` that `chars[lo..hi]` spells, as `str::parse::<i32>` reads it.
pub fn parse_i32_in(chars: &Vec<char>, lo: usize, hi: usize) -> (r: Result<i32, NumberError>)
    requires
        lo <= hi <= chars@.len(),
    ensures
        match parse_i32(chars@.subrange(lo as int, hi as int)) {
            Ok(v) => r == Ok::<i32, NumberError>(v as i32) && i32::MIN <= v <= i32::MAX,
            Err(e) => r == Err::<i32, NumberError>(e),
        },
{
    let ghost s = chars@.subrange(lo as int, hi as int);
    if lo == hi {
        return Err(NumberError::Empty);
    }
    let first = chars[lo];
    assert(s[0] == first);
    if hi - lo == 1 && (first == '+' || first == '-') {
        return Err(NumberError::InvalidDigit);
    }
    let negative = first == '-';
    let start = if first == '+' || first == '-' {
        lo + 1
    } else {
        lo
    };
    let ghost digits = chars@.subrange(start as int, hi as int);
    assert(parse_i32(s) == parse_digits(digits, negative, 0)) by {
        if first == '+' || first == '-' {
            assert(s.drop_first() =~= digits);
        } else {
            assert(s =~= digits);
        }
    }
    let mut i = start;
    let mut acc: i32 = 0;
    while i < hi
        invariant
            lo <= start <= i <= hi <= chars@.len(),
            s == chars@.subrange(lo as int, hi as int),
            digits == chars@.subrange(start as int, hi as int),
            parse_i32(s) == parse_digits(digits, negative, 0),
            parse_digits(digits, negative, 0) == parse_digits(
                chars@.subrange(i as int, hi as int),
                negative,
                acc as int,
            ),
        decreases hi - i,
    {
        let ghost rest = chars@.subrange(i as int, hi as int);
        let c = chars[i];
        assert(rest[0] == c);
        let code = c as u32;
        if code < 0x30 || code > 0x39 {
            return Err(NumberError::InvalidDigit);
        }
        let digit = (code - 0x30) as i64;
        let next: i64 = if negative {
            (acc as i64) * 10 - digit
        } else {
            (acc as i64) * 10 + digit
        };
        if next > i32::MAX as i64 {
            return Err(NumberError::PosOverflow);
        }
        if next < i32::MIN as i64 {
            return Err(NumberError::NegOverflow);
        }
        assert(rest.drop_first() =~= chars@.subrange(i + 1, hi as int));
        acc = next as i32;
        i += 1;
    }
    Ok(acc)
}

/// The characters `char::to_uppercase` yields for `c`.
pub uninterp spec fn uppercase_mapping(c: char) -> Seq<char>;

/// `char::to_uppercase`, collected into a `String`: the Unicode uppercase mapping of `c`
/// (`c` itself when it has none). What the mapping is for each character is left to
/// the name `uppercase_mapping`.
#[verifier::external_body]
fn uppercase_of(c: char) -> (r: String)
    ensures
        r@ == uppercase_mapping(c),
{
    c.to_uppercase().collect()
}

/// A piece name as shown to a player: its first character in upper case, or
/// `Unknown` for an empty name.
pub fn display_piece_name(name: &str) -> (r: String)
    ensures
        name@.len() == 0 ==> r@ == "Unknown"@,
        name@.len() > 0 ==> r@ == uppercase_mapping(name@[0]) + name@.drop_first(),
{
    let len = name.unicode_len();
    if len == 0 {
        return "Unknown".to_string();
    }
    let first = name.get_char(0);
    let first_upper = uppercase_of(first);
    with_first_replaced(first_upper, name)
}

/// `name` with its first character replaced by the text `first_upper`.
pub fn with_first_replaced(first_upper: String, name: &str) -> (r: String)
    requires
        name@.len() > 0,
    ensures
        r@ == first_upper@ + name@.drop_first(),
{
    let len = name.unicode_len();
    let mut shown = first_upper;
    let rest = name.substring_char(1, len);
    shown.append(rest);
    assert(rest@ =~= name@.drop_first());
    shown
}

} // verus!

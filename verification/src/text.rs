//! Character-level text helpers: trimming, splitting and decimal numbers.
//!
//! Text is modelled as `Seq<char>`. Every executable helper works on a slice of
//! characters and is specified by a spec function of the same meaning.

use vstd::prelude::*;
use vstd::slice::slice_subrange;

verus! {

/// `String::push` appends the given character to the end of the string.
pub assume_specification[ String::push ](s: &mut String, c: char)
    ensures
        final(s)@ == old(s)@.push(c),
;

/// The characters of the Unicode `White_Space` property.
pub open spec fn is_whitespace(c: char) -> bool {
    ||| '\u{9}' <= c <= '\u{d}'
    ||| c == '\u{20}'
    ||| c == '\u{85}'
    ||| c == '\u{a0}'
    ||| c == '\u{1680}'
    ||| '\u{2000}' <= c <= '\u{200a}'
    ||| c == '\u{2028}'
    ||| c == '\u{2029}'
    ||| c == '\u{202f}'
    ||| c == '\u{205f}'
    ||| c == '\u{3000}'
}

pub fn whitespace(c: char) -> (r: bool)
    ensures
        r == is_whitespace(c),
{
    ('\u{9}' <= c && c <= '\u{d}') || c == '\u{20}' || c == '\u{85}' || c == '\u{a0}' || c
        == '\u{1680}' || ('\u{2000}' <= c && c <= '\u{200a}') || c == '\u{2028}' || c == '\u{2029}'
        || c == '\u{202f}' || c == '\u{205f}' || c == '\u{3000}'
}

/// A set of characters that can be trimmed off the ends of a text.
#[derive(Clone, Copy)]
pub enum CharClass {
    Whitespace,
    Dot,
    Slash,
    SquareBracket,
}

impl CharClass {
    pub open spec fn has(self, c: char) -> bool {
        match self {
            CharClass::Whitespace => is_whitespace(c),
            CharClass::Dot => c == '.',
            CharClass::Slash => c == '/',
            CharClass::SquareBracket => c == '[' || c == ']',
        }
    }

    pub fn holds(&self, c: char) -> (r: bool)
        ensures
            r == self.has(c),
    {
        match self {
            CharClass::Whitespace => whitespace(c),
            CharClass::Dot => c == '.',
            CharClass::Slash => c == '/',
            CharClass::SquareBracket => c == '[' || c == ']',
        }
    }
}

/// `s` without its leading characters of `class`.
pub open spec fn trim_start(s: Seq<char>, class: CharClass) -> Seq<char>
    decreases s.len(),
{
    if s.len() > 0 && class.has(s[0]) {
        trim_start(s.drop_first(), class)
    } else {
        s
    }
}

/// `s` without its trailing characters of `class`.
pub open spec fn trim_end(s: Seq<char>, class: CharClass) -> Seq<char>
    decreases s.len(),
{
    if s.len() > 0 && class.has(s.last()) {
        trim_end(s.drop_last(), class)
    } else {
        s
    }
}

/// `s` without white space at either end.
pub open spec fn trim(s: Seq<char>) -> Seq<char> {
    trim_end(trim_start(s, CharClass::Whitespace), CharClass::Whitespace)
}

/// The position of the first `c` in `s`, or the length of `s` if there is none.
pub open spec fn first_index(s: Seq<char>, c: char) -> int
    decreases s.len(),
{
    if s.len() == 0 {
        0
    } else if s[0] == c {
        0
    } else {
        1 + first_index(s.drop_first(), c)
    }
}

/// The position of the last `c` in `s`, or -1 if there is none.
pub open spec fn last_index(s: Seq<char>, c: char) -> int
    decreases s.len(),
{
    if s.len() == 0 {
        -1
    } else if s.last() == c {
        s.len() - 1
    } else {
        last_index(s.drop_last(), c)
    }
}

/// The pieces of `s` between the occurrences of `c`; always at least one piece.
pub open spec fn split(s: Seq<char>, c: char) -> Seq<Seq<char>>
    decreases s.len(),
{
    let i = first_index(s, c);
    if 0 <= i < s.len() {
        seq![s.take(i)] + split(s.skip(i + 1), c)
    } else {
        seq![s]
    }
}

/// `s` without one trailing carriage return.
pub open spec fn strip_return(s: Seq<char>) -> Seq<char> {
    if s.len() > 0 && s.last() == '\r' {
        s.drop_last()
    } else {
        s
    }
}

/// The lines of `s`: ended by a line feed, optionally preceded by a carriage
/// return; the end of the last line may be missing.
pub open spec fn lines(s: Seq<char>) -> Seq<Seq<char>>
    decreases s.len(),
{
    let i = first_index(s, '\n');
    if s.len() == 0 {
        seq![]
    } else if 0 <= i < s.len() {
        seq![strip_return(s.take(i))] + lines(s.skip(i + 1))
    } else {
        seq![s]
    }
}

/// The length of the longest prefix of `s` without white space.
pub open spec fn token_length(s: Seq<char>) -> int
    decreases s.len(),
{
    if s.len() == 0 || is_whitespace(s[0]) {
        0
    } else {
        1 + token_length(s.drop_first())
    }
}

pub proof fn lemma_token_length(s: Seq<char>)
    ensures
        0 <= token_length(s) <= s.len(),
        forall|i: int| 0 <= i < token_length(s) ==> !is_whitespace(#[trigger] s[i]),
        token_length(s) < s.len() ==> is_whitespace(s[token_length(s)]),
    decreases s.len(),
{
    if s.len() > 0 && !is_whitespace(s[0]) {
        let rest = s.drop_first();
        lemma_token_length(rest);
        assert forall|i: int| 0 <= i < token_length(s) implies !is_whitespace(
            #[trigger] s[i],
        ) by {
            if i > 0 {
                assert(s[i] == rest[i - 1]);
            }
        }
        if token_length(s) < s.len() {
            assert(s[token_length(s)] == rest[token_length(rest)]);
        }
    }
}

pub proof fn lemma_trim_start_len(s: Seq<char>, class: CharClass)
    ensures
        trim_start(s, class).len() <= s.len(),
    decreases s.len(),
{
    if s.len() > 0 && class.has(s[0]) {
        lemma_trim_start_len(s.drop_first(), class);
    }
}

/// The maximal runs of characters in `s` that are not white space.
pub open spec fn tokens(s: Seq<char>) -> Seq<Seq<char>>
    decreases s.len(),
    via tokens_decreases
{
    let t = trim_start(s, CharClass::Whitespace);
    if t.len() == 0 {
        seq![]
    } else {
        let n = token_length(t);
        seq![t.take(n)] + tokens(t.skip(n))
    }
}

#[via_fn]
proof fn tokens_decreases(s: Seq<char>) {
    let t = trim_start(s, CharClass::Whitespace);
    lemma_trim_start_len(s, CharClass::Whitespace);
    lemma_trim_start_head(s, CharClass::Whitespace);
    lemma_token_length(t);
}

pub proof fn lemma_trim_start_head(s: Seq<char>, class: CharClass)
    ensures
        trim_start(s, class).len() > 0 ==> !class.has(trim_start(s, class)[0]),
    decreases s.len(),
{
    if s.len() > 0 && class.has(s[0]) {
        lemma_trim_start_head(s.drop_first(), class);
    }
}

/// The ASCII upper-case letters mapped to lower case; all else unchanged.
pub open spec fn lower_char(c: char) -> char {
    if 'A' <= c <= 'Z' {
        ((c as u32) + 32) as char
    } else {
        c
    }
}

pub open spec fn lower(s: Seq<char>) -> Seq<char> {
    Seq::new(s.len(), |i: int| lower_char(s[i]))
}

pub open spec fn starts_with(s: Seq<char>, prefix: Seq<char>) -> bool {
    prefix.len() <= s.len() && s.take(prefix.len() as int) == prefix
}

pub open spec fn is_digit(c: char) -> bool {
    '0' <= c <= '9'
}

pub open spec fn all_digits(s: Seq<char>) -> bool {
    forall|i: int| 0 <= i < s.len() ==> is_digit(#[trigger] s[i])
}

/// The number that the decimal digits of `s` spell.
pub open spec fn digits_value(s: Seq<char>) -> nat
    decreases s.len(),
{
    if s.len() == 0 {
        0
    } else {
        digits_value(s.drop_last()) * 10 + (s.last() as u32 - '0' as u32) as nat
    }
}

/// An unsigned decimal number of at most `max`: one or more digits, with an
/// optional plus sign in front.
pub open spec fn unsigned(s: Seq<char>, max: nat) -> Option<nat> {
    let digits = if s.len() > 0 && s[0] == '+' {
        s.drop_first()
    } else {
        s
    };
    if digits.len() > 0 && all_digits(digits) && digits_value(digits) <= max {
        Some(digits_value(digits))
    } else {
        None
    }
}

/// What is wrong with the notation of a number.
#[derive(Debug, Clone, Copy, PartialEq, Eq, Structural)]
pub enum NumberError {
    Empty,
    InvalidDigit,
    TooLarge,
}

/// What is wrong with digits of a number of at most `max`: of several things, the
/// one that is met first from the left.
pub open spec fn digits_error(digits: Seq<char>, max: nat) -> Option<NumberError>
    decreases digits.len(),
{
    if digits.len() == 0 {
        None
    } else {
        match digits_error(digits.drop_last(), max) {
            Some(e) => Some(e),
            None => if !is_digit(digits.last()) {
                Some(NumberError::InvalidDigit)
            } else if digits_value(digits) > max {
                Some(NumberError::TooLarge)
            } else {
                None
            },
        }
    }
}

/// What is wrong with an unsigned decimal number of at most `max`, if anything is.
pub open spec fn number_error(s: Seq<char>, max: nat) -> Option<NumberError> {
    let digits = if s.len() > 0 && s[0] == '+' {
        s.drop_first()
    } else {
        s
    };
    if s.len() == 0 {
        Some(NumberError::Empty)
    } else if digits.len() == 0 {
        Some(NumberError::InvalidDigit)
    } else {
        digits_error(digits, max)
    }
}

/// Something is wrong with a number exactly if it has no value.
pub proof fn law_numbers_without_value_have_an_error(s: Seq<char>, max: nat)
    ensures
        number_error(s, max) is Some <==> unsigned(s, max) is None,
{
    let digits = if s.len() > 0 && s[0] == '+' {
        s.drop_first()
    } else {
        s
    };
    lemma_digits_error(digits, max);
}

proof fn lemma_digits_error(digits: Seq<char>, max: nat)
    ensures
        digits_error(digits, max) is None <==> digits.len() == 0 || (all_digits(digits)
            && digits_value(digits) <= max),
    decreases digits.len(),
{
    if digits.len() > 0 {
        let init = digits.drop_last();
        lemma_digits_error(init, max);
        assert(all_digits(digits) <==> all_digits(init) && is_digit(digits.last())) by {
            if all_digits(digits) {
                assert forall|i: int| 0 <= i < init.len() implies is_digit(#[trigger] init[i]) by {
                    assert(digits[i] == init[i]);
                }
                assert(is_digit(digits[digits.len() - 1]));
            }
            if all_digits(init) && is_digit(digits.last()) {
                assert forall|i: int| 0 <= i < digits.len() implies is_digit(
                    #[trigger] digits[i],
                ) by {
                    if i < init.len() {
                        assert(init[i] == digits[i]);
                    }
                }
            }
        }
    }
}

/// The decimal notation of `n`, without leading zeros.
pub open spec fn decimal(n: nat) -> Seq<char>
    decreases n,
{
    let digit = ('0' as u32 + n % 10) as char;
    if n < 10 {
        seq![digit]
    } else {
        decimal(n / 10).push(digit)
    }
}

pub fn to_chars(s: &str) -> (r: Vec<char>)
    ensures
        r@ == s@,
{
    let mut r: Vec<char> = Vec::new();
    for c in it: s.chars()
        invariant
            r@ == s@.take(it.index() as int),
            it.seq() == s@,
    {
        r.push(c);
    }
    assert(s@.take(s@.len() as int) == s@);
    r
}

pub fn from_chars(v: &[char]) -> (s: String)
    ensures
        s@ == v@,
{
    let mut s = String::new();
    let n: usize = v.len();
    for i in 0..n
        invariant
            n == v@.len(),
            s@ == v@.take(i as int),
    {
        s.push(v[i]);
        assert(v@.take(i as int).push(v@[i as int]) == v@.take(i + 1));
    }
    assert(v@.take(n as int) == v@);
    s
}

/// Appends all of `v` to `s`.
pub fn push_chars(s: &mut String, v: &[char])
    ensures
        final(s)@ == old(s)@ + v@,
{
    let ghost before = s@;
    let n: usize = v.len();
    for i in 0..n
        invariant
            n == v@.len(),
            s@ == before + v@.take(i as int),
    {
        s.push(v[i]);
        assert(v@.take(i as int).push(v@[i as int]) == v@.take(i + 1));
    }
    assert(v@.take(n as int) == v@);
}

pub fn same_chars(a: &[char], b: &[char]) -> (r: bool)
    ensures
        r == (a@ == b@),
{
    let n: usize = a.len();
    if n != b.len() {
        return false;
    }
    let mut i: usize = 0;
    while i < n
        invariant
            i <= n,
            n == a@.len(),
            n == b@.len(),
            forall|j: int| 0 <= j < i ==> a@[j] == b@[j],
        decreases n - i,
    {
        if a[i] != b[i] {
            assert(a@[i as int] != b@[i as int]);
            return false;
        }
        i = i + 1;
    }
    assert(a@ =~= b@);
    true
}

/// Whether the characters are those of the text `t`.
pub fn equals(a: &[char], t: &str) -> (r: bool)
    ensures
        r == (a@ == t@),
{
    let chars = to_chars(t);
    same_chars(a, chars.as_slice())
}

pub fn has_prefix(a: &[char], prefix: &str) -> (r: bool)
    ensures
        r == starts_with(a@, prefix@),
{
    let chars = to_chars(prefix);
    let n: usize = chars.len();
    if a.len() < n {
        return false;
    }
    same_chars(slice_subrange(a, 0, n), chars.as_slice())
}

/// The characters from position `from` on.
pub fn tail<'a>(s: &'a [char], from: usize) -> (r: &'a [char])
    requires
        from <= s@.len(),
    ensures
        r@ == s@.skip(from as int),
{
    slice_subrange(s, from, s.len())
}

/// The characters before position `to`.
pub fn head<'a>(s: &'a [char], to: usize) -> (r: &'a [char])
    requires
        to <= s@.len(),
    ensures
        r@ == s@.take(to as int),
{
    slice_subrange(s, 0, to)
}

pub fn skip_class<'a>(s: &'a [char], class: CharClass) -> (r: &'a [char])
    ensures
        r@ == trim_start(s@, class),
{
    let n: usize = s.len();
    let mut i: usize = 0;
    assert(s@.skip(0) == s@);
    while i < n && class.holds(s[i])
        invariant
            i <= n,
            n == s@.len(),
            trim_start(s@, class) == trim_start(s@.skip(i as int), class),
        decreases n - i,
    {
        assert(s@.skip(i as int)[0] == s@[i as int]);
        assert(s@.skip(i as int).drop_first() == s@.skip(i + 1));
        i = i + 1;
    }
    assert(i < n ==> s@.skip(i as int)[0] == s@[i as int]);
    tail(s, i)
}

pub fn drop_class_end<'a>(s: &'a [char], class: CharClass) -> (r: &'a [char])
    ensures
        r@ == trim_end(s@, class),
{
    let mut i: usize = s.len();
    assert(s@.take(i as int) == s@);
    while i > 0 && class.holds(s[i - 1])
        invariant
            i <= s@.len(),
            trim_end(s@, class) == trim_end(s@.take(i as int), class),
        decreases i,
    {
        assert(s@.take(i as int).last() == s@[i - 1]);
        assert(s@.take(i as int).drop_last() == s@.take(i - 1));
        i = i - 1;
    }
    assert(i > 0 ==> s@.take(i as int).last() == s@[i - 1]);
    head(s, i)
}

pub fn trimmed<'a>(s: &'a [char]) -> (r: &'a [char])
    ensures
        r@ == trim(s@),
{
    drop_class_end(skip_class(s, CharClass::Whitespace), CharClass::Whitespace)
}

pub proof fn lemma_first_index(s: Seq<char>, c: char)
    ensures
        0 <= first_index(s, c) <= s.len(),
        forall|i: int| 0 <= i < first_index(s, c) ==> #[trigger] s[i] != c,
        first_index(s, c) < s.len() ==> s[first_index(s, c)] == c,
    decreases s.len(),
{
    if s.len() > 0 && s[0] != c {
        let rest = s.drop_first();
        lemma_first_index(rest, c);
        assert forall|i: int| 0 <= i < first_index(s, c) implies #[trigger] s[i] != c by {
            if i > 0 {
                assert(s[i] == rest[i - 1]);
            }
        }
        if first_index(s, c) < s.len() {
            assert(s[first_index(s, c)] == rest[first_index(rest, c)]);
        }
    }
}

pub proof fn lemma_last_index(s: Seq<char>, c: char)
    ensures
        -1 <= last_index(s, c) < s.len(),
        forall|i: int| last_index(s, c) < i < s.len() ==> #[trigger] s[i] != c,
        last_index(s, c) >= 0 ==> s[last_index(s, c)] == c,
    decreases s.len(),
{
    if s.len() > 0 && s.last() != c {
        let rest = s.drop_last();
        lemma_last_index(rest, c);
        assert forall|i: int| last_index(s, c) < i < s.len() implies #[trigger] s[i] != c by {
            if i < s.len() - 1 {
                assert(s[i] == rest[i]);
            }
        }
        if last_index(s, c) >= 0 {
            assert(s[last_index(s, c)] == rest[last_index(rest, c)]);
        }
    }
}

/// The position of the first `c`, or the length if there is none.
pub fn find_first(s: &[char], c: char) -> (r: usize)
    ensures
        r == first_index(s@, c),
        r <= s@.len(),
{
    let n: usize = s.len();
    let mut i: usize = 0;
    assert(s@.skip(0) == s@);
    while i < n && s[i] != c
        invariant
            i <= n,
            n == s@.len(),
            first_index(s@, c) == i + first_index(s@.skip(i as int), c),
        decreases n - i,
    {
        assert(s@.skip(i as int)[0] == s@[i as int]);
        assert(s@.skip(i as int).drop_first() == s@.skip(i + 1));
        i = i + 1;
    }
    assert(i < n ==> s@.skip(i as int)[0] == s@[i as int]);
    i
}

/// The position of the last `c`, if there is one.
pub fn find_last(s: &[char], c: char) -> (r: Option<usize>)
    ensures
        match r {
            Some(i) => i == last_index(s@, c) && i < s@.len(),
            None => last_index(s@, c) == -1,
        },
{
    let mut i: usize = s.len();
    assert(s@.take(i as int) == s@);
    while i > 0
        invariant
            i <= s@.len(),
            last_index(s@, c) == last_index(s@.take(i as int), c),
        decreases i,
    {
        assert(s@.take(i as int).last() == s@[i - 1]);
        if s[i - 1] == c {
            return Some(i - 1);
        }
        assert(s@.take(i as int).drop_last() == s@.take(i - 1));
        i = i - 1;
    }
    None
}

pub fn contains_char(s: &[char], c: char) -> (r: bool)
    ensures
        r == s@.contains(c),
{
    let i: usize = find_first(s, c);
    proof {
        lemma_first_index(s@, c);
        if s@.contains(c) {
            let k = choose|k: int| 0 <= k < s@.len() && s@[k] == c;
            assert(s@[k] == c);
        }
    }
    i < s.len()
}

pub fn to_lower_char(c: char) -> (r: char)
    ensures
        r == lower_char(c),
{
    if 'A' <= c && c <= 'Z' {
        let b: u8 = c as u8;
        let l: u8 = b + 32;
        l as char
    } else {
        c
    }
}

/// The characters in ASCII lower case, as a string.
pub fn lowered(v: &[char]) -> (s: String)
    ensures
        s@ == lower(v@),
{
    let mut s = String::new();
    let n: usize = v.len();
    for i in 0..n
        invariant
            n == v@.len(),
            s@ == lower(v@.take(i as int)),
    {
        s.push(to_lower_char(v[i]));
        assert(lower(v@.take(i as int)).push(lower_char(v@[i as int])) =~= lower(v@.take(i + 1)));
    }
    assert(v@.take(n as int) == v@);
    s
}

proof fn lemma_digits_value_prefix(s: Seq<char>, i: int)
    requires
        0 <= i <= s.len(),
        all_digits(s),
    ensures
        digits_value(s.take(i)) <= digits_value(s),
    decreases s.len(),
{
    if i == s.len() {
        assert(s.take(i) == s);
    } else {
        let front = s.drop_last();
        assert(all_digits(front)) by {
            assert forall|j: int| 0 <= j < front.len() implies is_digit(#[trigger] front[j]) by {
                assert(front[j] == s[j]);
            }
        }
        lemma_digits_value_prefix(front, i);
        assert(front.take(i) == s.take(i));
    }
}

/// Reads an unsigned decimal number of at most `max`.
pub fn parse_unsigned(s: &[char], max: u64) -> (r: Option<u64>)
    ensures
        match r {
            Some(v) => unsigned(s@, max as nat) == Some(v as nat) && v <= max,
            None => unsigned(s@, max as nat) is None,
        },
{
    let digits: &[char] = if s.len() > 0 && s[0] == '+' {
        assert(s@.skip(1) == s@.drop_first());
        tail(s, 1)
    } else {
        s
    };
    let n: usize = digits.len();
    if n == 0 {
        return None;
    }
    let mut value: u64 = 0;
    let mut i: usize = 0;
    while i < n
        invariant
            i <= n,
            n == digits@.len(),
            n > 0,
            digits@ == (if s@.len() > 0 && s@[0] == '+' {
                s@.drop_first()
            } else {
                s@
            }),
            all_digits(digits@.take(i as int)),
            value == digits_value(digits@.take(i as int)),
            value <= max,
        decreases n - i,
    {
        let c: char = digits[i];
        let ghost next = digits@.take(i + 1);
        assert(next.drop_last() == digits@.take(i as int));
        assert(next.last() == c);
        if !('0' <= c && c <= '9') {
            assert(!is_digit(digits@[i as int]));
            return None;
        }
        let d: u64 = (c as u8 - 48) as u64;
        assert(all_digits(next)) by {
            assert forall|j: int| 0 <= j < next.len() implies is_digit(#[trigger] next[j]) by {
                if j < i {
                    assert(next[j] == digits@.take(i as int)[j]);
                }
            }
        }
        assert(digits_value(next) == value * 10 + d);
        if value > (max - (if d <= max { d } else { max })) / 10 || d > max {
            proof {
                if all_digits(digits@) {
                    lemma_digits_value_prefix(digits@, i + 1);
                }
            }
            return None;
        }
        value = value * 10 + d;
        i = i + 1;
    }
    assert(digits@.take(n as int) == digits@);
    Some(value)
}

/// Appends the decimal notation of `n` to `s`.
/// What is wrong with an unsigned decimal number of at most `max`, if anything is.
pub fn find_number_error(s: &[char], max: u64) -> (r: Option<NumberError>)
    ensures
        r == number_error(s@, max as nat),
{
    if s.len() == 0 {
        return Some(NumberError::Empty);
    }
    let digits: &[char] = if s[0] == '+' {
        tail(s, 1)
    } else {
        s
    };
    let ghost ds = digits@;
    assert(s@.skip(1) =~= s@.drop_first());
    let n: usize = digits.len();
    if n == 0 {
        return Some(NumberError::InvalidDigit);
    }
    let mut value: u64 = 0;
    let mut i: usize = 0;
    assert(ds.take(0) =~= seq![]);
    while i < n
        invariant
            i <= n,
            n == ds.len(),
            ds == digits@,
            value <= max,
            digits_error(ds.take(i as int), max as nat) is None,
            value == digits_value(ds.take(i as int)),
            n > 0,
            s@.len() > 0,
            ds == (if s@[0] == '+' {
                s@.drop_first()
            } else {
                s@
            }),
        decreases n - i,
    {
        let c: char = digits[i];
        let ghost next = ds.take(i + 1);
        assert(next.drop_last() =~= ds.take(i as int));
        assert(next.last() == c);
        if !('0' <= c && c <= '9') {
            proof {
                lemma_digits_error_take(ds, max as nat, i + 1);
            }
            return Some(NumberError::InvalidDigit);
        }
        let more: u128 = value as u128 * 10 + (c as u32 - '0' as u32) as u128;
        if more > max as u128 {
            proof {
                lemma_digits_error_take(ds, max as nat, i + 1);
            }
            return Some(NumberError::TooLarge);
        }
        value = more as u64;
        i = i + 1;
    }
    assert(ds.take(n as int) =~= ds);
    None
}

proof fn lemma_digits_error_take(digits: Seq<char>, max: nat, i: int)
    requires
        0 <= i <= digits.len(),
        digits_error(digits.take(i), max) is Some,
    ensures
        digits_error(digits, max) == digits_error(digits.take(i), max),
    decreases digits.len(),
{
    if i < digits.len() {
        assert(digits.drop_last().take(i) =~= digits.take(i));
        lemma_digits_error_take(digits.drop_last(), max, i);
    } else {
        assert(digits.take(i) =~= digits);
    }
}

pub fn push_decimal(s: &mut String, n: u64)
    ensures
        final(s)@ == old(s)@ + decimal(n as nat),
    decreases n,
{
    let digit: u8 = 48 + (n % 10) as u8;
    let ghost before = s@;
    if n >= 10 {
        push_decimal(s, n / 10);
    }
    s.push(digit as char);
    assert(s@ =~= before + decimal(n as nat));
}

/// The texts that the slices hold.
pub open spec fn texts(pieces: Seq<&[char]>) -> Seq<Seq<char>> {
    pieces.map_values(|p: &[char]| p@)
}

proof fn lemma_push_text<'a>(pieces: Seq<&'a [char]>, p: &'a [char], rest: Seq<Seq<char>>)
    ensures
        texts(pieces.push(p)) + rest == texts(pieces) + (seq![p@] + rest),
{
    assert(texts(pieces.push(p)) + rest =~= texts(pieces) + (seq![p@] + rest));
}

/// The pieces of `s` between the occurrences of `c`.
pub fn split_at_char<'a>(s: &'a [char], c: char) -> (r: Vec<&'a [char]>)
    ensures
        texts(r@) == split(s@, c),
{
    let mut r: Vec<&'a [char]> = Vec::new();
    let mut rest: &'a [char] = s;
    assert(texts(r@) + split(rest@, c) =~= split(s@, c));
    loop
        invariant
            texts(r@) + split(rest@, c) == split(s@, c),
        decreases rest@.len(),
    {
        let i: usize = find_first(rest, c);
        if i < rest.len() {
            let piece: &'a [char] = head(rest, i);
            let after: &'a [char] = tail(rest, i + 1);
            proof {
                lemma_push_text(r@, piece, split(after@, c));
            }
            r.push(piece);
            rest = after;
        } else {
            proof {
                lemma_push_text(r@, rest, seq![]);
                assert(split(rest@, c) =~= seq![rest@] + Seq::<Seq<char>>::empty());
                assert(texts(r@.push(rest)) + Seq::<Seq<char>>::empty() =~= texts(r@.push(rest)));
            }
            r.push(rest);
            return r;
        }
    }
}

/// The lines of `s`.
pub fn split_lines<'a>(s: &'a [char]) -> (r: Vec<&'a [char]>)
    ensures
        texts(r@) == lines(s@),
{
    let mut r: Vec<&'a [char]> = Vec::new();
    let mut rest: &'a [char] = s;
    assert(texts(r@) + lines(rest@) =~= lines(s@));
    while rest.len() > 0
        invariant
            texts(r@) + lines(rest@) == lines(s@),
        decreases rest@.len(),
    {
        let i: usize = find_first(rest, '\n');
        if i < rest.len() {
            let whole: &'a [char] = head(rest, i);
            let line: &'a [char] = if i > 0 && whole[i - 1] == '\r' {
                head(whole, i - 1)
            } else {
                whole
            };
            let after: &'a [char] = tail(rest, i + 1);
            proof {
                assert(line@ =~= strip_return(whole@));
                lemma_push_text(r@, line, lines(after@));
            }
            r.push(line);
            rest = after;
        } else {
            let after: &'a [char] = tail(rest, i);
            proof {
                lemma_push_text(r@, rest, seq![]);
                assert(lines(rest@) =~= seq![rest@] + Seq::<Seq<char>>::empty());
                assert(lines(after@) =~= Seq::<Seq<char>>::empty());
            }
            r.push(rest);
            rest = after;
        }
    }
    assert(texts(r@) + lines(rest@) =~= texts(r@));
    r
}

/// The maximal runs of characters in `s` that are not white space.
pub fn split_tokens<'a>(s: &'a [char]) -> (r: Vec<&'a [char]>)
    ensures
        texts(r@) == tokens(s@),
{
    let mut r: Vec<&'a [char]> = Vec::new();
    let mut rest: &'a [char] = s;
    assert(texts(r@) + tokens(rest@) =~= tokens(s@));
    loop
        invariant
            texts(r@) + tokens(rest@) == tokens(s@),
        decreases rest@.len(),
    {
        proof {
            lemma_trim_start_len(rest@, CharClass::Whitespace);
            lemma_trim_start_head(rest@, CharClass::Whitespace);
        }
        let t: &'a [char] = skip_class(rest, CharClass::Whitespace);
        if t.len() == 0 {
            assert(texts(r@) + tokens(rest@) =~= texts(r@));
            return r;
        }
        let mut n: usize = 0;
        assert(t@.skip(0) =~= t@);
        while n < t.len() && !whitespace(t[n])
            invariant
                n <= t@.len(),
                n + token_length(t@.skip(n as int)) == token_length(t@),
            decreases t@.len() - n,
        {
            assert(t@.skip(n as int).drop_first() =~= t@.skip(n + 1));
            n = n + 1;
        }
        assert(n == token_length(t@));
        let token: &'a [char] = head(t, n);
        let after: &'a [char] = tail(t, n);
        proof {
            lemma_token_length(t@);
            lemma_push_text(r@, token, tokens(after@));
        }
        r.push(token);
        rest = after;
    }
}

/// Trimming the end of a text with one more character in front.
proof fn lemma_trim_end_cons(c: char, s: Seq<char>, class: CharClass)
    ensures
        trim_end(seq![c] + s, class) == (if trim_end(s, class).len() > 0 {
            seq![c] + trim_end(s, class)
        } else if class.has(c) {
            seq![]
        } else {
            seq![c]
        }),
    decreases s.len(),
{
    let whole = seq![c] + s;
    if s.len() > 0 {
        assert(whole.last() == s.last());
        if class.has(s.last()) {
            assert(whole.drop_last() =~= seq![c] + s.drop_last());
            lemma_trim_end_cons(c, s.drop_last(), class);
        }
    } else {
        assert(whole =~= seq![c]);
        assert(whole.drop_last() =~= seq![]);
        assert(trim_end(seq![], class) =~= seq![]);
    }
}

/// It does not matter which end is trimmed first.
pub proof fn lemma_trim_commutes(s: Seq<char>, class: CharClass)
    ensures
        trim_start(trim_end(s, class), class) == trim_end(trim_start(s, class), class),
    decreases s.len(),
{
    if s.len() > 0 {
        let rest = s.drop_first();
        assert(s =~= seq![s[0]] + rest);
        lemma_trim_end_cons(s[0], rest, class);
        lemma_trim_commutes(rest, class);
        let cut = trim_end(rest, class);
        if cut.len() > 0 {
            assert((seq![s[0]] + cut).drop_first() =~= cut);
        }
    }
}

/// Trimming takes characters away and adds none.
pub proof fn lemma_trimmed_chars(s: Seq<char>, class: CharClass)
    ensures
        forall|c: char| #[trigger] trim_start(s, class).contains(c) ==> s.contains(c),
        forall|c: char| #[trigger] trim_end(s, class).contains(c) ==> s.contains(c),
    decreases s.len(),
{
    if s.len() > 0 {
        lemma_trimmed_chars(s.drop_first(), class);
        lemma_trimmed_chars(s.drop_last(), class);
        assert forall|c: char| #[trigger] trim_start(s, class).contains(c) implies s.contains(c) by {
            if class.has(s[0]) {
                assert(trim_start(s.drop_first(), class).contains(c));
                let i = s.drop_first().index_of(c);
                assert(s[i + 1] == c);
            }
        }
        assert forall|c: char| #[trigger] trim_end(s, class).contains(c) implies s.contains(c) by {
            if class.has(s.last()) {
                assert(trim_end(s.drop_last(), class).contains(c));
                let i = s.drop_last().index_of(c);
                assert(s[i] == c);
            }
        }
    }
}

/// The decimal notation of a number is read back as the number, and consists of digits
/// alone.
pub proof fn law_decimal_is_read_back(n: nat, max: nat)
    requires
        n <= max,
    ensures
        unsigned(decimal(n), max) == Some(n),
        all_digits(decimal(n)),
        decimal(n).len() > 0,
{
    lemma_decimal(n);
    assert(is_digit(decimal(n)[0]));
}

proof fn lemma_decimal(n: nat)
    ensures
        decimal(n).len() > 0,
        all_digits(decimal(n)),
        digits_value(decimal(n)) == n,
    decreases n,
{
    let digit = ('0' as u32 + n % 10) as char;
    assert(is_digit(digit));
    assert(digit as u32 - '0' as u32 == n % 10);
    if n >= 10 {
        lemma_decimal(n / 10);
        let front = decimal(n / 10);
        assert(front.push(digit).drop_last() =~= front);
        assert forall|i: int| 0 <= i < front.push(digit).len() implies is_digit(
            #[trigger] front.push(digit)[i],
        ) by {
            if i < front.len() {
                assert(is_digit(front[i]));
            }
        }
    } else {
        assert(seq![digit].drop_last() =~= seq![]);
        assert(digits_value(seq![]) == 0);
        assert(digits_value(seq![digit]) == n);
    }
}

} // verus!

//! What cutting up and reading texts comes to.

use vstd::prelude::*;

use crate::text::{
    all_digits, digits_error, digits_value, first_index, is_digit, is_whitespace,
    law_numbers_without_value_have_an_error, lemma_first_index, lemma_token_length, lines, lower,
    lower_char, number_error, split, starts_with, token_length, tokens, trim, trim_end, trim_start,
    unsigned, CharClass, NumberError,
};

verus! {

/// What is cut off at the beginning is exactly the longest run of such characters.
pub proof fn law_trimming_the_start(front: Seq<char>, rest: Seq<char>, class: CharClass)
    requires
        forall|i: int| 0 <= i < front.len() ==> class.has(#[trigger] front[i]),
        rest.len() > 0 ==> !class.has(rest[0]),
    ensures
        trim_start(front + rest, class) == rest,
    decreases front.len(),
{
    let whole = front + rest;
    if front.len() > 0 {
        let less = front.drop_first();
        assert forall|i: int| 0 <= i < less.len() implies class.has(#[trigger] less[i]) by {
            assert(less[i] == front[i + 1]);
        }
        assert(class.has(front[0]));
        law_trimming_the_start(less, rest, class);
        assert(whole.drop_first() =~= less + rest);
    } else {
        assert(whole =~= rest);
    }
}

/// What is cut off at the end is exactly the longest run of such characters.
pub proof fn law_trimming_the_end(rest: Seq<char>, back: Seq<char>, class: CharClass)
    requires
        forall|i: int| 0 <= i < back.len() ==> class.has(#[trigger] back[i]),
        rest.len() > 0 ==> !class.has(rest.last()),
    ensures
        trim_end(rest + back, class) == rest,
    decreases back.len(),
{
    let whole = rest + back;
    if back.len() > 0 {
        let less = back.drop_last();
        assert forall|i: int| 0 <= i < less.len() implies class.has(#[trigger] less[i]) by {
            assert(less[i] == back[i]);
        }
        assert(class.has(back[back.len() - 1]));
        law_trimming_the_end(rest, less, class);
        assert(whole.drop_last() =~= rest + less);
    } else {
        assert(whole =~= rest);
    }
}

/// Where a text begins once its beginning has been cut off.
pub proof fn lemma_start(s: Seq<char>, class: CharClass) -> (a: int)
    ensures
        0 <= a <= s.len(),
        trim_start(s, class) == s.skip(a),
        forall|i: int| 0 <= i < a ==> class.has(#[trigger] s[i]),
        a < s.len() ==> !class.has(s[a]),
    decreases s.len(),
{
    if s.len() > 0 && class.has(s[0]) {
        let rest = s.drop_first();
        let a = lemma_start(rest, class);
        assert(rest.skip(a) =~= s.skip(a + 1));
        assert forall|i: int| 0 <= i < a + 1 implies class.has(#[trigger] s[i]) by {
            if i > 0 {
                assert(s[i] == rest[i - 1]);
            }
        }
        a + 1
    } else {
        assert(s.skip(0) =~= s);
        0
    }
}

/// Where a text ends once its end has been cut off.
pub proof fn lemma_end(s: Seq<char>, class: CharClass) -> (b: int)
    ensures
        0 <= b <= s.len(),
        trim_end(s, class) == s.take(b),
        forall|i: int| b <= i < s.len() ==> class.has(#[trigger] s[i]),
        b > 0 ==> !class.has(s[b - 1]),
    decreases s.len(),
{
    if s.len() > 0 && class.has(s.last()) {
        let rest = s.drop_last();
        let b = lemma_end(rest, class);
        assert(rest.take(b) =~= s.take(b));
        assert forall|i: int| b <= i < s.len() implies class.has(#[trigger] s[i]) by {
            if i < rest.len() {
                assert(s[i] == rest[i]);
            }
        }
        b
    } else {
        assert(s.take(s.len() as int) =~= s);
        s.len() as int
    }
}

/// Of the ASCII characters, blank, tab, line feed, vertical tab, form feed and carriage
/// return are white space, and no other. Beyond ASCII, these are the characters that
/// Unicode calls so.
pub proof fn law_white_space(c: char)
    ensures
        c as u32 <= 127 ==> (is_whitespace(c) <==> c as u32 == 32 || 9 <= c as u32 <= 13),
        c as u32 > 127 ==> (is_whitespace(c) <==> {
            ||| c as u32 == 133
            ||| c as u32 == 160
            ||| c as u32 == 5760
            ||| 8192 <= c as u32 <= 8202
            ||| c as u32 == 8232
            ||| c as u32 == 8233
            ||| c as u32 == 8239
            ||| c as u32 == 8287
            ||| c as u32 == 12288
        }),
{
}

/// White space around a text is cut off, and nothing else.
pub proof fn law_trimmed_texts(front: Seq<char>, core: Seq<char>, back: Seq<char>)
    requires
        forall|i: int| 0 <= i < front.len() ==> is_whitespace(#[trigger] front[i]),
        forall|i: int| 0 <= i < back.len() ==> is_whitespace(#[trigger] back[i]),
        core.len() > 0 ==> !is_whitespace(core[0]) && !is_whitespace(core.last()),
    ensures
        trim(front + core + back) == core,
{
    let class = CharClass::Whitespace;
    if core.len() > 0 {
        assert(front + core + back =~= front + (core + back));
        assert((core + back)[0] == core[0]);
        law_trimming_the_start(front, core + back, class);
        law_trimming_the_end(core, back, class);
    } else {
        let all = front + core + back;
        assert forall|i: int| 0 <= i < all.len() implies class.has(#[trigger] all[i]) by {
            if i < front.len() {
                assert(all[i] == front[i]);
            } else {
                assert(all[i] == back[i - front.len()]);
            }
        }
        law_trimming_the_start(all, seq![], class);
        assert(all + seq![] =~= all);
        assert(core =~= seq![]);
    }
}

/// Capital letters of ASCII become small ones, and every other character stays.
pub proof fn law_small_letters(s: Seq<char>, i: int)
    requires
        0 <= i < s.len(),
    ensures
        lower(s).len() == s.len(),
        65 <= s[i] as u32 <= 90 ==> lower(s)[i] as u32 == s[i] as u32 + 32,
        !(65 <= s[i] as u32 <= 90) ==> lower(s)[i] == s[i],
        lower(lower(s)) == lower(s),
{
    assert forall|j: int| 0 <= j < s.len() implies #[trigger] lower(lower(s))[j] == lower(s)[j] by {
        assert(lower_char(lower_char(s[j])) == lower_char(s[j]));
    }
    assert(lower(lower(s)) =~= lower(s));
}

/// A text is split at every occurrence of a character: a piece without it is one piece,
/// and whatever is put behind it and that character is split on its own.
pub proof fn law_split_pieces(piece: Seq<char>, rest: Seq<char>, c: char)
    requires
        !piece.contains(c),
    ensures
        split(piece, c) == seq![piece],
        split(piece + seq![c] + rest, c) == seq![piece] + split(rest, c),
{
    let whole = piece + seq![c] + rest;
    lemma_first(piece, rest, c);
    lemma_first_index(piece, c);
    assert(whole.take(piece.len() as int) =~= piece);
    assert(whole.skip(piece.len() as int + 1) =~= rest);
    if first_index(piece, c) < piece.len() {
        assert(piece[first_index(piece, c)] == c);
    }
}

/// Splitting a text at a character and joining the pieces with it gives the text.
pub proof fn law_split_and_join(s: Seq<char>, c: char)
    ensures
        joined(split(s, c), c) == s,
        split(s, c).len() > 0,
        forall|i: int| 0 <= i < split(s, c).len() ==> !(#[trigger] split(s, c)[i]).contains(c),
    decreases s.len(),
{
    let i = first_index(s, c);
    lemma_first_index(s, c);
    if i < s.len() {
        let rest = s.skip(i + 1);
        law_split_and_join(rest, c);
        let pieces = split(s, c);
        assert(pieces =~= seq![s.take(i)] + split(rest, c));
        assert(pieces.drop_first() =~= split(rest, c));
        assert(joined(pieces, c) =~= s);
        assert forall|j: int| 0 <= j < pieces.len() implies !(#[trigger] pieces[j]).contains(c) by {
            if j == 0 {
                if s.take(i).contains(c) {
                    let k = s.take(i).index_of(c);
                    assert(s[k] == c);
                }
            } else {
                assert(pieces[j] == split(rest, c)[j - 1]);
            }
        }
    } else {
        assert(split(s, c) =~= seq![s]);
        if s.contains(c) {
            let k = s.index_of(c);
            assert(s[k] == c);
        }
    }
}

/// The pieces one after the other, with a character between any two.
pub open spec fn joined(pieces: Seq<Seq<char>>, c: char) -> Seq<char>
    decreases pieces.len(),
{
    if pieces.len() == 0 {
        seq![]
    } else if pieces.len() == 1 {
        pieces[0]
    } else {
        pieces[0] + seq![c] + joined(pieces.drop_first(), c)
    }
}

/// The first occurrence of a character is behind what does not hold it.
pub proof fn lemma_first(piece: Seq<char>, rest: Seq<char>, c: char)
    requires
        !piece.contains(c),
    ensures
        first_index(piece + seq![c] + rest, c) == piece.len(),
        first_index(piece, c) == piece.len(),
{
    let whole = piece + seq![c] + rest;
    lemma_first_index(whole, c);
    lemma_first_index(piece, c);
    let i = first_index(whole, c);
    assert(whole[piece.len() as int] == c);
    if i < piece.len() {
        assert(piece[i] == c);
    }
    if first_index(piece, c) < piece.len() {
        assert(piece[first_index(piece, c)] == c);
    }
}

/// A line ends in a line feed, with or without a carriage return in front of it, neither
/// of which is part of it; the last one needs none.
pub proof fn law_lines_end_in_line_feeds(line: Seq<char>, rest: Seq<char>)
    requires
        !line.contains('\n'),
    ensures
        line.len() > 0 ==> lines(line) == seq![line],
        line.len() > 0 && line.last() != '\r' ==> lines(line + seq!['\n'] + rest) == seq![line]
            + lines(rest),
        lines(line + seq!['\r', '\n'] + rest) == seq![line] + lines(rest),
        lines(seq!['\n'] + rest) == seq![Seq::<char>::empty()] + lines(rest),
{
    lemma_first(line, rest, '\n');
    let plain = line + seq!['\n'] + rest;
    assert(plain.take(line.len() as int) =~= line);
    assert(plain.skip(line.len() as int + 1) =~= rest);
    let dos = line + seq!['\r', '\n'] + rest;
    let returned = line.push('\r');
    assert(!returned.contains('\n')) by {
        if returned.contains('\n') {
            let k = returned.index_of('\n');
            assert(k < line.len() ==> line[k] == '\n');
        }
    }
    lemma_first(returned, rest, '\n');
    assert(dos =~= returned + seq!['\n'] + rest);
    assert(dos.take(returned.len() as int) =~= returned);
    assert(returned.drop_last() =~= line);
    assert(dos.skip(returned.len() as int + 1) =~= rest);
    let empty = Seq::<char>::empty();
    lemma_first(empty, rest, '\n');
    assert(empty + seq!['\n'] + rest =~= seq!['\n'] + rest);
    assert((seq!['\n'] + rest).take(0) =~= empty);
    assert((seq!['\n'] + rest).skip(1) =~= rest);
}

proof fn lemma_tokens_skip_space(front: Seq<char>, rest: Seq<char>)
    requires
        forall|i: int| 0 <= i < front.len() ==> is_whitespace(#[trigger] front[i]),
    ensures
        tokens(front + rest) == tokens(rest),
    decreases front.len(),
{
    if front.len() > 0 {
        let less = front.drop_first();
        assert forall|i: int| 0 <= i < less.len() implies is_whitespace(#[trigger] less[i]) by {
            assert(less[i] == front[i + 1]);
        }
        lemma_tokens_skip_space(less, rest);
        assert(is_whitespace(front[0]));
        assert((front + rest).drop_first() =~= less + rest);
        assert(trim_start(front + rest, CharClass::Whitespace) == trim_start(
            less + rest,
            CharClass::Whitespace,
        ));
    } else {
        assert(front + rest =~= rest);
    }
}

/// The words of a text are what stands between its white space: a word is one word, white
/// space in front of a text adds none, and a word with white space behind it is the first
/// of what follows.
pub proof fn law_words_stand_between_white_space(
    front: Seq<char>,
    word: Seq<char>,
    blank: char,
    rest: Seq<char>,
)
    requires
        forall|i: int| 0 <= i < front.len() ==> is_whitespace(#[trigger] front[i]),
        forall|i: int| 0 <= i < word.len() ==> !is_whitespace(#[trigger] word[i]),
        word.len() > 0,
        is_whitespace(blank),
    ensures
        tokens(front) == Seq::<Seq<char>>::empty(),
        tokens(front + rest) == tokens(rest),
        tokens(word) == seq![word],
        tokens(word + seq![blank] + rest) == seq![word] + tokens(rest),
{
    let empty = Seq::<char>::empty();
    lemma_tokens_skip_space(front, empty);
    assert(front + empty =~= front);
    assert(trim_start(empty, CharClass::Whitespace) =~= empty);
    lemma_tokens_skip_space(front, rest);
    assert(!is_whitespace(word[0]));
    assert(trim_start(word, CharClass::Whitespace) == word);
    lemma_token_length(word);
    assert(token_length(word) == word.len()) by {
        if token_length(word) < word.len() {
            assert(!is_whitespace(word[token_length(word)]));
        }
    }
    assert(word.take(word.len() as int) =~= word);
    assert(word.skip(word.len() as int) =~= empty);
    assert(tokens(empty) =~= Seq::<Seq<char>>::empty());
    assert(tokens(word) =~= seq![word]);
    let whole = word + seq![blank] + rest;
    assert(whole[0] == word[0]);
    assert(trim_start(whole, CharClass::Whitespace) == whole);
    lemma_token_length(whole);
    let n = token_length(whole);
    assert(whole[word.len() as int] == blank);
    assert(n == word.len()) by {
        if n > word.len() {
            assert(!is_whitespace(whole[word.len() as int]));
        }
        if n < word.len() {
            assert(whole[n] == word[n]);
        }
    }
    assert(whole.take(n) =~= word);
    assert(whole.skip(n) =~= seq![blank] + rest);
    lemma_tokens_skip_space(seq![blank], rest);
}

/// Texts with white space between them have the words of the one and then those of the
/// other.
pub proof fn law_words_of_joined_texts(a: Seq<char>, blank: char, b: Seq<char>)
    requires
        is_whitespace(blank),
    ensures
        tokens(a + seq![blank] + b) == tokens(a) + tokens(b),
    decreases a.len(),
{
    let whole = a + seq![blank] + b;
    let class = CharClass::Whitespace;
    let start = lemma_start(a, class);
    let front = a.take(start);
    let t = a.skip(start);
    assert forall|i: int| 0 <= i < front.len() implies is_whitespace(#[trigger] front[i]) by {
        assert(front[i] == a[i]);
    }
    assert(a =~= front + t);
    assert(whole =~= front + (t + seq![blank] + b));
    lemma_tokens_skip_space(front, t);
    lemma_tokens_skip_space(front, t + seq![blank] + b);
    if t.len() == 0 {
        assert(t + seq![blank] + b =~= seq![blank] + b);
        lemma_tokens_skip_space(seq![blank], b);
        assert(tokens(t) =~= seq![]);
    } else {
        assert(t[0] == a[start]);
        let n = token_length(t);
        lemma_token_length(t);
        let word = t.take(n);
        assert forall|i: int| 0 <= i < word.len() implies !is_whitespace(#[trigger] word[i]) by {
            assert(word[i] == t[i]);
        }
        assert(n > 0);
        if n == t.len() {
            assert(word =~= t);
            law_words_stand_between_white_space(seq![], word, blank, b);
        } else {
            let rest = t.skip(n + 1);
            assert(t =~= word + seq![t[n]] + rest);
            law_words_stand_between_white_space(seq![], word, t[n], rest);
            assert(t + seq![blank] + b =~= word + seq![t[n]] + (rest + seq![blank] + b));
            law_words_stand_between_white_space(seq![], word, t[n], rest + seq![blank] + b);
            law_words_of_joined_texts(rest, blank, b);
            assert(tokens(whole) =~= tokens(a) + tokens(b));
        }
    }
}

/// Every digit is worth ten times the one behind it, and a digit alone what it says. A
/// plus sign in front of a number changes nothing; without a digit, with anything else
/// than digits, or beyond the largest one, there is no number.
pub proof fn law_numbers_are_decimal(s: Seq<char>, c: char, max: nat)
    ensures
        unsigned(s.push(c), max) matches Some(n) ==> {
            &&& 48 <= c as u32 <= 57
            &&& n <= max
            &&& if s.len() == 0 || (s.len() == 1 && s[0] == '+') {
                n == c as u32 - 48
            } else {
                unsigned(s, max) matches Some(m) && n == 10 * m + (c as u32 - 48)
            }
        },
        48 <= c as u32 <= 57 && c as u32 - 48 <= max ==> unsigned(seq![c], max) == Some(
            (c as u32 - 48) as nat,
        ),
        48 <= c as u32 <= 57 ==> (unsigned(s, max) matches Some(m) ==> 10 * m + (c as u32 - 48)
            <= max ==> unsigned(s.push(c), max) == Some((10 * m + (c as u32 - 48)) as nat)),
        unsigned(seq![], max) is None,
        unsigned(seq!['+'], max) is None,
        s.len() > 0 && s[0] != '+' ==> unsigned(seq!['+'] + s, max) == unsigned(s, max),
{
    let plus = s.len() > 0 && s[0] == '+';
    let digits = if plus {
        s.drop_first()
    } else {
        s
    };
    let longer = s.push(c);
    if s.len() > 0 {
        assert(longer[0] == s[0]);
        assert(longer.drop_first() =~= s.drop_first().push(c));
        assert((seq!['+'] + s).drop_first() =~= s);
    }
    let more = digits.push(c);
    assert(more.drop_last() =~= digits);
    assert(all_digits(more) <==> all_digits(digits) && is_digit(c)) by {
        if all_digits(more) {
            assert forall|i: int| 0 <= i < digits.len() implies is_digit(#[trigger] digits[i]) by {
                assert(digits[i] == more[i]);
            }
            assert(is_digit(more[digits.len() as int]));
        }
    }
    assert(digits_value(more) == digits_value(digits) * 10 + (c as u32 - '0' as u32) as nat);
    let one = seq![c];
    assert(one.drop_last() =~= seq![]);
    assert(digits_value(seq![]) == 0);
    assert(digits_value(one) == (c as u32 - '0' as u32) as nat);
    if is_digit(c) {
        assert(all_digits(one));
    }
    assert(seq!['+'].drop_first() =~= seq![]);
    if s.len() == 0 {
        assert(longer =~= one);
    }
    if s.len() == 1 && plus {
        assert(digits =~= seq![]);
        assert(more =~= one);
    }
}

/// A text begins with another one if something behind that one makes the text.
pub proof fn law_prefixes(prefix: Seq<char>, rest: Seq<char>, s: Seq<char>)
    ensures
        starts_with(prefix + rest, prefix),
        starts_with(s, prefix) ==> s == prefix + s.skip(prefix.len() as int),
{
    assert((prefix + rest).take(prefix.len() as int) =~= prefix);
    if starts_with(s, prefix) {
        assert(s =~= s.take(prefix.len() as int) + s.skip(prefix.len() as int));
    }
}

/// Why a text is no number: there is nothing in it, there is something else than digits in
/// it, or it has digits alone and is beyond the largest number.
pub proof fn law_why_a_text_is_no_number(s: Seq<char>, max: nat)
    requires
        s.len() == 0 || s[0] != '+',
    ensures
        number_error(s, max) == Some(NumberError::Empty) <==> s.len() == 0,
        s.len() > 0 && all_digits(s) ==> (number_error(s, max) == Some(NumberError::TooLarge)
            <==> digits_value(s) > max),
        s.len() > 0 && all_digits(s) && digits_value(s) <= max ==> number_error(s, max) is None,
        s.len() > 0 && !is_digit(s[0]) ==> number_error(s, max) == Some(NumberError::InvalidDigit),
        number_error(s, max) == Some(NumberError::InvalidDigit) ==> !all_digits(s),
        number_error(s.push('x'), max) is Some,
{
    lemma_digits_error_kind(s, max);
    law_numbers_without_value_have_an_error(s, max);
    law_numbers_without_value_have_an_error(s.push('x'), max);
    law_numbers_are_decimal(s, 'x', max);
}

proof fn lemma_digits_error_kind(s: Seq<char>, max: nat)
    ensures
        digits_error(s, max) != Some(NumberError::Empty),
        digits_error(s, max) == Some(NumberError::InvalidDigit) ==> !all_digits(s),
        s.len() > 0 && !is_digit(s[0]) ==> digits_error(s, max) == Some(NumberError::InvalidDigit),
    decreases s.len(),
{
    if s.len() > 0 {
        let init = s.drop_last();
        lemma_digits_error_kind(init, max);
        assert(s.last() == s[s.len() - 1]);
        if all_digits(s) {
            assert(is_digit(s[s.len() - 1]));
            assert forall|i: int| 0 <= i < init.len() implies is_digit(#[trigger] init[i]) by {
                assert(init[i] == s[i]);
            }
        }
        if init.len() > 0 {
            assert(init[0] == s[0]);
        }
    }
}

} // verus!

//! DNS names as lookup keys.

use vstd::prelude::*;

use crate::text::{
    drop_class_end, is_whitespace, lemma_trim_start_head, lower, lower_char, lowered, skip_class,
    to_chars, trim, trim_end, trim_start, trimmed, CharClass,
};
use crate::text_laws::{law_trimmed_texts, law_trimming_the_end, law_trimming_the_start};

verus! {

/// `name` without white space around it, and then without dots at either end.
pub open spec fn bare_name(name: Seq<char>) -> Seq<char> {
    trim_start(trim_end(trim(name), CharClass::Dot), CharClass::Dot)
}

/// `name` as a lookup key.
pub open spec fn normalized(name: Seq<char>) -> Seq<char> {
    if bare_name(name).len() == 0 {
        seq!['.']
    } else {
        lower(bare_name(name)).push('.')
    }
}

/// Normalizes a DNS name for use as a lookup key: lowercased, with exactly one
/// trailing dot (the canonical wire-format style), and no leading dot.
pub fn normalize_name(name: &str) -> (r: String)
    ensures
        r@ == normalized(name@),
{
    let chars: Vec<char> = to_chars(name);
    normalize_chars(chars.as_slice())
}

/// `normalize_name` on characters.
pub fn normalize_chars(name: &[char]) -> (r: String)
    ensures
        r@ == normalized(name@),
{
    let bare: &[char] = skip_class(drop_class_end(trimmed(name), CharClass::Dot), CharClass::Dot);
    if bare.len() == 0 {
        let mut root: String = String::new();
        root.push('.');
        assert(root@ =~= seq!['.']);
        return root;
    }
    let mut r: String = lowered(bare);
    r.push('.');
    r
}

/// A normalized name is in lower case and ends in exactly one dot, and only the
/// root begins with one.
pub proof fn law_normalized_form(name: Seq<char>)
    ensures
        ({
            let n = normalized(name);
            &&& n.len() > 0
            &&& n.last() == '.'
            &&& n.len() > 1 ==> n[0] != '.' && n[n.len() - 2] != '.'
            &&& lower(n) == n
        }),
{
    let n = normalized(name);
    let inner = trim_end(trim(name), CharClass::Dot);
    let bare = bare_name(name);
    lemma_trim_start_head(inner, CharClass::Dot);
    lemma_trim_end_last(trim(name), CharClass::Dot);
    lemma_trim_start_last(inner, CharClass::Dot);
    if bare.len() > 0 {
        assert(n[0] == lower_char(bare[0]));
        assert(n[n.len() - 2] == lower_char(bare.last()));
    }
    assert(lower(n) =~= n) by {
        assert forall|i: int| 0 <= i < n.len() implies lower_char(#[trigger] n[i]) == n[i] by {
            if i < n.len() - 1 {
                lemma_lower_char(bare[i]);
            }
        }
    }
}

/// Names that differ in the case of ASCII letters have the same normalized form.
pub proof fn law_normalized_ignores_case(name: Seq<char>)
    ensures
        normalized(lower(name)) == normalized(name),
{
    lemma_lower_trim_start(name, CharClass::Whitespace);
    let a = trim_start(name, CharClass::Whitespace);
    lemma_lower_trim_end(a, CharClass::Whitespace);
    let b = trim_end(a, CharClass::Whitespace);
    lemma_lower_trim_end(b, CharClass::Dot);
    let c = trim_end(b, CharClass::Dot);
    lemma_lower_trim_start(c, CharClass::Dot);
    let d = trim_start(c, CharClass::Dot);
    assert(lower(lower(d)) =~= lower(d)) by {
        assert forall|i: int| 0 <= i < d.len() implies lower_char(lower_char(#[trigger] d[i]))
            == lower_char(d[i]) by {
            lemma_lower_char(d[i]);
        }
    }
}

/// Normalizing a normalized name changes nothing, unless white space follows the
/// leading dots of the name.
pub proof fn law_normalized_is_stable(name: Seq<char>)
    requires
        bare_name(name).len() > 0 ==> !is_whitespace(bare_name(name)[0]),
    ensures
        normalized(normalized(name)) == normalized(name),
{
    let n = normalized(name);
    let bare = bare_name(name);
    law_normalized_form(name);
    reveal_with_fuel(trim_start, 2);
    reveal_with_fuel(trim_end, 2);
    if bare.len() == 0 {
        assert(n.drop_first() =~= seq![]);
        assert(n.drop_last() =~= seq![]);
        assert(trim(n) == n);
    } else {
        lemma_lower_char(bare[0]);
        assert(n[0] == lower_char(bare[0]));
        assert(trim_start(n, CharClass::Whitespace) == n);
        assert(trim_end(n, CharClass::Whitespace) == n);
        assert(n.drop_last() =~= lower(bare));
        assert(lower(bare).last() == n[n.len() - 2]);
        assert(trim_end(n, CharClass::Dot) == lower(bare));
        assert(lower(bare)[0] == n[0]);
        assert(trim_start(lower(bare), CharClass::Dot) == lower(bare));
        assert(lower(lower(bare)) =~= lower(bare)) by {
            assert forall|i: int| 0 <= i < bare.len() implies lower_char(
                lower_char(#[trigger] bare[i]),
            ) == lower_char(bare[i]) by {
                lemma_lower_char(bare[i]);
            }
        }
    }
}

proof fn lemma_lower_char(c: char)
    ensures
        lower_char(lower_char(c)) == lower_char(c),
        is_whitespace(lower_char(c)) == is_whitespace(c),
        (lower_char(c) == '.') == (c == '.'),
        (lower_char(c) == '/') == (c == '/'),
        (lower_char(c) == '[') == (c == '['),
        (lower_char(c) == ']') == (c == ']'),
{
}

proof fn lemma_trim_end_last(s: Seq<char>, class: CharClass)
    ensures
        trim_end(s, class).len() > 0 ==> !class.has(trim_end(s, class).last()),
    decreases s.len(),
{
    if s.len() > 0 && class.has(s.last()) {
        lemma_trim_end_last(s.drop_last(), class);
    }
}

proof fn lemma_trim_start_last(s: Seq<char>, class: CharClass)
    ensures
        trim_start(s, class).len() > 0 ==> trim_start(s, class).last() == s.last(),
    decreases s.len(),
{
    if s.len() > 0 && class.has(s[0]) {
        lemma_trim_start_last(s.drop_first(), class);
    }
}

proof fn lemma_lower_trim_start(s: Seq<char>, class: CharClass)
    ensures
        trim_start(lower(s), class) == lower(trim_start(s, class)),
    decreases s.len(),
{
    if s.len() > 0 {
        lemma_lower_char(s[0]);
        if class.has(s[0]) {
            assert(lower(s).drop_first() =~= lower(s.drop_first()));
            lemma_lower_trim_start(s.drop_first(), class);
        }
    }
}

proof fn lemma_lower_trim_end(s: Seq<char>, class: CharClass)
    ensures
        trim_end(lower(s), class) == lower(trim_end(s, class)),
    decreases s.len(),
{
    if s.len() > 0 {
        lemma_lower_char(s.last());
        if class.has(s.last()) {
            assert(lower(s).drop_last() =~= lower(s.drop_last()));
            lemma_lower_trim_end(s.drop_last(), class);
        }
    }
}

/// A name as a lookup key is what is left in small letters, with one dot behind it, once
/// white space and then dots have been taken off both ends; the root if nothing is left.
pub proof fn law_normalized_names(
    space: Seq<char>,
    dots: Seq<char>,
    core: Seq<char>,
    more_dots: Seq<char>,
    more_space: Seq<char>,
)
    requires
        forall|i: int| 0 <= i < space.len() ==> is_whitespace(#[trigger] space[i]),
        forall|i: int| 0 <= i < dots.len() ==> #[trigger] dots[i] == '.',
        forall|i: int| 0 <= i < more_dots.len() ==> #[trigger] more_dots[i] == '.',
        forall|i: int| 0 <= i < more_space.len() ==> is_whitespace(#[trigger] more_space[i]),
        core.len() > 0 ==> {
            &&& core[0] != '.' && !is_whitespace(core[0])
            &&& core.last() != '.' && !is_whitespace(core.last())
        },
    ensures
        core.len() > 0 ==> normalized(space + (dots + core + more_dots) + more_space) == lower(
            core,
        ).push('.'),
        core.len() == 0 ==> normalized(space + (dots + core + more_dots) + more_space) == seq!['.'],
{
    let inner = dots + core + more_dots;
    let class = CharClass::Dot;
    if inner.len() > 0 {
        assert(inner[0] == (if dots.len() > 0 {
            dots[0]
        } else if core.len() > 0 {
            core[0]
        } else {
            more_dots[0]
        }));
        assert(inner.last() == (if more_dots.len() > 0 {
            more_dots[more_dots.len() - 1]
        } else if core.len() > 0 {
            core.last()
        } else {
            dots[dots.len() - 1]
        }));
    }
    law_trimmed_texts(space, inner, more_space);
    assert forall|i: int| 0 <= i < dots.len() implies class.has(#[trigger] dots[i]) by {}
    assert forall|i: int| 0 <= i < more_dots.len() implies class.has(#[trigger] more_dots[i]) by {}
    if core.len() > 0 {
        assert((dots + core).last() == core.last());
        law_trimming_the_end(dots + core, more_dots, class);
        law_trimming_the_start(dots, core, class);
    } else {
        assert forall|i: int| 0 <= i < inner.len() implies class.has(#[trigger] inner[i]) by {
            if i < dots.len() {
                assert(inner[i] == dots[i]);
            } else {
                assert(inner[i] == more_dots[i - dots.len()]);
            }
        }
        law_trimming_the_end(seq![], inner, class);
        assert(seq![] + inner =~= inner);
    }
}

} // verus!

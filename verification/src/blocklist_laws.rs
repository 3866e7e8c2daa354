//! What a list of domains lists, and what is blocked in the end.

use vstd::prelude::*;

use crate::blocklist::{
    candidates, domain_like, is_domain_char, is_excluded, law_joined_lists, lemma_domain, listed,
    listed_in, listed_name, normalized_names, rule_domain, Direction, ListsView, SideView,
    MAX_LIST_RESPONSE_BYTES,
};
use crate::ip::{ip, law_names_are_no_addresses};
use crate::text::{
    first_index, is_whitespace, lemma_first_index, lines, tokens, trim, trim_start, CharClass,
};
use crate::text_laws::{
    law_lines_end_in_line_feeds, law_trimmed_texts, law_words_of_joined_texts,
    law_words_stand_between_white_space, lemma_end, lemma_first, lemma_start,
};
use crate::util::normalized;

verus! {

/// A letter or a digit of ASCII, a hyphen, a dot or an underscore.
pub open spec fn is_name_char(c: char) -> bool {
    ||| 48 <= c as u32 <= 57
    ||| 97 <= c as u32 <= 122
    ||| 65 <= c as u32 <= 90
    ||| c == '-'
    ||| c == '.'
    ||| c == '_'
}

/// Something that may be a domain: made of such characters, with a dot somewhere between
/// two characters that are none.
pub open spec fn is_domain(word: Seq<char>) -> bool {
    &&& forall|i: int| 0 <= i < word.len() ==> is_name_char(#[trigger] word[i])
    &&& exists|i: int, j: int, k: int|
        0 <= i < j < k < word.len() && #[trigger] word[i] != '.' && #[trigger] word[j] == '.'
            && #[trigger] word[k] != '.'
}

/// The names of which a word is one: just its own, if it is a domain and not the name of
/// the local host; or else none.
pub open spec fn names_of(word: Seq<char>) -> Set<Seq<char>> {
    if is_domain(word) && normalized(word) != "localhost.localdomain."@ {
        set![normalized(word)]
    } else {
        Set::empty()
    }
}

proof fn lemma_domain_char(c: char)
    ensures
        is_name_char(c) == is_domain_char(c),
{
    assert('0' as u32 == 48 && '9' as u32 == 57);
    assert('a' as u32 == 97 && 'z' as u32 == 122);
    assert('A' as u32 == 65 && 'Z' as u32 == 90);
}

proof fn lemma_domain_chars(word: Seq<char>)
    ensures
        (forall|i: int| 0 <= i < word.len() ==> is_name_char(#[trigger] word[i])) <==> (forall|
            i: int,
        |
            0 <= i < word.len() ==> is_domain_char(#[trigger] word[i])),
{
    assert forall|c: char| #[trigger] is_name_char(c) == is_domain_char(c) by {
        lemma_domain_char(c);
    }
    if forall|i: int| 0 <= i < word.len() ==> is_name_char(#[trigger] word[i]) {
        assert forall|i: int| 0 <= i < word.len() implies is_domain_char(#[trigger] word[i]) by {
            assert(is_name_char(word[i]));
        }
    }
    if forall|i: int| 0 <= i < word.len() ==> is_domain_char(#[trigger] word[i]) {
        assert forall|i: int| 0 <= i < word.len() implies is_name_char(#[trigger] word[i]) by {
            assert(is_domain_char(word[i]));
        }
    }
}

/// What looks like a domain is exactly what may be one: it may begin with any of its
/// characters, digits and dots included.
pub proof fn law_domains_are_told_by_their_characters(word: Seq<char>)
    ensures
        domain_like(word) <==> is_domain(word),
{
    let class = CharClass::Dot;
    lemma_domain_chars(word);
    let a = lemma_start(word, class);
    let t = word.skip(a);
    let b = lemma_end(t, class);
    let inner = t.take(b);
    if inner.contains('.') {
        let p = inner.index_of('.');
        assert(inner[p] == word[a + p]);
        assert(b > 0);
        assert(t[b - 1] == word[a + b - 1]);
        assert(t[0] == word[a]);
        assert(word[a] != '.');
        assert(word[a + b - 1] != '.');
        assert(p != 0 && p != b - 1);
        assert(word[a] != '.' && word[a + p] == '.' && word[a + b - 1] != '.');
    }
    if is_domain(word) {
        let (i, j, k) = choose|i: int, j: int, k: int|
            0 <= i < j < k < word.len() && #[trigger] word[i] != '.' && #[trigger] word[j] == '.'
                && #[trigger] word[k] != '.';
        assert(a <= i) by {
            if i < a {
                assert(class.has(word[i]));
            }
        }
        assert(k - a < b) by {
            if k - a >= b {
                assert(class.has(t[k - a]));
            }
        }
        assert(inner[j - a] == '.');
    }
}

/// The names of the local host and of local groups are never listed, however they are
/// spelled. Of these only one has a dot inside; so every other domain is listed.
proof fn lemma_listed_name(word: Seq<char>)
    ensures
        listed_in(seq![word]) == names_of(word),
        listed_name(word) matches Some(d) ==> names_of(word) == set![d],
        listed_name(word) is None ==> names_of(word) == Set::<Seq<char>>::empty(),
{
    law_domains_are_told_by_their_characters(word);
    let name = normalized(word);
    if domain_like(word) {
        lemma_domain(word);
        let p = choose|p: int| 0 <= p < name.len() - 1 && #[trigger] name[p] == '.';
        assert(name.len() > 1);
        lemma_excluded(name, p);
        assert(name != seq!['.']);
    }
    let words = seq![word];
    assert(words[0] == word);
    assert forall|d: Seq<char>| #[trigger] listed_in(words).contains(d) <==> names_of(
        word,
    ).contains(d) by {
        if listed_name(word) == Some(d) {
            assert(listed_name(words[0]) == Some(d));
        }
    }
    assert(listed_in(words) =~= names_of(word));
}

/// Of the names that are never listed, only one has a dot that is not at its end.
proof fn lemma_excluded(name: Seq<char>, p: int)
    requires
        0 <= p < name.len() - 1,
        name[p] == '.',
    ensures
        is_excluded(name) <==> name == "localhost.localdomain."@,
{
    reveal_strlit("localhost.");
    reveal_strlit("localhost.localdomain.");
    reveal_strlit("local.");
    reveal_strlit("broadcasthost.");
    reveal_strlit("ip6-localhost.");
    reveal_strlit("ip6-loopback.");
    reveal_strlit("ip6-localnet.");
    reveal_strlit("ip6-mcastprefix.");
    reveal_strlit("ip6-allnodes.");
    reveal_strlit("ip6-allrouters.");
    reveal_strlit("ip6-allhosts.");
}

/// The body of a list that is one line.
proof fn lemma_one_line(line: Seq<char>)
    requires
        !line.contains('\n'),
    ensures
        listed(line) == listed_in(candidates(line)),
{
    if line.len() > 0 {
        law_lines_end_in_line_feeds(line, seq![]);
        assert(lines(line)[0] == line);
        assert(listed(line) =~= listed_in(candidates(line)));
    } else {
        assert(lines(line) =~= seq![]);
        assert(trim(line) =~= seq![]);
        assert(listed(line) =~= listed_in(candidates(line)));
    }
}

/// A word that stands alone on its line is listed if it is a domain and no address. A
/// word that begins with `#` or `!` is a comment, and one that begins with `||` a rule.
pub proof fn law_a_domain_alone_is_listed(word: Seq<char>)
    requires
        forall|i: int| 0 <= i < word.len() ==> !is_whitespace(#[trigger] word[i]),
        word.len() > 0,
        word[0] != '#' && word[0] != '!',
        !(word.len() >= 2 && word[0] == '|' && word[1] == '|'),
    ensures
        ip(word) is None ==> listed(word) == names_of(word),
        ip(word) is Some ==> listed(word) == Set::<Seq<char>>::empty(),
{
    assert(!word.contains('\n')) by {
        if word.contains('\n') {
            let i = word.index_of('\n');
            assert(!is_whitespace(word[i]));
        }
    }
    lemma_one_line(word);
    assert(!is_whitespace(word[0]) && !is_whitespace(word[word.len() - 1]));
    law_trimmed_texts(seq![], word, seq![]);
    assert(seq![] + word + seq![] =~= word);
    law_words_stand_between_white_space(seq![], word, ' ', seq![]);
    lemma_listed_name(word);
    if ip(word) is Some {
        assert(seq![word].drop_first() =~= seq![]);
        assert(listed_in(seq![]) =~= Set::empty());
    }
}

/// A name with a letter, a hyphen or an underscore in it is listed for certain.
pub proof fn law_every_name_is_listed(word: Seq<char>, at: int)
    requires
        is_domain(word),
        0 <= at < word.len(),
        !(48 <= word[at] as u32 <= 57),
        word[at] != '.',
        normalized(word) != "localhost.localdomain."@,
    ensures
        listed(word) == set![normalized(word)],
{
    assert forall|i: int| 0 <= i < word.len() implies !is_whitespace(#[trigger] word[i]) by {
        assert(is_name_char(word[i]));
    }
    assert(is_name_char(word[0]));
    assert(!word.contains(':')) by {
        if word.contains(':') {
            let i = word.index_of(':');
            assert(is_name_char(word[i]));
        }
    }
    law_names_are_no_addresses(word, at);
    law_a_domain_alone_is_listed(word);
}

/// A word behind what stands on a line, be that an address as in a hosts file or other
/// names, is listed if it is a domain, and what was listed of the line before still is.
pub proof fn law_every_domain_on_a_line_is_listed(line: Seq<char>, blank: char, word: Seq<char>)
    requires
        !line.contains('\n'),
        line.len() > 0,
        !is_whitespace(line[0]) && !is_whitespace(line.last()),
        line[0] != '#' && line[0] != '!',
        !(line.len() >= 2 && line[0] == '|' && line[1] == '|'),
        is_whitespace(blank),
        blank != '\n',
        forall|i: int| 0 <= i < word.len() ==> !is_whitespace(#[trigger] word[i]),
        word.len() > 0,
    ensures
        listed(line + seq![blank] + word) == listed(line).union(names_of(word)),
{
    let whole = line + seq![blank] + word;
    assert(!word.contains('\n')) by {
        if word.contains('\n') {
            let i = word.index_of('\n');
            assert(!is_whitespace(word[i]));
        }
    }
    assert(!whole.contains('\n')) by {
        if whole.contains('\n') {
            let i = whole.index_of('\n');
            if i < line.len() {
                assert(line[i] == '\n');
            } else if i > line.len() {
                assert(word[i - line.len() - 1] == '\n');
            }
        }
    }
    lemma_one_line(line);
    lemma_one_line(whole);
    assert(whole[0] == line[0]);
    assert(whole.last() == word[word.len() - 1]);
    assert(whole.len() >= 2 ==> (whole[1] == '|' ==> line.len() >= 2 || blank == '|'));
    if line.len() >= 2 {
        assert(whole[1] == line[1]);
    } else {
        assert(whole[1] == blank);
    }
    law_trimmed_texts(seq![], line, seq![]);
    law_trimmed_texts(seq![], whole, seq![]);
    assert(seq![] + line + seq![] =~= line);
    assert(seq![] + whole + seq![] =~= whole);
    law_words_of_joined_texts(line, blank, word);
    law_words_stand_between_white_space(seq![], word, ' ', seq![]);
    let words = tokens(line);
    assert(words.len() > 0) by {
        assert(trim_start(line, CharClass::Whitespace) == line);
    }
    let more = tokens(whole);
    assert(more =~= words.push(word));
    assert(more[0] == words[0]);
    let offered = if ip(words[0]) is Some {
        words.drop_first()
    } else {
        words
    };
    assert(more.drop_first() =~= words.drop_first().push(word));
    assert(candidates(line) == offered);
    assert(candidates(whole) == offered.push(word));
    lemma_listed_name(word);
    let both = offered.push(word);
    assert forall|d: Seq<char>| #[trigger] listed_in(both).contains(d) <==> listed_in(
        offered,
    ).contains(d) || names_of(word).contains(d) by {
        if listed_in(both).contains(d) {
            let j = choose|j: int| 0 <= j < both.len() && listed_name(#[trigger] both[j]) == Some(d);
            if j < offered.len() {
                assert(offered[j] == both[j]);
            }
        }
        if listed_in(offered).contains(d) {
            let j = choose|j: int|
                0 <= j < offered.len() && listed_name(#[trigger] offered[j]) == Some(d);
            assert(both[j] == offered[j]);
        }
        assert(both[offered.len() as int] == word);
    }
    assert(listed(whole) =~= listed(line).union(names_of(word)));
}

/// How a network rule is written.
pub open spec fn rule(word: Seq<char>, options: Seq<char>) -> Seq<char> {
    seq!['|', '|'] + word + seq!['^'] + options
}

/// A network rule lists its domain, with or without options behind it: what stands
/// between `||` and `^`, if it is a domain and has no asterisk or slash in it.
pub proof fn law_network_rules_list_their_domain(word: Seq<char>, options: Seq<char>)
    requires
        forall|i: int| 0 <= i < word.len() ==> !is_whitespace(#[trigger] word[i]),
        !word.contains('^'),
        options.len() > 0 ==> options[0] == '$' && !is_whitespace(options.last()),
        !options.contains('\n'),
    ensures
        is_domain(word) ==> listed(rule(word, options)) == names_of(word),
{
    let line = rule(word, options);
    assert(!line.contains('\n')) by {
        if line.contains('\n') {
            let i = line.index_of('\n');
            if 2 <= i < 2 + word.len() {
                assert(!is_whitespace(word[i - 2]));
            } else if i > 2 + word.len() {
                assert(options[i - 3 - word.len()] == '\n');
            }
        }
    }
    lemma_one_line(line);
    assert(line[0] == '|' && line[1] == '|');
    assert(line.last() == (if options.len() > 0 {
        options.last()
    } else {
        '^'
    }));
    law_trimmed_texts(seq![], line, seq![]);
    assert(seq![] + line + seq![] =~= line);
    let rest = line.skip(2);
    assert(rest =~= word + seq!['^'] + options);
    lemma_first(word, options, '^');
    assert(rest.take(word.len() as int) =~= word);
    assert(rest.skip(word.len() as int + 1) =~= options);
    if is_domain(word) {
        assert(!word.contains('*')) by {
            if word.contains('*') {
                let i = word.index_of('*');
                assert(is_name_char(word[i]));
            }
        }
        assert(!word.contains('/')) by {
            if word.contains('/') {
                let i = word.index_of('/');
                assert(is_name_char(word[i]));
            }
        }
        assert(rule_domain(line) == Some(word));
        lemma_listed_name(word);
    }
}

/// Any other rule lists nothing: one without `^`, one that goes on behind it with
/// anything but options, and one whose domain has an asterisk, a slash or anything else
/// in it that no domain has.
pub proof fn law_other_rules_list_nothing(line: Seq<char>)
    requires
        line.len() >= 2,
        line[0] == '|' && line[1] == '|',
        forall|i: int| 0 <= i < line.len() ==> !is_whitespace(#[trigger] line[i]),
        forall|word: Seq<char>, options: Seq<char>|
            line == #[trigger] rule(word, options) ==> {
                ||| word.contains('^')
                ||| options.len() > 0 && options[0] != '$'
                ||| !is_domain(word)
            },
    ensures
        listed(line) == Set::<Seq<char>>::empty(),
{
    assert(!line.contains('\n')) by {
        if line.contains('\n') {
            let i = line.index_of('\n');
            assert(!is_whitespace(line[i]));
        }
    }
    lemma_one_line(line);
    assert(!is_whitespace(line[0]) && !is_whitespace(line[line.len() - 1]));
    law_trimmed_texts(seq![], line, seq![]);
    assert(seq![] + line + seq![] =~= line);
    match rule_domain(line) {
        Some(word) => {
            let rest = line.skip(2);
            let end = first_index(rest, '^');
            lemma_first_index(rest, '^');
            let options = rest.skip(end + 1);
            assert(line =~= rule(word, options));
            assert(!word.contains('^')) by {
                if word.contains('^') {
                    let i = word.index_of('^');
                    assert(rest[i] == '^');
                }
            }
            lemma_listed_name(word);
        },
        None => {
            law_words_stand_between_white_space(seq![], line, ' ', seq![]);
            lemma_listed_name(line);
            assert(!is_name_char(line[0]));
            if ip(line) is Some {
                assert(seq![line].drop_first() =~= seq![]);
                assert(listed_in(seq![]) =~= Set::empty());
            }
        },
    }
}

/// White space at either end of a line does not matter, and a line of nothing else, like
/// a comment, lists nothing.
pub proof fn law_white_space_around_a_line_does_not_matter(
    front: Seq<char>,
    line: Seq<char>,
    back: Seq<char>,
)
    requires
        forall|i: int| 0 <= i < front.len() ==> is_whitespace(#[trigger] front[i]) && front[i]
            != '\n',
        forall|i: int| 0 <= i < back.len() ==> is_whitespace(#[trigger] back[i]) && back[i] != '\n',
        !line.contains('\n'),
        line.len() > 0 ==> !is_whitespace(line[0]) && !is_whitespace(line.last()),
    ensures
        listed(front + line + back) == listed(line),
        line.len() == 0 || line[0] == '#' || line[0] == '!' ==> listed(line) == Set::<
            Seq<char>,
        >::empty(),
{
    let whole = front + line + back;
    assert(!whole.contains('\n')) by {
        if whole.contains('\n') {
            let i = whole.index_of('\n');
            if i < front.len() {
                assert(front[i] == '\n');
            } else if i < front.len() + line.len() {
                assert(line[i - front.len()] == '\n');
            } else {
                assert(back[i - front.len() - line.len()] == '\n');
            }
        }
    }
    lemma_one_line(whole);
    lemma_one_line(line);
    law_trimmed_texts(front, line, back);
    law_trimmed_texts(seq![], line, seq![]);
    assert(seq![] + line + seq![] =~= line);
    assert(listed_in(seq![]) =~= Set::<Seq<char>>::empty());
}

/// What a line lists, it lists wherever it stands in a list: between any lines before it
/// and any lines behind it.
pub proof fn law_lines_are_listed_wherever_they_stand(
    before: Seq<char>,
    line: Seq<char>,
    behind: Seq<char>,
)
    ensures
        listed(before + seq!['\n'] + line + seq!['\n'] + behind) == listed(before).union(
            listed(line),
        ).union(listed(behind)),
        listed(line + seq!['\n']) == listed(line),
{
    law_joined_lists(before + seq!['\n'] + line, behind);
    law_joined_lists(before, line);
    law_joined_lists(line, seq![]);
    assert(line + seq!['\n'] + seq![] =~= line + seq!['\n']);
    assert(lines(seq![]) =~= seq![]);
    assert(listed(seq![]) =~= Set::<Seq<char>>::empty());
    assert(listed(line).union(listed(seq![])) =~= listed(line));
}

/// Whether a name is on one of the lists of a side, or named in the configuration.
pub open spec fn is_on(side: SideView, name: Seq<char>) -> bool {
    side.inline.contains(name) || exists|i: int|
        0 <= i < side.sources.len() && (#[trigger] side.sources[i]).contains(name)
}

/// What is blocked, once published, is what the configuration or one of the blocklists
/// names and neither the configuration nor any of the whitelists allows. Publishing
/// changes nothing else.
pub proof fn law_what_is_blocked(lists: ListsView, name: Seq<char>)
    ensures
        lists.published().merged.contains(name) <==> is_on(lists.block, name) && !is_on(
            lists.allow,
            name,
        ),
        lists.published().block == lists.block,
        lists.published().allow == lists.allow,
{
}

/// A fetched list takes the place of what was fetched of it before; one that could not be
/// fetched keeps that. No other list of either side changes, nor what is blocked until it
/// is published.
pub proof fn law_a_fetch_replaces_one_list(
    lists: ListsView,
    direction: Direction,
    index: int,
    fetched: Option<Set<Seq<char>>>,
    other: int,
)
    requires
        0 <= index < (if direction == Direction::Block {
            lists.block
        } else {
            lists.allow
        }).sources.len(),
        other != index,
    ensures
        ({
            let after = lists.stored(direction, index, fetched);
            let (old_side, new_side, old_rest, new_rest) = if direction == Direction::Block {
                (lists.block, after.block, lists.allow, after.allow)
            } else {
                (lists.allow, after.allow, lists.block, after.block)
            };
            &&& after.merged == lists.merged
            &&& new_rest == old_rest
            &&& new_side.inline == old_side.inline
            &&& new_side.sources.len() == old_side.sources.len()
            &&& 0 <= other < old_side.sources.len() ==> new_side.sources[other]
                == old_side.sources[other]
            &&& new_side.sources[index] == (match fetched {
                Some(set) => set,
                None => old_side.sources[index],
            })
        }),
{
}

/// The domains in the configuration count in their normalized form, all of them and no
/// others.
pub proof fn law_configured_domains_are_normalized(names: Seq<String>, name: String)
    ensures
        normalized_names(names.push(name)) == normalized_names(names).insert(normalized(name@)),
        normalized_names(seq![]) == Set::<Seq<char>>::empty(),
{
    let more = names.push(name);
    assert forall|d: Seq<char>| #[trigger] normalized_names(more).contains(d) <==> normalized_names(
        names,
    ).insert(normalized(name@)).contains(d) by {
        if normalized_names(more).contains(d) {
            let i = choose|i: int| 0 <= i < more.len() && normalized((#[trigger] more[i])@) == d;
            if i < names.len() {
                assert(names[i] == more[i]);
            }
        }
        if normalized_names(names).contains(d) {
            let i = choose|i: int| 0 <= i < names.len() && normalized((#[trigger] names[i])@) == d;
            assert(more[i] == names[i]);
        }
        assert(more[names.len() as int] == name);
    }
    assert(normalized_names(more) =~= normalized_names(names).insert(normalized(name@)));
    assert(normalized_names(seq![]) =~= Set::<Seq<char>>::empty());
}

/// A list may have up to 256 MiB.
pub proof fn law_lists_have_room(len: nat)
    ensures
        len <= MAX_LIST_RESPONSE_BYTES <==> len <= 256 * 1024 * 1024,
{
}

} // verus!

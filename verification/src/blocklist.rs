//! Blocked and allowed domains: reading lists of them, and merging the lists.

use rustc_hash::FxHashSet;
use vstd::prelude::*;
use vstd::string::*;
use vstd::utf8::{decode_utf8, encode_utf8_decode_utf8, valid_utf8};

use crate::config::{BlocklistsConfig, WhitelistConfig};
use crate::dns::inline_name::utf8_text;
use crate::ip::{ip, parse_ip};
use crate::octets::push_all;
use crate::text::{
    contains_char, drop_class_end, equals, find_first, first_index, head, is_whitespace,
    lemma_first_index, lemma_trim_commutes, lemma_trimmed_chars, lines, lower, skip_class,
    split_lines, split_tokens, strip_return, tail, texts, to_chars, tokens, trim, trim_end,
    trim_start, trimmed, CharClass,
};
use crate::util::{
    bare_name, law_normalized_form, law_normalized_is_stable, normalize_chars, normalize_name,
    normalized,
};

verus! {

/// Hard ceiling on the body of a single domain list. The largest lists in use are
/// a few tens of megabytes; this leaves generous headroom and still bounds how
/// much a single fetch can allocate.
pub const MAX_LIST_RESPONSE_BYTES: u64 = 268_435_456;

/// The domains in a set.
pub uninterp spec fn domains_of(set: FxHashSet<String>) -> Set<Seq<char>>;

/// `FxHashSet::default` is an empty set.
#[verifier::external_body]
fn no_domains() -> (r: FxHashSet<String>)
    ensures
        domains_of(r) == Set::<Seq<char>>::empty(),
{
    FxHashSet::default()
}

/// `FxHashSet::insert` puts the text into the set and leaves all others alone.
#[verifier::external_body]
fn insert_domain(set: &mut FxHashSet<String>, domain: String)
    ensures
        domains_of(*final(set)) == domains_of(*old(set)).insert(domain@),
{
    set.insert(domain);
}

/// `FxHashSet::contains` tells whether the text is in the set.
#[verifier::external_body]
fn has_domain(set: &FxHashSet<String>, domain: &str) -> (r: bool)
    ensures
        r == domains_of(*set).contains(domain@),
{
    set.contains(domain)
}

/// `FxHashSet::clone` is a set of the same texts.
#[verifier::external_body]
fn copy_domains(set: &FxHashSet<String>) -> (r: FxHashSet<String>)
    ensures
        domains_of(r) == domains_of(*set),
{
    set.clone()
}

/// `FxHashSet::extend` puts all texts of the other set into the set.
#[verifier::external_body]
fn add_domains(set: &mut FxHashSet<String>, more: &FxHashSet<String>)
    ensures
        domains_of(*final(set)) == domains_of(*old(set)).union(domains_of(*more)),
{
    set.extend(more.iter().cloned())
}

fn lacks_domain(set: &FxHashSet<String>, domain: &str) -> (r: bool)
    ensures
        r == !domains_of(*set).contains(domain@),
{
    !has_domain(set, domain)
}

/// `FxHashSet::retain` keeps exactly the texts for which the closure holds.
#[verifier::external_body]
fn remove_domains(set: &mut FxHashSet<String>, fewer: &FxHashSet<String>)
    ensures
        domains_of(*final(set)) == domains_of(*old(set)).difference(domains_of(*fewer)),
{
    set.retain(|domain| lacks_domain(fewer, domain))
}

/// `FxHashSet::len` is the number of texts in the set.
#[verifier::external_body]
fn count_domains(set: &FxHashSet<String>) -> (r: usize)
    ensures
        r == domains_of(*set).len(),
{
    set.len()
}

/// Infrastructure hostnames that show up in hosts-format preambles (pointing at
/// 0.0.0.0 or 127.0.0.1) but must never actually be blocked.
pub open spec fn is_excluded(name: Seq<char>) -> bool {
    ||| name == "localhost."@
    ||| name == "localhost.localdomain."@
    ||| name == "local."@
    ||| name == "broadcasthost."@
    ||| name == "ip6-localhost."@
    ||| name == "ip6-loopback."@
    ||| name == "ip6-localnet."@
    ||| name == "ip6-mcastprefix."@
    ||| name == "ip6-allnodes."@
    ||| name == "ip6-allrouters."@
    ||| name == "ip6-allhosts."@
}

fn excluded(name: &[char]) -> (r: bool)
    ensures
        r == is_excluded(name@),
{
    equals(name, "localhost.") || equals(name, "localhost.localdomain.") || equals(name, "local.")
        || equals(name, "broadcasthost.") || equals(name, "ip6-localhost.") || equals(
        name,
        "ip6-loopback.",
    ) || equals(name, "ip6-localnet.") || equals(name, "ip6-mcastprefix.") || equals(
        name,
        "ip6-allnodes.",
    ) || equals(name, "ip6-allrouters.") || equals(name, "ip6-allhosts.")
}

pub open spec fn is_domain_char(c: char) -> bool {
    ||| '0' <= c <= '9'
    ||| 'a' <= c <= 'z'
    ||| 'A' <= c <= 'Z'
    ||| c == '-'
    ||| c == '.'
    ||| c == '_'
}

/// Only letters, digits, `-`, `.` and `_`, with a dot that is at neither end.
pub open spec fn domain_like(s: Seq<char>) -> bool {
    let inner = trim_end(trim_start(s, CharClass::Dot), CharClass::Dot);
    &&& inner.contains('.')
    &&& forall|i: int| 0 <= i < s.len() ==> is_domain_char(#[trigger] s[i])
}

/// Not a full validator, just enough to reject filter-list syntax and stray HTML.
/// Requires an interior dot (after stripping leading and trailing ones) so that a
/// CSS selector like `.ytd-browse`, with one leading dot and no interior one,
/// doesn't pass through.
pub fn looks_like_domain(s: &[char]) -> (r: bool)
    ensures
        r == domain_like(s@),
{
    let inner: &[char] = drop_class_end(skip_class(s, CharClass::Dot), CharClass::Dot);
    if !contains_char(inner, '.') {
        return false;
    }
    let n: usize = s.len();
    let mut i: usize = 0;
    while i < n
        invariant
            i <= n,
            n == s@.len(),
            forall|j: int| 0 <= j < i ==> is_domain_char(#[trigger] s@[j]),
        decreases n - i,
    {
        let c: char = s[i];
        if !(('0' <= c && c <= '9') || ('a' <= c && c <= 'z') || ('A' <= c && c <= 'Z') || c == '-'
            || c == '.' || c == '_') {
            assert(!is_domain_char(s@[i as int]));
            return false;
        }
        i = i + 1;
    }
    true
}

/// The domain of an Adblock network rule `||domain^`, with nothing or options
/// behind it. Rules with a wildcard or a path match less than the whole domain
/// and have none.
pub open spec fn rule_domain(line: Seq<char>) -> Option<Seq<char>> {
    if line.len() >= 2 && line[0] == '|' && line[1] == '|' {
        let rest = line.skip(2);
        let end = first_index(rest, '^');
        let domain = rest.take(end);
        let behind = rest.skip(end + 1);
        if end < rest.len() && domain.len() > 0 && !domain.contains('*') && !domain.contains('/')
            && (behind.len() == 0 || behind[0] == '$') {
            Some(domain)
        } else {
            None
        }
    } else {
        None
    }
}

/// Extracts the domain from `||domain^` (optionally `||domain^$options`). Skips
/// rules with a wildcard or path in the domain, or a path after `^`: those match a
/// specific path, not the whole domain. Exception rules (`@@||domain^`) don't
/// start with `||` and never match here.
pub fn adblock_network_rule_domain<'a>(line: &'a [char]) -> (r: Option<&'a [char]>)
    ensures
        match r {
            Some(domain) => rule_domain(line@) == Some(domain@),
            None => rule_domain(line@) is None,
        },
{
    if line.len() < 2 || line[0] != '|' || line[1] != '|' {
        return None;
    }
    let rest: &'a [char] = tail(line, 2);
    let end: usize = find_first(rest, '^');
    if end >= rest.len() {
        return None;
    }
    let domain: &'a [char] = head(rest, end);
    if domain.len() == 0 || contains_char(domain, '*') || contains_char(domain, '/') {
        return None;
    }
    let behind: &'a [char] = tail(rest, end + 1);
    if behind.len() > 0 && behind[0] != '$' {
        return None;
    }
    Some(domain)
}

/// The name under which a candidate is listed, if it is a domain that may be.
pub open spec fn listed_name(candidate: Seq<char>) -> Option<Seq<char>> {
    let name = normalized(candidate);
    if domain_like(candidate) && name != seq!['.'] && !is_excluded(name) {
        Some(name)
    } else {
        None
    }
}

fn insert_if_valid(set: &mut FxHashSet<String>, domain: &[char])
    ensures
        domains_of(*final(set)) == (match listed_name(domain@) {
            Some(name) => domains_of(*old(set)).insert(name),
            None => domains_of(*old(set)),
        }),
{
    if !looks_like_domain(domain) {
        return;
    }
    let name: String = normalize_chars(domain);
    let chars: Vec<char> = to_chars(name.as_str());
    if chars.len() == 1 && chars[0] == '.' {
        assert(name@ =~= seq!['.']);
        return;
    }
    if excluded(chars.as_slice()) {
        return;
    }
    insert_domain(set, name);
}

/// What a line of a list offers as domains: nothing if it is a comment; the domain
/// of a network rule; the names behind an IP address, as in a hosts file; or else
/// everything on the line.
pub open spec fn candidates(line: Seq<char>) -> Seq<Seq<char>> {
    let text = trim(line);
    if text.len() == 0 || text[0] == '#' || text[0] == '!' {
        seq![]
    } else {
        match rule_domain(text) {
            Some(domain) => seq![domain],
            None => {
                let words = tokens(text);
                if words.len() > 0 && ip(words[0]) is Some {
                    words.drop_first()
                } else {
                    words
                }
            },
        }
    }
}

/// The names that a sequence of candidates contributes.
pub open spec fn listed_in(words: Seq<Seq<char>>) -> Set<Seq<char>> {
    Set::new(
        |d: Seq<char>|
            exists|j: int| 0 <= j < words.len() && listed_name(#[trigger] words[j]) == Some(d),
    )
}

/// The names on a list: all that its lines contribute.
pub open spec fn listed(body: Seq<char>) -> Set<Seq<char>> {
    Set::new(
        |d: Seq<char>|
            exists|i: int|
                0 <= i < lines(body).len() && listed_in(
                    candidates(#[trigger] lines(body)[i]),
                ).contains(d),
    )
}

proof fn lemma_listed_in_push(words: Seq<Seq<char>>, i: int)
    requires
        0 <= i < words.len(),
    ensures
        listed_in(words.take(i + 1)) == (match listed_name(words[i]) {
            Some(name) => listed_in(words.take(i)).insert(name),
            None => listed_in(words.take(i)),
        }),
{
    let a = words.take(i);
    let b = words.take(i + 1);
    assert forall|d: Seq<char>| #[trigger] listed_in(b).contains(d) <==> listed_in(a).contains(d)
        || listed_name(words[i]) == Some(d) by {
        if listed_in(b).contains(d) {
            let j = choose|j: int| 0 <= j < b.len() && listed_name(#[trigger] b[j]) == Some(d);
            if j < i {
                assert(a[j] == b[j]);
            }
        }
        if listed_in(a).contains(d) {
            let j = choose|j: int| 0 <= j < a.len() && listed_name(#[trigger] a[j]) == Some(d);
            assert(b[j] == a[j]);
        }
        assert(b[i] == words[i]);
    }
    match listed_name(words[i]) {
        Some(name) => {
            assert(listed_in(b) =~= listed_in(a).insert(name));
        },
        None => {
            assert(listed_in(b) =~= listed_in(a));
        },
    }
}

/// Inserts what is valid of the words from position `from` on.
fn insert_words(set: &mut FxHashSet<String>, words: &Vec<&[char]>, from: usize)
    requires
        from <= words@.len(),
    ensures
        domains_of(*final(set)) == domains_of(*old(set)).union(
            listed_in(texts(words@).skip(from as int)),
        ),
{
    let ghost rest = texts(words@).skip(from as int);
    let n: usize = words.len();
    let mut i: usize = from;
    assert(listed_in(rest.take(0)) =~= Set::empty());
    assert(domains_of(*set) =~= domains_of(*old(set)).union(listed_in(rest.take(0))));
    while i < n
        invariant
            from <= i <= n,
            n == words@.len(),
            rest == texts(words@).skip(from as int),
            domains_of(*set) == domains_of(*old(set)).union(listed_in(rest.take(i - from))),
        decreases n - i,
    {
        let ghost before = domains_of(*set);
        insert_if_valid(set, words[i]);
        proof {
            assert(rest[i - from] == words@[i as int]@);
            lemma_listed_in_push(rest, i - from);
            assert(domains_of(*set) =~= domains_of(*old(set)).union(
                listed_in(rest.take(i - from + 1)),
            ));
        }
        i = i + 1;
    }
    assert(rest.take(n - from) =~= rest);
}

/// Inserts what a line of a list contributes.
fn insert_line(set: &mut FxHashSet<String>, raw: &[char])
    ensures
        domains_of(*final(set)) == domains_of(*old(set)).union(listed_in(candidates(raw@))),
{
    let line: &[char] = trimmed(raw);
    if line.len() == 0 || line[0] == '#' || line[0] == '!' {
        assert(domains_of(*set) =~= domains_of(*old(set)).union(listed_in(candidates(raw@))));
        return;
    }
    match adblock_network_rule_domain(line) {
        Some(domain) => {
            insert_if_valid(set, domain);
            proof {
                let words = seq![domain@];
                lemma_listed_in_push(words, 0);
                assert(words.take(1) =~= words);
                assert(listed_in(words.take(0)) =~= Set::empty());
                assert(domains_of(*set) =~= domains_of(*old(set)).union(listed_in(words)));
            }
        },
        None => {
            let words: Vec<&[char]> = split_tokens(line);
            let from: usize = if words.len() > 0 && parse_ip(words[0]).is_some() {
                1
            } else {
                0
            };
            proof {
                let all = texts(words@);
                assert(all.skip(0) =~= all);
                if words@.len() > 0 {
                    assert(all[0] == words@[0]@);
                    assert(all.skip(1) =~= all.drop_first());
                }
            }
            insert_words(set, &words, from);
        },
    }
}

/// Parses hosts-format, plain domain-per-line, and Adblock Plus network rules
/// (`||domain^`). Adblock Plus *cosmetic* rules (`domain##selector`, `#@#`, `#?#`)
/// hide a page element, not a domain, and are never treated as one. Only a line
/// starting with `#` or `!` is a comment.
///
/// Used identically for lists of blocked and of allowed domains. Exception rules
/// (`@@||domain^`) have no special meaning in either; they are not extracted.
pub fn parse_list(body: &str) -> (r: FxHashSet<String>)
    ensures
        domains_of(r) == listed(body@),
{
    let chars: Vec<char> = to_chars(body);
    let all: Vec<&[char]> = split_lines(chars.as_slice());
    let ghost ls = lines(body@);
    let ghost upto = |i: int|
        Set::new(
            |d: Seq<char>|
                exists|k: int| 0 <= k < i && listed_in(candidates(#[trigger] ls[k])).contains(d),
        );
    let mut set: FxHashSet<String> = no_domains();
    let n: usize = all.len();
    let mut i: usize = 0;
    assert(upto(0) =~= Set::empty());
    assert(forall|k: int| 0 <= k < all@.len() ==> (#[trigger] all@[k])@ == ls[k]);
    while i < n
        invariant
            i <= n,
            n == all@.len(),
            n == ls.len(),
            forall|k: int| 0 <= k < n ==> (#[trigger] all@[k])@ == ls[k],
            upto == |i: int|
                Set::new(
                    |d: Seq<char>|
                        exists|k: int|
                            0 <= k < i && listed_in(candidates(#[trigger] ls[k])).contains(d),
                ),
            domains_of(set) == upto(i as int),
        decreases n - i,
    {
        insert_line(&mut set, all[i]);
        proof {
            let line = listed_in(candidates(ls[i as int]));
            assert forall|d: Seq<char>| #[trigger] upto(i + 1).contains(d) <==> upto(
                i as int,
            ).contains(d) || line.contains(d) by {
                if upto(i + 1).contains(d) {
                    let k = choose|k: int|
                        0 <= k < i + 1 && listed_in(candidates(#[trigger] ls[k])).contains(d);
                    assert(k < i || k == i);
                }
            }
            assert(domains_of(set) =~= upto(i + 1));
        }
        i = i + 1;
    }
    assert(domains_of(set) =~= listed(body@));
    set
}

/// Why a fetched list was not used.
#[derive(Debug, Clone, Copy, PartialEq, Eq, Structural)]
pub enum ListError {
    /// The body is longer than `MAX_LIST_RESPONSE_BYTES`.
    TooLarge,
    /// The body is not valid UTF-8.
    NotUtf8,
}

impl ListError {
    /// What went wrong, in words.
    pub open spec fn text(self, url: Seq<char>) -> Seq<char> {
        "response from "@ + url + (match self {
            ListError::TooLarge => " exceeded the 268435456-byte limit for a single domain list"@,
            ListError::NotUtf8 => " was not valid UTF-8"@,
        })
    }

    pub fn message(&self, url: &str) -> (r: String)
        ensures
            r@ == self.text(url@),
    {
        let mut r: String = "response from ".to_owned();
        r.append(url);
        match self {
            ListError::TooLarge => r.append(
                " exceeded the 268435456-byte limit for a single domain list",
            ),
            ListError::NotUtf8 => r.append(" was not valid UTF-8"),
        }
        r
    }
}

/// Adds a chunk to the body of a list that is being fetched. Fetching must stop
/// once the body is too large.
pub fn add_chunk(body: &mut Vec<u8>, chunk: &[u8]) -> (r: Result<(), ListError>)
    ensures
        final(body)@ == old(body)@ + chunk@,
        match r {
            Ok(_) => final(body)@.len() <= MAX_LIST_RESPONSE_BYTES,
            Err(e) => final(body)@.len() > MAX_LIST_RESPONSE_BYTES && e == ListError::TooLarge,
        },
{
    push_all(body, chunk);
    if body.len() as u64 > MAX_LIST_RESPONSE_BYTES {
        return Err(ListError::TooLarge);
    }
    Ok(())
}

/// Parses the body of a fetched list.
pub fn parse_body(body: &Vec<u8>) -> (r: Result<FxHashSet<String>, ListError>)
    ensures
        match r {
            Ok(set) => valid_utf8(body@) && domains_of(set) == listed(decode_utf8(body@)),
            Err(e) => !valid_utf8(body@) && e == ListError::NotUtf8,
        },
{
    match utf8_text(body.as_slice()) {
        Some(text) => {
            proof {
                encode_utf8_decode_utf8(text@);
            }
            Ok(parse_list(text))
        },
        None => Err(ListError::NotUtf8),
    }
}

/// One fetchable list of domains, refreshed independently on its own timer.
pub struct Source {
    pub url: String,
    pub refresh_interval_secs: u64,
    pub set: FxHashSet<String>,
}

impl Source {
    /// What the most recent successful fetch brought.
    pub open spec fn domains(&self) -> Set<Seq<char>> {
        domains_of(self.set)
    }
}

/// One direction's worth of domains: the inline ones, and what the most recent
/// successful fetch of each list brought.
#[verifier::ext_equal]
pub struct SideView {
    pub inline: Set<Seq<char>>,
    pub sources: Seq<Set<Seq<char>>>,
}

impl SideView {
    pub open spec fn union(self) -> Set<Seq<char>> {
        Set::new(
            |d: Seq<char>|
                self.inline.contains(d) || exists|i: int|
                    0 <= i < self.sources.len() && (#[trigger] self.sources[i]).contains(d),
        )
    }

    /// After a fetch of one list. A failed fetch changes nothing.
    pub open spec fn stored(self, index: int, fetched: Option<Set<Seq<char>>>) -> Self {
        match fetched {
            Some(set) if 0 <= index < self.sources.len() => SideView {
                inline: self.inline,
                sources: self.sources.update(index, set),
            },
            _ => self,
        }
    }
}

/// Both directions, and the domains that are blocked.
#[verifier::ext_equal]
pub struct ListsView {
    pub block: SideView,
    pub allow: SideView,
    pub merged: Set<Seq<char>>,
}

impl ListsView {
    pub open spec fn stored(
        self,
        direction: Direction,
        index: int,
        fetched: Option<Set<Seq<char>>>,
    ) -> Self {
        match direction {
            Direction::Block => ListsView { block: self.block.stored(index, fetched), ..self },
            Direction::Allow => ListsView { allow: self.allow.stored(index, fetched), ..self },
        }
    }

    pub open spec fn published(self) -> Self {
        ListsView { merged: self.block.union().difference(self.allow.union()), ..self }
    }
}

/// What a fetch brought, if it did not fail.
pub open spec fn fetched_domains(fetched: Option<FxHashSet<String>>) -> Option<Set<Seq<char>>> {
    match fetched {
        Some(set) => Some(domains_of(set)),
        None => None,
    }
}

/// One direction's worth of domains, either blocked or allowed ones: the inline
/// domains of the configuration and the lists to fetch. `raw` is the union of all
/// of them when it was last computed.
pub struct DomainSet {
    sources: Vec<Source>,
    inline: FxHashSet<String>,
    raw: FxHashSet<String>,
}

/// The normalized names among `names`.
pub open spec fn normalized_names(names: Seq<String>) -> Set<Seq<char>> {
    Set::new(
        |d: Seq<char>|
            exists|i: int| 0 <= i < names.len() && normalized((#[trigger] names[i])@) == d,
    )
}

impl DomainSet {
    pub closed spec fn sources(&self) -> Seq<Source> {
        self.sources@
    }

    pub closed spec fn inline(&self) -> Set<Seq<char>> {
        domains_of(self.inline)
    }

    pub closed spec fn raw(&self) -> Set<Seq<char>> {
        domains_of(self.raw)
    }

    /// The inline domains, and those that the first `n` sources brought.
    pub open spec fn union_upto(&self, n: int) -> Set<Seq<char>> {
        Set::new(
            |d: Seq<char>|
                self.inline().contains(d) || exists|i: int|
                    0 <= i < n && (#[trigger] self.sources()[i]).domains().contains(d),
        )
    }

    /// The inline domains, and those of every source's most recent fetch.
    pub open spec fn union(&self) -> Set<Seq<char>> {
        self.union_upto(self.sources().len() as int)
    }

    pub open spec fn side(&self) -> SideView {
        SideView {
            inline: self.inline(),
            sources: self.sources().map_values(|s: Source| s.domains()),
        }
    }

    pub proof fn lemma_union(&self)
        ensures
            self.union() == self.side().union(),
    {
        let side = self.side();
        assert forall|d: Seq<char>| #[trigger] self.union().contains(d) <==> side.union().contains(
            d,
        ) by {
            if self.union().contains(d) && !self.inline().contains(d) {
                let i = choose|i: int|
                    0 <= i < self.sources().len() && (
                    #[trigger] self.sources()[i]).domains().contains(d);
                assert(side.sources[i].contains(d));
            }
            if side.union().contains(d) && !self.inline().contains(d) {
                let i = choose|i: int|
                    0 <= i < side.sources.len() && (#[trigger] side.sources[i]).contains(d);
                assert(self.sources()[i].domains().contains(d));
            }
        }
        assert(self.union() =~= side.union());
    }

    fn new(urls: &Vec<String>, domains: &Vec<String>, refresh_interval_secs: u64) -> (r: Self)
        ensures
            r.sources().len() == urls@.len(),
            forall|i: int| #![trigger r.sources()[i]] 0 <= i < urls@.len() ==> {
                &&& r.sources()[i].url@ == urls@[i]@
                &&& r.sources()[i].refresh_interval_secs == refresh_interval_secs
                &&& r.sources()[i].domains() == Set::<Seq<char>>::empty()
            },
            r.inline() == normalized_names(domains@),
            r.raw() == Set::<Seq<char>>::empty(),
    {
        let mut sources: Vec<Source> = Vec::new();
        let n: usize = urls.len();
        let mut i: usize = 0;
        while i < n
            invariant
                i <= n,
                n == urls@.len(),
                sources@.len() == i,
                forall|j: int| #![trigger sources@[j]] 0 <= j < i ==> {
                    &&& sources@[j].url@ == urls@[j]@
                    &&& sources@[j].refresh_interval_secs == refresh_interval_secs
                    &&& sources@[j].domains() == Set::<Seq<char>>::empty()
                },
            decreases n - i,
        {
            sources.push(Source { url: urls[i].clone(), refresh_interval_secs, set: no_domains() });
            i = i + 1;
        }
        let mut inline: FxHashSet<String> = no_domains();
        let m: usize = domains.len();
        let mut j: usize = 0;
        assert(domains_of(inline) =~= normalized_names(domains@.take(0)));
        while j < m
            invariant
                j <= m,
                m == domains@.len(),
                domains_of(inline) == normalized_names(domains@.take(j as int)),
            decreases m - j,
        {
            insert_domain(&mut inline, normalize_name(domains[j].as_str()));
            proof {
                let a = domains@.take(j as int);
                let b = domains@.take(j + 1);
                assert forall|d: Seq<char>| #[trigger] normalized_names(b).contains(d)
                    <==> normalized_names(a).contains(d) || d == normalized(
                    domains@[j as int]@,
                ) by {
                    if normalized_names(b).contains(d) {
                        let k = choose|k: int|
                            0 <= k < b.len() && normalized((#[trigger] b[k])@) == d;
                        if k < j {
                            assert(a[k] == b[k]);
                        }
                    }
                    if normalized_names(a).contains(d) {
                        let k = choose|k: int|
                            0 <= k < a.len() && normalized((#[trigger] a[k])@) == d;
                        assert(b[k] == a[k]);
                    }
                    assert(b[j as int] == domains@[j as int]);
                }
                assert(domains_of(inline) =~= normalized_names(b));
            }
            j = j + 1;
        }
        assert(domains@.take(m as int) =~= domains@);
        DomainSet { sources, inline, raw: no_domains() }
    }

    /// Recomputes `raw` as the inline domains and every source's most recent
    /// fetch. Called after any source in this direction refreshes.
    fn recompute_raw(&mut self)
        ensures
            final(self).sources() == old(self).sources(),
            final(self).inline() == old(self).inline(),
            final(self).raw() == old(self).union(),
    {
        let mut merged: FxHashSet<String> = copy_domains(&self.inline);
        let n: usize = self.sources.len();
        let mut i: usize = 0;
        assert(domains_of(merged) =~= self.union_upto(0));
        while i < n
            invariant
                i <= n,
                n == self.sources@.len(),
                *self == *old(self),
                domains_of(merged) == self.union_upto(i as int),
            decreases n - i,
        {
            add_domains(&mut merged, &self.sources[i].set);
            proof {
                let this = self.sources()[i as int].domains();
                assert forall|d: Seq<char>| #[trigger] self.union_upto(i + 1).contains(d)
                    <==> self.union_upto(i as int).contains(d) || this.contains(d) by {
                    if self.union_upto(i + 1).contains(d) && !self.inline().contains(d) {
                        let k = choose|k: int|
                            0 <= k < i + 1 && (#[trigger] self.sources()[k]).domains().contains(d);
                        assert(k < i || k == i);
                    }
                }
                assert(domains_of(merged) =~= self.union_upto(i + 1));
            }
            i = i + 1;
        }
        self.raw = merged;
    }

    /// The number of domains when `raw` was last computed.
    pub fn len(&self) -> (r: usize)
        ensures
            r == self.raw().len(),
    {
        count_domains(&self.raw)
    }

    /// Takes over what a fetch brought. A failed fetch changes nothing.
    fn store(&mut self, index: usize, fetched: Option<FxHashSet<String>>)
        requires
            index < old(self).sources().len(),
        ensures
            final(self).inline() == old(self).inline(),
            final(self).raw() == old(self).raw(),
            final(self).sources().len() == old(self).sources().len(),
            forall|i: int| #![trigger final(self).sources()[i]]
                0 <= i < old(self).sources().len() ==> {
                    let (before, after) = (old(self).sources()[i], final(self).sources()[i]);
                    &&& after.url == before.url
                    &&& after.refresh_interval_secs == before.refresh_interval_secs
                    &&& after.domains() == (match fetched {
                        Some(set) if i == index => domains_of(set),
                        _ => before.domains(),
                    })
                },
    {
        if let Some(set) = fetched {
            self.sources[index].set = set;
        }
    }
}

/// Which way a list of domains counts.
#[derive(Debug, Clone, Copy, PartialEq, Eq, Structural)]
pub enum Direction {
    Block,
    Allow,
}

/// The blocked and the allowed domains, and the set that is actually blocked: the
/// former without the latter.
pub struct BlocklistManager {
    block: DomainSet,
    allow: DomainSet,
    merged: FxHashSet<String>,
}

impl BlocklistManager {
    pub closed spec fn block(&self) -> DomainSet {
        self.block
    }

    pub closed spec fn allow(&self) -> DomainSet {
        self.allow
    }

    /// The domains that are blocked.
    pub closed spec fn merged(&self) -> Set<Seq<char>> {
        domains_of(self.merged)
    }

    pub open spec fn direction(&self, direction: Direction) -> DomainSet {
        match direction {
            Direction::Block => self.block(),
            Direction::Allow => self.allow(),
        }
    }

    pub open spec fn lists(&self) -> ListsView {
        ListsView {
            block: self.block().side(),
            allow: self.allow().side(),
            merged: self.merged(),
        }
    }

    /// Nothing is blocked before the first `publish`.
    pub fn new(config: &BlocklistsConfig, whitelist: &WhitelistConfig) -> (r: Self)
        ensures
            r.block().inline() == normalized_names(config.domains@),
            r.allow().inline() == normalized_names(whitelist.domains@),
            r.block().sources().len() == config.urls@.len(),
            r.allow().sources().len() == whitelist.urls@.len(),
            forall|i: int| #![trigger r.block().sources()[i]] 0 <= i < config.urls@.len() ==> {
                &&& r.block().sources()[i].url@ == config.urls@[i]@
                &&& r.block().sources()[i].refresh_interval_secs == config.refresh_interval_secs
                &&& r.block().sources()[i].domains() == Set::<Seq<char>>::empty()
            },
            forall|i: int| #![trigger r.allow().sources()[i]] 0 <= i < whitelist.urls@.len() ==> {
                &&& r.allow().sources()[i].url@ == whitelist.urls@[i]@
                &&& r.allow().sources()[i].refresh_interval_secs == whitelist.refresh_interval_secs
                &&& r.allow().sources()[i].domains() == Set::<Seq<char>>::empty()
            },
            r.block().raw() == Set::<Seq<char>>::empty(),
            r.allow().raw() == Set::<Seq<char>>::empty(),
            r.merged() == Set::<Seq<char>>::empty(),
    {
        BlocklistManager {
            block: DomainSet::new(&config.urls, &config.domains, config.refresh_interval_secs),
            allow: DomainSet::new(
                &whitelist.urls,
                &whitelist.domains,
                whitelist.refresh_interval_secs,
            ),
            merged: no_domains(),
        }
    }

    /// The lists to fetch in one direction.
    pub fn sources(&self, direction: Direction) -> (r: &Vec<Source>)
        ensures
            r@ == self.direction(direction).sources(),
    {
        match direction {
            Direction::Block => &self.block.sources,
            Direction::Allow => &self.allow.sources,
        }
    }

    /// A copy of the domains that are blocked.
    pub fn merged_set(&self) -> (r: FxHashSet<String>)
        ensures
            domains_of(r) == self.merged(),
    {
        copy_domains(&self.merged)
    }

    /// The number of allowed domains.
    pub fn allowed_len(&self) -> (r: usize)
        ensures
            r == self.allow().raw().len(),
    {
        self.allow.len()
    }

    /// Takes over what a fetch of one list brought. A list that could not be
    /// fetched keeps its previous contents.
    pub fn fetch_and_store(
        &mut self,
        direction: Direction,
        index: usize,
        fetched: Option<FxHashSet<String>>,
    )
        requires
            index < old(self).direction(direction).sources().len(),
        ensures
            final(self).lists() == old(self).lists().stored(
                direction,
                index as int,
                fetched_domains(fetched),
            ),
            final(self).merged() == old(self).merged(),
            forall|d: Direction| #![trigger final(self).direction(d)] {
                let (before, after) = (old(self).direction(d), final(self).direction(d));
                &&& after.inline() == before.inline()
                &&& after.raw() == before.raw()
                &&& after.sources().len() == before.sources().len()
                &&& forall|i: int| #![trigger after.sources()[i]]
                    0 <= i < before.sources().len() ==> {
                        &&& after.sources()[i].url == before.sources()[i].url
                        &&& after.sources()[i].refresh_interval_secs
                            == before.sources()[i].refresh_interval_secs
                        &&& after.sources()[i].domains() == (match fetched {
                            Some(set) if d == direction && i == index => domains_of(set),
                            _ => before.sources()[i].domains(),
                        })
                    }
            },
    {
        match direction {
            Direction::Block => self.block.store(index, fetched),
            Direction::Allow => self.allow.store(index, fetched),
        }
        proof {
            let side = self.direction(direction).side();
            let before = old(self).direction(direction).side();
            assert(side.sources =~= before.stored(
                index as int,
                fetched_domains(fetched),
            ).sources);
            assert(self.lists() =~= old(self).lists().stored(
                direction,
                index as int,
                fetched_domains(fetched),
            ));
        }
    }

    /// Publishes what is blocked: the blocked domains when they were last computed,
    /// without the allowed ones, as exact names. Neither of the two changes.
    pub fn republish_merged(&mut self)
        ensures
            final(self).block() == old(self).block(),
            final(self).allow() == old(self).allow(),
            final(self).merged() == old(self).block().raw().difference(old(self).allow().raw()),
    {
        let mut merged: FxHashSet<String> = copy_domains(&self.block.raw);
        remove_domains(&mut merged, &self.allow.raw);
        self.merged = merged;
    }

    /// Recomputes what is blocked. Either direction refreshing can change it, so
    /// both are recomputed regardless of which one just changed.
    pub fn publish(&mut self)
        ensures
            final(self).lists() == old(self).lists().published(),
            final(self).merged() == old(self).block().union().difference(
                old(self).allow().union(),
            ),
            forall|d: Direction| #![trigger final(self).direction(d)] {
                let (before, after) = (old(self).direction(d), final(self).direction(d));
                &&& after.inline() == before.inline()
                &&& after.sources() == before.sources()
                &&& after.raw() == before.union()
            },
    {
        self.block.recompute_raw();
        self.allow.recompute_raw();
        self.republish_merged();
        proof {
            old(self).block().lemma_union();
            old(self).allow().lemma_union();
        }
    }
}

/// Whether a name is blocked: checked as an exact name, not by subdomain.
pub fn is_blocked(blocklist: &FxHashSet<String>, name: &str) -> (r: bool)
    ensures
        r == domains_of(*blocklist).contains(name@),
{
    has_domain(blocklist, name)
}

/// A whitelisted domain is never blocked once the lists have been published, no
/// matter what the blocklists hold; and nothing else is lost to the whitelist.
pub proof fn law_whitelist_wins(manager: BlocklistManager, name: Seq<char>)
    requires
        manager.merged() == manager.block().union().difference(manager.allow().union()),
    ensures
        manager.allow().union().contains(name) ==> !manager.merged().contains(name),
        manager.allow().inline().contains(name) ==> !manager.merged().contains(name),
        !manager.allow().union().contains(name) ==> (manager.merged().contains(name)
            <==> manager.block().union().contains(name)),
{
}

/// A list was fetched, or could not be: in which direction, at which position, and
/// what came of it.
pub struct Refresh {
    pub direction: Direction,
    pub index: int,
    pub fetched: Option<Set<Seq<char>>>,
}

/// The lists after a sequence of refreshes, each of which is published.
pub open spec fn after_refreshes(lists: ListsView, refreshes: Seq<Refresh>) -> ListsView
    decreases refreshes.len(),
{
    if refreshes.len() == 0 {
        lists
    } else {
        let last = refreshes.last();
        after_refreshes(lists, refreshes.drop_last()).stored(
            last.direction,
            last.index,
            last.fetched,
        ).published()
    }
}

/// Whatever is fetched in either direction, and in whatever order, what is blocked is
/// the blocked domains without the allowed ones, as exact names: no refresh can leave
/// a whitelisted name blocked, and whitelisting a name unblocks no other. The inline
/// domains stay.
pub proof fn law_no_refresh_blocks_a_whitelisted_name(
    lists: ListsView,
    refreshes: Seq<Refresh>,
    name: Seq<char>,
)
    requires
        refreshes.len() > 0 || lists.merged == lists.published().merged,
    ensures
        ({
            let now = after_refreshes(lists, refreshes);
            &&& now.merged == now.block.union().difference(now.allow.union())
            &&& now.block.inline == lists.block.inline
            &&& now.allow.inline == lists.allow.inline
            &&& lists.allow.inline.contains(name) ==> !now.merged.contains(name)
            &&& now.allow.union().contains(name) ==> !now.merged.contains(name)
            &&& !now.allow.union().contains(name) ==> (now.merged.contains(name)
                <==> now.block.union().contains(name))
        }),
    decreases refreshes.len(),
{
    if refreshes.len() > 1 {
        law_no_refresh_blocks_a_whitelisted_name(lists, refreshes.drop_last(), name);
    } else if refreshes.len() == 1 {
        assert(after_refreshes(lists, refreshes.drop_last()) == lists);
    }
}

/// Everything on a list is a normalized domain name, with a dot inside, and none
/// of the excluded hostnames.
pub proof fn law_listed_names(body: Seq<char>, name: Seq<char>)
    requires
        listed(body).contains(name),
    ensures
        !is_excluded(name),
        name.len() > 1,
        name.last() == '.',
        name[0] != '.',
        lower(name) == name,
        normalized(name) == name,
        exists|p: int| 0 <= p < name.len() - 1 && #[trigger] name[p] == '.',
{
    let i = choose|i: int|
        0 <= i < lines(body).len() && listed_in(candidates(#[trigger] lines(body)[i])).contains(
            name,
        );
    let words = candidates(lines(body)[i]);
    let j = choose|j: int|
        0 <= j < words.len() && listed_name(#[trigger] words[j]) == Some(name);
    let word = words[j];
    law_normalized_form(word);
    if name.len() == 1 {
        assert(name =~= seq!['.']);
    }
    lemma_domain(word);
}

/// A domain keeps its inner dot when it is normalized, and normalizing it again changes
/// nothing.
pub proof fn lemma_domain(word: Seq<char>)
    requires
        domain_like(word),
    ensures
        exists|p: int| 0 <= p < normalized(word).len() - 1 && #[trigger] normalized(word)[p] == '.',
        normalized(normalized(word)) == normalized(word),
{
    let name = normalized(word);
    assert forall|c: char| #[trigger] word.contains(c) implies !is_whitespace(c) by {
        let k = word.index_of(c);
        assert(is_domain_char(word[k]));
    }
    assert(word.len() > 0) by {
        lemma_trimmed_chars(trim_start(word, CharClass::Dot), CharClass::Dot);
        lemma_trimmed_chars(word, CharClass::Dot);
        assert(word.contains('.'));
    }
    assert(word.contains(word[0]) && word.contains(word.last()));
    assert(trim(word) == word);
    lemma_trim_commutes(word, CharClass::Dot);
    let bare = bare_name(word);
    assert(bare.contains('.'));
    let p = bare.index_of('.');
    assert(name[p] == '.');
    lemma_trimmed_chars(trim_end(word, CharClass::Dot), CharClass::Dot);
    lemma_trimmed_chars(word, CharClass::Dot);
    assert(bare.contains(bare[0]));
    law_normalized_is_stable(word);
}

/// The names that a sequence of lines contributes.
spec fn listed_by(all: Seq<Seq<char>>) -> Set<Seq<char>> {
    Set::new(
        |d: Seq<char>|
            exists|i: int|
                0 <= i < all.len() && listed_in(candidates(#[trigger] all[i])).contains(d),
    )
}

proof fn lemma_listed_by_cons(line: Seq<char>, all: Seq<Seq<char>>)
    ensures
        listed_by(seq![line] + all) == listed_in(candidates(line)).union(listed_by(all)),
{
    let whole = seq![line] + all;
    assert forall|d: Seq<char>| #[trigger] listed_by(whole).contains(d) <==> listed_in(
        candidates(line),
    ).union(listed_by(all)).contains(d) by {
        if listed_by(whole).contains(d) {
            let i = choose|i: int|
                0 <= i < whole.len() && listed_in(candidates(#[trigger] whole[i])).contains(d);
            if i > 0 {
                assert(all[i - 1] == whole[i]);
            }
        }
        if listed_by(all).contains(d) {
            let i = choose|i: int|
                0 <= i < all.len() && listed_in(candidates(#[trigger] all[i])).contains(d);
            assert(whole[i + 1] == all[i]);
        }
        assert(whole[0] == line);
    }
    assert(listed_by(whole) =~= listed_in(candidates(line)).union(listed_by(all)));
}

/// A carriage return at the end of a line makes no difference.
proof fn lemma_strip_return(line: Seq<char>)
    ensures
        candidates(strip_return(line)) == candidates(line),
{
    if line.len() > 0 && line.last() == '\r' {
        lemma_trim_commutes(line, CharClass::Whitespace);
        lemma_trim_commutes(line.drop_last(), CharClass::Whitespace);
        assert(trim(line) == trim(line.drop_last()));
    }
}

/// Two lists one after the other, with a line feed between them, list what the one and
/// what the other lists.
pub proof fn law_joined_lists(a: Seq<char>, b: Seq<char>)
    ensures
        listed(a + seq!['\n'] + b) == listed(a).union(listed(b)),
    decreases a.len(),
{
    let whole = a + seq!['\n'] + b;
    let i = first_index(a, '\n');
    lemma_first_index(a, '\n');
    lemma_first_index(whole, '\n');
    let j = first_index(whole, '\n');
    assert(listed(whole) == listed_by(lines(whole)));
    assert(listed(a) == listed_by(lines(a)));
    assert(listed(b) == listed_by(lines(b)));
    assert(whole[a.len() as int] == '\n');
    assert(i == j) by {
        if j < i {
            assert(whole[j] == a[j]);
        }
        if i < j {
            assert(whole[i] == '\n');
        }
    }
    assert(whole.take(i) =~= a.take(i));
    if i < a.len() {
        let rest = a.skip(i + 1);
        assert(whole.skip(i + 1) =~= rest + seq!['\n'] + b);
        law_joined_lists(rest, b);
        lemma_listed_by_cons(strip_return(a.take(i)), lines(rest));
        lemma_listed_by_cons(strip_return(a.take(i)), lines(whole.skip(i + 1)));
        assert(listed(rest) == listed_by(lines(rest)));
        assert(listed(whole.skip(i + 1)) == listed_by(lines(whole.skip(i + 1))));
        assert(listed(whole) =~= listed(a).union(listed(b)));
    } else {
        assert(a.take(i) =~= a);
        assert(whole.skip(i + 1) =~= b);
        lemma_strip_return(a);
        lemma_listed_by_cons(strip_return(a), lines(b));
        if a.len() > 0 {
            lemma_listed_by_cons(a, seq![]);
            assert(seq![a] + Seq::<Seq<char>>::empty() =~= seq![a]);
            assert(listed_by(seq![]) =~= Set::empty());
        } else {
            assert(trim(a) == a);
            assert(listed_in(candidates(a)) =~= Set::empty());
            assert(listed_by(lines(a)) =~= Set::empty());
        }
        assert(listed(whole) =~= listed(a).union(listed(b)));
    }
}

/// A comment contributes nothing to a list.
pub proof fn law_comments_are_not_listed(line: Seq<char>)
    requires
        trim(line).len() > 0,
        trim(line)[0] == '#' || trim(line)[0] == '!',
    ensures
        listed_in(candidates(line)) == Set::<Seq<char>>::empty(),
{
    assert(listed_in(candidates(line)) =~= Set::<Seq<char>>::empty());
}

/// A line with a cosmetic rule (`domain##selector`, `domain#@#selector`) lists no
/// domain out of the word that holds the `#`.
pub proof fn law_cosmetic_rules_are_not_listed(word: Seq<char>)
    requires
        word.contains('#'),
    ensures
        listed_name(word) is None,
{
    let i = word.index_of('#');
    assert(word[i] == '#');
    assert(!is_domain_char(word[i]));
}

} // verus!

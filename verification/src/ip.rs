//! IP addresses and their textual notation.

use vstd::prelude::*;

use crate::text::{
    all_digits, decimal, digits_value, head, is_digit, law_decimal_is_read_back, parse_unsigned,
    split, split_at_char, tail,
};
use crate::text_laws::{joined, law_split_and_join, law_split_pieces};

verus! {

#[derive(Clone, Copy)]
pub enum IpAddr {
    V4([u8; 4]),
    V6([u16; 8]),
}

/// What an address consists of: four bytes, or eight groups of 16 bits.
#[verifier::ext_equal]
pub enum IpView {
    V4(Seq<u8>),
    V6(Seq<u16>),
}

impl View for IpAddr {
    type V = IpView;

    open spec fn view(&self) -> IpView {
        match self {
            IpAddr::V4(octets) => IpView::V4(octets@),
            IpAddr::V6(groups) => IpView::V6(groups@),
        }
    }
}

/// A number from 0 to 255 in decimal, without leading zeros.
pub open spec fn octet(s: Seq<char>) -> Option<u8> {
    if 1 <= s.len() <= 3 && all_digits(s) && (s.len() == 1 || s[0] != '0') && digits_value(s)
        <= 255 {
        Some(digits_value(s) as u8)
    } else {
        None
    }
}

/// Dotted decimal notation of an IPv4 address.
pub open spec fn ipv4(s: Seq<char>) -> Option<Seq<u8>> {
    let pieces = split(s, '.');
    if pieces.len() == 4 && forall|i: int| 0 <= i < 4 ==> octet(#[trigger] pieces[i]) is Some {
        Some(pieces.map_values(|p: Seq<char>| octet(p).unwrap()))
    } else {
        None
    }
}

/// The value of a hexadecimal digit.
pub open spec fn hex_digit(c: char) -> Option<u16> {
    if '0' <= c <= '9' {
        Some((c as u32 - '0' as u32) as u16)
    } else if 'a' <= c <= 'f' {
        Some((c as u32 - 'a' as u32 + 10) as u16)
    } else if 'A' <= c <= 'F' {
        Some((c as u32 - 'A' as u32 + 10) as u16)
    } else {
        None
    }
}

/// The number that hexadecimal digits spell.
pub open spec fn hex_value(s: Seq<char>) -> Option<nat>
    decreases s.len(),
{
    if s.len() == 0 {
        Some(0)
    } else {
        match (hex_value(s.drop_last()), hex_digit(s.last())) {
            (Some(v), Some(d)) => Some(v * 16 + d as nat),
            _ => None,
        }
    }
}

/// One group of an IPv6 address: one to four hexadecimal digits.
pub open spec fn group(s: Seq<char>) -> Option<u16> {
    if 1 <= s.len() <= 4 && hex_value(s) is Some {
        Some(hex_value(s).unwrap() as u16)
    } else {
        None
    }
}

/// The last piece of a list of groups: a group, or an IPv4 address for the last
/// two groups.
pub open spec fn last_groups(s: Seq<char>, dotted: bool) -> Option<Seq<u16>> {
    match group(s) {
        Some(g) => Some(seq![g]),
        None => match ipv4(s) {
            Some(o) if dotted => Some(
                seq![(o[0] * 256 + o[1]) as u16, (o[2] * 256 + o[3]) as u16],
            ),
            _ => None,
        },
    }
}

/// A list of groups. If `dotted` is set, it may end in an IPv4 address.
pub open spec fn groups(pieces: Seq<Seq<char>>, dotted: bool) -> Option<Seq<u16>>
    decreases pieces.len(),
{
    if pieces.len() == 0 {
        Some(seq![])
    } else if pieces.len() == 1 {
        last_groups(pieces[0], dotted)
    } else {
        match (group(pieces[0]), groups(pieces.drop_first(), dotted)) {
            (Some(g), Some(rest)) => Some(seq![g] + rest),
            _ => None,
        }
    }
}

/// The groups on one side of a double colon, where there may be none.
pub open spec fn side(s: Seq<char>, dotted: bool) -> Option<Seq<u16>> {
    if s.len() == 0 {
        Some(seq![])
    } else {
        groups(split(s, ':'), dotted)
    }
}

/// The position of the first double colon, or the length of `s` if there is none.
pub open spec fn double_colon(s: Seq<char>) -> int
    decreases s.len(),
{
    if s.len() < 2 {
        s.len() as int
    } else if s[0] == ':' && s[1] == ':' {
        0
    } else {
        1 + double_colon(s.drop_first())
    }
}

/// Notation of an IPv6 address: eight groups between colons, where a double colon
/// may stand for one or more groups of zero, and the last two groups may be in
/// IPv4 notation.
pub open spec fn ipv6(s: Seq<char>) -> Option<Seq<u16>> {
    let i = double_colon(s);
    if i < s.len() {
        match (side(s.take(i), false), side(s.skip(i + 2), true)) {
            (Some(front), Some(back)) => if front.len() + back.len() <= 7 {
                Some(front + Seq::new((8 - front.len() - back.len()) as nat, |j: int| 0u16) + back)
            } else {
                None
            },
            _ => None,
        }
    } else {
        match groups(split(s, ':'), true) {
            Some(all) if all.len() == 8 => Some(all),
            _ => None,
        }
    }
}

/// Notation of an IP address.
pub open spec fn ip(s: Seq<char>) -> Option<IpView> {
    match ipv4(s) {
        Some(octets) => Some(IpView::V4(octets)),
        None => match ipv6(s) {
            Some(all) => Some(IpView::V6(all)),
            None => None,
        },
    }
}

fn parse_octet(s: &[char]) -> (r: Option<u8>)
    ensures
        r == octet(s@),
{
    let n: usize = s.len();
    if n == 0 || n > 3 || (n > 1 && s[0] == '0') || s[0] == '+' {
        assert(n > 0 && s@[0] == '+' ==> !is_digit(s@[0]));
        return None;
    }
    match parse_unsigned(s, 255) {
        Some(v) => Some(v as u8),
        None => None,
    }
}

/// Reads an IPv4 address.
pub fn parse_ipv4(s: &[char]) -> (r: Option<[u8; 4]>)
    ensures
        match r {
            Some(octets) => ipv4(s@) == Some(octets@),
            None => ipv4(s@) is None,
        },
{
    let pieces: Vec<&[char]> = split_at_char(s, '.');
    let ghost ps = split(s@, '.');
    assert(forall|i: int| 0 <= i < pieces@.len() ==> (#[trigger] pieces@[i])@ == ps[i]);
    if pieces.len() != 4 {
        return None;
    }
    let mut octets: [u8; 4] = [0u8; 4];
    let mut i: usize = 0;
    while i < 4
        invariant
            i <= 4,
            pieces@.len() == 4,
            ps == split(s@, '.'),
            ps.len() == 4,
            forall|j: int| 0 <= j < 4 ==> (#[trigger] pieces@[j])@ == ps[j],
            forall|j: int| 0 <= j < i ==> octet(#[trigger] ps[j]) == Some(octets@[j]),
        decreases 4 - i,
    {
        match parse_octet(pieces[i]) {
            Some(o) => {
                octets[i] = o;
            },
            None => {
                assert(octet(ps[i as int]) is None);
                return None;
            },
        }
        i = i + 1;
    }
    assert(ps.map_values(|p: Seq<char>| octet(p).unwrap()) =~= octets@) by {
        assert(octet(ps[0]) == Some(octets@[0]));
        assert(octet(ps[1]) == Some(octets@[1]));
        assert(octet(ps[2]) == Some(octets@[2]));
        assert(octet(ps[3]) == Some(octets@[3]));
    }
    Some(octets)
}

fn parse_hex_digit(c: char) -> (r: Option<u16>)
    ensures
        r == hex_digit(c),
{
    if '0' <= c && c <= '9' {
        Some((c as u32 - '0' as u32) as u16)
    } else if 'a' <= c && c <= 'f' {
        Some((c as u32 - 'a' as u32 + 10) as u16)
    } else if 'A' <= c && c <= 'F' {
        Some((c as u32 - 'A' as u32 + 10) as u16)
    } else {
        None
    }
}

proof fn lemma_hex_none(s: Seq<char>, i: int)
    requires
        0 <= i < s.len(),
        hex_digit(s[i]) is None,
    ensures
        hex_value(s) is None,
    decreases s.len(),
{
    if i < s.len() - 1 {
        lemma_hex_none(s.drop_last(), i);
    }
}

fn parse_group(s: &[char]) -> (r: Option<u16>)
    ensures
        r == group(s@),
{
    let n: usize = s.len();
    if n == 0 || n > 4 {
        return None;
    }
    let mut v: u32 = 0;
    let mut bound: u32 = 1;
    let mut i: usize = 0;
    while i < n
        invariant
            i <= n,
            n == s@.len(),
            n <= 4,
            hex_value(s@.take(i as int)) == Some(v as nat),
            v < bound,
            i == 0 ==> bound == 1,
            i == 1 ==> bound == 16,
            i == 2 ==> bound == 256,
            i == 3 ==> bound == 4096,
            i == 4 ==> bound == 65536,
        decreases n - i,
    {
        assert(s@.take(i + 1).drop_last() =~= s@.take(i as int));
        match parse_hex_digit(s[i]) {
            Some(d) => {
                v = v * 16 + d as u32;
                bound = bound * 16;
            },
            None => {
                proof {
                    lemma_hex_none(s@, i as int);
                }
                return None;
            },
        }
        i = i + 1;
    }
    assert(s@.take(n as int) =~= s@);
    Some(v as u16)
}

/// The groups of `rest`, with those before it in front.
spec fn after(front: Seq<u16>, rest: Option<Seq<u16>>) -> Option<Seq<u16>> {
    match rest {
        Some(r) => Some(front + r),
        None => None,
    }
}

fn parse_groups(s: &[char], dotted: bool) -> (r: Option<Vec<u16>>)
    ensures
        match r {
            Some(all) => groups(split(s@, ':'), dotted) == Some(all@),
            None => groups(split(s@, ':'), dotted) is None,
        },
{
    let pieces: Vec<&[char]> = split_at_char(s, ':');
    let ghost ps = split(s@, ':');
    assert(forall|i: int| 0 <= i < pieces@.len() ==> (#[trigger] pieces@[i])@ == ps[i]);
    let n: usize = pieces.len();
    let mut all: Vec<u16> = Vec::new();
    let mut i: usize = 0;
    proof {
        assert(ps.skip(0) =~= ps);
        assert(after(all@, groups(ps, dotted)) == groups(ps, dotted)) by {
            if let Some(r) = groups(ps, dotted) {
                assert(all@ + r =~= r);
            }
        }
    }
    while i + 1 < n
        invariant
            i < n,
            n == ps.len(),
            n == pieces@.len(),
            forall|j: int| 0 <= j < n ==> (#[trigger] pieces@[j])@ == ps[j],
            ps == split(s@, ':'),
            groups(ps, dotted) == after(all@, groups(ps.skip(i as int), dotted)),
        decreases n - i,
    {
        let ghost before = all@;
        let ghost rest = ps.skip(i as int);
        assert(rest.drop_first() =~= ps.skip(i + 1));
        assert(rest[0] == ps[i as int]);
        match parse_group(pieces[i]) {
            Some(g) => {
                all.push(g);
                proof {
                    if let Some(r) = groups(ps.skip(i + 1), dotted) {
                        assert(before + (seq![g] + r) =~= before.push(g) + r);
                    }
                }
            },
            None => {
                return None;
            },
        }
        i = i + 1;
    }
    let ghost rest = ps.skip(i as int);
    assert(rest.len() == 1 && rest[0] == ps[i as int]);
    match parse_group(pieces[i]) {
        Some(g) => {
            assert(all@ + seq![g] =~= all@.push(g));
            all.push(g);
            Some(all)
        },
        None => {
            if !dotted {
                return None;
            }
            match parse_ipv4(pieces[i]) {
                Some(o) => {
                    let high: u16 = o[0] as u16 * 256 + o[1] as u16;
                    let low: u16 = o[2] as u16 * 256 + o[3] as u16;
                    assert(all@ + seq![high, low] =~= all@.push(high).push(low));
                    all.push(high);
                    all.push(low);
                    Some(all)
                },
                None => None,
            }
        },
    }
}

fn parse_side(s: &[char], dotted: bool) -> (r: Option<Vec<u16>>)
    ensures
        match r {
            Some(all) => side(s@, dotted) == Some(all@),
            None => side(s@, dotted) is None,
        },
{
    if s.len() == 0 {
        let all: Vec<u16> = Vec::new();
        assert(all@ =~= seq![]);
        return Some(all);
    }
    parse_groups(s, dotted)
}

proof fn lemma_double_colon(s: Seq<char>)
    ensures
        0 <= double_colon(s) <= s.len(),
        double_colon(s) < s.len() ==> double_colon(s) + 2 <= s.len(),
    decreases s.len(),
{
    if s.len() >= 2 {
        lemma_double_colon(s.drop_first());
    }
}

fn find_double_colon(s: &[char]) -> (r: usize)
    ensures
        r == double_colon(s@),
{
    let n: usize = s.len();
    let mut i: usize = 0;
    assert(s@.skip(0) =~= s@);
    while i < n
        invariant
            i <= n,
            n == s@.len(),
            double_colon(s@) == i + double_colon(s@.skip(i as int)),
        decreases n - i,
    {
        let ghost rest = s@.skip(i as int);
        assert(rest.drop_first() =~= s@.skip(i + 1));
        if i + 1 < n && s[i] == ':' && s[i + 1] == ':' {
            assert(rest[0] == ':' && rest[1] == ':');
            return i;
        }
        if i + 1 == n {
            assert(rest.len() == 1);
            return n;
        }
        assert(rest[0] == s@[i as int] && rest[1] == s@[i + 1]);
        i = i + 1;
    }
    n
}

/// Eight groups out of those before and those behind the zeros.
fn join_groups(front: &Vec<u16>, back: &Vec<u16>) -> (r: [u16; 8])
    requires
        front@.len() + back@.len() <= 8,
    ensures
        r@ == front@ + Seq::new((8 - front@.len() - back@.len()) as nat, |j: int| 0u16) + back@,
{
    let mut all: [u16; 8] = [0u16; 8];
    let a: usize = front.len();
    let b: usize = back.len();
    let mut i: usize = 0;
    while i < 8
        invariant
            i <= 8,
            a == front@.len(),
            b == back@.len(),
            a + b <= 8,
            forall|j: int|
                0 <= j < i ==> #[trigger] all@[j] == (if j < a {
                    front@[j]
                } else if j < 8 - b {
                    0u16
                } else {
                    back@[j - (8 - b)]
                }),
        decreases 8 - i,
    {
        all[i] = if i < a {
            front[i]
        } else if i < 8 - b {
            0
        } else {
            back[i - (8 - b)]
        };
        i = i + 1;
    }
    assert(all@ =~= front@ + Seq::new((8 - front@.len() - back@.len()) as nat, |j: int| 0u16)
        + back@);
    all
}

/// Reads an IPv6 address.
pub fn parse_ipv6(s: &[char]) -> (r: Option<[u16; 8]>)
    ensures
        match r {
            Some(all) => ipv6(s@) == Some(all@),
            None => ipv6(s@) is None,
        },
{
    let i: usize = find_double_colon(s);
    proof {
        lemma_double_colon(s@);
    }
    if i < s.len() {
        let front: Vec<u16> = match parse_side(head(s, i), false) {
            Some(v) => v,
            None => {
                return None;
            },
        };
        let back: Vec<u16> = match parse_side(tail(s, i + 2), true) {
            Some(v) => v,
            None => {
                return None;
            },
        };
        if front.len() > 7 || back.len() > 7 - front.len() {
            return None;
        }
        Some(join_groups(&front, &back))
    } else {
        match parse_groups(s, true) {
            Some(all) => {
                if all.len() != 8 {
                    return None;
                }
                let none: Vec<u16> = Vec::new();
                assert(all@ + Seq::new(0, |j: int| 0u16) + none@ =~= all@);
                Some(join_groups(&all, &none))
            },
            None => None,
        }
    }
}

/// Reads an IP address.
pub fn parse_ip(s: &[char]) -> (r: Option<IpAddr>)
    ensures
        match r {
            Some(a) => ip(s@) == Some(a@),
            None => ip(s@) is None,
        },
{
    match parse_ipv4(s) {
        Some(octets) => Some(IpAddr::V4(octets)),
        None => match parse_ipv6(s) {
            Some(all) => Some(IpAddr::V6(all)),
            None => None,
        },
    }
}

proof fn lemma_decimal_digits(s: Seq<char>)
    requires
        s.len() > 0,
        all_digits(s),
        s.len() == 1 || s[0] != '0',
    ensures
        decimal(digits_value(s)) == s,
        s[0] != '0' ==> digits_value(s) > 0,
    decreases s.len(),
{
    let init = s.drop_last();
    let last = s.last();
    assert(is_digit(s[s.len() - 1]));
    assert(('0' as u32 + (last as u32 - '0' as u32)) as char == last);
    if init.len() > 0 {
        assert(all_digits(init)) by {
            assert forall|i: int| 0 <= i < init.len() implies is_digit(#[trigger] init[i]) by {
                assert(init[i] == s[i]);
            }
        }
        assert(init[0] == s[0]);
        lemma_decimal_digits(init);
        assert(digits_value(s) >= 10);
        assert(digits_value(s) / 10 == digits_value(init));
        assert(digits_value(s) % 10 == last as u32 - '0' as u32);
        assert(init.push(last) =~= s);
    } else {
        assert(init =~= seq![]);
        assert(digits_value(init) == 0);
        assert(s =~= seq![last]);
    }
}

proof fn lemma_decimal_length(n: nat)
    ensures
        n < 10 ==> decimal(n).len() == 1,
        10 <= n < 100 ==> decimal(n).len() == 2,
        100 <= n < 1000 ==> decimal(n).len() == 3,
        n > 0 ==> decimal(n)[0] != '0',
    decreases n,
{
    if n >= 10 {
        lemma_decimal_length(n / 10);
        assert(decimal(n)[0] == decimal(n / 10)[0]);
    }
}

/// A number of an IPv4 address is one from 0 to 255 in decimal notation, without leading
/// zeros.
pub proof fn law_octets_are_decimal(s: Seq<char>, n: u8)
    ensures
        octet(s) == Some(n) <==> s == decimal(n as nat),
{
    law_decimal_is_read_back(n as nat, 255);
    lemma_decimal_length(n as nat);
    if octet(s) == Some(n) {
        lemma_decimal_digits(s);
    }
    let d = decimal(n as nat);
    assert(d[0] != '+') by {
        assert(is_digit(d[0]));
    }
}

/// An IPv4 address is four such numbers with dots between them, and nothing else is one.
pub proof fn law_ipv4_addresses(s: Seq<char>, o: Seq<u8>)
    ensures
        ipv4(s) == Some(o) <==> o.len() == 4 && s == decimal(o[0] as nat) + seq!['.'] + (decimal(
            o[1] as nat,
        ) + seq!['.'] + (decimal(o[2] as nat) + seq!['.'] + decimal(o[3] as nat))),
{
    let pieces = split(s, '.');
    law_split_and_join(s, '.');
    if ipv4(s) == Some(o) {
        assert forall|i: int| 0 <= i < 4 implies #[trigger] pieces[i] == decimal(o[i] as nat) by {
            assert(octet(pieces[i]) is Some);
            assert(o[i] == octet(pieces[i]).unwrap());
            law_octets_are_decimal(pieces[i], o[i]);
        }
        let a = pieces.drop_first();
        let b = a.drop_first();
        let c = b.drop_first();
        reveal_with_fuel(joined, 5);
        assert(c.len() == 1);
        assert(pieces[0] == decimal(o[0] as nat));
        assert(a[0] == pieces[1]);
        assert(b[0] == pieces[2]);
        assert(c[0] == pieces[3]);
    }
    if o.len() == 4 {
        let d0 = decimal(o[0] as nat);
        let d1 = decimal(o[1] as nat);
        let d2 = decimal(o[2] as nat);
        let d3 = decimal(o[3] as nat);
        lemma_no_dot(o[0] as nat);
        lemma_no_dot(o[1] as nat);
        lemma_no_dot(o[2] as nat);
        lemma_no_dot(o[3] as nat);
        let t2 = d2 + seq!['.'] + d3;
        let t1 = d1 + seq!['.'] + t2;
        let t0 = d0 + seq!['.'] + t1;
        law_split_pieces(d3, seq![], '.');
        law_split_pieces(d2, d3, '.');
        law_split_pieces(d1, t2, '.');
        law_split_pieces(d0, t1, '.');
        law_octets_are_decimal(d0, o[0]);
        law_octets_are_decimal(d1, o[1]);
        law_octets_are_decimal(d2, o[2]);
        law_octets_are_decimal(d3, o[3]);
        let expected = seq![d0] + (seq![d1] + (seq![d2] + seq![d3]));
        assert(split(t0, '.') =~= expected);
        assert(expected[0] == d0 && expected[1] == d1 && expected[2] == d2 && expected[3] == d3);
        if s == t0 {
            assert(forall|i: int| 0 <= i < 4 ==> octet(#[trigger] pieces[i]) is Some);
            assert(ipv4(s)->0 =~= o);
        }
    }
}

proof fn lemma_no_dot(n: nat)
    ensures
        !decimal(n).contains('.'),
{
    law_decimal_is_read_back(n, n);
    let d = decimal(n);
    if d.contains('.') {
        let i = d.index_of('.');
        assert(is_digit(d[i]));
    }
}

/// The value of a hexadecimal digit, in small or in capital letters.
pub proof fn law_hex_digits(c: char)
    ensures
        48 <= c as u32 <= 57 ==> hex_digit(c) == Some((c as u32 - 48) as u16),
        97 <= c as u32 <= 102 ==> hex_digit(c) == Some((c as u32 - 87) as u16),
        65 <= c as u32 <= 70 ==> hex_digit(c) == Some((c as u32 - 55) as u16),
        hex_digit(c) is Some ==> {
            ||| 48 <= c as u32 <= 57
            ||| 97 <= c as u32 <= 102
            ||| 65 <= c as u32 <= 70
        },
{
}

/// A group of an IPv6 address has one to four hexadecimal digits, each of which is worth
/// sixteen times the one behind it.
pub proof fn law_groups_are_hexadecimal(s: Seq<char>, c: char)
    ensures
        group(seq![c]) == hex_digit(c),
        s.len() > 0 ==> (group(s.push(c)) matches Some(g) ==> {
            &&& s.len() < 4
            &&& group(s) matches Some(f) && hex_digit(c) matches Some(d) && g == 16 * f + d
        }),
        0 < s.len() < 4 && group(s) is Some && hex_digit(c) is Some ==> group(s.push(c)) is Some,
        group(seq![]) is None,
{
    assert(s.push(c).drop_last() =~= s);
    assert(seq![c].drop_last() =~= seq![]);
    assert(hex_value(seq![]) == Some(0nat));
    lemma_hex_bound(s);
    lemma_hex_bound(s.push(c));
}

proof fn lemma_hex_bound(s: Seq<char>)
    ensures
        hex_value(s) matches Some(v) ==> {
            &&& s.len() == 0 ==> v == 0
            &&& s.len() == 1 ==> v < 16
            &&& s.len() == 2 ==> v < 256
            &&& s.len() == 3 ==> v < 4096
            &&& s.len() == 4 ==> v < 65536
        },
    decreases s.len(),
{
    if s.len() > 0 {
        lemma_hex_bound(s.drop_last());
    }
}

/// The groups that the pieces stand for, if each is one.
pub open spec fn are_groups(pieces: Seq<Seq<char>>, all: Seq<u16>) -> bool {
    &&& pieces.len() == all.len()
    &&& forall|i: int| 0 <= i < all.len() ==> group(#[trigger] pieces[i]) == Some(all[i])
}

proof fn lemma_groups(pieces: Seq<Seq<char>>, all: Seq<u16>, dotted: bool)
    requires
        are_groups(pieces, all),
    ensures
        groups(pieces, dotted) == Some(all),
    decreases pieces.len(),
{
    if pieces.len() == 0 {
        assert(all =~= seq![]);
    } else if pieces.len() == 1 {
        assert(group(pieces[0]) == Some(all[0]));
        assert(all =~= seq![all[0]]);
    } else {
        let rest = pieces.drop_first();
        assert(group(pieces[0]) == Some(all[0]));
        assert forall|i: int| 0 <= i < rest.len() implies group(#[trigger] rest[i]) == Some(
            all.drop_first()[i],
        ) by {
            assert(rest[i] == pieces[i + 1]);
        }
        lemma_groups(rest, all.drop_first(), dotted);
        assert(all =~= seq![all[0]] + all.drop_first());
    }
}

proof fn lemma_group_has_no_colon(s: Seq<char>)
    ensures
        hex_value(s) is Some ==> !s.contains(':'),
    decreases s.len(),
{
    if s.len() > 0 && hex_value(s) is Some {
        lemma_group_has_no_colon(s.drop_last());
        if s.contains(':') {
            let i = s.index_of(':');
            if i < s.len() - 1 {
                assert(s.drop_last()[i] == ':');
            }
        }
    }
}

/// Pieces of which none is empty or has a colon in it.
spec fn without_colons(pieces: Seq<Seq<char>>) -> bool {
    forall|i: int| 0 <= i < pieces.len() ==> (#[trigger] pieces[i]).len() > 0 && !pieces[i].contains(':')
}

proof fn lemma_groups_have_no_colons(pieces: Seq<Seq<char>>, all: Seq<u16>)
    requires
        are_groups(pieces, all),
    ensures
        without_colons(pieces),
{
    assert forall|i: int| 0 <= i < pieces.len() implies (#[trigger] pieces[i]).len() > 0
        && !pieces[i].contains(':') by {
        assert(group(pieces[i]) == Some(all[i]));
        lemma_group_has_no_colon(pieces[i]);
    }
}

proof fn lemma_joined(pieces: Seq<Seq<char>>)
    requires
        without_colons(pieces),
        pieces.len() > 0,
    ensures
        split(joined(pieces, ':'), ':') == pieces,
        joined(pieces, ':').len() > 0,
        joined(pieces, ':')[0] != ':',
        joined(pieces, ':').last() != ':',
        double_colon(joined(pieces, ':')) == joined(pieces, ':').len(),
    decreases pieces.len(),
{
    let first = pieces[0];
    assert(first.len() > 0 && !first.contains(':'));
    assert(first.contains(first[0]));
    assert(first.contains(first.last()));
    if pieces.len() == 1 {
        law_split_pieces(first, seq![], ':');
        assert(pieces =~= seq![first]);
        lemma_no_double_colon(first, seq![]);
        assert(first + seq![] =~= first);
    } else {
        let rest = pieces.drop_first();
        assert forall|i: int| 0 <= i < rest.len() implies (#[trigger] rest[i]).len() > 0
            && !rest[i].contains(':') by {
            assert(rest[i] == pieces[i + 1]);
        }
        lemma_joined(rest);
        let tail = joined(rest, ':');
        law_split_pieces(first, tail, ':');
        assert(pieces =~= seq![first] + rest);
        let whole = first + seq![':'] + tail;
        assert(whole.last() == tail.last());
        lemma_no_double_colon(first, seq![':'] + tail);
        assert(first + (seq![':'] + tail) =~= whole);
        assert((seq![':'] + tail)[1] == tail[0]);
        assert((seq![':'] + tail).drop_first() =~= tail);
    }
}

/// No two colons are in what has none.
proof fn lemma_no_double_colon(piece: Seq<char>, rest: Seq<char>)
    requires
        !piece.contains(':'),
    ensures
        double_colon(piece + rest) == piece.len() + double_colon(rest),
    decreases piece.len(),
{
    let whole = piece + rest;
    if piece.len() > 0 {
        assert(piece.contains(piece[0]));
        let less = piece.drop_first();
        assert(!less.contains(':')) by {
            if less.contains(':') {
                let i = less.index_of(':');
                assert(piece[i + 1] == ':');
            }
        }
        lemma_no_double_colon(less, rest);
        assert(whole.drop_first() =~= less + rest);
        assert(whole[0] == piece[0]);
        if whole.len() < 2 {
            assert(less.len() == 0 && rest.len() == 0);
            assert(less + rest =~= seq![]);
        }
    } else {
        assert(whole =~= rest);
    }
}

/// An IPv6 address is eight groups with colons between them; or fewer, where two colons
/// in a row stand for as many zero groups as are missing, one at least.
pub proof fn law_ipv6_addresses(
    front: Seq<Seq<char>>,
    first: Seq<u16>,
    back: Seq<Seq<char>>,
    last: Seq<u16>,
)
    requires
        are_groups(front, first),
        are_groups(back, last),
    ensures
        front.len() == 8 ==> ipv6(joined(front, ':')) == Some(first),
        0 < front.len() && front.len() != 8 ==> ipv6(joined(front, ':')) is None,
        front.len() + back.len() <= 7 ==> ipv6(joined(front, ':') + seq![':', ':'] + joined(back, ':'))
            == Some(
            first + Seq::new((8 - first.len() - last.len()) as nat, |j: int| 0u16) + last,
        ),
        front.len() + back.len() > 7 ==> ipv6(
            joined(front, ':') + seq![':', ':'] + joined(back, ':'),
        ) is None,
{
    let a = joined(front, ':');
    let b = joined(back, ':');
    lemma_groups_have_no_colons(front, first);
    lemma_groups_have_no_colons(back, last);
    if front.len() > 0 {
        lemma_joined(front);
        lemma_groups(front, first, true);
        lemma_groups(front, first, false);
    } else {
        assert(first =~= seq![]);
        assert(a =~= seq![]);
    }
    if back.len() > 0 {
        lemma_joined(back);
        lemma_groups(back, last, true);
    } else {
        assert(last =~= seq![]);
        assert(b =~= seq![]);
    }
    let whole = a + seq![':', ':'] + b;
    lemma_find_double_colon(a, b);
    assert(whole.take(a.len() as int) =~= a);
    assert(whole.skip(a.len() as int + 2) =~= b);
}

proof fn lemma_find_double_colon(a: Seq<char>, b: Seq<char>)
    requires
        double_colon(a) == a.len(),
        a.len() > 0 ==> a.last() != ':',
    ensures
        double_colon(a + seq![':', ':'] + b) == a.len(),
    decreases a.len(),
{
    let whole = a + seq![':', ':'] + b;
    if a.len() > 0 {
        let less = a.drop_first();
        assert(whole.drop_first() =~= less + seq![':', ':'] + b);
        assert(whole[0] == a[0]);
        if a.len() >= 2 {
            assert(whole[1] == a[1]);
        } else {
            assert(a[0] == a.last());
        }
        lemma_find_double_colon(less, b);
    } else {
        assert(whole[0] == ':' && whole[1] == ':');
    }
}

proof fn lemma_groups_before_ipv4(
    pieces: Seq<Seq<char>>,
    all: Seq<u16>,
    dotted: Seq<char>,
    o: Seq<u8>,
)
    requires
        are_groups(pieces, all),
        ipv4(dotted) == Some(o),
    ensures
        groups(pieces.push(dotted), true) == Some(
            all + seq![(o[0] * 256 + o[1]) as u16, (o[2] * 256 + o[3]) as u16],
        ),
        without_colons(pieces.push(dotted)),
    decreases pieces.len(),
{
    let whole = pieces.push(dotted);
    let tail = seq![(o[0] * 256 + o[1]) as u16, (o[2] * 256 + o[3]) as u16];
    law_ipv4_addresses(dotted, o);
    assert(dotted.len() > 0);
    assert(!dotted.contains(':')) by {
        if dotted.contains(':') {
            let i = dotted.index_of(':');
            lemma_ipv4_chars(dotted, o, i);
        }
    }
    lemma_groups_have_no_colons(pieces, all);
    assert forall|i: int| 0 <= i < whole.len() implies (#[trigger] whole[i]).len() > 0
        && !whole[i].contains(':') by {
        if i < pieces.len() {
            assert(whole[i] == pieces[i]);
        }
    }
    if pieces.len() == 0 {
        let n = decimal(o[0] as nat).len() as int;
        law_decimal_is_read_back(o[0] as nat, 255);
        assert(dotted[n] == '.');
        lemma_hex_none(dotted, n);
        assert(whole[0] == dotted);
        assert(all + tail =~= tail);
    } else {
        let rest = pieces.drop_first();
        assert forall|i: int| 0 <= i < rest.len() implies group(#[trigger] rest[i]) == Some(
            all.drop_first()[i],
        ) by {
            assert(rest[i] == pieces[i + 1]);
        }
        assert(group(pieces[0]) == Some(all[0]));
        lemma_groups_before_ipv4(rest, all.drop_first(), dotted, o);
        assert(whole[0] == pieces[0]);
        assert(whole.drop_first() =~= rest.push(dotted));
        assert(seq![all[0]] + (all.drop_first() + tail) =~= all + tail);
    }
}

/// The last two groups of an IPv6 address may be written as an IPv4 address.
pub proof fn law_ipv6_addresses_may_end_in_ipv4(
    front: Seq<Seq<char>>,
    first: Seq<u16>,
    back: Seq<Seq<char>>,
    last: Seq<u16>,
    dotted: Seq<char>,
    o: Seq<u8>,
)
    requires
        are_groups(front, first),
        are_groups(back, last),
        ipv4(dotted) == Some(o),
    ensures
        ({
            let tail = seq![(256 * o[0] + o[1]) as u16, (256 * o[2] + o[3]) as u16];
            &&& front.len() == 6 ==> ipv6(joined(front.push(dotted), ':')) == Some(first + tail)
            &&& front.len() + back.len() <= 5 ==> ipv6(
                joined(front, ':') + seq![':', ':'] + joined(back.push(dotted), ':'),
            ) == Some(
                first + Seq::new((6 - first.len() - last.len()) as nat, |j: int| 0u16) + (last
                    + tail),
            )
        }),
{
    let tail = seq![(o[0] * 256 + o[1]) as u16, (o[2] * 256 + o[3]) as u16];
    lemma_groups_before_ipv4(front, first, dotted, o);
    lemma_groups_before_ipv4(back, last, dotted, o);
    lemma_joined(front.push(dotted));
    lemma_joined(back.push(dotted));
    let a = joined(front, ':');
    let b = joined(back.push(dotted), ':');
    if front.len() > 0 {
        lemma_groups_have_no_colons(front, first);
        lemma_joined(front);
        lemma_groups(front, first, false);
    } else {
        assert(first =~= seq![]);
        assert(a =~= seq![]);
    }
    let whole = a + seq![':', ':'] + b;
    lemma_find_double_colon(a, b);
    assert(whole.take(a.len() as int) =~= a);
    assert(whole.skip(a.len() as int + 2) =~= b);
}

/// An IPv4 address consists of digits and dots.
proof fn lemma_ipv4_chars(s: Seq<char>, o: Seq<u8>, i: int)
    requires
        ipv4(s) == Some(o),
        0 <= i < s.len(),
    ensures
        is_digit(s[i]) || s[i] == '.',
{
    law_ipv4_addresses(s, o);
    law_decimal_is_read_back(o[0] as nat, 255);
    law_decimal_is_read_back(o[1] as nat, 255);
    law_decimal_is_read_back(o[2] as nat, 255);
    law_decimal_is_read_back(o[3] as nat, 255);
    let d0 = decimal(o[0] as nat);
    let d1 = decimal(o[1] as nat);
    let d2 = decimal(o[2] as nat);
    let d3 = decimal(o[3] as nat);
    let n0 = d0.len() as int;
    let n1 = n0 + 1 + d1.len() as int;
    let n2 = n1 + 1 + d2.len() as int;
    if i < n0 {
        assert(is_digit(d0[i]));
    } else if n0 < i < n1 {
        assert(is_digit(d1[i - n0 - 1]));
    } else if n1 < i < n2 {
        assert(is_digit(d2[i - n1 - 1]));
    } else if n2 < i {
        assert(is_digit(d3[i - n2 - 1]));
    }
}

/// A text without a colon is an address only if it consists of digits and dots. So no
/// name with a letter, a hyphen or an underscore in it is taken for an address.
pub proof fn law_names_are_no_addresses(s: Seq<char>, i: int)
    requires
        !s.contains(':'),
        0 <= i < s.len(),
        !is_digit(s[i]),
        s[i] != '.',
    ensures
        ip(s) is None,
{
    law_split_pieces(s, seq![], ':');
    lemma_no_double_colon(s, seq![]);
    assert(s + seq![] =~= s);
    assert(split(s, ':').len() == 1);
    if ipv4(s) is Some {
        lemma_ipv4_chars(s, ipv4(s)->0, i);
    }
}

/// An address is an IPv4 address or an IPv6 address, and nothing else is one.
pub proof fn law_addresses_are_of_either_kind(s: Seq<char>)
    ensures
        ipv4(s) matches Some(o) ==> ip(s) == Some(IpView::V4(o)),
        ipv4(s) is None ==> (ipv6(s) matches Some(g) ==> ip(s) == Some(IpView::V6(g))),
        ipv4(s) is None && ipv6(s) is None ==> ip(s) is None,
{
}

} // verus!

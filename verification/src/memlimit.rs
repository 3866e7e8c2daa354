//! The cache's byte budget, by what is configured and what the machine has.

use vstd::arithmetic::div_mod::{
    lemma_div_denominator, lemma_div_is_ordered, lemma_fundamental_div_mod,
};
use vstd::prelude::*;

use crate::text::{
    decimal, equals, is_digit, is_whitespace, law_decimal_is_read_back, parse_unsigned, to_chars,
    trim, trimmed, unsigned,
};
use crate::text_laws::law_trimmed_texts;

verus! {

/// Used when nothing else (environment, configuration, or a detected memory limit)
/// applies: 64 MiB.
pub const DEFAULT_CACHE_MAX_BYTES: u64 = 67_108_864;

/// cgroup v1's "unlimited" value is a huge number, not a real limit. No real limit
/// is near 4 EiB.
pub const V1_UNLIMITED_THRESHOLD: u64 = 4_611_686_018_427_387_904;

/// 2^53: up to here a double-precision number can count.
pub const PRECISION: u128 = 9_007_199_254_740_992;

/// 7/10 in units of 2^-53, rounded to the nearest.
pub const SEVEN_TENTHS: u128 = 6_305_039_478_318_694;

/// The distance between neighbouring double-precision numbers of the size of `n`.
pub open spec fn spacing(n: nat) -> nat
    decreases n,
{
    if n < PRECISION {
        1
    } else {
        2 * spacing(n / 2)
    }
}

/// `n` in double precision: the nearest multiple of the spacing, of two equally
/// near ones the even one.
pub open spec fn nearest(n: nat) -> nat {
    let unit = spacing(n);
    let (quotient, rest) = (n / unit, n % unit);
    if 2 * rest > unit || (2 * rest == unit && quotient % 2 == 1) {
        (quotient + 1) * unit
    } else {
        quotient * unit
    }
}

/// Seven tenths of a memory limit, as double-precision arithmetic has it: the rest
/// is left for everything else the process needs.
pub open spec fn cache_share(limit: u64) -> nat {
    nearest(nearest(limit as nat) * SEVEN_TENTHS as nat) / PRECISION as nat
}

proof fn lemma_spacing_step(n: nat, unit: nat)
    requires
        unit > 0,
        n / unit >= PRECISION,
        unit * spacing(n / unit) == spacing(n),
    ensures
        2 * unit * spacing(n / (2 * unit)) == spacing(n),
{
    lemma_div_denominator(n as int, unit as int, 2);
    assert(unit * 2 == 2 * unit);
    let s = spacing((n / unit) / 2);
    assert(unit * (2 * s) == 2 * unit * s) by (nonlinear_arith);
}

/// `n` in double precision. The spacing is found from below.
fn round_to_double(n: u128) -> (r: u128)
    requires
        n <= 0x20_0000_0000_0000_0000_0000_0000_0000,
    ensures
        r == nearest(n as nat),
        r <= n + n / 4_503_599_627_370_496,
{
    let mut unit: u128 = 1;
    assert(n as nat / 1 == n as nat);
    while n / unit >= PRECISION
        invariant
            unit >= 1,
            n <= 0x20_0000_0000_0000_0000_0000_0000_0000,
            unit == 1 || n / unit >= 4_503_599_627_370_496,
            unit == 1 || unit <= n,
            unit * spacing((n / unit) as nat) == spacing(n as nat),
        decreases n / unit,
    {
        proof {
            lemma_spacing_step(n as nat, unit as nat);
            lemma_div_denominator(n as int, unit as int, 2);
            lemma_fundamental_div_mod(n as int, unit as int);
            assert(unit * 2 <= n) by (nonlinear_arith)
                requires
                    n as int == unit as int * (n as int / unit as int) + (n as int % unit as int),
                    n as int / unit as int >= 2,
                    n as int % unit as int >= 0,
                    unit >= 1,
            ;
            assert(n as int / (unit as int * 2) == (n as int / unit as int) / 2);
        }
        unit = unit * 2;
    }
    let quotient: u128 = n / unit;
    let rest: u128 = n % unit;
    proof {
        lemma_fundamental_div_mod(n as int, unit as int);
        assert(unit * quotient <= n) by (nonlinear_arith)
            requires
                n as int == unit as int * quotient as int + rest as int,
                rest >= 0,
        ;
        assert(quotient * unit == unit * quotient) by (nonlinear_arith);
        assert((quotient + 1) * unit == quotient * unit + unit) by (nonlinear_arith);
        if unit > 1 {
            assert(unit <= n / 4_503_599_627_370_496) by (nonlinear_arith)
                requires
                    unit * quotient <= n,
                    quotient >= 4_503_599_627_370_496,
            ;
        }
        assert(spacing(quotient as nat) == 1);
        assert(spacing(n as nat) == unit);
    }
    if 2 * rest > unit || (2 * rest == unit && quotient % 2 == 1) {
        assert(unit > 1);
        (quotient + 1) * unit
    } else {
        quotient * unit
    }
}

/// The cache's share of a memory limit.
pub fn share_of_limit(limit: u64) -> (r: u64)
    ensures
        r == cache_share(limit),
{
    let rounded: u128 = round_to_double(limit as u128);
    proof {
        assert(rounded * SEVEN_TENTHS <= 0x1_0000_0000_0000_1000 * SEVEN_TENTHS)
            by (nonlinear_arith)
            requires
                rounded <= 0x1_0000_0000_0000_1000,
        ;
    }
    let product: u128 = round_to_double(rounded * SEVEN_TENTHS);
    (product / PRECISION) as u64
}

/// The byte budget: the environment's override, else the configured value, else a
/// share of the memory limit, else the default.
pub open spec fn decided(env: Option<u64>, explicit: Option<u64>, limit: Option<u64>) -> nat {
    match (env, explicit, limit) {
        (Some(bytes), _, _) => bytes as nat,
        (None, Some(bytes), _) => bytes as nat,
        (None, None, Some(limit)) => cache_share(limit),
        (None, None, None) => DEFAULT_CACHE_MAX_BYTES as nat,
    }
}

pub fn decide(env: Option<u64>, explicit: Option<u64>, cgroup_limit: Option<u64>) -> (r: u64)
    ensures
        r == decided(env, explicit, cgroup_limit),
{
    match env {
        Some(bytes) => bytes,
        None => match explicit {
            Some(bytes) => bytes,
            None => match cgroup_limit {
                Some(limit) => share_of_limit(limit),
                None => DEFAULT_CACHE_MAX_BYTES,
            },
        },
    }
}

/// A byte count with white space around it.
pub open spec fn byte_count(content: Seq<char>) -> Option<nat> {
    unsigned(trim(content), u64::MAX as nat)
}

pub fn parse_byte_count(content: &str) -> (r: Option<u64>)
    ensures
        match r {
            Some(n) => byte_count(content@) == Some(n as nat),
            None => byte_count(content@) is None,
        },
{
    let chars: Vec<char> = to_chars(content);
    parse_unsigned(trimmed(chars.as_slice()), u64::MAX)
}

/// A cgroup v2 limit: `max`, which is none, or a number.
pub open spec fn v2_limit(content: Seq<char>) -> Option<nat> {
    if trim(content) == "max"@ {
        None
    } else {
        byte_count(content)
    }
}

pub fn parse_cgroup_v2(content: &str) -> (r: Option<u64>)
    ensures
        match r {
            Some(n) => v2_limit(content@) == Some(n as nat),
            None => v2_limit(content@) is None,
        },
{
    let chars: Vec<char> = to_chars(content);
    if equals(trimmed(chars.as_slice()), "max") {
        return None;
    }
    parse_byte_count(content)
}

/// A cgroup v1 limit: a number, which is none if it is huge.
pub open spec fn v1_limit(content: Seq<char>) -> Option<nat> {
    match byte_count(content) {
        Some(n) => if n >= V1_UNLIMITED_THRESHOLD {
            None
        } else {
            Some(n)
        },
        None => None,
    }
}

pub fn parse_cgroup_v1(content: &str) -> (r: Option<u64>)
    ensures
        match r {
            Some(n) => v1_limit(content@) == Some(n as nat),
            None => v1_limit(content@) is None,
        },
{
    match parse_byte_count(content) {
        Some(n) => if n >= V1_UNLIMITED_THRESHOLD {
            None
        } else {
            Some(n)
        },
        None => None,
    }
}

pub open spec fn text_of(content: Option<&str>) -> Option<Seq<char>> {
    match content {
        Some(s) => Some(s@),
        None => None,
    }
}

/// The limit that a cgroup's files give: the v2 file if there is one, else the v1
/// file.
pub open spec fn detected_limit(v2: Option<Seq<char>>, v1: Option<Seq<char>>) -> Option<nat> {
    match (v2, v1) {
        (Some(content), _) => v2_limit(content),
        (None, Some(content)) => v1_limit(content),
        (None, None) => None,
    }
}

pub fn detect_cgroup_memory_limit(v2: Option<&str>, v1: Option<&str>) -> (r: Option<u64>)
    ensures
        match r {
            Some(n) => detected_limit(text_of(v2), text_of(v1)) == Some(n as nat),
            None => detected_limit(text_of(v2), text_of(v1)) is None,
        },
{
    match v2 {
        Some(content) => parse_cgroup_v2(content),
        None => match v1 {
            Some(content) => parse_cgroup_v1(content),
            None => None,
        },
    }
}

pub open spec fn as_u64(n: Option<nat>) -> Option<u64> {
    match n {
        Some(n) => Some(n as u64),
        None => None,
    }
}

/// The byte budget for the cache: the environment's override, which is ignored if
/// it is not a byte count, else the configured value, else a share of the memory
/// limit in the cgroup's files, else the default.
pub open spec fn resolved_cache_bytes(
    env: Option<Seq<char>>,
    explicit: Option<u64>,
    v2: Option<Seq<char>>,
    v1: Option<Seq<char>>,
) -> nat {
    let over = match env {
        Some(raw) => byte_count(raw),
        None => None,
    };
    decided(as_u64(over), explicit, as_u64(detected_limit(v2, v1)))
}

/// Resolves the cache's byte budget out of the raw texts of the override variable
/// and of the two cgroup files, as far as there are any.
pub fn resolve_cache_max_bytes(
    env: Option<&str>,
    explicit: Option<u64>,
    v2: Option<&str>,
    v1: Option<&str>,
) -> (r: u64)
    ensures
        r == resolved_cache_bytes(text_of(env), explicit, text_of(v2), text_of(v1)),
{
    let over: Option<u64> = match env {
        Some(raw) => parse_byte_count(raw),
        None => None,
    };
    decide(over, explicit, detect_cgroup_memory_limit(v2, v1))
}

proof fn lemma_spacing(n: nat)
    ensures
        spacing(n) >= 1,
        spacing(n) == 1 || spacing(n) * 4_503_599_627_370_496 <= n,
    decreases n,
{
    if n >= PRECISION {
        lemma_spacing(n / 2);
    }
}

proof fn lemma_nearest(n: nat)
    ensures
        2 * nearest(n) <= 2 * n + spacing(n),
        2 * nearest(n) + spacing(n) >= 2 * n,
        spacing(n) == 1 ==> nearest(n) == n,
{
    lemma_spacing(n);
    let unit = spacing(n);
    lemma_fundamental_div_mod(n as int, unit as int);
    let quotient = n / unit;
    assert((quotient + 1) * unit == quotient * unit + unit) by (nonlinear_arith);
    assert(quotient * unit == unit * quotient) by (nonlinear_arith);
    if unit == 1 {
        assert(n % 1 == 0);
    }
}

/// The share is seven tenths of the limit, rounded down, or one less than that: for
/// all limits up to 2 PiB.
pub proof fn law_share_is_seven_tenths(limit: u64)
    requires
        limit <= 2_251_799_813_685_248,
    ensures
        7 * limit / 10 - 1 <= cache_share(limit) <= 7 * limit / 10,
{
    let n = limit as nat;
    assert(spacing(n) == 1);
    lemma_nearest(n);
    let product = n * SEVEN_TENTHS as nat;
    lemma_spacing(product);
    lemma_nearest(product);
    assert(nearest(n) * SEVEN_TENTHS as nat == product);
}

/// A number is less than 2^53 times the spacing at it.
proof fn lemma_spacing_bound(n: nat)
    ensures
        n < PRECISION * spacing(n),
    decreases n,
{
    if n >= PRECISION {
        lemma_spacing_bound(n / 2);
    }
}

/// The spacing grows with the number, and if it does, it at least doubles.
proof fn lemma_spacing_grows(a: nat, b: nat)
    requires
        a <= b,
    ensures
        spacing(a) == spacing(b) || 2 * spacing(a) <= spacing(b),
    decreases b,
{
    if b >= PRECISION {
        lemma_spacing(b / 2);
        if a >= PRECISION {
            lemma_spacing_grows(a / 2, b / 2);
        }
    }
}

proof fn lemma_nearest_grows(a: nat, b: nat)
    requires
        a <= b,
    ensures
        nearest(a) <= nearest(b),
{
    lemma_spacing(a);
    lemma_spacing(b);
    lemma_spacing_grows(a, b);
    let (u, v) = (spacing(a), spacing(b));
    let (q, p) = (a / u, b / v);
    lemma_fundamental_div_mod(a as int, u as int);
    lemma_fundamental_div_mod(b as int, v as int);
    assert((q + 1) * u == q * u + u) by (nonlinear_arith);
    assert((p + 1) * v == p * v + v) by (nonlinear_arith);
    assert(q * u == u * q) by (nonlinear_arith);
    assert(p * v == v * p) by (nonlinear_arith);
    if u == v {
        lemma_div_is_ordered(a as int, b as int, u as int);
        if q < p {
            assert((q + 1) * u <= p * u) by (nonlinear_arith)
                requires
                    q + 1 <= p,
                    u >= 1,
            ;
        }
    } else {
        // Between the two there is a power of two, which neither passes.
        lemma_spacing_bound(a);
        assert(q < PRECISION) by (nonlinear_arith)
            requires
                u * q <= a,
                a < PRECISION * u,
                u >= 1,
        ;
        assert((q + 1) * u <= PRECISION * u) by (nonlinear_arith)
            requires
                q + 1 <= PRECISION,
                u >= 1,
        ;
        assert(p >= 4_503_599_627_370_496) by (nonlinear_arith)
            requires
                v * 4_503_599_627_370_496 <= b,
                b < (p + 1) * v,
                v >= 1,
        ;
        assert(p * v >= 4_503_599_627_370_496 * v) by (nonlinear_arith)
            requires
                p >= 4_503_599_627_370_496,
                v >= 1,
        ;
    }
}

/// The share grows with the limit.
pub proof fn law_share_grows_with_the_limit(limit: u64, larger: u64)
    requires
        limit <= larger,
    ensures
        cache_share(limit) <= cache_share(larger),
{
    lemma_nearest_grows(limit as nat, larger as nat);
    let (a, b) = (nearest(limit as nat), nearest(larger as nat));
    assert(a * SEVEN_TENTHS as nat <= b * SEVEN_TENTHS as nat) by (nonlinear_arith)
        requires
            a <= b,
    ;
    lemma_nearest_grows(a * SEVEN_TENTHS as nat, b * SEVEN_TENTHS as nat);
    lemma_div_is_ordered(
        nearest(a * SEVEN_TENTHS as nat) as int,
        nearest(b * SEVEN_TENTHS as nat) as int,
        PRECISION as int,
    );
}

/// A number of bytes is read with or without white space around it, up to the largest one
/// of 64 bits.
pub proof fn law_byte_counts_are_read_back(front: Seq<char>, n: nat, back: Seq<char>)
    requires
        forall|i: int| 0 <= i < front.len() ==> is_whitespace(#[trigger] front[i]),
        forall|i: int| 0 <= i < back.len() ==> is_whitespace(#[trigger] back[i]),
        n <= u64::MAX,
    ensures
        byte_count(front + decimal(n) + back) == Some(n),
        v2_limit(front + decimal(n) + back) == Some(n),
        n < 0x4000_0000_0000_0000 ==> v1_limit(front + decimal(n) + back) == Some(n),
        n >= 0x4000_0000_0000_0000 ==> v1_limit(front + decimal(n) + back) is None,
        v2_limit(front + seq!['m', 'a', 'x'] + back) is None,
{
    let d = decimal(n);
    law_decimal_is_read_back(n, u64::MAX as nat);
    assert(is_digit(d[0]) && is_digit(d[d.len() - 1]));
    law_trimmed_texts(front, d, back);
    reveal_strlit("max");
    assert(d != "max"@) by {
        assert("max"@[0] == 'm');
    }
    law_trimmed_texts(front, seq!['m', 'a', 'x'], back);
    assert("max"@ =~= seq!['m', 'a', 'x']);
}

/// What is no number of bytes is no limit.
pub proof fn law_other_texts_are_no_limits(content: Seq<char>)
    ensures
        byte_count(content) == unsigned(trim(content), 0xffff_ffff_ffff_ffff),
        byte_count(content) is None ==> v2_limit(content) is None && v1_limit(content) is None,
        v2_limit(content) matches Some(n) ==> byte_count(content) == Some(n),
        v1_limit(content) matches Some(n) ==> byte_count(content) == Some(n),
{
}

/// The limit comes out of the file of the newer kind if there is one, and only without it
/// out of the file of the older kind.
pub proof fn law_the_newer_file_counts(v2: Option<Seq<char>>, v1: Option<Seq<char>>)
    ensures
        v2 matches Some(content) ==> detected_limit(v2, v1) == v2_limit(content),
        v2 is None ==> (v1 matches Some(content) ==> detected_limit(v2, v1) == v1_limit(content)),
        v2 is None && v1 is None ==> detected_limit(v2, v1) is None,
{
}

/// The environment's word comes first, then the configuration's, then a share of the
/// memory there is; 64 MiB without any of these.
pub proof fn law_who_sets_the_budget(env: u64, explicit: u64, limit: u64)
    ensures
        forall|e: Option<u64>, l: Option<u64>| #[trigger] decided(Some(env), e, l) == env,
        forall|l: Option<u64>| #[trigger] decided(None, Some(explicit), l) == explicit,
        decided(None, None, Some(limit)) == cache_share(limit),
        decided(None, None, None) == 64 * 1024 * 1024,
{
}

/// The same for what these were read from: a text in the environment that is no number
/// counts for nothing.
pub proof fn law_budgets_are_read_from_texts(
    env: Option<Seq<char>>,
    explicit: Option<u64>,
    v2: Option<Seq<char>>,
    v1: Option<Seq<char>>,
)
    ensures
        env matches Some(raw) ==> (byte_count(raw) matches Some(n) ==> resolved_cache_bytes(
            env,
            explicit,
            v2,
            v1,
        ) == n),
        env is None || byte_count(env->0) is None ==> {
            &&& explicit matches Some(n) ==> resolved_cache_bytes(env, explicit, v2, v1) == n
            &&& explicit is None ==> match detected_limit(v2, v1) {
                Some(n) => resolved_cache_bytes(env, explicit, v2, v1) == cache_share(n as u64),
                None => resolved_cache_bytes(env, explicit, v2, v1) == 67_108_864,
            }
        },
{
}

} // verus!

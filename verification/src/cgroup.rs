//! Where the memory limit of this process's cgroup is to be found, and what it is.
//!
//! The limit is looked up at the process's own path in `/proc/self/cgroup` rather
//! than at the mount root, since containers place the process in a nested cgroup.
//! Only the innermost cgroup counts: a limit set on one around it does not show.

use vstd::prelude::*;
use vstd::string::*;

use crate::memlimit::{text_of, V1_UNLIMITED_THRESHOLD};
use crate::text::{
    decimal, equals, find_first, find_last, first_index, has_prefix, head, is_digit, is_whitespace,
    last_index, law_decimal_is_read_back, lemma_last_index, lines, parse_unsigned, push_chars,
    skip_class, split, split_at_char, split_lines, starts_with, tail, texts, to_chars, trim,
    trim_start, trimmed, unsigned, CharClass,
};
use crate::text_laws::{law_trimmed_texts, law_trimming_the_start, lemma_first};

verus! {

/// The limit that a cgroup file gives: `max` and huge numbers are none.
pub open spec fn limit_in(raw: Seq<char>) -> Option<nat> {
    if trim(raw) == "max"@ {
        None
    } else {
        match unsigned(trim(raw), u64::MAX as nat) {
            Some(n) => if n < V1_UNLIMITED_THRESHOLD {
                Some(n)
            } else {
                None
            },
            None => None,
        }
    }
}

/// cgroup v1 spells "no limit" as a number just under 2^63.
pub fn parse_limit(raw: &str) -> (r: Option<u64>)
    ensures
        match r {
            Some(n) => limit_in(raw@) == Some(n as nat),
            None => limit_in(raw@) is None,
        },
{
    let chars: Vec<char> = to_chars(raw);
    let text: &[char] = trimmed(chars.as_slice());
    if equals(text, "max") {
        return None;
    }
    match parse_unsigned(text, u64::MAX) {
        Some(n) => if n < V1_UNLIMITED_THRESHOLD {
            Some(n)
        } else {
            None
        },
        None => None,
    }
}

/// The path of a file in a directory below a base directory. Slashes in front of
/// the directory do not count.
pub open spec fn joined_path(base: Seq<char>, dir: Seq<char>, file: Seq<char>) -> Seq<char> {
    let relative = trim_start(dir, CharClass::Slash);
    if relative.len() == 0 || relative.last() == '/' {
        base + "/"@ + relative + file
    } else {
        base + "/"@ + relative + "/"@ + file
    }
}

fn join_path(base: &str, dir: &[char], file: &str) -> (r: String)
    ensures
        r@ == joined_path(base@, dir@, file@),
{
    let relative: &[char] = skip_class(dir, CharClass::Slash);
    let mut r: String = base.to_owned();
    r.append("/");
    push_chars(&mut r, relative);
    let n: usize = relative.len();
    if n > 0 && relative[n - 1] != '/' {
        r.append("/");
    }
    r.append(file);
    r
}

/// The path of the first line that is about the unified hierarchy, or the root.
pub open spec fn unified_path(all: Seq<Seq<char>>) -> Seq<char>
    decreases all.len(),
{
    if all.len() == 0 {
        seq!['/']
    } else if starts_with(all[0], "0::"@) {
        all[0].skip(3)
    } else {
        unified_path(all.drop_first())
    }
}

/// The path in a line about a hierarchy that controls memory.
pub open spec fn memory_path_in(line: Seq<char>) -> Option<Seq<char>> {
    let i = first_index(line, ':');
    let id = line.take(i);
    let rest = line.skip(i + 1);
    let j = first_index(rest, ':');
    if i < line.len() && id != "0"@ && j < rest.len() && split(rest.take(j), ',').contains(
        "memory"@,
    ) {
        Some(rest.skip(last_index(rest, ':') + 1))
    } else {
        None
    }
}

/// The path of the first line about a hierarchy that controls memory, or the root.
pub open spec fn memory_path(all: Seq<Seq<char>>) -> Seq<char>
    decreases all.len(),
{
    if all.len() == 0 {
        seq!['/']
    } else {
        match memory_path_in(all[0]) {
            Some(path) => path,
            None => memory_path(all.drop_first()),
        }
    }
}

fn root_path() -> (r: Vec<char>)
    ensures
        r@ == seq!['/'],
{
    let mut r: Vec<char> = Vec::new();
    r.push('/');
    assert(r@ =~= seq!['/']);
    r
}

fn copy_chars(s: &[char]) -> (r: Vec<char>)
    ensures
        r@ == s@,
{
    let mut r: Vec<char> = Vec::new();
    let n: usize = s.len();
    let mut i: usize = 0;
    while i < n
        invariant
            i <= n,
            n == s@.len(),
            r@ == s@.take(i as int),
        decreases n - i,
    {
        r.push(s[i]);
        i = i + 1;
        assert(r@ =~= s@.take(i as int));
    }
    assert(s@.take(n as int) =~= s@);
    r
}

fn find_unified_path(all: &Vec<&[char]>) -> (r: Vec<char>)
    ensures
        r@ == unified_path(texts(all@)),
{
    let ghost ls = texts(all@);
    let n: usize = all.len();
    let mut i: usize = 0;
    assert(ls.skip(0) =~= ls);
    while i < n
        invariant
            i <= n,
            n == all@.len(),
            ls == texts(all@),
            unified_path(ls) == unified_path(ls.skip(i as int)),
        decreases n - i,
    {
        assert(ls.skip(i as int).drop_first() =~= ls.skip(i + 1));
        assert(ls.skip(i as int)[0] == all@[i as int]@);
        if has_prefix(all[i], "0::") {
            proof {
                reveal_strlit("0::");
            }
            return copy_chars(tail(all[i], 3));
        }
        i = i + 1;
    }
    root_path()
}

fn find_memory_path_in<'a>(line: &'a [char]) -> (r: Option<&'a [char]>)
    ensures
        match r {
            Some(path) => memory_path_in(line@) == Some(path@),
            None => memory_path_in(line@) is None,
        },
{
    let i: usize = find_first(line, ':');
    if i >= line.len() || equals(head(line, i), "0") {
        return None;
    }
    let rest: &'a [char] = tail(line, i + 1);
    let length: usize = rest.len();
    let j: usize = find_first(rest, ':');
    if j >= length {
        return None;
    }
    let names: Vec<&[char]> = split_at_char(head(rest, j), ',');
    let ghost ns = split(rest@.take(j as int), ',');
    assert(forall|k: int| 0 <= k < names@.len() ==> (#[trigger] names@[k])@ == ns[k]);
    let n: usize = names.len();
    let mut k: usize = 0;
    while k < n
        invariant
            k <= n,
            n == names@.len(),
            n == ns.len(),
            forall|m: int| 0 <= m < n ==> (#[trigger] names@[m])@ == ns[m],
            forall|m: int| 0 <= m < k ==> #[trigger] ns[m] != "memory"@,
            i < line@.len(),
            line@.take(i as int) != "0"@,
            i == first_index(line@, ':'),
            rest@ == line@.skip(i + 1),
            j == first_index(rest@, ':'),
            j < rest@.len(),
            length == rest@.len(),
            ns == split(rest@.take(j as int), ','),
        decreases n - k,
    {
        if equals(names[k], "memory") {
            assert(ns[k as int] == "memory"@);
            return match find_last(rest, ':') {
                Some(last) => Some(tail(rest, last + 1)),
                None => Some(rest),
            };
        }
        k = k + 1;
    }
    None
}

fn find_memory_path(all: &Vec<&[char]>) -> (r: Vec<char>)
    ensures
        r@ == memory_path(texts(all@)),
{
    let ghost ls = texts(all@);
    let n: usize = all.len();
    let mut i: usize = 0;
    assert(ls.skip(0) =~= ls);
    while i < n
        invariant
            i <= n,
            n == all@.len(),
            ls == texts(all@),
            memory_path(ls) == memory_path(ls.skip(i as int)),
        decreases n - i,
    {
        assert(ls.skip(i as int).drop_first() =~= ls.skip(i + 1));
        assert(ls.skip(i as int)[0] == all@[i as int]@);
        if let Some(path) = find_memory_path_in(all[i]) {
            return copy_chars(path);
        }
        i = i + 1;
    }
    root_path()
}

/// The files that may hold the limit.
pub struct LimitFiles {
    pub v2: String,
    pub v1: String,
}

/// The files that may hold the memory limit, by the contents of
/// `/proc/self/cgroup`. The second one counts only where the first is not there.
pub fn limit_files(cgroup: &str) -> (r: LimitFiles)
    ensures
        r.v2@ == joined_path("/sys/fs/cgroup"@, unified_path(lines(cgroup@)), "memory.max"@),
        r.v1@ == joined_path(
            "/sys/fs/cgroup/memory"@,
            memory_path(lines(cgroup@)),
            "memory.limit_in_bytes"@,
        ),
{
    let chars: Vec<char> = to_chars(cgroup);
    let all: Vec<&[char]> = split_lines(chars.as_slice());
    let unified: Vec<char> = find_unified_path(&all);
    let memory: Vec<char> = find_memory_path(&all);
    LimitFiles {
        v2: join_path("/sys/fs/cgroup", unified.as_slice(), "memory.max"),
        v1: join_path("/sys/fs/cgroup/memory", memory.as_slice(), "memory.limit_in_bytes"),
    }
}

/// What the files say: the first one if it is there, whether or not it can be
/// read, else the second.
pub open spec fn limit_of_files(
    v2_is_file: bool,
    v2: Option<Seq<char>>,
    v1: Option<Seq<char>>,
) -> Option<nat> {
    match if v2_is_file {
        v2
    } else {
        v1
    } {
        Some(raw) => limit_in(raw),
        None => None,
    }
}

/// The memory limit for this process, by the contents of the files that
/// `limit_files` names, as far as they can be read.
pub fn memory_limit_bytes(v2_is_file: bool, v2: Option<&str>, v1: Option<&str>) -> (r: Option<u64>)
    ensures
        match r {
            Some(n) => limit_of_files(v2_is_file, text_of(v2), text_of(v1)) == Some(n as nat),
            None => limit_of_files(v2_is_file, text_of(v2), text_of(v1)) is None,
        },
{
    let content: Option<&str> = if v2_is_file {
        v2
    } else {
        v1
    };
    match content {
        Some(raw) => parse_limit(raw),
        None => None,
    }
}

/// A limit is read with or without white space around it. `max` is none, and so is one of
/// 2^62 bytes or more.
pub proof fn law_limits_are_read_back(front: Seq<char>, n: nat, back: Seq<char>)
    requires
        forall|i: int| 0 <= i < front.len() ==> is_whitespace(#[trigger] front[i]),
        forall|i: int| 0 <= i < back.len() ==> is_whitespace(#[trigger] back[i]),
        n <= u64::MAX,
    ensures
        n < 0x4000_0000_0000_0000 ==> limit_in(front + decimal(n) + back) == Some(n),
        n >= 0x4000_0000_0000_0000 ==> limit_in(front + decimal(n) + back) is None,
        limit_in(front + seq!['m', 'a', 'x'] + back) is None,
{
    let d = decimal(n);
    law_decimal_is_read_back(n, u64::MAX as nat);
    assert(is_digit(d[0]) && is_digit(d[d.len() - 1]));
    law_trimmed_texts(front, d, back);
    reveal_strlit("max");
    assert(d != "max"@) by {
        assert("max"@[0] == 'm');
    }
    law_trimmed_texts(front, seq!['m', 'a', 'x'], back);
    assert("max"@ =~= seq!['m', 'a', 'x']);
}

/// Any limit that is read is a number of bytes that stands there.
pub proof fn law_limits_are_numbers(raw: Seq<char>)
    ensures
        limit_in(raw) matches Some(n) ==> unsigned(trim(raw), 0xffff_ffff_ffff_ffff) == Some(n) && n
            < 0x4000_0000_0000_0000,
{
}

/// A file in a directory below another one: between any two of the three there is one
/// slash, and the directory may begin or end with a slash, or be nothing but one.
pub proof fn law_paths_are_joined_by_slashes(
    base: Seq<char>,
    slashes: Seq<char>,
    dir: Seq<char>,
    file: Seq<char>,
)
    requires
        forall|i: int| 0 <= i < slashes.len() ==> #[trigger] slashes[i] == '/',
        dir.len() > 0 ==> dir[0] != '/' && dir.last() != '/',
    ensures
        dir.len() == 0 ==> joined_path(base, slashes, file) == base + seq!['/'] + file,
        dir.len() > 0 ==> {
            &&& joined_path(base, slashes + dir, file) == base + seq!['/'] + dir + seq!['/'] + file
            &&& joined_path(base, slashes + dir.push('/'), file) == base + seq!['/'] + dir
                + seq!['/'] + file
        },
{
    reveal_strlit("/");
    assert("/"@ =~= seq!['/']);
    let class = CharClass::Slash;
    assert forall|i: int| 0 <= i < slashes.len() implies class.has(#[trigger] slashes[i]) by {}
    if dir.len() > 0 {
        law_trimming_the_start(slashes, dir, class);
        assert(dir.push('/')[0] == dir[0]);
        law_trimming_the_start(slashes, dir.push('/'), class);
        assert(base + seq!['/'] + dir.push('/') + file =~= base + seq!['/'] + dir + seq!['/']
            + file);
    } else {
        law_trimming_the_start(slashes, seq![], class);
        assert(slashes + seq![] =~= slashes);
        assert(base + seq!['/'] + seq![] + file =~= base + seq!['/'] + file);
    }
}

/// The path of the process in the unified hierarchy is on the first line that begins with
/// `0::`, behind that. Without such a line it is the root.
pub proof fn law_the_unified_line_counts(
    before: Seq<Seq<char>>,
    path: Seq<char>,
    behind: Seq<Seq<char>>,
)
    requires
        forall|i: int| 0 <= i < before.len() ==> !starts_with(#[trigger] before[i], "0::"@),
    ensures
        unified_path(before) == seq!['/'],
        unified_path(before + seq![seq!['0', ':', ':'] + path] + behind) == path,
    decreases before.len(),
{
    reveal_strlit("0::");
    assert("0::"@ =~= seq!['0', ':', ':']);
    let line = seq!['0', ':', ':'] + path;
    let all = before + seq![line] + behind;
    if before.len() > 0 {
        let rest = before.drop_first();
        assert forall|i: int| 0 <= i < rest.len() implies !starts_with(
            #[trigger] rest[i],
            "0::"@,
        ) by {
            assert(rest[i] == before[i + 1]);
        }
        assert(!starts_with(before[0], "0::"@));
        law_the_unified_line_counts(rest, path, behind);
        assert(all[0] == before[0]);
        assert(all.drop_first() =~= rest + seq![line] + behind);
    } else {
        assert(all[0] == line);
        assert(line.take(3) =~= "0::"@);
        assert(line.skip(3) =~= path);
    }
}

/// A line of an older hierarchy is made of its number, its controllers and the path of the
/// process in it. It is that of the memory controller if that one is among them, whatever
/// else is.
pub proof fn law_memory_lines(id: Seq<char>, controllers: Seq<char>, path: Seq<char>)
    requires
        !id.contains(':'),
        !controllers.contains(':'),
        !path.contains(':'),
    ensures
        ({
            let line = id + seq![':'] + (controllers + seq![':'] + path);
            &&& memory_path_in(line) == Some(path) <==> id != seq!['0'] && split(
                controllers,
                ',',
            ).contains(seq!['m', 'e', 'm', 'o', 'r', 'y'])
            &&& memory_path_in(line) != Some(path) ==> memory_path_in(line) is None
        }),
{
    reveal_strlit("0");
    reveal_strlit("memory");
    assert("0"@ =~= seq!['0']);
    assert("memory"@ =~= seq!['m', 'e', 'm', 'o', 'r', 'y']);
    let rest = controllers + seq![':'] + path;
    let line = id + seq![':'] + rest;
    lemma_first(id, rest, ':');
    lemma_first(controllers, path, ':');
    assert(line.take(id.len() as int) =~= id);
    assert(line.skip(id.len() as int + 1) =~= rest);
    assert(rest.take(controllers.len() as int) =~= controllers);
    lemma_last_index(rest, ':');
    let k = last_index(rest, ':');
    assert(rest[controllers.len() as int] == ':');
    assert(k == controllers.len()) by {
        if k > controllers.len() {
            assert(path[k - controllers.len() - 1] == ':');
        }
    }
    assert(rest.skip(k + 1) =~= path);
}

/// The first line of the memory controller counts; without one the path is the root.
pub proof fn law_the_first_memory_line_counts(
    before: Seq<Seq<char>>,
    line: Seq<char>,
    behind: Seq<Seq<char>>,
)
    requires
        forall|i: int| 0 <= i < before.len() ==> memory_path_in(#[trigger] before[i]) is None,
        memory_path_in(line) is Some,
    ensures
        memory_path(before) == seq!['/'],
        memory_path(before + seq![line] + behind) == memory_path_in(line)->0,
    decreases before.len(),
{
    let all = before + seq![line] + behind;
    if before.len() > 0 {
        let rest = before.drop_first();
        assert forall|i: int| 0 <= i < rest.len() implies memory_path_in(
            #[trigger] rest[i],
        ) is None by {
            assert(rest[i] == before[i + 1]);
        }
        assert(memory_path_in(before[0]) is None);
        law_the_first_memory_line_counts(rest, line, behind);
        assert(all[0] == before[0]);
        assert(all.drop_first() =~= rest + seq![line] + behind);
    } else {
        assert(all[0] == line);
    }
}

/// If there is a file of the newer kind, it alone counts; one that cannot be read is no
/// limit.
pub proof fn law_the_file_that_exists_counts(v2: Option<Seq<char>>, v1: Option<Seq<char>>)
    ensures
        v2 matches Some(raw) ==> limit_of_files(true, v2, v1) == limit_in(raw),
        v2 is None ==> limit_of_files(true, v2, v1) is None,
        v1 matches Some(raw) ==> limit_of_files(false, v2, v1) == limit_in(raw),
        v1 is None ==> limit_of_files(false, v2, v1) is None,
{
}

} // verus!

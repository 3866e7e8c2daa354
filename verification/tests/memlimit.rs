use dns_rs::cgroup::{limit_files, memory_limit_bytes, parse_limit};
use dns_rs::memlimit::{
    decide, detect_cgroup_memory_limit, parse_cgroup_v1, parse_cgroup_v2, resolve_cache_max_bytes,
    share_of_limit, DEFAULT_CACHE_MAX_BYTES,
};

#[test]
fn v2_max_is_unbounded() {
    assert_eq!(parse_cgroup_v2("max\n"), None);
}

#[test]
fn v2_numeric_limit_parses() {
    assert_eq!(parse_cgroup_v2("536870912\n"), Some(536870912));
}

#[test]
fn v1_huge_sentinel_is_unbounded() {
    assert_eq!(parse_cgroup_v1("9223372036854771712\n"), None);
}

#[test]
fn v1_numeric_limit_parses() {
    assert_eq!(parse_cgroup_v1("268435456\n"), Some(268435456));
}

#[test]
fn decide_prefers_env_over_everything() {
    assert_eq!(decide(Some(111), Some(222), Some(1_000_000_000)), 111);
}

#[test]
fn decide_prefers_explicit_over_cgroup() {
    assert_eq!(decide(None, Some(222), Some(1_000_000_000)), 222);
}

#[test]
fn decide_uses_cgroup_fraction_when_nothing_explicit() {
    assert_eq!(decide(None, None, Some(1_000_000_000)), 700_000_000);
}

#[test]
fn decide_falls_back_to_default_when_nothing_detected() {
    assert_eq!(decide(None, None, None), DEFAULT_CACHE_MAX_BYTES);
}

#[test]
fn the_share_is_that_of_double_precision_arithmetic() {
    let mut x: u64 = 12345;
    for i in 0..100_000u64 {
        x = x.wrapping_mul(6364136223846793005).wrapping_add(1442695040888963407);
        for limit in [x, x >> (i % 64), i, u64::MAX - i] {
            assert_eq!(share_of_limit(limit), (limit as f64 * 0.7) as u64, "limit {limit}");
        }
    }
}

#[test]
fn the_budget_is_resolved_from_raw_texts() {
    assert_eq!(resolve_cache_max_bytes(Some(" 42\n"), Some(7), Some("max"), None), 42);
    assert_eq!(resolve_cache_max_bytes(Some("many"), Some(7), Some("max"), None), 7);
    assert_eq!(resolve_cache_max_bytes(None, None, Some("1000000000\n"), Some("5")), 700_000_000);
    assert_eq!(resolve_cache_max_bytes(None, None, Some("max\n"), Some("1000")), DEFAULT_CACHE_MAX_BYTES);
    assert_eq!(resolve_cache_max_bytes(None, None, None, Some("1000\n")), 700);
    assert_eq!(detect_cgroup_memory_limit(None, None), None);
}

#[test]
fn limit_files_follow_the_processs_own_cgroup() {
    let files = limit_files("0::/kubepods/pod1\n");
    assert_eq!(files.v2, "/sys/fs/cgroup/kubepods/pod1/memory.max");
    assert_eq!(files.v1, "/sys/fs/cgroup/memory/memory.limit_in_bytes");
    let files = limit_files("12:cpu,memory:/docker/abc\n3:pids:/docker/abc\n0::/\n");
    assert_eq!(files.v2, "/sys/fs/cgroup/memory.max");
    assert_eq!(files.v1, "/sys/fs/cgroup/memory/docker/abc/memory.limit_in_bytes");
    let files = limit_files("");
    assert_eq!(files.v2, "/sys/fs/cgroup/memory.max");
}

#[test]
fn the_v2_file_counts_where_it_exists() {
    assert_eq!(parse_limit("max\n"), None);
    assert_eq!(parse_limit("9223372036854771712"), None);
    assert_eq!(memory_limit_bytes(true, Some("1024\n"), Some("2048\n")), Some(1024));
    assert_eq!(memory_limit_bytes(true, None, Some("2048\n")), None);
    assert_eq!(memory_limit_bytes(false, Some("1024\n"), Some("2048\n")), Some(2048));
    assert_eq!(memory_limit_bytes(false, None, None), None);
}

#[test]
fn a_larger_limit_has_no_smaller_share() {
    assert_eq!(share_of_limit(0), 0);
    assert_eq!(share_of_limit(10), 7);
    let mut last: u64 = 0;
    for shift in 2..64u32 {
        let edge: u64 = 1 << shift;
        for limit in [edge - 1, edge, edge + 1, edge + edge / 3] {
            assert!(share_of_limit(limit) >= last, "limit {limit}");
            last = share_of_limit(limit);
        }
    }
    assert!(share_of_limit(u64::MAX) >= last);
}

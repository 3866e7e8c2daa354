use dns_rs::blocklist::{
    add_chunk, is_blocked, parse_body, parse_list, BlocklistManager, Direction, ListError,
    MAX_LIST_RESPONSE_BYTES,
};
use dns_rs::config::{BlocklistsConfig, WhitelistConfig};
use dns_rs::util::normalize_name;
use rustc_hash::FxHashSet;

fn blocklists_config(urls: Vec<String>, domains: Vec<String>) -> BlocklistsConfig {
    BlocklistsConfig { urls, domains, refresh_interval_secs: 43_200 }
}

fn whitelist_config(urls: Vec<String>, domains: Vec<String>) -> WhitelistConfig {
    WhitelistConfig { urls, domains, refresh_interval_secs: 43_200 }
}

/// A fetch of one list lands, and the merged set is derived anew, as a background
/// refresh does it.
fn land_fetch(manager: &mut BlocklistManager, direction: Direction, index: usize, domains: &[&str]) {
    let set: FxHashSet<String> = domains.iter().map(|d| d.to_string()).collect();
    manager.fetch_and_store(direction, index, Some(set));
    manager.publish();
}

#[test]
fn inline_blocklist_domains_are_blocked_with_no_urls_configured() {
    let config = blocklists_config(vec![], vec!["ads.example.com".to_string()]);
    let whitelist = whitelist_config(vec![], vec![]);
    let mut manager = BlocklistManager::new(&config, &whitelist);
    manager.publish();

    assert!(manager.merged_set().contains("ads.example.com."));
}

#[test]
fn inline_whitelist_domains_remove_domains_from_the_merged_set_even_after_refresh() {
    let config = blocklists_config(vec!["https://example.invalid/list.txt".to_string()], vec![]);
    let whitelist = whitelist_config(vec![], vec!["s.youtube.com".to_string()]);
    let mut manager = BlocklistManager::new(&config, &whitelist);

    land_fetch(&mut manager, Direction::Block, 0, &["ads.example.com.", "s.youtube.com."]);

    let merged = manager.merged_set();
    assert!(merged.contains("ads.example.com."));
    assert!(
        !merged.contains("s.youtube.com."),
        "whitelisted domain must never appear in the merged set, even though a source lists it"
    );
}

#[test]
fn whitelist_urls_remove_domains_from_the_merged_set_just_like_inline_whitelist_domains() {
    let config = blocklists_config(vec!["https://example.invalid/block.txt".to_string()], vec![]);
    let whitelist = whitelist_config(vec!["https://example.invalid/allow.txt".to_string()], vec![]);
    let mut manager = BlocklistManager::new(&config, &whitelist);

    land_fetch(&mut manager, Direction::Block, 0, &["ads.example.com.", "s.youtube.com."]);
    land_fetch(&mut manager, Direction::Allow, 0, &["s.youtube.com."]);

    let merged = manager.merged_set();
    assert!(merged.contains("ads.example.com."));
    assert!(
        !merged.contains("s.youtube.com."),
        "a domain listed by a whitelist URL source must be removed from the merged set, same as an inline whitelist domain"
    );
}

#[test]
fn a_whitelist_source_refreshing_on_its_own_can_un_block_a_domain() {
    let config = blocklists_config(vec!["https://example.invalid/block.txt".to_string()], vec![]);
    let whitelist = whitelist_config(vec!["https://example.invalid/allow.txt".to_string()], vec![]);
    let mut manager = BlocklistManager::new(&config, &whitelist);
    land_fetch(&mut manager, Direction::Block, 0, &["s.youtube.com."]);
    assert!(manager.merged_set().contains("s.youtube.com."), "should start out blocked");

    land_fetch(&mut manager, Direction::Allow, 0, &["s.youtube.com."]);
    assert!(
        !manager.merged_set().contains("s.youtube.com."),
        "a whitelist source refreshing on its own must be able to un-block a domain, without needing the blocklist to refresh too"
    );
}

#[test]
fn a_failed_fetch_keeps_the_previous_contents() {
    let config = blocklists_config(vec!["https://example.invalid/block.txt".to_string()], vec![]);
    let whitelist = whitelist_config(vec![], vec![]);
    let mut manager = BlocklistManager::new(&config, &whitelist);
    assert_eq!(manager.sources(Direction::Block)[0].url, "https://example.invalid/block.txt");
    assert_eq!(manager.sources(Direction::Block)[0].refresh_interval_secs, 43_200);
    assert_eq!(manager.sources(Direction::Allow).len(), 0);
    land_fetch(&mut manager, Direction::Block, 0, &["ads.example.com."]);
    manager.fetch_and_store(Direction::Block, 0, None);
    manager.publish();
    assert!(is_blocked(&manager.merged_set(), "ads.example.com."));
    assert!(!is_blocked(&manager.merged_set(), "example.com."), "only exact names are blocked");
    assert_eq!(manager.merged_set().len(), 1);
    assert_eq!(manager.allowed_len(), 0);
}

#[test]
fn parses_hosts_format() {
    let body = "\
# comment line
0.0.0.0 ads.example.com
127.0.0.1 tracker.example.com other.example.com
0.0.0.0 localhost
";
    let set = parse_list(body);
    assert!(set.contains("ads.example.com."));
    assert!(set.contains("tracker.example.com."));
    assert!(set.contains("other.example.com."));
    assert!(!set.contains("localhost."));
    assert_eq!(set.len(), 3);
}

#[test]
fn parses_plain_domain_list() {
    let body = "Ads.Example.com\n\nsome.tracker.net # inline comment\n";
    let set = parse_list(body);
    assert!(set.contains("ads.example.com."));
    assert!(set.contains("some.tracker.net."));
    assert_eq!(set.len(), 2);
}

#[test]
fn ignores_adblock_plus_cosmetic_rules() {
    let body = "\
google.com##.GC3LC41DERB + div[style=\"position: relative; height: 170px;\"]
youtube.com###alert-banner > .ytd-browse > .yt-alert-with-actions-renderer
facebook.com#@##fb_header
chatgpt.com#?#.md\\:px-\\[60px\\]:has-text(By messaging ChatGPT)
";
    let set = parse_list(body);
    assert!(set.is_empty(), "cosmetic filter rules must never be treated as domains to block: {set:?}");
}

#[test]
fn extracts_domains_from_adblock_plus_network_rules() {
    let body = "\
||doubleclick.net^
||ads.example.com^$third-party
@@||example.com^$document
||wildcard.*.example^
||path.example.com/ads/*^
||google.com^*/friendconnect.js
";
    let set = parse_list(body);
    assert!(set.contains("doubleclick.net."));
    assert!(set.contains("ads.example.com."));
    assert!(!set.contains("example.com."), "exception rules (@@) must never be treated as a block");
    assert!(
        !set.contains("google.com."),
        "a rule matching a specific path (^*/friendconnect.js) blocks that path, not the whole domain"
    );
    assert_eq!(set.len(), 2, "wildcard/path rules should be skipped rather than guessed at: {set:?}");
}

#[test]
fn ignores_adblock_plus_comment_lines() {
    let body = "! wordpress.org https://wordpress.org/plugins/some-plugin/\n! linkedin.com\n";
    let set = parse_list(body);
    assert!(set.is_empty(), "`!` comment lines must never be treated as domains: {set:?}");
}

#[test]
fn hosts_lines_may_begin_with_an_ipv6_address() {
    let set = parse_list("::1 ip6-localhost.example.com\r\nfe80::1.2.3.4\tlink.example.com\r\n");
    assert!(set.contains("ip6-localhost.example.com."));
    assert!(set.contains("link.example.com."));
    assert_eq!(set.len(), 2);
}

#[test]
fn list_bodies_are_bounded_and_must_be_text() {
    let mut body = Vec::new();
    assert!(add_chunk(&mut body, b"ads.example.com\n").is_ok());
    assert!(add_chunk(&mut body, b"b.example.com").is_ok());
    let set = parse_body(&body).ok().unwrap();
    assert_eq!(set.len(), 2);
    assert!(matches!(parse_body(&vec![0xff, 0xfe]), Err(ListError::NotUtf8)));
    assert_eq!(
        ListError::NotUtf8.message("http://x"),
        "response from http://x was not valid UTF-8"
    );
    assert_eq!(
        ListError::TooLarge.message("http://x"),
        format!("response from http://x exceeded the {}-byte limit for a single domain list", MAX_LIST_RESPONSE_BYTES)
    );
}

#[test]
fn an_oversized_list_body_is_refused() {
    let chunk = vec![b'a'; (MAX_LIST_RESPONSE_BYTES / 16) as usize];
    let mut body = Vec::new();
    for _ in 0..16 {
        assert!(add_chunk(&mut body, &chunk).is_ok());
    }
    assert!(matches!(add_chunk(&mut body, b"x"), Err(ListError::TooLarge)));
}

#[test]
fn joined_lists_list_what_each_of_them_lists() {
    let a = "0.0.0.0 ads.example.com\r\n# note\nx.tracker.net\r";
    let b = "||banner.example.org^\nads.example.com";
    let joined = parse_list(&format!("{a}\n{b}"));
    let union: FxHashSet<String> = parse_list(a).union(&parse_list(b)).cloned().collect();
    assert_eq!(joined, union);
    assert_eq!(joined.len(), 3);
    assert_eq!(parse_list(&format!("\n{b}")), parse_list(b));
    assert_eq!(parse_list(&format!("{a}\n")), parse_list(a));
}

#[test]
fn listed_names_are_normalized_and_have_an_inner_dot() {
    let set = parse_list("..Ads.Example.COM..\n.com\ncom.\nplain\n");
    let names: Vec<String> = set.into_iter().collect();
    assert_eq!(names, vec!["ads.example.com.".to_string()]);
    assert_eq!(normalize_name(&names[0]), names[0]);
}

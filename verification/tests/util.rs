use dns_rs::ip::{parse_ip, IpAddr};
use dns_rs::util::normalize_name;

#[test]
fn normalizes_case_and_trailing_dot() {
    assert_eq!(normalize_name("Example.COM"), "example.com.");
    assert_eq!(normalize_name("example.com."), "example.com.");
    assert_eq!(normalize_name("example.com"), "example.com.");
    assert_eq!(normalize_name(""), ".");
    assert_eq!(normalize_name("."), ".");
}

#[test]
fn normalized_names_stay_as_they_are() {
    for name in [" WWW.Example.com.. ", "..a.b", "x", "\u{3000}Y.z\t"] {
        let once = normalize_name(name);
        assert_eq!(normalize_name(&once), once);
    }
    assert_eq!(normalize_name("..a.b"), "a.b.");
}

fn ip(text: &str) -> Option<IpAddr> {
    let chars: Vec<char> = text.chars().collect();
    parse_ip(&chars)
}

#[test]
fn dotted_addresses_are_read() {
    let good = [("0.0.0.0", [0, 0, 0, 0]), ("255.255.255.255", [255, 255, 255, 255]), ("1.20.3.104", [1, 20, 3, 104])];
    for (text, octets) in good {
        assert!(matches!(ip(text), Some(IpAddr::V4(o)) if o == octets), "{text}");
    }
    for text in ["256.0.0.1", "01.2.3.4", "1.2.3", "1.2.3.4.", "1.2.3.4.5", "+1.2.3.4", "", " 1.2.3.4", "1..2.3", "1.2.3.0004"] {
        assert!(ip(text).is_none(), "{text}");
    }
}

#[test]
fn colon_addresses_are_read() {
    let good = [
        ("::", [0, 0, 0, 0, 0, 0, 0, 0]),
        ("::1", [0, 0, 0, 0, 0, 0, 0, 1]),
        ("1::", [1, 0, 0, 0, 0, 0, 0, 0]),
        ("1:2:3:4:5:6:7:8", [1, 2, 3, 4, 5, 6, 7, 8]),
        ("1:2:3:4:5:6:7::", [1, 2, 3, 4, 5, 6, 7, 0]),
        ("::ffff:1.2.3.4", [0, 0, 0, 0, 0, 0xffff, 0x0102, 0x0304]),
        ("1:2:3:4:5:6:1.2.3.4", [1, 2, 3, 4, 5, 6, 0x0102, 0x0304]),
        ("abcd:EF01::", [0xabcd, 0xef01, 0, 0, 0, 0, 0, 0]),
        ("0000::0000", [0, 0, 0, 0, 0, 0, 0, 0]),
    ];
    for (text, groups) in good {
        assert!(matches!(ip(text), Some(IpAddr::V6(g)) if g == groups), "{text}");
    }
    let bad = [
        "1:2:3:4:5:6:7:8:9", "1::2:3:4:5:6:7:8", "1:2:3:4:5:6:7:1.2.3.4", "1.2.3.4::", "::1.2.3.4:5", "12345::",
        "g::", ":::", "1:::2", "::1::2", ":1", "1:", "fe80::1.2.3.4a", "1::1.2.3.400", "::00001", "1:2:3:4:5:6:7",
    ];
    for text in bad {
        assert!(ip(text).is_none(), "{text}");
    }
}

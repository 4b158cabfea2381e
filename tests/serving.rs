use miniserve::classify::{classify, InvalidRoot, PathKind};
use miniserve::config::{parse_port, ConfigError, Interface, MiniserveConfig, PortError};
use miniserve::listing::{escape_html, escape_url_segment, listing, name_le_exec, render_listing, shows_parent_link, sort_by_name, url_prefix_of, Child};
use miniserve::request::{
    dispatch, is_within, percent_decode, resolve, segment_kind, split_segments, Dispatch, PathError, SegmentKind,
};
use miniserve::response::{add_challenge, challenge, is_challenge_name, lookup_outcome, reply_for, status_of, Header, Outcome};

fn strings(v: &[&str]) -> Vec<String> {
    v.iter().map(|s| s.to_string()).collect()
}

fn bytes(v: &[&str]) -> Vec<Vec<u8>> {
    v.iter().map(|s| s.as_bytes().to_vec()).collect()
}

fn has_challenge(headers: &[Header]) -> bool {
    headers.iter().any(|h| h.name == "WWW-Authenticate" && h.value == "Basic realm=\"lol\"")
}

#[test]
fn classify_prefers_file_then_directory() {
    assert_eq!(classify(true, false), Ok(PathKind::SingleFile));
    assert_eq!(classify(true, true), Ok(PathKind::SingleFile));
    assert_eq!(classify(false, true), Ok(PathKind::Directory));
    assert_eq!(classify(false, false), Err(InvalidRoot));
}

#[test]
fn port_values() {
    assert_eq!(parse_port("8080"), Ok(8080));
    assert_eq!(parse_port("0"), Ok(0));
    assert_eq!(parse_port("65535"), Ok(65535));
    assert_eq!(parse_port("+80"), Ok(80));
    assert_eq!(parse_port("007"), Ok(7));
}

#[test]
fn port_errors() {
    assert_eq!(parse_port(""), Err(PortError::Empty));
    assert_eq!(parse_port("+"), Err(PortError::InvalidDigit));
    assert_eq!(parse_port("-"), Err(PortError::InvalidDigit));
    assert_eq!(parse_port("-1"), Err(PortError::InvalidDigit));
    assert_eq!(parse_port("8a"), Err(PortError::InvalidDigit));
    assert_eq!(parse_port(" 80"), Err(PortError::InvalidDigit));
    assert_eq!(parse_port("65536"), Err(PortError::PosOverflow));
    assert_eq!(parse_port("99999x"), Err(PortError::PosOverflow));
    assert_eq!(parse_port("9x99999"), Err(PortError::InvalidDigit));
}

#[test]
fn port_errors_agree_with_std() {
    for s in ["", "+", "-", "-1", "8a", "65536", "99999x", "12", "+65535", "\u{e9}"] {
        let ours = parse_port(s).map_err(|e| e.message().to_string());
        let std_ = s.parse::<u16>().map_err(|e| e.to_string());
        assert_eq!(ours, std_, "on {:?}", s);
    }
}

#[test]
fn localhost_banner() {
    assert!(Interface::V4([0, 0, 0, 0]).shows_as_localhost());
    assert!(!Interface::V4([127, 0, 0, 1]).shows_as_localhost());
    assert!(!Interface::V4([0, 0, 0, 1]).shows_as_localhost());
    assert!(Interface::V6([0; 8]).shows_as_localhost());
    assert!(!Interface::V6([0, 0, 0, 0, 0, 0, 0, 1]).shows_as_localhost());
}

#[test]
fn split_keeps_empty_pieces() {
    assert_eq!(split_segments(b""), bytes(&[""]));
    assert_eq!(split_segments(b"/"), bytes(&["", ""]));
    assert_eq!(split_segments(b"/a/b"), bytes(&["", "a", "b"]));
    assert_eq!(split_segments(b"a//b/"), bytes(&["a", "", "b", ""]));
}

#[test]
fn segment_kinds() {
    assert_eq!(segment_kind(b".."), SegmentKind::Parent);
    assert_eq!(segment_kind(b"."), SegmentKind::Stay);
    assert_eq!(segment_kind(b""), SegmentKind::Stay);
    assert_eq!(segment_kind(b"..."), SegmentKind::Name);
    assert_eq!(segment_kind(b".x"), SegmentKind::Name);
    assert_eq!(segment_kind(b"a"), SegmentKind::Name);
}

#[test]
fn resolve_within_root() {
    assert_eq!(resolve(b"/"), Ok(vec![]));
    assert_eq!(resolve(b"/a.txt"), Ok(bytes(&["a.txt"])));
    assert_eq!(resolve(b"/a/./b//c/"), Ok(bytes(&["a", "b", "c"])));
    assert_eq!(resolve(b"/sub/../a.txt"), Ok(bytes(&["a.txt"])));
    assert_eq!(resolve(b"/sub/.."), Ok(vec![]));
}

#[test]
fn resolve_rejects_traversal() {
    assert_eq!(resolve(b"/.."), Err(PathError::Outside));
    assert_eq!(resolve(b"/../etc/passwd"), Err(PathError::Outside));
    assert_eq!(resolve(b"/sub/../../etc/passwd"), Err(PathError::Outside));
    assert_eq!(resolve(b"/a/../../a"), Err(PathError::Outside));
    assert_eq!(resolve(b"/./.././x"), Err(PathError::Outside));
}

#[test]
fn containment_compares_components() {
    let root = strings(&["srv", "data"]);
    assert!(is_within(&root, &strings(&["srv", "data"])));
    assert!(is_within(&root, &strings(&["srv", "data", "a.txt"])));
    assert!(!is_within(&root, &strings(&["srv", "data2"])));
    assert!(!is_within(&root, &strings(&["etc", "passwd"])));
    assert!(!is_within(&root, &strings(&["srv"])));
}

#[test]
fn lookup_outcomes_and_statuses() {
    assert_eq!(lookup_outcome(false, true, false), Outcome::NotFound);
    assert_eq!(lookup_outcome(true, false, false), Outcome::Forbidden);
    assert_eq!(lookup_outcome(true, true, true), Outcome::Listing);
    assert_eq!(lookup_outcome(true, true, false), Outcome::File);
    assert_eq!(status_of(Outcome::File), 200);
    assert_eq!(status_of(Outcome::Listing), 200);
    assert_eq!(status_of(Outcome::NotFound), 404);
    assert_eq!(status_of(Outcome::Forbidden), 403);
    assert_eq!(status_of(Outcome::Unrouted), 404);
}

#[test]
fn every_reply_carries_the_challenge() {
    for o in [Outcome::File, Outcome::Listing, Outcome::NotFound, Outcome::Forbidden, Outcome::Unrouted] {
        let r = reply_for(o);
        assert_eq!(r.status, status_of(o));
        assert_eq!(r.headers.len(), 1);
        assert!(has_challenge(&r.headers));
    }
}

#[test]
fn challenge_is_appended() {
    let mut headers = vec![Header { name: "Content-Type".to_string(), value: "text/html".to_string() }];
    add_challenge(&mut headers);
    assert_eq!(headers.len(), 2);
    assert_eq!(headers[0].name, "Content-Type");
    assert_eq!(headers[1].name, "WWW-Authenticate");
    assert_eq!(headers[1].value, "Basic realm=\"lol\"");
    assert_eq!(challenge().name, "WWW-Authenticate");
}

#[test]
fn same_request_same_reply() {
    let a = dispatch(PathKind::Directory, b"/sub/x.txt");
    let b = dispatch(PathKind::Directory, b"/sub/x.txt");
    match (a, b) {
        (Dispatch::Lookup(x), Dispatch::Lookup(y)) => assert_eq!(x, y),
        other => panic!("unexpected {:?}", other),
    }
    assert_eq!(reply_for(Outcome::File).status, reply_for(Outcome::File).status);
}

#[test]
fn prefix_of_nested_directory() {
    assert_eq!(url_prefix_of(&vec![]), "/");
    assert_eq!(url_prefix_of(&strings(&["sub"])), "/sub/");
    assert_eq!(url_prefix_of(&strings(&["a", "b"])), "/a/b/");
    assert!(!shows_parent_link(&vec![]));
    assert!(shows_parent_link(&strings(&["sub"])));
}

#[test]
fn directory_root_scenario() {
    let kind = classify(false, true).unwrap();
    assert_eq!(kind, PathKind::Directory);

    // GET / lists the root's children and offers no parent link.
    let root = match dispatch(kind, b"/") {
        Dispatch::Lookup(st) => st,
        other => panic!("unexpected {:?}", other),
    };
    assert!(root.is_empty());
    let root: Vec<String> = Vec::new();
    assert_eq!(lookup_outcome(true, true, true), Outcome::Listing);
    let children = vec![
        Child { name: "a.txt".to_string(), is_dir: false },
        Child { name: "b.txt".to_string(), is_dir: false },
        Child { name: "sub".to_string(), is_dir: true },
    ];
    let entries = listing(&root, &children);
    let labels: Vec<&str> = entries.iter().map(|e| e.label.as_str()).collect();
    assert_eq!(labels, vec!["a.txt", "b.txt", "sub/"]);
    let links: Vec<&str> = entries.iter().map(|e| e.link.as_str()).collect();
    assert_eq!(links, vec!["/a.txt", "/b.txt", "/sub/"]);
    assert!(!shows_parent_link(&root));
    assert_eq!(reply_for(Outcome::Listing).status, 200);

    // GET /a.txt serves the file.
    match dispatch(kind, b"/a.txt") {
        Dispatch::Lookup(st) => assert_eq!(st, bytes(&["a.txt"])),
        other => panic!("unexpected {:?}", other),
    }
    assert_eq!(status_of(lookup_outcome(true, true, false)), 200);

    // GET /missing.txt is not found.
    match dispatch(kind, b"/missing.txt") {
        Dispatch::Lookup(st) => assert_eq!(st, bytes(&["missing.txt"])),
        other => panic!("unexpected {:?}", other),
    }
    assert_eq!(status_of(lookup_outcome(false, false, false)), 404);

    // GET /../etc/passwd is forbidden.
    let d = dispatch(kind, b"/../etc/passwd");
    assert!(matches!(d, Dispatch::Forbidden));
    let r = reply_for(Outcome::Forbidden);
    assert_eq!(r.status, 403);
    assert!(has_challenge(&r.headers));
}

#[test]
fn listing_of_subdirectory() {
    let dir = strings(&["sub"]);
    let children = vec![Child { name: "c.txt".to_string(), is_dir: false }];
    let entries = listing(&dir, &children);
    assert_eq!(entries.len(), 1);
    assert_eq!(entries[0].label, "c.txt");
    assert_eq!(entries[0].link, "/sub/c.txt");
    assert!(!entries[0].is_dir);
    assert!(listing(&dir, &vec![]).is_empty());
}

#[test]
fn single_file_root_scenario() {
    let kind = classify(true, false).unwrap();
    assert_eq!(kind, PathKind::SingleFile);
    assert!(matches!(dispatch(kind, b"/"), Dispatch::ServeRoot));
    assert_eq!(reply_for(Outcome::File).status, 200);
    assert!(matches!(dispatch(kind, b"/anything"), Dispatch::Unrouted));
    assert!(matches!(dispatch(kind, b""), Dispatch::Unrouted));
    assert_eq!(reply_for(Outcome::Unrouted).status, 404);
}

#[test]
fn name_order() {
    assert!(name_le_exec("a", "b"));
    assert!(!name_le_exec("b", "a"));
    assert!(name_le_exec("a", "a"));
    assert!(name_le_exec("", "a"));
    assert!(!name_le_exec("a", ""));
    assert!(name_le_exec("a", "a.txt"));
    assert!(!name_le_exec("b.txt", "a.txt"));
    assert!(name_le_exec("B", "a"));
}

#[test]
fn children_sorted_by_name() {
    let children = vec![
        Child { name: "sub".to_string(), is_dir: true },
        Child { name: "b.txt".to_string(), is_dir: false },
        Child { name: "a.txt".to_string(), is_dir: false },
    ];
    let sorted = sort_by_name(children);
    let names: Vec<&str> = sorted.iter().map(|c| c.name.as_str()).collect();
    assert_eq!(names, vec!["a.txt", "b.txt", "sub"]);
    assert!(sorted[2].is_dir);
    let entries = listing(&vec![], &sorted);
    let labels: Vec<&str> = entries.iter().map(|e| e.label.as_str()).collect();
    assert_eq!(labels, vec!["a.txt", "b.txt", "sub/"]);
    assert!(sort_by_name(vec![]).is_empty());
}

#[test]
fn html_escaping() {
    assert_eq!(escape_html("a.txt"), "a.txt");
    assert_eq!(escape_html("<b>&\"x\""), "&lt;b&gt;&amp;&quot;x&quot;");
    assert_eq!(escape_html(""), "");
}

#[test]
fn rendered_root_listing() {
    let children = vec![
        Child { name: "b.txt".to_string(), is_dir: false },
        Child { name: "sub".to_string(), is_dir: true },
    ];
    let html = render_listing(&vec![], &listing(&vec![], &children));
    assert_eq!(
        html,
        "<html><head><meta charset=\"utf-8\"></head><body><ul>\
         <li><a href=\"/b.txt\">b.txt</a></li>\
         <li><a href=\"/sub/\">sub/</a></li>\
         </ul></body></html>"
    );
}

#[test]
fn rendered_nested_listing_links_to_parent() {
    let dir = strings(&["a", "b&c"]);
    let children = vec![Child { name: "x<y".to_string(), is_dir: false }];
    let html = render_listing(&dir, &listing(&dir, &children));
    assert_eq!(
        html,
        "<html><head><meta charset=\"utf-8\"></head><body><ul>\
         <li><a href=\"/a/\">..</a></li>\
         <li><a href=\"/a/b&amp;c/x&lt;y\">x&lt;y</a></li>\
         </ul></body></html>"
    );
}

#[test]
fn encoded_traversal_is_forbidden() {
    for p in [
        "/../etc/passwd",
        "/%2e%2e/etc/passwd",
        "/%2E%2E/etc/passwd",
        "/%2e%2e%2fetc%2fpasswd",
        "/..%2F..%2Fetc",
        "/sub/%2e%2e/%2e%2e/x",
        "/%2e%2E%2F",
        "/..",
        "/a/../..",
        "/./../",
        "//..//x",
        "/a/b/../../../c",
    ] {
        assert_eq!(resolve(p.as_bytes()), Err(PathError::Outside), "{}", p);
        assert!(matches!(dispatch(PathKind::Directory, p.as_bytes()), Dispatch::Forbidden), "{}", p);
    }
    assert_eq!(reply_for(Outcome::Forbidden).status, 403);
    assert_eq!(resolve(b"/sub/....//etc"), Ok(bytes(&["sub", "....", "etc"])));
    assert_eq!(resolve(b"/a%5c..%5cb"), Ok(bytes(&["a\\..\\b"])));
}

#[test]
fn escapes_are_decoded() {
    assert_eq!(percent_decode(b"/a%20b%2Fc"), Some(b"/a b/c".to_vec()));
    assert_eq!(percent_decode(b"%41%7a%25"), Some(b"Az%".to_vec()));
    assert_eq!(percent_decode(b"caf%C3%A9"), Some("caf\u{e9}".as_bytes().to_vec()));
    assert_eq!(percent_decode(b""), Some(vec![]));
    assert_eq!(percent_decode(b"%"), None);
    assert_eq!(percent_decode(b"%2"), None);
    assert_eq!(percent_decode(b"%zz"), None);
    assert_eq!(resolve(b"/a%20b/c%2Fd"), Ok(bytes(&["a b", "c", "d"])));
    assert_eq!(resolve(b"/bad%g1"), Err(PathError::BadEscape));
    assert!(matches!(dispatch(PathKind::Directory, b"/bad%"), Dispatch::BadRequest));
    assert_eq!(status_of(Outcome::BadRequest), 400);
}

#[test]
fn configuration_from_arguments() {
    let c = MiniserveConfig::new(true, "/srv/data".to_string(), false, true, "8080", Interface::V4([0, 0, 0, 0]))
        .unwrap();
    assert!(c.verbose);
    assert_eq!(c.path, "/srv/data");
    assert_eq!(c.port, 8080);
    assert!(c.interface.shows_as_localhost());

    let e = MiniserveConfig::new(false, "/nope".to_string(), false, false, "x", Interface::V4([127, 0, 0, 1]));
    assert_eq!(e.unwrap_err(), ConfigError::InvalidPath(InvalidRoot));
    let e = MiniserveConfig::new(false, "/srv/a.pdf".to_string(), true, false, "70000", Interface::V6([0; 8]));
    assert_eq!(e.unwrap_err(), ConfigError::InvalidPort(PortError::PosOverflow));
    assert_eq!(
        InvalidRoot.message(),
        "Path either doesn't exist or is not a regular file or a directory"
    );
}

#[test]
fn challenge_replaces_an_earlier_one() {
    let mut headers = vec![
        Header { name: "www-authenticate".to_string(), value: "Basic realm=\"old\"".to_string() },
        Header { name: "Content-Type".to_string(), value: "text/plain".to_string() },
        Header { name: "WWW-AUTHENTICATE".to_string(), value: "Bearer".to_string() },
        Header { name: "Content-Length".to_string(), value: "3".to_string() },
    ];
    add_challenge(&mut headers);
    let names: Vec<&str> = headers.iter().map(|h| h.name.as_str()).collect();
    assert_eq!(names, vec!["Content-Type", "Content-Length", "WWW-Authenticate"]);
    assert_eq!(headers[2].value, "Basic realm=\"lol\"");
}

#[test]
fn challenge_twice_equals_once() {
    let mut once = vec![Header { name: "Content-Type".to_string(), value: "text/html".to_string() }];
    add_challenge(&mut once);
    let mut twice = vec![Header { name: "Content-Type".to_string(), value: "text/html".to_string() }];
    add_challenge(&mut twice);
    add_challenge(&mut twice);
    let view = |v: &Vec<Header>| v.iter().map(|h| (h.name.clone(), h.value.clone())).collect::<Vec<_>>();
    assert_eq!(view(&once), view(&twice));
    assert_eq!(twice.len(), 2);
}

#[test]
fn challenge_names() {
    assert!(is_challenge_name("WWW-Authenticate"));
    assert!(is_challenge_name("www-authenticate"));
    assert!(is_challenge_name("WwW-AuThEnTiCaTe"));
    assert!(!is_challenge_name("www-authenticat"));
    assert!(!is_challenge_name("x-www-authenticate"));
    assert!(!is_challenge_name(""));
}

#[test]
fn links_escape_names() {
    assert_eq!(escape_url_segment("a#b?c d%e/f"), "a%23b%3Fc%20d%25e%2Ff");
    assert_eq!(escape_url_segment("plain.txt"), "plain.txt");
    let dir = strings(&["my dir"]);
    let children = vec![
        Child { name: "a#b".to_string(), is_dir: false },
        Child { name: "x?y".to_string(), is_dir: true },
    ];
    let entries = listing(&dir, &children);
    assert_eq!(entries[0].link, "/my%20dir/a%23b");
    assert_eq!(entries[0].label, "a#b");
    assert_eq!(entries[1].link, "/my%20dir/x%3Fy/");
    assert_eq!(entries[1].label, "x?y/");
    // A link, once decoded and resolved, leads back to the child's name.
    assert_eq!(resolve(entries[0].link.as_bytes()), Ok(bytes(&["my dir", "a#b"])));
    assert_eq!(resolve(entries[1].link.as_bytes()), Ok(bytes(&["my dir", "x?y"])));
}

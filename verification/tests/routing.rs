use cronet_receiver::config::{AppConfig, Delivery, ListenerConfig, RouteEntry, RouteTable};

fn entry(pattern: &str, target: &str) -> RouteEntry {
    RouteEntry::new(pattern, target).unwrap()
}

#[test]
fn invalid_pattern_is_refused() {
    assert!(RouteEntry::new("foo(bar", "t").is_err());
}

#[test]
fn new_keeps_pattern_and_target() {
    let e = entry("^app", "stream:{0}");
    assert_eq!(e.pattern, "^app");
    assert_eq!(e.target, "stream:{0}");
}

#[test]
fn target_fills_capture_groups() {
    let e = entry(r"^(\w+)\|/api/(\w+)$", "{1}:{2}");
    assert_eq!(e.get_target("app1|/api/test"), Some("app1:test".to_string()));
}

#[test]
fn group_zero_is_the_whole_match() {
    let e = entry(r"app\d", "<{0}>");
    assert_eq!(e.get_target("xx app7 yy"), Some("<app7>".to_string()));
}

#[test]
fn every_placeholder_occurrence_is_filled() {
    let e = entry(r"^(\w+)$", "{1}-{1}-{9}");
    assert_eq!(e.get_target("ab"), Some("ab-ab-{9}".to_string()));
}

#[test]
fn group_that_took_no_part_leaves_placeholder() {
    let e = entry(r"(a)|(b)", "[{1}][{2}]");
    assert_eq!(e.get_target("b"), Some("[{1}][b]".to_string()));
}

#[test]
fn no_match_gives_none() {
    let e = entry(r"^app", "x");
    assert_eq!(e.get_target("other"), None);
}

#[test]
fn placeholders_beyond_nine_use_all_digits() {
    let e = entry(r"(a)(b)(c)(d)(e)(f)(g)(h)(i)(j)(k)", "{11}{10}{1}");
    assert_eq!(e.get_target("abcdefghijk"), Some("kja".to_string()));
}

#[test]
fn disabled_table_sends_to_default() {
    let t = RouteTable { enabled: false, entries: vec![entry("x", "never")] };
    assert_eq!(t.find_target("app1|/u"), Some("default:app1|/u".to_string()));
}

#[test]
fn first_matching_entry_wins() {
    let t = RouteTable {
        enabled: true,
        entries: vec![entry("^zzz", "no"), entry("^app", "first"), entry("app", "second")],
    };
    assert_eq!(t.find_target("app1|/u"), Some("first".to_string()));
}

#[test]
fn enabled_table_without_match_drops() {
    let t = RouteTable { enabled: true, entries: vec![entry("^zzz", "no")] };
    assert_eq!(t.find_target("app1"), None);
    let empty = RouteTable { enabled: true, entries: vec![] };
    assert_eq!(empty.find_target("app1"), None);
}

fn config(route_table: Option<RouteTable>) -> AppConfig {
    AppConfig {
        auth_key: "MAGI".to_string(),
        listener: ListenerConfig { host: "0.0.0.0".to_string(), port: 9000 },
        redis: None,
        route_table,
    }
}

#[test]
fn delivery_follows_the_table() {
    let routed = config(Some(RouteTable { enabled: true, entries: vec![entry(r"^(\w+)\|", "s:{1}")] }));
    assert_eq!(routed.delivery_for("app1|/u"), Delivery::Deliver("s:app1".to_string()));
    assert_eq!(routed.delivery_for("|/u"), Delivery::Unrouted);
    assert_eq!(config(None).delivery_for("app1|/u"), Delivery::NoRouteTable);
}

#[test]
fn fill_target_fills_given_captures() {
    let caps = vec![Some("app1|x".to_string()), None, Some("app1".to_string())];
    assert_eq!(
        cronet_receiver::config::fill_target("{0}/{1}/{2}{2}", &caps),
        "app1|x/{1}/app1app1"
    );
}

#[test]
fn redis_url_joins_host_and_port() {
    let mut c = config(None);
    assert_eq!(c.redis_url(), None);
    c.redis = Some(cronet_receiver::config::RedisConfig { host: "localhost".to_string(), port: 6379 });
    assert_eq!(c.redis_url(), Some("redis://localhost:6379".to_string()));
    c.redis = Some(cronet_receiver::config::RedisConfig { host: "h".to_string(), port: 0 });
    assert_eq!(c.redis_url(), Some("redis://h:0".to_string()));
}

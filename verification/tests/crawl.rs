use crawler::crawler::{Admission, Crawler};
use crawler::ledger::Response;

fn seeded(restrict: bool, limit: u32) -> Crawler {
    Crawler::new("https://example.com/", restrict, limit).expect("seed must parse")
}

#[test]
fn response_new_sets_fields() {
    let r = Response::new(200, 3);
    assert_eq!(r.status, 200);
    assert_eq!(r.count, 3);
}

#[test]
fn response_increment_and_set_status() {
    let mut r = Response::new(0, 1);
    r.increment();
    assert_eq!(r.count, 2);
    r.increment_by(5);
    assert_eq!(r.count, 7);
    assert_eq!(r.status, 0);
    r.set_status(404);
    assert_eq!(r.status, 404);
    assert_eq!(r.count, 7);
}

#[test]
fn seed_is_queued_once() {
    let mut c = seeded(false, 0);
    assert_eq!(c.ledger_len(), 1);
    assert_eq!(c.pending_len(), 1);
    let front = c.pop_front().expect("seed pending");
    assert_eq!(front, "https://example.com/");
    assert_eq!(c.pop_front(), None);
    let rec = c.record("https://example.com/").expect("seed in ledger");
    assert_eq!(rec.count, 1);
    assert_eq!(rec.status, 0);
}

#[test]
fn unparsable_seed_is_fatal() {
    assert!(Crawler::new("not a url at all", false, 0).is_none());
    assert!(Crawler::new("/only/a/path", true, 0).is_none());
}

#[test]
fn format_url_resolves_root_relative() {
    let c = seeded(false, 0);
    assert_eq!(c.format_url("/a/b"), "https://example.com/a/b");
    assert_eq!(c.format_url("https://other.test/x"), "https://other.test/x");
    assert_eq!(c.format_url("plain"), "plain");
}

#[test]
fn format_url_is_idempotent() {
    let c = seeded(false, 0);
    for raw in ["/a/b", "/", "https://example.com/q?x=1", "nothing", ""] {
        let once = c.format_url(raw);
        let twice = c.format_url(&once);
        assert_eq!(once, twice);
    }
}

#[test]
fn dedup_counts_every_sighting() {
    let mut c = seeded(false, 0);
    assert_eq!(c.queue("/dup"), Admission::Admitted);
    assert_eq!(c.queue("/dup"), Admission::Duplicate);
    assert_eq!(c.queue("https://example.com/dup"), Admission::Duplicate);
    let rec = c.record("https://example.com/dup").expect("admitted once");
    assert_eq!(rec.count, 3);
    assert_eq!(c.ledger_len(), 2);
    assert_eq!(c.pending_len(), 2);
}

#[test]
fn limit_caps_the_ledger() {
    let mut c = seeded(false, 2);
    assert_eq!(c.queue("/second"), Admission::Admitted);
    assert_eq!(c.ledger_len(), 2);
    assert_eq!(c.queue("/third"), Admission::LimitReached);
    assert_eq!(c.ledger_len(), 2);
    assert_eq!(c.pending_len(), 2);
    // At the cap even a duplicate sighting is turned away before counting.
    assert_eq!(c.queue("/second"), Admission::LimitReached);
    assert_eq!(c.record("https://example.com/second").unwrap().count, 1);
}

#[test]
fn domain_restriction_blocks_foreign_hosts() {
    let mut c = seeded(true, 0);
    assert_eq!(c.queue("https://other.test/x"), Admission::OffDomain);
    assert!(c.record("https://other.test/x").is_none());
    // A root-relative link resolves against the base, so it always passes.
    assert_eq!(c.queue("/a/b"), Admission::Admitted);
    // Same domain passes too.
    assert_eq!(c.queue("https://example.com/c"), Admission::Admitted);
}

#[test]
fn unrestricted_admits_foreign_hosts() {
    let mut c = seeded(false, 0);
    assert_eq!(c.queue("https://other.test/x"), Admission::Admitted);
    assert_eq!(c.record("https://other.test/x").unwrap().count, 1);
}

#[test]
fn malformed_links_are_dropped_silently() {
    let mut c = seeded(false, 0);
    assert_eq!(c.queue("http://[bad"), Admission::Malformed);
    assert!(c.record("http://[bad").is_none());
    // A schemeless reference is a relative form: admitted as-is.
    assert_eq!(c.queue("foo/bar"), Admission::Admitted);
    assert_eq!(c.record("foo/bar").unwrap().count, 1);
}

#[test]
fn on_response_records_status_and_links() {
    let mut c = seeded(true, 0);
    let url = c.pop_front().expect("seed pending");
    let body = "<html><body>\
        <a href=\"/a\">one</a>\
        <a href=\"https://example.com/b\">two</a>\
        <a href=\"https://other.test/c\">three</a>\
        <a href=\"/a\">one again</a>\
        </body></html>";
    c.on_response(&url, 200, body);

    let keys: Vec<String> = c.keys().clone();
    assert_eq!(
        keys,
        vec![
            "https://example.com/".to_string(),
            "https://example.com/a".to_string(),
            "https://example.com/b".to_string(),
        ],
    );
    assert!(c.record("https://other.test/c").is_none());
    assert_eq!(c.record("https://example.com/a").unwrap().count, 2);
    assert_eq!(c.record("https://example.com/b").unwrap().count, 1);
    let seed = c.record("https://example.com/").unwrap();
    assert_eq!(seed.status, 200);
    assert_eq!(seed.count, 1);
    assert_eq!(c.pending_len(), 2);
}

#[test]
fn on_response_opens_a_record_for_a_redirect_target() {
    let mut c = seeded(false, 0);
    let url = c.pop_front().expect("seed pending");
    assert_eq!(url, "https://example.com/");
    // The fetch was redirected: the final URL was never queued.
    c.on_response("https://example.com/moved", 301, "<html></html>");
    let rec = c.record("https://example.com/moved").expect("fresh record");
    assert_eq!(rec.count, 1);
    assert_eq!(rec.status, 301);
    // The redirect target is not funneled into the frontier.
    assert_eq!(c.pending_len(), 0);
}

#[test]
fn on_response_failure_leaves_status_zero() {
    let mut c = seeded(false, 0);
    // A fetch that never completed records nothing: the seed keeps status 0.
    let rec = c.record("https://example.com/").unwrap();
    assert_eq!(rec.status, 0);
}

#[test]
fn whole_site_drain_terminates() {
    // A tiny acyclic site: / -> /a, /b; /a -> /b; /b -> nothing.
    let mut c = seeded(true, 0);
    let mut fetched: Vec<String> = vec![];
    while let Some(url) = c.pop_front() {
        let body = match url.as_str() {
            "https://example.com/" => "<a href=\"/a\">a</a><a href=\"/b\">b</a>",
            "https://example.com/a" => "<a href=\"/b\">b</a>",
            _ => "",
        };
        c.on_response(&url, 200, body);
        fetched.push(url);
    }
    assert_eq!(
        fetched,
        vec![
            "https://example.com/".to_string(),
            "https://example.com/a".to_string(),
            "https://example.com/b".to_string(),
        ],
    );
    assert_eq!(c.record("https://example.com/b").unwrap().count, 2);
    assert_eq!(c.record("https://example.com/b").unwrap().status, 200);
}

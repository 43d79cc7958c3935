use findw::search::{visit_page, visit_page_all_links, visit_page_serial, SearchTracker};
use findw::search_helpers::Path;
use findw::url_helpers::{InfoResult, UrlError, EMPTY_TITLE};

fn info(hrefs: &[&str], title: Option<&str>) -> InfoResult {
    InfoResult { child_hrefs: hrefs.iter().map(|s| s.to_string()).collect(), page_title: title.map(|s| s.to_string()) }
}

#[test]
fn visit_page_reports_and_expands() {
    let p = Path::new("http://localhost:8000/index.html").unwrap();
    let i = info(&["a.html", "a.html", "index.html"], Some("Jane Street"));
    let v = visit_page(&p, &i, "Street", 2, false);
    assert_eq!(v.found, Some(String::from("http://localhost:8000/index.html")));
    assert_eq!(v.children.len(), 1);
    assert_eq!(v.children[0].contents_array, vec![String::from("http://localhost:8000/index.html")]);

    let v = visit_page(&p, &i, "Street", 2, true);
    assert_eq!(v.found, Some(String::from("Jane Street")));
    assert_eq!(v.children[0].contents_array, vec![String::from("Jane Street")]);

    let v = visit_page(&p, &i, "nothing", 0, false);
    assert_eq!(v.found, None);
    assert!(v.children.is_empty());
}

#[test]
fn visit_page_without_title() {
    let p = Path::new("http://localhost:8000/index.html").unwrap();
    let i = info(&["a.html"], None);
    let v = visit_page(&p, &i, "", 1, true);
    assert_eq!(v.found, None);
    assert_eq!(v.children.len(), 1);
    assert_eq!(v.children[0].contents_array, vec![String::from(EMPTY_TITLE)]);
    let v = visit_page(&p, &i, "", 1, false);
    assert_eq!(v.children[0].contents_array, vec![String::from("http://localhost:8000/index.html")]);
}

#[test]
fn visit_page_all_links_follows_repeats() {
    let p = Path::new("http://localhost:8000/index.html").unwrap();
    let i = info(&["a.html", "a.html"], Some("T"));
    let v = visit_page_all_links(&p, &i, "T", 1);
    assert_eq!(v.found, Some(String::from("http://localhost:8000/index.html")));
    assert_eq!(v.children.len(), 2);
}

#[test]
fn visit_page_serial_fails_on_bad_link() {
    let p = Path::new("http://localhost:8000/index.html").unwrap();
    let i = info(&["a.html", "http://127.0.0.1/"], Some("T"));
    let v = visit_page_serial(&p, &i, "T", 1);
    assert_eq!(v.found, Some(String::from("http://localhost:8000/index.html")));
    let e = v.children.unwrap_err();
    assert_eq!(e.error, UrlError::NoDomain);
    assert_eq!(e.href, "http://127.0.0.1/");
    let v = visit_page_serial(&p, &i, "T", 0);
    assert!(v.children.unwrap().is_empty());
    assert_eq!(v.found, Some(String::from("http://localhost:8000/index.html")));
}

#[test]
fn tracker_closes_after_last_path() {
    let mut t = SearchTracker::new();
    assert_eq!(t.pending(), 1);
    t.child_sent();
    t.child_sent();
    assert_eq!(t.pending(), 3);
    assert!(!t.task_done());
    assert!(!t.task_done());
    t.child_sent();
    assert!(!t.task_done());
    assert!(t.task_done());
    assert_eq!(t.pending(), 0);
}

#[test]
fn tracker_withdraws_failed_sends() {
    let mut t = SearchTracker::new();
    t.child_sent();
    t.child_sent();
    t.child_not_sent();
    assert_eq!(t.pending(), 2);
    assert!(!t.task_done());
    assert!(t.task_done());
}

#[test]
fn tracker_start_alone() {
    let mut t = SearchTracker::new();
    assert!(t.task_done());
}

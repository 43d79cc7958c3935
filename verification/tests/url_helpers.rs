use std::collections::HashSet;
use findw::url_helpers::{
    info_from_html, is_relative, parse_base_url, url_components, InfoResult, ParsedUrl, UrlError, EMPTY_TITLE,
};

#[test]
fn test_get_base_url() {
    let local = "http://localhost:8000/index.html";
    let res = parse_base_url(local);
    assert!(res.is_ok());

    let res = res.unwrap();
    assert_eq!("http://localhost:8000/", res.base.to_string());
    assert_eq!("http://localhost:8000/index.html", res.get_full_url());

    let norm = "https://blog.janestreet.com/what-the-interns-have-wrought-2023/";
    let res = parse_base_url(norm);
    assert!(res.is_ok());

    let res = res.unwrap();
    assert_eq!("https://blog.janestreet.com/", res.base.to_string());
    assert_eq!("https://blog.janestreet.com/what-the-interns-have-wrought-2023/", res.get_full_url());

    // nested relative
    let res2 = parse_base_url("https://blog.janestreet.com/author/yminsky/").unwrap();
    assert_eq!(&res2.base.to_string(), "https://blog.janestreet.com/");
    assert_eq!(&res2.relative, "/author/yminsky/");
    assert_eq!(&res2.get_full_url(), "https://blog.janestreet.com/author/yminsky/");
}

#[test]
fn test_get_base_url_err() {
    let url = "badurl";
    let res = parse_base_url(url);
    assert!(res.is_err());
}

#[test]
fn test_is_relative() {
    assert_eq!(is_relative("http://localhost:8000/info.html"), false);
    assert_eq!(is_relative("https://blog.janestreet.com/what-the-interns-have-wrought-2023/"), false);
    assert_eq!(is_relative("info.html"), true);
    assert_eq!(is_relative("/info.html"), true);
}

#[test]
fn test_get_new_parsed_url() {
    let loc = "http://localhost:8000/info.html";
    let url = parse_base_url(loc).unwrap();
    let url2 = url.get_new_parsed_url(String::from("about.html")).unwrap();
    assert_eq!(url2.to_string(), "http://localhost:8000/about.html");

    // should ignore if absolute i.e just call parse_base
    let new_href = String::from("https://blog.janestreet.com/what-the-interns-have-wrought-2023/");
    let url2 = url.get_new_parsed_url(new_href).unwrap();
    assert_eq!(url2.to_string(), "https://blog.janestreet.com/what-the-interns-have-wrought-2023/");
}

#[test]
fn test_hash_parsed_url() {
    // Addresses are equal, and hash alike, by their full address: the same
    // address parsed twice counts once.
    let url_str = "https://blog.janestreet.com/what-the-interns-have-wrought-2023/";
    let url = parse_base_url(&url_str).unwrap();

    let url_copy = parse_base_url(&url_str).unwrap();

    let url2 = "https://www.janestreet.com/";
    let url2 = parse_base_url(url2).unwrap();

    let mut h: HashSet<String> = HashSet::new();

    h.insert(url.get_full_url());
    h.insert(url_copy.get_full_url());
    h.insert(url2.clone().get_full_url());
    h.insert(url2.get_full_url());

    assert_eq!(h.len(), 2);
    assert!(url == url_copy);
}

#[test]
fn is_relative_edge_cases() {
    assert!(is_relative(""));
    assert!(is_relative("//cdn.example.com/x"));
    assert!(is_relative("?q=1"));
    assert!(is_relative("#top"));
    assert!(is_relative("1ab:x"));
    assert!(is_relative("a b:x"));
    assert!(is_relative(":x"));
    assert!(is_relative("no-colon-here"));
    assert!(!is_relative("HTTP://upper.example/"));
    assert!(!is_relative("ftp://example.com/"));
    assert!(!is_relative("mailto:a@b.com"));
    assert!(!is_relative("javascript:void(0)"));
    assert!(!is_relative("svn+ssh://host/x"));
    assert!(!is_relative("http:"));
}

#[test]
fn parse_base_url_keeps_port_and_drops_query() {
    let u = parse_base_url("http://example.com:8080/a/b?x=1#frag").unwrap();
    assert_eq!(u.base, "http://example.com:8080/");
    assert_eq!(u.relative, "/a/b");
    assert_eq!(u.get_full_url(), "http://example.com:8080/a/b");
}

#[test]
fn parse_base_url_default_port_is_dropped() {
    let u = parse_base_url("https://example.com:443/x").unwrap();
    assert_eq!(u.base, "https://example.com/");
    assert_eq!(u.relative, "/x");
}

#[test]
fn parse_base_url_errors() {
    assert_eq!(parse_base_url("badurl").unwrap_err(), UrlError::InvalidUrl);
    assert_eq!(parse_base_url("http://127.0.0.1:8000/x").unwrap_err(), UrlError::NoDomain);
    assert_eq!(parse_base_url("mailto:someone@example.com").unwrap_err(), UrlError::NoDomain);
}

#[test]
fn url_components_reads_parts() {
    let p = url_components("http://localhost:8000/a/b.html?q=1").unwrap();
    assert_eq!(p.serialization, "http://localhost:8000/a/b.html?q=1");
    assert_eq!(p.scheme, "http");
    assert_eq!(p.domain, Some(String::from("localhost")));
    assert_eq!(p.port, Some(8000));
    assert_eq!(p.path, "/a/b.html");
    assert_eq!(url_components("not a url").unwrap_err(), UrlError::InvalidUrl);
}

#[test]
fn relative_link_keeps_base() {
    let base = parse_base_url("http://localhost:8000/dir/page.html").unwrap();
    let child = base.get_new_parsed_url(String::from("other.html")).unwrap();
    assert_eq!(child.base, base.base);
    assert_eq!(child.relative, "other.html");
    assert_eq!(child.get_full_url(), "http://localhost:8000/other.html");
    let child = base.get_new_parsed_url(String::from("/root.html")).unwrap();
    assert_eq!(child.get_full_url(), "http://localhost:8000/root.html");
}

#[test]
fn absolute_link_errors_pass_through() {
    let base = parse_base_url("http://localhost:8000/").unwrap();
    assert_eq!(base.get_new_parsed_url(String::from("http://127.0.0.1/")).unwrap_err(), UrlError::NoDomain);
    assert_eq!(base.get_new_parsed_url(String::from("mailto:a@b.com")).unwrap_err(), UrlError::NoDomain);
}

#[test]
fn unresolvable_link_has_no_full_address() {
    let base = parse_base_url("http://localhost:8000/").unwrap();
    let child = base.get_new_parsed_url(String::from("//")).unwrap();
    assert_eq!(child.full_url(), None);
    assert!(base.full_url().is_some());
}

#[test]
fn parsed_url_equality_is_by_full_address() {
    let a = parse_base_url("http://localhost:8000/x.html").unwrap();
    let b = parse_base_url("http://localhost:8000/").unwrap().get_new_parsed_url(String::from("x.html")).unwrap();
    assert_ne!(a.relative, b.relative);
    assert!(a == b);
    let c = parse_base_url("http://localhost:8000/y.html").unwrap();
    assert!(a != c);
}

#[test]
fn info_from_html_reads_links_and_title() {
    let html = "<html><head><title>Hello</title></head><body>\
        <a href=\"a.html\">A</a><a>no link</a>\
        <a class=\"mw-jump-link\" href=\"#skip\">skip</a>\
        <a href=\"https://example.com/\">B</a></body></html>";
    let info = info_from_html(html).unwrap();
    assert_eq!(info.child_hrefs, vec![String::from("a.html"), String::from("https://example.com/")]);
    assert_eq!(info.page_title, Some(String::from("Hello")));
}

#[test]
fn info_title_missing_and_empty() {
    let info = info_from_html("<html><body><a href=\"x\">x</a></body></html>").unwrap();
    assert_eq!(info.page_title, None);
    let info = info_from_html("<html><head><title></title></head></html>").unwrap();
    assert_eq!(info.page_title, None);
}

#[test]
fn info_from_selection_keeps_present_links() {
    let info = InfoResult::from_selection(
        vec![None, Some(String::from("a")), None, Some(String::from("b"))],
        vec![String::from("First"), String::from("Second")],
    );
    assert_eq!(info.child_hrefs, vec![String::from("a"), String::from("b")]);
    assert_eq!(info.page_title, Some(String::from("First")));
    let info = InfoResult::from_selection(vec![], vec![]);
    assert_eq!(info.page_title, None);
    let info = InfoResult::from_selection(vec![], vec![String::new()]);
    assert_eq!(info.page_title, None);
}

#[test]
fn info_result_text_form() {
    let info = InfoResult { child_hrefs: vec![String::from("a"), String::from("b\"c")], page_title: Some(String::from("T")) };
    assert_eq!(info.to_string(), "(title: 'T', children: [\"a\", \"b\\\"c\"])");
    let info = InfoResult { child_hrefs: vec![], page_title: None };
    assert_eq!(info.to_string(), format!("(title: '{}', children: [])", EMPTY_TITLE));
}

use findw::search_helpers::{contains_string, insert_sorted, Message, Path};
use findw::url_helpers::{parse_base_url, UrlError};

#[test]
fn search2_test_path_add_info() {
    let url = "https://blog.janestreet.com/what-the-interns-have-wrought-2023/";
    let path = Path::new(&url).unwrap();

    let jane = "https://www.janestreet.com/";
    let new_url = parse_base_url(jane).unwrap();
    let add = new_url.clone();

    let path2 = path.add_info(new_url, Some(String::from("Home :: Jane Street")));
    assert_eq!(path2.to_string(), "(depth: 1, path: Home :: Jane Street, vis:[https://blog.janestreet.com/what-the-interns-have-wrought-2023/, https://www.janestreet.com/], latest_url:https://www.janestreet.com/)");

    path2.add_info(add, Some(String::from("Home :: Jane Street")));
    println!("{}", path2.to_string());
}

#[test]
fn search_helpers_test_path_add_info() {
    let url = "https://blog.janestreet.com/what-the-interns-have-wrought-2023/";
    let path = Path::new(&url).unwrap();

    let jane = "https://www.janestreet.com/";
    let new_url = parse_base_url(jane).unwrap();
    let add = new_url.clone();

    let path2 = path.add_info(new_url, Some(String::from("Home :: Jane Street")));
    assert_eq!(path2.to_string(), "(depth: 1, path: Home :: Jane Street, vis:[https://blog.janestreet.com/what-the-interns-have-wrought-2023/, https://www.janestreet.com/], latest_url:https://www.janestreet.com/)");

    path2.add_info(add, Some(String::from("Home :: Jane Street")));
    println!("{}", path2.to_string());
}

#[test]
fn new_path_holds_start_only() {
    let p = Path::new("http://localhost:8000/index.html").unwrap();
    assert_eq!(p.depth, 0);
    assert!(p.contents_array.is_empty());
    assert_eq!(p.path_vis, vec![String::from("http://localhost:8000/index.html")]);
    assert_eq!(p.to_string(), "(depth: 0, path: [], vis:[http://localhost:8000/index.html], latest_url:http://localhost:8000/index.html)");
    assert_eq!(Path::new("badurl").unwrap_err(), UrlError::InvalidUrl);
    assert_eq!(Path::new("http://10.0.0.1/").unwrap_err(), UrlError::NoDomain);
}

#[test]
fn add_info_keeps_visited_sorted_and_unique() {
    let p = Path::new("http://localhost:8000/m.html").unwrap();
    let u = parse_base_url("http://localhost:8000/z.html").unwrap();
    let p = p.add_info(u.clone(), None);
    let a = parse_base_url("http://localhost:8000/a.html").unwrap();
    let p = p.add_info(a, Some(String::from("Z")));
    assert_eq!(p.depth, 2);
    assert_eq!(p.contents_array, vec![String::from("Z")]);
    assert_eq!(
        p.path_vis,
        vec![
            String::from("http://localhost:8000/a.html"),
            String::from("http://localhost:8000/m.html"),
            String::from("http://localhost:8000/z.html"),
        ]
    );
    // Visiting a visited address again leaves the set as it is.
    let p2 = p.add_info(u.clone(), None);
    assert_eq!(p2.path_vis.len(), 3);
    assert_eq!(p2.depth, 3);
    assert!(p2.is_visited(&u));
    assert_eq!(p2.get_most_recent_url().get_full_url(), "http://localhost:8000/z.html");
    assert_eq!(p.to_string(), "(depth: 2, path: Z, vis:[http://localhost:8000/a.html, http://localhost:8000/m.html, http://localhost:8000/z.html], latest_url:http://localhost:8000/a.html)");
}

#[test]
fn is_visited_by_full_address() {
    let p = Path::new("http://localhost:8000/index.html").unwrap();
    let base = parse_base_url("http://localhost:8000/").unwrap();
    let same = base.get_new_parsed_url(String::from("index.html")).unwrap();
    let other = base.get_new_parsed_url(String::from("about.html")).unwrap();
    assert!(p.is_visited(&same));
    assert!(!p.is_visited(&other));
}

#[test]
fn print_path_joins_titles() {
    let p = Path::new("http://localhost:8000/").unwrap();
    assert_eq!(p.print_path("Last"), "Last");
    let u = parse_base_url("http://localhost:8000/a").unwrap();
    let p = p.add_info(u, Some(String::from("One")));
    let u = parse_base_url("http://localhost:8000/b").unwrap();
    let p = p.add_info(u, Some(String::from("Two")));
    assert_eq!(p.print_path("Last"), "One => Two => Last");
    assert_eq!(p.to_string(), "(depth: 2, path: OneTwo, vis:[http://localhost:8000/, http://localhost:8000/a, http://localhost:8000/b], latest_url:http://localhost:8000/b)");
}

#[test]
fn print_path_with_only_empty_titles() {
    let p = Path::new("http://localhost:8000/").unwrap();
    let u = parse_base_url("http://localhost:8000/a").unwrap();
    let p = p.add_info(u, Some(String::new()));
    assert_eq!(p.print_path("Last"), "Last");
}

#[test]
fn goal_test_on_title_cases() {
    let p = Path::new("http://localhost:8000/").unwrap();
    let u = parse_base_url("http://localhost:8000/a").unwrap();
    let p = p.add_info(u, Some(String::from("Start")));
    assert_eq!(
        p.goal_test_on_title(&Some(String::from("Jane Street Blog")), "Street", "here"),
        Some(String::from("Start => here"))
    );
    assert_eq!(p.goal_test_on_title(&Some(String::from("Jane Street Blog")), "street", "here"), None);
    assert_eq!(p.goal_test_on_title(&None, "", "here"), None);
    assert_eq!(p.goal_test_on_title(&Some(String::new()), "", "here"), Some(String::from("Start => here")));
}

#[test]
fn next_paths_skip_visited_bad_and_repeated_links() {
    let p = Path::new("http://localhost:8000/index.html").unwrap();
    let hrefs = vec![
        String::from("about.html"),
        String::from("index.html"),
        String::from("http://127.0.0.1/"),
        String::from("about.html"),
        String::from("//"),
        String::from("https://example.com/x"),
    ];
    let title = Some(String::from("Index"));
    let kids = p.next_paths(&hrefs, &title, true);
    assert_eq!(kids.len(), 2);
    assert_eq!(kids[0].get_most_recent_url().get_full_url(), "http://localhost:8000/about.html");
    assert_eq!(kids[1].get_most_recent_url().get_full_url(), "https://example.com/x");
    for k in &kids {
        assert_eq!(k.depth, 1);
        assert_eq!(k.contents_array, vec![String::from("Index")]);
        assert_eq!(k.path_vis.len(), 2);
    }
    let all = p.next_paths(&hrefs, &title, false);
    assert_eq!(all.len(), 3);
    assert_eq!(all[1].get_most_recent_url().get_full_url(), "http://localhost:8000/about.html");
}

#[test]
fn next_paths_strict_stops_at_first_bad_link() {
    let p = Path::new("http://localhost:8000/index.html").unwrap();
    let hrefs = vec![String::from("a.html"), String::from("http://127.0.0.1/"), String::from("//")];
    let e = p.next_paths_strict(&hrefs, &None).unwrap_err();
    assert_eq!(e.error, UrlError::NoDomain);
    assert_eq!(e.href, "http://127.0.0.1/");
    let hrefs = vec![String::from("a.html"), String::from("//")];
    let e = p.next_paths_strict(&hrefs, &None).unwrap_err();
    assert_eq!(e.error, UrlError::Unjoinable);
    assert_eq!(e.href, "//");
    let hrefs = vec![String::from("a.html"), String::from("index.html"), String::from("a.html")];
    let kids = p.next_paths_strict(&hrefs, &None).unwrap();
    assert_eq!(kids.len(), 2);
    assert!(kids[0].contents_array.is_empty());
}

#[test]
fn sorted_insert_and_membership() {
    let mut v: Vec<String> = Vec::new();
    for s in ["b", "a", "c", "a", "ab", ""] {
        insert_sorted(&mut v, String::from(s));
    }
    assert_eq!(v, vec!["", "a", "ab", "b", "c"]);
    assert!(contains_string(&v, &String::from("ab")));
    assert!(!contains_string(&v, &String::from("abc")));
}

#[test]
fn message_holds_a_path() {
    let p = Path::new("http://localhost:8000/").unwrap();
    let m = Message::PathRcv(p);
    assert!(matches!(m, Message::PathRcv(_)));
    assert!(matches!(Message::Close, Message::Close));
}

use implicit::routes::{dispatch, Dispatch, RouteBuilder};
use implicit::static_file::content_type;

fn table() -> RouteBuilder<u32> {
    RouteBuilder::try_new(vec![
        (Some("GET".to_string()), r"^/api/(\w+)$".to_string(), 1),
        (None, r"^/api/(\w+)/(\d+)$".to_string(), 2),
        (None, r"^/(.*)$".to_string(), 3),
    ])
    .unwrap()
}

fn groups(v: &[&str]) -> Vec<Option<String>> {
    v.iter().map(|s| Some(s.to_string())).collect()
}

#[test]
fn most_capture_groups_win() {
    let t = table();
    let (v, caps) = t.match_path("GET", "/api/foo/12").unwrap();
    assert_eq!(*v, 2);
    assert_eq!(caps, groups(&["/api/foo/12", "foo", "12"]));
}

#[test]
fn earliest_route_wins_a_tie() {
    let t = table();
    let (v, caps) = t.match_path("GET", "/api/foo").unwrap();
    assert_eq!(*v, 1);
    assert_eq!(caps, groups(&["/api/foo", "foo"]));
}

#[test]
fn method_must_match() {
    let t = table();
    let (v, caps) = t.match_path("POST", "/api/foo").unwrap();
    assert_eq!(*v, 3);
    assert_eq!(caps, groups(&["/api/foo", "api/foo"]));
}

#[test]
fn no_route_applies() {
    let t = RouteBuilder::try_new(vec![(Some("GET".to_string()), r"^/a$".to_string(), 'a')]).unwrap();
    assert!(t.match_path("GET", "/b").is_none());
    assert!(t.match_path("PUT", "/a").is_none());
    assert_eq!(*t.match_path("GET", "/a").unwrap().0, 'a');
    let empty: RouteBuilder<u8> = RouteBuilder::try_new(vec![]).unwrap();
    assert!(empty.match_path("GET", "/").is_none());
}

#[test]
fn optional_groups_may_stay_empty() {
    let t = RouteBuilder::try_new(vec![(None, r"^/x(/(\d+))?$".to_string(), 0)]).unwrap();
    let (_, caps) = t.match_path("GET", "/x").unwrap();
    assert_eq!(caps, vec![Some("/x".to_string()), None, None]);
}

#[test]
fn bad_patterns_are_refused() {
    assert!(RouteBuilder::try_new(vec![(None, "(".to_string(), 0), (None, "a".to_string(), 1)]).is_none());
}

#[test]
fn media_types() {
    assert_eq!(content_type("dist/index.html"), "text/html");
    assert_eq!(content_type("dist/app.js"), "text/javascript");
    assert_eq!(content_type("img/logo.png"), "image/png");
    assert_eq!(content_type("README"), "application/octet-stream");
}

#[test]
fn static_files_come_first() {
    assert_eq!(dispatch(true, true), Dispatch::StaticFile);
    assert_eq!(dispatch(true, false), Dispatch::StaticFile);
    assert_eq!(dispatch(false, true), Dispatch::Handler);
    assert_eq!(dispatch(false, false), Dispatch::NotFound);
}

use euv_app::cache::CacheError;
use euv_app::snapshot::{
    check_page_text, check_resource_count, cleaned_paths, dependency_requests, extra_dependencies,
    js_files_to_scan, page_text, snapshot_next, SnapshotAction,
    missing_resource_error, missing_wasm_error, page_resource_paths, resource_requests,
    snapshot_expected_paths, wasm_to_verify,
};

fn s(v: &[&str]) -> Vec<String> {
    v.iter().map(|x| x.to_string()).collect()
}

fn message(e: CacheError) -> String {
    match e {
        CacheError::Fetch(m) => m,
        other => panic!("unexpected {:?}", other),
    }
}

const PAGE: &str = "<html><head><script type=\"module\">import init from './pkg/app.js';</script>\
<link rel=\"stylesheet\" href=\"style.css\"><link href=\"https://fonts/x.css\">\
<script src=\"./pkg/app.js\"></script><img src=\"data:image/png;base64,AA\"><img src='/logo.png'></head></html>";

#[test]
fn page_resources_in_discovery_order() {
    let p = page_resource_paths(PAGE);
    assert_eq!(
        p,
        s(&["./pkg/app.js", "style.css", "https://fonts/x.css", "data:image/png;base64,AA", "/logo.png"])
    );
}

#[test]
fn expected_paths_exclude_external() {
    let p = snapshot_expected_paths(PAGE);
    assert_eq!(p, s(&["./pkg/app.js", "style.css", "/logo.png"]));
    assert_eq!(cleaned_paths(&p), s(&["pkg/app.js", "style.css", "logo.png"]));
}

#[test]
fn page_resources_any_case_and_any_text() {
    assert_eq!(page_resource_paths("<SCRIPT SRC=\"a.js\"></SCRIPT>"), s(&["a.js"]));
    assert_eq!(page_resource_paths("<img \u{130} src=\u{e9}\u{e9}>"), Vec::<String>::new());
    assert_eq!(snapshot_expected_paths("<Img Src='\u{e9}.png'>"), s(&["\u{e9}.png"]));
}

#[test]
fn requests_join_base_and_clean_path() {
    let r = resource_requests(&s(&["./a.js", "https://x/y.js", "//cdn/z.js", "/b.css", "data:x"]), "https://h/app");
    assert_eq!(
        r,
        vec![
            ("a.js".to_string(), "https://h/app/a.js".to_string()),
            ("b.css".to_string(), "https://h/app/b.css".to_string()),
        ]
    );
}

#[test]
fn snapshot_errors() {
    assert_eq!(message(check_page_text("").unwrap_err()), "empty HTML");
    assert!(check_page_text("<html>").is_ok());
    assert_eq!(
        message(check_resource_count(0, 2).unwrap_err()),
        "incomplete snapshot: no resources fetched"
    );
    assert!(check_resource_count(0, 0).is_ok());
    assert!(check_resource_count(3, 2).is_ok());
    assert_eq!(message(missing_resource_error("a.js")), "incomplete snapshot: missing a.js");
    assert_eq!(message(missing_wasm_error("b.wasm")), "incomplete snapshot: missing WASM b.wasm");
}

#[test]
fn scripts_to_scan() {
    let r = js_files_to_scan(&s(&["a.js", "b.css", "a.js", "m.mjs"]), &s(&["x.js", "y.wasm", "x.mjs"]));
    assert_eq!(r, s(&["a.js", "m.mjs", "pkg/x.js", "pkg/x.mjs"]));
    let r = js_files_to_scan(&s(&["pkg/x.js"]), &s(&["x.js"]));
    assert_eq!(r, s(&["pkg/x.js"]));
}

#[test]
fn wasm_paths_to_verify() {
    let files = vec![
        ("pkg/app.js".to_string(), "init('app_bg.wasm')".to_string()),
        ("main.js".to_string(), "load(\"/pkg/app_bg.wasm\"); load('./w.wasm')".to_string()),
    ];
    assert_eq!(wasm_to_verify(&files), s(&["pkg/app_bg.wasm", "pkg/app_bg.wasm", "w.wasm"]));
    let unquoted = vec![("a.js".to_string(), format!("{}a.wasm", "\u{e9}".repeat(40)))];
    assert_eq!(wasm_to_verify(&unquoted), Vec::<String>::new());
}

fn pairs(v: &[(&str, &str)]) -> Vec<(String, String)> {
    v.iter().map(|(a, b)| (a.to_string(), b.to_string())).collect()
}

#[test]
fn extra_dependencies_skip_fetched() {
    let fetched = vec![
        (
            "app.js".to_string(),
            "https://h/app/app.js".to_string(),
            b"import x from './dep.js'; fetch('app_bg.wasm'); import y from './new.js'".to_vec(),
        ),
        ("dep.js".to_string(), "https://h/app/dep.js".to_string(), b"import z from './new.js'".to_vec()),
        ("s.css".to_string(), "https://h/app/s.css".to_string(), b"from './ignored.js'".to_vec()),
    ];
    assert_eq!(
        extra_dependencies(&fetched),
        pairs(&[("app_bg.wasm", "https://h/app/app_bg.wasm"), ("new.js", "https://h/app/new.js")])
    );
}

#[test]
fn extra_dependencies_read_invalid_utf8_lossily() {
    let fetched = vec![(
        "a.js".to_string(),
        "https://h/a.js".to_string(),
        vec![0xff, b'f', b'r', b'o', b'm', b' ', b'\'', b'.', b'/', b'b', b'\''],
    )];
    assert_eq!(extra_dependencies(&fetched), pairs(&[("b", "https://h/b")]));
}

#[test]
fn dependencies_follow_the_script_final_url() {
    let body = b"new URL('app_bg.wasm', import.meta.url); import m from './m.js'; load('https://x/y.wasm')";
    assert_eq!(
        dependency_requests("pkg/app.js", "https://cdn.example/v2/app.js", body),
        pairs(&[
            ("pkg/app_bg.wasm", "https://cdn.example/v2/app_bg.wasm"),
            ("m.js", "https://cdn.example/v2/m.js"),
        ])
    );
    assert_eq!(dependency_requests("style.css", "https://h/style.css", body), Vec::new());
}

#[test]
fn page_text_decodes_and_rejects_empty() {
    assert_eq!(page_text(b"<html>").unwrap(), "<html>");
    assert_eq!(page_text(&[0xff, b'a']).unwrap(), "\u{fffd}a");
    assert_eq!(message(page_text(b"").unwrap_err()), "empty HTML");
}

#[test]
fn snapshot_switches_only_when_complete() {
    let expected = s(&["a.js", "b.css"]);
    let wasm = s(&["pkg/app_bg.wasm"]);
    assert!(matches!(snapshot_next(2, &expected, &vec![true, true], &wasm, &vec![true]), SnapshotAction::Switch));
    assert!(matches!(snapshot_next(0, &Vec::new(), &Vec::new(), &Vec::new(), &Vec::new()), SnapshotAction::Switch));
    let abandon = |a: SnapshotAction| match a {
        SnapshotAction::Abandon(e) => message(e),
        SnapshotAction::Switch => panic!("switched"),
    };
    assert_eq!(
        abandon(snapshot_next(0, &expected, &vec![true, true], &wasm, &vec![true])),
        "incomplete snapshot: no resources fetched"
    );
    assert_eq!(
        abandon(snapshot_next(2, &expected, &vec![true, false], &wasm, &vec![false])),
        "incomplete snapshot: missing b.css"
    );
    assert_eq!(
        abandon(snapshot_next(2, &expected, &vec![true], &wasm, &vec![true])),
        "incomplete snapshot: missing b.css"
    );
    assert_eq!(
        abandon(snapshot_next(2, &expected, &vec![true, true], &wasm, &vec![false])),
        "incomplete snapshot: missing WASM pkg/app_bg.wasm"
    );
}

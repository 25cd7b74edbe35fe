use euv_app::serve::{
    cache_source, cached_page, file_response, index_scripts, inject_scripts, internal_error_response,
    is_index_path, next_wait_millis, not_found_response, not_ready_response, replace_str, request_path,
    served_file_name, escapes_directory, DEBUG_PANEL_SCRIPT, IMMERSIVE_SCRIPT, RELOAD_LISTENER_SCRIPT,
};

fn headers(v: &[(String, String)]) -> Vec<(&str, &str)> {
    v.iter().map(|(a, b)| (a.as_str(), b.as_str())).collect()
}

#[test]
fn request_paths_are_decoded() {
    assert_eq!(request_path("/a%20b.js"), "a b.js");
    assert_eq!(request_path("//index.html"), "index.html");
    assert_eq!(request_path("/%zz%4"), "%zz%4");
    assert_eq!(request_path("/%E4%BD%A0"), "\u{4f60}");
    assert_eq!(request_path("/%ff"), "\u{fffd}");
    assert_eq!(request_path("/"), "");
}

#[test]
fn index_requests() {
    assert!(is_index_path(""));
    assert!(is_index_path("index.html"));
    assert!(!is_index_path("a.html"));
    assert_eq!(served_file_name(""), Some("index.html".to_string()));
    assert_eq!(served_file_name("index.html"), Some("index.html".to_string()));
    assert_eq!(served_file_name("pkg/a.js"), Some("pkg/a.js".to_string()));
}

#[test]
fn request_paths_cannot_leave_the_version_directory() {
    assert_eq!(served_file_name(&request_path("/%2Fetc%2Fpasswd")), None);
    assert_eq!(served_file_name(&request_path("/..%2F..%2Fsecret")), None);
    assert_eq!(served_file_name("a/../../b"), None);
    assert_eq!(served_file_name("a\\..\\b"), None);
    assert_eq!(served_file_name("\\x"), None);
    assert_eq!(served_file_name(".."), None);
    assert_eq!(served_file_name("a/.."), None);
    assert!(escapes_directory("/abs"));
    assert!(!escapes_directory("..a/b..c/.d"));
    assert_eq!(served_file_name("..a/b..c"), Some("..a/b..c".to_string()));
    assert_eq!(served_file_name("C:/Windows/win.ini"), None);
    assert_eq!(served_file_name("c:x"), None);
    assert_eq!(served_file_name(&request_path("/D%3A%5Csecret")), None);
    assert_eq!(served_file_name("1:x"), Some("1:x".to_string()));
    assert_eq!(served_file_name("ab:c"), Some("ab:c".to_string()));
}

#[test]
fn injection_places() {
    assert_eq!(inject_scripts("<html><head></head><body></body>", "<s>"), "<html><head><s></head><body></body>");
    assert_eq!(inject_scripts("<body class=x>y</body>", "<s>"), "<s><body class=x>y</body>");
    assert_eq!(inject_scripts("plain", "<s>"), "<s>plain");
}

#[test]
fn replacement() {
    assert_eq!(replace_str("a{{X}}b{{X}}", "{{X}}", "-"), "a-b-");
    assert_eq!(replace_str("aaa", "aa", "b"), "ba");
    assert_eq!(replace_str("none", "{{X}}", "-"), "none");
    assert_eq!(replace_str("abc", "", "-"), "-a-b-c-");
    assert_eq!(replace_str("", "", "-"), "-");
    assert_eq!(replace_str("\u{e9}x", "", "|"), "|\u{e9}|x|");
}

#[test]
fn scripts_for_index() {
    let base = format!("{}{}", IMMERSIVE_SCRIPT, RELOAD_LISTENER_SCRIPT);
    assert_eq!(index_scripts(false, "active", "/p"), base);
    assert!(base.contains("window.__EUV_IMMERSIVE__=true"));
    let d = index_scripts(true, "active", "/cache/v_1");
    assert!(d.starts_with(&base));
    assert!(d.contains("source: active | path: /cache/v_1"));
    assert!(!d.contains("{{"));
    let ns = DEBUG_PANEL_SCRIPT.matches("{{SOURCE}}").count();
    let np = DEBUG_PANEL_SCRIPT.matches("{{PATH}}").count();
    assert!(ns > 0 && np > 0);
    assert_eq!(
        d.len(),
        base.len() + DEBUG_PANEL_SCRIPT.len()
            - ns * "{{SOURCE}}".len() + ns * "active".len()
            - np * "{{PATH}}".len() + np * "/cache/v_1".len()
    );
}

#[test]
fn wasm_file_response() {
    let r = file_response("pkg/app_bg.wasm", vec![0, 97, 115, 109], "S");
    assert_eq!(r.status, 200);
    assert_eq!(
        headers(&r.headers),
        vec![
            ("Content-Type", "application/wasm"),
            ("Cache-Control", "no-store, no-cache, must-revalidate"),
            ("Pragma", "no-cache"),
            ("Access-Control-Allow-Origin", "*"),
            ("Cross-Origin-Embedder-Policy", "require-corp"),
            ("Cross-Origin-Opener-Policy", "same-origin"),
        ]
    );
    assert_eq!(r.body, vec![0, 97, 115, 109]);
}

#[test]
fn index_file_response() {
    let r = file_response("", b"<head></head>".to_vec(), "S");
    assert_eq!(r.body, b"<head>S</head>".to_vec());
    assert_eq!(headers(&r.headers)[0], ("Content-Type", "application/octet-stream"));
    let r = file_response("index.html", b"<p>".to_vec(), "S");
    assert_eq!(r.body, b"S<p>".to_vec());
    assert_eq!(headers(&r.headers)[0], ("Content-Type", "text/html"));
    assert_eq!(r.headers.len(), 4);
}

#[test]
fn error_responses() {
    let r = not_found_response();
    assert_eq!((r.status, r.body.as_slice()), (404, b"Not found".as_slice()));
    assert_eq!(headers(&r.headers), vec![("Content-Type", "text/plain")]);
    let r = internal_error_response();
    assert_eq!((r.status, r.body.as_slice(), r.headers.len()), (500, b"Internal error".as_slice(), 0));
    let r = not_ready_response();
    assert_eq!((r.status, r.body.as_slice(), r.headers.len()), (503, b"Cache not ready".as_slice(), 0));
}

#[test]
fn backoff() {
    assert_eq!(next_wait_millis(2), 4);
    assert_eq!(next_wait_millis(32), 64);
    assert_eq!(next_wait_millis(40), 64);
    assert_eq!(next_wait_millis(64), 64);
    let mut w = 2;
    for _ in 0..20 {
        let n = next_wait_millis(w);
        assert!(w <= n && n <= 64);
        w = n;
    }
}

#[test]
fn cached_page_metadata() {
    let p = cached_page(Some("/c/v_1".to_string()), "https://r/");
    assert!(p.from_cache);
    assert_eq!((p.source.as_str(), p.cache_path.as_str(), p.remote_url.as_str()), ("active", "/c/v_1", "https://r/"));
    let p = cached_page(None, "https://r/");
    assert!(!p.from_cache);
    assert_eq!((p.source.as_str(), p.cache_path.as_str()), ("none", ""));
    assert_eq!(cache_source(true), "active");
}

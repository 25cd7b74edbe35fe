use euv_app::paths::{clean_relative_path, derive_base_url, mime_for};

#[test]
fn clean_strips_leading_slashes_and_dot_slash() {
    assert_eq!(clean_relative_path("///./a/./b"), "a/./b");
    assert_eq!(clean_relative_path("./././x"), "x");
    assert_eq!(clean_relative_path("/.//./y.js"), "y.js");
    assert_eq!(clean_relative_path("../z"), "../z");
    assert_eq!(clean_relative_path(""), "");
}

#[test]
fn clean_is_idempotent() {
    for p in ["///./a", "./b/c", "d", "/./../e", "./"] {
        let once = clean_relative_path(p);
        assert_eq!(clean_relative_path(&once), once);
    }
}

#[test]
fn base_url_drops_last_segment() {
    assert_eq!(derive_base_url("https://example.com/app/index.html"), "https://example.com/app");
    assert_eq!(derive_base_url("https://a.com/x"), "https://a.com");
    assert_eq!(derive_base_url("https://example.com"), "https://example.com");
}

#[test]
fn base_url_of_directory_url_trims_slashes() {
    assert_eq!(derive_base_url("https://example.com/app/"), "https://example.com/app");
    assert_eq!(derive_base_url("https://example.com//"), "https://example.com");
    assert_eq!(derive_base_url("relative/path"), "relative");
}

#[test]
fn base_url_is_a_prefix() {
    for u in ["https://e.com/a/b", "https://e.com/", "x", "/", "a/b/c/"] {
        assert!(u.starts_with(derive_base_url(u).as_str()));
    }
}

#[test]
fn mime_types_by_extension() {
    assert_eq!(mime_for("index.html"), "text/html");
    assert_eq!(mime_for("a.HTM"), "text/html");
    assert_eq!(mime_for("app.mjs"), "application/javascript");
    assert_eq!(mime_for("pkg/app_bg.WASM"), "application/wasm");
    assert_eq!(mime_for("s.css"), "text/css");
    assert_eq!(mime_for("d.json"), "application/json");
    assert_eq!(mime_for("i.png"), "image/png");
    assert_eq!(mime_for("i.JPEG"), "image/jpeg");
    assert_eq!(mime_for("i.gif"), "image/gif");
    assert_eq!(mime_for("i.svg"), "image/svg+xml");
    assert_eq!(mime_for("favicon.ico"), "image/x-icon");
    assert_eq!(mime_for("f.woff"), "font/woff");
    assert_eq!(mime_for("f.woff2"), "font/woff2");
    assert_eq!(mime_for("f.ttf"), "font/ttf");
    assert_eq!(mime_for("f.otf"), "font/otf");
    assert_eq!(mime_for("i.webp"), "image/webp");
}

#[test]
fn mime_fallback() {
    assert_eq!(mime_for("noext"), "application/octet-stream");
    assert_eq!(mime_for("a.tar.gz"), "application/octet-stream");
    assert_eq!(mime_for(""), "application/octet-stream");
    assert_eq!(mime_for("dir.html/file"), "application/octet-stream");
}

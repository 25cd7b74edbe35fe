use euv_app::extract::{
    attr_value_in_tag, extract_attr_values, extract_module_imports, extract_quoted_value,
    extract_wasm_references,
};

#[test]
fn quoted_value_double_and_single() {
    assert_eq!(extract_quoted_value("  \"abc\" rest"), "abc");
    assert_eq!(extract_quoted_value("'x y'z"), "x y");
    assert_eq!(extract_quoted_value("\"a'b\""), "a'b");
}

#[test]
fn quoted_value_missing_or_unterminated() {
    assert_eq!(extract_quoted_value("abc"), "");
    assert_eq!(extract_quoted_value("\"unterminated"), "");
    assert_eq!(extract_quoted_value(""), "");
}

#[test]
fn quoted_value_skips_unicode_white_space() {
    assert_eq!(extract_quoted_value("\u{a0}\u{3000}\t'v'"), "v");
    assert_eq!(extract_quoted_value("\u{200b}'v'"), "");
}

#[test]
fn attr_values_case_insensitive_and_deduplicated() {
    let html = "<script src=\"a.js\"></script><script SRC='b.js'></script><SCRIPT src='c.js'><script src=\"a.js\"><script>x</script>";
    let mut v: Vec<String> = Vec::new();
    extract_attr_values(html, "SCRIPT", "src", &mut v);
    assert_eq!(v, vec!["a.js".to_string(), "b.js".to_string(), "c.js".to_string()]);
}

#[test]
fn attr_values_uppercase_tag_and_attribute() {
    let mut v: Vec<String> = Vec::new();
    extract_attr_values(r#"<SCRIPT SRC="a.js"></SCRIPT>"#, "script", "src", &mut v);
    assert_eq!(v, vec!["a.js".to_string()]);
}

#[test]
fn attr_values_keep_existing_and_skip_empty() {
    let html = "<link rel=\"stylesheet\" href=\"s.css\"><link href=\"\"><img src = 'i.png'>";
    let mut v: Vec<String> = vec!["s.css".to_string()];
    extract_attr_values(html, "link", "href", &mut v);
    assert_eq!(v, vec!["s.css".to_string()]);
    extract_attr_values(html, "img", "src", &mut v);
    assert_eq!(v, vec!["s.css".to_string()]);
    extract_attr_values("<img src='i.png'>", "IMG", "SRC", &mut v);
    assert_eq!(v, vec!["s.css".to_string(), "i.png".to_string()]);
}

#[test]
fn attr_values_unclosed_tag_stops_scan() {
    let mut v: Vec<String> = Vec::new();
    extract_attr_values("<script src='a.js'", "script", "src", &mut v);
    assert!(v.is_empty());
}

#[test]
fn attr_values_in_non_ascii_text() {
    let mut v: Vec<String> = vec!["keep".to_string()];
    extract_attr_values("<img \u{130} src=\u{e9}\u{e9}>", "img", "src", &mut v);
    assert_eq!(v, vec!["keep".to_string()]);
    extract_attr_values("<img \u{130} src='\u{e9}.png'><img src='ok.png'>", "img", "src", &mut v);
    assert_eq!(v, vec!["keep".to_string(), "\u{e9}.png".to_string(), "ok.png".to_string()]);
}

#[test]
fn module_imports_relative_only() {
    let src = "import a from './a.js'; import b from \"../b.js\"; import c from 'lodash'; export * from './a.js'; from";
    let mut v: Vec<String> = Vec::new();
    extract_module_imports(src, &mut v);
    assert_eq!(v, vec!["./a.js".to_string(), "../b.js".to_string()]);
}

#[test]
fn wasm_references_resolved_against_js_dir() {
    let js = "const u = new URL('app_bg.wasm', import.meta.url); fetch(\"x/y.wasm\");";
    let mut v: Vec<String> = Vec::new();
    extract_wasm_references(js, "pkg/app.js", &mut v);
    assert_eq!(v, vec!["pkg/app_bg.wasm".to_string(), "pkg/x/y.wasm".to_string()]);
    let js2 = "new URL(\"app_bg.wasm\", u); fetch(\"x/y.wasm\");".to_string();
    let mut w: Vec<String> = Vec::new();
    extract_wasm_references(&js2, "app.js", &mut w);
    assert_eq!(w, vec!["app_bg.wasm".to_string(), "x/y.wasm".to_string()]);
}

#[test]
fn wasm_literal_after_other_quote_kind() {
    let mut v: Vec<String> = Vec::new();
    extract_wasm_references(r#"f('a', "x.wasm")"#, "app.js", &mut v);
    assert_eq!(v, vec!["x.wasm".to_string()]);
}

#[test]
fn wasm_text_outside_literals_ignored() {
    let mut v: Vec<String> = Vec::new();
    extract_wasm_references("'a.wasm'+b.wasm'", "", &mut v);
    assert_eq!(v, vec!["a.wasm".to_string()]);
}

#[test]
fn wasm_literal_after_stray_apostrophe() {
    let js = format!(
        "// it's the loader{}\nconst a = 'x';\ninit('app_bg.wasm');\nlet s = \"don't\";\nload(\"w.wasm\")",
        " ".repeat(80)
    );
    let mut v: Vec<String> = Vec::new();
    extract_wasm_references(&js, "pkg/app.js", &mut v);
    assert_eq!(v, vec!["pkg/app_bg.wasm".to_string(), "pkg/w.wasm".to_string()]);
}

#[test]
fn wasm_references_skip_urls_spaces_and_unquoted() {
    let js = "load('https://cdn/x.wasm'); load('a b.wasm'); plain.wasm; load('ok.wasm'); load('ok.wasm')";
    let mut v: Vec<String> = Vec::new();
    extract_wasm_references(js, "", &mut v);
    assert_eq!(v, vec!["ok.wasm".to_string()]);
}

#[test]
fn wasm_long_and_non_ascii_literals() {
    let long = format!("'{}x.wasm'", "a".repeat(70));
    let mut v: Vec<String> = Vec::new();
    extract_wasm_references(&long, "", &mut v);
    assert_eq!(v, vec![format!("{}x.wasm", "a".repeat(70))]);
    let mut w: Vec<String> = Vec::new();
    extract_wasm_references(&format!("{}a.wasm", "\u{e9}".repeat(40)), "", &mut w);
    assert!(w.is_empty());
    extract_wasm_references("\"\u{e9}.wasm\"", "d\u{e9}/m.js", &mut w);
    assert_eq!(w, vec!["d\u{e9}/\u{e9}.wasm".to_string()]);
}

#[test]
fn attr_value_in_one_tag() {
    assert_eq!(attr_value_in_tag("<img SRC='A.png'", b"src="), "A.png");
    assert_eq!(attr_value_in_tag("<img alt=x", b"src="), "");
    assert_eq!(attr_value_in_tag("<img src=\u{e9}", b"src="), "");
    assert_eq!(attr_value_in_tag("<a", b"href="), "");
}

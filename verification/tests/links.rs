use queenshead::links::{check_references, PageHtml};

fn page(display: &str, html: &str) -> PageHtml {
    let path = display.strip_prefix("dist/").unwrap_or(display);
    PageHtml { display: display.to_string(), path: path.to_string(), html: html.to_string() }
}

fn written(paths: &[&str]) -> Vec<String> {
    paths.iter().map(|p| p.to_string()).collect()
}

#[test]
fn resolving_references_pass() {
    let pages = vec![page(
        "dist/index.html",
        r#"<a href="/">home</a><a href="/faq">faq</a><a href="/faq/#top">x</a><img src="/logo.1234abcd.png?v=1"><a href="https://elsewhere.example/x">out</a><a href="mailto:x">m</a>"#,
    )];
    let current = written(&["index.html", "faq/index.html", "logo.1234abcd.png"]);
    assert!(check_references(&pages, &current).is_ok());
}

#[test]
fn broken_references_are_listed_once_in_order() {
    let pages = vec![
        page("dist/index.html", r#"<a href="/missing">x</a><img src="/logo.png"><a href="/missing">again</a>"#),
        page("dist/faq/index.html", r#"<a href="/faq">ok</a><a href="/gone#frag">x</a>"#),
    ];
    let current = written(&["index.html", "faq/index.html"]);
    match check_references(&pages, &current) {
        Err(msg) => assert_eq!(
            msg,
            "references with nothing behind them:\n  dist/faq/index.html -> /gone#frag\n  dist/index.html -> /logo.png\n  dist/index.html -> /missing"
        ),
        Ok(()) => panic!("three references are broken"),
    }
}

#[test]
fn paths_compare_by_component() {
    let pages = vec![page("dist/index.html", r#"<a href="//faq//index.html">x</a><a href="/./faq">y</a>"#)];
    let current = written(&["faq/index.html"]);
    assert!(check_references(&pages, &current).is_ok());
}

#[test]
fn hand_written_relative_asset_path_fails() {
    let pages = vec![page("dist/index.html", r#"<img src="img/crowd.jpg">"#)];
    let current = written(&["index.html", "img/crowd.0a1b2c3d.jpg"]);
    match check_references(&pages, &current) {
        Err(msg) => assert_eq!(msg, "references with nothing behind them:\n  dist/index.html -> img/crowd.jpg"),
        Ok(()) => panic!("a hand-written asset path must fail the build"),
    }
}

#[test]
fn relative_references_resolve_from_the_page_directory() {
    let pages = vec![page(
        "dist/faq/index.html",
        r#"<img src="../logo.1234abcd.png"><a href="opening/">o</a><a href="./opening">p</a><a href="../../find-us?x=1">f</a><a href="?q=1">self</a>"#,
    )];
    let current = written(&["faq/index.html", "faq/opening/index.html", "find-us/index.html", "logo.1234abcd.png"]);
    assert!(check_references(&pages, &current).is_ok());
}

#[test]
fn relative_reference_misses_from_a_nested_page() {
    let pages = vec![page("dist/faq/index.html", r#"<img src="logo.1234abcd.png"><a href="../faq/">ok</a>"#)];
    let current = written(&["faq/index.html", "logo.1234abcd.png"]);
    match check_references(&pages, &current) {
        Err(msg) => assert_eq!(msg, "references with nothing behind them:\n  dist/faq/index.html -> logo.1234abcd.png"),
        Ok(()) => panic!("the logo is not under faq/"),
    }
}

#[test]
fn schemes_and_fragments_are_not_checked() {
    let pages = vec![page(
        "dist/index.html",
        r##"<a href="https://elsewhere.example/x">a</a><a href="mailto:bar@example.com">b</a><a href="tel:+441234567890">c</a><img src="data:image/png;base64,AAAA"><a href="#menu">d</a><a href="">e</a>"##,
    )];
    let current = written(&["index.html"]);
    assert!(check_references(&pages, &current).is_ok());
}

#[test]
fn a_colon_after_a_slash_is_no_scheme() {
    let pages = vec![page("dist/index.html", r#"<a href="a/b:c">x</a>"#)];
    let current = written(&["index.html"]);
    assert!(check_references(&pages, &current).is_err());
}

use queenshead::links::{empty_dirs, stale_files};

#[test]
fn stale_files_are_those_not_kept() {
    let files = written(&["index.html", "style.0badf00d.css", "style.12345678.css", "old/index.html", "faq/index.html"]);
    let keep = written(&["index.html", "faq/index.html", "style.12345678.css"]);
    assert_eq!(stale_files(&files, &keep), written(&["style.0badf00d.css", "old/index.html"]));
    let left = written(&["index.html", "style.12345678.css", "faq/index.html"]);
    assert!(stale_files(&left, &keep).is_empty());
}

#[test]
fn empty_dirs_are_removed_innermost_first() {
    let dirs = written(&["", "old", "old/deeper", "faq", "img", "img/gone", "img/gone/deepest"]);
    let keep = written(&["index.html", "faq/index.html", "img/logo.png"]);
    let out = empty_dirs(&dirs, &keep);
    assert_eq!(out, written(&["img/gone/deepest", "old/deeper", "img/gone", "old"]));
    let left = written(&["", "faq", "img"]);
    assert!(empty_dirs(&left, &keep).is_empty());
}

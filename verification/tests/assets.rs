use queenshead::assets::{published_name, rewrite_manifest, rewrite_stylesheet, Assets};
use sha2::{Digest, Sha256};

fn short_hash(body: &[u8]) -> String {
    format!("{:x}", Sha256::digest(body))[..8].to_string()
}

fn assets(files: &[(&str, &[u8])]) -> Assets {
    Assets::from_files(files.iter().map(|(n, b)| (n.to_string(), b.to_vec())).collect())
}

#[test]
fn published_name_puts_the_hash_before_the_extension() {
    let digest = [0xa1, 0xb2, 0xc3, 0xd4, 0xff, 0x00];
    assert_eq!(published_name("logo.png", &digest), "logo.a1b2c3d4.png");
    assert_eq!(published_name("img/crowd.jpg", &digest), "img/crowd.a1b2c3d4.jpg");
    assert_eq!(published_name("archive.tar.gz", &digest), "archive.tar.a1b2c3d4.gz");
    assert_eq!(published_name("LICENSE", &digest), "LICENSE.a1b2c3d4");
    assert_eq!(published_name("robots.txt", &digest), "robots.txt");
    assert_eq!(published_name("favicon.ico", &digest), "favicon.ico");
    assert_eq!(published_name("sitemap.xml", &digest), "sitemap.xml");
    assert_eq!(published_name("other.txt", &[0, 1, 2, 0x0f]), "other.0001020f.txt");
}

#[test]
fn href_hashes_the_body_and_records_the_name() {
    let mut a = assets(&[("logo.png", b"png bytes"), ("robots.txt", b"User-agent: *")]);
    let url = a.href("logo.png");
    assert_eq!(url, format!("/logo.{}.png", short_hash(b"png bytes")));
    assert_eq!(a.href("robots.txt"), "/robots.txt");
    assert_eq!(a.href("logo.png"), url);
}

#[test]
fn derive_changes_the_url_of_later_hrefs() {
    let mut a = assets(&[("style.css", b"old")]);
    let before = a.href("style.css");
    a.derive("style.css", b"new".to_vec());
    let after = a.href("style.css");
    assert_eq!(before, format!("/style.{}.css", short_hash(b"old")));
    assert_eq!(after, format!("/style.{}.css", short_hash(b"new")));
    assert_ne!(before, after);
}

#[test]
fn publish_lists_what_was_referenced_in_name_order() {
    let mut a = assets(&[
        ("favicon.ico", b"ico"),
        ("robots.txt", b"robots"),
        ("sitemap.xml", b"map"),
        ("unused.png", b"nobody asked"),
        ("b.png", b"bee"),
        ("a.png", b"ay"),
    ]);
    a.href("b.png");
    a.href("a.png");
    let (out, missing) = a.to_publish();
    assert!(missing.is_none());
    let files: Vec<&str> = out.iter().map(|p| p.file.as_str()).collect();
    let a_file = format!("a.{}.png", short_hash(b"ay"));
    let b_file = format!("b.{}.png", short_hash(b"bee"));
    assert_eq!(
        files,
        vec![a_file.as_str(), b_file.as_str(), "favicon.ico", "robots.txt", "sitemap.xml"]
    );
    assert_eq!(out[0].body, b"ay".to_vec());
}

#[test]
fn publish_fails_on_the_first_missing_name() {
    let a = assets(&[("favicon.ico", b"ico")]);
    let (written, missing) = a.to_publish();
    let files: Vec<&str> = written.iter().map(|p| p.file.as_str()).collect();
    assert_eq!(files, vec!["favicon.ico"]);
    assert_eq!(missing.map(|m| m.name), Some("robots.txt".to_string()));
}

#[test]
fn manifest_and_stylesheet_point_at_hashed_files() {
    let mut a = assets(&[
        ("icon-192.png", b"192"),
        ("icon-512.png", b"512"),
        ("icon-maskable.png", b"mask"),
        ("fraunces.woff2", b"f"),
        ("instrument-sans.woff2", b"i"),
    ]);
    let manifest = r#"{"icons":[{"src":"/icon-192.png"},{"src":"/icon-512.png"},{"src":"/icon-maskable.png"},{"src":"/icon-192.png"}]}"#;
    let out = rewrite_manifest(&mut a, manifest);
    let h192 = short_hash(b"192");
    let expected = format!(
        r#"{{"icons":[{{"src":"/icon-192.{h192}.png"}},{{"src":"/icon-512.{}.png"}},{{"src":"/icon-maskable.{}.png"}},{{"src":"/icon-192.{h192}.png"}}]}}"#,
        short_hash(b"512"),
        short_hash(b"mask")
    );
    assert_eq!(out, expected);

    let css = "@font-face{src:url(/fraunces.woff2)}@font-face{src:url(/instrument-sans.woff2)}";
    let out = rewrite_stylesheet(&mut a, css);
    assert_eq!(
        out,
        format!(
            "@font-face{{src:url(/fraunces.{}.woff2)}}@font-face{{src:url(/instrument-sans.{}.woff2)}}",
            short_hash(b"f"),
            short_hash(b"i")
        )
    );
    let (written, missing) = a.to_publish();
    assert!(written.is_empty());
    assert_eq!(missing.map(|m| m.name), Some("favicon.ico".to_string()));
}

#[test]
fn names_are_sorted_and_unique() {
    let mut a = assets(&[("b.png", b"1"), ("a.css", b"2"), ("b.png", b"3")]);
    a.derive("c.txt", b"4".to_vec());
    assert_eq!(a.names(), vec!["a.css".to_string(), "b.png".to_string(), "c.txt".to_string()]);
    assert!(a.has("c.txt"));
    assert!(!a.has("d.txt"));
    let url = a.href("b.png");
    assert_eq!(url, format!("/b.{}.png", short_hash(b"3")));
}

#[test]
fn string_set_keeps_code_point_order() {
    let mut s = queenshead::order::StrSet::new();
    for w in ["pear", "apple", "Zebra", "apple", "ápple", "app"] {
        s.insert(w.to_string());
    }
    let v = s.into_vec();
    assert_eq!(v, vec!["Zebra", "app", "apple", "pear", "ápple"]);
}

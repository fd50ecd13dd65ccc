use queenshead::routes::{nav_items, pages, sitemap, url};

#[test]
fn url_roots_every_slug() {
    assert_eq!(url(""), "/");
    assert_eq!(url("faq"), "/faq");
    assert_eq!(url("whats-on"), "/whats-on");
}

#[test]
fn pages_in_nav_order() {
    let slugs: Vec<&str> = pages().iter().map(|p| p.slug).collect();
    assert_eq!(slugs, vec!["", "whats-on", "sport", "find-us", "history", "faq"]);
    assert!(pages()[0].nav.is_none());
}

#[test]
fn nav_marks_the_current_page_only() {
    let nav = nav_items("sport");
    let labels: Vec<&str> = nav.iter().map(|n| n.label).collect();
    assert_eq!(labels, vec!["What's On", "Sport", "Find Us", "History", "FAQ"]);
    let current: Vec<bool> = nav.iter().map(|n| n.current).collect();
    assert_eq!(current, vec![false, true, false, false, false]);
    assert_eq!(nav[0].href, "/whats-on");
    assert!(nav_items("").iter().all(|n| !n.current));
}

#[test]
fn sitemap_lists_every_page() {
    let expected = "<?xml version=\"1.0\" encoding=\"UTF-8\"?>\n<urlset xmlns=\"http://www.sitemaps.org/schemas/sitemap/0.9\">\n  <url><loc>https://q.example/</loc></url>\n  <url><loc>https://q.example/whats-on</loc></url>\n  <url><loc>https://q.example/sport</loc></url>\n  <url><loc>https://q.example/find-us</loc></url>\n  <url><loc>https://q.example/history</loc></url>\n  <url><loc>https://q.example/faq</loc></url>\n</urlset>\n";
    assert_eq!(sitemap("https://q.example"), expected);
}

#[test]
fn pages_are_directory_indexes() {
    assert_eq!(queenshead::routes::page_file(""), "index.html");
    assert_eq!(queenshead::routes::page_file("find-us"), "find-us/index.html");
}

//! Pages are written as directory indexes (`dist/whats-on/index.html`), which
//! resolve for both `/whats-on` and `/whats-on/`. Internal links carry no
//! extension.

use vstd::prelude::*;
use crate::templates::NavItem;
use crate::text::str_eq;

verus! {

/// The site path of a page: `/` for the homepage, `/<slug>` otherwise.
pub open spec fn spec_url(slug: Seq<char>) -> Seq<char> {
    if slug.len() == 0 {
        seq!['/']
    } else {
        seq!['/'] + slug
    }
}

pub fn url(slug: &str) -> (r: String)
    ensures
        r@ == spec_url(slug@),
{
    let mut out = String::from_str("/");
    proof {
        reveal_strlit("/");
    }
    if !slug.is_empty() {
        out.append(slug);
    }
    out
}


/// Where a page is written, relative to `dist/`: as the index of its own
/// directory (`find-us/index.html`), the homepage as `index.html`.
pub fn page_file(slug: &str) -> (r: String)
    ensures
        r@ == (if slug@.len() == 0 {
            "index.html"@
        } else {
            slug@ + "/index.html"@
        }),
{
    if slug.is_empty() {
        String::from_str("index.html")
    } else {
        let mut out = String::from_str(slug);
        out.append("/index.html");
        out
    }
}

/// A page of the site.
pub struct Page {
    pub slug: &'static str,
    /// Shown in the nav. The homepage is reached by the mark, not by a nav item.
    pub nav: Option<&'static str>,
}

/// A page as its slug and its nav label, if it has one.
pub open spec fn page_view(p: Page) -> (Seq<char>, Option<Seq<char>>) {
    (
        p.slug@,
        match p.nav {
            Some(l) => Some(l@),
            None => None,
        },
    )
}

/// Every page of the site, in nav order.
pub open spec fn spec_pages() -> Seq<(Seq<char>, Option<Seq<char>>)> {
    seq![
        (""@, None),
        ("whats-on"@, Some("What's On"@)),
        ("sport"@, Some("Sport"@)),
        ("find-us"@, Some("Find Us"@)),
        ("history"@, Some("History"@)),
        ("faq"@, Some("FAQ"@)),
    ]
}

/// Every page of the site, in nav order.
pub fn pages() -> (r: Vec<Page>)
    ensures
        r@.map_values(|p: Page| page_view(p)) == spec_pages(),
{
    let r = vec![
        Page { slug: "", nav: None },
        Page { slug: "whats-on", nav: Some("What's On") },
        Page { slug: "sport", nav: Some("Sport") },
        Page { slug: "find-us", nav: Some("Find Us") },
        Page { slug: "history", nav: Some("History") },
        Page { slug: "faq", nav: Some("FAQ") },
    ];
    assert(r@.map_values(|p: Page| page_view(p)) =~= spec_pages());
    r
}

/// The nav of the page with slug `current`: each page that has a nav label, its
/// URL, and whether it is the page being shown.
pub open spec fn spec_nav(
    ps: Seq<(Seq<char>, Option<Seq<char>>)>,
    current: Seq<char>,
) -> Seq<(Seq<char>, Seq<char>, bool)>
    decreases ps.len(),
{
    if ps.len() == 0 {
        Seq::empty()
    } else {
        let r = spec_nav(ps.drop_last(), current);
        match ps.last().1 {
            Some(label) => r.push((spec_url(ps.last().0), label, ps.last().0 == current)),
            None => r,
        }
    }
}

pub open spec fn nav_view(n: NavItem) -> (Seq<char>, Seq<char>, bool) {
    (n.href@, n.label@, n.current)
}

/// The nav items for the page whose slug is `current`.
pub fn nav_items(current: &str) -> (r: Vec<NavItem>)
    ensures
        r@.map_values(|n: NavItem| nav_view(n)) == spec_nav(spec_pages(), current@),
{
    let ps = pages();
    let ghost view = ps@.map_values(|p: Page| page_view(p));
    let mut out: Vec<NavItem> = Vec::new();
    let mut i: usize = 0;
    assert(view.take(0) =~= Seq::<(Seq<char>, Option<Seq<char>>)>::empty());
    while i < ps.len()
        invariant
            view == ps@.map_values(|p: Page| page_view(p)),
            i <= ps@.len(),
            out@.map_values(|n: NavItem| nav_view(n)) == spec_nav(view.take(i as int), current@),
        decreases ps@.len() - i,
    {
        let page = &ps[i];
        assert(view.take(i + 1).drop_last() =~= view.take(i as int));
        assert(view.take(i + 1).last() == page_view(*page));
        let ghost before = out@;
        if let Some(label) = page.nav {
            out.push(NavItem { href: url(page.slug), label, current: str_eq(page.slug, current) });
            assert(out@.map_values(|n: NavItem| nav_view(n)) =~= before.map_values(
                |n: NavItem| nav_view(n),
            ).push(nav_view(out@.last())));
        }
        i = i + 1;
    }
    assert(view.take(ps@.len() as int) =~= view);
    out
}

/// The nav lists every page but the homepage, and marks as current at most one
/// item: the one whose slug is that of the page being shown.
pub proof fn law_nav_marks_one_page(current: Seq<char>)
    ensures
        spec_nav(spec_pages(), current).len() == 5,
        forall|k: int|
            0 <= k < 5 ==> (#[trigger] spec_nav(spec_pages(), current)[k]).0 != spec_url(""@),
        forall|k: int, l: int|
            0 <= k < l < 5 ==> !((#[trigger] spec_nav(spec_pages(), current)[k]).2 && (
            #[trigger] spec_nav(spec_pages(), current)[l]).2),
{
    reveal_strlit("");
    reveal_strlit("whats-on");
    reveal_strlit("sport");
    reveal_strlit("find-us");
    reveal_strlit("history");
    reveal_strlit("faq");
    let ps = spec_pages();
    reveal_with_fuel(spec_nav, 7);
    let n = spec_nav(ps, current);
    assert(ps.drop_last().drop_last().drop_last().drop_last().drop_last().drop_last() =~= Seq::<
        (Seq<char>, Option<Seq<char>>),
    >::empty());
    assert(n =~= seq![
        (spec_url("whats-on"@), "What's On"@, "whats-on"@ == current),
        (spec_url("sport"@), "Sport"@, "sport"@ == current),
        (spec_url("find-us"@), "Find Us"@, "find-us"@ == current),
        (spec_url("history"@), "History"@, "history"@ == current),
        (spec_url("faq"@), "FAQ"@, "faq"@ == current),
    ]);
    assert("whats-on"@.len() == 8 && "sport"@.len() == 5 && "find-us"@.len() == 7
        && "history"@.len() == 7 && "faq"@.len() == 3);
    assert("find-us"@[0] != "history"@[0]);
    assert("whats-on"@ != "sport"@ && "whats-on"@ != "find-us"@ && "whats-on"@ != "history"@
        && "whats-on"@ != "faq"@ && "sport"@ != "find-us"@ && "sport"@ != "history"@ && "sport"@
        != "faq"@ && "find-us"@ != "history"@ && "find-us"@ != "faq"@ && "history"@ != "faq"@);
    assert forall|k: int| 0 <= k < 5 implies (#[trigger] n[k]).0 != spec_url(""@) by {
        assert(n[k].0.len() > 1);
    }
}

/// The sitemap lines for the given pages, each `  <url><loc>{origin}{url}</loc></url>`.
pub open spec fn sitemap_urls(origin: Seq<char>, ps: Seq<(Seq<char>, Option<Seq<char>>)>) -> Seq<
    char,
>
    decreases ps.len(),
{
    if ps.len() == 0 {
        Seq::empty()
    } else {
        sitemap_urls(origin, ps.drop_last()) + "  <url><loc>"@ + origin + spec_url(ps.last().0)
            + "</loc></url>\n"@
    }
}

/// The sitemap: it lists exactly the pages that exist.
pub open spec fn spec_sitemap(origin: Seq<char>) -> Seq<char> {
    "<?xml version=\"1.0\" encoding=\"UTF-8\"?>\n<urlset xmlns=\"http://www.sitemaps.org/schemas/sitemap/0.9\">\n"@
        + sitemap_urls(origin, spec_pages()) + "</urlset>\n"@
}

/// Written rather than shipped: it must list exactly the pages that exist.
pub fn sitemap(origin: &str) -> (r: String)
    ensures
        r@ == spec_sitemap(origin@),
{
    let ps = pages();
    let ghost view = ps@.map_values(|p: Page| page_view(p));
    let mut urls = String::new();
    let mut i: usize = 0;
    assert(view.take(0) =~= Seq::<(Seq<char>, Option<Seq<char>>)>::empty());
    while i < ps.len()
        invariant
            view == ps@.map_values(|p: Page| page_view(p)),
            i <= ps@.len(),
            urls@ == sitemap_urls(origin@, view.take(i as int)),
        decreases ps@.len() - i,
    {
        assert(view.take(i + 1).drop_last() =~= view.take(i as int));
        assert(view.take(i + 1).last() == page_view(ps@[i as int]));
        urls.append("  <url><loc>");
        urls.append(origin);
        urls.append(url(ps[i].slug).as_str());
        urls.append("</loc></url>\n");
        i = i + 1;
    }
    assert(view.take(ps@.len() as int) =~= view);
    let mut out = String::from_str(
        "<?xml version=\"1.0\" encoding=\"UTF-8\"?>\n<urlset xmlns=\"http://www.sitemaps.org/schemas/sitemap/0.9\">\n",
    );
    out.append(urls.as_str());
    out.append("</urlset>\n");
    out
}

} // verus!

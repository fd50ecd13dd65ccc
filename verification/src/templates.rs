//! What every page template receives: the assets, the nav, and the `<head>`
//! metadata for the page.

use vstd::prelude::*;
use crate::assets::Assets;
use crate::content::{Site, Venue};
use crate::text::str_eq;

verus! {

/// Shared by every page template: asset URLs are resolved (and recorded) through it.
pub struct Context<'a> {
    pub assets: &'a mut Assets,
}

/// A nav entry, resolved once per page so the template does no comparing.
pub struct NavItem {
    pub href: String,
    pub label: &'static str,
    pub current: bool,
}

/// Everything the `<head>` needs.
pub struct Meta {
    /// The full `<title>`, including the venue suffix.
    pub title: String,
    /// `og:title` and the `<h1>`-adjacent heading, with no suffix.
    pub heading: String,
    pub description: String,
    pub canonical: String,
    /// Absolute, because og:image will not take a relative URL.
    pub image: String,
    pub image_alt: String,
}

/// The share image of a page: `og-<slug>.jpg`, `og-home.jpg` for the homepage.
pub open spec fn og_image_name(slug: Seq<char>) -> Seq<char> {
    "og-"@ + (if slug.len() == 0 { "home"@ } else { slug }) + ".jpg"@
}

pub open spec fn spec_title(v: &Venue, slug: Seq<char>) -> Seq<char> {
    if slug == "whats-on"@ {
        "What's On — "@ + v.name@ + ", "@ + v.locality@
    } else if slug == "sport"@ {
        "Sport — "@ + v.name@ + ", "@ + v.locality@
    } else if slug == "history"@ {
        "History — "@ + v.name@ + ", West Ham Lane, "@ + v.locality@
    } else if slug == "faq"@ {
        "FAQ — "@ + v.name@ + ", "@ + v.locality@ + " "@ + v.postcode@
    } else if slug == "find-us"@ {
        "Find Us — "@ + v.name@ + ", "@ + v.locality@ + " "@ + v.postcode@
    } else {
        v.name@ + " — "@ + v.locality@ + " pub on West Ham Lane, "@ + v.city@ + " "@ + v.postcode@
    }
}

pub open spec fn spec_heading(v: &Venue, slug: Seq<char>) -> Seq<char> {
    if slug == "whats-on"@ {
        "What's On"@
    } else if slug == "sport"@ {
        "Sport"@
    } else if slug == "history"@ {
        "Older than the skyline"@
    } else if slug == "faq"@ {
        "Straight answers"@
    } else if slug == "find-us"@ {
        "Find Us"@
    } else {
        v.tagline@
    }
}

pub open spec fn spec_description(v: &Venue, slug: Seq<char>) -> Seq<char> {
    if slug == "whats-on"@ {
        "Live music, salsa Thursdays, darts and pool at "@ + v.name@
            + " on West Ham Lane, Stratford E15."@
    } else if slug == "sport"@ {
        "Sky Sports and TNT Sports on HD screens at "@ + v.name@
            + ", Stratford E15 — Premier League, Champions League, rugby, racing and boxing, a walk from the London Stadium."@
    } else if slug == "history"@ {
        "Photographed on West Ham Lane in 1985, briefly traded as Le Pub, refitted in 2023. What can actually be shown about the history of "@
            + v.name@ + ", Stratford E15."@
    } else if slug == "faq"@ {
        "Do they show West Ham? Is it dog friendly? Is there food? Straight answers about "@
            + v.name@ + ", "@ + v.locality@ + " "@ + v.postcode@
            + " — including the ones where the answer is no."@
    } else if slug == "find-us"@ {
        v.street@ + ", "@ + v.locality@ + ", "@ + v.city@ + " "@ + v.postcode@
            + ". Ten minutes from Stratford station, 25 from the London Stadium. Open from 11am every day."@
    } else {
        v.summary@
    }
}

pub open spec fn spec_image_alt(slug: Seq<char>) -> Seq<char> {
    if slug == "whats-on"@ {
        "Live music at the Queen's Head, Stratford"@
    } else if slug == "sport"@ {
        "A full room watching the football at the Queen's Head, Stratford"@
    } else if slug == "history"@ {
        "The bar at the Queen's Head, Stratford"@
    } else if slug == "faq"@ {
        "Pump clips along the bar at the Queen's Head"@
    } else if slug == "find-us"@ {
        "The bar at the Queen's Head, Stratford"@
    } else {
        "A full house at the Queen's Head, Stratford"@
    }
}

/// The slugs of the pages other than the homepage.
pub open spec fn is_inner_page(slug: Seq<char>) -> bool {
    slug == "whats-on"@ || slug == "sport"@ || slug == "history"@ || slug == "faq"@ || slug
        == "find-us"@
}

/// Only the homepage is described by the venue's summary; every other page has
/// its own text, built from the venue's name and address alone: two venues that
/// agree on name, street, locality, city and postcode give every inner page the
/// same description, whatever their summaries and taglines.
pub proof fn law_inner_descriptions_ignore_summary(v1: Venue, v2: Venue, slug: Seq<char>)
    requires
        v1.name@ == v2.name@,
        v1.street@ == v2.street@,
        v1.locality@ == v2.locality@,
        v1.city@ == v2.city@,
        v1.postcode@ == v2.postcode@,
    ensures
        is_inner_page(slug) ==> spec_description(&v1, slug) == spec_description(&v2, slug),
        !is_inner_page(slug) ==> spec_description(&v1, slug) == v1.summary@,
{
}

/// The descriptions of what's on, sport, history and the FAQ each name the venue.
pub proof fn law_inner_descriptions_name_the_venue(v: Venue, slug: Seq<char>)
    requires
        slug == "whats-on"@ || slug == "sport"@ || slug == "history"@ || slug == "faq"@,
    ensures
        exists|a: Seq<char>, b: Seq<char>| spec_description(&v, slug) == a + v.name@ + b,
{
    let d = spec_description(&v, slug);
    if slug == "whats-on"@ {
        let a = "Live music, salsa Thursdays, darts and pool at "@;
        let b = " on West Ham Lane, Stratford E15."@;
        assert(d =~= a + v.name@ + b);
    } else if slug == "sport"@ {
        let a = "Sky Sports and TNT Sports on HD screens at "@;
        let b = ", Stratford E15 — Premier League, Champions League, rugby, racing and boxing, a walk from the London Stadium."@;
        assert(d =~= a + v.name@ + b);
    } else if slug == "history"@ {
        let a = "Photographed on West Ham Lane in 1985, briefly traded as Le Pub, refitted in 2023. What can actually be shown about the history of "@;
        let b = ", Stratford E15."@;
        assert(d =~= a + v.name@ + b);
    } else {
        let a = "Do they show West Ham? Is it dog friendly? Is there food? Straight answers about "@;
        let b = ", "@ + v.locality@ + " "@ + v.postcode@ + " — including the ones where the answer is no."@;
        assert(d =~= a + v.name@ + b);
    }
}

/// What's on, sport, history and the FAQ never share a description: each opens
/// with its own first letter (`L`, `S`, `P`, `D`), whatever the venue.
pub proof fn law_inner_descriptions_differ(v: Venue, s1: Seq<char>, s2: Seq<char>)
    requires
        s1 == "whats-on"@ || s1 == "sport"@ || s1 == "history"@ || s1 == "faq"@,
        s2 == "whats-on"@ || s2 == "sport"@ || s2 == "history"@ || s2 == "faq"@,
        s1 != s2,
    ensures
        spec_description(&v, s1) != spec_description(&v, s2),
{
    reveal_strlit("whats-on");
    reveal_strlit("sport");
    reveal_strlit("history");
    reveal_strlit("faq");
    reveal_strlit("Live music, salsa Thursdays, darts and pool at ");
    reveal_strlit("Sky Sports and TNT Sports on HD screens at ");
    reveal_strlit(
        "Photographed on West Ham Lane in 1985, briefly traded as Le Pub, refitted in 2023. What can actually be shown about the history of ",
    );
    reveal_strlit("Do they show West Ham? Is it dog friendly? Is there food? Straight answers about ");
    assert(spec_description(&v, s1)[0] != spec_description(&v, s2)[0]);
}

/// Every page's title names the venue, and depends on nothing but its name and
/// address: two venues that agree on name, locality, city and postcode give every
/// page the same title.
pub proof fn law_titles_name_the_venue(v1: Venue, v2: Venue, slug: Seq<char>)
    requires
        v1.name@ == v2.name@,
        v1.locality@ == v2.locality@,
        v1.city@ == v2.city@,
        v1.postcode@ == v2.postcode@,
    ensures
        spec_title(&v1, slug) == spec_title(&v2, slug),
        exists|a: Seq<char>, b: Seq<char>| spec_title(&v1, slug) == a + v1.name@ + b,
{
    let t = spec_title(&v1, slug);
    let v = v1;
    if slug == "whats-on"@ {
        assert(t =~= "What's On — "@ + v.name@ + (", "@ + v.locality@));
    } else if slug == "sport"@ {
        assert(t =~= "Sport — "@ + v.name@ + (", "@ + v.locality@));
    } else if slug == "history"@ {
        assert(t =~= "History — "@ + v.name@ + (", West Ham Lane, "@ + v.locality@));
    } else if slug == "faq"@ {
        assert(t =~= "FAQ — "@ + v.name@ + (", "@ + v.locality@ + " "@ + v.postcode@));
    } else if slug == "find-us"@ {
        assert(t =~= "Find Us — "@ + v.name@ + (", "@ + v.locality@ + " "@ + v.postcode@));
    } else {
        assert(t =~= Seq::<char>::empty() + v.name@ + (" — "@ + v.locality@ + " pub on West Ham Lane, "@
            + v.city@ + " "@ + v.postcode@));
    }
}

/// Per-page title, description and share image. The share image is hashed like
/// any other asset, so a stale card cannot live in a scraper's cache.
pub fn meta_for(site: &Site, slug: &str, path: &str, assets: &mut Assets) -> (r: Meta)
    requires
        old(assets).wf(),
        old(assets).bodies().contains_key(og_image_name(slug@)),
    ensures
        final(assets).wf(),
        final(assets).bodies() == old(assets).bodies(),
        final(assets).used().to_set() == old(assets).used().to_set().insert(og_image_name(slug@)),
        r.title@ == spec_title(&site.venue, slug@),
        r.heading@ == spec_heading(&site.venue, slug@),
        r.description@ == spec_description(&site.venue, slug@),
        r.canonical@ == site.venue.origin@ + path@,
        r.image@ == site.venue.origin@ + Assets::spec_href(
            og_image_name(slug@),
            old(assets).bodies()[og_image_name(slug@)],
        ),
        r.image_alt@ == spec_image_alt(slug@),
{
    let v = &site.venue;
    let mut canonical = v.origin.clone();
    canonical.append(path);

    let mut image_name = String::from_str("og-");
    if slug.is_empty() {
        image_name.append("home");
    } else {
        image_name.append(slug);
    }
    image_name.append(".jpg");
    let mut image = v.origin.clone();
    let href = assets.href(image_name.as_str());
    image.append(href.as_str());

    let mut title = String::new();
    let mut heading = String::new();
    let mut description = String::new();
    let image_alt: String;
    if str_eq(slug, "whats-on") {
        title.append("What's On — ");
        title.append(v.name.as_str());
        title.append(", ");
        title.append(v.locality.as_str());
        heading.append("What's On");
        description.append("Live music, salsa Thursdays, darts and pool at ");
        description.append(v.name.as_str());
        description.append(" on West Ham Lane, Stratford E15.");
        image_alt = String::from_str("Live music at the Queen's Head, Stratford");
    } else if str_eq(slug, "sport") {
        title.append("Sport — ");
        title.append(v.name.as_str());
        title.append(", ");
        title.append(v.locality.as_str());
        heading.append("Sport");
        description.append("Sky Sports and TNT Sports on HD screens at ");
        description.append(v.name.as_str());
        description.append(
            ", Stratford E15 — Premier League, Champions League, rugby, racing and boxing, a walk from the London Stadium.",
        );
        image_alt = String::from_str(
            "A full room watching the football at the Queen's Head, Stratford",
        );
    } else if str_eq(slug, "history") {
        title.append("History — ");
        title.append(v.name.as_str());
        title.append(", West Ham Lane, ");
        title.append(v.locality.as_str());
        heading.append("Older than the skyline");
        description.append(
            "Photographed on West Ham Lane in 1985, briefly traded as Le Pub, refitted in 2023. What can actually be shown about the history of ",
        );
        description.append(v.name.as_str());
        description.append(", Stratford E15.");
        image_alt = String::from_str("The bar at the Queen's Head, Stratford");
    } else if str_eq(slug, "faq") {
        title.append("FAQ — ");
        title.append(v.name.as_str());
        title.append(", ");
        title.append(v.locality.as_str());
        title.append(" ");
        title.append(v.postcode.as_str());
        heading.append("Straight answers");
        description.append(
            "Do they show West Ham? Is it dog friendly? Is there food? Straight answers about ",
        );
        description.append(v.name.as_str());
        description.append(", ");
        description.append(v.locality.as_str());
        description.append(" ");
        description.append(v.postcode.as_str());
        description.append(" — including the ones where the answer is no.");
        image_alt = String::from_str("Pump clips along the bar at the Queen's Head");
    } else if str_eq(slug, "find-us") {
        title.append("Find Us — ");
        title.append(v.name.as_str());
        title.append(", ");
        title.append(v.locality.as_str());
        title.append(" ");
        title.append(v.postcode.as_str());
        heading.append("Find Us");
        description.append(v.street.as_str());
        description.append(", ");
        description.append(v.locality.as_str());
        description.append(", ");
        description.append(v.city.as_str());
        description.append(" ");
        description.append(v.postcode.as_str());
        description.append(
            ". Ten minutes from Stratford station, 25 from the London Stadium. Open from 11am every day.",
        );
        image_alt = String::from_str("The bar at the Queen's Head, Stratford");
    } else {
        title.append(v.name.as_str());
        title.append(" — ");
        title.append(v.locality.as_str());
        title.append(" pub on West Ham Lane, ");
        title.append(v.city.as_str());
        title.append(" ");
        title.append(v.postcode.as_str());
        heading = v.tagline.clone();
        description = v.summary.clone();
        image_alt = String::from_str("A full house at the Queen's Head, Stratford");
    }
    Meta { title, heading, description, canonical, image, image_alt }
}

} // verus!

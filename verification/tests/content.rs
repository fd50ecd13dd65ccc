use queenshead::content::friendly_time;

#[test]
fn twelve_hour_clock_drops_zero_minutes() {
    assert_eq!(friendly_time("11:00"), "11am");
    assert_eq!(friendly_time("23:00"), "11pm");
    assert_eq!(friendly_time("22:30"), "10.30pm");
    assert_eq!(friendly_time("00:00"), "12am");
    assert_eq!(friendly_time("12:00"), "12pm");
}

use queenshead::calendar::{label, schedule, short_month, short_weekday, Day};
use queenshead::content::{
    About, Access, Bar, Event, Functions, History, Hours, Matchday, Site, Sport, Travel, Venue,
    WhatsOnIntro,
};

#[test]
fn friendly_time_keeps_nonzero_minutes_padded() {
    assert_eq!(friendly_time("10:07"), "10.07am");
    assert_eq!(friendly_time("13:45"), "1.45pm");
    assert_eq!(friendly_time("+9:05"), "9.05am");
    assert_eq!(friendly_time("25:00"), "1pm");
    assert_eq!(friendly_time("22:75"), "10.75pm");
}

#[test]
fn friendly_time_leaves_what_it_cannot_read() {
    assert_eq!(friendly_time("noon"), "noon");
    assert_eq!(friendly_time("10:300"), "10:300");
    assert_eq!(friendly_time("-1:00"), "-1:00");
    assert_eq!(friendly_time(":30"), ":30");
    assert_eq!(friendly_time("11:00:00"), "11:00:00");
    assert_eq!(friendly_time(""), "");
}

#[test]
fn hours_display_and_schema_day() {
    let h = Hours {
        day: "Monday".to_string(),
        open: "11:00".to_string(),
        close: "23:30".to_string(),
    };
    assert_eq!(h.schema_day(), "Mo");
    assert_eq!(h.open_display(), "11am");
    assert_eq!(h.close_display(), "11.30pm");
}

fn venue() -> Venue {
    let s = |x: &str| x.to_string();
    Venue {
        name: s("The Queen's Head"),
        short_name: s("Queen's Head"),
        initials: s("QH"),
        tagline: s("A proper local"),
        summary: s("A pub in Stratford."),
        street: s("8 West Ham Lane"),
        street_alt: s(""),
        locality: s("Stratford"),
        city: s("London"),
        region: s("Greater London"),
        postcode: s("E15 4PT"),
        country: s("GB"),
        phone_display: s("020 0000 0000"),
        phone_link: s("+442000000000"),
        facebook: s("https://facebook.example"),
        instagram: s("https://instagram.example"),
        origin: s("https://queensheadstratford.london"),
    }
}

#[test]
fn venue_address_and_map_link() {
    let v = venue();
    assert_eq!(v.address_line(), "8 West Ham Lane, Stratford, London E15 4PT");
    assert_eq!(
        v.maps_url(),
        "https://www.google.com/maps/search/?api=1&query=8+West+Ham+Lane%2C+E15+4PT"
    );
}

fn event(date: &str, name: &str) -> Event {
    Event {
        date: date.to_string(),
        name: name.to_string(),
        time: "20:00".to_string(),
        blurb: String::new(),
    }
}

fn site(events: Vec<Event>) -> Site {
    let s = |x: &str| x.to_string();
    Site {
        venue: venue(),
        about: About { heading: s("About"), body: vec![] },
        matchday: Matchday {
            heading: s(""),
            lede: s(""),
            body: s(""),
            walk_label: s(""),
            walk_detail: s(""),
        },
        hours: vec![],
        bar: Bar { heading: s(""), note: s(""), taps: vec![] },
        sport: Sport { heading: s(""), lede: s(""), note: s(""), competitions: vec![] },
        whatson: WhatsOnIntro { heading: s(""), lede: s("") },
        regulars: vec![],
        events,
        functions: Functions { heading: s(""), body: s("") },
        facilities: vec![],
        travel: Travel { heading: s(""), lede: s(""), routes: vec![] },
        access: Access { heading: s(""), body: s("") },
        history: History { heading: s(""), lede: s(""), note: s(""), moments: vec![] },
        faq: vec![],
        sources: vec![],
    }
}

fn day(year: i32, month: u8, d: u8, weekday: u8) -> Day {
    Day { year, month, day: d, weekday }
}

#[test]
fn upcoming_is_future_events_soonest_first_with_computed_weekday() {
    let site = site(vec![
        event("2026-10-03", "Quiz"),
        event("2026-08-01", "Gone"),
        event("2026-09-12", "Band"),
        event("2026-09-01", "Today"),
        event("2026-09-12", "Second band"),
    ]);
    let today = day(2026, 9, 1, 1);
    let up = site.upcoming(&today).ok().expect("dates parse");
    let names: Vec<&str> = up.iter().map(|u| u.event.name.as_str()).collect();
    assert_eq!(names, vec!["Today", "Band", "Second band", "Quiz"]);
    let labels: Vec<&str> = up.iter().map(|u| u.label.as_str()).collect();
    assert_eq!(labels, vec!["Tue 1 Sep", "Sat 12 Sep", "Sat 12 Sep", "Sat 3 Oct"]);
    assert_eq!(up[1].iso, "2026-09-12");
}

#[test]
fn upcoming_with_nothing_booked_is_empty() {
    let site = site(vec![]);
    let up = site.upcoming(&day(2026, 1, 1, 3)).ok().expect("no dates to parse");
    assert!(up.is_empty());
}

#[test]
fn upcoming_reports_the_first_unparseable_date() {
    let site = site(vec![
        event("2020-01-01", "Old"),
        event("12/09/2026", "Slashed"),
        event("2026-02-30", "No such day"),
    ]);
    match site.upcoming(&day(2026, 1, 1, 3)) {
        Err(e) => assert_eq!(e.event, "Slashed"),
        Ok(_) => panic!("an unparseable date must be an error"),
    }
    let site = site_with_only("2026-02-30");
    assert!(site.upcoming(&day(2026, 1, 1, 3)).is_err());
}

fn site_with_only(date: &str) -> Site {
    site(vec![event(date, "Only")])
}

#[test]
fn upcoming_reads_weekdays_from_the_calendar() {
    let site = site(vec![event("2024-02-29", "Leap"), event("2000-01-01", "Millennium")]);
    let up = site.upcoming(&day(1999, 1, 1, 4)).ok().expect("dates parse");
    let labels: Vec<&str> = up.iter().map(|u| u.label.as_str()).collect();
    assert_eq!(labels, vec!["Sat 1 Jan", "Thu 29 Feb"]);
}

#[test]
fn schedule_orders_given_dates() {
    let events = vec![event("c", "C"), event("a", "A"), event("b", "B"), event("p", "Past")];
    let dates = vec![
        day(2026, 12, 25, 4),
        day(2026, 6, 1, 0),
        day(2026, 6, 1, 0),
        day(2025, 12, 31, 2),
    ];
    let out = schedule(&events, &dates, &day(2026, 1, 1, 3));
    let names: Vec<&str> = out.iter().map(|u| u.event.name.as_str()).collect();
    assert_eq!(names, vec!["A", "B", "C"]);
    assert_eq!(out[0].label, "Mon 1 Jun");
    assert_eq!(out[2].label, "Fri 25 Dec");
    assert_eq!(out[2].iso, "c");
}

#[test]
fn short_names() {
    let days: Vec<&str> = (0..7).map(short_weekday).collect();
    assert_eq!(days, vec!["Mon", "Tue", "Wed", "Thu", "Fri", "Sat", "Sun"]);
    let months: Vec<&str> = (1..=12).map(short_month).collect();
    assert_eq!(
        months,
        vec!["Jan", "Feb", "Mar", "Apr", "May", "Jun", "Jul", "Aug", "Sep", "Oct", "Nov", "Dec"]
    );
    assert_eq!(label(&day(2026, 9, 12, 5)), "Sat 12 Sep");
}

use queenshead::assets::Assets;
use queenshead::templates::meta_for;

fn og_assets() -> Assets {
    let names = ["og-home.jpg", "og-whats-on.jpg", "og-sport.jpg", "og-find-us.jpg", "og-history.jpg", "og-faq.jpg"];
    Assets::from_files(names.iter().map(|n| (n.to_string(), n.as_bytes().to_vec())).collect())
}

#[test]
fn meta_for_each_page() {
    let site = site(vec![]);
    let mut assets = og_assets();
    let home = meta_for(&site, "", "/", &mut assets);
    assert_eq!(home.title, "The Queen's Head — Stratford pub on West Ham Lane, London E15 4PT");
    assert_eq!(home.heading, "A proper local");
    assert_eq!(home.description, "A pub in Stratford.");
    assert_eq!(home.canonical, "https://queensheadstratford.london/");
    assert_eq!(home.image_alt, "A full house at the Queen's Head, Stratford");
    assert!(home.image.starts_with("https://queensheadstratford.london/og-home."));
    assert!(home.image.ends_with(".jpg"));
    assert_eq!(home.image.len(), "https://queensheadstratford.london/og-home.12345678.jpg".len());

    let w = meta_for(&site, "whats-on", "/whats-on", &mut assets);
    assert_eq!(w.title, "What's On — The Queen's Head, Stratford");
    assert_eq!(w.heading, "What's On");
    assert_eq!(
        w.description,
        "Live music, salsa Thursdays, darts and pool at The Queen's Head on West Ham Lane, Stratford E15."
    );
    assert_eq!(w.canonical, "https://queensheadstratford.london/whats-on");

    let f = meta_for(&site, "faq", "/faq", &mut assets);
    assert_eq!(f.title, "FAQ — The Queen's Head, Stratford E15 4PT");
    assert_eq!(f.heading, "Straight answers");
    assert_eq!(f.image_alt, "Pump clips along the bar at the Queen's Head");

    let fu = meta_for(&site, "find-us", "/find-us", &mut assets);
    assert_eq!(
        fu.description,
        "8 West Ham Lane, Stratford, London E15 4PT. Ten minutes from Stratford station, 25 from the London Stadium. Open from 11am every day."
    );
    let h = meta_for(&site, "history", "/history", &mut assets);
    assert_eq!(h.title, "History — The Queen's Head, West Ham Lane, Stratford");
    assert_eq!(h.heading, "Older than the skyline");
    let s = meta_for(&site, "sport", "/sport", &mut assets);
    assert_eq!(s.title, "Sport — The Queen's Head, Stratford");
    assert_eq!(s.image_alt, "A full room watching the football at the Queen's Head, Stratford");
}

#[test]
fn a_later_day_drops_only_the_past_prefix() {
    let site = site(vec![
        event("2026-09-12", "Band"),
        event("2026-09-01", "Quiz"),
        event("2026-10-03", "Gig"),
    ]);
    let earlier = site.upcoming(&day(2026, 8, 1, 5)).ok().expect("dates parse");
    let later = site.upcoming(&day(2026, 9, 2, 2)).ok().expect("dates parse");
    let names = |v: &Vec<queenshead::calendar::Upcoming>| {
        v.iter().map(|u| (u.event.name.clone(), u.label.clone(), u.iso.clone())).collect::<Vec<_>>()
    };
    assert_eq!(names(&later), names(&earlier)[1..].to_vec());
}

//! The site's content, in the shape the templates want, and what is derived
//! from it: display times, the schema.org day, the address line and the events
//! still to come.

use vstd::prelude::*;
use crate::text::{chars_of, decimal, decimal2, decimal_chars, first_index_of, first_index_of_exec, push_char, push_chars, replace_all, replace_chars, string_of, sub_chars};

verus! {

/// Everything the site says, from one content file.
pub struct Site {
    pub venue: Venue,
    pub about: About,
    pub matchday: Matchday,
    pub hours: Vec<Hours>,
    pub bar: Bar,
    pub sport: Sport,
    pub whatson: WhatsOnIntro,
    pub regulars: Vec<Regular>,
    /// Empty means nothing is booked, and the page says so.
    pub events: Vec<Event>,
    pub functions: Functions,
    pub facilities: Vec<Facility>,
    pub travel: Travel,
    pub access: Access,
    pub history: History,
    pub faq: Vec<Faq>,
    /// Never rendered: provenance kept beside the claims it supports.
    pub sources: Vec<Source>,
}

/// The pub itself. Its map coordinates are kept by the program, beside this.
pub struct Venue {
    pub name: String,
    pub short_name: String,
    pub initials: String,
    pub tagline: String,
    pub summary: String,
    pub street: String,
    pub street_alt: String,
    pub locality: String,
    pub city: String,
    pub region: String,
    pub postcode: String,
    pub country: String,
    pub phone_display: String,
    pub phone_link: String,
    pub facebook: String,
    pub instagram: String,
    pub origin: String,
}

/// `street, locality, city postcode`.
pub open spec fn spec_address_line(v: &Venue) -> Seq<char> {
    v.street@ + ", "@ + v.locality@ + ", "@ + v.city@ + " "@ + v.postcode@
}

/// A Google Maps search for the street and postcode, spaces written as `+`.
pub open spec fn spec_maps_url(v: &Venue) -> Seq<char> {
    "https://www.google.com/maps/search/?api=1&query="@ + replace_all(v.street@, seq![' '], seq!['+'])
        + "%2C+"@ + replace_all(v.postcode@, seq![' '], seq!['+'])
}

/// Writing spaces as `+` leaves none: `c` does not occur once every `c` is
/// replaced by a text without it.
pub proof fn law_replaced_char_gone(s: Seq<char>, c: char, to: Seq<char>)
    requires
        !to.contains(c),
    ensures
        !replace_all(s, seq![c], to).contains(c),
    decreases s.len(),
{
    let r = replace_all(s, seq![c], to);
    if s.len() >= 1 {
        if s.take(1) == seq![c] {
            law_replaced_char_gone(s.skip(1), c, to);
            let rest = replace_all(s.skip(1), seq![c], to);
            assert(r == to + rest);
            if r.contains(c) {
                let i = choose|i: int| 0 <= i < r.len() && r[i] == c;
                if i < to.len() {
                    assert(to[i] == c);
                } else {
                    assert(rest[i - to.len()] == c);
                }
            }
        } else {
            law_replaced_char_gone(s.drop_first(), c, to);
            let rest = replace_all(s.drop_first(), seq![c], to);
            assert(s.take(1) =~= seq![s[0]]);
            assert(r == seq![s[0]] + rest);
            if r.contains(c) {
                let i = choose|i: int| 0 <= i < r.len() && r[i] == c;
                if i > 0 {
                    assert(rest[i - 1] == c);
                }
            }
        }
    }
}

impl Venue {
    /// One line, for the footer and the `address` microdata.
    pub fn address_line(&self) -> (r: String)
        ensures
            r@ == spec_address_line(self),
    {
        let mut out = self.street.clone();
        out.append(", ");
        out.append(self.locality.as_str());
        out.append(", ");
        out.append(self.city.as_str());
        out.append(" ");
        out.append(self.postcode.as_str());
        out
    }

    /// A postcode plus the street is more reliable than coordinates, which drop
    /// a pin in the middle of the road.
    pub fn maps_url(&self) -> (r: String)
        ensures
            r@ == spec_maps_url(self),
    {
        let space: Vec<char> = vec![' '];
        let plus: Vec<char> = vec!['+'];
        let street = replace_chars(&chars_of(self.street.as_str()), &space, &plus);
        let postcode = replace_chars(&chars_of(self.postcode.as_str()), &space, &plus);
        assert(space@ =~= seq![' ']);
        assert(plus@ =~= seq!['+']);
        let mut out = String::from_str("https://www.google.com/maps/search/?api=1&query=");
        push_chars(&mut out, &street);
        out.append("%2C+");
        push_chars(&mut out, &postcode);
        out
    }
}

pub struct About {
    pub heading: String,
    pub body: Vec<String>,
}

pub struct Matchday {
    pub heading: String,
    pub lede: String,
    pub body: String,
    pub walk_label: String,
    pub walk_detail: String,
}

/// One day's opening hours, times written `HH:MM`.
pub struct Hours {
    pub day: String,
    pub open: String,
    pub close: String,
}

/// An ASCII decimal digit.
pub open spec fn is_digit(c: char) -> bool {
    '0' <= c <= '9'
}

/// The value of a run of decimal digits.
pub open spec fn digits_value(s: Seq<char>) -> int
    decreases s.len(),
{
    if s.len() == 0 {
        0
    } else {
        digits_value(s.drop_last()) * 10 + (s.last() as int - 48)
    }
}

/// The digits part of an unsigned number: a leading `+` is dropped.
pub open spec fn unsigned_digits(s: Seq<char>) -> Seq<char> {
    if s.len() > 0 && s[0] == '+' {
        s.drop_first()
    } else {
        s
    }
}

/// One or more decimal digits whose value is at most 255.
pub open spec fn parse_digits_u8(d: Seq<char>) -> Option<u8> {
    if d.len() > 0 && (forall|i: int| 0 <= i < d.len() ==> is_digit(#[trigger] d[i]))
        && digits_value(d) <= 255 {
        Some(digits_value(d) as u8)
    } else {
        None
    }
}

/// `str::parse::<u8>`: an optional `+`, then one or more decimal digits whose
/// value is at most 255.
pub open spec fn parse_u8(s: Seq<char>) -> Option<u8> {
    parse_digits_u8(unsigned_digits(s))
}

proof fn lemma_digits_value_prefix(s: Seq<char>, k: int)
    requires
        forall|i: int| 0 <= i < s.len() ==> is_digit(#[trigger] s[i]),
        0 <= k <= s.len(),
    ensures
        0 <= digits_value(s.take(k)) <= digits_value(s),
    decreases s.len(),
{
    if k == s.len() {
        assert(s.take(k) =~= s);
        if s.len() > 0 {
            lemma_digits_value_prefix(s.drop_last(), 0);
        }
    } else {
        lemma_digits_value_prefix(s.drop_last(), k);
        assert(s.drop_last().take(k) =~= s.take(k));
    }
}

/// `str::parse::<u8>` on characters.
pub fn parse_u8_exec(s: &[char]) -> (r: Option<u8>)
    ensures
        r == parse_u8(s@),
{
    let start: usize = if s.len() > 0 && s[0] == '+' { 1 } else { 0 };
    let ghost d = unsigned_digits(s@);
    assert(d =~= s@.skip(start as int));
    if start == s.len() {
        return None;
    }
    let mut v: u32 = 0;
    let mut i: usize = start;
    assert(d.take(0) =~= Seq::<char>::empty());
    while i < s.len()
        invariant
            start <= i <= s@.len(),
            d == s@.skip(start as int),
            d == unsigned_digits(s@),
            v <= 255,
            v == digits_value(d.take(i - start)),
            forall|j: int| 0 <= j < i - start ==> is_digit(#[trigger] d[j]),
        decreases s@.len() - i,
    {
        let c = s[i];
        if !('0' <= c && c <= '9') {
            assert(!is_digit(d[i - start]));
            assert(parse_digits_u8(d) is None);
            return None;
        }
        let ghost k = i - start;
        assert(d.take(k + 1).drop_last() =~= d.take(k));
        v = v * 10 + (c as u32 - 48);
        i = i + 1;
        if v > 255 {
            proof {
                if forall|j: int| 0 <= j < d.len() ==> is_digit(#[trigger] d[j]) {
                    lemma_digits_value_prefix(d, k + 1);
                }
                assert(parse_digits_u8(d) is None);
            }
            return None;
        }
    }
    assert(d.take(i - start) =~= d);
    Some(v as u8)
}

/// `23:00` becomes `11pm` and `22:30` becomes `10.30pm`: a 12-hour clock whose
/// minutes are shown only when not zero. Anything that is not two numbers around
/// a colon is shown as written.
pub open spec fn spec_friendly_time(s: Seq<char>) -> Seq<char> {
    match first_index_of(s, ':') {
        None => s,
        Some(i) => match (parse_u8(s.take(i)), parse_u8(s.skip(i + 1))) {
            (Some(h), Some(m)) => {
                let suffix = if h < 12 { "am"@ } else { "pm"@ };
                let hour: nat = if h % 12 == 0 { 12 } else { (h % 12) as nat };
                if m == 0 {
                    decimal(hour) + suffix
                } else {
                    decimal(hour) + seq!['.'] + decimal2(m as nat) + suffix
                }
            },
            _ => s,
        },
    }
}

/// `23:00` → `11pm`; `22:30` → `10.30pm`.
pub fn friendly_time(hhmm: &str) -> (r: String)
    ensures
        r@ == spec_friendly_time(hhmm@),
{
    let cs = chars_of(hhmm);
    let i = match first_index_of_exec(&cs, ':') {
        None => {
            return String::from_str(hhmm);
        },
        Some(i) => i,
    };
    assert(i < cs.len());
    let hs = sub_chars(&cs, 0, i);
    let ms = sub_chars(&cs, i + 1, cs.len());
    assert(hs@ =~= hhmm@.take(i as int));
    assert(ms@ =~= hhmm@.skip(i + 1));
    let (h, m) = match (parse_u8_exec(&hs), parse_u8_exec(&ms)) {
        (Some(h), Some(m)) => (h, m),
        _ => {
            return String::from_str(hhmm);
        },
    };
    let hour: u8 = if h % 12 == 0 { 12 } else { h % 12 };
    let mut out = string_of(&decimal_chars(hour));
    if m != 0 {
        push_char(&mut out, '.');
        if m < 10 {
            push_char(&mut out, '0');
        }
        push_chars(&mut out, &decimal_chars(m));
    }
    if h < 12 {
        out.append("am");
    } else {
        out.append("pm");
    }
    assert(out@ =~= spec_friendly_time(hhmm@));
    out
}

/// A time of two numbers around a colon is shown on the 12-hour clock: the hour
/// shown is the one number `k` from 1 to 12 that `h` is congruent to modulo 12
/// (so noon and midnight show as 12), followed by `.mm` when the minutes are not
/// zero, and `am` before noon, `pm` from noon.
pub proof fn law_friendly_time_twelve_hour_clock(s: Seq<char>, i: int, h: u8, m: u8, k: nat)
    requires
        first_index_of(s, ':') == Some(i),
        parse_u8(s.take(i)) == Some(h),
        parse_u8(s.skip(i + 1)) == Some(m),
        1 <= k <= 12,
        k % 12 == h % 12,
    ensures
        spec_friendly_time(s) == decimal(k) + (if m == 0 {
            Seq::<char>::empty()
        } else {
            seq!['.'] + decimal2(m as nat)
        }) + (if h < 12 {
            "am"@
        } else {
            "pm"@
        }),
{
    let hour: nat = if h % 12 == 0 { 12 } else { (h % 12) as nat };
    assert(hour == k);
    if m == 0 {
        assert(decimal(k) + Seq::<char>::empty() =~= decimal(k));
    } else {
        assert(decimal(k) + seq!['.'] + decimal2(m as nat) =~= decimal(k) + (seq!['.'] + decimal2(
            m as nat,
        )));
    }
}

/// Text that is not two numbers around a colon is shown as written.
pub proof fn law_friendly_time_keeps_other_text(s: Seq<char>)
    requires
        match first_index_of(s, ':') {
            Some(i) => parse_u8(s.take(i)) is None || parse_u8(s.skip(i + 1)) is None,
            None => true,
        },
    ensures
        spec_friendly_time(s) == s,
{
}

impl Hours {
    /// Schema.org wants `Mo`, `Tu`, … — the first two bytes of the day, derived so
    /// the two cannot disagree.
    pub fn schema_day(&self) -> (r: &str)
        requires
            vstd::utf8::is_char_boundary(vstd::utf8::encode_utf8(self.day@), 2),
        ensures
            vstd::utf8::encode_utf8(r@) == vstd::utf8::encode_utf8(self.day@).subrange(0, 2),
    {
        self.day.as_str().split_at(2).0
    }

    /// `11:00` → `11am`; the minutes are kept when they are not zero.
    pub fn open_display(&self) -> (r: String)
        ensures
            r@ == spec_friendly_time(self.open@),
    {
        friendly_time(self.open.as_str())
    }

    pub fn close_display(&self) -> (r: String)
        ensures
            r@ == spec_friendly_time(self.close@),
    {
        friendly_time(self.close.as_str())
    }
}

pub struct Bar {
    pub heading: String,
    pub note: String,
    pub taps: Vec<Tap>,
}

pub struct Tap {
    pub name: String,
    pub style: String,
    pub note: String,
}

pub struct Sport {
    pub heading: String,
    pub lede: String,
    pub note: String,
    pub competitions: Vec<String>,
}

pub struct Regular {
    pub name: String,
    pub when: String,
    pub blurb: String,
}

/// The standing "what we put on" copy. Deliberately carries no times.
pub struct WhatsOnIntro {
    pub heading: String,
    pub lede: String,
}

pub struct Functions {
    pub heading: String,
    pub body: String,
}

/// One question and answer, rendered as copy and as FAQPage structured data.
pub struct Faq {
    pub q: String,
    pub a: String,
}

/// The timeline.
pub struct History {
    pub heading: String,
    pub lede: String,
    pub note: String,
    pub moments: Vec<Moment>,
}

/// `approx` marks a moment that can only be placed loosely.
pub struct Moment {
    pub year: String,
    pub approx: bool,
    pub body: String,
}

/// Where a claim on this site came from.
pub struct Source {
    pub name: String,
    pub url: String,
    pub covers: String,
}

/// A booked event; `date` is written `YYYY-MM-DD`.
pub struct Event {
    pub date: String,
    pub name: String,
    pub time: String,
    pub blurb: String,
}

pub struct Facility {
    pub name: String,
    pub detail: String,
}

pub struct Travel {
    pub heading: String,
    pub lede: String,
    pub routes: Vec<TravelRoute>,
}

pub struct TravelRoute {
    pub mode: String,
    pub detail: String,
}

pub struct Access {
    pub heading: String,
    pub body: String,
}

} // verus!

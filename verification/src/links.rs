//! Every `href` and `src` in the written pages must resolve to a file that was
//! written, an absolute one from the top of the output directory and a relative
//! one from its page's directory: a link that misses is a routing bug, and a `src`
//! that misses is an asset written by hand rather than through the asset table.
//! Other sites, other schemes and bare fragments are the browser's business.

use vstd::prelude::*;
use crate::order::{StrSet, strictly_sorted};
use crate::text::{
    append_chars, chars_eq, chars_of, first_index_of, first_index_of_exec, push_chars, split_all, split_chars,
    string_of, sub_chars, views,
};

verus! {

/// `s` up to (not including) the first `c`, or all of `s` (`s.split(c).next()`).
pub open spec fn take_until(s: Seq<char>, c: char) -> Seq<char> {
    match first_index_of(s, c) {
        Some(i) => s.take(i),
        None => s,
    }
}

fn take_until_exec(s: &[char], c: char) -> (r: Vec<char>)
    ensures
        r@ == take_until(s@, c),
{
    match first_index_of_exec(s, c) {
        Some(i) => {
            let r = sub_chars(s, 0, i);
            assert(r@ =~= s@.take(i as int));
            r
        },
        None => sub_chars(s, 0, s.len()),
    }
}

/// A reference without its query string or fragment.
pub open spec fn strip_query(s: Seq<char>) -> Seq<char> {
    take_until(take_until(s, '?'), '#')
}

/// The non-empty pieces of a path other than `.`, which is how a path joined
/// onto the output directory compares.
pub open spec fn keep_components(parts: Seq<Seq<char>>) -> Seq<Seq<char>>
    decreases parts.len(),
{
    if parts.len() == 0 {
        Seq::empty()
    } else {
        let r = keep_components(parts.drop_last());
        if parts.last().len() > 0 && parts.last() != seq!['.'] {
            r.push(parts.last())
        } else {
            r
        }
    }
}

/// The components of a `/`-separated path.
pub open spec fn components(s: Seq<char>) -> Seq<Seq<char>> {
    keep_components(split_all(s, seq!['/']))
}

fn components_exec(s: &[char]) -> (r: Vec<Vec<char>>)
    ensures
        views(r@) == components(s@),
{
    let slash: Vec<char> = vec!['/'];
    assert(slash@ =~= seq!['/']);
    let parts = split_chars(s, &slash);
    let ghost pv = views(parts@);
    let mut out: Vec<Vec<char>> = Vec::new();
    let mut i: usize = 0;
    assert(pv.take(0) =~= Seq::<Seq<char>>::empty());
    while i < parts.len()
        invariant
            pv == views(parts@),
            i <= parts@.len(),
            views(out@) == keep_components(pv.take(i as int)),
        decreases parts@.len() - i,
    {
        assert(pv.take(i + 1).drop_last() =~= pv.take(i as int));
        assert(pv.take(i + 1).last() == parts@[i as int]@);
        let part = &parts[i];
        let dot: Vec<char> = vec!['.'];
        assert(dot@ =~= seq!['.']);
        let ghost before = views(out@);
        if part.len() > 0 && !chars_eq(part, &dot) {
            let copy = sub_chars(part, 0, part.len());
            assert(copy@ =~= part@);
            out.push(copy);
            assert(views(out@) =~= before.push(part@));
        }
        i = i + 1;
    }
    assert(pv.take(parts@.len() as int) =~= pv);
    out
}

/// The attribute values that follow each `attr` in `html`, each up to its
/// closing quote.
pub open spec fn attr_values(html: Seq<char>, attr: Seq<char>) -> Seq<Seq<char>> {
    split_all(html, attr).drop_first().map_values(|p: Seq<char>| take_until(p, '"'))
}

/// A rendered page: how to name it in a report, where it was written (relative
/// to the output directory), and its HTML.
pub struct PageHtml {
    pub display: String,
    pub path: String,
    pub html: String,
}

/// A reference: the name of the page it is on, that page's path, and the value.
pub type Reference = (Seq<char>, Seq<char>, Seq<char>);

/// The references of one page: the `href` values first, then the `src` values,
/// each in document order.
pub open spec fn page_refs(display: Seq<char>, path: Seq<char>, html: Seq<char>) -> Seq<Reference> {
    attr_values(html, "href=\""@).map_values(|v: Seq<char>| (display, path, v)) + attr_values(
        html,
        "src=\""@,
    ).map_values(|v: Seq<char>| (display, path, v))
}

/// The references of all pages, page by page.
pub open spec fn all_refs(pages: Seq<PageHtml>) -> Seq<Reference>
    decreases pages.len(),
{
    if pages.len() == 0 {
        Seq::empty()
    } else {
        all_refs(pages.drop_last()) + page_refs(
            pages.last().display@,
            pages.last().path@,
            pages.last().html@,
        )
    }
}

pub open spec fn is_alpha(c: char) -> bool {
    ('a' <= c <= 'z') || ('A' <= c <= 'Z')
}

pub open spec fn is_scheme_char(c: char) -> bool {
    is_alpha(c) || ('0' <= c <= '9') || c == '+' || c == '-' || c == '.'
}

/// The value starts with a URL scheme (`https:`, `mailto:`, `tel:`, `data:`):
/// a letter, then letters, digits, `+`, `-` or `.`, up to the first colon.
pub open spec fn has_scheme(v: Seq<char>) -> bool {
    match first_index_of(v, ':') {
        Some(i) => i > 0 && is_alpha(v[0]) && forall|j: int|
            0 <= j < i ==> is_scheme_char(#[trigger] v[j]),
        None => false,
    }
}

/// A reference the build answers for: not empty, not another site or scheme,
/// and not only a fragment of the page itself.
pub open spec fn is_checked(v: Seq<char>) -> bool {
    v.len() > 0 && !has_scheme(v) && v[0] != '#'
}

/// What the build answers for: every path (absolute, or relative without a
/// colon) is checked; an empty value or a bare fragment is not, and neither is a
/// value whose first colon follows a letter and nothing but letters.
pub proof fn law_which_values_are_checked(v: Seq<char>, i: int)
    ensures
        v.len() > 0 && v[0] == '/' ==> is_checked(v),
        v.len() > 0 && v[0] != '#' && first_index_of(v, ':') is None ==> is_checked(v),
        v.len() == 0 || v[0] == '#' ==> !is_checked(v),
        (first_index_of(v, ':') == Some(i) && i > 0 && forall|j: int| 0 <= j < i ==> is_alpha(#[trigger] v[j]))
            ==> !is_checked(v),
{
}

/// The directory of a page, as components.
pub open spec fn page_dir(path: Seq<char>) -> Seq<Seq<char>> {
    let c = components(path);
    if c.len() == 0 {
        c
    } else {
        c.drop_last()
    }
}

/// `parts` followed from `base`: `..` goes up a level (not above the output
/// directory), anything else goes down into it.
pub open spec fn resolve_dots(base: Seq<Seq<char>>, parts: Seq<Seq<char>>) -> Seq<Seq<char>>
    decreases parts.len(),
{
    if parts.len() == 0 {
        base
    } else {
        let next = if parts[0] == seq!['.', '.'] {
            if base.len() > 0 {
                base.drop_last()
            } else {
                base
            }
        } else {
            base.push(parts[0])
        };
        resolve_dots(next, parts.drop_first())
    }
}

/// What a reference points at, as components under the output directory: an
/// absolute path from the top, a relative one from the page's directory.
pub open spec fn target_of(value: Seq<char>, dir: Seq<Seq<char>>) -> Seq<Seq<char>> {
    let base = if value.len() > 0 && value[0] == '/' {
        Seq::empty()
    } else {
        dir
    };
    resolve_dots(base, components(strip_query(value)))
}

/// A reference resolves when a written file has the path it points at, or that
/// path followed by `index.html` (a page's directory).
pub open spec fn resolves(value: Seq<char>, dir: Seq<Seq<char>>, current: Seq<Seq<char>>) -> bool {
    let target = target_of(value, dir);
    exists|i: int|
        0 <= i < current.len() && (components(#[trigger] current[i]) == target || components(
            current[i],
        ) == target.push("index.html"@))
}

/// A checked reference with nothing behind it.
pub open spec fn is_broken(value: Seq<char>, dir: Seq<Seq<char>>, current: Seq<Seq<char>>) -> bool {
    is_checked(value) && !resolves(value, dir, current)
}

/// Only a file at a reference's target, or the `index.html` in it, answers the
/// reference: nothing resolves when nothing is written, writing such a file makes
/// it resolve, and writing any other file (one beside the target, say) changes
/// nothing.
pub proof fn law_only_the_target_answers(
    value: Seq<char>,
    dir: Seq<Seq<char>>,
    current: Seq<Seq<char>>,
    f: Seq<char>,
)
    ensures
        !resolves(value, dir, Seq::empty()),
        (components(f) == target_of(value, dir) || components(f) == target_of(value, dir).push(
            "index.html"@,
        )) ==> resolves(value, dir, current.push(f)),
        (components(f) != target_of(value, dir) && components(f) != target_of(value, dir).push(
            "index.html"@,
        )) ==> resolves(value, dir, current.push(f)) == resolves(value, dir, current),
{
    let t = target_of(value, dir);
    let c = current.push(f);
    if components(f) == t || components(f) == t.push("index.html"@) {
        assert(c[current.len() as int] == f);
    }
    if components(f) != t && components(f) != t.push("index.html"@) {
        if resolves(value, dir, current) {
            let i = choose|i: int|
                0 <= i < current.len() && (components(#[trigger] current[i]) == t || components(
                    current[i],
                ) == t.push("index.html"@));
            assert(c[i] == current[i]);
        }
        if resolves(value, dir, c) {
            let i = choose|i: int|
                0 <= i < c.len() && (components(#[trigger] c[i]) == t || components(c[i]) == t.push(
                    "index.html"@,
                ));
            assert(i < current.len());
            assert(c[i] == current[i]);
        }
    }
}

/// `parts` without `..` are simply followed down from `base`.
proof fn lemma_resolve_without_dots(base: Seq<Seq<char>>, parts: Seq<Seq<char>>)
    requires
        !parts.contains(seq!['.', '.']),
    ensures
        resolve_dots(base, parts) == base + parts,
    decreases parts.len(),
{
    if parts.len() > 0 {
        assert(parts[0] != seq!['.', '.']) by {
            assert(parts.contains(parts[0]) || parts[0] != seq!['.', '.']);
        }
        if parts.drop_first().contains(seq!['.', '.']) {
            let j = choose|j: int| 0 <= j < parts.drop_first().len() && parts.drop_first()[j] == seq!['.', '.'];
            assert(parts[j + 1] == seq!['.', '.']);
        }
        lemma_resolve_without_dots(base.push(parts[0]), parts.drop_first());
        assert(base.push(parts[0]) + parts.drop_first() =~= base + parts);
    }
}

/// Without a query, a fragment or a `..`, an absolute reference points at its
/// own path from the top of the output directory, wherever the page is, and a
/// relative one at its path below the page's directory.
pub proof fn law_target_is_the_path(value: Seq<char>, dir: Seq<Seq<char>>)
    requires
        first_index_of(value, '?') is None,
        first_index_of(value, '#') is None,
        !components(value).contains(seq!['.', '.']),
    ensures
        value.len() > 0 && value[0] == '/' ==> target_of(value, dir) == components(value),
        !(value.len() > 0 && value[0] == '/') ==> target_of(value, dir) == dir + components(value),
{
    assert(strip_query(value) == value);
    lemma_resolve_without_dots(Seq::empty(), components(value));
    lemma_resolve_without_dots(dir, components(value));
    assert(Seq::<Seq<char>>::empty() + components(value) =~= components(value));
}

/// `page -> value` for each broken reference, in the order found.
pub open spec fn broken_reports(refs: Seq<Reference>, current: Seq<Seq<char>>) -> Seq<Seq<char>>
    decreases refs.len(),
{
    if refs.len() == 0 {
        Seq::empty()
    } else {
        let r = broken_reports(refs.drop_last(), current);
        if is_broken(refs.last().2, page_dir(refs.last().1), current) {
            r.push(refs.last().0 + " -> "@ + refs.last().2)
        } else {
            r
        }
    }
}

/// Nothing is reported exactly when every checked reference, absolute or
/// relative, resolves to a written file.
pub proof fn law_clean_iff_all_resolve(refs: Seq<Reference>, current: Seq<Seq<char>>)
    ensures
        broken_reports(refs, current).len() == 0 <==> forall|k: int|
            0 <= k < refs.len() ==> !is_broken(#[trigger] refs[k].2, page_dir(refs[k].1), current),
    decreases refs.len(),
{
    if refs.len() > 0 {
        let init = refs.drop_last();
        law_clean_iff_all_resolve(init, current);
        if broken_reports(refs, current).len() == 0 {
            assert forall|k: int| 0 <= k < refs.len() implies !is_broken(
                #[trigger] refs[k].2,
                page_dir(refs[k].1),
                current,
            ) by {
                if k < refs.len() - 1 {
                    assert(init[k] == refs[k]);
                }
            }
        }
        if forall|k: int|
            0 <= k < refs.len() ==> !is_broken(#[trigger] refs[k].2, page_dir(refs[k].1), current) {
            assert forall|k: int| 0 <= k < init.len() implies !is_broken(
                #[trigger] init[k].2,
                page_dir(init[k].1),
                current,
            ) by {
                assert(init[k] == refs[k]);
            }
            assert(!is_broken(refs[refs.len() - 1].2, page_dir(refs[refs.len() - 1].1), current));
        }
    }
}

/// The lines joined with `sep` between them.
pub open spec fn join(lines: Seq<Seq<char>>, sep: Seq<char>) -> Seq<char>
    decreases lines.len(),
{
    if lines.len() == 0 {
        Seq::empty()
    } else if lines.len() == 1 {
        lines[0]
    } else {
        join(lines.drop_last(), sep) + sep + lines.last()
    }
}

pub open spec fn broken_header() -> Seq<char> {
    "references with nothing behind them:\n  "@
}


fn attr_values_exec(html: &[char], attr: &[char]) -> (r: Vec<Vec<char>>)
    requires
        attr@.len() > 0,
    ensures
        views(r@) == attr_values(html@, attr@),
{
    let parts = split_chars(html, attr);
    let ghost pv = views(parts@);
    let ghost want = attr_values(html@, attr@);
    proof {
        crate::text::lemma_split_all_nonempty(html@, attr@);
    }
    let mut out: Vec<Vec<char>> = Vec::new();
    let mut i: usize = 1;
    while i < parts.len()
        invariant
            pv == views(parts@),
            pv == split_all(html@, attr@),
            want == attr_values(html@, attr@),
            1 <= i <= parts@.len(),
            views(out@) == want.take(i - 1),
        decreases parts@.len() - i,
    {
        let v = take_until_exec(&parts[i], '"');
        let ghost before = views(out@);
        out.push(v);
        assert(views(out@) =~= before.push(v@));
        assert(want[i - 1] == take_until(pv[i as int], '"'));
        i = i + 1;
        assert(views(out@) =~= want.take(i - 1));
    }
    assert(want.take(want.len() as int) =~= want);
    out
}

pub open spec fn ref_views(s: Seq<(Vec<char>, Vec<char>, Vec<char>)>) -> Seq<Reference> {
    s.map_values(|p: (Vec<char>, Vec<char>, Vec<char>)| (p.0@, p.1@, p.2@))
}

/// Appends each value, with the page's name and path.
fn push_refs(
    refs: &mut Vec<(Vec<char>, Vec<char>, Vec<char>)>,
    display: &[char],
    path: &[char],
    values: &Vec<Vec<char>>,
)
    ensures
        ref_views(final(refs)@) == ref_views(old(refs)@) + views(values@).map_values(
            |v: Seq<char>| (display@, path@, v),
        ),
{
    let ghost want = views(values@).map_values(|v: Seq<char>| (display@, path@, v));
    let mut i: usize = 0;
    while i < values.len()
        invariant
            want == views(values@).map_values(|v: Seq<char>| (display@, path@, v)),
            i <= values@.len(),
            ref_views(refs@) == ref_views(old(refs)@) + want.take(i as int),
        decreases values@.len() - i,
    {
        let d = sub_chars(display, 0, display.len());
        let p = sub_chars(path, 0, path.len());
        let v = sub_chars(&values[i], 0, values[i].len());
        assert(d@ =~= display@);
        assert(p@ =~= path@);
        assert(v@ =~= values@[i as int]@);
        let ghost before = ref_views(refs@);
        refs.push((d, p, v));
        assert(ref_views(refs@) =~= before.push((display@, path@, values@[i as int]@)));
        i = i + 1;
        assert(ref_views(refs@) =~= ref_views(old(refs)@) + want.take(i as int));
    }
    assert(want.take(want.len() as int) =~= want);
}

fn is_alpha_exec(c: char) -> (r: bool)
    ensures
        r == is_alpha(c),
{
    ('a' <= c && c <= 'z') || ('A' <= c && c <= 'Z')
}

/// Whether the value starts with a URL scheme.
fn has_scheme_exec(v: &[char]) -> (r: bool)
    ensures
        r == has_scheme(v@),
{
    match first_index_of_exec(v, ':') {
        None => false,
        Some(i) => {
            if i == 0 || !is_alpha_exec(v[0]) {
                return false;
            }
            let mut j: usize = 0;
            while j < i
                invariant
                    i < v@.len(),
                    first_index_of(v@, ':') == Some(i as int),
                    j <= i,
                    forall|k: int| 0 <= k < j ==> is_scheme_char(#[trigger] v@[k]),
                decreases i - j,
            {
                let c = v[j];
                if !(is_alpha_exec(c) || ('0' <= c && c <= '9') || c == '+' || c == '-' || c == '.') {
                    assert(!is_scheme_char(v@[j as int]));
                    return false;
                }
                j = j + 1;
            }
            true
        },
    }
}

/// Whether the build answers for this reference.
fn is_checked_exec(v: &[char]) -> (r: bool)
    ensures
        r == is_checked(v@),
{
    v.len() > 0 && !has_scheme_exec(v) && v[0] != '#'
}

/// The directory of a page, as components.
fn page_dir_exec(path: &[char]) -> (r: Vec<Vec<char>>)
    ensures
        views(r@) == page_dir(path@),
{
    let mut c = components_exec(path);
    if c.len() > 0 {
        let ghost before = views(c@);
        c.pop();
        assert(views(c@) =~= before.drop_last());
    }
    c
}

/// `parts` followed from `base`.
fn resolve_dots_exec(base: Vec<Vec<char>>, parts: &Vec<Vec<char>>) -> (r: Vec<Vec<char>>)
    ensures
        views(r@) == resolve_dots(views(base@), views(parts@)),
{
    let ghost want = resolve_dots(views(base@), views(parts@));
    let ghost pv = views(parts@);
    let mut cur = base;
    let mut i: usize = 0;
    let dots: Vec<char> = vec!['.', '.'];
    assert(dots@ =~= seq!['.', '.']);
    assert(pv.skip(0) =~= pv);
    while i < parts.len()
        invariant
            pv == views(parts@),
            dots@ == seq!['.', '.'],
            i <= parts@.len(),
            resolve_dots(views(cur@), pv.skip(i as int)) == want,
        decreases parts@.len() - i,
    {
        let ghost rest = pv.skip(i as int);
        assert(rest[0] == parts@[i as int]@);
        assert(rest.drop_first() =~= pv.skip(i + 1));
        let ghost before = views(cur@);
        if chars_eq(&parts[i], &dots) {
            if cur.len() > 0 {
                cur.pop();
                assert(views(cur@) =~= before.drop_last());
            }
        } else {
            let copy = sub_chars(&parts[i], 0, parts[i].len());
            assert(copy@ =~= parts@[i as int]@);
            cur.push(copy);
            assert(views(cur@) =~= before.push(parts@[i as int]@));
        }
        i = i + 1;
    }
    assert(pv.skip(parts@.len() as int) =~= Seq::<Seq<char>>::empty());
    cur
}

/// Whether two component lists are equal.
fn components_eq(a: &Vec<Vec<char>>, b: &Vec<Vec<char>>) -> (r: bool)
    ensures
        r == (views(a@) == views(b@)),
{
    if a.len() != b.len() {
        assert(views(a@).len() != views(b@).len());
        return false;
    }
    let mut i: usize = 0;
    while i < a.len()
        invariant
            a@.len() == b@.len(),
            i <= a@.len(),
            forall|j: int| 0 <= j < i ==> a@[j]@ == b@[j]@,
        decreases a@.len() - i,
    {
        if !chars_eq(&a[i], &b[i]) {
            assert(views(a@)[i as int] != views(b@)[i as int]);
            return false;
        }
        i = i + 1;
    }
    assert(views(a@) =~= views(b@));
    true
}

/// Whether `value`, on a page in directory `dir`, resolves to one of the written
/// files, given as their component lists.
fn resolves_exec(
    value: &[char],
    dir: &Vec<Vec<char>>,
    current: &Vec<Vec<Vec<char>>>,
    ghost_current: Ghost<Seq<Seq<char>>>,
) -> (r: bool)
    requires
        current@.len() == ghost_current@.len(),
        forall|i: int| 0 <= i < current@.len() ==> views(#[trigger] current@[i]@) == components(ghost_current@[i]),
    ensures
        r == resolves(value@, views(dir@), ghost_current@),
{
    let path = take_until_exec(&take_until_exec(value, '?'), '#');
    let parts = components_exec(&path);
    let target = if value.len() > 0 && value[0] == '/' {
        let top: Vec<Vec<char>> = Vec::new();
        assert(views(top@) =~= Seq::<Seq<char>>::empty());
        resolve_dots_exec(top, &parts)
    } else {
        let mut base: Vec<Vec<char>> = Vec::new();
        let mut k: usize = 0;
        while k < dir.len()
            invariant
                k <= dir@.len(),
                views(base@) == views(dir@).take(k as int),
            decreases dir@.len() - k,
        {
            let copy = sub_chars(&dir[k], 0, dir[k].len());
            assert(copy@ =~= dir@[k as int]@);
            let ghost before = views(base@);
            base.push(copy);
            assert(views(base@) =~= before.push(dir@[k as int]@));
            assert(views(dir@).take(k + 1) =~= views(dir@).take(k as int).push(views(dir@)[k as int]));
            k = k + 1;
        }
        assert(views(dir@).take(dir@.len() as int) =~= views(dir@));
        resolve_dots_exec(base, &parts)
    };
    assert(views(target@) == target_of(value@, views(dir@)));
    let mut index_target: Vec<Vec<char>> = Vec::new();
    let mut k: usize = 0;
    while k < target.len()
        invariant
            k <= target@.len(),
            views(index_target@) == views(target@).take(k as int),
        decreases target@.len() - k,
    {
        let copy = sub_chars(&target[k], 0, target[k].len());
        assert(copy@ =~= target@[k as int]@);
        let ghost before = views(index_target@);
        index_target.push(copy);
        assert(views(index_target@) =~= before.push(target@[k as int]@));
        assert(views(target@).take(k + 1) =~= views(target@).take(k as int).push(views(target@)[k as int]));
        k = k + 1;
    }
    assert(views(target@).take(target@.len() as int) =~= views(target@));
    let index_html = chars_of("index.html");
    let ghost before_index = views(index_target@);
    index_target.push(index_html);
    assert(views(index_target@) =~= before_index.push("index.html"@));
    let mut i: usize = 0;
    while i < current.len()
        invariant
            current@.len() == ghost_current@.len(),
            forall|j: int| 0 <= j < current@.len() ==> views(#[trigger] current@[j]@) == components(ghost_current@[j]),
            views(target@) == target_of(value@, views(dir@)),
            views(index_target@) == target_of(value@, views(dir@)).push("index.html"@),
            i <= current@.len(),
            forall|j: int|
                0 <= j < i ==> !(components(#[trigger] ghost_current@[j]) == target_of(value@, views(dir@))
                    || components(ghost_current@[j]) == target_of(value@, views(dir@)).push("index.html"@)),
        decreases current@.len() - i,
    {
        assert(views(current@[i as int]@) == components(ghost_current@[i as int]));
        if components_eq(&current[i], &target) || components_eq(&current[i], &index_target) {
            return true;
        }
        i = i + 1;
    }
    false
}


/// The members of `set` joined with `sep` between them.
fn join_exec(set: &StrSet, sep: &str) -> (r: String)
    ensures
        r@ == join(set.view_seq(), sep@),
{
    let ghost l = set.view_seq();
    let mut out = String::new();
    let mut k: usize = 0;
    assert(l.take(0) =~= Seq::<Seq<char>>::empty());
    while k < set.len()
        invariant
            l == set.view_seq(),
            k <= l.len(),
            out@ == join(l.take(k as int), sep@),
        decreases l.len() - k,
    {
        assert(l.take(k + 1).drop_last() =~= l.take(k as int));
        assert(l.take(k + 1).last() == l[k as int]);
        if k > 0 {
            out.append(sep);
        } else {
            assert(out@ =~= Seq::<char>::empty());
        }
        out.append(set.get(k).as_str());
        k = k + 1;
    }
    assert(l.take(l.len() as int) =~= l);
    out
}

/// The written files' paths, relative to the output directory.
pub open spec fn path_views(current: Seq<String>) -> Seq<Seq<char>> {
    current.map_values(|s: String| s@)
}

/// Checks every `href` and `src` of the written pages against the files written
/// (`current`, paths relative to the output directory): absolute paths from the
/// top, relative ones from the page's directory. Other sites, other schemes and
/// bare fragments are not checked. The error lists each broken reference once,
/// as `page -> value`, in order.
pub fn check_references(pages: &[PageHtml], current: &[String]) -> (r: Result<(), String>)
    ensures
        r is Ok <==> broken_reports(all_refs(pages@), path_views(current@)).len() == 0,
        r matches Err(msg) ==> exists|l: Seq<Seq<char>>|
            strictly_sorted(l) && l.to_set() == broken_reports(
                all_refs(pages@),
                path_views(current@),
            ).to_set() && msg@ == broken_header() + join(l, "\n  "@),
{
    let ghost cur = path_views(current@);
    let mut cc: Vec<Vec<Vec<char>>> = Vec::new();
    let mut i: usize = 0;
    while i < current.len()
        invariant
            cur == path_views(current@),
            i <= current@.len(),
            cc@.len() == i,
            forall|j: int| 0 <= j < i ==> views(#[trigger] cc@[j]@) == components(cur[j]),
        decreases current@.len() - i,
    {
        cc.push(components_exec(&chars_of(current[i].as_str())));
        i = i + 1;
    }

    proof {
        reveal_strlit("href=\"");
        reveal_strlit("src=\"");
    }
    let href_attr = chars_of("href=\"");
    let src_attr = chars_of("src=\"");
    let mut refs: Vec<(Vec<char>, Vec<char>, Vec<char>)> = Vec::new();
    let mut p: usize = 0;
    assert(pages@.take(0) =~= Seq::<PageHtml>::empty());
    while p < pages.len()
        invariant
            href_attr@ == "href=\""@,
            src_attr@ == "src=\""@,
            href_attr@.len() > 0,
            src_attr@.len() > 0,
            p <= pages@.len(),
            ref_views(refs@) == all_refs(pages@.take(p as int)),
        decreases pages@.len() - p,
    {
        assert(pages@.take(p + 1).drop_last() =~= pages@.take(p as int));
        assert(pages@.take(p + 1).last() == pages@[p as int]);
        let display = chars_of(pages[p].display.as_str());
        let path = chars_of(pages[p].path.as_str());
        let html = chars_of(pages[p].html.as_str());
        let ghost before = ref_views(refs@);
        push_refs(&mut refs, &display, &path, &attr_values_exec(&html, &href_attr));
        push_refs(&mut refs, &display, &path, &attr_values_exec(&html, &src_attr));
        assert(ref_views(refs@) =~= before + page_refs(display@, path@, html@));
        p = p + 1;
    }
    assert(pages@.take(pages@.len() as int) =~= pages@);

    let ghost rv = ref_views(refs@);
    let mut set = StrSet::new();
    let mut k: usize = 0;
    assert(rv.take(0) =~= Seq::<Reference>::empty());
    assert(broken_reports(rv.take(0), cur).to_set() =~= Set::<Seq<char>>::empty());
    while k < refs.len()
        invariant
            cur == path_views(current@),
            cc@.len() == cur.len(),
            forall|j: int| 0 <= j < cc@.len() ==> views(#[trigger] cc@[j]@) == components(cur[j]),
            rv == ref_views(refs@),
            k <= rv.len(),
            set.wf(),
            set.view_seq().to_set() == broken_reports(rv.take(k as int), cur).to_set(),
        decreases rv.len() - k,
    {
        assert(rv.take(k + 1).drop_last() =~= rv.take(k as int));
        assert(rv.take(k + 1).last() == rv[k as int]);
        let entry = &refs[k];
        let value = &entry.2;
        let dir = page_dir_exec(&entry.1);
        if is_checked_exec(value) && !resolves_exec(value, &dir, &cc, Ghost(cur)) {
            let mut msg = sub_chars(&entry.0, 0, entry.0.len());
            let arrow = chars_of(" -> ");
            append_chars(&mut msg, &arrow);
            append_chars(&mut msg, value);
            assert(msg@ =~= entry.0@ + " -> "@ + entry.2@);
            let ghost prev = broken_reports(rv.take(k as int), cur);
            set.insert(string_of(&msg));
            proof {
                prev.lemma_push_to_set_commute(msg@);
            }
        }
        k = k + 1;
    }
    assert(rv.take(rv.len() as int) =~= rv);
    let ghost reports = broken_reports(rv, cur);
    if set.len() == 0 {
        proof {
            if reports.len() > 0 {
                assert(reports.to_set().contains(reports[0]));
                assert(set.view_seq().to_set().contains(reports[0]));
            }
        }
        Ok(())
    } else {
        proof {
            if reports.len() == 0 {
                assert(set.view_seq().to_set().contains(set.view_seq()[0]));
            }
        }
        let mut out = String::from_str("references with nothing behind them:\n  ");
        out.append(join_exec(&set, "\n  ").as_str());
        Err(out)
    }
}


// Pruning. `dist/` is written entirely by the build, so anything else in it is
// from an earlier build: a removed page's directory, or the previous hash of a
// changed file.

/// Whether `f` names the same path as a kept file.
pub open spec fn is_kept(f: Seq<char>, keep: Seq<Seq<char>>) -> bool {
    exists|k: int| 0 <= k < keep.len() && components(#[trigger] keep[k]) == components(f)
}

/// A file to delete: it is not kept.
pub open spec fn stale_pred(keep: Seq<Seq<char>>) -> spec_fn(Seq<char>) -> bool {
    |f: Seq<char>| !is_kept(f, keep)
}

/// A file to leave: it is kept.
pub open spec fn kept_pred(keep: Seq<Seq<char>>) -> spec_fn(Seq<char>) -> bool {
    |f: Seq<char>| is_kept(f, keep)
}

/// `p` is a proper ancestor of `c`, both as component lists.
pub open spec fn is_below(p: Seq<Seq<char>>, c: Seq<Seq<char>>) -> bool {
    p.len() < c.len() && c.take(p.len() as int) == p
}

/// A directory to remove: one below `dist/` with no kept file beneath it.
pub open spec fn removable(d: Seq<char>, keep: Seq<Seq<char>>) -> bool {
    components(d).len() > 0 && forall|k: int|
        0 <= k < keep.len() ==> !is_below(components(d), components(#[trigger] keep[k]))
}

/// A directory to leave.
pub open spec fn lasting_pred(keep: Seq<Seq<char>>) -> spec_fn(Seq<char>) -> bool {
    |d: Seq<char>| !removable(d, keep)
}

/// What is left of the files afterwards is exactly the kept ones.
pub proof fn law_prune_leaves_kept_files(files: Seq<Seq<char>>, keep: Seq<Seq<char>>)
    ensures
        forall|f: Seq<char>|
            (files.contains(f) && !(#[trigger] files.filter(stale_pred(keep)).contains(f))) <==> (
            files.contains(f) && is_kept(f, keep)),
{
    broadcast use vstd::seq_lib::group_filter_ensures;

    assert forall|f: Seq<char>|
        (files.contains(f) && !(#[trigger] files.filter(stale_pred(keep)).contains(f))) <==> (
        files.contains(f) && is_kept(f, keep)) by {
        if files.contains(f) {
            let i = choose|i: int| 0 <= i < files.len() && files[i] == f;
            if !is_kept(f, keep) {
                assert(stale_pred(keep)(files[i]));
                files.lemma_filter_contains(stale_pred(keep), i);
            }
            if files.filter(stale_pred(keep)).contains(f) {
                let j = choose|j: int|
                    0 <= j < files.filter(stale_pred(keep)).len() && files.filter(stale_pred(keep))[j]
                        == f;
                files.lemma_filter_pred(stale_pred(keep), j);
            }
        }
    }
}

/// No directory below `dist/` is left empty: one that is not removed has a kept
/// file beneath it.
pub proof fn law_no_empty_dir_left(d: Seq<char>, keep: Seq<Seq<char>>)
    requires
        components(d).len() > 0,
        !removable(d, keep),
    ensures
        exists|k: int| 0 <= k < keep.len() && is_below(components(d), components(#[trigger] keep[k])),
{
}

/// A directory with a kept file anywhere beneath it, at any depth, is never
/// removed: if a kept file's components are the directory's followed by one or
/// more others, the directory stays.
pub proof fn law_dir_above_kept_file_stays(d: Seq<char>, keep: Seq<Seq<char>>, k: int, rest: Seq<Seq<char>>)
    requires
        0 <= k < keep.len(),
        rest.len() > 0,
        components(keep[k]) == components(d) + rest,
    ensures
        !removable(d, keep),
{
    assert(components(keep[k]).take(components(d).len() as int) =~= components(d));
}

/// A directory below `dist/` stays only for a kept file beneath it: one with more
/// components than the directory, starting with the directory's.
pub proof fn law_dir_stays_only_for_a_kept_file(d: Seq<char>, keep: Seq<Seq<char>>)
    requires
        components(d).len() > 0,
        !removable(d, keep),
    ensures
        exists|k: int|
            0 <= k < keep.len() && components(#[trigger] keep[k]).len() > components(d).len()
                && components(keep[k]).take(components(d).len() as int) == components(d),
{
}

/// Pruning twice changes nothing: of what the first pass leaves, no file is
/// stale and no directory is removable.
pub proof fn law_prune_is_idempotent(files: Seq<Seq<char>>, dirs: Seq<Seq<char>>, keep: Seq<Seq<char>>)
    ensures
        files.filter(kept_pred(keep)).filter(stale_pred(keep)).len() == 0,
        forall|d: Seq<char>|
            #[trigger] dirs.filter(lasting_pred(keep)).contains(d) ==> !removable(d, keep),
{
    broadcast use vstd::seq_lib::group_filter_ensures;

    let left = files.filter(kept_pred(keep));
    if left.filter(stale_pred(keep)).len() > 0 {
        left.lemma_filter_pred(stale_pred(keep), 0);
        let f = left.filter(stale_pred(keep))[0];
        assert(left.filter(stale_pred(keep)).contains(f));
        left.lemma_filter_contains_rev(stale_pred(keep), f);
        let i = choose|i: int| 0 <= i < left.len() && left[i] == f;
        files.lemma_filter_pred(kept_pred(keep), i);
    }
    assert forall|d: Seq<char>| #[trigger] dirs.filter(lasting_pred(keep)).contains(d) implies !removable(
        d,
        keep,
    ) by {
        let r = dirs.filter(lasting_pred(keep));
        let j = choose|j: int| 0 <= j < r.len() && r[j] == d;
        dirs.lemma_filter_pred(lasting_pred(keep), j);
    }
}

/// The component lists of the kept paths.
fn components_of_all(keep: &[String]) -> (r: Vec<Vec<Vec<char>>>)
    ensures
        r@.len() == keep@.len(),
        forall|k: int| 0 <= k < r@.len() ==> views(#[trigger] r@[k]@) == components(keep@[k]@),
{
    let mut r: Vec<Vec<Vec<char>>> = Vec::new();
    let mut i: usize = 0;
    while i < keep.len()
        invariant
            i <= keep@.len(),
            r@.len() == i,
            forall|k: int| 0 <= k < i ==> views(#[trigger] r@[k]@) == components(keep@[k]@),
        decreases keep@.len() - i,
    {
        r.push(components_exec(&chars_of(keep[i].as_str())));
        i = i + 1;
    }
    r
}

/// Whether the path with components `f` is one of the kept paths.
fn is_kept_exec(f: &Vec<Vec<char>>, keep: &Vec<Vec<Vec<char>>>, ghost_keep: Ghost<Seq<Seq<char>>>, ghost_f: Ghost<Seq<char>>) -> (r: bool)
    requires
        views(f@) == components(ghost_f@),
        keep@.len() == ghost_keep@.len(),
        forall|k: int| 0 <= k < keep@.len() ==> views(#[trigger] keep@[k]@) == components(ghost_keep@[k]),
    ensures
        r == is_kept(ghost_f@, ghost_keep@),
{
    let mut k: usize = 0;
    while k < keep.len()
        invariant
            views(f@) == components(ghost_f@),
            keep@.len() == ghost_keep@.len(),
            forall|j: int| 0 <= j < keep@.len() ==> views(#[trigger] keep@[j]@) == components(ghost_keep@[j]),
            k <= keep@.len(),
            forall|j: int| 0 <= j < k ==> components(#[trigger] ghost_keep@[j]) != components(ghost_f@),
        decreases keep@.len() - k,
    {
        assert(views(keep@[k as int]@) == components(ghost_keep@[k as int]));
        if components_eq(&keep[k], f) {
            return true;
        }
        k = k + 1;
    }
    false
}

/// Whether nothing kept lies beneath the directory with components `d`.
fn nothing_kept_below(d: &Vec<Vec<char>>, keep: &Vec<Vec<Vec<char>>>, ghost_keep: Ghost<Seq<Seq<char>>>) -> (r: bool)
    requires
        keep@.len() == ghost_keep@.len(),
        forall|k: int| 0 <= k < keep@.len() ==> views(#[trigger] keep@[k]@) == components(ghost_keep@[k]),
    ensures
        r == forall|k: int|
            0 <= k < ghost_keep@.len() ==> !is_below(views(d@), components(#[trigger] ghost_keep@[k])),
{
    let mut k: usize = 0;
    while k < keep.len()
        invariant
            keep@.len() == ghost_keep@.len(),
            forall|j: int| 0 <= j < keep@.len() ==> views(#[trigger] keep@[j]@) == components(ghost_keep@[j]),
            k <= keep@.len(),
            forall|j: int| 0 <= j < k ==> !is_below(views(d@), components(#[trigger] ghost_keep@[j])),
        decreases keep@.len() - k,
    {
        let c = &keep[k];
        assert(views(c@) == components(ghost_keep@[k as int]));
        if d.len() < c.len() {
            let mut prefix: Vec<Vec<char>> = Vec::new();
            let mut i: usize = 0;
            while i < d.len()
                invariant
                    d@.len() < c@.len(),
                    i <= d@.len(),
                    views(prefix@) == views(c@).take(i as int),
                decreases d@.len() - i,
            {
                let copy = sub_chars(&c[i], 0, c[i].len());
                assert(copy@ =~= c@[i as int]@);
                let ghost before = views(prefix@);
                prefix.push(copy);
                assert(views(prefix@) =~= before.push(c@[i as int]@));
                assert(views(c@).take(i + 1) =~= views(c@).take(i as int).push(views(c@)[i as int]));
                i = i + 1;
            }
            if components_eq(&prefix, d) {
                assert(is_below(views(d@), views(c@)));
                return false;
            }
        }
        k = k + 1;
    }
    true
}

/// Files under `dist/` (paths relative to it) that are neither a written page
/// nor a published asset, in the order given.
pub fn stale_files(files: &[String], keep: &[String]) -> (r: Vec<String>)
    ensures
        path_views(r@) == path_views(files@).filter(stale_pred(path_views(keep@))),
{
    let ghost kv = path_views(keep@);
    let ghost fv = path_views(files@);
    let kc = components_of_all(keep);
    let mut out: Vec<String> = Vec::new();
    let mut i: usize = 0;
    assert(fv.take(0) =~= Seq::<Seq<char>>::empty());
    assert(Seq::<Seq<char>>::empty().filter(stale_pred(kv)) =~= Seq::<Seq<char>>::empty()) by {
        reveal_with_fuel(Seq::<_>::filter, 1);
    }
    while i < files.len()
        invariant
            kv == path_views(keep@),
            fv == path_views(files@),
            kc@.len() == kv.len(),
            forall|k: int| 0 <= k < kc@.len() ==> views(#[trigger] kc@[k]@) == components(kv[k]),
            i <= files@.len(),
            path_views(out@) == fv.take(i as int).filter(stale_pred(kv)),
        decreases files@.len() - i,
    {
        assert(fv.take(i + 1) =~= fv.take(i as int).push(fv[i as int]));
        proof {
            fv.take(i as int).lemma_filter_push(fv[i as int], stale_pred(kv));
        }
        let fc = components_exec(&chars_of(files[i].as_str()));
        let ghost before = path_views(out@);
        if !is_kept_exec(&fc, &kc, Ghost(kv), Ghost(fv[i as int])) {
            out.push(files[i].clone());
            assert(path_views(out@) =~= before.push(fv[i as int]));
        }
        i = i + 1;
    }
    assert(fv.take(files@.len() as int) =~= fv);
    out
}

/// Directories to remove once the stale files are gone: every one below `dist/`
/// with no kept file beneath it, each after the directories inside it.
pub fn empty_dirs(dirs: &[String], keep: &[String]) -> (r: Vec<String>)
    ensures
        forall|d: Seq<char>|
            path_views(r@).contains(d) <==> (path_views(dirs@).contains(d) && removable(
                d,
                path_views(keep@),
            )),
        forall|i: int, j: int|
            0 <= i < j < r@.len() ==> !is_below(
                components(#[trigger] r@[i]@),
                components(#[trigger] r@[j]@),
            ),
{
    let ghost kv = path_views(keep@);
    let ghost dv = path_views(dirs@);
    let kc = components_of_all(keep);
    let mut out: Vec<String> = Vec::new();
    let mut depths: Vec<usize> = Vec::new();
    let mut i: usize = 0;
    while i < dirs.len()
        invariant
            kv == path_views(keep@),
            dv == path_views(dirs@),
            kc@.len() == kv.len(),
            forall|k: int| 0 <= k < kc@.len() ==> views(#[trigger] kc@[k]@) == components(kv[k]),
            i <= dirs@.len(),
            depths@.len() == out@.len(),
            forall|k: int| 0 <= k < out@.len() ==> #[trigger] depths@[k] == components(out@[k]@).len(),
            forall|a: int, b: int| 0 <= a < b < out@.len() ==> #[trigger] depths@[a] >= #[trigger] depths@[b],
            forall|d: Seq<char>|
                #![trigger path_views(out@).contains(d)]
                #![trigger dv.take(i as int).contains(d)]
                path_views(out@).contains(d) <==> (dv.take(i as int).contains(d) && removable(d, kv)),
        decreases dirs@.len() - i,
    {
        let ghost d = dv[i as int];
        assert(dv.take(i + 1) =~= dv.take(i as int).push(d));
        let dc = components_exec(&chars_of(dirs[i].as_str()));
        let ghost before = path_views(out@);
        let ghost before_depths = depths@;
        let ghost t0 = dv.take(i as int);
        assert(forall|e: Seq<char>|
            #![trigger before.contains(e)]
            #![trigger t0.contains(e)]
            before.contains(e) <==> (t0.contains(e) && removable(e, kv)));
        if dc.len() > 0 && nothing_kept_below(&dc, &kc, Ghost(kv)) {
            assert(removable(d, kv));
            let depth = dc.len();
            let mut p: usize = 0;
            while p < depths.len() && depths[p] >= depth
                invariant
                    p <= depths@.len(),
                    forall|k: int| 0 <= k < p ==> #[trigger] depths@[k] >= depth,
                decreases depths@.len() - p,
            {
                p = p + 1;
            }
            out.insert(p, dirs[i].clone());
            depths.insert(p, depth);
            assert(path_views(out@) =~= before.insert(p as int, d));
            assert forall|a: int, b: int| 0 <= a < b < out@.len() implies #[trigger] depths@[a]
                >= #[trigger] depths@[b] by {
                if b < p {
                    assert(depths@[a] == before_depths[a] && depths@[b] == before_depths[b]);
                } else if b == p {
                    assert(depths@[a] == before_depths[a]);
                } else if a < p {
                    assert(depths@[a] == before_depths[a] && depths@[b] == before_depths[b - 1]);
                    assert(before_depths[p as int] < depth);
                } else if a == p {
                    assert(depths@[b] == before_depths[b - 1]);
                    assert(before_depths[p as int] < depth);
                } else {
                    assert(depths@[a] == before_depths[a - 1] && depths@[b] == before_depths[b - 1]);
                }
            }
            assert forall|k: int| 0 <= k < out@.len() implies #[trigger] depths@[k] == components(out@[k]@).len() by {
                if k < p {
                    assert(depths@[k] == before_depths[k]);
                } else if k > p {
                    assert(depths@[k] == before_depths[k - 1]);
                }
            }
            assert forall|e: Seq<char>|
                #![trigger path_views(out@).contains(e)]
                #![trigger dv.take(i + 1).contains(e)]
                path_views(out@).contains(e) <==> (dv.take(i + 1).contains(e) && removable(e, kv)) by {
                let t = dv.take(i + 1);
                let t0 = dv.take(i as int);
                if path_views(out@).contains(e) {
                    let k = choose|k: int| 0 <= k < path_views(out@).len() && path_views(out@)[k] == e;
                    if k < p {
                        assert(before[k] == e);
                    } else if k > p {
                        assert(before[k - 1] == e);
                    }
                    if e != d {
                        assert(before.contains(e));
                        let m = choose|m: int| 0 <= m < t0.len() && t0[m] == e;
                        assert(t[m] == e);
                    } else {
                        assert(t[i as int] == e);
                    }
                }
                if t.contains(e) && removable(e, kv) {
                    if e == d {
                        assert(path_views(out@)[p as int] == e);
                    } else {
                        let m = choose|m: int| 0 <= m < t.len() && t[m] == e;
                        assert(t0[m] == e);
                        assert(before.contains(e));
                        let k = choose|k: int| 0 <= k < before.len() && before[k] == e;
                        if k < p {
                            assert(path_views(out@)[k] == e);
                        } else {
                            assert(path_views(out@)[k + 1] == e);
                        }
                    }
                }
            }
        } else {
            assert(!removable(d, kv));
            assert forall|e: Seq<char>|
                #![trigger path_views(out@).contains(e)]
                #![trigger dv.take(i + 1).contains(e)]
                path_views(out@).contains(e) <==> (dv.take(i + 1).contains(e) && removable(e, kv)) by {
                let t = dv.take(i + 1);
                let t0 = dv.take(i as int);
                if path_views(out@).contains(e) {
                    let m = choose|m: int| 0 <= m < t0.len() && t0[m] == e;
                    assert(t[m] == e);
                }
                if t.contains(e) && removable(e, kv) {
                    let m = choose|m: int| 0 <= m < t.len() && t[m] == e;
                    if m < i {
                        assert(t0[m] == e);
                    }
                }
            }
        }
        i = i + 1;
    }
    assert(dv.take(dirs@.len() as int) =~= dv);
    assert forall|a: int, b: int| 0 <= a < b < out@.len() implies !is_below(
        components(#[trigger] out@[a]@),
        components(#[trigger] out@[b]@),
    ) by {
        assert(depths@[a] >= depths@[b]);
    }
    out
}

} // verus!

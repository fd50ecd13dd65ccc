//! Assets are content-hashed into their filename and published only if something
//! asked for one.
//!
//! Fonts, images and stylesheets are served as immutable, so a stable URL is a
//! promise the build cannot keep; a hashed one makes it true.

use vstd::prelude::*;
use crate::order::{StrSet, strictly_sorted};
use crate::text::{append_chars, chars_of, replace_all, replace_chars, str_eq, string_of};

verus! {

/// The SHA-256 digest of `data`, as `sha2` computes it.
pub uninterp spec fn sha256_digest(data: Seq<u8>) -> Seq<u8>;

/// `<sha2::Sha256 as sha2::Digest>::digest`: the 32-byte SHA-256 digest of `data`.
///
/// The contract claims that the result is the named digest of the input and that
/// it is 32 bytes long, as the output size of `Sha256` is fixed at 32.
#[verifier::external_body]
fn sha256(data: &[u8]) -> (r: Vec<u8>)
    ensures
        r@ == sha256_digest(data@),
        r@.len() == 32,
{
    <sha2::Sha256 as sha2::Digest>::digest(data).to_vec()
}

/// The lower-case hexadecimal digit for `n < 16`.
pub open spec fn hex_digit(n: int) -> char {
    if n < 10 {
        (48 + n) as char
    } else {
        (87 + n) as char
    }
}

/// Lower-case hexadecimal, two digits per byte (`format!("{:x}", ..)` of a digest).
pub open spec fn hex_of(bytes: Seq<u8>) -> Seq<char>
    decreases bytes.len(),
{
    if bytes.len() == 0 {
        Seq::empty()
    } else {
        hex_of(bytes.drop_last()) + seq![
            hex_digit(bytes.last() as int / 16),
            hex_digit(bytes.last() as int % 16),
        ]
    }
}

/// The names whose URLs are fixed by convention: crawlers ask for `/robots.txt`
/// and `/sitemap.xml`, and browsers for `/favicon.ico`.
pub open spec fn is_fixed(name: Seq<char>) -> bool {
    name == "favicon.ico"@ || name == "robots.txt"@ || name == "sitemap.xml"@
}

/// The index of the last occurrence of `c` in `s`.
pub open spec fn last_index_of(s: Seq<char>, c: char) -> Option<int>
    decreases s.len(),
{
    if s.len() == 0 {
        None
    } else if s.last() == c {
        Some(s.len() - 1)
    } else {
        last_index_of(s.drop_last(), c)
    }
}

/// The published file name of an asset whose body has the given digest:
/// `logo.png` becomes `logo.a1b2c3d4.png`, the hash being the first eight hex
/// digits of the digest, placed before the last extension (or appended when
/// there is none). The conventional names are published as they are.
pub open spec fn spec_published(name: Seq<char>, digest: Seq<u8>) -> Seq<char> {
    if is_fixed(name) {
        name
    } else {
        let hash = hex_of(digest.take(4));
        match last_index_of(name, '.') {
            Some(i) => name.take(i) + seq!['.'] + hash + seq!['.'] + name.skip(i + 1),
            None => name + seq!['.'] + hash,
        }
    }
}

fn hex_digit_exec(n: u8) -> (c: char)
    requires
        n < 16,
    ensures
        c == hex_digit(n as int),
{
    if n < 10 {
        (48u8 + n) as char
    } else {
        (87u8 + n) as char
    }
}

fn last_index_of_exec(s: &[char], c: char) -> (r: Option<usize>)
    ensures
        r matches Some(i) ==> last_index_of(s@, c) == Some(i as int) && i < s@.len(),
        r is None ==> last_index_of(s@, c) is None,
{
    let mut i: usize = s.len();
    assert(s@.take(i as int) =~= s@);
    while i > 0
        invariant
            i <= s@.len(),
            last_index_of(s@, c) == last_index_of(s@.take(i as int), c),
        decreases i,
    {
        assert(s@.take(i as int).drop_last() =~= s@.take(i - 1));
        if s[i - 1] == c {
            return Some(i - 1);
        }
        i = i - 1;
    }
    None
}

/// The published file name for `name` given the SHA-256 digest of its body.
pub fn published_name(name: &str, digest: &[u8]) -> (r: String)
    requires
        digest@.len() >= 4,
    ensures
        r@ == spec_published(name@, digest@),
{
    if str_eq(name, "favicon.ico") || str_eq(name, "robots.txt") || str_eq(name, "sitemap.xml") {
        return String::from_str(name);
    }
    let cs = chars_of(name);
    let mut hash: Vec<char> = Vec::new();
    let mut k: usize = 0;
    while k < 4
        invariant
            k <= 4,
            digest@.len() >= 4,
            hash@ == hex_of(digest@.take(k as int)),
        decreases 4 - k,
    {
        let b = digest[k];
        hash.push(hex_digit_exec(b / 16));
        hash.push(hex_digit_exec(b % 16));
        k = k + 1;
        assert(digest@.take(k as int).drop_last() =~= digest@.take(k - 1));
        assert(hash@ =~= hex_of(digest@.take(k as int)));
    }
    let mut out: Vec<char> = Vec::new();
    match last_index_of_exec(&cs, '.') {
        Some(i) => {
            let mut j: usize = 0;
            while j < i
                invariant
                    i < cs@.len(),
                    j <= i,
                    out@ == cs@.take(j as int),
                decreases i - j,
            {
                out.push(cs[j]);
                j = j + 1;
                assert(out@ =~= cs@.take(j as int));
            }
            out.push('.');
            append_chars(&mut out, &hash);
            out.push('.');
            assert(i < cs.len());
            let mut j: usize = i + 1;
            let ghost mid = out@;
            while j < cs.len()
                invariant
                    i < cs@.len(),
                    i + 1 <= j <= cs@.len(),
                    out@ == mid + cs@.subrange(i + 1, j as int),
                decreases cs@.len() - j,
            {
                out.push(cs[j]);
                j = j + 1;
                assert(out@ =~= mid + cs@.subrange(i + 1, j as int));
            }
            assert(out@ =~= cs@.take(i as int) + seq!['.'] + hash@ + seq!['.'] + cs@.skip(i + 1));
        },
        None => {
            append_chars(&mut out, &cs);
            out.push('.');
            append_chars(&mut out, &hash);
            assert(out@ =~= cs@ + seq!['.'] + hash@);
        },
    }
    string_of(&out)
}

/// Each asset's bytes by name; a later entry for a name replaces an earlier one.
pub open spec fn body_map(s: Seq<(String, Vec<u8>)>) -> Map<Seq<char>, Seq<u8>>
    decreases s.len(),
{
    if s.len() == 0 {
        Map::empty()
    } else {
        body_map(s.drop_last()).insert(s.last().0@, s.last().1@)
    }
}

/// The names that are always published, whether or not a page links them.
pub open spec fn fixed_names() -> Set<Seq<char>> {
    set!["favicon.ico"@, "robots.txt"@, "sitemap.xml"@]
}

/// An asset that was referenced, under the file name it is published as.
pub struct PublishedAsset {
    pub file: String,
    pub body: Vec<u8>,
}

/// A name that something referenced but that no asset has.
pub struct MissingAsset {
    pub name: String,
}

/// The site's static files, and the set of names that something asked for.
pub struct Assets {
    bodies: Vec<(String, Vec<u8>)>,
    used: StrSet,
}

impl Assets {
    /// The bytes of each asset, by name.
    pub closed spec fn bodies(&self) -> Map<Seq<char>, Seq<u8>> {
        body_map(self.bodies@)
    }

    /// The names referenced so far, in increasing order.
    pub closed spec fn used(&self) -> Seq<Seq<char>> {
        self.used.view_seq()
    }

    pub open spec fn wf(&self) -> bool {
        strictly_sorted(self.used())
    }

    /// The URL under which `name` is published, given its body.
    pub open spec fn spec_href(name: Seq<char>, body: Seq<u8>) -> Seq<char> {
        seq!['/'] + spec_published(name, sha256_digest(body))
    }

    /// The assets of a static directory, given as (relative name, bytes) in the
    /// order it was walked. Only the conventional names count as used.
    pub fn from_files(files: Vec<(String, Vec<u8>)>) -> (r: Assets)
        ensures
            r.wf(),
            r.bodies() == body_map(files@),
            r.used().to_set() == fixed_names(),
    {
        let mut used = StrSet::new();
        used.insert(String::from_str("favicon.ico"));
        used.insert(String::from_str("robots.txt"));
        used.insert(String::from_str("sitemap.xml"));
        let r = Assets { bodies: files, used };
        assert(r.used().to_set() =~= fixed_names());
        r
    }

    /// Replaces an asset's bytes before anything asks for its URL. The stylesheet
    /// and the manifest name other assets, so both are rewritten before they can
    /// be hashed themselves.
    pub fn derive(&mut self, name: &str, body: Vec<u8>)
        requires
            old(self).wf(),
        ensures
            final(self).wf(),
            final(self).bodies() == old(self).bodies().insert(name@, body@),
            final(self).used() == old(self).used(),
    {
        let ghost before = self.bodies@;
        self.bodies.push((String::from_str(name), body));
        assert(self.bodies@.drop_last() =~= before);
    }

    /// Whether there is an asset called `name`.
    pub fn has(&self, name: &str) -> (r: bool)
        ensures
            r == self.bodies().contains_key(name@),
    {
        self.lookup(name).is_some()
    }

    /// The names of all assets, each once, in increasing order.
    pub fn names(&self) -> (r: Vec<String>)
        ensures
            strictly_sorted(r@.map_values(|s: String| s@)),
            r@.map_values(|s: String| s@).to_set() == self.bodies().dom(),
    {
        let mut set = StrSet::new();
        let ghost s = self.bodies@;
        let mut k: usize = 0;
        assert(body_map(s.take(0)).dom() =~= Set::<Seq<char>>::empty());
        while k < self.bodies.len()
            invariant
                s == self.bodies@,
                k <= s.len(),
                set.wf(),
                set.view_seq().to_set() == body_map(s.take(k as int)).dom(),
            decreases s.len() - k,
        {
            assert(s.take(k + 1).drop_last() =~= s.take(k as int));
            assert(s.take(k + 1).last() == s[k as int]);
            set.insert(self.bodies[k].0.clone());
            k = k + 1;
        }
        assert(s.take(s.len() as int) =~= s);
        set.into_vec()
    }

    /// The body of `name`, if there is one.
    fn lookup(&self, name: &str) -> (r: Option<&Vec<u8>>)
        ensures
            r matches Some(b) ==> self.bodies().contains_key(name@) && b@ == self.bodies()[name@],
            r is None ==> !self.bodies().contains_key(name@),
    {
        let ghost s = self.bodies@;
        let mut j: usize = self.bodies.len();
        assert(s.take(j as int) =~= s);
        while j > 0
            invariant
                s == self.bodies@,
                j <= s.len(),
                body_map(s.take(j as int)).contains_key(name@) == body_map(s).contains_key(name@),
                body_map(s.take(j as int)).contains_key(name@) ==> body_map(s.take(j as int))[name@]
                    == body_map(s)[name@],
            decreases j,
        {
            let entry = &self.bodies[j - 1];
            assert(s.take(j as int).drop_last() =~= s.take(j - 1));
            assert(s.take(j as int).last() == s[j - 1]);
            if str_eq(entry.0.as_str(), name) {
                return Some(&entry.1);
            }
            j = j - 1;
        }
        assert(s.take(0) =~= Seq::<(String, Vec<u8>)>::empty());
        None
    }

    /// `logo.png` becomes `logo.a1b2c3d4.png`.
    fn published(name: &str, body: &[u8]) -> (r: String)
        ensures
            r@ == spec_published(name@, sha256_digest(body@)),
    {
        let digest = sha256(body);
        published_name(name, &digest)
    }

    /// The URL for an asset, recording that something wanted it.
    pub fn href(&mut self, name: &str) -> (r: String)
        requires
            old(self).wf(),
            old(self).bodies().contains_key(name@),
        ensures
            final(self).wf(),
            r@ == Self::spec_href(name@, old(self).bodies()[name@]),
            final(self).bodies() == old(self).bodies(),
            final(self).used().to_set() == old(self).used().to_set().insert(name@),
            old(self).used().contains(name@) ==> final(self).used() == old(self).used(),
    {
        let file = match self.lookup(name) {
            Some(body) => Self::published(name, body.as_slice()),
            None => String::new(),
        };
        self.used.insert(String::from_str(name));
        let mut out = String::from_str("/");
        proof {
            reveal_strlit("/");
        }
        out.append(file.as_str());
        out
    }

    /// What to write: the referenced assets under their published file names, in
    /// name order, up to the first referenced name that has no body, which is
    /// reported.
    pub fn to_publish(&self) -> (r: (Vec<PublishedAsset>, Option<MissingAsset>))
        requires
            self.wf(),
        ensures
            r.0.len() <= self.used().len(),
            forall|k: int|
                0 <= k < r.0.len() ==> self.bodies().contains_key(#[trigger] self.used()[k]),
            forall|k: int| #![trigger r.0[k]] 0 <= k < r.0.len() ==> {
                &&& r.0[k].file@ == spec_published(
                    self.used()[k],
                    sha256_digest(self.bodies()[self.used()[k]]),
                )
                &&& r.0[k].body@ == self.bodies()[self.used()[k]]
            },
            r.1 is None <==> r.0.len() == self.used().len(),
            r.1 matches Some(e) ==> e.name@ == self.used()[r.0.len() as int]
                && !self.bodies().contains_key(self.used()[r.0.len() as int]),
    {
        let n = self.used.len();
        let mut out: Vec<PublishedAsset> = Vec::new();
        let mut k: usize = 0;
        while k < n
            invariant
                n == self.used().len(),
                k <= n,
                out.len() == k,
                forall|j: int| 0 <= j < k ==> self.bodies().contains_key(#[trigger] self.used()[j]),
                forall|j: int| #![trigger out[j]] 0 <= j < k ==> {
                    &&& out[j].file@ == spec_published(
                        self.used()[j],
                        sha256_digest(self.bodies()[self.used()[j]]),
                    )
                    &&& out[j].body@ == self.bodies()[self.used()[j]]
                },
            decreases n - k,
        {
            let name = self.used.get(k);
            match self.lookup(name.as_str()) {
                None => {
                    return (out, Some(MissingAsset { name: name.clone() }));
                },
                Some(body) => {
                    let file = Self::published(name.as_str(), body.as_slice());
                    let copy = vstd::slice::slice_to_vec(body.as_slice());
                    out.push(PublishedAsset { file, body: copy });
                },
            }
            k = k + 1;
        }
        (out, None)
    }
}

/// An asset's URL is that of the bytes it was last given: once `derive` has
/// replaced a body, `href` gives the hashed name of the new bytes.
pub proof fn law_href_follows_derive(before: Assets, after: Assets, name: Seq<char>, body: Seq<u8>)
    requires
        after.bodies() == before.bodies().insert(name, body),
    ensures
        after.bodies().contains_key(name),
        Assets::spec_href(name, after.bodies()[name]) == Assets::spec_href(name, body),
{
}

/// What `href` hands out is written: the name it recorded is among the
/// referenced names that `to_publish` goes through.
pub proof fn law_href_is_published(before: Assets, after: Assets, name: Seq<char>)
    requires
        after.used().to_set() == before.used().to_set().insert(name),
    ensures
        after.used().contains(name),
{
    assert(after.used().to_set().contains(name));
}

/// The conventional names keep their URLs whatever their bytes.
pub proof fn law_fixed_names_not_hashed(name: Seq<char>, digest: Seq<u8>)
    requires
        is_fixed(name),
    ensures
        spec_published(name, digest) == name,
{
}

/// Every name other than `favicon.ico`, `robots.txt` and `sitemap.xml` is
/// published under a new name: the name split in two, with a dot and the eight
/// hex digits of the digest between the halves, where the second half is empty
/// or is the last extension (so it has no dot after its first character).
pub proof fn law_other_names_are_hashed(name: Seq<char>, digest: Seq<u8>)
    requires
        digest.len() >= 4,
        name != "favicon.ico"@,
        name != "robots.txt"@,
        name != "sitemap.xml"@,
    ensures
        spec_published(name, digest).len() == name.len() + 9,
        spec_published(name, digest) != name,
        exists|a: Seq<char>, b: Seq<char>|
            name == a + b && spec_published(name, digest) == a + seq!['.'] + hex_of(digest.take(4)) + b
                && (b.len() == 0 || b[0] == '.') && forall|j: int| 0 < j < b.len() ==> b[j] != '.',
{
    law_hash_is_eight_hex_digits(digest);
    let hash = hex_of(digest.take(4));
    let p = spec_published(name, digest);
    match last_index_of(name, '.') {
        Some(i) => {
            lemma_last_index_of(name, '.');
            let a = name.take(i);
            let b = name.skip(i);
            assert(name =~= a + b);
            assert(p =~= a + seq!['.'] + hash + b);
            assert(forall|j: int| 0 < j < b.len() ==> b[j] == name[i + j]);
            assert(name == a + b && p == a + seq!['.'] + hash + b && (b.len() == 0 || b[0] == '.')
                && forall|j: int| 0 < j < b.len() ==> b[j] != '.');
        },
        None => {
            let a = name;
            let b = Seq::<char>::empty();
            assert(name =~= a + b);
            assert(p =~= a + seq!['.'] + hash + b);
        },
    }
    assert(p.len() == name.len() + 9);
}

/// Where the last dot is: at a dot, with none after it.
proof fn lemma_last_index_of(s: Seq<char>, c: char)
    ensures
        last_index_of(s, c) matches Some(i) ==> 0 <= i < s.len() && s[i] == c && forall|j: int|
            i < j < s.len() ==> s[j] != c,
    decreases s.len(),
{
    if s.len() > 0 && s.last() != c {
        let t = s.drop_last();
        lemma_last_index_of(t, c);
        if let Some(i) = last_index_of(t, c) {
            assert forall|j: int| i < j < s.len() implies s[j] != c by {
                if j < t.len() {
                    assert(s[j] == t[j]);
                }
            }
        }
    }
}

/// The hash in a published name is eight lower-case hexadecimal digits.
pub proof fn law_hash_is_eight_hex_digits(digest: Seq<u8>)
    requires
        digest.len() >= 4,
    ensures
        hex_of(digest.take(4)).len() == 8,
        forall|i: int|
            0 <= i < 8 ==> {
                let c = #[trigger] hex_of(digest.take(4))[i];
                ('0' <= c <= '9') || ('a' <= c <= 'f')
            },
{
    let t = digest.take(4);
    reveal_with_fuel(hex_of, 5);
    assert(t.drop_last().drop_last().drop_last().drop_last() =~= Seq::<u8>::empty());
    assert forall|n: int| 0 <= n < 16 implies ('0' <= #[trigger] hex_digit(n) <= '9') || ('a'
        <= hex_digit(n) <= 'f') by {
    }
}

/// `s` with every occurrence of `/<name>` replaced by the URL of `name`.
fn replace_with_href(assets: &mut Assets, s: &str, slash_name: &str, name: &str) -> (r: String)
    requires
        old(assets).wf(),
        old(assets).bodies().contains_key(name@),
        slash_name@.len() > 0,
    ensures
        final(assets).wf(),
        final(assets).bodies() == old(assets).bodies(),
        final(assets).used().to_set() == old(assets).used().to_set().insert(name@),
        r@ == replace_all(s@, slash_name@, Assets::spec_href(name@, old(assets).bodies()[name@])),
{
    let href = assets.href(name);
    let out = replace_chars(&chars_of(s), &chars_of(slash_name), &chars_of(href.as_str()));
    string_of(&out)
}

/// The manifest with its icon references rewritten to their published URLs.
pub open spec fn spec_rewrite_manifest(m: Seq<char>, bodies: Map<Seq<char>, Seq<u8>>) -> Seq<char> {
    let a = replace_all(
        m,
        "/icon-192.png"@,
        Assets::spec_href("icon-192.png"@, bodies["icon-192.png"@]),
    );
    let b = replace_all(
        a,
        "/icon-512.png"@,
        Assets::spec_href("icon-512.png"@, bodies["icon-512.png"@]),
    );
    replace_all(
        b,
        "/icon-maskable.png"@,
        Assets::spec_href("icon-maskable.png"@, bodies["icon-maskable.png"@]),
    )
}

/// The manifest declares icons the browser fetches without any page linking
/// them, so its own references are rewritten and thereby recorded as used.
pub fn rewrite_manifest(assets: &mut Assets, manifest: &str) -> (r: String)
    requires
        old(assets).wf(),
        old(assets).bodies().contains_key("icon-192.png"@),
        old(assets).bodies().contains_key("icon-512.png"@),
        old(assets).bodies().contains_key("icon-maskable.png"@),
    ensures
        final(assets).wf(),
        final(assets).bodies() == old(assets).bodies(),
        final(assets).used().to_set() == old(assets).used().to_set().insert("icon-192.png"@).insert(
            "icon-512.png"@,
        ).insert("icon-maskable.png"@),
        r@ == spec_rewrite_manifest(manifest@, old(assets).bodies()),
{
    proof {
        reveal_strlit("/icon-192.png");
        reveal_strlit("/icon-512.png");
        reveal_strlit("/icon-maskable.png");
    }
    let a = replace_with_href(assets, manifest, "/icon-192.png", "icon-192.png");
    let b = replace_with_href(assets, a.as_str(), "/icon-512.png", "icon-512.png");
    replace_with_href(assets, b.as_str(), "/icon-maskable.png", "icon-maskable.png")
}

/// The stylesheet with its font references rewritten to their published URLs.
pub open spec fn spec_rewrite_stylesheet(css: Seq<char>, bodies: Map<Seq<char>, Seq<u8>>) -> Seq<
    char,
> {
    replace_all(
        replace_all(
            css,
            "/fraunces.woff2"@,
            Assets::spec_href("fraunces.woff2"@, bodies["fraunces.woff2"@]),
        ),
        "/instrument-sans.woff2"@,
        Assets::spec_href("instrument-sans.woff2"@, bodies["instrument-sans.woff2"@]),
    )
}

/// The stylesheet names the fonts, so it is rewritten before its own hash is
/// taken; otherwise the fonts would also be fetched at an unhashed URL.
pub fn rewrite_stylesheet(assets: &mut Assets, css: &str) -> (r: String)
    requires
        old(assets).wf(),
        old(assets).bodies().contains_key("fraunces.woff2"@),
        old(assets).bodies().contains_key("instrument-sans.woff2"@),
    ensures
        final(assets).wf(),
        final(assets).bodies() == old(assets).bodies(),
        final(assets).used().to_set() == old(assets).used().to_set().insert(
            "fraunces.woff2"@,
        ).insert("instrument-sans.woff2"@),
        r@ == spec_rewrite_stylesheet(css@, old(assets).bodies()),
{
    proof {
        reveal_strlit("/fraunces.woff2");
        reveal_strlit("/instrument-sans.woff2");
    }
    let a = replace_with_href(assets, css, "/fraunces.woff2", "fraunces.woff2");
    replace_with_href(assets, a.as_str(), "/instrument-sans.woff2", "instrument-sans.woff2")
}

} // verus!

//! Character-level string operations with their meaning stated over `Seq<char>`.

use vstd::prelude::*;

verus! {

/// Appends one character to a `String` (`String::push`).
///
/// The contract claims what std documents: the string afterwards is the old
/// contents followed by `c`.
#[verifier::external_body]
pub(crate) fn push_char(s: &mut String, c: char)
    ensures
        final(s)@ == old(s)@.push(c),
{
    s.push(c);
}

/// The characters of a string slice, in order.
pub fn chars_of(s: &str) -> (r: Vec<char>)
    ensures
        r@ == s@,
{
    let n = s.unicode_len();
    let mut out: Vec<char> = Vec::new();
    let mut i: usize = 0;
    while i < n
        invariant
            n == s@.len(),
            i <= n,
            out@ == s@.take(i as int),
        decreases n - i,
    {
        out.push(s.get_char(i));
        i = i + 1;
        assert(out@ =~= s@.take(i as int));
    }
    assert(out@ =~= s@);
    out
}

/// A `String` holding exactly the given characters.
pub fn string_of(cs: &[char]) -> (r: String)
    ensures
        r@ == cs@,
{
    let mut out = String::new();
    let mut i: usize = 0;
    while i < cs.len()
        invariant
            i <= cs@.len(),
            out@ == cs@.take(i as int),
        decreases cs@.len() - i,
    {
        push_char(&mut out, cs[i]);
        i = i + 1;
        assert(out@ =~= cs@.take(i as int));
    }
    assert(out@ =~= cs@);
    out
}

/// Appends a slice of characters to a `String`.
pub fn push_chars(s: &mut String, cs: &[char])
    ensures
        final(s)@ == old(s)@ + cs@,
{
    let mut i: usize = 0;
    while i < cs.len()
        invariant
            i <= cs@.len(),
            s@ == old(s)@ + cs@.take(i as int),
        decreases cs@.len() - i,
    {
        push_char(s, cs[i]);
        i = i + 1;
        assert(s@ =~= old(s)@ + cs@.take(i as int));
    }
    assert(cs@.take(cs@.len() as int) =~= cs@);
}

/// Appends `src` to `dst`.
pub fn append_chars(dst: &mut Vec<char>, src: &[char])
    ensures
        final(dst)@ == old(dst)@ + src@,
{
    let mut i: usize = 0;
    while i < src.len()
        invariant
            i <= src@.len(),
            dst@ == old(dst)@ + src@.take(i as int),
        decreases src@.len() - i,
    {
        dst.push(src[i]);
        i = i + 1;
        assert(dst@ =~= old(dst)@ + src@.take(i as int));
    }
    assert(src@.take(src@.len() as int) =~= src@);
}


/// Whether two strings hold the same characters.
pub fn str_eq(a: &str, b: &str) -> (r: bool)
    ensures
        r == (a@ == b@),
{
    let x = chars_of(a);
    let y = chars_of(b);
    chars_eq(&x, &y)
}

/// Whether two character slices are equal.
pub fn chars_eq(x: &[char], y: &[char]) -> (r: bool)
    ensures
        r == (x@ == y@),
{
    if x.len() != y.len() {
        return false;
    }
    let mut i: usize = 0;
    while i < x.len()
        invariant
            x@.len() == y@.len(),
            i <= x@.len(),
            forall|j: int| 0 <= j < i ==> x@[j] == y@[j],
        decreases x@.len() - i,
    {
        if x[i] != y[i] {
            return false;
        }
        i = i + 1;
    }
    assert(x@ =~= y@);
    true
}

/// `s` with every occurrence of the non-empty `pat` replaced by `to`, matching
/// left to right without overlap (what `str::replace` does).
pub open spec fn replace_all(s: Seq<char>, pat: Seq<char>, to: Seq<char>) -> Seq<char>
    decreases s.len(),
{
    if pat.len() == 0 || s.len() < pat.len() {
        s
    } else if s.take(pat.len() as int) == pat {
        to + replace_all(s.skip(pat.len() as int), pat, to)
    } else {
        seq![s[0]] + replace_all(s.drop_first(), pat, to)
    }
}

/// The pieces of `s` between the occurrences of the non-empty `pat`, matching left
/// to right without overlap (what `str::split` yields).
pub open spec fn split_all(s: Seq<char>, pat: Seq<char>) -> Seq<Seq<char>>
    decreases s.len(),
{
    if pat.len() == 0 || s.len() < pat.len() {
        seq![s]
    } else if s.take(pat.len() as int) == pat {
        seq![Seq::<char>::empty()] + split_all(s.skip(pat.len() as int), pat)
    } else {
        let r = split_all(s.drop_first(), pat);
        r.update(0, seq![s[0]] + r[0])
    }
}

pub proof fn lemma_split_all_nonempty(s: Seq<char>, pat: Seq<char>)
    ensures
        split_all(s, pat).len() >= 1,
    decreases s.len(),
{
    if pat.len() == 0 || s.len() < pat.len() {
    } else if s.take(pat.len() as int) == pat {
        lemma_split_all_nonempty(s.skip(pat.len() as int), pat);
    } else {
        lemma_split_all_nonempty(s.drop_first(), pat);
    }
}

/// Whether `pat` is a prefix of `s` from index `i` on.
fn starts_at(s: &[char], i: usize, pat: &[char]) -> (r: bool)
    requires
        i <= s@.len(),
    ensures
        r == (pat@.len() <= s@.len() - i && s@.skip(i as int).take(pat@.len() as int) == pat@),
{
    if pat.len() > s.len() - i {
        return false;
    }
    let mut k: usize = 0;
    while k < pat.len()
        invariant
            i <= s@.len(),
            i + pat@.len() <= s@.len(),
            s@.len() <= usize::MAX,
            k <= pat@.len(),
            forall|j: int| 0 <= j < k ==> s@[i + j] == pat@[j],
        decreases pat@.len() - k,
    {
        if s[i + k] != pat[k] {
            assert(s@.skip(i as int).take(pat@.len() as int)[k as int] != pat@[k as int]);
            return false;
        }
        k = k + 1;
    }
    assert(s@.skip(i as int).take(pat@.len() as int) =~= pat@);
    true
}

/// `str::replace` on characters: every occurrence of `pat` becomes `to`.
pub fn replace_chars(s: &[char], pat: &[char], to: &[char]) -> (r: Vec<char>)
    requires
        pat@.len() > 0,
    ensures
        r@ == replace_all(s@, pat@, to@),
{
    let mut out: Vec<char> = Vec::new();
    let mut i: usize = 0;
    assert(s@.skip(0) =~= s@);
    while i < s.len()
        invariant
            pat@.len() > 0,
            i <= s@.len(),
            out@ + replace_all(s@.skip(i as int), pat@, to@) == replace_all(s@, pat@, to@),
        decreases s@.len() - i,
    {
        let ghost rest = s@.skip(i as int);
        if starts_at(s, i, pat) {
            let mut k: usize = 0;
            let ghost before = out@;
            while k < to.len()
                invariant
                    k <= to@.len(),
                    out@ == before + to@.take(k as int),
                decreases to@.len() - k,
            {
                out.push(to[k]);
                k = k + 1;
                assert(out@ =~= before + to@.take(k as int));
            }
            assert(to@.take(to@.len() as int) =~= to@);
            assert(rest.skip(pat@.len() as int) =~= s@.skip(i + pat@.len()));
            i = i + pat.len();
            assert(before + (to@ + replace_all(s@.skip(i as int), pat@, to@)) =~= out@ + replace_all(s@.skip(i as int), pat@, to@));
        } else {
            let ghost before = out@;
            out.push(s[i]);
            assert(rest.drop_first() =~= s@.skip(i + 1));
            assert(rest[0] == s@[i as int]);
            i = i + 1;
            assert(before + (seq![s@[i - 1]] + replace_all(s@.skip(i as int), pat@, to@)) =~= out@ + replace_all(s@.skip(i as int), pat@, to@));
        }
    }
    assert(replace_all(s@.skip(i as int), pat@, to@) =~= Seq::<char>::empty());
    assert(out@ + Seq::<char>::empty() =~= out@);
    out
}


/// The decimal digit for `n < 10`.
pub open spec fn digit(n: int) -> char {
    (48 + n) as char
}

/// `n` in decimal, without leading zeros.
pub open spec fn decimal(n: nat) -> Seq<char>
    decreases n,
{
    if n < 10 {
        seq![digit(n as int)]
    } else {
        decimal(n / 10) + seq![digit((n % 10) as int)]
    }
}

/// `n` in decimal, zero-padded to at least two digits (`{:02}`).
pub open spec fn decimal2(n: nat) -> Seq<char> {
    if n < 10 {
        seq!['0'] + decimal(n)
    } else {
        decimal(n)
    }
}

fn digit_exec(n: u8) -> (c: char)
    requires
        n < 10,
    ensures
        c == digit(n as int),
{
    (48u8 + n) as char
}

/// The decimal digits of `n`.
pub fn decimal_chars(n: u8) -> (r: Vec<char>)
    ensures
        r@ == decimal(n as nat),
{
    let mut r: Vec<char> = Vec::new();
    if n >= 100 {
        r.push(digit_exec(n / 100));
        r.push(digit_exec((n / 10) % 10));
        r.push(digit_exec(n % 10));
        assert(decimal((n / 10) as nat / 10) == decimal((n / 100) as nat));
        assert(r@ =~= decimal(n as nat)) by {
            reveal_with_fuel(decimal, 3);
        }
    } else if n >= 10 {
        r.push(digit_exec(n / 10));
        r.push(digit_exec(n % 10));
        assert(r@ =~= decimal(n as nat)) by {
            reveal_with_fuel(decimal, 2);
        }
    } else {
        r.push(digit_exec(n));
        assert(r@ =~= decimal(n as nat));
    }
    r
}

/// The index of the first occurrence of `c` in `s`.
pub open spec fn first_index_of(s: Seq<char>, c: char) -> Option<int>
    decreases s.len(),
{
    if s.len() == 0 {
        None
    } else if s[0] == c {
        Some(0)
    } else {
        match first_index_of(s.drop_first(), c) {
            Some(i) => Some(i + 1),
            None => None,
        }
    }
}

/// The index of the first occurrence of `c` in `s`.
pub fn first_index_of_exec(s: &[char], c: char) -> (r: Option<usize>)
    ensures
        r matches Some(i) ==> first_index_of(s@, c) == Some(i as int) && i < s@.len(),
        r is None ==> first_index_of(s@, c) is None,
{
    let mut i: usize = 0;
    assert(s@.skip(0) =~= s@);
    while i < s.len()
        invariant
            i <= s@.len(),
            forall|j: int| 0 <= j < i ==> s@[j] != c,
            first_index_of(s@, c) == (match first_index_of(s@.skip(i as int), c) {
                Some(k) => Some(k + i),
                None => None,
            }),
        decreases s@.len() - i,
    {
        assert(s@.skip(i as int).drop_first() =~= s@.skip(i + 1));
        if s[i] == c {
            return Some(i);
        }
        i = i + 1;
    }
    None
}

/// The characters of `s` from `from` up to (not including) `to`.
pub fn sub_chars(s: &[char], from: usize, to: usize) -> (r: Vec<char>)
    requires
        from <= to <= s@.len(),
    ensures
        r@ == s@.subrange(from as int, to as int),
{
    let mut r: Vec<char> = Vec::new();
    let mut i: usize = from;
    while i < to
        invariant
            from <= i <= to,
            to <= s@.len(),
            r@ == s@.subrange(from as int, i as int),
        decreases to - i,
    {
        r.push(s[i]);
        i = i + 1;
        assert(r@ =~= s@.subrange(from as int, i as int));
    }
    r
}


/// The pieces split so far, the piece being built, and the pieces of the rest.
pub open spec fn glue(done: Seq<Seq<char>>, cur: Seq<char>, rest: Seq<Seq<char>>) -> Seq<Seq<char>> {
    done + seq![cur + rest[0]] + rest.drop_first()
}

/// The views of a vector of character vectors.
pub open spec fn views(v: Seq<Vec<char>>) -> Seq<Seq<char>> {
    v.map_values(|x: Vec<char>| x@)
}

/// `str::split` on characters: the pieces between occurrences of `pat`.
pub fn split_chars(s: &[char], pat: &[char]) -> (r: Vec<Vec<char>>)
    requires
        pat@.len() > 0,
    ensures
        views(r@) == split_all(s@, pat@),
{
    let mut done: Vec<Vec<char>> = Vec::new();
    let mut cur: Vec<char> = Vec::new();
    let mut i: usize = 0;
    assert(s@.skip(0) =~= s@);
    proof {
        lemma_split_all_nonempty(s@, pat@);
        assert(glue(Seq::empty(), Seq::empty(), split_all(s@, pat@)) =~= split_all(s@, pat@));
    }
    while i < s.len() && pat.len() <= s.len() - i
        invariant
            pat@.len() > 0,
            i <= s@.len(),
            split_all(s@, pat@) == glue(views(done@), cur@, split_all(s@.skip(i as int), pat@)),
        decreases s@.len() - i,
    {
        let ghost rest = s@.skip(i as int);
        proof {
            lemma_split_all_nonempty(rest, pat@);
        }
        if starts_at(s, i, pat) {
            let ghost tail = s@.skip(i + pat@.len());
            assert(rest.skip(pat@.len() as int) =~= tail);
            proof {
                lemma_split_all_nonempty(tail, pat@);
            }
            let ghost before = views(done@);
            let ghost c = cur@;
            done.push(cur);
            cur = Vec::new();
            assert(views(done@) =~= before.push(c));
            i = i + pat.len();
            assert(glue(before, c, split_all(rest, pat@)) =~= glue(views(done@), cur@, split_all(
                s@.skip(i as int),
                pat@,
            )));
        } else {
            let ghost tail = s@.skip(i + 1);
            assert(rest.drop_first() =~= tail);
            proof {
                lemma_split_all_nonempty(tail, pat@);
            }
            let ghost c = cur@;
            let ghost r = split_all(tail, pat@);
            assert(rest[0] == s@[i as int]);
            assert(split_all(rest, pat@) == r.update(0, seq![rest[0]] + r[0]));
            assert(r.update(0, seq![rest[0]] + r[0]).drop_first() =~= r.drop_first());
            cur.push(s[i]);
            assert(c + (seq![rest[0]] + r[0]) =~= cur@ + r[0]);
            i = i + 1;
            assert(glue(views(done@), c, split_all(rest, pat@)) =~= glue(views(done@), cur@, split_all(
                s@.skip(i as int),
                pat@,
            )));
        }
    }
    let ghost rest = s@.skip(i as int);
    assert(split_all(rest, pat@) =~= seq![rest]);
    let ghost before = views(done@);
    let mut k: usize = i;
    while k < s.len()
        invariant
            i <= k <= s@.len(),
            views(done@) == before,
            split_all(s@, pat@) == glue(before, cur@ + s@.subrange(k as int, s@.len() as int), seq![
                Seq::<char>::empty(),
            ]),
        decreases s@.len() - k,
    {
        let ghost c = cur@;
        cur.push(s[k]);
        k = k + 1;
        assert(c + s@.subrange(k - 1, s@.len() as int) =~= cur@ + s@.subrange(k as int, s@.len() as int));
    }
    let ghost c = cur@;
    done.push(cur);
    assert(views(done@) =~= before.push(c));
    assert(c + s@.subrange(s@.len() as int, s@.len() as int) =~= c);
    assert(glue(before, c, seq![Seq::<char>::empty()]) =~= before.push(c));
    done
}

} // verus!

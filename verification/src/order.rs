//! Lexicographic order on character sequences, and a set of strings kept in
//! that order.
//!
//! Code-point order on characters is byte order on their UTF-8 encodings, so
//! this is the order in which a `BTreeSet<String>` yields its members.

use vstd::prelude::*;
use crate::text::chars_of;

verus! {

/// `a` sorts strictly before `b`: after a common prefix of length `k`, either `a`
/// ends while `b` goes on, or `a`'s next character is smaller.
pub open spec fn lex_lt(a: Seq<char>, b: Seq<char>) -> bool {
    exists|k: int| #[trigger] lex_split(a, b, k)
}

pub open spec fn lex_split(a: Seq<char>, b: Seq<char>, k: int) -> bool {
    &&& 0 <= k <= a.len()
    &&& k <= b.len()
    &&& forall|j: int| 0 <= j < k ==> a[j] == b[j]
    &&& (k == a.len() && k < b.len()) || (k < a.len() && k < b.len() && a[k] < b[k])
}

/// Strictly increasing: every member sorts before every later one.
pub open spec fn strictly_sorted(s: Seq<Seq<char>>) -> bool {
    forall|i: int, j: int| 0 <= i < j < s.len() ==> lex_lt(#[trigger] s[i], #[trigger] s[j])
}

pub proof fn lemma_lex_irreflexive(a: Seq<char>)
    ensures
        !lex_lt(a, a),
{
}

/// The length of the longest common prefix of `a` and `b` that starts at or
/// after `i`, given that they agree below `i`.
proof fn lemma_first_difference(a: Seq<char>, b: Seq<char>, i: int) -> (k: int)
    requires
        0 <= i <= a.len(),
        i <= b.len(),
        forall|j: int| 0 <= j < i ==> a[j] == b[j],
    ensures
        i <= k <= a.len(),
        k <= b.len(),
        forall|j: int| 0 <= j < k ==> a[j] == b[j],
        k == a.len() || k == b.len() || a[k] != b[k],
    decreases a.len() - i,
{
    if i == a.len() || i == b.len() || a[i] != b[i] {
        i
    } else {
        lemma_first_difference(a, b, i + 1)
    }
}

pub proof fn lemma_lex_total(a: Seq<char>, b: Seq<char>)
    ensures
        a == b || lex_lt(a, b) || lex_lt(b, a),
{
    let k = lemma_first_difference(a, b, 0);
    if k == a.len() && k == b.len() {
        assert(a =~= b);
    } else if k == a.len() {
        assert(lex_split(a, b, k));
    } else if k == b.len() {
        assert(lex_split(b, a, k));
    } else if a[k] < b[k] {
        assert(lex_split(a, b, k));
    } else {
        assert(lex_split(b, a, k));
    }
}

pub proof fn lemma_lex_asymmetric(a: Seq<char>, b: Seq<char>)
    requires
        lex_lt(a, b),
    ensures
        !lex_lt(b, a),
        a != b,
{
    let k = choose|k: int| lex_split(a, b, k);
    if lex_lt(b, a) {
        let m = choose|m: int| lex_split(b, a, m);
        if m < k {
            assert(a[m] == b[m]);
        } else if k < m {
            assert(a[k] == b[k]);
        }
    }
}

pub proof fn lemma_lex_transitive(a: Seq<char>, b: Seq<char>, c: Seq<char>)
    requires
        lex_lt(a, b),
        lex_lt(b, c),
    ensures
        lex_lt(a, c),
{
    let k = choose|k: int| lex_split(a, b, k);
    let m = choose|m: int| lex_split(b, c, m);
    if k < m {
        assert(lex_split(a, c, k));
    } else if m < k {
        assert(lex_split(a, c, m));
    } else {
        assert(lex_split(a, c, k));
    }
}

/// Whether `a` sorts strictly before `b`.
pub fn lex_less(a: &[char], b: &[char]) -> (r: bool)
    ensures
        r == lex_lt(a@, b@),
{
    let mut i: usize = 0;
    while i < a.len() && i < b.len()
        invariant
            i <= a@.len(),
            i <= b@.len(),
            forall|j: int| 0 <= j < i ==> a@[j] == b@[j],
        decreases a@.len() - i,
    {
        if a[i] != b[i] {
            if a[i] < b[i] {
                assert(lex_split(a@, b@, i as int));
                return true;
            } else {
                assert(lex_split(b@, a@, i as int));
                proof {
                    lemma_lex_asymmetric(b@, a@);
                }
                return false;
            }
        }
        i = i + 1;
    }
    if i == a.len() && i < b.len() {
        assert(lex_split(a@, b@, i as int));
        true
    } else {
        proof {
            if lex_lt(a@, b@) {
                let k = choose|k: int| lex_split(a@, b@, k);
                if k < i {
                    assert(a@[k] == b@[k]);
                }
            }
        }
        false
    }
}

/// A set has one listing in strictly increasing order: two such listings of
/// the same members are the same sequence.
pub proof fn law_sorted_listing_unique(a: Seq<Seq<char>>, b: Seq<Seq<char>>)
    requires
        strictly_sorted(a),
        strictly_sorted(b),
        a.to_set() == b.to_set(),
    ensures
        a == b,
    decreases a.len(),
{
    if a.len() == 0 {
        if b.len() > 0 {
            assert(b.to_set().contains(b[0]));
        }
        assert(a =~= b);
    } else {
        assert(a.to_set().contains(a[0]));
        assert(b.len() > 0);
        assert(b.to_set().contains(b[0]));
        let i = choose|i: int| 0 <= i < a.len() && a[i] == b[0];
        let j = choose|j: int| 0 <= j < b.len() && b[j] == a[0];
        if i > 0 && j > 0 {
            assert(lex_lt(a[0], a[i]));
            assert(lex_lt(b[0], b[j]));
            lemma_lex_asymmetric(a[0], b[0]);
        } else if i > 0 {
            assert(lex_lt(a[0], a[i]));
            lemma_lex_irreflexive(a[0]);
        } else if j > 0 {
            assert(lex_lt(b[0], b[j]));
            lemma_lex_irreflexive(b[0]);
        }
        assert(a[0] == b[0]);
        let ra = a.drop_first();
        let rb = b.drop_first();
        assert forall|x: Seq<char>| ra.to_set().contains(x) <==> rb.to_set().contains(x) by {
            if ra.contains(x) {
                let k = choose|k: int| 0 <= k < ra.len() && ra[k] == x;
                assert(a[k + 1] == x);
                assert(lex_lt(a[0], a[k + 1]));
                lemma_lex_irreflexive(x);
                assert(a.to_set().contains(x));
                let m = choose|m: int| 0 <= m < b.len() && b[m] == x;
                assert(m != 0);
                assert(rb[m - 1] == x);
            }
            if rb.contains(x) {
                let k = choose|k: int| 0 <= k < rb.len() && rb[k] == x;
                assert(b[k + 1] == x);
                assert(lex_lt(b[0], b[k + 1]));
                lemma_lex_irreflexive(x);
                assert(b.to_set().contains(x));
                let m = choose|m: int| 0 <= m < a.len() && a[m] == x;
                assert(m != 0);
                assert(ra[m - 1] == x);
            }
        }
        assert(ra.to_set() =~= rb.to_set());
        law_sorted_listing_unique(ra, rb);
        assert(a =~= seq![a[0]] + ra);
        assert(b =~= seq![b[0]] + rb);
    }
}

/// A set of strings held in strictly increasing lexicographic order.
pub struct StrSet {
    items: Vec<String>,
}

impl StrSet {
    /// The members, in increasing order.
    pub closed spec fn view_seq(&self) -> Seq<Seq<char>> {
        self.items@.map_values(|s: String| s@)
    }

    pub open spec fn wf(&self) -> bool {
        strictly_sorted(self.view_seq())
    }

    pub fn new() -> (r: StrSet)
        ensures
            r.wf(),
            r.view_seq() == Seq::<Seq<char>>::empty(),
    {
        let r = StrSet { items: Vec::new() };
        assert(r.view_seq() =~= Seq::<Seq<char>>::empty());
        r
    }

    pub fn len(&self) -> (n: usize)
        ensures
            n == self.view_seq().len(),
    {
        self.items.len()
    }

    /// The member at position `i`.
    pub fn get(&self, i: usize) -> (s: &String)
        requires
            i < self.view_seq().len(),
        ensures
            s@ == self.view_seq()[i as int],
    {
        &self.items[i]
    }

    /// The members, in increasing order.
    pub fn into_vec(self) -> (r: Vec<String>)
        ensures
            r@.map_values(|s: String| s@) == self.view_seq(),
    {
        self.items
    }

    /// Adds `x`, keeping the order; a member already present is not repeated.
    pub fn insert(&mut self, x: String)
        requires
            old(self).wf(),
        ensures
            final(self).wf(),
            final(self).view_seq().to_set() == old(self).view_seq().to_set().insert(x@),
            old(self).view_seq().contains(x@) ==> final(self).view_seq() == old(self).view_seq(),
    {
        let ghost s = self.view_seq();
        let xs = chars_of(x.as_str());
        let n = self.items.len();
        let mut j: usize = 0;
        while j < n
            invariant
                n == s.len(),
                s == self.view_seq(),
                self.wf(),
                xs@ == x@,
                j <= n,
                forall|i: int| 0 <= i < j ==> lex_lt(#[trigger] s[i], x@),
            ensures
                j <= n,
                j < n ==> !lex_lt(s[j as int], x@),
                forall|i: int| 0 <= i < j ==> lex_lt(#[trigger] s[i], x@),
            decreases n - j,
        {
            let ys = chars_of(self.items[j].as_str());
            assert(ys@ == s[j as int]);
            if !lex_less(&ys, &xs) {
                break;
            }
            j = j + 1;
        }
        if j < n {
            let ys = chars_of(self.items[j].as_str());
            assert(ys@ == s[j as int]);
            if crate::text::chars_eq(&ys, &xs) {
                assert(s.contains(x@));
                assert(s.to_set().insert(x@) =~= s.to_set());
                return;
            }
            assert(s[j as int] != x@);
        }
        proof {
            assert forall|k: int| j <= k < n implies lex_lt(x@, #[trigger] s[k]) by {
                lemma_lex_total(x@, s[j as int]);
                if k > j {
                    lemma_lex_transitive(x@, s[j as int], s[k]);
                }
            }
            assert(!s.contains(x@)) by {
                if s.contains(x@) {
                    let k = choose|k: int| 0 <= k < s.len() && s[k] == x@;
                    lemma_lex_irreflexive(x@);
                }
            }
        }
        self.items.insert(j, x);
        let ghost t = self.view_seq();
        assert(t =~= s.insert(j as int, x@));
        assert forall|a: int, b: int| 0 <= a < b < t.len() implies lex_lt(#[trigger] t[a], #[trigger] t[b]) by {
            if b < j {
            } else if a < j && b == j {
            } else if a < j && b > j {
                assert(t[b] == s[b - 1]);
            } else if a == j {
                assert(t[b] == s[b - 1]);
            } else {
                assert(t[a] == s[a - 1]);
                assert(t[b] == s[b - 1]);
            }
        }
        assert(t.to_set() =~= s.to_set().insert(x@)) by {
            assert forall|e: Seq<char>| t.to_set().contains(e) <==> s.to_set().insert(x@).contains(e) by {
                if t.contains(e) {
                    let k = choose|k: int| 0 <= k < t.len() && t[k] == e;
                    if k < j {
                        assert(s[k] == e);
                    } else if k > j {
                        assert(s[k - 1] == e);
                    }
                }
                if s.contains(e) {
                    let k = choose|k: int| 0 <= k < s.len() && s[k] == e;
                    if k < j {
                        assert(t[k] == e);
                    } else {
                        assert(t[k + 1] == e);
                    }
                }
                if e == x@ {
                    assert(t[j as int] == e);
                }
            }
        }
    }
}

} // verus!

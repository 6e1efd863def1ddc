//! The canonical basis of the algebra, its order, and its enumeration.
use vstd::prelude::*;
use crate::blade::{Element, is_canonical};

verus! {

/// The largest dimension whose algebra is derived: a basis holds `2^N` blades.
pub const MAX_DIMENSION: u32 = 8;

/// Lexicographic order on index sequences of one length.
pub open spec fn lex_lt(a: Seq<u32>, b: Seq<u32>) -> bool
    decreases a.len(),
{
    if a.len() == 0 || b.len() == 0 {
        false
    } else if a[0] != b[0] {
        a[0] < b[0]
    } else {
        lex_lt(a.drop_first(), b.drop_first())
    }
}

/// The canonical order of blades: by grade, then lexicographically.
pub open spec fn blade_lt(a: Seq<u32>, b: Seq<u32>) -> bool {
    a.len() < b.len() || (a.len() == b.len() && lex_lt(a, b))
}

/// `2^n`.
pub open spec fn two_to(n: nat) -> nat
    decreases n,
{
    if n == 0 {
        1
    } else {
        2 * two_to((n - 1) as nat)
    }
}

/// A canonical blade of the algebra of dimension `dim`.
pub open spec fn is_blade_of(s: Seq<u32>, dim: nat) -> bool {
    &&& is_canonical(s)
    &&& forall|i: int| 0 <= i < s.len() ==> s[i] < dim
}

/// The blades that a sequence of elements holds.
pub open spec fn blades(v: Seq<Element>) -> Seq<Seq<u32>> {
    v.map_values(|e: Element| e@)
}

/// Strictly ascending in the canonical blade order.
pub open spec fn is_ordered(b: Seq<Seq<u32>>) -> bool {
    forall|i: int, j: int| 0 <= i < j < b.len() ==> blade_lt(b[i], b[j])
}

/// `b` is the canonical basis of dimension `dim`: each of its `2^dim` blades,
/// once, in canonical order.
pub open spec fn is_canonical_basis(b: Seq<Seq<u32>>, dim: nat) -> bool {
    &&& b.len() == two_to(dim)
    &&& forall|i: int| 0 <= i < b.len() ==> is_blade_of(#[trigger] b[i], dim)
    &&& forall|s: Seq<u32>| is_blade_of(s, dim) ==> b.contains(s)
    &&& is_ordered(b)
}

proof fn lemma_lex_irreflexive(a: Seq<u32>)
    ensures
        !lex_lt(a, a),
    decreases a.len(),
{
    if a.len() > 0 {
        lemma_lex_irreflexive(a.drop_first());
    }
}

proof fn lemma_lex_transitive(a: Seq<u32>, b: Seq<u32>, c: Seq<u32>)
    requires
        lex_lt(a, b),
        lex_lt(b, c),
    ensures
        lex_lt(a, c),
    decreases a.len(),
{
    if a[0] == b[0] && b[0] == c[0] {
        lemma_lex_transitive(a.drop_first(), b.drop_first(), c.drop_first());
    }
}

proof fn lemma_lex_total(a: Seq<u32>, b: Seq<u32>)
    requires
        a.len() == b.len(),
        a != b,
    ensures
        lex_lt(a, b) || lex_lt(b, a),
    decreases a.len(),
{
    if a.len() == 0 {
        assert(a =~= b);
    } else if a[0] == b[0] {
        if a.drop_first() == b.drop_first() {
            assert(a =~= b) by {
                assert forall|k: int| 0 <= k < a.len() implies a[k] == b[k] by {
                    if k > 0 {
                        assert(a[k] == a.drop_first()[k - 1]);
                        assert(b[k] == b.drop_first()[k - 1]);
                    }
                }
            }
        }
        lemma_lex_total(a.drop_first(), b.drop_first());
    }
}

/// The canonical blade order is a strict total order.
pub proof fn lemma_blade_order()
    ensures
        forall|a: Seq<u32>| !#[trigger] blade_lt(a, a),
        forall|a: Seq<u32>, b: Seq<u32>, c: Seq<u32>|
            #[trigger] blade_lt(a, b) && #[trigger] blade_lt(b, c) ==> blade_lt(a, c),
        forall|a: Seq<u32>, b: Seq<u32>|
            a != b ==> #[trigger] blade_lt(a, b) || #[trigger] blade_lt(b, a),
{
    assert forall|a: Seq<u32>| !#[trigger] blade_lt(a, a) by {
        lemma_lex_irreflexive(a);
    }
    assert forall|a: Seq<u32>, b: Seq<u32>, c: Seq<u32>|
        #[trigger] blade_lt(a, b) && #[trigger] blade_lt(b, c) implies blade_lt(a, c) by {
        if a.len() == b.len() && b.len() == c.len() {
            lemma_lex_transitive(a, b, c);
        }
    }
    assert forall|a: Seq<u32>, b: Seq<u32>|
        a != b implies #[trigger] blade_lt(a, b) || #[trigger] blade_lt(b, a) by {
        if a.len() == b.len() {
            lemma_lex_total(a, b);
        }
    }
}

impl Element {
    /// Whether `self` comes before `other` in the canonical blade order.
    pub fn precedes(&self, other: &Element) -> (r: bool)
        ensures
            r == blade_lt(self@, other@),
    {
        let n = self.0.len();
        if n != other.0.len() {
            return n < other.0.len();
        }
        let mut k: usize = 0;
        assert(self@.skip(0) =~= self@);
        assert(other@.skip(0) =~= other@);
        while k < n
            invariant
                k <= n,
                n == self@.len(),
                n == other@.len(),
                lex_lt(self@, other@) == lex_lt(self@.skip(k as int), other@.skip(k as int)),
            decreases n - k,
        {
            assert(self@.skip(k as int).drop_first() =~= self@.skip(k + 1));
            assert(other@.skip(k as int).drop_first() =~= other@.skip(k + 1));
            if self.0[k] != other.0[k] {
                return self.0[k] < other.0[k];
            }
            k += 1;
        }
        false
    }

    /// Whether the two elements are the same blade.
    pub fn same(&self, other: &Element) -> (r: bool)
        ensures
            r == (self@ == other@),
    {
        let n = self.0.len();
        if n != other.0.len() {
            return false;
        }
        let mut k: usize = 0;
        while k < n
            invariant
                k <= n,
                n == self@.len(),
                n == other@.len(),
                self@.subrange(0, k as int) == other@.subrange(0, k as int),
            decreases n - k,
        {
            if self.0[k] != other.0[k] {
                assert(self@[k as int] != other@[k as int]);
                return false;
            }
            assert(self@.subrange(0, k + 1) =~= self@.subrange(0, k as int).push(self@[k as int]));
            assert(other@.subrange(0, k + 1) =~= other@.subrange(0, k as int).push(
                other@[k as int],
            ));
            k += 1;
        }
        assert(self@ =~= self@.subrange(0, n as int));
        assert(other@ =~= other@.subrange(0, n as int));
        true
    }
}

/// Inserting a blade between its neighbours in canonical order keeps a
/// sequence ordered; a blade placed so was not there before.
pub proof fn lemma_insert_ordered(s: Seq<Seq<u32>>, p: int, x: Seq<u32>)
    requires
        is_ordered(s),
        0 <= p <= s.len(),
        forall|q: int| 0 <= q < p ==> blade_lt(#[trigger] s[q], x),
        p < s.len() ==> blade_lt(x, s[p]),
    ensures
        is_ordered(s.insert(p, x)),
        !s.contains(x),
{
    lemma_blade_order();
    let t = s.insert(p, x);
    assert forall|i: int, j: int| 0 <= i < j < t.len() implies blade_lt(t[i], t[j]) by {
        if j < p {
            assert(t[i] == s[i] && t[j] == s[j]);
        } else if j == p {
            assert(t[i] == s[i]);
        } else if i == p {
            assert(t[j] == s[j - 1]);
            if j - 1 > p {
                assert(blade_lt(s[p], s[j - 1]));
            }
        } else if i < p {
            assert(t[i] == s[i] && t[j] == s[j - 1]);
        } else {
            assert(t[i] == s[i - 1] && t[j] == s[j - 1]);
        }
    }
    if s.contains(x) {
        let q = choose|q: int| 0 <= q < s.len() && s[q] == x;
        if q >= p {
            if q > p {
                assert(blade_lt(s[p], s[q]));
            }
        }
    }
}

/// Rejection of a derivation request.
#[derive(Debug, Clone, Copy, PartialEq, Eq, Structural)]
pub enum DeriveError {
    /// The dimension is zero or above `MAX_DIMENSION`.
    InvalidDimension,
}

/// An ordered sequence of distinct blades: the canonical basis, one grade
/// of it, or its even-graded part.
#[derive(Debug)]
pub struct Basis(pub Vec<Element>);

impl View for Basis {
    type V = Seq<Seq<u32>>;

    open spec fn view(&self) -> Seq<Seq<u32>> {
        blades(self.0@)
    }
}

/// Every subset of `{0, .., dim - 1}` as an ascending blade, each once.
fn subsets(dim: u32) -> (r: Vec<Element>)
    ensures
        r.len() == two_to(dim as nat),
        forall|i: int| 0 <= i < r.len() ==> is_blade_of(#[trigger] r@[i]@, dim as nat),
        forall|s: Seq<u32>| is_blade_of(s, dim as nat) ==> blades(r@).contains(s),
        blades(r@).no_duplicates(),
{
    let mut list: Vec<Element> = Vec::new();
    list.push(Element(Vec::new()));
    proof {
        assert forall|s: Seq<u32>| is_blade_of(s, 0) implies blades(list@).contains(s) by {
            if s.len() > 0 {
                assert(s[0] < 0);
            }
            assert(s =~= blades(list@)[0]);
        }
    }
    let mut d: u32 = 0;
    while d < dim
        invariant
            d <= dim,
            list.len() == two_to(d as nat),
            forall|i: int| 0 <= i < list.len() ==> is_blade_of(#[trigger] list@[i]@, d as nat),
            forall|s: Seq<u32>| is_blade_of(s, d as nat) ==> blades(list@).contains(s),
            blades(list@).no_duplicates(),
        decreases dim - d,
    {
        let n = list.len();
        let ghost old_list = list@;
        let mut k: usize = 0;
        while k < n
            invariant
                k <= n,
                n == old_list.len(),
                list.len() == n + k,
                forall|i: int| 0 <= i < n ==> list@[i] == old_list[i],
                forall|i: int| 0 <= i < k ==> #[trigger] list@[n + i]@ == old_list[i]@.push(d),
            decreases n - k,
        {
            let mut e = list[k].duplicate();
            e.0.push(d);
            list.push(e);
            k += 1;
        }
        proof {
            let dd = (d + 1) as nat;
            let b = blades(list@);
            let ob = blades(old_list);
            assert forall|i: int| 0 <= i < list.len() implies is_blade_of(
                #[trigger] list@[i]@,
                dd,
            ) by {
                if i < n {
                    assert(is_blade_of(old_list[i]@, d as nat));
                } else {
                    let j = i - n;
                    assert(list@[n + j]@ == old_list[j]@.push(d));
                    assert(is_blade_of(old_list[j]@, d as nat));
                }
            }
            assert forall|s: Seq<u32>| is_blade_of(s, dd) implies b.contains(s) by {
                if s.len() > 0 && s.last() == d {
                    let t = s.drop_last();
                    assert forall|q: int| 0 <= q < t.len() implies t[q] < d by {
                        assert(s[q] < s[s.len() - 1]);
                    }
                    assert(is_blade_of(t, d as nat));
                    assert(ob.contains(t));
                    let j = choose|j: int| 0 <= j < ob.len() && ob[j] == t;
                    assert(list@[n + j]@ == old_list[j]@.push(d));
                    assert(s =~= t.push(d));
                    assert(b[n + j] == s);
                } else {
                    assert forall|q: int| 0 <= q < s.len() implies s[q] < d by {
                        if q < s.len() - 1 {
                            assert(s[q] < s[s.len() - 1]);
                        }
                    }
                    assert(is_blade_of(s, d as nat));
                    assert(ob.contains(s));
                    let j = choose|j: int| 0 <= j < ob.len() && ob[j] == s;
                    assert(b[j] == s);
                }
            }
            assert forall|i: int, j: int|
                0 <= i < b.len() && 0 <= j < b.len() && i != j implies b[i] != b[j] by {
                if i < n && j < n {
                    assert(ob[i] != ob[j]);
                } else if i >= n && j >= n {
                    assert(list@[n + (i - n)]@ == old_list[i - n]@.push(d));
                    assert(list@[n + (j - n)]@ == old_list[j - n]@.push(d));
                    assert(ob[i - n] != ob[j - n]);
                    if b[i] == b[j] {
                        assert(b[i].drop_last() =~= ob[i - n]);
                        assert(b[j].drop_last() =~= ob[j - n]);
                    }
                } else {
                    let (lo, hi) = if i < n { (i, j) } else { (j, i) };
                    assert(list@[n + (hi - n)]@ == old_list[hi - n]@.push(d));
                    assert(is_blade_of(old_list[lo]@, d as nat));
                    let l = b[hi].len() - 1;
                    assert(b[hi][l] == d);
                    if b[lo] == b[hi] {
                        assert(b[lo][l] < d);
                    }
                }
            }
        }
        d += 1;
    }
    list
}

/// The blades of `v` in canonical order.
fn sort_blades(v: &Vec<Element>) -> (r: Vec<Element>)
    requires
        blades(v@).no_duplicates(),
    ensures
        r.len() == v.len(),
        is_ordered(blades(r@)),
        forall|s: Seq<u32>| blades(r@).contains(s) <==> blades(v@).contains(s),
{
    let mut out: Vec<Element> = Vec::new();
    let mut k: usize = 0;
    while k < v.len()
        invariant
            k <= v.len(),
            out.len() == k,
            blades(v@).no_duplicates(),
            is_ordered(blades(out@)),
            forall|s: Seq<u32>|
                blades(out@).contains(s) <==> blades(v@).subrange(0, k as int).contains(s),
        decreases v.len() - k,
    {
        proof {
            lemma_blade_order();
        }
        let x = v[k].duplicate();
        let mut p: usize = 0;
        while p < out.len() && !x.precedes(&out[p])
            invariant
                p <= out.len(),
                forall|q: int| 0 <= q < p ==> !blade_lt(x@, #[trigger] blades(out@)[q]),
            decreases out.len() - p,
        {
            p += 1;
        }
        let ghost prev = blades(out@);
        assert(!prev.contains(x@)) by {
            if prev.contains(x@) {
                assert(blades(v@).subrange(0, k as int).contains(x@));
                let q = choose|q: int|
                    0 <= q < k && blades(v@).subrange(0, k as int)[q] == x@;
                assert(blades(v@)[q] == blades(v@)[k as int]);
            }
        }
        out.insert(p, x);
        assert(blades(out@) =~= prev.insert(p as int, x@));
        assert forall|i: int, j: int|
            0 <= i < j < blades(out@).len() implies blade_lt(
            blades(out@)[i],
            blades(out@)[j],
        ) by {
            let b = blades(out@);
            assert(b[p as int] == x@);
            if j < p {
                assert(b[i] == prev[i] && b[j] == prev[j]);
                assert(blade_lt(b[i], b[j]));
            } else if j == p {
                assert(b[i] == prev[i]);
                assert(!blade_lt(x@, prev[i]));
                assert(prev[i] != x@) by {
                    assert(prev.contains(prev[i]));
                }
                assert(blade_lt(x@, prev[i]) || blade_lt(prev[i], x@));
                assert(blade_lt(b[i], b[j]));
            } else if i == p {
                assert(b[j] == prev[j - 1]);
                assert(p < prev.len());
                assert(blade_lt(x@, prev[p as int]));
                if j - 1 > p {
                    assert(blade_lt(prev[p as int], prev[j - 1]));
                }
                assert(blade_lt(b[i], b[j]));
            } else if i < p {
                assert(b[i] == prev[i] && b[j] == prev[j - 1]);
                assert(blade_lt(b[i], b[j]));
            } else {
                assert(b[i] == prev[i - 1] && b[j] == prev[j - 1]);
                assert(blade_lt(b[i], b[j]));
            }
        }
        assert forall|s: Seq<u32>|
            blades(out@).contains(s) <==> blades(v@).subrange(0, k + 1).contains(s) by {
            let b = blades(out@);
            let w = blades(v@).subrange(0, k + 1);
            assert(w =~= blades(v@).subrange(0, k as int).push(x@));
            if b.contains(s) {
                let q = choose|q: int| 0 <= q < b.len() && b[q] == s;
                if q < p {
                    assert(prev[q] == s);
                } else if q > p {
                    assert(prev[q - 1] == s);
                }
                if s != x@ {
                    assert(prev.contains(s));
                    assert(blades(v@).subrange(0, k as int).contains(s));
                    let t = choose|t: int|
                        0 <= t < k && blades(v@).subrange(0, k as int)[t] == s;
                    assert(w[t] == s);
                } else {
                    assert(w[k as int] == s);
                }
            }
            if w.contains(s) {
                let t = choose|t: int| 0 <= t < w.len() && w[t] == s;
                if t < k {
                    assert(blades(v@).subrange(0, k as int)[t] == s);
                    assert(prev.contains(s));
                    let q = choose|q: int| 0 <= q < prev.len() && prev[q] == s;
                    if q < p {
                        assert(b[q] == s);
                    } else {
                        assert(b[q + 1] == s);
                    }
                } else {
                    assert(b[p as int] == s);
                }
            }
        }
        k += 1;
    }
    assert(blades(v@).subrange(0, v.len() as int) =~= blades(v@));
    out
}

/// The canonical basis of the algebra of dimension `dim`: all `2^dim`
/// blades over `{0, .., dim - 1}`, by grade and then lexicographically.
pub fn canonical_basis(dim: u32) -> (r: Result<Basis, DeriveError>)
    ensures
        r is Err <==> (dim == 0 || dim > MAX_DIMENSION),
        r matches Ok(b) ==> is_canonical_basis(b@, dim as nat),
{
    if dim == 0 || dim > MAX_DIMENSION {
        return Err(DeriveError::InvalidDimension);
    }
    let all = subsets(dim);
    let sorted = sort_blades(&all);
    let b = Basis(sorted);
    proof {
        assert forall|i: int| 0 <= i < b@.len() implies is_blade_of(#[trigger] b@[i], dim as nat) by {
            assert(blades(sorted@).contains(b@[i]));
            let j = choose|j: int| 0 <= j < all.len() && blades(all@)[j] == b@[i];
            assert(is_blade_of(all@[j]@, dim as nat));
        }
    }
    Ok(b)
}

} // verus!

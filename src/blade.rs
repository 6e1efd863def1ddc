//! Canonical blades and the sign bookkeeping of their products.
use vstd::prelude::*;

verus! {

/// The sign of a term: `Pos` for `+`, `Neg` for `-`.
#[derive(Debug, Clone, Copy, PartialEq, Eq, Structural)]
pub enum Sign {
    Pos,
    Neg,
}

/// Signs multiply like `+1` and `-1`: equal signs give `Pos`.
pub open spec fn sign_mul(a: Sign, b: Sign) -> Sign {
    if a == b {
        Sign::Pos
    } else {
        Sign::Neg
    }
}

/// The sign `(-1)^n`.
pub open spec fn sign_of_parity(n: int) -> Sign {
    if n % 2 == 0 {
        Sign::Pos
    } else {
        Sign::Neg
    }
}

impl std::ops::Mul<Sign> for Sign {
    type Output = Sign;

    fn mul(self, rhs: Sign) -> (r: Sign) {
        if self == rhs {
            Sign::Pos
        } else {
            Sign::Neg
        }
    }
}

impl vstd::std_specs::ops::MulSpecImpl<Sign> for Sign {
    open spec fn obeys_mul_spec() -> bool {
        true
    }

    open spec fn mul_req(self, rhs: Sign) -> bool {
        true
    }

    open spec fn mul_spec(self, rhs: Sign) -> Sign {
        sign_mul(self, rhs)
    }
}

impl From<i32> for Sign {
    fn from(value: i32) -> (r: Sign) {
        if value >= 0 {
            Sign::Pos
        } else {
            Sign::Neg
        }
    }
}

impl vstd::std_specs::convert::FromSpecImpl<i32> for Sign {
    open spec fn obeys_from_spec() -> bool {
        true
    }

    open spec fn from_spec(value: i32) -> Sign {
        if value >= 0 {
            Sign::Pos
        } else {
            Sign::Neg
        }
    }
}

/// A blade in canonical form: strictly ascending basis-vector indices.
pub open spec fn is_canonical(s: Seq<u32>) -> bool {
    forall|i: int, j: int| 0 <= i < j < s.len() ==> s[i] < s[j]
}

/// A sequence in ascending order, repetitions allowed.
pub open spec fn is_sorted(s: Seq<u32>) -> bool {
    forall|i: int, j: int| 0 <= i < j < s.len() ==> s[i] <= s[j]
}

/// One more than the largest index a blade can hold.
pub open spec fn index_bound() -> nat {
    0x1_0000_0000nat
}

/// The members of `s` below `n`, in increasing order.
pub open spec fn ascending_below(s: Set<u32>, n: nat) -> Seq<u32>
    decreases n,
{
    if n == 0 {
        seq![]
    } else {
        let p = ascending_below(s, (n - 1) as nat);
        if s.contains((n - 1) as u32) {
            p.push((n - 1) as u32)
        } else {
            p
        }
    }
}

/// The members of `s` in increasing order: the canonical blade of an index set.
pub open spec fn ascending(s: Set<u32>) -> Seq<u32> {
    ascending_below(s, index_bound())
}

/// The indices that belong to exactly one of `a` and `b`.
pub open spec fn sym_diff(a: Set<u32>, b: Set<u32>) -> Set<u32> {
    a.union(b).difference(a.intersect(b))
}

proof fn lemma_ascending_below(s: Set<u32>, n: nat)
    requires
        n <= index_bound(),
    ensures
        is_canonical(ascending_below(s, n)),
        forall|i: int| 0 <= i < ascending_below(s, n).len() ==> ascending_below(s, n)[i] < n,
        forall|x: u32| ascending_below(s, n).contains(x) <==> (s.contains(x) && x < n),
    decreases n,
{
    if n > 0 {
        let m = (n - 1) as nat;
        lemma_ascending_below(s, m);
        let p = ascending_below(s, m);
        if s.contains(m as u32) {
            let q = p.push(m as u32);
            assert forall|x: u32| q.contains(x) <==> (s.contains(x) && x < n) by {
                if q.contains(x) {
                    let k = choose|k: int| 0 <= k < q.len() && q[k] == x;
                    if k < p.len() {
                        assert(p.contains(x));
                    }
                }
                if s.contains(x) && x < n {
                    if x < m {
                        assert(p.contains(x));
                        let k = choose|k: int| 0 <= k < p.len() && p[k] == x;
                        assert(q[k] == x);
                    } else {
                        assert(q[p.len() as int] == x);
                    }
                }
            }
        } else {
            assert forall|x: u32| p.contains(x) <==> (s.contains(x) && x < n) by {
                if s.contains(x) && x < n && x as int == m {
                    assert(false);
                }
            }
        }
    }
}

/// The canonical blade of an index set is canonical and holds exactly that set.
pub proof fn lemma_ascending(s: Set<u32>)
    ensures
        is_canonical(ascending(s)),
        forall|x: u32| ascending(s).contains(x) <==> s.contains(x),
        ascending(s).to_set() == s,
{
    lemma_ascending_below(s, index_bound());
    assert(ascending(s).to_set() =~= s);
}

/// Two canonical blades with the same indices are the same blade.
pub proof fn lemma_canonical_unique(s: Seq<u32>, t: Seq<u32>)
    requires
        is_canonical(s),
        is_canonical(t),
        forall|x: u32| s.contains(x) <==> t.contains(x),
    ensures
        s == t,
    decreases s.len(),
{
    if s.len() == 0 {
        if t.len() > 0 {
            assert(t.contains(t[0]));
        }
    } else {
        assert(s.contains(s[0]));
        assert(t.len() > 0);
        assert(t.contains(t[0]));
        let i = choose|i: int| 0 <= i < s.len() && s[i] == t[0];
        let j = choose|j: int| 0 <= j < t.len() && t[j] == s[0];
        assert(s[0] == t[0]) by {
            if i > 0 {
                assert(s[0] < s[i]);
            }
            if j > 0 {
                assert(t[0] < t[j]);
            }
        }
        let s1 = s.drop_first();
        let t1 = t.drop_first();
        assert forall|x: u32| s1.contains(x) <==> t1.contains(x) by {
            if s1.contains(x) {
                let k = choose|k: int| 0 <= k < s1.len() && s1[k] == x;
                assert(s[k + 1] == x);
                assert(s.contains(x));
                let l = choose|l: int| 0 <= l < t.len() && t[l] == x;
                assert(l != 0);
                assert(t1[l - 1] == x);
            }
            if t1.contains(x) {
                let k = choose|k: int| 0 <= k < t1.len() && t1[k] == x;
                assert(t[k + 1] == x);
                assert(t.contains(x));
                let l = choose|l: int| 0 <= l < s.len() && s[l] == x;
                assert(l != 0);
                assert(s1[l - 1] == x);
            }
        }
        lemma_canonical_unique(s1, t1);
        assert(s =~= t) by {
            assert forall|k: int| 0 <= k < s.len() implies s[k] == t[k] by {
                if k > 0 {
                    assert(s[k] == s1[k - 1]);
                    assert(t[k] == t1[k - 1]);
                }
            }
        }
    }
}

/// A canonical blade is the canonical blade of its own index set.
pub proof fn lemma_canonical_is_ascending(s: Seq<u32>)
    requires
        is_canonical(s),
    ensures
        s == ascending(s.to_set()),
{
    lemma_ascending(s.to_set());
    assert forall|x: u32| s.contains(x) <==> ascending(s.to_set()).contains(x) by {
        assert(s.contains(x) <==> s.to_set().contains(x));
    }
    lemma_canonical_unique(s, ascending(s.to_set()));
}

/// Number of entries of `t` smaller than `x`.
pub open spec fn count_below(x: u32, t: Seq<u32>) -> nat
    decreases t.len(),
{
    if t.len() == 0 {
        0
    } else {
        (if t[0] < x { 1nat } else { 0nat }) + count_below(x, t.drop_first())
    }
}

/// Number of pairs `i < j` with `s[i] > s[j]`: the adjacent transpositions
/// needed to bring `s` into ascending order.
pub open spec fn inversions(s: Seq<u32>) -> nat
    decreases s.len(),
{
    if s.len() == 0 {
        0
    } else {
        count_below(s[0], s.drop_first()) + inversions(s.drop_first())
    }
}

/// Number of pairs `(a[i], b[j])` with `a[i] > b[j]`.
pub open spec fn crossings(a: Seq<u32>, b: Seq<u32>) -> nat
    decreases a.len(),
{
    if a.len() == 0 {
        0
    } else {
        count_below(a[0], b) + crossings(a.drop_first(), b)
    }
}

/// How many times `x` occurs in `s`.
pub open spec fn occurrences(s: Seq<u32>, x: u32) -> nat
    decreases s.len(),
{
    if s.len() == 0 {
        0
    } else {
        (if s[0] == x { 1nat } else { 0nat }) + occurrences(s.drop_first(), x)
    }
}

/// The values that occur an odd number of times in `s`.
pub open spec fn odd_members(s: Seq<u32>) -> Set<u32> {
    Set::new(|x: u32| occurrences(s, x) % 2 == 1)
}

spec fn swap_adjacent(s: Seq<u32>, k: int) -> Seq<u32> {
    s.update(k, s[k + 1]).update(k + 1, s[k])
}

proof fn lemma_swap_keeps_counts(s: Seq<u32>, k: int)
    requires
        0 <= k < s.len() - 1,
    ensures
        forall|x: u32| count_below(x, #[trigger] swap_adjacent(s, k)) == count_below(x, s),
        forall|x: u32| occurrences(#[trigger] swap_adjacent(s, k), x) == occurrences(s, x),
    decreases k,
{
    let w = swap_adjacent(s, k);
    if k == 0 {
        assert(w.drop_first().drop_first() =~= s.drop_first().drop_first());
        assert forall|x: u32| count_below(x, w) == count_below(x, s) by {
            assert(count_below(x, w.drop_first()) == (if w[1] < x { 1nat } else { 0nat })
                + count_below(x, w.drop_first().drop_first()));
            assert(count_below(x, s.drop_first()) == (if s[1] < x { 1nat } else { 0nat })
                + count_below(x, s.drop_first().drop_first()));
        }
        assert forall|x: u32| occurrences(w, x) == occurrences(s, x) by {
            assert(occurrences(w.drop_first(), x) == (if w[1] == x { 1nat } else { 0nat })
                + occurrences(w.drop_first().drop_first(), x));
            assert(occurrences(s.drop_first(), x) == (if s[1] == x { 1nat } else { 0nat })
                + occurrences(s.drop_first().drop_first(), x));
        }
    } else {
        let t = s.drop_first();
        lemma_swap_keeps_counts(t, k - 1);
        assert(w.drop_first() =~= swap_adjacent(t, k - 1));
        assert forall|x: u32| count_below(x, w) == count_below(x, s) by {
            assert(count_below(x, swap_adjacent(t, k - 1)) == count_below(x, t));
        }
        assert forall|x: u32| occurrences(w, x) == occurrences(s, x) by {
            assert(occurrences(swap_adjacent(t, k - 1), x) == occurrences(t, x));
        }
    }
}

proof fn lemma_swap_removes_inversion(s: Seq<u32>, k: int)
    requires
        0 <= k < s.len() - 1,
        s[k] > s[k + 1],
    ensures
        inversions(swap_adjacent(s, k)) + 1 == inversions(s),
    decreases k,
{
    let w = swap_adjacent(s, k);
    if k == 0 {
        let r = s.drop_first().drop_first();
        assert(w.drop_first().drop_first() =~= r);
        assert(count_below(s[0], s.drop_first()) == 1 + count_below(s[0], r));
        assert(count_below(w[0], w.drop_first()) == count_below(s[1], r));
        assert(inversions(s.drop_first()) == count_below(s[1], r) + inversions(r));
        assert(inversions(w.drop_first()) == count_below(s[0], r) + inversions(r));
    } else {
        let t = s.drop_first();
        lemma_swap_keeps_counts(t, k - 1);
        lemma_swap_removes_inversion(t, k - 1);
        assert(w.drop_first() =~= swap_adjacent(t, k - 1));
        assert(count_below(s[0], swap_adjacent(t, k - 1)) == count_below(s[0], t));
    }
}

proof fn lemma_count_below_none(x: u32, t: Seq<u32>)
    requires
        forall|i: int| 0 <= i < t.len() ==> x <= t[i],
    ensures
        count_below(x, t) == 0,
    decreases t.len(),
{
    if t.len() > 0 {
        lemma_count_below_none(x, t.drop_first());
    }
}

proof fn lemma_sorted_no_inversions(s: Seq<u32>)
    requires
        is_sorted(s),
    ensures
        inversions(s) == 0,
    decreases s.len(),
{
    if s.len() > 0 {
        lemma_count_below_none(s[0], s.drop_first());
        lemma_sorted_no_inversions(s.drop_first());
    }
}

proof fn lemma_count_below_concat(x: u32, s: Seq<u32>, t: Seq<u32>)
    ensures
        count_below(x, s + t) == count_below(x, s) + count_below(x, t),
    decreases s.len(),
{
    if s.len() > 0 {
        assert((s + t).drop_first() =~= s.drop_first() + t);
        lemma_count_below_concat(x, s.drop_first(), t);
    } else {
        assert(s + t =~= t);
    }
}

proof fn lemma_occurrences_concat(s: Seq<u32>, t: Seq<u32>, x: u32)
    ensures
        occurrences(s + t, x) == occurrences(s, x) + occurrences(t, x),
    decreases s.len(),
{
    if s.len() > 0 {
        assert((s + t).drop_first() =~= s.drop_first() + t);
        lemma_occurrences_concat(s.drop_first(), t, x);
    } else {
        assert(s + t =~= t);
    }
}

proof fn lemma_occurrences_push(s: Seq<u32>, y: u32, x: u32)
    ensures
        occurrences(s.push(y), x) == occurrences(s, x) + (if y == x { 1nat } else { 0nat }),
{
    lemma_occurrences_concat(s, seq![y], x);
    assert(s.push(y) =~= s + seq![y]);
    assert(occurrences(seq![y], x) == (if y == x { 1nat } else { 0nat }) + occurrences(
        seq![y].drop_first(),
        x,
    ));
}

proof fn lemma_inversions_concat(a: Seq<u32>, b: Seq<u32>)
    requires
        is_sorted(a),
    ensures
        inversions(a + b) == crossings(a, b) + inversions(b),
    decreases a.len(),
{
    if a.len() > 0 {
        let a1 = a.drop_first();
        assert((a + b).drop_first() =~= a1 + b);
        lemma_count_below_concat(a[0], a1, b);
        lemma_count_below_none(a[0], a1);
        lemma_inversions_concat(a1, b);
    } else {
        assert(a + b =~= b);
    }
}

proof fn lemma_occurrences_canonical(s: Seq<u32>, x: u32)
    requires
        is_canonical(s),
    ensures
        occurrences(s, x) == (if s.contains(x) { 1nat } else { 0nat }),
    decreases s.len(),
{
    if s.len() > 0 {
        let r = s.drop_first();
        lemma_occurrences_canonical(r, x);
        if r.contains(x) {
            let k = choose|k: int| 0 <= k < r.len() && r[k] == x;
            assert(s[k + 1] == x);
        }
        if s.contains(x) && s[0] != x {
            let k = choose|k: int| 0 <= k < s.len() && s[k] == x;
            assert(r[k - 1] == x);
        }
        assert(s.contains(s[0]));
    }
}

/// Sorts `input` by adjacent transpositions, then cancels equal neighbours
/// in pairs. Returns `(-1)^swaps` and the values that occur an odd number
/// of times, ascending.
pub(crate) fn gnome_sort(input: &[u32]) -> (r: (i32, Vec<u32>))
    ensures
        r.0 == (if inversions(input@) % 2 == 0 { 1i32 } else { -1i32 }),
        r.1@ == ascending(odd_members(input@)),
{
    let mut v: Vec<u32> = Vec::new();
    let mut k: usize = 0;
    while k < input.len()
        invariant
            k <= input.len(),
            v@ == input@.subrange(0, k as int),
        decreases input.len() - k,
    {
        v.push(input[k]);
        k += 1;
    }
    assert(v@ =~= input@);
    let mut i: usize = 0;
    let mut sign: i32 = 1;
    let ghost mut swaps: nat = 0;
    while i < v.len()
        invariant
            i <= v.len(),
            forall|p: int, q: int| 0 <= p < q < i ==> v@[p] <= v@[q],
            inversions(v@) + swaps == inversions(input@),
            sign == (if swaps % 2 == 0 { 1i32 } else { -1i32 }),
            forall|x: u32| occurrences(v@, x) == occurrences(input@, x),
        decreases 2 * inversions(v@) + v.len() - i,
    {
        if i == 0 || v[i - 1] <= v[i] {
            i += 1;
        } else {
            let a = v[i - 1];
            let b = v[i];
            proof {
                lemma_swap_removes_inversion(v@, i - 1);
                lemma_swap_keeps_counts(v@, i - 1);
            }
            let ghost before = v@;
            v.set(i - 1, b);
            v.set(i, a);
            assert(v@ =~= swap_adjacent(before, i - 1));
            sign = -sign;
            proof {
                swaps = swaps + 1;
            }
            i -= 1;
        }
    }
    proof {
        lemma_sorted_no_inversions(v@);
    }
    let mut out: Vec<u32> = Vec::new();
    let mut j: usize = 0;
    while j < v.len()
        invariant
            j <= v.len(),
            is_sorted(v@),
            is_canonical(out@),
            j == 0 ==> out.len() == 0,
            j > 0 ==> forall|p: int| 0 <= p < out.len() ==> out@[p] <= v@[j - 1],
            forall|x: u32| out@.contains(x) <==> occurrences(v@.subrange(0, j as int), x) % 2 == 1,
        decreases v.len() - j,
    {
        let x = v[j];
        let ghost prev = out@;
        assert(forall|y: u32| prev.contains(y) <==> occurrences(v@.subrange(0, j as int), y) % 2 == 1);
        proof {
            assert(v@.subrange(0, j + 1) =~= v@.subrange(0, j as int).push(x));
            assert forall|y: u32| occurrences(v@.subrange(0, j + 1), y) == occurrences(
                v@.subrange(0, j as int),
                y,
            ) + (if x == y { 1nat } else { 0nat }) by {
                lemma_occurrences_push(v@.subrange(0, j as int), x, y);
            }
            assert forall|p: int| 0 <= p < prev.len() implies prev[p] <= x by {
                if j > 0 {
                    assert(v@[j - 1] <= v@[j as int]);
                }
            }
        }
        if out.len() > 0 && out[out.len() - 1] == x {
            assert(prev.contains(x)) by {
                assert(prev[prev.len() - 1] == x);
            }
            out.pop();
            assert forall|y: u32| out@.contains(y) <==> prev.contains(y) && y != x by {
                if prev.contains(y) && y != x {
                    let q = choose|q: int| 0 <= q < prev.len() && prev[q] == y;
                    assert(out@[q] == y);
                }
                if out@.contains(y) {
                    let q = choose|q: int| 0 <= q < out.len() && out@[q] == y;
                    assert(prev[q] == y);
                    assert(prev[q] < prev[prev.len() - 1]);
                }
            }
        } else {
            assert(!prev.contains(x)) by {
                if prev.contains(x) {
                    let q = choose|q: int| 0 <= q < prev.len() && prev[q] == x;
                    assert(prev[q] < prev[prev.len() - 1] || q == prev.len() - 1);
                }
            }
            out.push(x);
            assert forall|y: u32| out@.contains(y) <==> prev.contains(y) || y == x by {
                if prev.contains(y) {
                    let q = choose|q: int| 0 <= q < prev.len() && prev[q] == y;
                    assert(out@[q] == y);
                }
                if y == x {
                    assert(out@[prev.len() as int] == x);
                }
                if out@.contains(y) && y != x {
                    let q = choose|q: int| 0 <= q < out.len() && out@[q] == y;
                    assert(prev[q] == y);
                }
            }
        }
        assert forall|y: u32| out@.contains(y) <==> occurrences(v@.subrange(0, j + 1), y) % 2
            == 1 by {
            assert(occurrences(v@.subrange(0, j + 1), y) == occurrences(
                v@.subrange(0, j as int),
                y,
            ) + (if x == y { 1nat } else { 0nat }));
            assert(prev.contains(y) <==> occurrences(v@.subrange(0, j as int), y) % 2 == 1);
            if x == y {
                assert(out@.contains(y) <==> !prev.contains(y));
            } else {
                assert(out@.contains(y) <==> prev.contains(y));
            }
        }
        j += 1;
    }
    proof {
        assert(v@.subrange(0, v.len() as int) =~= v@);
        lemma_ascending(odd_members(input@));
        assert forall|x: u32| out@.contains(x) <==> ascending(odd_members(input@)).contains(x) by {
            assert(odd_members(input@).contains(x) <==> occurrences(input@, x) % 2 == 1);
        }
        lemma_canonical_unique(out@, ascending(odd_members(input@)));
    }
    (sign, out)
}

/// The blade of a product of two canonical blades: the indices that occur in
/// exactly one factor, ascending (a repeated basis vector squares to one).
pub open spec fn product_blade(a: Seq<u32>, b: Seq<u32>) -> Seq<u32> {
    ascending(sym_diff(a.to_set(), b.to_set()))
}

/// The sign of a product of two canonical blades: one flip for each pair
/// of basis vectors that change places on the way to ascending order.
pub open spec fn product_sign(a: Seq<u32>, b: Seq<u32>) -> Sign {
    sign_of_parity(crossings(a, b) as int)
}

/// A basis element of the algebra: the ascending indices of the basis
/// vectors whose product it is. The empty sequence is the scalar blade.
#[derive(Debug, Clone, PartialEq, Eq, Hash)]
pub struct Element(pub Vec<u32>);

impl View for Element {
    type V = Seq<u32>;

    open spec fn view(&self) -> Seq<u32> {
        self.0@
    }
}

impl Element {
    /// The number of basis vectors in the blade.
    pub fn grade(&self) -> (r: usize)
        ensures
            r == self@.len(),
    {
        self.0.len()
    }

    /// A copy of the blade.
    pub fn duplicate(&self) -> (r: Element)
        ensures
            r@ == self@,
    {
        let mut v: Vec<u32> = Vec::new();
        let mut k: usize = 0;
        while k < self.0.len()
            invariant
                k <= self@.len(),
                v@ == self@.subrange(0, k as int),
            decreases self@.len() - k,
        {
            v.push(self.0[k]);
            k += 1;
        }
        assert(v@ =~= self@);
        Element(v)
    }

    /// The geometric product of two canonical blades, as a sign and a
    /// canonical blade.
    pub fn product(&self, rhs: &Element) -> (r: (Sign, Element))
        requires
            is_canonical(self@),
            is_canonical(rhs@),
        ensures
            r.0 == product_sign(self@, rhs@),
            r.1@ == product_blade(self@, rhs@),
            is_canonical(r.1@),
    {
        let mut joined: Vec<u32> = Vec::new();
        let mut k: usize = 0;
        while k < self.0.len()
            invariant
                k <= self@.len(),
                joined@ == self@.subrange(0, k as int),
            decreases self@.len() - k,
        {
            joined.push(self.0[k]);
            k += 1;
        }
        let mut k: usize = 0;
        while k < rhs.0.len()
            invariant
                k <= rhs@.len(),
                joined@ == self@ + rhs@.subrange(0, k as int),
            decreases rhs@.len() - k,
        {
            joined.push(rhs.0[k]);
            k += 1;
        }
        assert(joined@ =~= self@ + rhs@);
        let (sign, v) = gnome_sort(joined.as_slice());
        proof {
            let a = self@;
            let b = rhs@;
            lemma_inversions_concat(a, b);
            lemma_sorted_no_inversions(b);
            assert forall|x: u32| odd_members(a + b).contains(x) <==> sym_diff(
                a.to_set(),
                b.to_set(),
            ).contains(x) by {
                lemma_occurrences_concat(a, b, x);
                lemma_occurrences_canonical(a, x);
                lemma_occurrences_canonical(b, x);
            }
            assert(odd_members(a + b) =~= sym_diff(a.to_set(), b.to_set()));
            lemma_ascending(sym_diff(a.to_set(), b.to_set()));
        }
        (Sign::from(sign), Element(v))
    }
}

spec fn members_below(s: Set<u32>, n: nat) -> nat
    decreases n,
{
    if n == 0 {
        0
    } else {
        members_below(s, (n - 1) as nat) + (if s.contains((n - 1) as u32) { 1nat } else { 0nat })
    }
}

spec fn pairs_below(a: Set<u32>, b: Set<u32>, n: nat) -> nat
    decreases n,
{
    if n == 0 {
        0
    } else {
        pairs_below(a, b, (n - 1) as nat) + (if a.contains((n - 1) as u32) {
            members_below(b, (n - 1) as nat)
        } else {
            0nat
        })
    }
}

proof fn lemma_members_insert(s: Set<u32>, m: u32, n: nat)
    requires
        n <= index_bound(),
    ensures
        members_below(s.insert(m), n) == members_below(s, n) + (if m < n && !s.contains(m) {
            1nat
        } else {
            0nat
        }),
    decreases n,
{
    if n > 0 {
        lemma_members_insert(s, m, (n - 1) as nat);
    }
}

proof fn lemma_pairs_insert(a: Set<u32>, m: u32, b: Set<u32>, n: nat)
    requires
        n <= index_bound(),
    ensures
        pairs_below(a.insert(m), b, n) == pairs_below(a, b, n) + (if m < n && !a.contains(m) {
            members_below(b, m as nat)
        } else {
            0nat
        }),
    decreases n,
{
    if n > 0 {
        lemma_pairs_insert(a, m, b, (n - 1) as nat);
    }
}

proof fn lemma_to_set_first(t: Seq<u32>)
    requires
        t.len() > 0,
    ensures
        t.to_set() == t.drop_first().to_set().insert(t[0]),
{
    assert forall|x: u32| t.to_set().contains(x) <==> t.drop_first().to_set().insert(
        t[0],
    ).contains(x) by {
        assert(t.to_set().contains(x) <==> t.contains(x));
        assert(t.drop_first().to_set().contains(x) <==> t.drop_first().contains(x));
        if t.contains(x) && x != t[0] {
            let k = choose|k: int| 0 <= k < t.len() && t[k] == x;
            assert(t.drop_first()[k - 1] == x);
        }
        if t.drop_first().contains(x) {
            let k = choose|k: int| 0 <= k < t.len() - 1 && t.drop_first()[k] == x;
            assert(t[k + 1] == x);
        }
        assert(t[0] == t[0]);
        if x == t[0] {
            assert(t.contains(x));
        }
    }
    assert(t.to_set() =~= t.drop_first().to_set().insert(t[0]));
}

proof fn lemma_count_below_members(x: u32, t: Seq<u32>)
    requires
        is_canonical(t),
    ensures
        count_below(x, t) == members_below(t.to_set(), x as nat),
    decreases t.len(),
{
    if t.len() == 0 {
        assert(t.to_set() =~= Set::empty());
        lemma_members_empty(x as nat);
    } else {
        let r = t.drop_first();
        lemma_count_below_members(x, r);
        lemma_to_set_first(t);
        assert(!r.to_set().contains(t[0])) by {
            if r.contains(t[0]) {
                let k = choose|k: int| 0 <= k < r.len() && r[k] == t[0];
                assert(t[k + 1] == t[0]);
            }
        }
        lemma_members_insert(r.to_set(), t[0], x as nat);
    }
}

proof fn lemma_members_empty(n: nat)
    ensures
        members_below(Set::empty(), n) == 0,
    decreases n,
{
    if n > 0 {
        lemma_members_empty((n - 1) as nat);
    }
}

proof fn lemma_pairs_empty(b: Set<u32>, n: nat)
    ensures
        pairs_below(Set::empty(), b, n) == 0,
    decreases n,
{
    if n > 0 {
        lemma_pairs_empty(b, (n - 1) as nat);
    }
}

proof fn lemma_crossings_pairs(a: Seq<u32>, b: Seq<u32>)
    requires
        is_canonical(a),
        is_canonical(b),
    ensures
        crossings(a, b) == pairs_below(a.to_set(), b.to_set(), index_bound()),
    decreases a.len(),
{
    if a.len() == 0 {
        assert(a.to_set() =~= Set::empty());
        lemma_pairs_empty(b.to_set(), index_bound());
    } else {
        let r = a.drop_first();
        lemma_crossings_pairs(r, b);
        lemma_count_below_members(a[0], b);
        lemma_to_set_first(a);
        assert(!r.to_set().contains(a[0])) by {
            if r.contains(a[0]) {
                let k = choose|k: int| 0 <= k < r.len() && r[k] == a[0];
                assert(a[k + 1] == a[0]);
            }
        }
        lemma_pairs_insert(r.to_set(), a[0], b.to_set(), index_bound());
    }
}

proof fn lemma_members_linear(x: Set<u32>, y: Set<u32>, n: nat)
    ensures
        members_below(sym_diff(x, y), n) + 2 * members_below(x.intersect(y), n) == members_below(
            x,
            n,
        ) + members_below(y, n),
    decreases n,
{
    if n > 0 {
        lemma_members_linear(x, y, (n - 1) as nat);
    }
}

proof fn lemma_pairs_linear_left(x: Set<u32>, y: Set<u32>, z: Set<u32>, n: nat)
    ensures
        pairs_below(sym_diff(x, y), z, n) + 2 * pairs_below(x.intersect(y), z, n) == pairs_below(
            x,
            z,
            n,
        ) + pairs_below(y, z, n),
    decreases n,
{
    if n > 0 {
        lemma_pairs_linear_left(x, y, z, (n - 1) as nat);
    }
}

proof fn lemma_pairs_linear_right(x: Set<u32>, y: Set<u32>, z: Set<u32>, n: nat)
    ensures
        pairs_below(x, sym_diff(y, z), n) + 2 * pairs_below(x, y.intersect(z), n) == pairs_below(
            x,
            y,
            n,
        ) + pairs_below(x, z, n),
    decreases n,
{
    if n > 0 {
        lemma_pairs_linear_right(x, y, z, (n - 1) as nat);
        lemma_members_linear(y, z, (n - 1) as nat);
    }
}

proof fn lemma_sign_of_sum(x: int, y: int)
    ensures
        sign_mul(sign_of_parity(x), sign_of_parity(y)) == sign_of_parity(x + y),
{
}

/// Every basis vector squares to the scalar blade, with a positive sign.
pub proof fn lemma_vector_squares_to_one(i: u32)
    ensures
        product_sign(seq![i], seq![i]) == Sign::Pos,
        product_blade(seq![i], seq![i]) == Seq::<u32>::empty(),
{
    let e = seq![i];
    assert(crossings(e, e) == count_below(i, e) + crossings(e.drop_first(), e));
    assert(count_below(i, e) == count_below(i, e.drop_first()));
    let d = sym_diff(e.to_set(), e.to_set());
    lemma_ascending(d);
    let r = ascending(d);
    if r.len() > 0 {
        assert(r.contains(r[0]));
        assert(d.contains(r[0]));
    }
}

/// Distinct basis vectors anticommute: the two orders give the same blade
/// with opposite signs.
pub proof fn lemma_vectors_anticommute(i: u32, j: u32)
    requires
        i != j,
    ensures
        product_blade(seq![i], seq![j]) == product_blade(seq![j], seq![i]),
        product_sign(seq![i], seq![j]) == sign_mul(Sign::Neg, product_sign(seq![j], seq![i])),
{
    let ei = seq![i];
    let ej = seq![j];
    assert(crossings(ei, ej) == count_below(i, ej) + crossings(ei.drop_first(), ej));
    assert(count_below(i, ej) == (if j < i { 1nat } else { 0nat }) + count_below(i, ej.drop_first()));
    assert(crossings(ej, ei) == count_below(j, ei) + crossings(ej.drop_first(), ei));
    assert(count_below(j, ei) == (if i < j { 1nat } else { 0nat }) + count_below(j, ei.drop_first()));
    assert(sym_diff(ei.to_set(), ej.to_set()) =~= sym_diff(ej.to_set(), ei.to_set()));
}

/// The product of blades is associative, in its sign as in its blade.
pub proof fn lemma_product_associative(a: Seq<u32>, b: Seq<u32>, c: Seq<u32>)
    requires
        is_canonical(a),
        is_canonical(b),
        is_canonical(c),
    ensures
        is_canonical(product_blade(a, b)),
        is_canonical(product_blade(b, c)),
        product_blade(product_blade(a, b), c) == product_blade(a, product_blade(b, c)),
        sign_mul(product_sign(a, b), product_sign(product_blade(a, b), c)) == sign_mul(
            product_sign(b, c),
            product_sign(a, product_blade(b, c)),
        ),
{
    let (sa, sb, sc) = (a.to_set(), b.to_set(), c.to_set());
    let n = index_bound();
    let ab = product_blade(a, b);
    let bc = product_blade(b, c);
    lemma_ascending(sym_diff(sa, sb));
    lemma_ascending(sym_diff(sb, sc));
    lemma_crossings_pairs(a, b);
    lemma_crossings_pairs(b, c);
    lemma_crossings_pairs(ab, c);
    lemma_crossings_pairs(a, bc);
    lemma_pairs_linear_left(sa, sb, sc, n);
    lemma_pairs_linear_right(sa, sb, sc, n);
    lemma_sign_of_sum(crossings(a, b) as int, crossings(ab, c) as int);
    lemma_sign_of_sum(crossings(b, c) as int, crossings(a, bc) as int);
    assert(sym_diff(sym_diff(sa, sb), sc) =~= sym_diff(sa, sym_diff(sb, sc)));
}

proof fn lemma_crossings_with_scalar(a: Seq<u32>)
    ensures
        crossings(a, Seq::<u32>::empty()) == 0,
    decreases a.len(),
{
    if a.len() > 0 {
        lemma_crossings_with_scalar(a.drop_first());
    }
}

/// The scalar blade is the identity of the product, on either side.
pub proof fn lemma_scalar_identity(e: Seq<u32>)
    requires
        is_canonical(e),
    ensures
        product_blade(e, Seq::<u32>::empty()) == e,
        product_sign(e, Seq::<u32>::empty()) == Sign::Pos,
        product_blade(Seq::<u32>::empty(), e) == e,
        product_sign(Seq::<u32>::empty(), e) == Sign::Pos,
{
    let z = Seq::<u32>::empty();
    lemma_crossings_with_scalar(e);
    assert(z.to_set() =~= Set::<u32>::empty());
    assert(sym_diff(e.to_set(), z.to_set()) =~= e.to_set());
    assert(sym_diff(z.to_set(), e.to_set()) =~= e.to_set());
    lemma_canonical_is_ascending(e);
}

} // verus!

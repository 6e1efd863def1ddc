//! Formulas as linear combinations of products of operand components, and
//! the engine that extends them by one more operand.
use vstd::prelude::*;
use crate::blade::{Element, Sign, is_canonical, product_blade, product_sign, sign_mul};
use crate::basis::{Basis, blade_lt, blades, is_ordered, lemma_blade_order, lemma_insert_ordered};

verus! {

/// A term of a formula: its sign and the blade each factor contributed.
pub type Term = (Sign, Seq<Seq<u32>>);

/// An output blade with the formula of its component.
pub type Entry = (Seq<u32>, Seq<Term>);

/// A blade of an operand, with the sign its component is taken with.
pub type SignedBlade = (Sign, Seq<u32>);

pub open spec fn term_view(t: (Sign, Vec<Element>)) -> Term {
    (t.0, blades(t.1@))
}

pub open spec fn terms_view(v: Seq<(Sign, Vec<Element>)>) -> Seq<Term> {
    v.map_values(|t: (Sign, Vec<Element>)| term_view(t))
}

pub open spec fn entry_view(e: (Element, LinearCombination)) -> Entry {
    (e.0@, e.1@)
}

pub open spec fn signed_view(b: Seq<(Sign, Element)>) -> Seq<SignedBlade> {
    b.map_values(|s: (Sign, Element)| (s.0, s.1@))
}

/// The blades of a basis, each taken with a positive sign.
pub open spec fn positive(b: Seq<Seq<u32>>) -> Seq<SignedBlade> {
    b.map_values(|x: Seq<u32>| (Sign::Pos, x))
}

/// The output blades of a formula set, in order.
pub open spec fn keys(r: Seq<Entry>) -> Seq<Seq<u32>> {
    r.map_values(|e: Entry| e.0)
}

/// A formula set: canonical output blades, each once, in canonical order.
pub open spec fn is_formula_set(r: Seq<Entry>) -> bool {
    &&& forall|i: int| 0 <= i < r.len() ==> is_canonical(#[trigger] r[i].0)
    &&& is_ordered(keys(r))
}

/// The formula for the scalar blade alone, with value one.
pub open spec fn unit_formula_set() -> Seq<Entry> {
    seq![(Seq::<u32>::empty(), seq![(Sign::Pos, Seq::<Seq<u32>>::empty())])]
}

/// The terms of formula `f` multiplied by the component of `s`, when the
/// blade product contributes sign `p`.
pub open spec fn scaled(f: Seq<Term>, p: Sign, s: SignedBlade) -> Seq<Term> {
    f.map_values(|t: Term| (sign_mul(sign_mul(t.0, p), s.0), t.1.push(s.1)))
}

/// The terms that entry `e` times the blades of `b` contributes to output
/// blade `k`, in the order of `b`.
pub open spec fn row_terms(e: Entry, b: Seq<SignedBlade>, k: Seq<u32>) -> Seq<Term>
    decreases b.len(),
{
    if b.len() == 0 {
        seq![]
    } else {
        let s = b.last();
        row_terms(e, b.drop_last(), k) + if product_blade(e.0, s.1) == k {
            scaled(e.1, product_sign(e.0, s.1), s)
        } else {
            seq![]
        }
    }
}

/// The terms of output blade `k` when formula set `a` is multiplied by the
/// operand `b`: entries of `a` in order, and for each the blades of `b` in order.
pub open spec fn extended_terms(a: Seq<Entry>, b: Seq<SignedBlade>, k: Seq<u32>) -> Seq<Term>
    decreases a.len(),
{
    if a.len() == 0 {
        seq![]
    } else {
        extended_terms(a.drop_last(), b, k) + row_terms(a.last(), b, k)
    }
}

/// Some output blade of `e` times a blade of `b` is `k`.
pub open spec fn row_yields(e: Entry, b: Seq<SignedBlade>, k: Seq<u32>) -> bool {
    exists|j: int| 0 <= j < b.len() && product_blade(e.0, b[j].1) == k
}

/// Some output blade of `a` times a blade of `b` is `k`.
pub open spec fn extension_yields(a: Seq<Entry>, b: Seq<SignedBlade>, k: Seq<u32>) -> bool {
    exists|i: int, j: int| 0 <= i < a.len() && 0 <= j < b.len() && product_blade(a[i].0, b[j].1) == k
}

/// `r` is formula set `a` multiplied by operand `b`: one entry for every
/// blade that a product of an output blade of `a` and a blade of `b` gives,
/// in canonical order, each holding the terms of all such products.
pub open spec fn is_extension(r: Seq<Entry>, a: Seq<Entry>, b: Seq<SignedBlade>) -> bool {
    &&& is_formula_set(r)
    &&& forall|k: Seq<u32>| #[trigger] keys(r).contains(k) <==> extension_yields(a, b, k)
    &&& forall|i: int| 0 <= i < r.len() ==> (#[trigger] r[i]).1 == extended_terms(a, b, r[i].0)
}

/// `steps` are the formula sets met on the way from the unit formula set
/// through the operands in order, each extending the one before.
pub open spec fn chains_through(steps: Seq<Seq<Entry>>, operands: Seq<Seq<SignedBlade>>) -> bool {
    &&& steps.len() == operands.len() + 1
    &&& steps[0] == unit_formula_set()
    &&& forall|i: int|
        #![trigger operands[i]]
        0 <= i < operands.len() ==> is_extension(steps[i + 1], steps[i], operands[i])
}

/// `r` is the product, from the unit formula set, of the operands in order.
pub open spec fn is_product_chain(r: Seq<Entry>, operands: Seq<Seq<SignedBlade>>) -> bool {
    exists|steps: Seq<Seq<Entry>>| #[trigger] chains_through(steps, operands) && steps.last() == r
}

/// A formula: terms that add up to one component.
#[derive(Debug, Clone)]
pub struct LinearCombination(pub Vec<(Sign, Vec<Element>)>);

impl View for LinearCombination {
    type V = Seq<Term>;

    open spec fn view(&self) -> Seq<Term> {
        terms_view(self.0@)
    }
}

impl LinearCombination {
    /// A copy of the formula.
    pub fn duplicate(&self) -> (r: Self)
        ensures
            r@ == self@,
    {
        let mut v: Vec<(Sign, Vec<Element>)> = Vec::new();
        let mut k: usize = 0;
        while k < self.0.len()
            invariant
                k <= self.0@.len(),
                v@.len() == k,
                forall|q: int| 0 <= q < k ==> term_view(#[trigger] v@[q]) == term_view(self.0@[q]),
            decreases self.0@.len() - k,
        {
            let t = &self.0[k];
            v.push((t.0, copy_blades(&t.1)));
            k += 1;
        }
        let r = LinearCombination(v);
        assert(r@ =~= self@);
        r
    }

    /// The formula of the constant one: a single positive term with no factor.
    pub fn one() -> (r: Self)
        ensures
            r@ == seq![(Sign::Pos, Seq::<Seq<u32>>::empty())],
    {
        let mut v: Vec<(Sign, Vec<Element>)> = Vec::new();
        let factors: Vec<Element> = Vec::new();
        assert(blades(factors@) =~= Seq::<Seq<u32>>::empty());
        v.push((Sign::Pos, factors));
        let r = LinearCombination(v);
        assert(r@ =~= seq![(Sign::Pos, Seq::<Seq<u32>>::empty())]);
        r
    }
}

/// A formula set: for each output blade, in canonical order, its formula.
#[derive(Debug)]
pub struct LinearCombinations(pub Vec<(Element, LinearCombination)>);

impl View for LinearCombinations {
    type V = Seq<Entry>;

    open spec fn view(&self) -> Seq<Entry> {
        self.0@.map_values(|e: (Element, LinearCombination)| entry_view(e))
    }
}

impl LinearCombinations {
    /// The output blades, in order.
    pub fn output_blades(&self) -> (r: Vec<Element>)
        ensures
            blades(r@) == keys(self@),
    {
        let mut r: Vec<Element> = Vec::new();
        let mut k: usize = 0;
        while k < self.0.len()
            invariant
                k <= self@.len(),
                r@.len() == k,
                forall|q: int| 0 <= q < k ==> (#[trigger] r@[q])@ == self@[q].0,
            decreases self@.len() - k,
        {
            r.push(self.0[k].0.duplicate());
            k += 1;
        }
        assert(blades(r@) =~= keys(self@));
        r
    }

    /// The formula set with no component.
    pub fn zero() -> (r: Self)
        ensures
            r@ == Seq::<Entry>::empty(),
            is_formula_set(r@),
    {
        let r = LinearCombinations(Vec::new());
        assert(r@ =~= Seq::<Entry>::empty());
        assert(keys(r@) =~= Seq::<Seq<u32>>::empty());
        r
    }

    /// The formula set of the scalar one: the identity of the product.
    pub fn one() -> (r: Self)
        ensures
            r@ == unit_formula_set(),
            is_formula_set(r@),
    {
        let mut v: Vec<(Element, LinearCombination)> = Vec::new();
        v.push((Element(Vec::new()), LinearCombination::one()));
        let r = LinearCombinations(v);
        assert(r@ =~= unit_formula_set());
        assert(keys(r@) =~= seq![Seq::<u32>::empty()]);
        r
    }
}

fn copy_blades(v: &Vec<Element>) -> (r: Vec<Element>)
    ensures
        blades(r@) == blades(v@),
{
    let mut r: Vec<Element> = Vec::new();
    let mut k: usize = 0;
    while k < v.len()
        invariant
            k <= v@.len(),
            r@.len() == k,
            forall|q: int| 0 <= q < k ==> (#[trigger] r@[q])@ == v@[q]@,
        decreases v@.len() - k,
    {
        r.push(v[k].duplicate());
        k += 1;
    }
    assert(blades(r@) =~= blades(v@));
    r
}

fn scale_terms(f: &LinearCombination, p: Sign, s: Sign, blade: &Element) -> (r: Vec<
    (Sign, Vec<Element>),
>)
    ensures
        terms_view(r@) == scaled(f@, p, (s, blade@)),
{
    let mut r: Vec<(Sign, Vec<Element>)> = Vec::new();
    let mut k: usize = 0;
    while k < f.0.len()
        invariant
            k <= f.0@.len(),
            r@.len() == k,
            forall|q: int|
                0 <= q < k ==> term_view(#[trigger] r@[q]) == scaled(f@, p, (s, blade@))[q],
        decreases f.0@.len() - k,
    {
        let t = &f.0[k];
        let mut factors = copy_blades(&t.1);
        let ghost before = factors@;
        factors.push(blade.duplicate());
        assert(blades(factors@) =~= blades(before).push(blade@));
        r.push((t.0 * p * s, factors));
        k += 1;
    }
    assert(terms_view(r@) =~= scaled(f@, p, (s, blade@)));
    r
}

proof fn lemma_row_terms_none(e: Entry, b: Seq<SignedBlade>, k: Seq<u32>)
    requires
        !row_yields(e, b, k),
    ensures
        row_terms(e, b, k) == Seq::<Term>::empty(),
    decreases b.len(),
{
    if b.len() > 0 {
        assert(!row_yields(e, b.drop_last(), k)) by {
            if row_yields(e, b.drop_last(), k) {
                let j = choose|j: int|
                    0 <= j < b.drop_last().len() && product_blade(e.0, b.drop_last()[j].1) == k;
                assert(b[j] == b.drop_last()[j]);
            }
        }
        lemma_row_terms_none(e, b.drop_last(), k);
        assert(product_blade(e.0, b[b.len() - 1].1) != k);
        assert(row_terms(e, b, k) =~= Seq::<Term>::empty());
    }
}

proof fn lemma_extended_terms_none(a: Seq<Entry>, b: Seq<SignedBlade>, k: Seq<u32>)
    requires
        !extension_yields(a, b, k),
    ensures
        extended_terms(a, b, k) == Seq::<Term>::empty(),
    decreases a.len(),
{
    if a.len() > 0 {
        let a1 = a.drop_last();
        assert(!extension_yields(a1, b, k)) by {
            if extension_yields(a1, b, k) {
                let (i, j) = choose|i: int, j: int|
                    0 <= i < a1.len() && 0 <= j < b.len() && product_blade(a1[i].0, b[j].1) == k;
                assert(a[i] == a1[i]);
            }
        }
        assert(!row_yields(a.last(), b, k)) by {
            if row_yields(a.last(), b, k) {
                let j = choose|j: int| 0 <= j < b.len() && product_blade(a.last().0, b[j].1) == k;
                assert(a[a.len() - 1] == a.last());
            }
        }
        lemma_extended_terms_none(a1, b, k);
        lemma_row_terms_none(a.last(), b, k);
        assert(extended_terms(a, b, k) =~= Seq::<Term>::empty());
    }
}

proof fn lemma_row_step(e: Entry, b: Seq<SignedBlade>, j: int, k: Seq<u32>)
    requires
        0 <= j < b.len(),
    ensures
        row_terms(e, b.subrange(0, j + 1), k) == row_terms(e, b.subrange(0, j), k) + if product_blade(
            e.0,
            b[j].1,
        ) == k {
            scaled(e.1, product_sign(e.0, b[j].1), b[j])
        } else {
            seq![]
        },
        row_yields(e, b.subrange(0, j + 1), k) <==> (row_yields(e, b.subrange(0, j), k)
            || product_blade(e.0, b[j].1) == k),
{
    let b1 = b.subrange(0, j + 1);
    assert(b1.drop_last() =~= b.subrange(0, j));
    assert(b1.last() == b[j]);
    if row_yields(e, b1, k) && product_blade(e.0, b[j].1) != k {
        let q = choose|q: int| 0 <= q < b1.len() && product_blade(e.0, b1[q].1) == k;
        assert(b.subrange(0, j)[q] == b1[q]);
    }
    if row_yields(e, b.subrange(0, j), k) {
        let q = choose|q: int|
            0 <= q < j && product_blade(e.0, b.subrange(0, j)[q].1) == k;
        assert(b1[q] == b.subrange(0, j)[q]);
    }
    if product_blade(e.0, b[j].1) == k {
        assert(b1[j] == b[j]);
    }
}

proof fn lemma_extension_step(a: Seq<Entry>, b: Seq<SignedBlade>, i: int, k: Seq<u32>)
    requires
        0 <= i < a.len(),
    ensures
        extended_terms(a.subrange(0, i + 1), b, k) == extended_terms(a.subrange(0, i), b, k)
            + row_terms(a[i], b, k),
        extension_yields(a.subrange(0, i + 1), b, k) <==> (extension_yields(a.subrange(0, i), b, k)
            || row_yields(a[i], b, k)),
{
    let a1 = a.subrange(0, i + 1);
    let a0 = a.subrange(0, i);
    assert(a1.drop_last() =~= a0);
    assert(a1.last() == a[i]);
    if extension_yields(a1, b, k) && !row_yields(a[i], b, k) {
        let (p, q) = choose|p: int, q: int|
            0 <= p < a1.len() && 0 <= q < b.len() && product_blade(a1[p].0, b[q].1) == k;
        if p == i {
            assert(product_blade(a[i].0, b[q].1) == k);
        } else {
            assert(a0[p] == a1[p]);
        }
    }
    if extension_yields(a0, b, k) {
        let (p, q) = choose|p: int, q: int|
            0 <= p < a0.len() && 0 <= q < b.len() && product_blade(a0[p].0, b[q].1) == k;
        assert(a1[p] == a0[p]);
    }
    if row_yields(a[i], b, k) {
        let q = choose|q: int| 0 <= q < b.len() && product_blade(a[i].0, b[q].1) == k;
        assert(a1[i] == a[i]);
    }
}

/// Multiplies formula set `a` by an operand: for each output blade of `a`,
/// in order, and each signed blade of `b`, in order, the terms of `a`'s
/// formula gain the blade as a factor, the sign of the blade product and
/// the operand's sign, and join the formula of the product blade.
pub fn impl_mul_bases(a: &LinearCombinations, b: &[(Sign, Element)]) -> (r: LinearCombinations)
    requires
        is_formula_set(a@),
        forall|j: int| 0 <= j < b@.len() ==> is_canonical(#[trigger] b@[j].1@),
    ensures
        is_extension(r@, a@, signed_view(b@)),
        a@.len() > 0 && b@.len() > 0 ==> r@.len() > 0,
{
    let ghost av = a@;
    let ghost bv = signed_view(b@);
    let mut out = LinearCombinations(Vec::new());
    assert(out@ =~= Seq::<Entry>::empty());
    assert(av.subrange(0, 0) =~= Seq::<Entry>::empty());
    let mut i: usize = 0;
    while i < a.0.len()
        invariant
            i <= av.len(),
            av == a@,
            bv == signed_view(b@),
            is_formula_set(av),
            forall|j: int| 0 <= j < b@.len() ==> is_canonical(#[trigger] b@[j].1@),
            is_formula_set(out@),
            forall|k: Seq<u32>|
                #[trigger] keys(out@).contains(k) <==> extension_yields(
                    av.subrange(0, i as int),
                    bv,
                    k,
                ),
            forall|q: int|
                0 <= q < out@.len() ==> (#[trigger] out@[q]).1 == extended_terms(
                    av.subrange(0, i as int),
                    bv,
                    out@[q].0,
                ),
        decreases av.len() - i,
    {
        let ghost a0 = av.subrange(0, i as int);
        let ghost e = av[i as int];
        assert(bv.subrange(0, 0) =~= Seq::<SignedBlade>::empty());
        let mut j: usize = 0;
        while j < b.len()
            invariant
                i < av.len(),
                j <= bv.len(),
                av == a@,
                bv == signed_view(b@),
                a0 == av.subrange(0, i as int),
                e == av[i as int],
                is_formula_set(av),
                forall|j: int| 0 <= j < b@.len() ==> is_canonical(#[trigger] b@[j].1@),
                is_formula_set(out@),
                forall|k: Seq<u32>|
                    #[trigger] keys(out@).contains(k) <==> (extension_yields(a0, bv, k)
                        || row_yields(e, bv.subrange(0, j as int), k)),
                forall|q: int|
                    0 <= q < out@.len() ==> (#[trigger] out@[q]).1 == extended_terms(
                        a0,
                        bv,
                        out@[q].0,
                    ) + row_terms(e, bv.subrange(0, j as int), out@[q].0),
            decreases bv.len() - j,
        {
            proof {
                lemma_blade_order();
            }
            let key = &a.0[i].0;
            assert(is_canonical(key@)) by {
                assert(is_canonical(av[i as int].0));
            }
            let (ps, r) = key.product(&b[j].1);
            let terms = scale_terms(&a.0[i].1, ps, b[j].0, &b[j].1);
            let ghost t = terms_view(terms@);
            let ghost pre = out@;
            assert(t == scaled(e.1, product_sign(e.0, bv[j as int].1), bv[j as int]));
            let mut p: usize = 0;
            while p < out.0.len() && out.0[p].0.precedes(&r)
                invariant
                    p <= out@.len(),
                    out@ == pre,
                    forall|q: int| 0 <= q < p ==> blade_lt(#[trigger] keys(pre)[q], r@),
                decreases out@.len() - p,
            {
                p += 1;
            }
            if p < out.0.len() && out.0[p].0.same(&r) {
                let mut entry = out.0.remove(p);
                let mut more = terms;
                let ghost old_terms = entry.1.0@;
                entry.1.0.append(&mut more);
                assert(entry.1@ =~= pre[p as int].1 + t) by {
                    assert(terms_view(old_terms + terms@) =~= terms_view(old_terms) + t);
                }
                out.0.insert(p, entry);
                assert(out@ =~= pre.update(p as int, (r@, pre[p as int].1 + t)));
                assert(keys(out@) =~= keys(pre));
                assert forall|q: int| 0 <= q < out@.len() implies (#[trigger] out@[q]).1
                    == extended_terms(a0, bv, out@[q].0) + row_terms(
                    e,
                    bv.subrange(0, j + 1),
                    out@[q].0,
                ) by {
                    lemma_row_step(e, bv, j as int, out@[q].0);
                    if q != p {
                        assert(blade_lt(keys(pre)[q], keys(pre)[p as int]) || blade_lt(
                            keys(pre)[p as int],
                            keys(pre)[q],
                        ));
                        assert(out@[q] == pre[q]);
                    }
                }
                assert forall|k: Seq<u32>|
                    #[trigger] keys(out@).contains(k) <==> (extension_yields(a0, bv, k)
                        || row_yields(e, bv.subrange(0, j + 1), k)) by {
                    lemma_row_step(e, bv, j as int, k);
                    if k == r@ {
                        assert(keys(pre)[p as int] == k);
                        assert(keys(pre).contains(k));
                    }
                }
            } else {
                proof {
                    if p < pre.len() {
                        assert(!blade_lt(keys(pre)[p as int], r@));
                        assert(keys(pre)[p as int] != r@);
                    }
                    lemma_insert_ordered(keys(pre), p as int, r@);
                    assert(!extension_yields(a0, bv, r@));
                    assert(!row_yields(e, bv.subrange(0, j as int), r@));
                    lemma_extended_terms_none(a0, bv, r@);
                    lemma_row_terms_none(e, bv.subrange(0, j as int), r@);
                }
                out.0.insert(p, (r, LinearCombination(terms)));
                assert(out@ =~= pre.insert(p as int, (r@, t)));
                assert(keys(out@) =~= keys(pre).insert(p as int, r@));
                assert forall|q: int| 0 <= q < out@.len() implies (#[trigger] out@[q]).1
                    == extended_terms(a0, bv, out@[q].0) + row_terms(
                    e,
                    bv.subrange(0, j + 1),
                    out@[q].0,
                ) by {
                    lemma_row_step(e, bv, j as int, out@[q].0);
                    if q < p {
                        assert(out@[q] == pre[q]);
                        assert(keys(pre)[q] == pre[q].0);
                        assert(keys(pre).contains(pre[q].0));
                    } else if q > p {
                        assert(out@[q] == pre[q - 1]);
                        assert(keys(pre)[q - 1] == pre[q - 1].0);
                        assert(keys(pre).contains(pre[q - 1].0));
                    } else {
                        assert(t =~= Seq::<Term>::empty() + Seq::<Term>::empty() + t);
                    }
                }
                assert forall|k: Seq<u32>|
                    #[trigger] keys(out@).contains(k) <==> (extension_yields(a0, bv, k)
                        || row_yields(e, bv.subrange(0, j + 1), k)) by {
                    let ko = keys(out@);
                    let kp = keys(pre);
                    lemma_row_step(e, bv, j as int, k);
                    if ko.contains(k) {
                        let q = choose|q: int| 0 <= q < ko.len() && ko[q] == k;
                        if q < p {
                            assert(kp[q] == k);
                            assert(kp.contains(k));
                        } else if q > p {
                            assert(kp[q - 1] == k);
                            assert(kp.contains(k));
                        }
                    }
                    if kp.contains(k) {
                        let q = choose|q: int| 0 <= q < kp.len() && kp[q] == k;
                        if q < p {
                            assert(ko[q] == k);
                        } else {
                            assert(ko[q + 1] == k);
                        }
                    }
                    if k == r@ {
                        assert(ko[p as int] == k);
                    }
                }
                assert forall|q: int| 0 <= q < out@.len() implies is_canonical(#[trigger] out@[q].0) by {
                    if q < p {
                        assert(out@[q] == pre[q]);
                    } else if q > p {
                        assert(out@[q] == pre[q - 1]);
                    }
                }
            }
            j += 1;
        }
        proof {
            assert(bv.subrange(0, bv.len() as int) =~= bv);
            assert forall|k: Seq<u32>|
                #[trigger] keys(out@).contains(k) <==> extension_yields(
                    av.subrange(0, i + 1),
                    bv,
                    k,
                ) by {
                lemma_extension_step(av, bv, i as int, k);
            }
            assert forall|q: int|
                0 <= q < out@.len() implies (#[trigger] out@[q]).1 == extended_terms(
                    av.subrange(0, i + 1),
                    bv,
                    out@[q].0,
                ) by {
                lemma_extension_step(av, bv, i as int, out@[q].0);
            }
        }
        i += 1;
    }
    assert(av.subrange(0, av.len() as int) =~= av);
    proof {
        if av.len() > 0 && bv.len() > 0 {
            let k = product_blade(av[0].0, bv[0].1);
            assert(extension_yields(av, bv, k));
            assert(keys(out@).contains(k));
        }
    }
    out
}

/// The unit formula set is the product of no operand.
pub proof fn lemma_chain_unit()
    ensures
        is_product_chain(unit_formula_set(), Seq::<Seq<SignedBlade>>::empty()),
{
    let steps = seq![unit_formula_set()];
    assert(chains_through(steps, Seq::<Seq<SignedBlade>>::empty()));
}

/// Extending a product chain by one more operand gives a product chain.
pub proof fn lemma_chain_push(
    m: Seq<Entry>,
    operands: Seq<Seq<SignedBlade>>,
    b: Seq<SignedBlade>,
    r: Seq<Entry>,
)
    requires
        is_product_chain(m, operands),
        is_extension(r, m, b),
    ensures
        is_product_chain(r, operands.push(b)),
{
    let steps = choose|steps: Seq<Seq<Entry>>| #[trigger]
        chains_through(steps, operands) && steps.last() == m;
    let next = steps.push(r);
    let ops = operands.push(b);
    assert forall|i: int| #![trigger ops[i]] 0 <= i < ops.len() implies is_extension(
        next[i + 1],
        next[i],
        ops[i],
    ) by {
        if i < operands.len() {
            assert(ops[i] == operands[i]);
            assert(next[i + 1] == steps[i + 1]);
            assert(next[i] == steps[i]);
        } else {
            assert(next[i] == steps.last());
        }
    }
    assert(chains_through(next, ops));
}

/// The signed blades `(Pos, x)` for each blade `x` of `b`.
pub fn positive_blades(b: &Basis) -> (r: Vec<(Sign, Element)>)
    ensures
        signed_view(r@) == positive(b@),
{
    let mut r: Vec<(Sign, Element)> = Vec::new();
    let mut k: usize = 0;
    while k < b.0.len()
        invariant
            k <= b@.len(),
            r@.len() == k,
            forall|q: int| 0 <= q < k ==> signed_view(r@)[q] == positive(b@)[q],
        decreases b@.len() - k,
    {
        r.push((Sign::Pos, b.0[k].duplicate()));
        k += 1;
    }
    assert(signed_view(r@) =~= positive(b@));
    r
}

/// The operands of a chain of bases, each blade taken with a positive sign.
pub open spec fn positive_operands(bases: Seq<Seq<Seq<u32>>>) -> Seq<Seq<SignedBlade>> {
    bases.map_values(|b: Seq<Seq<u32>>| positive(b))
}

/// Every blade of each basis is canonical.
pub open spec fn all_canonical(bases: Seq<Seq<Seq<u32>>>) -> bool {
    forall|i: int, j: int|
        0 <= i < bases.len() && 0 <= j < bases[i].len() ==> is_canonical(#[trigger] bases[i][j])
}

/// The formula set of the product of the bases, left to right, from the
/// unit formula set.
pub fn mul_bases(bases: &[&Basis]) -> (r: LinearCombinations)
    requires
        all_canonical(bases@.map_values(|b: &Basis| b@)),
    ensures
        is_formula_set(r@),
        is_product_chain(r@, positive_operands(bases@.map_values(|b: &Basis| b@))),
{
    let ghost views = bases@.map_values(|b: &Basis| b@);
    let ghost ops = positive_operands(views);
    let mut out = LinearCombinations::one();
    assert(ops.subrange(0, 0) =~= Seq::<Seq<SignedBlade>>::empty());
    proof {
        lemma_chain_unit();
    }
    assert(is_formula_set(out@)) by {
        assert(keys(out@) =~= seq![Seq::<u32>::empty()]);
    }
    let mut k: usize = 0;
    while k < bases.len()
        invariant
            k <= bases@.len(),
            views == bases@.map_values(|b: &Basis| b@),
            ops == positive_operands(views),
            all_canonical(views),
            is_formula_set(out@),
            is_product_chain(out@, ops.subrange(0, k as int)),
        decreases bases@.len() - k,
    {
        let signed = positive_blades(bases[k]);
        assert forall|j: int| 0 <= j < signed@.len() implies is_canonical(#[trigger] signed@[j].1@) by {
            assert(signed_view(signed@).len() == signed@.len());
            assert(views[k as int] == bases@[k as int]@);
            assert(positive(views[k as int]).len() == views[k as int].len());
            assert(signed_view(signed@)[j] == positive(views[k as int])[j]);
            assert(is_canonical(views[k as int][j]));
        }
        let next = impl_mul_bases(&out, signed.as_slice());
        proof {
            assert(ops.subrange(0, k + 1) =~= ops.subrange(0, k as int).push(ops[k as int]));
            assert(signed_view(signed@) == ops[k as int]);
            lemma_chain_push(out@, ops.subrange(0, k as int), ops[k as int], next@);
        }
        out = next;
        k += 1;
    }
    assert(ops.subrange(0, bases@.len() as int) =~= ops);
    out
}

proof fn lemma_ordered_unique(s: Seq<Seq<u32>>, t: Seq<Seq<u32>>)
    requires
        is_ordered(s),
        is_ordered(t),
        forall|k: Seq<u32>| s.contains(k) <==> t.contains(k),
    ensures
        s == t,
    decreases s.len(),
{
    lemma_blade_order();
    if s.len() == 0 {
        if t.len() > 0 {
            assert(t.contains(t[0]));
        }
    } else {
        assert(s.contains(s[0]));
        assert(t.contains(t[0]));
        let i = choose|i: int| 0 <= i < s.len() && s[i] == t[0];
        let j = choose|j: int| 0 <= j < t.len() && t[j] == s[0];
        assert(s[0] == t[0]) by {
            if s[0] != t[0] {
                assert(blade_lt(s[0], s[i]));
                assert(blade_lt(t[0], t[j]));
            }
        }
        let s1 = s.drop_first();
        let t1 = t.drop_first();
        assert forall|k: Seq<u32>| s1.contains(k) <==> t1.contains(k) by {
            if s1.contains(k) {
                let p = choose|p: int| 0 <= p < s1.len() && s1[p] == k;
                assert(s[p + 1] == k);
                assert(blade_lt(s[0], s[p + 1]));
                assert(s.contains(k));
                let q = choose|q: int| 0 <= q < t.len() && t[q] == k;
                assert(q != 0);
                assert(t1[q - 1] == k);
            }
            if t1.contains(k) {
                let p = choose|p: int| 0 <= p < t1.len() && t1[p] == k;
                assert(t[p + 1] == k);
                assert(blade_lt(t[0], t[p + 1]));
                assert(t.contains(k));
                let q = choose|q: int| 0 <= q < s.len() && s[q] == k;
                assert(q != 0);
                assert(s1[q - 1] == k);
            }
        }
        assert(is_ordered(s1));
        assert(is_ordered(t1));
        lemma_ordered_unique(s1, t1);
        assert(s =~= t) by {
            assert forall|p: int| 0 <= p < s.len() implies s[p] == t[p] by {
                if p > 0 {
                    assert(s[p] == s1[p - 1]);
                    assert(t[p] == t1[p - 1]);
                }
            }
        }
    }
}

/// The extension of a formula set by an operand is unique.
pub proof fn lemma_extension_unique(r1: Seq<Entry>, r2: Seq<Entry>, a: Seq<Entry>, b: Seq<SignedBlade>)
    requires
        is_extension(r1, a, b),
        is_extension(r2, a, b),
    ensures
        r1 == r2,
{
    assert forall|k: Seq<u32>| keys(r1).contains(k) <==> keys(r2).contains(k) by {
        assert(keys(r1).contains(k) <==> extension_yields(a, b, k));
        assert(keys(r2).contains(k) <==> extension_yields(a, b, k));
    }
    lemma_ordered_unique(keys(r1), keys(r2));
    assert(r1 =~= r2) by {
        assert forall|i: int| 0 <= i < r1.len() implies r1[i] == r2[i] by {
            assert(keys(r1)[i] == keys(r2)[i]);
        }
    }
}

proof fn lemma_steps_agree(
    s1: Seq<Seq<Entry>>,
    s2: Seq<Seq<Entry>>,
    operands: Seq<Seq<SignedBlade>>,
    i: int,
)
    requires
        chains_through(s1, operands),
        chains_through(s2, operands),
        0 <= i <= operands.len(),
    ensures
        s1[i] == s2[i],
    decreases i,
{
    if i > 0 {
        lemma_steps_agree(s1, s2, operands, i - 1);
        assert(is_extension(s1[i], s1[i - 1], operands[i - 1]));
        assert(is_extension(s2[i], s2[i - 1], operands[i - 1]));
        lemma_extension_unique(s1[i], s2[i], s1[i - 1], operands[i - 1]);
    }
}

/// A product of operands has one formula set: the derivation is deterministic.
pub proof fn lemma_chain_unique(r1: Seq<Entry>, r2: Seq<Entry>, operands: Seq<Seq<SignedBlade>>)
    requires
        is_product_chain(r1, operands),
        is_product_chain(r2, operands),
    ensures
        r1 == r2,
{
    let s1 = choose|s: Seq<Seq<Entry>>| #[trigger] chains_through(s, operands) && s.last() == r1;
    let s2 = choose|s: Seq<Seq<Entry>>| #[trigger] chains_through(s, operands) && s.last() == r2;
    lemma_steps_agree(s1, s2, operands, operands.len() as int);
}

} // verus!

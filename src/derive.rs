//! Derivation of the component formulas of the products of the algebra:
//! geometric and exterior products, rotation by a rotor, and its matrix.
use vstd::prelude::*;
use crate::blade::{Element, Sign, is_canonical};
use crate::basis::{Basis, blade_lt, blades, lemma_blade_order};
use crate::combination::{
    Entry, LinearCombination, LinearCombinations, entry_view, SignedBlade, Term, all_canonical, impl_mul_bases,
    is_extension, is_formula_set, is_product_chain, keys, lemma_chain_push, lemma_chain_unit, mul_bases, positive,
    positive_blades, positive_operands, signed_view, terms_view, unit_formula_set,
};

verus! {

/// The sign of a rotor component of grade `g` in the reversed rotor of a
/// sandwich product: negative exactly when `g / 2` is odd.
pub open spec fn reversion_sign(g: nat) -> Sign {
    if (g / 2) % 2 == 0 {
        Sign::Pos
    } else {
        Sign::Neg
    }
}

/// The blades of a rotor basis, each with its reversion sign.
pub open spec fn reversed(b: Seq<Seq<u32>>) -> Seq<SignedBlade> {
    b.map_values(|x: Seq<u32>| (reversion_sign(x.len()), x))
}

/// The operands of the sandwich product of operand `x` by rotor `rotor`.
pub open spec fn sandwich_operands(rotor: Seq<Seq<u32>>, x: Seq<Seq<u32>>) -> Seq<
    Seq<SignedBlade>,
> {
    seq![positive(rotor), positive(x), reversed(rotor)]
}

/// Every blade of the basis is canonical.
pub open spec fn canonical_blades(b: Seq<Seq<u32>>) -> bool {
    forall|i: int| 0 <= i < b.len() ==> is_canonical(#[trigger] b[i])
}

/// The entries of `r` whose output blade has grade `g`, in order.
pub open spec fn keep_grade(r: Seq<Entry>, g: nat) -> Seq<Entry>
    decreases r.len(),
{
    if r.len() == 0 {
        seq![]
    } else {
        let p = keep_grade(r.drop_last(), g);
        if r.last().0.len() == g {
            p.push(r.last())
        } else {
            p
        }
    }
}

/// The formula of output blade `k` in `r`; no term where `r` has no such entry.
pub open spec fn formula_of(r: Seq<Entry>, k: Seq<u32>) -> Seq<Term> {
    if exists|i: int| 0 <= i < r.len() && r[i].0 == k {
        r[choose|i: int| 0 <= i < r.len() && r[i].0 == k].1
    } else {
        seq![]
    }
}

/// The blades of the rotor basis with their reversion signs.
pub fn reversed_blades(b: &Basis) -> (r: Vec<(Sign, Element)>)
    ensures
        signed_view(r@) == reversed(b@),
{
    let mut r: Vec<(Sign, Element)> = Vec::new();
    let mut k: usize = 0;
    while k < b.0.len()
        invariant
            k <= b@.len(),
            r@.len() == k,
            forall|q: int| 0 <= q < k ==> signed_view(r@)[q] == reversed(b@)[q],
        decreases b@.len() - k,
    {
        let g = b.0[k].grade();
        let s = if (g / 2) % 2 == 0 {
            Sign::Pos
        } else {
            Sign::Neg
        };
        r.push((s, b.0[k].duplicate()));
        k += 1;
    }
    assert(signed_view(r@) =~= reversed(b@));
    r
}

/// The formula set of the geometric product of an operand over `lhs` by
/// an operand over `rhs`.
pub fn geometric_product(lhs: &Basis, rhs: &Basis) -> (r: LinearCombinations)
    requires
        canonical_blades(lhs@),
        canonical_blades(rhs@),
    ensures
        is_formula_set(r@),
        is_product_chain(r@, seq![positive(lhs@), positive(rhs@)]),
{
    let mut operands: Vec<&Basis> = Vec::new();
    operands.push(lhs);
    operands.push(rhs);
    let ghost views = operands@.map_values(|b: &Basis| b@);
    assert(views =~= seq![lhs@, rhs@]);
    assert(all_canonical(views)) by {
        assert forall|i: int, j: int|
            0 <= i < views.len() && 0 <= j < views[i].len() implies is_canonical(
            #[trigger] views[i][j],
        ) by {
            if i == 0 {
                assert(is_canonical(lhs@[j]));
            } else {
                assert(is_canonical(rhs@[j]));
            }
        }
    }
    assert(positive_operands(views) =~= seq![positive(lhs@), positive(rhs@)]);
    mul_bases(operands.as_slice())
}

/// The formula set of the exterior product of a grade `lhs_grade` operand
/// over `lhs` by a grade `rhs_grade` operand over `rhs`: the entries of the
/// geometric product of grade `lhs_grade + rhs_grade`; the others are dropped.
pub fn wedge_product(lhs: &Basis, lhs_grade: usize, rhs: &Basis, rhs_grade: usize) -> (r:
    LinearCombinations)
    requires
        canonical_blades(lhs@),
        canonical_blades(rhs@),
        lhs_grade + rhs_grade <= usize::MAX,
    ensures
        exists|m: Seq<Entry>|
            is_product_chain(m, seq![positive(lhs@), positive(rhs@)]) && r@ == keep_grade(
                m,
                (lhs_grade + rhs_grade) as nat,
            ),
{
    let all = geometric_product(lhs, rhs);
    let g = lhs_grade + rhs_grade;
    let mut out: Vec<(Element, LinearCombination)> = Vec::new();
    let mut k: usize = 0;
    let ghost m = all@;
    assert(m.subrange(0, 0) =~= Seq::<Entry>::empty());
    while k < all.0.len()
        invariant
            k <= m.len(),
            m == all@,
            LinearCombinations(out)@ == keep_grade(m.subrange(0, k as int), g as nat),
        decreases m.len() - k,
    {
        assert(m.subrange(0, k + 1).drop_last() =~= m.subrange(0, k as int));
        if all.0[k].0.grade() == g {
            let entry = (all.0[k].0.duplicate(), all.0[k].1.duplicate());
            let ghost before = LinearCombinations(out)@;
            out.push(entry);
            assert(LinearCombinations(out)@ =~= before.push(m[k as int]));
        }
        k += 1;
    }
    assert(m.subrange(0, m.len() as int) =~= m);
    LinearCombinations(out)
}

/// The formula set of the sandwich product `R X R~` of an operand over `x`
/// by a rotor over `rotor`, `R~` taking each component with its reversion sign.
pub fn sandwich(rotor: &Basis, x: &Basis) -> (r: LinearCombinations)
    requires
        canonical_blades(rotor@),
        canonical_blades(x@),
    ensures
        is_formula_set(r@),
        is_product_chain(r@, sandwich_operands(rotor@, x@)),
{
    let ghost ops = sandwich_operands(rotor@, x@);
    let start = LinearCombinations::one();
    assert(is_formula_set(start@)) by {
        assert(keys(start@) =~= seq![Seq::<u32>::empty()]);
    }
    assert(is_product_chain(start@, ops.subrange(0, 0))) by {
        assert(ops.subrange(0, 0) =~= Seq::<Seq<SignedBlade>>::empty());
        lemma_chain_unit();
    }
    let first = positive_blades(rotor);
    assert forall|j: int| 0 <= j < first@.len() implies is_canonical(#[trigger] first@[j].1@) by {
        assert(signed_view(first@).len() == first@.len());
        assert(positive(rotor@).len() == rotor@.len());
        assert(signed_view(first@)[j] == positive(rotor@)[j]);
        assert(is_canonical(rotor@[j]));
    }
    let r1 = impl_mul_bases(&start, first.as_slice());
    proof {
        assert(ops.subrange(0, 1) =~= ops.subrange(0, 0).push(positive(rotor@)));
        lemma_chain_push(start@, ops.subrange(0, 0), positive(rotor@), r1@);
    }
    let second = positive_blades(x);
    assert forall|j: int| 0 <= j < second@.len() implies is_canonical(#[trigger] second@[j].1@) by {
        assert(signed_view(second@).len() == second@.len());
        assert(positive(x@).len() == x@.len());
        assert(signed_view(second@)[j] == positive(x@)[j]);
        assert(is_canonical(x@[j]));
    }
    let r2 = impl_mul_bases(&r1, second.as_slice());
    proof {
        assert(ops.subrange(0, 2) =~= ops.subrange(0, 1).push(positive(x@)));
        lemma_chain_push(r1@, ops.subrange(0, 1), positive(x@), r2@);
    }
    let third = reversed_blades(rotor);
    assert forall|j: int| 0 <= j < third@.len() implies is_canonical(#[trigger] third@[j].1@) by {
        assert(signed_view(third@).len() == third@.len());
        assert(reversed(rotor@).len() == rotor@.len());
        assert(signed_view(third@)[j] == reversed(rotor@)[j]);
        assert(is_canonical(rotor@[j]));
    }
    let r3 = impl_mul_bases(&r2, third.as_slice());
    proof {
        assert(ops.subrange(0, 3) =~= ops.subrange(0, 2).push(reversed(rotor@)));
        assert(ops.subrange(0, 3) =~= ops);
        lemma_chain_push(r2@, ops.subrange(0, 2), reversed(rotor@), r3@);
    }
    r3
}

/// The position of output blade `k` in `r`, if `r` has it.
pub fn find_entry(r: &LinearCombinations, k: &Element) -> (i: Option<usize>)
    ensures
        i matches Some(p) ==> p < r@.len() && r@[p as int].0 == k@,
        i is None ==> !(exists|q: int| 0 <= q < r@.len() && r@[q].0 == k@),
{
    let mut p: usize = 0;
    while p < r.0.len()
        invariant
            p <= r@.len(),
            forall|q: int| 0 <= q < p ==> r@[q].0 != k@,
        decreases r@.len() - p,
    {
        if r.0[p].0.same(k) {
            return Some(p);
        }
        p += 1;
    }
    None
}

/// In a formula set each output blade has one entry, found by `formula_of`.
pub proof fn lemma_formula_of(r: Seq<Entry>, p: int)
    requires
        is_formula_set(r),
        0 <= p < r.len(),
    ensures
        formula_of(r, r[p].0) == r[p].1,
{
    lemma_blade_order();
    let i = choose|i: int| 0 <= i < r.len() && r[i].0 == r[p].0;
    if i != p {
        if i < p {
            assert(blade_lt(keys(r)[i], keys(r)[p]));
        } else {
            assert(blade_lt(keys(r)[p], keys(r)[i]));
        }
    }
}

/// The formula of `k` in `r`, or the empty formula where `r` has none.
fn lookup(r: &LinearCombinations, k: &Element) -> (f: LinearCombination)
    requires
        is_formula_set(r@),
    ensures
        f@ == formula_of(r@, k@),
{
    match find_entry(r, k) {
        Some(p) => {
            proof {
                lemma_formula_of(r@, p as int);
            }
            r.0[p].1.duplicate()
        },
        None => {
            let f = LinearCombination(Vec::new());
            assert(f@ =~= Seq::<Term>::empty());
            f
        },
    }
}

/// The formulas of an operand over `x` rotated by a rotor over `rotor`: for
/// each blade of `x`, in order, its formula in the sandwich product.
/// Components of other grades that the sandwich product yields are dropped.
pub fn rotate(rotor: &Basis, x: &Basis) -> (r: LinearCombinations)
    requires
        canonical_blades(rotor@),
        canonical_blades(x@),
    ensures
        exists|m: Seq<Entry>|
            #![trigger is_product_chain(m, sandwich_operands(rotor@, x@))]
            is_product_chain(m, sandwich_operands(rotor@, x@)) && r@.len() == x@.len() && forall|
                i: int,
            |
                0 <= i < x@.len() ==> (#[trigger] r@[i]) == (x@[i], formula_of(m, x@[i])),
{
    let all = sandwich(rotor, x);
    let mut out: Vec<(Element, LinearCombination)> = Vec::new();
    let mut k: usize = 0;
    while k < x.0.len()
        invariant
            k <= x@.len(),
            is_formula_set(all@),
            out@.len() == k,
            forall|i: int|
                0 <= i < k ==> entry_view(#[trigger] out@[i]) == (x@[i], formula_of(
                    all@,
                    x@[i],
                )),
        decreases x@.len() - k,
    {
        let f = lookup(&all, &x.0[k]);
        out.push((x.0[k].duplicate(), f));
        k += 1;
    }
    let r = LinearCombinations(out);
    assert(forall|i: int| 0 <= i < x@.len() ==> (#[trigger] r@[i]) == entry_view(out@[i]));
    r
}

/// The terms of formula `f` whose middle factor is `col`, each keeping its
/// sign and its first and last factors.
pub open spec fn matrix_cell(f: Seq<Term>, col: Seq<u32>) -> Seq<Term>
    decreases f.len(),
{
    if f.len() == 0 {
        seq![]
    } else {
        let t = f.last();
        matrix_cell(f.drop_last(), col) + if t.1.len() == 3 && t.1[1] == col {
            seq![(t.0, seq![t.1[0], t.1[2]])]
        } else {
            seq![]
        }
    }
}

/// Position of the cell at `row` and `col` in a column-major `n` by `n` table.
pub open spec fn cell_index(n: int, row: int, col: int) -> int {
    row + col * n
}

proof fn lemma_cell_index(n: int, r1: int, c1: int, r2: int, c2: int)
    requires
        0 <= r1 < n,
        0 <= c1 < n,
        0 <= r2 < n,
        0 <= c2 < n,
    ensures
        0 <= cell_index(n, r1, c1) < n * n,
        cell_index(n, r1, c1) == cell_index(n, r2, c2) ==> r1 == r2 && c1 == c2,
{
    assert(0 <= r1 + c1 * n < n * n) by (nonlinear_arith)
        requires
            0 <= r1 < n,
            0 <= c1 < n,
    ;
    assert(r1 + c1 * n == r2 + c2 * n ==> r1 == r2 && c1 == c2) by (nonlinear_arith)
        requires
            0 <= r1 < n,
            0 <= c1 < n,
            0 <= r2 < n,
            0 <= c2 < n,
    ;
}

/// The position of blade `e` in `x`, if `x` holds it.
fn position(x: &Basis, e: &Element) -> (r: Option<usize>)
    ensures
        r matches Some(c) ==> c < x@.len() && x@[c as int] == e@,
        r is None ==> !x@.contains(e@),
{
    let mut c: usize = 0;
    while c < x.0.len()
        invariant
            c <= x@.len(),
            forall|q: int| 0 <= q < c ==> x@[q] != e@,
        decreases x@.len() - c,
    {
        if x.0[c].same(e) {
            return Some(c);
        }
        c += 1;
    }
    None
}

/// The matrix of the rotation of an operand over `x` by a rotor over
/// `rotor`, column-major: the cell at `row` and `col` holds the terms of the
/// rotated component `x[row]` whose operand factor is `x[col]`, as products
/// of two rotor components.
pub fn rotation_matrix(rotor: &Basis, x: &Basis) -> (m: Vec<LinearCombination>)
    requires
        canonical_blades(rotor@),
        canonical_blades(x@),
        x@.no_duplicates(),
        x@.len() * x@.len() <= usize::MAX,
    ensures
        exists|r: Seq<Entry>|
            #![trigger is_product_chain(r, sandwich_operands(rotor@, x@))]
            is_product_chain(r, sandwich_operands(rotor@, x@)) && m@.len() == x@.len() * x@.len()
                && forall|row: int, col: int|
                0 <= row < x@.len() && 0 <= col < x@.len() ==> (#[trigger] m@[cell_index(
                    x@.len() as int,
                    row,
                    col,
                )])@ == matrix_cell(formula_of(r, x@[row]), x@[col]),
{
    let all = sandwich(rotor, x);
    let n = x.0.len();
    let ghost nn = n as int;
    let mut cells: Vec<LinearCombination> = Vec::new();
    let mut k: usize = 0;
    while k < n * n
        invariant
            n == x@.len(),
            n * n <= usize::MAX,
            k <= n * n,
            cells@.len() == k,
            forall|q: int| 0 <= q < k ==> (#[trigger] cells@[q])@ == Seq::<Term>::empty(),
        decreases n * n - k,
    {
        let c = LinearCombination(Vec::new());
        assert(c@ =~= Seq::<Term>::empty());
        cells.push(c);
        k += 1;
    }
    assert forall|r: int, c: int| 0 <= r < n && 0 <= c < n implies (#[trigger] cells@[cell_index(
        nn,
        r,
        c,
    )])@ == Seq::<Term>::empty() by {
        lemma_cell_index(nn, r, c, r, c);
    }
    let mut row: usize = 0;
    while row < n
        invariant
            n == x@.len(),
            nn == n,
            n * n <= usize::MAX,
            x@.no_duplicates(),
            is_formula_set(all@),
            is_product_chain(all@, sandwich_operands(rotor@, x@)),
            row <= n,
            cells@.len() == n * n,
            forall|r: int, c: int|
                0 <= r < n && 0 <= c < n ==> (#[trigger] cells@[cell_index(nn, r, c)])@ == if r
                    < row {
                    matrix_cell(formula_of(all@, x@[r]), x@[c])
                } else {
                    Seq::<Term>::empty()
                },
        decreases n - row,
    {
        let f = lookup(&all, &x.0[row]);
        let mut t: usize = 0;
        assert forall|c: int| 0 <= c < n implies matrix_cell(f@.subrange(0, 0), x@[c])
            == Seq::<Term>::empty() by {
            assert(f@.subrange(0, 0) =~= Seq::<Term>::empty());
        }
        while t < f.0.len()
            invariant
                n == x@.len(),
                nn == n,
                n * n <= usize::MAX,
                x@.no_duplicates(),
                row < n,
                t <= f@.len(),
                f@ == formula_of(all@, x@[row as int]),
                cells@.len() == n * n,
                forall|r: int, c: int|
                    0 <= r < n && 0 <= c < n ==> (#[trigger] cells@[cell_index(nn, r, c)])@ == if r
                        < row {
                        matrix_cell(formula_of(all@, x@[r]), x@[c])
                    } else if r == row {
                        matrix_cell(f@.subrange(0, t as int), x@[c])
                    } else {
                        Seq::<Term>::empty()
                    },
            decreases f@.len() - t,
        {
            let term = &f.0[t];
            let ghost tv = f@[t as int];
            assert forall|c: int| 0 <= c < n implies matrix_cell(f@.subrange(0, t + 1), x@[c])
                == matrix_cell(f@.subrange(0, t as int), x@[c]) + if tv.1.len() == 3 && tv.1[1]
                == x@[c] {
                seq![(tv.0, seq![tv.1[0], tv.1[2]])]
            } else {
                seq![]
            } by {
                assert(f@.subrange(0, t + 1).drop_last() =~= f@.subrange(0, t as int));
            }
            if term.1.len() == 3 {
                match position(x, &term.1[1]) {
                    Some(col) => {
                        proof {
                            lemma_cell_index(nn, row as int, col as int, row as int, col as int);
                        }
                        let idx = row + col * n;
                        let mut c = cells[idx].duplicate();
                        let mut factors: Vec<Element> = Vec::new();
                        factors.push(term.1[0].duplicate());
                        factors.push(term.1[2].duplicate());
                        assert(blades(factors@) =~= seq![tv.1[0], tv.1[2]]);
                        let ghost before = c@;
                        c.0.push((term.0, factors));
                        assert(c@ =~= before + seq![(tv.0, seq![tv.1[0], tv.1[2]])]);
                        let ghost old_cells = cells@;
                        cells.set(idx, c);
                        assert forall|r: int, c2: int| 0 <= r < n && 0 <= c2 < n implies (
                        #[trigger] cells@[cell_index(nn, r, c2)])@ == if r < row {
                            matrix_cell(formula_of(all@, x@[r]), x@[c2])
                        } else if r == row {
                            matrix_cell(f@.subrange(0, t + 1), x@[c2])
                        } else {
                            Seq::<Term>::empty()
                        } by {
                            lemma_cell_index(nn, r, c2, row as int, col as int);
                            assert(old_cells[cell_index(nn, r, c2)] == old_cells[cell_index(
                                nn,
                                r,
                                c2,
                            )]);
                            if r == row && c2 != col {
                                assert(x@[c2] != x@[col as int]);
                            }
                        }
                    },
                    None => {
                        assert forall|c2: int| 0 <= c2 < n implies tv.1[1] != x@[c2] by {
                            assert(x@[c2] == x@[c2]);
                            if tv.1[1] == x@[c2] {
                                assert(x@.contains(tv.1[1]));
                            }
                        }
                    },
                }
            }
            t += 1;
        }
        assert(f@.subrange(0, f@.len() as int) =~= f@);
        row += 1;
    }
    cells
}

} // verus!

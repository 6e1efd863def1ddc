//! Values of derived formulas for given components, and what the formulas of
//! a rotation give for the identity rotor.
use vstd::prelude::*;
use crate::blade::{Sign, is_canonical, lemma_scalar_identity, product_blade, product_sign, sign_mul};
use crate::basis::{blade_lt, is_ordered, lemma_blade_order};
use crate::combination::{
    Entry, SignedBlade, Term, extended_terms, extension_yields, is_extension, is_formula_set,
    is_product_chain, keys, chains_through, positive, row_terms, scaled, unit_formula_set,
};
use crate::derive::{
    canonical_blades, formula_of, lemma_formula_of, reversed, reversion_sign, sandwich_operands,
};

verus! {

/// `+1` or `-1`.
pub open spec fn sign_value(s: Sign) -> int {
    match s {
        Sign::Pos => 1,
        Sign::Neg => -1,
    }
}

/// The components of the identity rotor: one on the scalar blade, zero elsewhere.
pub open spec fn identity_component(b: Seq<u32>) -> int {
    if b.len() == 0 {
        1
    } else {
        0
    }
}

/// The value of a sandwich formula: each term is its sign times the rotor
/// component of its first factor, the operand component of its second and
/// the rotor component of its third.
pub open spec fn sandwich_value(
    f: Seq<Term>,
    rotor: spec_fn(Seq<u32>) -> int,
    operand: spec_fn(Seq<u32>) -> int,
) -> int
    decreases f.len(),
{
    if f.len() == 0 {
        0
    } else {
        let t = f.last();
        sandwich_value(f.drop_last(), rotor, operand) + sign_value(t.0) * rotor(t.1[0]) * operand(
            t.1[1],
        ) * rotor(t.1[2])
    }
}

/// The value of a two-factor formula for the identity rotor on the first
/// factor and `operand` on the second.
spec fn half_value(f: Seq<Term>, operand: spec_fn(Seq<u32>) -> int) -> int
    decreases f.len(),
{
    if f.len() == 0 {
        0
    } else {
        let t = f.last();
        half_value(f.drop_last(), operand) + sign_value(t.0) * identity_component(t.1[0]) * operand(
            t.1[1],
        )
    }
}

/// The sum of `half_value` over the entries of `a` with output blade `k`.
spec fn keyed_half_value(a: Seq<Entry>, k: Seq<u32>, operand: spec_fn(Seq<u32>) -> int) -> int
    decreases a.len(),
{
    if a.len() == 0 {
        0
    } else {
        keyed_half_value(a.drop_last(), k, operand) + if a.last().0 == k {
            half_value(a.last().1, operand)
        } else {
            0
        }
    }
}

spec fn terms_of_length(f: Seq<Term>, n: nat) -> bool {
    forall|q: int| 0 <= q < f.len() ==> (#[trigger] f[q]).1.len() == n
}

spec fn entries_of_length(a: Seq<Entry>, n: nat) -> bool {
    forall|i: int| 0 <= i < a.len() ==> terms_of_length(#[trigger] a[i].1, n)
}

/// No two signed blades of `b` are the same blade.
spec fn distinct_blades(b: Seq<SignedBlade>) -> bool {
    forall|i: int, j: int| 0 <= i < b.len() && 0 <= j < b.len() && i != j ==> b[i].1 != b[j].1
}

spec fn has_blade(b: Seq<SignedBlade>, k: Seq<u32>) -> bool {
    exists|j: int| 0 <= j < b.len() && b[j].1 == k
}

proof fn lemma_sandwich_value_concat(
    f: Seq<Term>,
    g: Seq<Term>,
    rotor: spec_fn(Seq<u32>) -> int,
    operand: spec_fn(Seq<u32>) -> int,
)
    ensures
        sandwich_value(f + g, rotor, operand) == sandwich_value(f, rotor, operand) + sandwich_value(
            g,
            rotor,
            operand,
        ),
    decreases g.len(),
{
    if g.len() == 0 {
        assert(f + g =~= f);
    } else {
        assert((f + g).drop_last() =~= f + g.drop_last());
        lemma_sandwich_value_concat(f, g.drop_last(), rotor, operand);
    }
}

proof fn lemma_half_value_concat(f: Seq<Term>, g: Seq<Term>, operand: spec_fn(Seq<u32>) -> int)
    ensures
        half_value(f + g, operand) == half_value(f, operand) + half_value(g, operand),
    decreases g.len(),
{
    if g.len() == 0 {
        assert(f + g =~= f);
    } else {
        assert((f + g).drop_last() =~= f + g.drop_last());
        lemma_half_value_concat(f, g.drop_last(), operand);
    }
}

proof fn lemma_scaled_drop_last(f: Seq<Term>, p: Sign, s: SignedBlade)
    requires
        f.len() > 0,
    ensures
        scaled(f, p, s).drop_last() == scaled(f.drop_last(), p, s),
        scaled(f, p, s).last() == (sign_mul(sign_mul(f.last().0, p), s.0), f.last().1.push(s.1)),
{
    assert(scaled(f, p, s).drop_last() =~= scaled(f.drop_last(), p, s));
}

/// A third factor off the scalar blade makes every term vanish.
proof fn lemma_scaled_off_scalar(
    f: Seq<Term>,
    p: Sign,
    s: SignedBlade,
    operand: spec_fn(Seq<u32>) -> int,
)
    requires
        terms_of_length(f, 2),
        s.1.len() > 0,
    ensures
        sandwich_value(scaled(f, p, s), |b: Seq<u32>| identity_component(b), operand) == 0,
    decreases f.len(),
{
    if f.len() > 0 {
        lemma_scaled_drop_last(f, p, s);
        lemma_scaled_off_scalar(f.drop_last(), p, s, operand);
        let t = scaled(f, p, s).last();
        assert(t.1[2] == s.1);
    }
}

/// A positive scalar third factor keeps the value of the first two.
proof fn lemma_scaled_by_scalar(f: Seq<Term>, operand: spec_fn(Seq<u32>) -> int)
    requires
        terms_of_length(f, 2),
    ensures
        sandwich_value(
            scaled(f, Sign::Pos, (Sign::Pos, Seq::<u32>::empty())),
            |b: Seq<u32>| identity_component(b),
            operand,
        ) == half_value(f, operand),
    decreases f.len(),
{
    let s = (Sign::Pos, Seq::<u32>::empty());
    if f.len() > 0 {
        lemma_scaled_drop_last(f, Sign::Pos, s);
        lemma_scaled_by_scalar(f.drop_last(), operand);
        let t = f.last();
        let u = scaled(f, Sign::Pos, s).last();
        assert(t.1.len() == 2);
        assert(u.1[0] == t.1[0] && u.1[1] == t.1[1] && u.1[2] == s.1);
        assert(sign_value(u.0) == sign_value(t.0));
    }
}

/// The terms that one entry contributes in the last factor of a sandwich,
/// for the identity rotor.
proof fn lemma_third_row(e: Entry, b: Seq<SignedBlade>, k: Seq<u32>, operand: spec_fn(Seq<u32>) -> int)
    requires
        is_canonical(e.0),
        terms_of_length(e.1, 2),
        distinct_blades(b),
        forall|j: int| 0 <= j < b.len() ==> is_canonical(#[trigger] b[j].1),
        forall|j: int| 0 <= j < b.len() && (#[trigger] b[j].1).len() == 0 ==> b[j].0 == Sign::Pos,
    ensures
        sandwich_value(row_terms(e, b, k), |x: Seq<u32>| identity_component(x), operand) == if e.0
            == k && has_blade(b, Seq::<u32>::empty()) {
            half_value(e.1, operand)
        } else {
            0
        },
    decreases b.len(),
{
    let id = |x: Seq<u32>| identity_component(x);
    if b.len() == 0 {
        assert(row_terms(e, b, k) =~= Seq::<Term>::empty());
    } else {
        let b1 = b.drop_last();
        let s = b.last();
        assert(b[b.len() - 1] == s);
        assert(distinct_blades(b1));
        lemma_third_row(e, b1, k, operand);
        let tail = if product_blade(e.0, s.1) == k {
            scaled(e.1, product_sign(e.0, s.1), s)
        } else {
            seq![]
        };
        lemma_sandwich_value_concat(row_terms(e, b1, k), tail, id, operand);
        if s.1.len() == 0 {
            assert(s.1 =~= Seq::<u32>::empty());
            lemma_scalar_identity(e.0);
            assert(!has_blade(b1, Seq::<u32>::empty())) by {
                if has_blade(b1, Seq::<u32>::empty()) {
                    let j = choose|j: int| 0 <= j < b1.len() && b1[j].1 == Seq::<u32>::empty();
                    assert(b[j].1 == b[b.len() - 1].1);
                }
            }
            if e.0 == k {
                lemma_scaled_by_scalar(e.1, operand);
            } else {
                assert(tail =~= Seq::<Term>::empty());
            }
            assert(has_blade(b, Seq::<u32>::empty()));
        } else {
            if product_blade(e.0, s.1) == k {
                lemma_scaled_off_scalar(e.1, product_sign(e.0, s.1), s, operand);
            } else {
                assert(tail =~= Seq::<Term>::empty());
            }
            assert(has_blade(b, Seq::<u32>::empty()) == has_blade(b1, Seq::<u32>::empty())) by {
                if has_blade(b, Seq::<u32>::empty()) {
                    let j = choose|j: int| 0 <= j < b.len() && b[j].1 == Seq::<u32>::empty();
                    assert(b1[j] == b[j]);
                }
                if has_blade(b1, Seq::<u32>::empty()) {
                    let j = choose|j: int| 0 <= j < b1.len() && b1[j].1 == Seq::<u32>::empty();
                    assert(b[j] == b1[j]);
                }
            }
        }
    }
}

/// Through the last factor of a sandwich, for the identity rotor, each
/// output blade keeps the value of its two-factor formula.
proof fn lemma_third_factor(a: Seq<Entry>, b: Seq<SignedBlade>, k: Seq<u32>, operand: spec_fn(Seq<u32>) -> int)
    requires
        forall|i: int| 0 <= i < a.len() ==> is_canonical(#[trigger] a[i].0),
        entries_of_length(a, 2),
        distinct_blades(b),
        forall|j: int| 0 <= j < b.len() ==> is_canonical(#[trigger] b[j].1),
        forall|j: int| 0 <= j < b.len() && (#[trigger] b[j].1).len() == 0 ==> b[j].0 == Sign::Pos,
        has_blade(b, Seq::<u32>::empty()),
    ensures
        sandwich_value(extended_terms(a, b, k), |x: Seq<u32>| identity_component(x), operand)
            == keyed_half_value(a, k, operand),
    decreases a.len(),
{
    let id = |x: Seq<u32>| identity_component(x);
    if a.len() > 0 {
        let a1 = a.drop_last();
        assert(a[a.len() - 1] == a.last());
        assert(entries_of_length(a1, 2)) by {
            assert forall|i: int| 0 <= i < a1.len() implies terms_of_length(#[trigger] a1[i].1, 2) by {
                assert(a1[i] == a[i]);
            }
        }
        lemma_third_factor(a1, b, k, operand);
        lemma_third_row(a.last(), b, k, operand);
        lemma_sandwich_value_concat(extended_terms(a1, b, k), row_terms(a.last(), b, k), id, operand);
    }
}

/// The sum over entries with output blade `k` is the formula of its single entry.
proof fn lemma_keyed_half_value(a: Seq<Entry>, q: int, operand: spec_fn(Seq<u32>) -> int)
    requires
        is_ordered(keys(a)),
        0 <= q < a.len(),
    ensures
        keyed_half_value(a, a[q].0, operand) == half_value(a[q].1, operand),
    decreases a.len(),
{
    lemma_blade_order();
    let a1 = a.drop_last();
    let k = a[q].0;
    assert(keys(a1) =~= keys(a).drop_last());
    if q == a.len() - 1 {
        assert forall|i: int| 0 <= i < a1.len() implies blade_lt(#[trigger] a1[i].0, k) by {
            assert(keys(a)[i] == a1[i].0);
            assert(blade_lt(keys(a)[i], keys(a)[q]));
        }
        lemma_keyed_absent(a1, k, operand);
    } else {
        assert(keys(a)[q] == k);
        assert(blade_lt(keys(a)[q], keys(a)[a.len() - 1]));
        assert(a1[q] == a[q]);
        lemma_keyed_half_value(a1, q, operand);
    }
}

proof fn lemma_keyed_absent(a: Seq<Entry>, k: Seq<u32>, operand: spec_fn(Seq<u32>) -> int)
    requires
        is_ordered(keys(a)),
        forall|i: int| 0 <= i < a.len() ==> blade_lt(#[trigger] a[i].0, k),
    ensures
        keyed_half_value(a, k, operand) == 0,
    decreases a.len(),
{
    lemma_blade_order();
    if a.len() > 0 {
        let a1 = a.drop_last();
        assert(keys(a1) =~= keys(a).drop_last());
        assert(blade_lt(a[a.len() - 1].0, k));
        assert forall|i: int| 0 <= i < a1.len() implies blade_lt(#[trigger] a1[i].0, k) by {
            assert(a1[i] == a[i]);
        }
        lemma_keyed_absent(a1, k, operand);
    }
}

proof fn lemma_terms_concat(f: Seq<Term>, g: Seq<Term>, n: nat)
    requires
        terms_of_length(f, n),
        terms_of_length(g, n),
    ensures
        terms_of_length(f + g, n),
{
    assert forall|q: int| 0 <= q < (f + g).len() implies (#[trigger] (f + g)[q]).1.len() == n by {
        if q < f.len() {
            assert((f + g)[q] == f[q]);
        } else {
            assert((f + g)[q] == g[q - f.len()]);
        }
    }
}

proof fn lemma_row_shape(e: Entry, b: Seq<SignedBlade>, k: Seq<u32>, n: nat)
    requires
        terms_of_length(e.1, n),
    ensures
        terms_of_length(row_terms(e, b, k), n + 1),
    decreases b.len(),
{
    if b.len() > 0 {
        let s = b.last();
        lemma_row_shape(e, b.drop_last(), k, n);
        let tail = if product_blade(e.0, s.1) == k {
            scaled(e.1, product_sign(e.0, s.1), s)
        } else {
            seq![]
        };
        assert(terms_of_length(tail, n + 1)) by {
            assert forall|q: int| 0 <= q < tail.len() implies (#[trigger] tail[q]).1.len() == n
                + 1 by {
                assert(e.1[q].1.len() == n);
            }
        }
        lemma_terms_concat(row_terms(e, b.drop_last(), k), tail, n + 1);
    }
}

proof fn lemma_extension_shape(a: Seq<Entry>, b: Seq<SignedBlade>, k: Seq<u32>, n: nat)
    requires
        entries_of_length(a, n),
    ensures
        terms_of_length(extended_terms(a, b, k), n + 1),
    decreases a.len(),
{
    if a.len() > 0 {
        let a1 = a.drop_last();
        assert(entries_of_length(a1, n)) by {
            assert forall|i: int| 0 <= i < a1.len() implies terms_of_length(#[trigger] a1[i].1, n) by {
                assert(a1[i] == a[i]);
            }
        }
        assert(terms_of_length(a[a.len() - 1].1, n));
        lemma_extension_shape(a1, b, k, n);
        lemma_row_shape(a.last(), b, k, n);
        lemma_terms_concat(extended_terms(a1, b, k), row_terms(a.last(), b, k), n + 1);
    }
}

/// Blades of a basis taken with positive signs, each once.
spec fn plain_blades(b: Seq<SignedBlade>) -> bool {
    &&& distinct_blades(b)
    &&& forall|j: int| 0 <= j < b.len() ==> is_canonical(#[trigger] b[j].1)
    &&& forall|j: int| 0 <= j < b.len() ==> (#[trigger] b[j]).0 == Sign::Pos
}

proof fn lemma_has_blade_drop_last(b: Seq<SignedBlade>, k: Seq<u32>)
    requires
        b.len() > 0,
    ensures
        has_blade(b, k) <==> (has_blade(b.drop_last(), k) || b.last().1 == k),
{
    let b1 = b.drop_last();
    if has_blade(b, k) && b.last().1 != k {
        let j = choose|j: int| 0 <= j < b.len() && b[j].1 == k;
        assert(b1[j] == b[j]);
    }
    if has_blade(b1, k) {
        let j = choose|j: int| 0 <= j < b1.len() && b1[j].1 == k;
        assert(b[j] == b1[j]);
    }
    if b.last().1 == k {
        assert(b[b.len() - 1] == b.last());
    }
}

proof fn lemma_plain_drop_last(b: Seq<SignedBlade>)
    requires
        plain_blades(b),
        b.len() > 0,
    ensures
        plain_blades(b.drop_last()),
{
    let b1 = b.drop_last();
    assert forall|j: int| 0 <= j < b1.len() implies (#[trigger] b1[j]).0 == Sign::Pos by {
        assert(b1[j] == b[j]);
    }
    assert forall|j: int| 0 <= j < b1.len() implies is_canonical(#[trigger] b1[j].1) by {
        assert(b1[j] == b[j]);
    }
}

/// The first factor: from the unit formula set each blade of the operand
/// gives one positive term of its own.
proof fn lemma_first_row(b: Seq<SignedBlade>, k: Seq<u32>)
    requires
        plain_blades(b),
    ensures
        row_terms(unit_formula_set()[0], b, k) == if has_blade(b, k) {
            seq![(Sign::Pos, seq![k])]
        } else {
            Seq::<Term>::empty()
        },
    decreases b.len(),
{
    let u = unit_formula_set()[0];
    if b.len() == 0 {
        assert(!has_blade(b, k));
    } else {
        let b1 = b.drop_last();
        let s = b.last();
        assert(b[b.len() - 1] == s);
        lemma_plain_drop_last(b);
        lemma_first_row(b1, k);
        lemma_has_blade_drop_last(b, k);
        lemma_scalar_identity(s.1);
        assert(u.0 =~= Seq::<u32>::empty());
        if s.1 == k {
            assert(!has_blade(b1, k)) by {
                if has_blade(b1, k) {
                    let j = choose|j: int| 0 <= j < b1.len() && b1[j].1 == k;
                    assert(b[j].1 == b[b.len() - 1].1);
                }
            }
            assert(scaled(u.1, Sign::Pos, s) =~= seq![(Sign::Pos, seq![k])]) by {
                assert(Seq::<Seq<u32>>::empty().push(k) =~= seq![k]);
            }
            assert(row_terms(u, b, k) =~= Seq::<Term>::empty() + seq![(Sign::Pos, seq![k])]);
        } else {
            assert(row_terms(u, b, k) =~= row_terms(u, b1, k) + Seq::<Term>::empty());
        }
    }
}

/// The second factor, for the identity rotor on the first: only the scalar
/// entry counts, and it picks the operand's component.
proof fn lemma_second_row(e: Entry, b: Seq<SignedBlade>, k: Seq<u32>, operand: spec_fn(Seq<u32>) -> int)
    requires
        is_canonical(e.0),
        e.1 == seq![(Sign::Pos, seq![e.0])],
        plain_blades(b),
    ensures
        half_value(row_terms(e, b, k), operand) == if e.0.len() == 0 && has_blade(b, k) {
            operand(k)
        } else {
            0
        },
    decreases b.len(),
{
    if b.len() == 0 {
        assert(row_terms(e, b, k) =~= Seq::<Term>::empty());
    } else {
        let b1 = b.drop_last();
        let s = b.last();
        assert(b[b.len() - 1] == s);
        lemma_plain_drop_last(b);
        lemma_second_row(e, b1, k, operand);
        lemma_has_blade_drop_last(b, k);
        let p = product_sign(e.0, s.1);
        let tail = if product_blade(e.0, s.1) == k {
            scaled(e.1, p, s)
        } else {
            seq![]
        };
        lemma_half_value_concat(row_terms(e, b1, k), tail, operand);
        if product_blade(e.0, s.1) == k {
            lemma_scaled_drop_last(e.1, p, s);
            let t = tail.last();
            assert(tail.len() == 1);
            assert(tail.drop_last() =~= Seq::<Term>::empty());
            assert(half_value(tail.drop_last(), operand) == 0);
            assert(t.1[0] == e.0 && t.1[1] == s.1);
            assert(half_value(tail, operand) == sign_value(t.0) * identity_component(e.0) * operand(
                s.1,
            ));
            if e.0.len() > 0 {
                let (x, y, z) = (sign_value(t.0), identity_component(e.0), operand(s.1));
                assert(x * y * z == 0) by (nonlinear_arith)
                    requires
                        y == 0,
                ;
            }
            if e.0.len() == 0 {
                assert(e.0 =~= Seq::<u32>::empty());
                lemma_scalar_identity(s.1);
                assert(!has_blade(b1, k)) by {
                    if has_blade(b1, k) {
                        let j = choose|j: int| 0 <= j < b1.len() && b1[j].1 == k;
                        assert(b[j].1 == b[b.len() - 1].1);
                    }
                }
                assert(t.0 == Sign::Pos);
                let (x, y, z) = (sign_value(t.0), identity_component(e.0), operand(s.1));
                assert(x * y * z == z) by (nonlinear_arith)
                    requires
                        x == 1,
                        y == 1,
                ;
            }
        } else {
            assert(tail =~= Seq::<Term>::empty());
            if e.0.len() == 0 {
                assert(e.0 =~= Seq::<u32>::empty());
                lemma_scalar_identity(s.1);
            }
        }
    }
}

proof fn lemma_second_factor(a: Seq<Entry>, b: Seq<SignedBlade>, k: Seq<u32>, operand: spec_fn(Seq<u32>) -> int)
    requires
        is_formula_set(a),
        forall|i: int| 0 <= i < a.len() ==> (#[trigger] a[i]).1 == seq![(Sign::Pos, seq![a[i].0])],
        plain_blades(b),
    ensures
        half_value(extended_terms(a, b, k), operand) == if keys(a).contains(Seq::<u32>::empty())
            && has_blade(b, k) {
            operand(k)
        } else {
            0
        },
    decreases a.len(),
{
    lemma_blade_order();
    if a.len() == 0 {
        assert(!keys(a).contains(Seq::<u32>::empty()));
    } else {
        let a1 = a.drop_last();
        let e = a.last();
        assert(a[a.len() - 1] == e);
        assert(keys(a1) =~= keys(a).drop_last());
        assert(is_formula_set(a1)) by {
            assert forall|i: int| 0 <= i < a1.len() implies is_canonical(#[trigger] a1[i].0) by {
                assert(a1[i] == a[i]);
            }
        }
        assert forall|i: int| 0 <= i < a1.len() implies (#[trigger] a1[i]).1 == seq![
            (Sign::Pos, seq![a1[i].0]),
        ] by {
            assert(a1[i] == a[i]);
        }
        lemma_second_factor(a1, b, k, operand);
        lemma_second_row(e, b, k, operand);
        lemma_half_value_concat(extended_terms(a1, b, k), row_terms(e, b, k), operand);
        let z = Seq::<u32>::empty();
        if e.0.len() == 0 {
            assert(e.0 =~= z);
            assert(keys(a)[a.len() - 1] == z);
            assert(!keys(a1).contains(z)) by {
                if keys(a1).contains(z) {
                    let i = choose|i: int| 0 <= i < keys(a1).len() && keys(a1)[i] == z;
                    assert(blade_lt(keys(a)[i], keys(a)[a.len() - 1]));
                }
            }
        } else {
            assert(keys(a).contains(z) == keys(a1).contains(z)) by {
                if keys(a).contains(z) {
                    let i = choose|i: int| 0 <= i < keys(a).len() && keys(a)[i] == z;
                    assert(i != a.len() - 1);
                    assert(keys(a1)[i] == z);
                }
                if keys(a1).contains(z) {
                    let i = choose|i: int| 0 <= i < keys(a1).len() && keys(a1)[i] == z;
                    assert(keys(a)[i] == z);
                }
            }
        }
    }
}

/// Rotating by the identity rotor, whose scalar component is one and all
/// others zero, reproduces each component of the operand, whatever its grade.
pub proof fn lemma_identity_rotation(
    rotor: Seq<Seq<u32>>,
    x: Seq<Seq<u32>>,
    m: Seq<Entry>,
    operand: spec_fn(Seq<u32>) -> int,
    i: int,
)
    requires
        canonical_blades(rotor),
        rotor.no_duplicates(),
        rotor.contains(Seq::<u32>::empty()),
        canonical_blades(x),
        x.no_duplicates(),
        is_product_chain(m, sandwich_operands(rotor, x)),
        0 <= i < x.len(),
    ensures
        sandwich_value(formula_of(m, x[i]), |b: Seq<u32>| identity_component(b), operand)
            == operand(x[i]),
{
    let z = Seq::<u32>::empty();
    let pr = positive(rotor);
    let px = positive(x);
    let rr = reversed(rotor);
    let ops = sandwich_operands(rotor, x);
    let steps = choose|steps: Seq<Seq<Entry>>| #[trigger]
        chains_through(steps, ops) && steps.last() == m;
    assert(ops[0] == pr && ops[1] == px && ops[2] == rr);
    let m0 = steps[0];
    let m1 = steps[1];
    let m2 = steps[2];
    assert(is_extension(m1, m0, pr));
    assert(is_extension(m2, m1, px));
    assert(is_extension(m, m2, rr));

    let j0 = choose|j: int| 0 <= j < rotor.len() && rotor[j] == z;
    assert(plain_blades(pr)) by {
        assert forall|a: int, b: int|
            0 <= a < pr.len() && 0 <= b < pr.len() && a != b implies pr[a].1 != pr[b].1 by {
            assert(rotor[a] != rotor[b]);
        }
    }
    assert(plain_blades(px)) by {
        assert forall|a: int, b: int|
            0 <= a < px.len() && 0 <= b < px.len() && a != b implies px[a].1 != px[b].1 by {
            assert(x[a] != x[b]);
        }
    }

    // The first factor: one positive term per rotor blade.
    let u = unit_formula_set();
    assert forall|q: int| 0 <= q < m1.len() implies (#[trigger] m1[q]).1 == seq![
        (Sign::Pos, seq![m1[q].0]),
    ] by {
        let k = m1[q].0;
        assert(u.drop_last() =~= Seq::<Entry>::empty());
        assert(extended_terms(u, pr, k) == extended_terms(u.drop_last(), pr, k) + row_terms(
            u.last(),
            pr,
            k,
        ));
        assert(extended_terms(u, pr, k) =~= row_terms(u[0], pr, k));
        lemma_first_row(pr, k);
        assert(keys(m1)[q] == k);
        assert(keys(m1).contains(k));
        let (a, b) = choose|a: int, b: int|
            0 <= a < u.len() && 0 <= b < pr.len() && product_blade(u[a].0, pr[b].1) == k;
        assert(pr.len() == rotor.len() && pr[b].1 == rotor[b]);
        assert(is_canonical(rotor[b]));
        lemma_scalar_identity(rotor[b]);
        assert(u[a].0 =~= z);
        assert(has_blade(pr, k));
    }
    assert(keys(m1).contains(z)) by {
        lemma_scalar_identity(z);
        assert(u[0].0 =~= z);
        assert(product_blade(u[0].0, pr[j0].1) == z);
        assert(extension_yields(u, pr, z));
    }
    let q1 = choose|q: int| 0 <= q < keys(m1).len() && keys(m1)[q] == z;
    assert(entries_of_length(m1, 1)) by {
        assert forall|q: int| 0 <= q < m1.len() implies terms_of_length(#[trigger] m1[q].1, 1) by {
            assert(m1[q].1 == seq![(Sign::Pos, seq![m1[q].0])]);
        }
    }

    // The second factor: the scalar entry picks the operand component.
    let xi = x[i];
    lemma_scalar_identity(xi);
    assert(keys(m2).contains(xi)) by {
        assert(m1[q1].0 == z);
        assert(product_blade(m1[q1].0, px[i].1) == xi);
        assert(extension_yields(m1, px, xi));
    }
    let q2 = choose|q: int| 0 <= q < keys(m2).len() && keys(m2)[q] == xi;
    assert(m2[q2].0 == xi);
    assert(has_blade(px, xi)) by {
        assert(px[i].1 == xi);
    }
    lemma_second_factor(m1, px, xi, operand);
    assert(half_value(m2[q2].1, operand) == operand(xi));
    assert(entries_of_length(m2, 2)) by {
        assert forall|q: int| 0 <= q < m2.len() implies terms_of_length(#[trigger] m2[q].1, 2) by {
            lemma_extension_shape(m1, px, m2[q].0, 1);
        }
    }

    // The third factor: only the scalar rotor blade counts.
    assert(keys(m).contains(xi)) by {
        assert(rr[j0].1 == z);
        assert(product_blade(m2[q2].0, rr[j0].1) == xi);
        assert(extension_yields(m2, rr, xi));
    }
    let q = choose|q: int| 0 <= q < keys(m).len() && keys(m)[q] == xi;
    assert(m[q].0 == xi);
    lemma_formula_of(m, q);
    assert(has_blade(rr, z)) by {
        assert(rr[j0].1 == z);
    }
    assert(distinct_blades(rr)) by {
        assert forall|a: int, b: int|
            0 <= a < rr.len() && 0 <= b < rr.len() && a != b implies rr[a].1 != rr[b].1 by {
            assert(rotor[a] != rotor[b]);
        }
    }
    assert forall|j: int| 0 <= j < rr.len() && (#[trigger] rr[j].1).len() == 0 implies rr[j].0
        == Sign::Pos by {
        assert(rr[j].0 == reversion_sign(rotor[j].len()));
    }
    lemma_third_factor(m2, rr, xi, operand);
    lemma_keyed_half_value(m2, q2, operand);
}

/// Every term of `f` has its factor at position `p` in `s`.
spec fn factor_from(f: Seq<Term>, p: int, s: Seq<Seq<u32>>) -> bool {
    forall|q: int| 0 <= q < f.len() ==> s.contains(#[trigger] f[q].1[p])
}

spec fn entries_factor_from(a: Seq<Entry>, p: int, s: Seq<Seq<u32>>) -> bool {
    forall|i: int| 0 <= i < a.len() ==> factor_from(#[trigger] a[i].1, p, s)
}

proof fn lemma_factor_concat(f: Seq<Term>, g: Seq<Term>, p: int, s: Seq<Seq<u32>>)
    requires
        factor_from(f, p, s),
        factor_from(g, p, s),
    ensures
        factor_from(f + g, p, s),
{
    assert forall|q: int| 0 <= q < (f + g).len() implies s.contains(#[trigger] (f + g)[q].1[p]) by {
        if q < f.len() {
            assert((f + g)[q] == f[q]);
        } else {
            assert((f + g)[q] == g[q - f.len()]);
        }
    }
}

/// Through one more operand, the factors already there stay in place and
/// the new last factor comes from the operand.
proof fn lemma_row_factors(
    e: Entry,
    b: Seq<SignedBlade>,
    k: Seq<u32>,
    n: nat,
    p: int,
    s: Seq<Seq<u32>>,
    sb: Seq<Seq<u32>>,
)
    requires
        terms_of_length(e.1, n),
        0 <= p < n ==> factor_from(e.1, p, s),
        forall|j: int| 0 <= j < b.len() ==> sb.contains(#[trigger] b[j].1),
        0 <= p <= n,
    ensures
        p < n ==> factor_from(row_terms(e, b, k), p, s),
        p == n ==> factor_from(row_terms(e, b, k), p, sb),
    decreases b.len(),
{
    if b.len() > 0 {
        let last = b.last();
        assert(b[b.len() - 1] == last);
        assert forall|j: int| 0 <= j < b.drop_last().len() implies sb.contains(
            #[trigger] b.drop_last()[j].1,
        ) by {
            assert(b.drop_last()[j] == b[j]);
        }
        lemma_row_factors(e, b.drop_last(), k, n, p, s, sb);
        let tail = if product_blade(e.0, last.1) == k {
            scaled(e.1, product_sign(e.0, last.1), last)
        } else {
            seq![]
        };
        let target = if p < n {
            s
        } else {
            sb
        };
        assert(factor_from(tail, p, target)) by {
            assert forall|q: int| 0 <= q < tail.len() implies target.contains(#[trigger] tail[q].1[p]) by {
                assert(e.1[q].1.len() == n);
                if p < n {
                    assert(tail[q].1[p] == e.1[q].1[p]);
                } else {
                    assert(tail[q].1[p] == last.1);
                }
            }
        }
        lemma_factor_concat(row_terms(e, b.drop_last(), k), tail, p, target);
    }
}

proof fn lemma_extension_factors(
    a: Seq<Entry>,
    b: Seq<SignedBlade>,
    k: Seq<u32>,
    n: nat,
    p: int,
    s: Seq<Seq<u32>>,
    sb: Seq<Seq<u32>>,
)
    requires
        entries_of_length(a, n),
        0 <= p < n ==> entries_factor_from(a, p, s),
        forall|j: int| 0 <= j < b.len() ==> sb.contains(#[trigger] b[j].1),
        0 <= p <= n,
    ensures
        p < n ==> factor_from(extended_terms(a, b, k), p, s),
        p == n ==> factor_from(extended_terms(a, b, k), p, sb),
    decreases a.len(),
{
    if a.len() > 0 {
        let a1 = a.drop_last();
        assert(entries_of_length(a1, n)) by {
            assert forall|i: int| 0 <= i < a1.len() implies terms_of_length(#[trigger] a1[i].1, n) by {
                assert(a1[i] == a[i]);
            }
        }
        if p < n {
            assert(entries_factor_from(a1, p, s)) by {
                assert forall|i: int| 0 <= i < a1.len() implies factor_from(#[trigger] a1[i].1, p, s) by {
                    assert(a1[i] == a[i]);
                }
            }
            assert(factor_from(a[a.len() - 1].1, p, s));
        }
        assert(terms_of_length(a[a.len() - 1].1, n));
        lemma_extension_factors(a1, b, k, n, p, s, sb);
        lemma_row_factors(a.last(), b, k, n, p, s, sb);
        let target = if p < n {
            s
        } else {
            sb
        };
        lemma_factor_concat(extended_terms(a1, b, k), row_terms(a.last(), b, k), p, target);
    }
}

proof fn lemma_step_factors(
    r: Seq<Entry>,
    a: Seq<Entry>,
    b: Seq<SignedBlade>,
    n: nat,
    p: int,
    s: Seq<Seq<u32>>,
    sb: Seq<Seq<u32>>,
)
    requires
        is_extension(r, a, b),
        entries_of_length(a, n),
        0 <= p < n ==> entries_factor_from(a, p, s),
        forall|j: int| 0 <= j < b.len() ==> sb.contains(#[trigger] b[j].1),
        0 <= p <= n,
    ensures
        entries_of_length(r, n + 1),
        p < n ==> entries_factor_from(r, p, s),
        p == n ==> entries_factor_from(r, p, sb),
{
    assert forall|i: int| 0 <= i < r.len() implies terms_of_length(#[trigger] r[i].1, n + 1) by {
        lemma_extension_shape(a, b, r[i].0, n);
    }
    assert forall|i: int| 0 <= i < r.len() implies (p < n ==> factor_from(#[trigger] r[i].1, p, s))
        && (p == n ==> factor_from(r[i].1, p, sb)) by {
        lemma_extension_factors(a, b, r[i].0, n, p, s, sb);
    }
}

/// Every term of a sandwich product has three factors: a rotor blade, a
/// blade of the operand, and a rotor blade again. A rotation matrix cell
/// therefore always finds its column.
pub proof fn lemma_sandwich_shape(rotor: Seq<Seq<u32>>, x: Seq<Seq<u32>>, m: Seq<Entry>, q: int, t: int)
    requires
        is_product_chain(m, sandwich_operands(rotor, x)),
        0 <= q < m.len(),
        0 <= t < m[q].1.len(),
    ensures
        m[q].1[t].1.len() == 3,
        rotor.contains(m[q].1[t].1[0]),
        x.contains(m[q].1[t].1[1]),
        rotor.contains(m[q].1[t].1[2]),
{
    let pr = positive(rotor);
    let px = positive(x);
    let rr = reversed(rotor);
    let ops = sandwich_operands(rotor, x);
    let steps = choose|steps: Seq<Seq<Entry>>| #[trigger]
        chains_through(steps, ops) && steps.last() == m;
    assert(ops[0] == pr && ops[1] == px && ops[2] == rr);
    let (m0, m1, m2) = (steps[0], steps[1], steps[2]);
    assert(is_extension(m1, m0, pr));
    assert(is_extension(m2, m1, px));
    assert(is_extension(m, m2, rr));
    assert forall|j: int| 0 <= j < pr.len() implies rotor.contains(#[trigger] pr[j].1) by {
        assert(pr[j].1 == rotor[j]);
    }
    assert forall|j: int| 0 <= j < px.len() implies x.contains(#[trigger] px[j].1) by {
        assert(px[j].1 == x[j]);
    }
    assert forall|j: int| 0 <= j < rr.len() implies rotor.contains(#[trigger] rr[j].1) by {
        assert(rr[j].1 == rotor[j]);
    }
    let u = unit_formula_set();
    assert(entries_of_length(m0, 0)) by {
        assert(u[0].1[0].1 =~= Seq::<Seq<u32>>::empty());
    }
    lemma_step_factors(m1, m0, pr, 0, 0, rotor, rotor);
    lemma_step_factors(m2, m1, px, 1, 0, rotor, x);
    lemma_step_factors(m2, m1, px, 1, 1, rotor, x);
    lemma_step_factors(m, m2, rr, 2, 0, rotor, rotor);
    lemma_step_factors(m, m2, rr, 2, 1, x, rotor);
    lemma_step_factors(m, m2, rr, 2, 2, rotor, rotor);
    assert(factor_from(m[q].1, 0, rotor));
    assert(factor_from(m[q].1, 1, x));
    assert(factor_from(m[q].1, 2, rotor));
}

} // verus!

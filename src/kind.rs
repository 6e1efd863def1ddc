//! Classification of sets of blades, and the parts of a basis of one kind.
use vstd::prelude::*;
use crate::blade::Element;
use crate::basis::{
    Basis, DeriveError, MAX_DIMENSION, blade_lt, blades, canonical_basis, is_blade_of,
    is_canonical_basis, lemma_blade_order, two_to,
};

verus! {

/// The shape of a multivector: one grade, several even grades, or a mix.
#[derive(Debug, Clone, Copy, PartialEq, Eq, Structural)]
pub enum MvKind {
    /// Every blade has this grade.
    KVector(usize),
    /// Two or more grades, all even: the shape of a rotor.
    Rotor,
    /// Grades of both parities.
    General,
}

/// Whether a blade belongs to a multivector of the given kind.
pub open spec fn admits(kind: MvKind, s: Seq<u32>) -> bool {
    match kind {
        MvKind::KVector(k) => s.len() == k,
        MvKind::Rotor => s.len() % 2 == 0,
        MvKind::General => true,
    }
}

/// The blades of `b` that a multivector of the given kind holds, in order.
pub open spec fn elements_of(kind: MvKind, b: Seq<Seq<u32>>) -> Seq<Seq<u32>>
    decreases b.len(),
{
    if b.len() == 0 {
        seq![]
    } else {
        let p = elements_of(kind, b.drop_last());
        if admits(kind, b.last()) {
            p.push(b.last())
        } else {
            p
        }
    }
}

/// The kind of a non-empty set of blades.
pub open spec fn kind_of(b: Seq<Seq<u32>>) -> MvKind {
    if forall|i: int| 0 <= i < b.len() ==> (#[trigger] b[i]).len() == b[0].len() {
        MvKind::KVector(b[0].len() as usize)
    } else if forall|i: int| 0 <= i < b.len() ==> (#[trigger] b[i]).len() % 2 == 0 {
        MvKind::Rotor
    } else {
        MvKind::General
    }
}

impl MvKind {
    /// The blades of `elements` that a multivector of this kind holds, in order.
    pub fn get_elements(&self, elements: &[Element]) -> (r: Vec<Element>)
        ensures
            blades(r@) == elements_of(*self, blades(elements@)),
    {
        let mut r: Vec<Element> = Vec::new();
        let mut k: usize = 0;
        while k < elements.len()
            invariant
                k <= elements@.len(),
                blades(r@) == elements_of(*self, blades(elements@).subrange(0, k as int)),
            decreases elements@.len() - k,
        {
            let keep = match self {
                MvKind::KVector(g) => elements[k].grade() == *g,
                MvKind::Rotor => elements[k].grade() % 2 == 0,
                MvKind::General => true,
            };
            let ghost prev = blades(elements@).subrange(0, k as int);
            let ghost next = blades(elements@).subrange(0, k + 1);
            assert(next.drop_last() =~= prev);
            if keep {
                r.push(elements[k].duplicate());
                assert(blades(r@) =~= elements_of(*self, prev).push(elements@[k as int]@));
            }
            k += 1;
        }
        assert(blades(elements@).subrange(0, elements@.len() as int) =~= blades(elements@));
        r
    }
}

/// The kind of a non-empty set of blades: one grade gives `KVector`, several
/// even grades `Rotor`, anything else `General`.
pub fn infer(basis: &[Element]) -> (r: MvKind)
    requires
        basis@.len() > 0,
    ensures
        r == kind_of(blades(basis@)),
{
    let g0 = basis[0].grade();
    let mut same = true;
    let mut even = true;
    let mut k: usize = 0;
    while k < basis.len()
        invariant
            0 < basis@.len(),
            k <= basis@.len(),
            g0 == basis@[0]@.len(),
            same <==> forall|i: int| 0 <= i < k ==> (#[trigger] basis@[i]@).len() == g0,
            even <==> forall|i: int| 0 <= i < k ==> (#[trigger] basis@[i]@).len() % 2 == 0,
        decreases basis@.len() - k,
    {
        let g = basis[k].grade();
        same = same && g == g0;
        even = even && g % 2 == 0;
        k += 1;
    }
    let ghost b = blades(basis@);
    assert(same <==> forall|i: int| 0 <= i < b.len() ==> (#[trigger] b[i]).len() == b[0].len()) by {
        if !same {
            let i = choose|i: int| 0 <= i < basis@.len() && (#[trigger] basis@[i]@).len() != g0;
            assert(b[i].len() != b[0].len());
        }
    }
    assert(even <==> forall|i: int| 0 <= i < b.len() ==> (#[trigger] b[i]).len() % 2 == 0) by {
        if !even {
            let i = choose|i: int| 0 <= i < basis@.len() && (#[trigger] basis@[i]@).len() % 2 != 0;
            assert(b[i].len() % 2 != 0);
        }
    }
    if same {
        MvKind::KVector(g0)
    } else if even {
        MvKind::Rotor
    } else {
        MvKind::General
    }
}

/// The canonical basis of one dimension, split by grade and by parity.
#[derive(Debug)]
pub struct BasisPartition {
    /// Every blade, in canonical order.
    pub canonical: Basis,
    /// For each grade `k` from `0` to the dimension, the blades of grade `k`.
    pub kvectors: Vec<Basis>,
    /// The blades of even grade: the basis of a rotor.
    pub rotor: Basis,
}

/// The canonical basis of dimension `dim` with its grade parts and its
/// even part.
pub fn partition(dim: u32) -> (r: Result<BasisPartition, DeriveError>)
    ensures
        r is Err <==> (dim == 0 || dim > MAX_DIMENSION),
        r matches Ok(p) ==> {
            &&& is_canonical_basis(p.canonical@, dim as nat)
            &&& p.kvectors.len() == dim + 1
            &&& forall|k: int|
                0 <= k <= dim ==> (#[trigger] p.kvectors@[k])@ == elements_of(
                    MvKind::KVector(k as usize),
                    p.canonical@,
                )
            &&& p.rotor@ == elements_of(MvKind::Rotor, p.canonical@)
        },
{
    let canonical = match canonical_basis(dim) {
        Ok(b) => b,
        Err(e) => {
            return Err(e);
        },
    };
    let mut kvectors: Vec<Basis> = Vec::new();
    let mut g: usize = 0;
    while g <= dim as usize
        invariant
            dim <= MAX_DIMENSION,
            g <= dim + 1,
            kvectors.len() == g,
            forall|k: int|
                0 <= k < g ==> (#[trigger] kvectors@[k])@ == elements_of(
                    MvKind::KVector(k as usize),
                    canonical@,
                ),
        decreases dim + 1 - g,
    {
        let part = MvKind::KVector(g).get_elements(canonical.0.as_slice());
        kvectors.push(Basis(part));
        g += 1;
    }
    let rotor = Basis(MvKind::Rotor.get_elements(canonical.0.as_slice()));
    Ok(BasisPartition { canonical, kvectors, rotor })
}

/// The grade parts `0` to `k` of `b`, one after another.
pub open spec fn grades_through(b: Seq<Seq<u32>>, k: nat) -> Seq<Seq<u32>>
    decreases k,
{
    let part = elements_of(MvKind::KVector(k as usize), b);
    if k == 0 {
        part
    } else {
        grades_through(b, (k - 1) as nat) + part
    }
}

/// What a part holds: the blades of `b` of that kind.
pub proof fn lemma_elements_of(kind: MvKind, b: Seq<Seq<u32>>)
    ensures
        forall|s: Seq<u32>|
            #[trigger] elements_of(kind, b).contains(s) <==> (b.contains(s) && admits(kind, s)),
        b.no_duplicates() ==> elements_of(kind, b).no_duplicates(),
    decreases b.len(),
{
    if b.len() > 0 {
        let b1 = b.drop_last();
        lemma_elements_of(kind, b1);
        let p = elements_of(kind, b1);
        assert forall|s: Seq<u32>|
            #[trigger] elements_of(kind, b).contains(s) <==> (b.contains(s) && admits(kind, s)) by {
            if b.contains(s) && s != b.last() {
                let i = choose|i: int| 0 <= i < b.len() && b[i] == s;
                assert(b1[i] == s);
            }
            if b1.contains(s) {
                let i = choose|i: int| 0 <= i < b1.len() && b1[i] == s;
                assert(b[i] == s);
            }
            if admits(kind, b.last()) {
                let q = p.push(b.last());
                if q.contains(s) && s != b.last() {
                    let i = choose|i: int| 0 <= i < q.len() && q[i] == s;
                    assert(p[i] == s);
                }
                if p.contains(s) {
                    let i = choose|i: int| 0 <= i < p.len() && p[i] == s;
                    assert(q[i] == s);
                }
                assert(q[p.len() as int] == b.last());
            }
            assert(b[b.len() - 1] == b.last());
        }
        if b.no_duplicates() && admits(kind, b.last()) {
            assert(!p.contains(b.last())) by {
                if b1.contains(b.last()) {
                    let i = choose|i: int| 0 <= i < b1.len() && b1[i] == b.last();
                    assert(b[i] == b[b.len() - 1]);
                }
            }
        }
    }
}

proof fn lemma_grades_through(b: Seq<Seq<u32>>, k: nat)
    requires
        b.no_duplicates(),
        k <= usize::MAX,
    ensures
        forall|s: Seq<u32>|
            #[trigger] grades_through(b, k).contains(s) <==> (b.contains(s) && s.len() <= k),
        grades_through(b, k).no_duplicates(),
    decreases k,
{
    let part = elements_of(MvKind::KVector(k as usize), b);
    lemma_elements_of(MvKind::KVector(k as usize), b);
    if k > 0 {
        let prev = grades_through(b, (k - 1) as nat);
        lemma_grades_through(b, (k - 1) as nat);
        assert forall|i: int, j: int| 0 <= i < prev.len() && 0 <= j < part.len() implies prev[i]
            != part[j] by {
            assert(prev.contains(prev[i]));
            assert(part.contains(part[j]));
        }
        vstd::seq_lib::lemma_no_dup_in_concat(prev, part);
        assert forall|s: Seq<u32>|
            #[trigger] grades_through(b, k).contains(s) <==> (b.contains(s) && s.len() <= k) by {
            let u = prev + part;
            if u.contains(s) {
                let i = choose|i: int| 0 <= i < u.len() && u[i] == s;
                if i < prev.len() {
                    assert(prev.contains(s));
                } else {
                    assert(part[i - prev.len()] == s);
                    assert(part.contains(s));
                }
            }
            if b.contains(s) && s.len() <= k {
                if s.len() == k {
                    assert(part.contains(s));
                    let i = choose|i: int| 0 <= i < part.len() && part[i] == s;
                    assert(u[prev.len() + i] == s);
                } else {
                    assert(prev.contains(s));
                    let i = choose|i: int| 0 <= i < prev.len() && prev[i] == s;
                    assert(u[i] == s);
                }
            }
        }
    }
}

/// The grade parts of the canonical basis, taken together, are the canonical
/// basis again: no blade twice, none missing, `2^dim` in all.
pub proof fn lemma_grade_partition(b: Seq<Seq<u32>>, dim: nat)
    requires
        is_canonical_basis(b, dim),
        dim <= MAX_DIMENSION,
    ensures
        grades_through(b, dim).no_duplicates(),
        grades_through(b, dim).len() == two_to(dim),
        forall|s: Seq<u32>| #[trigger] grades_through(b, dim).contains(s) <==> b.contains(s),
{
    lemma_blade_order();
    assert(b.no_duplicates()) by {
        assert forall|i: int, j: int|
            0 <= i < b.len() && 0 <= j < b.len() && i != j implies b[i] != b[j] by {
            if i < j {
                assert(blade_lt(b[i], b[j]));
            } else {
                assert(blade_lt(b[j], b[i]));
            }
        }
    }
    lemma_grades_through(b, dim);
    let u = grades_through(b, dim);
    assert forall|s: Seq<u32>| #[trigger] u.contains(s) <==> b.contains(s) by {
        if b.contains(s) {
            let i = choose|i: int| 0 <= i < b.len() && b[i] == s;
            assert(is_blade_of(b[i], dim));
            lemma_blade_length(s, dim);
        }
    }
    assert(u.to_set() =~= b.to_set());
    u.unique_seq_to_set();
    b.unique_seq_to_set();
}

/// A blade of dimension `dim` has at most `dim` indices.
proof fn lemma_blade_length(s: Seq<u32>, dim: nat)
    requires
        is_blade_of(s, dim),
    ensures
        s.len() <= dim,
    decreases s.len(),
{
    if s.len() > 0 {
        let t = s.drop_last();
        assert forall|i: int| 0 <= i < t.len() implies t[i] < s.last() by {
            assert(s[i] < s[s.len() - 1]);
        }
        assert(s.last() < dim);
        lemma_blade_length(t, s.last() as nat);
    }
}

/// The blade `[0, 1, .., k - 1]`.
spec fn first_indices(k: nat) -> Seq<u32> {
    Seq::new(k, |i: int| i as u32)
}

proof fn lemma_first_indices(k: nat, dim: nat)
    requires
        k <= dim <= MAX_DIMENSION,
    ensures
        is_blade_of(first_indices(k), dim),
        first_indices(k).len() == k,
{
}

/// Each grade part of the canonical basis is a k-vector.
pub proof fn lemma_grade_part_kind(b: Seq<Seq<u32>>, dim: nat, k: nat)
    requires
        is_canonical_basis(b, dim),
        dim <= MAX_DIMENSION,
        k <= dim,
    ensures
        elements_of(MvKind::KVector(k as usize), b).len() > 0,
        kind_of(elements_of(MvKind::KVector(k as usize), b)) == MvKind::KVector(k as usize),
{
    let part = elements_of(MvKind::KVector(k as usize), b);
    lemma_elements_of(MvKind::KVector(k as usize), b);
    lemma_first_indices(k, dim);
    assert(part.contains(first_indices(k)));
    assert(part.contains(part[0]));
    assert forall|i: int| 0 <= i < part.len() implies (#[trigger] part[i]).len() == part[0].len() by {
        assert(part.contains(part[i]));
    }
}

/// From dimension two on, the even part of the canonical basis is a rotor.
pub proof fn lemma_even_part_kind(b: Seq<Seq<u32>>, dim: nat)
    requires
        is_canonical_basis(b, dim),
        2 <= dim <= MAX_DIMENSION,
    ensures
        elements_of(MvKind::Rotor, b).len() > 0,
        kind_of(elements_of(MvKind::Rotor, b)) == MvKind::Rotor,
{
    let part = elements_of(MvKind::Rotor, b);
    lemma_elements_of(MvKind::Rotor, b);
    lemma_first_indices(0, dim);
    lemma_first_indices(2, dim);
    assert(part.contains(first_indices(0)));
    assert(part.contains(first_indices(2)));
    let i0 = choose|i: int| 0 <= i < part.len() && part[i] == first_indices(0);
    let i2 = choose|i: int| 0 <= i < part.len() && part[i] == first_indices(2);
    assert(part[i0].len() != part[0].len() || part[i2].len() != part[0].len());
    assert forall|i: int| 0 <= i < part.len() implies (#[trigger] part[i]).len() % 2 == 0 by {
        assert(part.contains(part[i]));
    }
}

/// From dimension one on, the whole canonical basis mixes parities.
pub proof fn lemma_full_basis_kind(b: Seq<Seq<u32>>, dim: nat)
    requires
        is_canonical_basis(b, dim),
        1 <= dim <= MAX_DIMENSION,
    ensures
        b.len() > 0,
        kind_of(b) == MvKind::General,
        elements_of(MvKind::General, b) == b,
{
    lemma_first_indices(0, dim);
    lemma_first_indices(1, dim);
    assert(b.contains(first_indices(0)));
    assert(b.contains(first_indices(1)));
    let i0 = choose|i: int| 0 <= i < b.len() && b[i] == first_indices(0);
    let i1 = choose|i: int| 0 <= i < b.len() && b[i] == first_indices(1);
    assert(b[i0].len() != b[0].len() || b[i1].len() != b[0].len());
    assert(b[i1].len() % 2 != 0);
    lemma_general_keeps_all(b);
}

proof fn lemma_general_keeps_all(b: Seq<Seq<u32>>)
    ensures
        elements_of(MvKind::General, b) == b,
    decreases b.len(),
{
    if b.len() > 0 {
        lemma_general_keeps_all(b.drop_last());
        assert(b.drop_last().push(b.last()) =~= b);
    }
}

} // verus!

//! Shape canonicalization: cell-offset lists, the 8-element symmetry group
//! (4 rotations, each with an optional mirror), and orientation sets.

use vstd::prelude::*;

verus! {

/// A cell offset relative to a shape's local origin.
pub type Coord = (i32, i32);

/// A shape: a list of distinct cell offsets.
pub type Shape = Vec<Coord>;

/// A quarter turn applied to one cell: (x, y) maps to (y, -x).
pub open spec fn rot_cell(p: (int, int)) -> (int, int) {
    (p.1, -p.0)
}

/// A mirror about the vertical axis applied to one cell: (x, y) maps to (-x, y).
pub open spec fn flip_cell(p: (int, int)) -> (int, int) {
    (-p.0, p.1)
}

/// k quarter turns applied to one cell.
pub open spec fn rotk_cell(k: nat, p: (int, int)) -> (int, int)
    decreases k,
{
    if k == 0 {
        p
    } else {
        rot_cell(rotk_cell((k - 1) as nat, p))
    }
}

/// One of the 8 symmetries applied to one cell: k quarter turns, then a
/// mirror if f is set.
pub open spec fn sym_cell(k: nat, f: bool, p: (int, int)) -> (int, int) {
    if f {
        flip_cell(rotk_cell(k, p))
    } else {
        rotk_cell(k, p)
    }
}

/// The cell named by one offset.
pub open spec fn cell_of(c: Coord) -> (int, int) {
    (c.0 as int, c.1 as int)
}

/// The set of cells named by a list of offsets.
pub open spec fn cell_set(s: Seq<Coord>) -> Set<(int, int)> {
    s.map_values(|c: Coord| cell_of(c)).to_set()
}

/// A symmetry applied to a whole cell set.
pub open spec fn sym_set(k: nat, f: bool, s: Set<(int, int)>) -> Set<(int, int)> {
    Set::new(|q: (int, int)| exists|p: (int, int)| s.contains(p) && q == sym_cell(k, f, p))
}

/// A cell set translated by (dx, dy).
pub open spec fn shift_set(s: Set<(int, int)>, dx: int, dy: int) -> Set<(int, int)> {
    Set::new(|q: (int, int)| s.contains((q.0 - dx, q.1 - dy)))
}

/// t is a translate of s.
pub open spec fn shifted_copy(s: Set<(int, int)>, t: Set<(int, int)>) -> bool {
    exists|dx: int, dy: int| t == shift_set(s, dx, dy)
}

/// A cell set is canonical when it lies in the first quadrant and touches
/// both axes.
pub open spec fn is_canonical(s: Set<(int, int)>) -> bool {
    &&& forall|p: (int, int)| s.contains(p) ==> p.0 >= 0 && p.1 >= 0
    &&& exists|p: (int, int)| s.contains(p) && p.0 == 0
    &&& exists|p: (int, int)| s.contains(p) && p.1 == 0
}

/// m is a member of the orientation set of base: a canonical translate of
/// some symmetry image of base.
pub open spec fn orientation_of(base: Set<(int, int)>, m: Set<(int, int)>) -> bool {
    &&& is_canonical(m)
    &&& exists|k: nat, f: bool| k < 4 && shifted_copy(sym_set(k, f, base), m)
}

/// The offsets in the list are pairwise distinct.
pub open spec fn distinct_coords(s: Seq<Coord>) -> bool {
    forall|i: int, j: int| 0 <= i < j < s.len() ==> s[i] != s[j]
}

/// Every offset's coordinates are bounded by b in magnitude.
pub open spec fn coords_bounded(s: Seq<Coord>, b: int) -> bool {
    forall|i: int| 0 <= i < s.len() ==> -b <= (#[trigger] s[i]).0 <= b && -b <= s[i].1 <= b
}

/// Membership in cell_set is membership at some index.
pub proof fn lemma_cell_set_contains(s: Seq<Coord>)
    ensures
        forall|q: (int, int)|
            cell_set(s).contains(q) <==> exists|i: int|
                0 <= i < s.len() && q == cell_of(#[trigger] s[i]),
{
    let ms = s.map_values(|c: Coord| cell_of(c));
    assert forall|q: (int, int)| cell_set(s).contains(q) implies exists|i: int|
        0 <= i < s.len() && q == cell_of(#[trigger] s[i]) by {
        let i = choose|i: int| 0 <= i < ms.len() && ms[i] == q;
        assert(q == cell_of(s[i]));
    }
    assert forall|q: (int, int)|
        (exists|i: int| 0 <= i < s.len() && q == cell_of(#[trigger] s[i]))
        implies cell_set(s).contains(q) by {
        let i = choose|i: int| 0 <= i < s.len() && q == cell_of(#[trigger] s[i]);
        assert(ms[i] == q);
        assert(ms.contains(q));
    }
}

/// cell_set is finite, with at most one cell per offset, and exactly one
/// when the offsets are distinct.
pub proof fn lemma_cell_set_len(s: Seq<Coord>)
    ensures
        cell_set(s).finite(),
        cell_set(s).len() <= s.len(),
        distinct_coords(s) ==> cell_set(s).len() == s.len(),
{
    broadcast use vstd::seq_lib::seq_to_set_is_finite;

    let ms = s.map_values(|c: Coord| cell_of(c));
    ms.lemma_cardinality_of_set();
    if distinct_coords(s) {
        assert(ms.no_duplicates()) by {
            assert forall|i: int, j: int| 0 <= i < ms.len() && 0 <= j < ms.len() && i != j
                implies ms[i] != ms[j] by {
                assert(s[i] != s[j]);
            }
        }
        ms.unique_seq_to_set();
    }
}

/// Finite subsets of equal cardinality are equal.
pub proof fn lemma_subset_same_len_equal<A>(s: Set<A>, t: Set<A>)
    requires
        s.subset_of(t),
        t.finite(),
        s.len() == t.len(),
    ensures
        s == t,
{
    vstd::set_lib::lemma_len_subset(s, t);
    assert forall|q: A| t.contains(q) implies s.contains(q) by {
        if !s.contains(q) {
            assert(s.subset_of(t.remove(q)));
            vstd::set_lib::lemma_len_subset(s, t.remove(q));
        }
    }
    assert(s =~= t);
}

/// Rotate every offset of a shape a quarter turn.
pub fn rotate_90(shape: &Shape) -> (r: Shape)
    requires
        coords_bounded(shape@, 0x2000_0000),
    ensures
        r@.len() == shape@.len(),
        forall|i: int| 0 <= i < r@.len() ==>
            ((#[trigger] r@[i]).0 as int, r@[i].1 as int)
                == rot_cell((shape@[i].0 as int, shape@[i].1 as int)),
        coords_bounded(r@, 0x2000_0000),
{
    let mut r: Shape = Vec::new();
    let mut i: usize = 0;
    while i < shape.len()
        invariant
            coords_bounded(shape@, 0x2000_0000),
            i <= shape@.len(),
            r@.len() == i,
            forall|j: int| 0 <= j < i ==>
                ((#[trigger] r@[j]).0 as int, r@[j].1 as int)
                    == rot_cell((shape@[j].0 as int, shape@[j].1 as int)),
            coords_bounded(r@, 0x2000_0000),
        decreases shape@.len() - i,
    {
        let (x, y) = shape[i];
        r.push((y, -x));
        i += 1;
    }
    r
}

/// Mirror every offset of a shape about the vertical axis.
pub fn flip_horizontal(shape: &Shape) -> (r: Shape)
    requires
        coords_bounded(shape@, 0x2000_0000),
    ensures
        r@.len() == shape@.len(),
        forall|i: int| 0 <= i < r@.len() ==>
            ((#[trigger] r@[i]).0 as int, r@[i].1 as int)
                == flip_cell((shape@[i].0 as int, shape@[i].1 as int)),
        coords_bounded(r@, 0x2000_0000),
{
    let mut r: Shape = Vec::new();
    let mut i: usize = 0;
    while i < shape.len()
        invariant
            coords_bounded(shape@, 0x2000_0000),
            i <= shape@.len(),
            r@.len() == i,
            forall|j: int| 0 <= j < i ==>
                ((#[trigger] r@[j]).0 as int, r@[j].1 as int)
                    == flip_cell((shape@[j].0 as int, shape@[j].1 as int)),
            coords_bounded(r@, 0x2000_0000),
        decreases shape@.len() - i,
    {
        let (x, y) = shape[i];
        r.push((-x, y));
        i += 1;
    }
    r
}

/// The least x coordinate in a non-empty offset list.
pub open spec fn min_x(s: Seq<Coord>) -> int
    decreases s.len(),
{
    if s.len() <= 1 {
        if s.len() == 0 { 0 } else { s[0].0 as int }
    } else if (s.last().0 as int) < min_x(s.drop_last()) {
        s.last().0 as int
    } else {
        min_x(s.drop_last())
    }
}

/// The least y coordinate in a non-empty offset list.
pub open spec fn min_y(s: Seq<Coord>) -> int
    decreases s.len(),
{
    if s.len() <= 1 {
        if s.len() == 0 { 0 } else { s[0].1 as int }
    } else if (s.last().1 as int) < min_y(s.drop_last()) {
        s.last().1 as int
    } else {
        min_y(s.drop_last())
    }
}

proof fn lemma_min_x(s: Seq<Coord>)
    requires
        s.len() > 0,
    ensures
        forall|i: int| 0 <= i < s.len() ==> min_x(s) <= (#[trigger] s[i]).0,
        exists|i: int| 0 <= i < s.len() && min_x(s) == (#[trigger] s[i]).0,
    decreases s.len(),
{
    if s.len() == 1 {
        assert(min_x(s) == (#[trigger] s[0]).0);
    } else {
        lemma_min_x(s.drop_last());
        assert(forall|i: int| 0 <= i < s.len() - 1 ==> s.drop_last()[i] == s[i]);
        if (s.last().0 as int) < min_x(s.drop_last()) {
            assert(min_x(s) == (#[trigger] s[s.len() - 1]).0);
        } else {
            let i = choose|i: int| 0 <= i < s.drop_last().len() && min_x(s.drop_last()) == (#[trigger] s.drop_last()[i]).0;
            assert(min_x(s) == (#[trigger] s[i]).0);
        }
    }
}

proof fn lemma_min_y(s: Seq<Coord>)
    requires
        s.len() > 0,
    ensures
        forall|i: int| 0 <= i < s.len() ==> min_y(s) <= (#[trigger] s[i]).1,
        exists|i: int| 0 <= i < s.len() && min_y(s) == (#[trigger] s[i]).1,
    decreases s.len(),
{
    if s.len() == 1 {
        assert(min_y(s) == (#[trigger] s[0]).1);
    } else {
        lemma_min_y(s.drop_last());
        assert(forall|i: int| 0 <= i < s.len() - 1 ==> s.drop_last()[i] == s[i]);
        if (s.last().1 as int) < min_y(s.drop_last()) {
            assert(min_y(s) == (#[trigger] s[s.len() - 1]).1);
        } else {
            let i = choose|i: int| 0 <= i < s.drop_last().len() && min_y(s.drop_last()) == (#[trigger] s.drop_last()[i]).1;
            assert(min_y(s) == (#[trigger] s[i]).1);
        }
    }
}

/// Translate a shape so that its least x and least y offsets are both zero.
pub fn normalize(shape: &Shape) -> (r: Shape)
    requires
        coords_bounded(shape@, 0x2000_0000),
    ensures
        r@.len() == shape@.len(),
        forall|i: int| 0 <= i < r@.len() ==>
            (#[trigger] r@[i]).0 == shape@[i].0 - min_x(shape@)
            && r@[i].1 == shape@[i].1 - min_y(shape@),
        coords_bounded(r@, 0x4000_0000),
{
    let n = shape.len();
    if n == 0 {
        return Vec::new();
    }
    proof {
        lemma_min_x(shape@);
        lemma_min_y(shape@);
    }
    let mut mx: i32 = shape[0].0;
    let mut my: i32 = shape[0].1;
    let mut i: usize = 1;
    while i < n
        invariant
            coords_bounded(shape@, 0x2000_0000),
            n == shape@.len(),
            1 <= i <= n,
            mx as int == min_x(shape@.take(i as int)),
            my as int == min_y(shape@.take(i as int)),
        decreases n - i,
    {
        proof {
            assert(shape@.take(i + 1).drop_last() =~= shape@.take(i as int));
            assert(shape@.take(i + 1).last() == shape@[i as int]);
        }
        let (x, y) = shape[i];
        if x < mx {
            mx = x;
        }
        if y < my {
            my = y;
        }
        i += 1;
    }
    proof {
        assert(shape@.take(n as int) =~= shape@);
        lemma_min_x(shape@);
        lemma_min_y(shape@);
    }
    let mut r: Shape = Vec::new();
    let mut i: usize = 0;
    while i < n
        invariant
            coords_bounded(shape@, 0x2000_0000),
            n == shape@.len(),
            i <= n,
            r@.len() == i,
            -0x2000_0000 <= mx as int <= 0x2000_0000,
            -0x2000_0000 <= my as int <= 0x2000_0000,
            mx as int == min_x(shape@),
            my as int == min_y(shape@),
            forall|j: int| 0 <= j < i ==>
                (#[trigger] r@[j]).0 == shape@[j].0 - min_x(shape@)
                && r@[j].1 == shape@[j].1 - min_y(shape@),
            coords_bounded(r@, 0x4000_0000),
        decreases n - i,
    {
        let (x, y) = shape[i];
        r.push((x - mx, y - my));
        i += 1;
    }
    r
}

/// rotk_cell distributes over addition of turn counts.
proof fn lemma_rotk_add(a: nat, b: nat, p: (int, int))
    ensures
        rotk_cell(a + b, p) == rotk_cell(a, rotk_cell(b, p)),
    decreases a,
{
    if a > 0 {
        lemma_rotk_add((a - 1) as nat, b, p);
    }
}

/// Four quarter turns are the identity.
proof fn lemma_rotk4(p: (int, int))
    ensures
        rotk_cell(4, p) == p,
{
    reveal_with_fuel(rotk_cell, 5);
}

/// Turn counts matter only modulo 4.
proof fn lemma_rotk_mod(k: nat, p: (int, int))
    ensures
        rotk_cell(k, p) == rotk_cell(k % 4, p),
    decreases k,
{
    if k >= 4 {
        lemma_rotk_add((k - 4) as nat, 4, p);
        lemma_rotk4(p);
        lemma_rotk_mod((k - 4) as nat, p);
    }
}

/// A quarter turn after a mirror is the mirror after three quarter turns.
proof fn lemma_rot_flip(p: (int, int))
    ensures
        rot_cell(flip_cell(p)) == flip_cell(rotk_cell(3, p)),
{
    reveal_with_fuel(rotk_cell, 4);
}

/// k quarter turns after a mirror are the mirror after 3k quarter turns.
proof fn lemma_rotk_flip(k: nat, p: (int, int))
    ensures
        rotk_cell(k, flip_cell(p)) == flip_cell(rotk_cell(3 * k, p)),
    decreases k,
{
    if k > 0 {
        let k1 = (k - 1) as nat;
        lemma_rotk_flip(k1, p);
        lemma_rot_flip(rotk_cell(3 * k1, p));
        lemma_rotk_add(3, 3 * k1, p);
        assert(rotk_cell(k, flip_cell(p)) == rot_cell(rotk_cell(k1, flip_cell(p))));
        assert(rotk_cell(k, flip_cell(p)) == rot_cell(flip_cell(rotk_cell(3 * k1, p))));
        reveal_with_fuel(rotk_cell, 2);
        assert(rot_cell(flip_cell(rotk_cell(3 * k1, p))) == flip_cell(rotk_cell(3, rotk_cell(3 * k1, p))))
            by {
            lemma_rot_flip(rotk_cell(3 * k1, p));
            assert(rotk_cell(1, flip_cell(rotk_cell(3 * k1, p))) == rot_cell(flip_cell(rotk_cell(3 * k1, p))));
        }
        assert(3 * k == 3 + 3 * k1);
    }
}

/// The composite of two of the 8 symmetries, as (turns, mirror).
pub open spec fn sym_compose(k2: nat, f2: bool, k1: nat, f1: bool) -> (nat, bool) {
    if f1 {
        ((k1 + 3 * k2) % 4, !f2)
    } else {
        ((k1 + k2) % 4, f2)
    }
}

/// Applying one symmetry after another is applying their composite.
pub proof fn lemma_sym_cell_compose(k2: nat, f2: bool, k1: nat, f1: bool, p: (int, int))
    ensures
        sym_cell(k2, f2, sym_cell(k1, f1, p))
            == sym_cell(sym_compose(k2, f2, k1, f1).0, sym_compose(k2, f2, k1, f1).1, p),
{
    if f1 {
        lemma_rotk_flip(k2, rotk_cell(k1, p));
        lemma_rotk_add(3 * k2, k1, p);
        assert(rotk_cell(3 * k2, rotk_cell(k1, p)) == rotk_cell(k1 + 3 * k2, p)) by {
            lemma_rotk_add(3 * k2, k1, p);
        }
        lemma_rotk_mod((k1 + 3 * k2) as nat, p);
        assert(flip_cell(flip_cell(rotk_cell((k1 + 3 * k2) % 4, p))) == rotk_cell((k1 + 3 * k2) % 4, p));
    } else {
        lemma_rotk_add(k2, k1, p);
        lemma_rotk_mod((k1 + k2) as nat, p);
    }
}

/// Every symmetry is linear over cell translation.
proof fn lemma_sym_cell_linear(k: nat, f: bool, p: (int, int), d: (int, int))
    ensures
        sym_cell(k, f, (p.0 + d.0, p.1 + d.1))
            == (sym_cell(k, f, p).0 + sym_cell(k, f, d).0, sym_cell(k, f, p).1 + sym_cell(k, f, d).1),
    decreases k,
{
    if k == 0 {
    } else {
        lemma_sym_cell_linear((k - 1) as nat, false, p, d);
    }
}

/// Symmetries are injective on cells.
proof fn lemma_sym_cell_injective(k: nat, f: bool, p: (int, int), q: (int, int))
    requires
        sym_cell(k, f, p) == sym_cell(k, f, q),
    ensures
        p == q,
    decreases k,
{
    if k == 0 {
        if f {
            assert(p == q) by {
                assert(flip_cell(p) == flip_cell(q));
            }
        }
    } else {
        assert(rotk_cell(k, p) == rotk_cell(k, q)) by {
            if f {
                assert(flip_cell(rotk_cell(k, p)) == flip_cell(rotk_cell(k, q)));
            }
        }
        assert(rotk_cell((k - 1) as nat, p) == rotk_cell((k - 1) as nat, q)) by {
            assert(rot_cell(rotk_cell((k - 1) as nat, p)) == rot_cell(rotk_cell((k - 1) as nat, q)));
        }
        lemma_sym_cell_injective((k - 1) as nat, false, p, q);
    }
}

/// Composing symmetries at the level of whole cell sets.
pub proof fn lemma_sym_set_compose(k2: nat, f2: bool, k1: nat, f1: bool, s: Set<(int, int)>)
    ensures
        sym_set(k2, f2, sym_set(k1, f1, s))
            == sym_set(sym_compose(k2, f2, k1, f1).0, sym_compose(k2, f2, k1, f1).1, s),
{
    let k3 = sym_compose(k2, f2, k1, f1).0;
    let f3 = sym_compose(k2, f2, k1, f1).1;
    assert forall|q: (int, int)| sym_set(k2, f2, sym_set(k1, f1, s)).contains(q)
        implies sym_set(k3, f3, s).contains(q) by {
        let m = choose|m: (int, int)| sym_set(k1, f1, s).contains(m) && q == sym_cell(k2, f2, m);
        let p = choose|p: (int, int)| s.contains(p) && m == sym_cell(k1, f1, p);
        lemma_sym_cell_compose(k2, f2, k1, f1, p);
    }
    assert forall|q: (int, int)| sym_set(k3, f3, s).contains(q)
        implies sym_set(k2, f2, sym_set(k1, f1, s)).contains(q) by {
        let p = choose|p: (int, int)| s.contains(p) && q == sym_cell(k3, f3, p);
        lemma_sym_cell_compose(k2, f2, k1, f1, p);
        assert(sym_set(k1, f1, s).contains(sym_cell(k1, f1, p)));
    }
    assert(sym_set(k2, f2, sym_set(k1, f1, s)) =~= sym_set(k3, f3, s));
}

/// A symmetry of a translated set is a translate of the symmetry image.
pub proof fn lemma_sym_shift(k: nat, f: bool, s: Set<(int, int)>, dx: int, dy: int)
    ensures
        sym_set(k, f, shift_set(s, dx, dy))
            == shift_set(sym_set(k, f, s), sym_cell(k, f, (dx, dy)).0, sym_cell(k, f, (dx, dy)).1),
{
    let d = sym_cell(k, f, (dx, dy));
    assert forall|q: (int, int)| sym_set(k, f, shift_set(s, dx, dy)).contains(q)
        implies shift_set(sym_set(k, f, s), d.0, d.1).contains(q) by {
        let m = choose|m: (int, int)| shift_set(s, dx, dy).contains(m) && q == sym_cell(k, f, m);
        let p = (m.0 - dx, m.1 - dy);
        assert(s.contains(p));
        lemma_sym_cell_linear(k, f, p, (dx, dy));
        assert(q == (sym_cell(k, f, p).0 + d.0, sym_cell(k, f, p).1 + d.1));
        assert(sym_set(k, f, s).contains(sym_cell(k, f, p)));
        assert(sym_set(k, f, s).contains((q.0 - d.0, q.1 - d.1)));
    }
    assert forall|q: (int, int)| shift_set(sym_set(k, f, s), d.0, d.1).contains(q)
        implies sym_set(k, f, shift_set(s, dx, dy)).contains(q) by {
        let p = choose|p: (int, int)| s.contains(p) && (q.0 - d.0, q.1 - d.1) == sym_cell(k, f, p);
        lemma_sym_cell_linear(k, f, p, (dx, dy));
        let m = (p.0 + dx, p.1 + dy);
        assert(shift_set(s, dx, dy).contains(m));
        assert(q == sym_cell(k, f, m));
    }
    assert(sym_set(k, f, shift_set(s, dx, dy)) =~= shift_set(sym_set(k, f, s), d.0, d.1));
}

/// Two canonical translates of one another are equal.
pub proof fn lemma_canonical_unique(s: Set<(int, int)>, t: Set<(int, int)>)
    requires
        is_canonical(s),
        is_canonical(t),
        shifted_copy(s, t),
    ensures
        s == t,
{
    let (dx, dy) = choose|dx: int, dy: int| t == shift_set(s, dx, dy);
    let p0 = choose|p: (int, int)| s.contains(p) && p.0 == 0;
    assert(t.contains((p0.0 + dx, p0.1 + dy)));
    let q0 = choose|q: (int, int)| t.contains(q) && q.0 == 0;
    assert(s.contains((q0.0 - dx, q0.1 - dy)));
    let p1 = choose|p: (int, int)| s.contains(p) && p.1 == 0;
    assert(t.contains((p1.0 + dx, p1.1 + dy)));
    let q1 = choose|q: (int, int)| t.contains(q) && q.1 == 0;
    assert(s.contains((q1.0 - dx, q1.1 - dy)));
    assert(dx == 0 && dy == 0);
    assert(s =~= t);
}

/// Orientation closure: a symmetry image of an orientation-set member is
/// again a translate of a symmetry image of the base shape, so its canonical
/// form is again a member of the orientation set.
pub proof fn lemma_orientation_closure(base: Set<(int, int)>, m: Set<(int, int)>, k: nat, f: bool)
    requires
        orientation_of(base, m),
        k < 4,
    ensures
        exists|k3: nat, f3: bool| k3 < 4 && shifted_copy(sym_set(k3, f3, base), sym_set(k, f, m)),
{
    let (k1, f1) = choose|k1: nat, f1: bool| k1 < 4 && shifted_copy(sym_set(k1, f1, base), m);
    let (dx, dy) = choose|dx: int, dy: int| m == shift_set(sym_set(k1, f1, base), dx, dy);
    lemma_sym_shift(k, f, sym_set(k1, f1, base), dx, dy);
    lemma_sym_set_compose(k, f, k1, f1, base);
    let k3 = sym_compose(k, f, k1, f1).0;
    let f3 = sym_compose(k, f, k1, f1).1;
    let d = sym_cell(k, f, (dx, dy));
    assert(sym_set(k, f, m) == shift_set(sym_set(k3, f3, base), d.0, d.1));
    assert(k3 < 4 && shifted_copy(sym_set(k3, f3, base), sym_set(k, f, m)));
}

/// Whether the offset c occurs in the list v.
fn contains_cell(v: &Shape, c: Coord) -> (r: bool)
    ensures
        r == cell_set(v@).contains(cell_of(c)),
{
    proof {
        lemma_cell_set_contains(v@);
    }
    let mut j: usize = 0;
    while j < v.len()
        invariant
            j <= v@.len(),
            forall|j2: int| 0 <= j2 < j ==> cell_of(#[trigger] v@[j2]) != cell_of(c),
            forall|q: (int, int)|
                cell_set(v@).contains(q) <==> exists|i: int|
                    0 <= i < v@.len() && q == cell_of(#[trigger] v@[i]),
        decreases v@.len() - j,
    {
        let (x, y) = v[j];
        if x == c.0 && y == c.1 {
            return true;
        }
        j += 1;
    }
    false
}

/// Whether two distinct-offset lists name the same cell set.
fn same_cells(a: &Shape, b: &Shape) -> (r: bool)
    requires
        distinct_coords(a@),
        distinct_coords(b@),
    ensures
        r == (cell_set(a@) == cell_set(b@)),
{
    proof {
        lemma_cell_set_len(a@);
        lemma_cell_set_len(b@);
        lemma_cell_set_contains(a@);
        lemma_cell_set_contains(b@);
    }
    if a.len() != b.len() {
        proof {
            if cell_set(a@) == cell_set(b@) {
                assert(false);
            }
        }
        return false;
    }
    let mut i: usize = 0;
    while i < a.len()
        invariant
            distinct_coords(a@),
            distinct_coords(b@),
            a@.len() == b@.len(),
            i <= a@.len(),
            forall|i2: int| 0 <= i2 < i ==> cell_set(b@).contains(cell_of(#[trigger] a@[i2])),
        decreases a@.len() - i,
    {
        let c = a[i];
        if !contains_cell(b, c) {
            proof {
                lemma_cell_set_contains(a@);
                if cell_set(a@) == cell_set(b@) {
                    assert(cell_set(a@).contains(cell_of(a@[i as int])));
                }
            }
            return false;
        }
        i += 1;
    }
    proof {
        lemma_cell_set_contains(a@);
        assert forall|q: (int, int)| cell_set(a@).contains(q) implies cell_set(b@).contains(q) by {
            let i2 = choose|i2: int| 0 <= i2 < a@.len() && q == cell_of(#[trigger] a@[i2]);
        }
        lemma_subset_same_len_equal(cell_set(a@), cell_set(b@));
    }
    true
}

/// Whether some member of rs names the same cell set as cand.
fn contains_shape(rs: &Vec<Shape>, cand: &Shape) -> (r: bool)
    requires
        distinct_coords(cand@),
        forall|j: int| 0 <= j < rs@.len() ==> distinct_coords((#[trigger] rs@[j])@),
    ensures
        r == exists|j: int| 0 <= j < rs@.len() && cell_set((#[trigger] rs@[j])@) == cell_set(cand@),
{
    let mut j: usize = 0;
    while j < rs.len()
        invariant
            distinct_coords(cand@),
            forall|j2: int| 0 <= j2 < rs@.len() ==> distinct_coords((#[trigger] rs@[j2])@),
            j <= rs@.len(),
            forall|j2: int| 0 <= j2 < j ==> cell_set((#[trigger] rs@[j2])@) != cell_set(cand@),
        decreases rs@.len() - j,
    {
        if same_cells(&rs[j], cand) {
            return true;
        }
        j += 1;
    }
    false
}

/// A pointwise symmetry image of an offset list names the symmetry image of
/// its cell set.
proof fn lemma_seq_sym_to_set(s: Seq<Coord>, r: Seq<Coord>, k: nat, f: bool)
    requires
        r.len() == s.len(),
        forall|i: int| 0 <= i < r.len() ==> cell_of(#[trigger] r[i]) == sym_cell(k, f, cell_of(s[i])),
    ensures
        cell_set(r) == sym_set(k, f, cell_set(s)),
        distinct_coords(s) ==> distinct_coords(r),
{
    lemma_cell_set_contains(s);
    lemma_cell_set_contains(r);
    assert forall|q: (int, int)| cell_set(r).contains(q) implies sym_set(k, f, cell_set(s)).contains(q) by {
        let i = choose|i: int| 0 <= i < r.len() && q == cell_of(#[trigger] r[i]);
        assert(cell_set(s).contains(cell_of(s[i])));
    }
    assert forall|q: (int, int)| sym_set(k, f, cell_set(s)).contains(q) implies cell_set(r).contains(q) by {
        let p = choose|p: (int, int)| cell_set(s).contains(p) && q == sym_cell(k, f, p);
        let i = choose|i: int| 0 <= i < s.len() && p == cell_of(#[trigger] s[i]);
        assert(q == cell_of(r[i]));
    }
    assert(cell_set(r) =~= sym_set(k, f, cell_set(s)));
    if distinct_coords(s) {
        assert forall|i: int, j: int| 0 <= i < j < r.len() implies r[i] != r[j] by {
            if r[i] == r[j] {
                lemma_sym_cell_injective(k, f, cell_of(s[i]), cell_of(s[j]));
            }
        }
    }
}

/// A pointwise translate of an offset list names the translate of its cell
/// set, and translating to the least offsets yields a canonical set.
proof fn lemma_normalized_canonical(s: Seq<Coord>, r: Seq<Coord>)
    requires
        r.len() == s.len(),
        s.len() > 0,
        forall|i: int| 0 <= i < r.len() ==>
            (#[trigger] r[i]).0 == s[i].0 - min_x(s) && r[i].1 == s[i].1 - min_y(s),
    ensures
        cell_set(r) == shift_set(cell_set(s), -min_x(s), -min_y(s)),
        is_canonical(cell_set(r)),
        distinct_coords(s) ==> distinct_coords(r),
{
    let dx = -min_x(s);
    let dy = -min_y(s);
    lemma_min_x(s);
    lemma_min_y(s);
    lemma_cell_set_contains(s);
    lemma_cell_set_contains(r);
    assert forall|q: (int, int)| cell_set(r).contains(q) implies shift_set(cell_set(s), dx, dy).contains(q) by {
        let i = choose|i: int| 0 <= i < r.len() && q == cell_of(#[trigger] r[i]);
        assert(cell_set(s).contains(cell_of(s[i])));
        assert((q.0 - dx, q.1 - dy) == cell_of(s[i]));
    }
    assert forall|q: (int, int)| shift_set(cell_set(s), dx, dy).contains(q) implies cell_set(r).contains(q) by {
        let i = choose|i: int| 0 <= i < s.len() && (q.0 - dx, q.1 - dy) == cell_of(#[trigger] s[i]);
        assert(q == cell_of(r[i]));
    }
    assert(cell_set(r) =~= shift_set(cell_set(s), dx, dy));
    let ix = choose|i: int| 0 <= i < s.len() && min_x(s) == (#[trigger] s[i]).0;
    let iy = choose|i: int| 0 <= i < s.len() && min_y(s) == (#[trigger] s[i]).1;
    assert(cell_set(r).contains(cell_of(r[ix])) && cell_of(r[ix]).0 == 0);
    assert(cell_set(r).contains(cell_of(r[iy])) && cell_of(r[iy]).1 == 0);
    if distinct_coords(s) {
        assert forall|i: int, j: int| 0 <= i < j < r.len() implies r[i] != r[j] by {
            if r[i] == r[j] {
                assert(s[i].0 == s[j].0 && s[i].1 == s[j].1);
                assert(s[i] == s[j]);
            }
        }
    }
}

/// The image of the base under k quarter turns and an optional mirror
/// appears among the orientations, up to translation.
pub open spec fn sym_represented(base: Seq<Coord>, orients: Seq<Shape>, k: nat, f: bool) -> bool {
    exists|o: int| 0 <= o < orients.len()
        && shifted_copy(sym_set(k, f, cell_set(base)), cell_set((#[trigger] orients[o])@))
}

/// The full orientation set of a shape: all 8 symmetry images, each
/// translated to canonical form, with duplicates removed.
#[verifier::rlimit(100)]
#[verifier::spinoff_prover]
pub fn all_orientations(shape: &Shape) -> (r: Vec<Shape>)
    requires
        shape@.len() > 0,
        distinct_coords(shape@),
        coords_bounded(shape@, 0x2000_0000),
    ensures
        1 <= r@.len() <= 8,
        forall|i: int| 0 <= i < r@.len() ==>
            orientation_of(cell_set(shape@), cell_set((#[trigger] r@[i])@)),
        forall|k: nat, f: bool| k < 4 ==> #[trigger] sym_represented(shape@, r@, k, f),
        forall|i: int, j: int| 0 <= i < j < r@.len() ==>
            cell_set((#[trigger] r@[i])@) != cell_set((#[trigger] r@[j])@),
        forall|i: int| 0 <= i < r@.len() ==>
            (#[trigger] r@[i])@.len() == shape@.len()
            && distinct_coords(r@[i]@)
            && coords_bounded(r@[i]@, 0x4000_0000),
{
    let ghost base = cell_set(shape@);
    let ghost n = shape@.len();
    let mut results: Vec<Shape> = Vec::new();
    let mut current: Shape = clone_shape(shape);
    proof {
        assert forall|i: int| 0 <= i < current@.len()
            implies cell_of(#[trigger] current@[i]) == sym_cell(0, false, cell_of(shape@[i])) by {
        }
        lemma_seq_sym_to_set(shape@, current@, 0, false);
    }
    let mut k: usize = 0;
    while k < 4
        invariant
            shape@.len() == n,
            n > 0,
            distinct_coords(shape@),
            coords_bounded(shape@, 0x2000_0000),
            base == cell_set(shape@),
            k <= 4,
            current@.len() == n,
            distinct_coords(current@),
            coords_bounded(current@, 0x2000_0000),
            cell_set(current@) == sym_set((k % 4) as nat, false, base),
            results@.len() <= 2 * k,
            forall|i: int| 0 <= i < results@.len() ==>
                orientation_of(base, cell_set((#[trigger] results@[i])@)),
            forall|k2: nat, f: bool| k2 < k ==> exists|i: int|
                0 <= i < results@.len()
                && shifted_copy(#[trigger] sym_set(k2, f, base), cell_set(results@[i]@)),
            forall|i: int, j: int| 0 <= i < j < results@.len() ==>
                cell_set((#[trigger] results@[i])@) != cell_set((#[trigger] results@[j])@),
            forall|i: int| 0 <= i < results@.len() ==>
                (#[trigger] results@[i])@.len() == n
                && distinct_coords(results@[i]@)
                && coords_bounded(results@[i]@, 0x4000_0000),
        decreases 4 - k,
    {
        let ghost snap0 = results@;
        let ghost kn = (k % 4) as nat;
        let cand1 = normalize(&current);
        proof {
            lemma_normalized_canonical(current@, cand1@);
            assert(shifted_copy(sym_set(kn, false, base), cell_set(cand1@)));
        }
        let dup1 = contains_shape(&results, &cand1);
        if !dup1 {
            results.push(cand1);
        }
        let ghost w1: int = if dup1 {
            choose|i: int|
                0 <= i < results@.len() && cell_set((#[trigger] results@[i])@) == cell_set(cand1@)
        } else {
            results@.len() - 1
        };
        proof {
            if !dup1 {
                assert(results@[w1] == cand1);
            }
            assert(0 <= w1 < results@.len()
                && shifted_copy(sym_set(kn, false, base), cell_set(results@[w1]@)));
        }
        let flipped = flip_horizontal(&current);
        proof {
            assert forall|i: int| 0 <= i < flipped@.len()
                implies cell_of(#[trigger] flipped@[i]) == sym_cell(0, true, cell_of(current@[i])) by {
            }
            lemma_seq_sym_to_set(current@, flipped@, 0, true);
            lemma_sym_set_compose(0, true, kn, false, base);
            assert(sym_compose(0, true, kn, false) == (kn, true));
            assert(cell_set(flipped@) == sym_set(kn, true, base));
        }
        let cand2 = normalize(&flipped);
        proof {
            lemma_normalized_canonical(flipped@, cand2@);
            assert(shifted_copy(sym_set(kn, true, base), cell_set(cand2@)));
        }
        let ghost snap = results@;
        let dup2 = contains_shape(&results, &cand2);
        if !dup2 {
            results.push(cand2);
        }
        let ghost w2: int = if dup2 {
            choose|i: int|
                0 <= i < snap.len() && cell_set((#[trigger] snap[i])@) == cell_set(cand2@)
        } else {
            results@.len() - 1
        };
        proof {
            if !dup2 {
                assert(results@[w2] == cand2);
            } else {
                assert(results@[w2] == snap[w2]);
            }
            assert(0 <= w2 < results@.len()
                && shifted_copy(sym_set(kn, true, base), cell_set(results@[w2]@)));
            assert(results@[w1] == snap[w1]);
            assert(0 <= w1 < results@.len()
                && shifted_copy(sym_set(kn, false, base), cell_set(results@[w1]@)));
            assert forall|k2: nat, f: bool| k2 < k + 1 implies exists|i: int|
                0 <= i < results@.len()
                && shifted_copy(#[trigger] sym_set(k2, f, base), cell_set(results@[i]@)) by {
                if k2 == k as nat {
                    if f {
                        assert(0 <= w2 < results@.len()
                            && shifted_copy(sym_set(k2, f, base), cell_set(results@[w2]@)));
                    } else {
                        assert(0 <= w1 < results@.len()
                            && shifted_copy(sym_set(k2, f, base), cell_set(results@[w1]@)));
                    }
                } else {
                    assert(k2 < k);
                    let i0 = choose|i: int|
                        0 <= i < snap0.len()
                        && shifted_copy(#[trigger] sym_set(k2, f, base), cell_set(snap0[i]@));
                    assert(results@[i0] == snap0[i0]);
                }
            }
        }
        let next = rotate_90(&current);
        proof {
            assert forall|i: int| 0 <= i < next@.len()
                implies cell_of(#[trigger] next@[i]) == sym_cell(1, false, cell_of(current@[i])) by {
                reveal_with_fuel(rotk_cell, 2);
            }
            lemma_seq_sym_to_set(current@, next@, 1, false);
            lemma_sym_set_compose(1, false, kn, false, base);
            assert(sym_compose(1, false, kn, false) == ((((k + 1) % 4)) as nat, false));
            assert(cell_set(next@) == sym_set(((k + 1) % 4) as nat, false, base));
        }
        current = next;
        k += 1;
    }
    proof {
        assert forall|k2: nat, f: bool| k2 < 4 implies
            #[trigger] sym_represented(shape@, results@, k2, f) by {
            let i0 = choose|i: int| 0 <= i < results@.len()
                && shifted_copy(#[trigger] sym_set(k2, f, base), cell_set(results@[i]@));
            assert(base == cell_set(shape@));
            assert(0 <= i0 < results@.len()
                && shifted_copy(sym_set(k2, f, cell_set(shape@)), cell_set((results@[i0])@)));
        }
        assert(sym_represented(shape@, results@, 0, false));
        let j0 = choose|o: int| 0 <= o < results@.len()
            && shifted_copy(sym_set(0, false, cell_set(shape@)),
                cell_set((#[trigger] results@[o])@));
        assert(results@.len() >= 1);
    }
    results
}

/// An element-for-element copy of a shape.
pub fn clone_shape(shape: &Shape) -> (r: Shape)
    ensures
        r@ == shape@,
{
    let mut r: Shape = Vec::new();
    let mut i: usize = 0;
    while i < shape.len()
        invariant
            i <= shape@.len(),
            r@ == shape@.take(i as int),
        decreases shape@.len() - i,
    {
        let (x, y) = shape[i];
        r.push((x, y));
        proof {
            assert(shape@.take(i + 1).drop_last() =~= shape@.take(i as int));
            assert(r@ =~= shape@.take(i + 1));
        }
        i += 1;
    }
    proof {
        assert(shape@.take(shape@.len() as int) =~= shape@);
    }
    r
}

/// Whether the offsets in the list are pairwise distinct.
pub fn check_distinct(shape: &Shape) -> (r: bool)
    ensures
        r == distinct_coords(shape@),
{
    let mut i: usize = 0;
    while i < shape.len()
        invariant
            i <= shape@.len(),
            forall|a: int, b: int| 0 <= a < b < shape@.len() && a < i ==> shape@[a] != shape@[b],
        decreases shape@.len() - i,
    {
        let (xa, ya) = shape[i];
        let mut j: usize = i + 1;
        while j < shape.len()
            invariant
                i < j <= shape@.len(),
                (xa, ya) == shape@[i as int],
                forall|b: int| i < b < j ==> shape@[i as int] != shape@[b],
            decreases shape@.len() - j,
        {
            let (xb, yb) = shape[j];
            if xa == xb && ya == yb {
                proof {
                    assert(shape@[i as int] == shape@[j as int]);
                }
                return false;
            }
            j += 1;
        }
        i += 1;
    }
    true
}

/// Whether every offset's coordinates are within the supported range.
pub fn check_bounded(shape: &Shape) -> (r: bool)
    ensures
        r == coords_bounded(shape@, 0x2000_0000),
{
    let mut i: usize = 0;
    while i < shape.len()
        invariant
            i <= shape@.len(),
            forall|a: int| 0 <= a < i ==>
                -0x2000_0000 <= (#[trigger] shape@[a]).0 <= 0x2000_0000
                && -0x2000_0000 <= shape@[a].1 <= 0x2000_0000,
        decreases shape@.len() - i,
    {
        let (x, y) = shape[i];
        if x < -0x2000_0000 || x > 0x2000_0000 || y < -0x2000_0000 || y > 0x2000_0000 {
            return false;
        }
        i += 1;
    }
    true
}

/// A base shape that the canonicalizer accepts: non-empty, duplicate-free,
/// and coordinate-bounded.
pub open spec fn base_ok(s: Seq<Coord>) -> bool {
    s.len() >= 1 && distinct_coords(s) && coords_bounded(s, 0x2000_0000)
}


/// Every orientation in the list is a canonical translate of some symmetry
/// image of the base shape.
#[verifier::opaque]
pub open spec fn members_oriented(base: Seq<Coord>, orients: Seq<Shape>) -> bool {
    forall|o: int| 0 <= o < orients.len()
        ==> orientation_of(cell_set(base), cell_set((#[trigger] orients[o])@))
}

/// Every one of the 8 symmetry images of the base shape is represented in
/// the list, up to translation: the full orientation set is present.
#[verifier::opaque]
pub open spec fn covers_all_syms(base: Seq<Coord>, orients: Seq<Shape>) -> bool {
    forall|k: nat, f: bool| k < 4 ==> #[trigger] sym_represented(base, orients, k, f)
}

/// The orientation set of one accepted base shape, with the facts the
/// library builder needs: shape and bounds of each member, that each is a
/// canonical symmetry image of the base, and that all 8 images appear.
pub fn orientations_for(shape: &Shape) -> (r: Vec<Shape>)
    requires
        base_ok(shape@),
    ensures
        1 <= r@.len() <= 8,
        forall|o: int| 0 <= o < r@.len()
            ==> is_canonical(cell_set((#[trigger] r@[o])@)),
        forall|o: int| 0 <= o < r@.len() ==>
            (#[trigger] r@[o])@.len() == shape@.len()
            && distinct_coords(r@[o]@)
            && coords_bounded(r@[o]@, 0x4000_0000),
        members_oriented(shape@, r@),
        covers_all_syms(shape@, r@),
{
    let r = all_orientations(shape);
    proof {
        reveal(members_oriented);
        reveal(covers_all_syms);
        assert(members_oriented(shape@, r@));
        assert(covers_all_syms(shape@, r@));
    }
    r
}

} // verus!

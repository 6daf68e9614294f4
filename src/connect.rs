//! Connectivity over the cells a player owns: paths, linked cells, and the
//! winning condition of a group that touches all three sides.
use crate::geometry::{adjacent, is_valid_cell, on_side};
use vstd::prelude::*;

verus! {

/// Which cells hold `token`.
pub open spec fn owned_by(cells: Seq<u8>, token: u8) -> Seq<bool> {
    cells.map_values(|c: u8| c == token)
}

/// `p` is a walk over adjacent owned cells.
pub open spec fn is_path(n: nat, owned: Seq<bool>, p: Seq<int>) -> bool {
    &&& p.len() > 0
    &&& forall|k: int| 0 <= k < p.len() ==> is_valid_cell(n, #[trigger] p[k]) && owned[p[k]]
    &&& forall|k: int| 0 <= k < p.len() - 1 ==> adjacent(n, #[trigger] p[k], p[k + 1])
}

/// Cells `a` and `b` are joined by a walk over owned cells.
pub open spec fn linked(n: nat, owned: Seq<bool>, a: int, b: int) -> bool {
    exists|p: Seq<int>| #[trigger] is_path(n, owned, p) && p[0] == a && p.last() == b
}

/// The group of owned cells around `s` touches all three sides.
pub open spec fn group_touches_all_sides(n: nat, owned: Seq<bool>, s: int) -> bool {
    exists|a: int, b: int, c: int|
        #![trigger linked(n, owned, s, a), linked(n, owned, s, b), linked(n, owned, s, c)]
        linked(n, owned, s, a) && on_side(n, a, 0) && linked(n, owned, s, b) && on_side(n, b, 1)
            && linked(n, owned, s, c) && on_side(n, c, 2)
}

/// Some group of owned cells touches all three sides: the winning condition.
pub open spec fn connects_all_sides(n: nat, owned: Seq<bool>) -> bool {
    exists|s: int| #[trigger] group_touches_all_sides(n, owned, s)
}

pub proof fn lemma_linked_refl(n: nat, owned: Seq<bool>, a: int)
    requires
        is_valid_cell(n, a),
        owned[a],
    ensures
        linked(n, owned, a, a),
{
    let p = seq![a];
    assert(is_path(n, owned, p));
}

pub proof fn lemma_linked_step(n: nat, owned: Seq<bool>, a: int, b: int, c: int)
    requires
        linked(n, owned, a, b),
        adjacent(n, b, c),
        owned[c],
    ensures
        linked(n, owned, a, c),
{
    let p = choose|p: Seq<int>| #[trigger] is_path(n, owned, p) && p[0] == a && p.last() == b;
    crate::geometry::lemma_adjacent_valid(n, b, c);
    let q = p.push(c);
    assert forall|k: int| 0 <= k < q.len() - 1 implies adjacent(n, #[trigger] q[k], q[k + 1]) by {
        if k < p.len() - 1 {
            assert(q[k] == p[k] && q[k + 1] == p[k + 1]);
        }
    }
    assert forall|k: int| 0 <= k < q.len() implies is_valid_cell(n, #[trigger] q[k])
        && owned[q[k]] by {
        if k < p.len() {
            assert(q[k] == p[k]);
        }
    }
    assert(is_path(n, owned, q));
}

pub proof fn lemma_linked_symmetric(n: nat, owned: Seq<bool>, a: int, b: int)
    requires
        linked(n, owned, a, b),
    ensures
        linked(n, owned, b, a),
{
    let p = choose|p: Seq<int>| #[trigger] is_path(n, owned, p) && p[0] == a && p.last() == b;
    lemma_path_back(n, owned, p, p.len() - 1);
}

/// Every cell of a path is linked back to its first cell.
proof fn lemma_path_back(n: nat, owned: Seq<bool>, p: Seq<int>, k: int)
    requires
        is_path(n, owned, p),
        0 <= k < p.len(),
    ensures
        linked(n, owned, p[k], p[0]),
    decreases k,
{
    assert(is_valid_cell(n, p[k]) && owned[p[k]]);
    lemma_linked_refl(n, owned, p[k]);
    if k > 0 {
        lemma_path_back(n, owned, p, k - 1);
        assert(adjacent(n, p[k - 1], p[k]));
        crate::geometry::lemma_adjacent_symmetric(n, p[k - 1], p[k]);
        assert(is_valid_cell(n, p[k - 1]) && owned[p[k - 1]]);
        lemma_linked_step(n, owned, p[k], p[k], p[k - 1]);
        lemma_linked_trans(n, owned, p[k], p[k - 1], p[0]);
    }
}

pub proof fn lemma_linked_trans(n: nat, owned: Seq<bool>, a: int, b: int, c: int)
    requires
        linked(n, owned, a, b),
        linked(n, owned, b, c),
    ensures
        linked(n, owned, a, c),
{
    let p = choose|p: Seq<int>| #[trigger] is_path(n, owned, p) && p[0] == a && p.last() == b;
    let q = choose|q: Seq<int>| #[trigger] is_path(n, owned, q) && q[0] == b && q.last() == c;
    let r = p + q.subrange(1, q.len() as int);
    assert forall|k: int| 0 <= k < r.len() implies is_valid_cell(n, #[trigger] r[k])
        && owned[r[k]] by {
        if k < p.len() {
            assert(r[k] == p[k]);
        } else {
            assert(r[k] == q[k - p.len() + 1]);
        }
    }
    assert forall|k: int| 0 <= k < r.len() - 1 implies adjacent(n, #[trigger] r[k], r[k + 1]) by {
        if k < p.len() - 1 {
            assert(r[k] == p[k] && r[k + 1] == p[k + 1]);
        } else if k == p.len() - 1 {
            assert(r[k] == q[0] && r[k + 1] == q[1]);
        } else {
            assert(r[k] == q[k - p.len() + 1] && r[k + 1] == q[k - p.len() + 2]);
        }
    }
    assert(is_path(n, owned, r));
    if q.len() == 1 {
        assert(r.last() == p.last());
    } else {
        assert(r.last() == q.last());
    }
}

/// Both ends of a link are valid owned cells.
pub proof fn lemma_linked_ends(n: nat, owned: Seq<bool>, a: int, b: int)
    requires
        linked(n, owned, a, b),
    ensures
        is_valid_cell(n, a) && owned[a],
        is_valid_cell(n, b) && owned[b],
{
    let p = choose|p: Seq<int>| #[trigger] is_path(n, owned, p) && p[0] == a && p.last() == b;
    assert(is_valid_cell(n, p[0]) && owned[p[0]]);
    assert(is_valid_cell(n, p[p.len() - 1]) && owned[p[p.len() - 1]]);
}

/// A group touching all sides is the same group seen from any linked cell.
pub proof fn lemma_group_shared(n: nat, owned: Seq<bool>, x: int, y: int)
    requires
        linked(n, owned, x, y),
        group_touches_all_sides(n, owned, y),
    ensures
        group_touches_all_sides(n, owned, x),
{
    let (a, b, c) = choose|a: int, b: int, c: int|
        #![trigger linked(n, owned, y, a), linked(n, owned, y, b), linked(n, owned, y, c)]
        linked(n, owned, y, a) && on_side(n, a, 0) && linked(n, owned, y, b) && on_side(n, b, 1)
            && linked(n, owned, y, c) && on_side(n, c, 2);
    lemma_linked_trans(n, owned, x, y, a);
    lemma_linked_trans(n, owned, x, y, b);
    lemma_linked_trans(n, owned, x, y, c);
}

/// A set of cells closed under owned adjacency holds every cell linked to one of its cells.
pub proof fn lemma_closed_holds_linked(n: nat, owned: Seq<bool>, inside: Seq<bool>, a: int, b: int)
    requires
        inside.len() == owned.len(),
        0 <= a < inside.len(),
        inside[a],
        forall|v: int, u: int|
            0 <= v < inside.len() && inside[v] && #[trigger] adjacent(n, v, u) && 0 <= u
                < owned.len() && owned[u] ==> inside[u],
        linked(n, owned, a, b),
        forall|v: int| is_valid_cell(n, v) ==> v < owned.len(),
    ensures
        0 <= b < inside.len() && inside[b],
{
    let p = choose|p: Seq<int>| #[trigger] is_path(n, owned, p) && p[0] == a && p.last() == b;
    lemma_path_inside(n, owned, inside, p, p.len() - 1);
}

proof fn lemma_path_inside(n: nat, owned: Seq<bool>, inside: Seq<bool>, p: Seq<int>, k: int)
    requires
        inside.len() == owned.len(),
        is_path(n, owned, p),
        0 <= k < p.len(),
        0 <= p[0] < inside.len(),
        inside[p[0]],
        forall|v: int, u: int|
            0 <= v < inside.len() && inside[v] && #[trigger] adjacent(n, v, u) && 0 <= u
                < owned.len() && owned[u] ==> inside[u],
        forall|v: int| is_valid_cell(n, v) ==> v < owned.len(),
    ensures
        0 <= p[k] < inside.len() && inside[p[k]],
    decreases k,
{
    if k > 0 {
        lemma_path_inside(n, owned, inside, p, k - 1);
        assert(adjacent(n, p[k - 1], p[k]));
        assert(is_valid_cell(n, p[k]) && owned[p[k]]);
    }
}

/// More owned cells keep every link.
pub proof fn lemma_linked_monotone(n: nat, o1: Seq<bool>, o2: Seq<bool>, a: int, b: int)
    requires
        forall|i: int| 0 <= i < o1.len() && #[trigger] o1[i] ==> o2[i],
        forall|i: int| is_valid_cell(n, i) ==> 0 <= i < o1.len(),
        linked(n, o1, a, b),
    ensures
        linked(n, o2, a, b),
{
    let p = choose|p: Seq<int>| #[trigger] is_path(n, o1, p) && p[0] == a && p.last() == b;
    assert forall|k: int| 0 <= k < p.len() implies is_valid_cell(n, #[trigger] p[k]) && o2[p[k]] by {
        assert(is_valid_cell(n, p[k]) && o1[p[k]]);
    }
    assert(is_path(n, o2, p));
}

/// More owned cells keep a connection of all three sides.
pub proof fn lemma_connects_monotone(n: nat, o1: Seq<bool>, o2: Seq<bool>)
    requires
        forall|i: int| 0 <= i < o1.len() && #[trigger] o1[i] ==> o2[i],
        forall|i: int| is_valid_cell(n, i) ==> 0 <= i < o1.len(),
        connects_all_sides(n, o1),
    ensures
        connects_all_sides(n, o2),
{
    let s = choose|s: int| #[trigger] group_touches_all_sides(n, o1, s);
    let (a, b, c) = choose|a: int, b: int, c: int|
        #![trigger linked(n, o1, s, a), linked(n, o1, s, b), linked(n, o1, s, c)]
        linked(n, o1, s, a) && on_side(n, a, 0) && linked(n, o1, s, b) && on_side(n, b, 1)
            && linked(n, o1, s, c) && on_side(n, c, 2);
    lemma_linked_monotone(n, o1, o2, s, a);
    lemma_linked_monotone(n, o1, o2, s, b);
    lemma_linked_monotone(n, o1, o2, s, c);
    assert(group_touches_all_sides(n, o2, s));
}

} // verus!

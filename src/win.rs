//! Win detection on the search board: does one group of a player's stones
//! touch all three sides? Groups are explored by flood fill with the
//! board's own scratch buffers, so a call allocates nothing new.
use crate::board::{BoardState, OPPONENT, OWN};
use crate::connect::{
    connects_all_sides, group_touches_all_sides, lemma_closed_holds_linked, lemma_group_shared,
    lemma_linked_ends, lemma_linked_refl, lemma_linked_step, lemma_linked_symmetric, linked,
    owned_by,
};
use crate::geometry::{
    adjacent, has_side_bit, lemma_adjacent_valid, lemma_or_bits, lemma_side_mask, num_cells,
    on_side,
};
use vstd::prelude::*;

verus! {

/// Number of unmarked entries.
pub open spec fn count_unmarked(s: Seq<bool>) -> nat
    decreases s.len(),
{
    if s.len() == 0 {
        0
    } else {
        count_unmarked(s.drop_last()) + if s.last() {
            0nat
        } else {
            1nat
        }
    }
}

/// Marking an unmarked entry leaves one fewer.
pub proof fn lemma_count_mark(s: Seq<bool>, i: int)
    requires
        0 <= i < s.len(),
        !s[i],
    ensures
        count_unmarked(s.update(i, true)) + 1 == count_unmarked(s),
    decreases s.len(),
{
    let t = s.update(i, true);
    if i < s.len() - 1 {
        assert(t.drop_last() =~= s.drop_last().update(i, true));
        lemma_count_mark(s.drop_last(), i);
    } else {
        assert(t.drop_last() =~= s.drop_last());
    }
}

impl BoardState {
    /// The visited buffer holds whole groups of `token`'s stones, none of
    /// which touches all three sides.
    spec fn visits_settled(&self, token: u8) -> bool {
        let n = self.n();
        let owned = owned_by(self.occupancy@, token);
        &&& forall|v: int| 0 <= v < num_cells(n) && #[trigger] self.visited@[v] ==> owned[v]
        &&& forall|v: int, u: int|
            0 <= v < num_cells(n) && self.visited@[v] && #[trigger] adjacent(n, v, u) && 0 <= u
                < owned.len() && owned[u] ==> self.visited@[u]
        &&& forall|v: int|
            0 <= v < num_cells(n) && #[trigger] self.visited@[v] ==> !group_touches_all_sides(
                n,
                owned,
                v,
            )
    }

    /// Whether the stones holding `token` form one group that touches all
    /// three sides.
    ///
    /// Groups are explored by flood fill from each unvisited stone on a
    /// side, in index order; a group's exploration ends, and the answer is
    /// given, as soon as the sides it has reached cover all three.
    pub fn has_connected_all_sides(&mut self, token: u8) -> (r: bool)
        requires
            old(self).wf(),
            token == OWN || token == OPPONENT,
        ensures
            final(self).wf(),
            final(self).same_position(*old(self)),
            r == old(self).wins(token),
    {
        let ghost pre = *self;
        let ghost n = self.n();
        let ghost owned = owned_by(self.occupancy@, token);
        let total = self.occupancy.len();
        let mut i: usize = 0;
        while i < total
            invariant
                self.wf(),
                self.same_position(pre),
                total == num_cells(n),
                n == self.n(),
                i <= total,
                forall|k: int| 0 <= k < i ==> !#[trigger] self.visited@[k],
            decreases total - i,
        {
            self.visited.set(i, false);
            i = i + 1;
        }
        self.stack.clear();
        let mut s: usize = 0;
        while s < total
            invariant
                pre == *old(self),
                self.wf(),
                self.same_position(pre),
                total == num_cells(n),
                n == self.n(),
                owned == owned_by(self.occupancy@, token),
                token == OWN || token == OPPONENT,
                s <= total,
                self.stack@.len() == 0,
                self.visits_settled(token),
                forall|v: int|
                    0 <= v < s && owned[v] && #[trigger] self.edges@[v] != 0 ==> self.visited@[v],
            decreases total - s,
        {
            if !self.visited[s] && self.occupancy[s] == token && self.edges[s] != 0 {
                if self.fill_group(s, token) {
                    return true;
                }
            }
            s = s + 1;
        }
        proof {
            if connects_all_sides(n, owned) {
                let s0 = choose|s0: int| #[trigger] group_touches_all_sides(n, owned, s0);
                let (a, b, c) = choose|a: int, b: int, c: int|
                    #![trigger linked(n, owned, s0, a), linked(n, owned, s0, b), linked(n, owned, s0, c)]
                    linked(n, owned, s0, a) && on_side(n, a, 0) && linked(n, owned, s0, b)
                        && on_side(n, b, 1) && linked(n, owned, s0, c) && on_side(n, c, 2);
                lemma_linked_ends(n, owned, s0, a);
                lemma_side_mask(n, a);
                lemma_or_bits(self.edges@[a], 0);
                assert(has_side_bit(self.edges@[a], 0));
                assert(self.edges@[a] != 0);
                assert(self.visited@[a]);
                lemma_linked_symmetric(n, owned, s0, a);
                lemma_group_shared(n, owned, a, s0);
            }
        }
        false
    }

    /// What a flood fill from `start` keeps true: the position is untouched,
    /// cells visited before the fill stay visited, and every cell the fill
    /// visited is an owned cell linked to `start`.
    spec fn fill_core(&self, pre: BoardState, token: u8, start: int, before: Seq<bool>) -> bool {
        let n = self.n();
        let owned = owned_by(self.occupancy@, token);
        &&& self.wf()
        &&& self.same_position(pre)
        &&& token == OWN || token == OPPONENT
        &&& 0 <= start < num_cells(n)
        &&& self.visited@[start]
        &&& before.len() == num_cells(n)
        &&& !before[start]
        &&& pre.visits_settled(token)
        &&& pre.visited@ == before
        &&& forall|v: int| 0 <= v < num_cells(n) && #[trigger] before[v] ==> self.visited@[v]
        &&& forall|v: int| 0 <= v < num_cells(n) && #[trigger] self.visited@[v] ==> owned[v]
        &&& forall|v: int|
            0 <= v < num_cells(n) && #[trigger] self.visited@[v] && !before[v] ==> linked(
                n,
                owned,
                start,
                v,
            )
        &&& forall|t: int|
            0 <= t < self.stack@.len() ==> #[trigger] self.stack@[t] < num_cells(n)
                && self.visited@[self.stack@[t] as int] && !before[self.stack@[t] as int]
    }

    /// Every visited cell off the stack, but `x`, has its owned neighbours visited.
    spec fn fill_closed_except(&self, token: u8, x: int) -> bool {
        let n = self.n();
        let owned = owned_by(self.occupancy@, token);
        forall|v: usize, u: int|
            v < num_cells(n) && self.visited@[v as int] && !self.stack@.contains(v) && v as int
                != x && #[trigger] adjacent(n, v as int, u) && 0 <= u < owned.len() && owned[u]
                ==> self.visited@[u]
    }

    /// The sides of every cell the fill has expanded are in `mask`.
    spec fn fill_sides(&self, before: Seq<bool>, mask: u8) -> bool {
        forall|w: usize, k: int|
            w < num_cells(self.n()) && self.visited@[w as int] && !before[w as int]
                && !self.stack@.contains(w) && 0 <= k < 3 && #[trigger] has_side_bit(
                self.edges@[w as int],
                k,
            ) ==> has_side_bit(mask, k)
    }

    /// Marking and pushing an unvisited owned cell linked to `start` keeps the
    /// fill's invariants.
    proof fn lemma_fill_mark(
        old_b: BoardState,
        new_b: BoardState,
        pre: BoardState,
        token: u8,
        start: int,
        before: Seq<bool>,
        x: int,
        u: usize,
    )
        requires
            old_b.fill_core(pre, token, start, before),
            old_b.fill_closed_except(token, x),
            u < num_cells(old_b.n()),
            !old_b.visited@[u as int],
            old_b.occupancy@[u as int] == token,
            linked(old_b.n(), owned_by(old_b.occupancy@, token), start, u as int),
            new_b.same_position(old_b),
            new_b.visited@ == old_b.visited@.update(u as int, true),
            new_b.stack@ == old_b.stack@.push(u),
        ensures
            new_b.fill_core(pre, token, start, before),
            new_b.fill_closed_except(token, x),
            forall|w: usize|
                w < num_cells(old_b.n()) && #[trigger] new_b.visited@[w as int]
                    && !new_b.stack@.contains(w) ==> old_b.visited@[w as int]
                    && !old_b.stack@.contains(w),
            forall|w: usize| #[trigger] old_b.stack@.contains(w) ==> new_b.stack@.contains(w),
    {
        let n = old_b.n();
        assert forall|w: usize| #[trigger] old_b.stack@.contains(w) implies new_b.stack@.contains(w) by {
            let t = choose|t: int| 0 <= t < old_b.stack@.len() && old_b.stack@[t] == w;
            assert(new_b.stack@[t] == w);
        }
        assert(new_b.stack@[old_b.stack@.len() as int] == u);
        assert(new_b.stack@.contains(u));
        assert forall|t: int| 0 <= t < new_b.stack@.len() implies #[trigger] new_b.stack@[t]
            < num_cells(n) && new_b.visited@[new_b.stack@[t] as int]
            && !before[new_b.stack@[t] as int] by {
            if t < old_b.stack@.len() {
                assert(new_b.stack@[t] == old_b.stack@[t]);
                assert(old_b.stack@[t] < num_cells(n) && old_b.visited@[old_b.stack@[t] as int]
                    && !before[old_b.stack@[t] as int]);
            } else {
                assert(new_b.stack@[t] == u);
                if before[u as int] {
                    assert(old_b.visited@[u as int]);
                }
            }
        }
        assert(new_b.wf());
    }

    /// Popping `v` off the stack and adding its sides to the mask keeps the
    /// fill's invariants, with `v` left to expand.
    proof fn lemma_fill_pop(
        old_b: BoardState,
        new_b: BoardState,
        pre: BoardState,
        token: u8,
        start: int,
        before: Seq<bool>,
        mask: u8,
        v: usize,
    )
        requires
            old_b.fill_core(pre, token, start, before),
            old_b.fill_closed_except(token, -1),
            old_b.fill_sides(before, mask),
            old_b.stack@.len() > 0,
            v == old_b.stack@.last(),
            new_b.same_position(old_b),
            new_b.visited@ == old_b.visited@,
            new_b.stack@ == old_b.stack@.drop_last(),
            mask < 8,
        ensures
            new_b.fill_core(pre, token, start, before),
            new_b.fill_closed_except(token, v as int),
            new_b.fill_sides(before, mask | old_b.edges@[v as int]),
            (v as int) < num_cells(old_b.n()),
            new_b.visited@[v as int],
            !before[v as int],
            linked(old_b.n(), owned_by(old_b.occupancy@, token), start, v as int),
    {
        let n = old_b.n();
        let stack0 = old_b.stack@;
        assert(stack0[stack0.len() - 1] == v);
        assert forall|w: usize| #[trigger] stack0.contains(w) implies new_b.stack@.contains(w) || w
            == v by {
            let t = choose|t: int| 0 <= t < stack0.len() && stack0[t] == w;
            if t < stack0.len() - 1 {
                assert(new_b.stack@[t] == w);
            }
        }
        assert forall|t: int| 0 <= t < new_b.stack@.len() implies #[trigger] new_b.stack@[t]
            < num_cells(n) && new_b.visited@[new_b.stack@[t] as int]
            && !before[new_b.stack@[t] as int] by {
            assert(new_b.stack@[t] == stack0[t]);
        }
        assert(new_b.wf());
        let e = old_b.edges@[v as int];
        lemma_or_bits(mask, e);
        assert forall|w: usize, k: int|
            w < num_cells(n) && new_b.visited@[w as int] && !before[w as int] && !new_b.stack@.contains(
                w,
            ) && 0 <= k < 3 && #[trigger] has_side_bit(new_b.edges@[w as int], k) implies has_side_bit(
            mask | e,
            k,
        ) by {
            if w != v {
                if stack0.contains(w) {
                    assert(new_b.stack@.contains(w) || w == v);
                }
            }
        }
        assert forall|v2: usize, u: int|
            v2 < num_cells(n) && new_b.visited@[v2 as int] && !new_b.stack@.contains(v2) && v2 as int
                != v as int && #[trigger] adjacent(n, v2 as int, u) && 0 <= u < owned_by(new_b.occupancy@, token).len()
                && owned_by(new_b.occupancy@, token)[u] implies new_b.visited@[u] by {
            if stack0.contains(v2) {
                assert(new_b.stack@.contains(v2) || v2 == v);
            }
        }
    }

    #[verifier::rlimit(100)]
    /// Marks and pushes the unvisited owned neighbours of the expanded cell `v`.
    fn push_unvisited_neighbors(
        &mut self,
        v: usize,
        token: u8,
        Ghost(pre): Ghost<BoardState>,
        Ghost(start): Ghost<int>,
        Ghost(before): Ghost<Seq<bool>>,
    )
        requires
            old(self).fill_core(pre, token, start, before),
            v < num_cells(old(self).n()),
            old(self).visited@[v as int],
            !before[v as int],
            old(self).fill_closed_except(token, v as int),
        ensures
            final(self).fill_core(pre, token, start, before),
            final(self).fill_closed_except(token, -1),
            forall|w: usize|
                w < num_cells(old(self).n()) && #[trigger] final(self).visited@[w as int]
                    && !final(self).stack@.contains(w) ==> old(self).visited@[w as int]
                    && !old(self).stack@.contains(w),
            2 * count_unmarked(final(self).visited@) + final(self).stack@.len() <= 2
                * count_unmarked(old(self).visited@) + old(self).stack@.len(),
    {
        let ghost n = self.n();
        let ghost owned = owned_by(self.occupancy@, token);
        let ghost old_self = *self;
        let ghost measure = 2 * count_unmarked(self.visited@) + self.stack@.len();
        let nb_len = self.neighbors[v].len();
        let ghost nb = self.neighbors@[v as int]@;
        proof {
            assert forall|jj: int| 0 <= jj < nb.len() implies #[trigger] nb[jj] < num_cells(n) by {
                assert(adjacent(n, v as int, nb[jj] as int));
                lemma_adjacent_valid(n, v as int, nb[jj] as int);
            }
        }
        let mut j: usize = 0;
        while j < nb_len
            invariant
                self.fill_core(pre, token, start, before),
                self.fill_closed_except(token, v as int),
                n == self.n(),
                owned == owned_by(self.occupancy@, token),
                v < num_cells(n),
                nb == self.neighbors@[v as int]@,
                nb_len == nb.len(),
                forall|jj: int| 0 <= jj < nb.len() ==> #[trigger] nb[jj] < num_cells(n),
                j <= nb_len,
                self.visited@[v as int],
                !before[v as int],
                forall|jj: int|
                    0 <= jj < j ==> (self.occupancy@[#[trigger] nb[jj] as int] == token
                        ==> self.visited@[nb[jj] as int]),
                forall|w: usize|
                    w < num_cells(n) && #[trigger] self.visited@[w as int] && !self.stack@.contains(
                        w,
                    ) ==> old_self.visited@[w as int] && !old_self.stack@.contains(w),
                forall|w: usize| #[trigger] old_self.stack@.contains(w) ==> self.stack@.contains(w),
                2 * count_unmarked(self.visited@) + self.stack@.len() <= measure,
            decreases nb_len - j,
        {
            let u = self.neighbors[v][j];
            proof {
                assert(adjacent(n, v as int, nb[j as int] as int));
                lemma_adjacent_valid(n, v as int, u as int);
            }
            proof {
                assert(owned[u as int] == (self.occupancy@[u as int] == token));
            }
            if !self.visited[u] && self.occupancy[u] == token {
                let ghost b0 = *self;
                proof {
                    lemma_count_mark(self.visited@, u as int);
                    lemma_linked_step(n, owned, start, v as int, u as int);
                }
                self.visited.set(u, true);
                self.stack.push(u);
                proof {
                    BoardState::lemma_fill_mark(b0, *self, pre, token, start, before, v as int, u);
                    assert forall|jj: int|
                        0 <= jj < j && self.occupancy@[#[trigger] nb[jj] as int] == token implies self.visited@[nb[jj] as int] by {
                        assert(b0.visited@[nb[jj] as int]);
                    }
                }
            }
            assert(u == nb[j as int]);
            assert(self.occupancy@[u as int] == token ==> self.visited@[u as int]);
            j = j + 1;
        }
        proof {
            assert forall|u: int|
                #[trigger] adjacent(n, v as int, u) && 0 <= u < owned.len() && owned[u] implies self.visited@[u] by {
                lemma_adjacent_valid(n, v as int, u);
                assert(nb.contains(u as usize));
                let jj = choose|jj: int| 0 <= jj < nb.len() && nb[jj] == u as usize;
                assert(nb[jj] as int == u);
                assert(self.occupancy@[nb[jj] as int] == token);
            }
        }
    }

    #[verifier::rlimit(100)]
    /// Explores the group of `token`'s stones around `start`; true once the
    /// sides reached cover all three.
    fn fill_group(&mut self, start: usize, token: u8) -> (full: bool)
        requires
            old(self).wf(),
            token == OWN || token == OPPONENT,
            start < old(self).occupancy@.len(),
            !old(self).visited@[start as int],
            old(self).occupancy@[start as int] == token,
            old(self).stack@.len() == 0,
            old(self).visits_settled(token),
        ensures
            final(self).wf(),
            final(self).same_position(*old(self)),
            full ==> old(self).wins(token),
            !full ==> final(self).stack@.len() == 0 && final(self).visits_settled(token)
                && final(self).visited@[start as int] && forall|v: int|
                0 <= v < old(self).visited@.len() && #[trigger] old(self).visited@[v]
                    ==> final(self).visited@[v],
    {
        let ghost pre = *self;
        let ghost n = self.n();
        let ghost owned = owned_by(self.occupancy@, token);
        let ghost before = self.visited@;
        let ghost total = num_cells(n);
        self.visited.set(start, true);
        self.stack.push(start);
        let mut mask: u8 = 0;
        let ghost mut wit: Seq<int> = seq![start as int, start as int, start as int];
        proof {
            lemma_linked_refl(n, owned, start as int);
            assert(0u8 & 1 == 0 && 0u8 & 2 == 0 && 0u8 & 4 == 0) by (bit_vector);
            assert(self.stack@[0] == start);
            assert(self.stack@.contains(start));
            assert forall|v: int| 0 <= v < total && #[trigger] self.visited@[v] && !before[v] implies v == start by {}
            assert(self.fill_closed_except(token, -1)) by {
                assert forall|v: usize, u: int|
                    v < total && self.visited@[v as int] && !self.stack@.contains(v)
                        && #[trigger] adjacent(n, v as int, u) && 0 <= u < owned.len() && owned[u] implies self.visited@[u] by {
                    assert(before[v as int]);
                    assert(pre.visited@[u]);
                }
            }
            assert(self.fill_sides(before, mask));
            assert(self.fill_core(pre, token, start as int, before));
        }
        while self.stack.len() > 0
            invariant
                pre == *old(self),
                self.fill_core(pre, token, start as int, before),
                self.fill_closed_except(token, -1),
                self.fill_sides(before, mask),
                n == self.n(),
                total == num_cells(n),
                owned == owned_by(self.occupancy@, token),
                wit.len() == 3,
                forall|k: int|
                    0 <= k < 3 && #[trigger] has_side_bit(mask, k) ==> linked(
                        n,
                        owned,
                        start as int,
                        wit[k],
                    ) && on_side(n, wit[k], k),
                mask < 8,
                mask != 7,
            decreases 2 * count_unmarked(self.visited@) + self.stack@.len(),
        {
            let ghost stack0 = self.stack@;
            let ghost b0 = *self;
            let v = self.stack.pop().unwrap();
            let e = self.edges[v];
            proof {
                BoardState::lemma_fill_pop(b0, *self, pre, token, start as int, before, mask, v);
                lemma_or_bits(mask, e);
                lemma_side_mask(n, v as int);
                let old_mask = mask;
                wit = Seq::new(3, |k: int| if has_side_bit(old_mask, k) { wit[k] } else { v as int });
            }
            mask = mask | e;
            if mask == 7 {
                proof {
                    lemma_or_bits(mask, 0);
                    assert(has_side_bit(mask, 0) && has_side_bit(mask, 1) && has_side_bit(mask, 2));
                    assert(group_touches_all_sides(n, owned, start as int)) by {
                        assert(linked(n, owned, start as int, wit[0]));
                        assert(linked(n, owned, start as int, wit[1]));
                        assert(linked(n, owned, start as int, wit[2]));
                    }
                    assert(connects_all_sides(n, owned));
                }
                return true;
            }
            let ghost mid = *self;
            self.push_unvisited_neighbors(v, token, Ghost(pre), Ghost(start as int), Ghost(before));
            proof {
                assert forall|w: usize, k: int|
                    w < num_cells(self.n()) && self.visited@[w as int] && !before[w as int]
                        && !self.stack@.contains(w) && 0 <= k < 3 && #[trigger] has_side_bit(
                        self.edges@[w as int],
                        k,
                    ) implies has_side_bit(mask, k) by {
                    assert(mid.visited@[w as int] && !mid.stack@.contains(w));
                }
            }
        }
        proof {
            assert(self.stack@.len() == 0);
            assert forall|v: int, u: int|
                0 <= v < total && self.visited@[v] && #[trigger] adjacent(n, v, u) && 0 <= u
                    < owned.len() && owned[u] implies self.visited@[u] by {
                let vu = v as usize;
                assert(!self.stack@.contains(vu));
                assert(adjacent(n, vu as int, u));
            }
            assert forall|w: int, k: int|
                0 <= w < total && self.visited@[w] && !before[w] && 0 <= k < 3
                    && #[trigger] has_side_bit(self.edges@[w], k) implies has_side_bit(mask, k) by {
                let wu = w as usize;
                assert(!self.stack@.contains(wu));
                assert(has_side_bit(self.edges@[wu as int], k));
            }
            assert forall|v: int| 0 <= v < total && #[trigger] self.visited@[v] implies !group_touches_all_sides(n, owned, v) by {
                if !before[v] && group_touches_all_sides(n, owned, v) {
                    lemma_group_shared(n, owned, start as int, v);
                    let (a, b, c) = choose|a: int, b: int, c: int|
                        #![trigger linked(n, owned, start as int, a), linked(n, owned, start as int, b), linked(n, owned, start as int, c)]
                        linked(n, owned, start as int, a) && on_side(n, a, 0) && linked(n, owned, start as int, b)
                            && on_side(n, b, 1) && linked(n, owned, start as int, c) && on_side(n, c, 2);
                    self.lemma_group_member_in_fill(token, before, start as int, a, 0, mask);
                    self.lemma_group_member_in_fill(token, before, start as int, b, 1, mask);
                    self.lemma_group_member_in_fill(token, before, start as int, c, 2, mask);
                    lemma_or_bits(mask, 0);
                }
            }
        }
        false
    }

    /// A side cell linked to the start of a finished, closed fill adds its
    /// side to the fill's mask.
    proof fn lemma_group_member_in_fill(&self, token: u8, before: Seq<bool>, start: int, a: int, k: int, mask: u8)
        requires
            self.wf(),
            0 <= k < 3,
            0 <= start < num_cells(self.n()),
            self.visited@[start],
            before.len() == num_cells(self.n()),
            group_touches_all_sides(self.n(), owned_by(self.occupancy@, token), start),
            linked(self.n(), owned_by(self.occupancy@, token), start, a),
            on_side(self.n(), a, k),
            forall|v: int| 0 <= v < num_cells(self.n()) && #[trigger] before[v] ==> !group_touches_all_sides(self.n(), owned_by(self.occupancy@, token), v),
            forall|v: int, u: int|
                0 <= v < num_cells(self.n()) && self.visited@[v] && #[trigger] adjacent(self.n(), v, u) && 0 <= u
                    < num_cells(self.n()) && owned_by(self.occupancy@, token)[u] ==> self.visited@[u],
            forall|w: int, j: int|
                0 <= w < num_cells(self.n()) && self.visited@[w] && !before[w]
                    && 0 <= j < 3 && #[trigger] has_side_bit(self.edges@[w], j) ==> has_side_bit(mask, j),
        ensures
            has_side_bit(mask, k),
    {
        let n = self.n();
        let owned = owned_by(self.occupancy@, token);
        lemma_closed_holds_linked(n, owned, self.visited@, start, a);
        lemma_linked_ends(n, owned, start, a);
        if before[a] {
            lemma_linked_symmetric(n, owned, start, a);
            lemma_group_shared(n, owned, a, start);
        }
        lemma_side_mask(n, a);
        assert(has_side_bit(self.edges@[a], k));
    }
}

} // verus!

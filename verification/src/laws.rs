//! Laws that relate several operations, stated and proved once.

use vstd::prelude::*;

use crate::anim::Animation;
use crate::connect::adj;
use crate::connect::component;
use crate::connect::is_path;
use crate::connect::lemma_reach_refl;
use crate::connect::reach;
use crate::grid::can_shift;
use crate::grid::cell_pops;
use crate::grid::clearing_anim;
use crate::grid::clearing_anims;
use crate::grid::drained;
use crate::grid::lemma_visit_in_bounds;
use crate::grid::pass_anims;
use crate::grid::pass_tiles;
use crate::grid::popped_tiles;
use crate::grid::visit_x;
use crate::grid::visit_y;
use crate::grid::MoveDir;
use crate::tile::Tile;

verus! {

/// Distinct in-bounds cells have distinct row-major indices.
pub proof fn lemma_cell_index_injective(
    h: int,
    w: int,
    y1: int,
    x1: int,
    y2: int,
    x2: int,
)
    requires
        0 <= y1 < h,
        0 <= x1 < w,
        0 <= y2 < h,
        0 <= x2 < w,
        y1 * w + x1 == y2 * w + x2,
    ensures
        y1 == y2,
        x1 == x2,
{
    assert(y1 == y2 && x1 == x2) by (nonlinear_arith)
        requires
            0 <= y1 < h,
            0 <= x1 < w,
            0 <= y2 < h,
            0 <= x2 < w,
            y1 * w + x1 == y2 * w + x2,
    {}
}

/// A grid holding a single regular tile whose neighbor along the chosen
/// direction is not an empty in-bounds cell: a whole move pass shifts
/// nothing, records nothing, and leaves the tiles untouched — so the
/// move reports failure and costs no step.
pub proof fn lemma_single_blocked_tile(
    t0: Seq<Tile>,
    a0: Seq<Animation>,
    h: int,
    w: int,
    d: MoveDir,
    now: u64,
    cy: int,
    cx: int,
    k: nat,
)
    requires
        t0.len() == h * w,
        0 <= cy < h,
        0 <= cx < w,
        t0[cy * w + cx] is Regular,
        forall|i: int| 0 <= i < h * w && i != cy * w + cx ==> !((#[trigger] t0[i]) is Regular),
        !can_shift(t0, h, w, cy, cx, d),
        k <= h * w,
    ensures
        pass_tiles(t0, h, w, d, k) == t0,
        pass_anims(t0, a0, h, w, d, now, k) == a0,
    decreases k,
{
    if k == 0 {
    } else {
        lemma_single_blocked_tile(t0, a0, h, w, d, now, cy, cx, (k - 1) as nat);
        let y = visit_y(d, h, w, k - 1);
        let x = visit_x(d, h, w, k - 1);
        lemma_visit_in_bounds(d, h, w, k - 1);
        crate::grid::lemma_cell_index_bounds(h, w, y, x);
        if y * w + x == cy * w + cx {
            lemma_cell_index_injective(h, w, y, x, cy, cx);
        }
    }
}

/// Once every animation's duration has elapsed, one drain leaves the
/// list empty.
pub proof fn lemma_drain_after_expiry(a: Seq<Animation>, now: u64)
    requires
        forall|i: int| 0 <= i < a.len() ==> !(#[trigger] a[i]).spec_is_active(now),
    ensures
        drained(a, now).len() == 0,
    decreases a.len(),
{
    if a.len() > 0 {
        assert(!a[a.len() - 1].spec_is_active(now));
        lemma_drain_after_expiry(a.drop_last(), now);
    }
}

/// A blocker never joins a component: nothing is adjacent to it, so its
/// component is itself alone, and a clearing pass leaves it untouched.
pub proof fn lemma_blocker_stays(t: Seq<Tile>, h: int, w: int, c: int)
    requires
        0 <= c < t.len(),
        t[c] is Blocker,
    ensures
        component(t, h, w, c) =~= Set::<int>::empty().insert(c),
        popped_tiles(t, h, w)[c] == t[c],
{
    assert forall|b: int| component(t, h, w, c).contains(b) implies b == c by {
        let p = choose|p: Seq<int>|
            #[trigger] is_path(t, h, w, p) && p.first() == c && p.last() == b;
        if p.len() >= 2 {
            assert(adj(t, h, w, p[0], p[1]));
        }
    }
    lemma_reach_refl(t, h, w, c);
    assert(!cell_pops(t, h, w, c));
}

/// Everything a move pass appends to the animation list is a moving
/// entry: started from an idle grid, a move leaves only moving
/// animations in flight.
pub proof fn lemma_move_enqueues_only_moving(
    t0: Seq<Tile>,
    a0: Seq<Animation>,
    h: int,
    w: int,
    d: MoveDir,
    now: u64,
    k: nat,
)
    ensures
        forall|i: int|
            a0.len() <= i < pass_anims(t0, a0, h, w, d, now, k).len() ==> (#[trigger] pass_anims(
                t0,
                a0,
                h,
                w,
                d,
                now,
                k,
            )[i]) is Moving,
    decreases k,
{
    if k == 0 {
    } else {
        lemma_move_enqueues_only_moving(t0, a0, h, w, d, now, (k - 1) as nat);
    }
}

/// Everything a clearing pass records is a clearing entry: after the
/// gate fires, only clearing animations are in flight. Together with
/// the law above, the two phases never share the list.
pub proof fn lemma_pop_enqueues_only_clearing(t: Seq<Tile>, h: int, w: int, now: u64, k: nat)
    ensures
        forall|i: int|
            0 <= i < clearing_anims(t, h, w, now, k).len() ==> (
            #[trigger] clearing_anims(t, h, w, now, k)[i]) is Clearing,
    decreases k,
{
    if k == 0 {
    } else {
        lemma_pop_enqueues_only_clearing(t, h, w, now, (k - 1) as nat);
    }
}

/// The clearing rule, cell by cell: a regular tile in a same-color
/// component of four or more becomes empty, every other cell — smaller
/// components, blockers, empties — is untouched.
pub proof fn lemma_clearing_pass_cells(t: Seq<Tile>, h: int, w: int, c: int)
    requires
        t.len() == h * w,
        0 <= c < h * w,
    ensures
        cell_pops(t, h, w, c) <==> (t[c] is Regular && crate::connect::component_size(t, h, w, c)
            >= 4),
        cell_pops(t, h, w, c) ==> popped_tiles(t, h, w)[c] is Empty,
        !cell_pops(t, h, w, c) ==> popped_tiles(t, h, w)[c] == t[c],
{
}

/// Two distinct in-bounds cells never share a clearing record: the
/// record's coordinates name its cell.
proof fn lemma_clearing_anim_injective(t: Seq<Tile>, h: int, w: int, now: u64, c1: int, c2: int)
    requires
        0 < w <= usize::MAX,
        0 <= c1 < h * w,
        0 <= c2 < h * w,
        h <= usize::MAX,
        clearing_anim(t, w, c1, now) == clearing_anim(t, w, c2, now),
    ensures
        c1 == c2,
{
    lemma_div_bound_for_cells(c1, w, h);
    lemma_div_bound_for_cells(c2, w, h);
    vstd::arithmetic::div_mod::lemma_mod_bound(c1, w);
    vstd::arithmetic::div_mod::lemma_mod_bound(c2, w);
    vstd::arithmetic::div_mod::lemma_fundamental_div_mod(c1, w);
    vstd::arithmetic::div_mod::lemma_fundamental_div_mod(c2, w);
}

proof fn lemma_div_bound_for_cells(c: int, w: int, h: int)
    requires
        0 < w,
        0 <= c < h * w,
    ensures
        0 <= c / w < h,
{
    vstd::arithmetic::div_mod::lemma_div_pos_is_pos(c, w);
    vstd::arithmetic::mul::lemma_mul_is_commutative(h, w);
    vstd::arithmetic::div_mod::lemma_multiply_divide_lt(c, w, h);
}

/// The clearing pass records exactly one clearing animation per popped
/// cell, carrying that cell's pre-clear snapshot and coordinates: every
/// popped cell below `k` appears, every entry belongs to a popped cell,
/// and no two entries coincide.
pub proof fn lemma_one_clearing_record_per_popped_cell(
    t: Seq<Tile>,
    h: int,
    w: int,
    now: u64,
    k: nat,
)
    requires
        t.len() == h * w,
        0 < w <= usize::MAX,
        0 <= h <= usize::MAX,
        k <= h * w,
    ensures
        forall|c: int|
            0 <= c < k && cell_pops(t, h, w, c) ==> exists|j: int|
                0 <= j < clearing_anims(t, h, w, now, k).len() && #[trigger] clearing_anims(
                    t,
                    h,
                    w,
                    now,
                    k,
                )[j] == clearing_anim(t, w, c, now),
        forall|j: int|
            0 <= j < clearing_anims(t, h, w, now, k).len() ==> exists|c: int|
                0 <= c < k && cell_pops(t, h, w, c) && #[trigger] clearing_anims(
                    t,
                    h,
                    w,
                    now,
                    k,
                )[j] == clearing_anim(t, w, c, now),
        forall|j1: int, j2: int|
            0 <= j1 < j2 < clearing_anims(t, h, w, now, k).len() ==> #[trigger] clearing_anims(
                t,
                h,
                w,
                now,
                k,
            )[j1] != #[trigger] clearing_anims(t, h, w, now, k)[j2],
    decreases k,
{
    if k == 0 {
    } else {
        lemma_one_clearing_record_per_popped_cell(t, h, w, now, (k - 1) as nat);
        let prev = clearing_anims(t, h, w, now, (k - 1) as nat);
        let cur = clearing_anims(t, h, w, now, k);
        if cell_pops(t, h, w, k - 1) {
            assert(cur == prev.push(clearing_anim(t, w, k - 1, now)));
            assert forall|c: int|
                0 <= c < k && cell_pops(t, h, w, c) implies exists|j: int|
                0 <= j < cur.len() && #[trigger] cur[j] == clearing_anim(t, w, c, now) by {
                if c == k - 1 {
                    assert(cur[cur.len() - 1] == clearing_anim(t, w, c, now));
                } else {
                    let j = choose|j: int|
                        0 <= j < prev.len() && #[trigger] prev[j] == clearing_anim(t, w, c, now);
                    assert(cur[j] == clearing_anim(t, w, c, now));
                }
            }
            assert forall|j: int|
                0 <= j < cur.len() implies exists|c: int|
                0 <= c < k && cell_pops(t, h, w, c) && #[trigger] cur[j] == clearing_anim(
                    t,
                    w,
                    c,
                    now,
                ) by {
                if j < prev.len() {
                    let c = choose|c: int|
                        0 <= c < k - 1 && cell_pops(t, h, w, c) && #[trigger] prev[j]
                            == clearing_anim(t, w, c, now);
                    assert(cur[j] == clearing_anim(t, w, c, now));
                } else {
                    assert(cur[j] == clearing_anim(t, w, k - 1, now));
                }
            }
            assert forall|j1: int, j2: int|
                0 <= j1 < j2 < cur.len() implies #[trigger] cur[j1] != #[trigger] cur[j2] by {
                if j2 == cur.len() - 1 {
                    let c = choose|c: int|
                        0 <= c < k - 1 && cell_pops(t, h, w, c) && #[trigger] prev[j1]
                            == clearing_anim(t, w, c, now);
                    if cur[j1] == cur[j2] {
                        lemma_clearing_anim_injective(t, h, w, now, c, k - 1);
                    }
                } else {
                    assert(cur[j1] == prev[j1] && cur[j2] == prev[j2]);
                }
            }
        } else {
            assert(cur == prev);
        }
    }
}

/// Clearing is not order-sensitive and pops whole components: every cell
/// of one component shares its fate, decided by the component's size
/// alone.
pub proof fn lemma_component_shares_fate(t: Seq<Tile>, h: int, w: int, a: int, b: int)
    requires
        0 <= a < t.len(),
        0 <= b < t.len(),
        t.len() == h * w,
        reach(t, h, w, a, b),
        t[a] is Regular,
        t[b] is Regular,
    ensures
        cell_pops(t, h, w, a) == cell_pops(t, h, w, b),
        cell_pops(t, h, w, a) ==> popped_tiles(t, h, w)[a] is Empty && popped_tiles(t, h, w)[b]
            is Empty,
        !cell_pops(t, h, w, a) ==> popped_tiles(t, h, w)[a] == t[a] && popped_tiles(t, h, w)[b]
            == t[b],
{
    assert(component(t, h, w, a) =~= component(t, h, w, b)) by {
        assert forall|z: int| component(t, h, w, a).contains(z) implies component(
            t,
            h,
            w,
            b,
        ).contains(z) by {
            crate::connect::lemma_reach_sym(t, h, w, a, b);
            crate::connect::lemma_reach_trans(t, h, w, b, a, z);
        }
        assert forall|z: int| component(t, h, w, b).contains(z) implies component(
            t,
            h,
            w,
            a,
        ).contains(z) by {
            crate::connect::lemma_reach_trans(t, h, w, a, b, z);
        }
    }
}

} // verus!

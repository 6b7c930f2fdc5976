//! Connectivity of same-color regular tiles.
//!
//! A grid of height `h` and width `w` is viewed as a row-major sequence of
//! tiles; cell `(y, x)` sits at index `y * w + x`. Two cells are adjacent
//! when they share an edge and both hold regular tiles of one color.
//! `reach` asks for a path of adjacent cells: it is the "connected
//! same-color component" relation the clearing pass works with.

use vstd::prelude::*;

use crate::tile::Tile;
use crate::uf::UnionFind;

verus! {

/// Both cells hold regular tiles of the same color.
pub open spec fn same_color(t: Seq<Tile>, a: int, b: int) -> bool {
    &&& t[a] matches Tile::Regular(ca)
    &&& t[b] matches Tile::Regular(cb)
    &&& ca == cb
}

/// Edge-sharing neighbors, in bounds, both regular and of one color.
/// Horizontal neighbors must share a row, so the left cell of the pair
/// may not sit in the last column; vertical neighbors differ by exactly
/// one row, which `b == a ± w` already forces.
pub open spec fn adj(t: Seq<Tile>, h: int, w: int, a: int, b: int) -> bool {
    &&& 0 <= a < h * w
    &&& 0 <= b < h * w
    &&& same_color(t, a, b)
    &&& ((b == a + 1 && a % w != w - 1) || (b == a - 1 && b % w != w - 1) || b == a + w || b == a
        - w)
}

/// A nonempty sequence of cells each adjacent to the next.
pub open spec fn is_path(t: Seq<Tile>, h: int, w: int, p: Seq<int>) -> bool
    decreases p.len(),
{
    if p.len() <= 1 {
        p.len() == 1
    } else {
        adj(t, h, w, p[0], p[1]) && is_path(t, h, w, p.drop_first())
    }
}

/// `b` lies in the same-color component of `a`.
pub open spec fn reach(t: Seq<Tile>, h: int, w: int, a: int, b: int) -> bool {
    exists|p: Seq<int>| #[trigger] is_path(t, h, w, p) && p.first() == a && p.last() == b
}

/// The same-color component of cell `a`.
pub open spec fn component(t: Seq<Tile>, h: int, w: int, a: int) -> Set<int> {
    Set::new(|b: int| reach(t, h, w, a, b))
}

/// How many cells the component of `a` holds.
pub open spec fn component_size(t: Seq<Tile>, h: int, w: int, a: int) -> nat {
    component(t, h, w, a).len()
}

pub proof fn lemma_reach_refl(t: Seq<Tile>, h: int, w: int, a: int)
    ensures
        reach(t, h, w, a, a),
{
    let p: Seq<int> = seq![a];
    assert(is_path(t, h, w, p) && p.first() == a && p.last() == a);
}

pub proof fn lemma_adj_sym(t: Seq<Tile>, h: int, w: int, a: int, b: int)
    requires
        adj(t, h, w, a, b),
    ensures
        adj(t, h, w, b, a),
{
}

pub proof fn lemma_reach_step(t: Seq<Tile>, h: int, w: int, a: int, b: int)
    requires
        adj(t, h, w, a, b),
    ensures
        reach(t, h, w, a, b),
{
    let p: Seq<int> = seq![a, b];
    assert(p.drop_first() =~= seq![b]);
    assert(is_path(t, h, w, seq![b]));
    assert(is_path(t, h, w, p) && p.first() == a && p.last() == b);
}

/// Two paths sharing an endpoint join into one.
proof fn lemma_path_concat(t: Seq<Tile>, h: int, w: int, p: Seq<int>, q: Seq<int>)
    requires
        is_path(t, h, w, p),
        is_path(t, h, w, q),
        p.last() == q.first(),
    ensures
        is_path(t, h, w, p + q.drop_first()),
        (p + q.drop_first()).first() == p.first(),
        (p + q.drop_first()).last() == q.last(),
    decreases p.len(),
{
    if p.len() == 1 {
        assert(p + q.drop_first() =~= q);
    } else {
        lemma_path_concat(t, h, w, p.drop_first(), q);
        let joined = p + q.drop_first();
        assert(joined.drop_first() =~= p.drop_first() + q.drop_first());
        assert(joined[0] == p[0] && joined[1] == p[1]);
        if q.len() == 1 {
            assert(joined.last() == p.last());
            assert(p.last() == q.last());
        }
    }
}

pub proof fn lemma_reach_trans(t: Seq<Tile>, h: int, w: int, a: int, b: int, c: int)
    requires
        reach(t, h, w, a, b),
        reach(t, h, w, b, c),
    ensures
        reach(t, h, w, a, c),
{
    let p = choose|p: Seq<int>| #[trigger] is_path(t, h, w, p) && p.first() == a && p.last() == b;
    let q = choose|q: Seq<int>| #[trigger] is_path(t, h, w, q) && q.first() == b && q.last() == c;
    lemma_path_concat(t, h, w, p, q);
    assert(is_path(t, h, w, p + q.drop_first()));
}

/// Walking a path backwards: each step is adjacency reversed.
proof fn lemma_path_sym(t: Seq<Tile>, h: int, w: int, p: Seq<int>)
    requires
        is_path(t, h, w, p),
    ensures
        reach(t, h, w, p.last(), p.first()),
    decreases p.len(),
{
    if p.len() == 1 {
        lemma_reach_refl(t, h, w, p.first());
    } else {
        lemma_path_sym(t, h, w, p.drop_first());
        assert(p.drop_first().first() == p[1] && p.drop_first().last() == p.last());
        lemma_adj_sym(t, h, w, p[0], p[1]);
        lemma_reach_step(t, h, w, p[1], p[0]);
        lemma_reach_trans(t, h, w, p.last(), p[1], p[0]);
    }
}

pub proof fn lemma_reach_sym(t: Seq<Tile>, h: int, w: int, a: int, b: int)
    requires
        reach(t, h, w, a, b),
    ensures
        reach(t, h, w, b, a),
{
    let p = choose|p: Seq<int>| #[trigger] is_path(t, h, w, p) && p.first() == a && p.last() == b;
    lemma_path_sym(t, h, w, p);
}

proof fn lemma_path_in_range(t: Seq<Tile>, h: int, w: int, p: Seq<int>)
    requires
        is_path(t, h, w, p),
        p.len() >= 2,
    ensures
        0 <= p.last() < h * w,
    decreases p.len(),
{
    if p.len() == 2 {
    } else {
        lemma_path_in_range(t, h, w, p.drop_first());
        assert(p.drop_first().last() == p.last());
    }
}

/// Everything reachable from an in-bounds cell is in bounds.
pub proof fn lemma_reach_in_range(t: Seq<Tile>, h: int, w: int, a: int, b: int)
    requires
        reach(t, h, w, a, b),
        0 <= a < h * w,
    ensures
        0 <= b < h * w,
{
    let p = choose|p: Seq<int>| #[trigger] is_path(t, h, w, p) && p.first() == a && p.last() == b;
    if p.len() >= 2 {
        lemma_path_in_range(t, h, w, p);
    }
}

proof fn lemma_path_implies_same(uf: UnionFind, t: Seq<Tile>, h: int, w: int, p: Seq<int>)
    requires
        forall|a: int, b: int| adj(t, h, w, a, b) ==> #[trigger] uf.same(a, b),
        is_path(t, h, w, p),
    ensures
        uf.same(p.first(), p.last()),
    decreases p.len(),
{
    if p.len() == 1 {
    } else {
        lemma_path_implies_same(uf, t, h, w, p.drop_first());
        assert(uf.same(p[0], p[1]));
    }
}

/// Once every adjacent pair has been merged, any chain of adjacencies
/// stays inside one union-find class.
pub proof fn lemma_reach_implies_same(
    uf: UnionFind,
    t: Seq<Tile>,
    h: int,
    w: int,
    a: int,
    b: int,
)
    requires
        forall|p: int, q: int| adj(t, h, w, p, q) ==> #[trigger] uf.same(p, q),
        reach(t, h, w, a, b),
    ensures
        uf.same(a, b),
{
    let p = choose|p: Seq<int>| #[trigger] is_path(t, h, w, p) && p.first() == a && p.last() == b;
    lemma_path_implies_same(uf, t, h, w, p);
}

/// The component of an in-bounds cell and its union-find class coincide,
/// once the partition refines components both ways.
pub proof fn lemma_component_is_class(uf: UnionFind, t: Seq<Tile>, h: int, w: int, a: int)
    requires
        uf.n() == h * w,
        forall|p: int, q: int| adj(t, h, w, p, q) ==> #[trigger] uf.same(p, q),
        forall|p: int, q: int|
            0 <= p < h * w && 0 <= q < h * w && #[trigger] uf.same(p, q) ==> reach(t, h, w, p, q),
        0 <= a < h * w,
    ensures
        component(t, h, w, a) =~= uf.class_of(a),
        component_size(t, h, w, a) == uf.class_size(a),
{
    assert forall|b: int| component(t, h, w, a).contains(b) implies uf.class_of(a).contains(
        b,
    ) by {
        lemma_reach_in_range(t, h, w, a, b);
        lemma_reach_implies_same(uf, t, h, w, a, b);
    }
    assert forall|b: int| uf.class_of(a).contains(b) implies component(t, h, w, a).contains(
        b,
    ) by {
        assert(uf.same(a, b));
    }
    assert(component(t, h, w, a) =~= uf.class_of(a));
    assert(component_size(t, h, w, a) == uf.class_size(a));
}

} // verus!

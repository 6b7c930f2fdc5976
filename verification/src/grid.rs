//! The grid: tile matrix, move budget, animation list and pending flag.

use vstd::prelude::*;

use crate::anim::Animation;
use crate::connect::adj;
use crate::connect::lemma_adj_sym;
use crate::connect::lemma_component_is_class;
use crate::connect::lemma_reach_step;
use crate::connect::lemma_reach_sym;
use crate::connect::lemma_reach_trans;
use crate::connect::reach;
use crate::matrix::TileMatrix;
use crate::uf::UnionFind;
use crate::matrix::cols_of;
use crate::matrix::matrix_from_elem;
use crate::matrix::matrix_get;
use crate::matrix::rows_of;
use crate::matrix::tiles_of;
use crate::tile::Tile;

verus! {

/// The four input directions a move can take.
#[derive(Clone, Copy, Debug, PartialEq, Eq, Structural)]
pub enum MoveDir {
    Up,
    Down,
    Left,
    Right,
}

/// A rectangular grid of tiles with a move budget, a list of in-flight
/// animations, and a flag marking that a clearing pass is owed.
pub struct Grid {
    steps: usize,
    tiles: TileMatrix,
    active_animations: Vec<Animation>,
    pending_pop: bool,
}

/// Row delta of one step along a direction.
pub open spec fn dir_dy(d: MoveDir) -> int {
    match d {
        MoveDir::Up => -1,
        MoveDir::Down => 1,
        MoveDir::Left => 0,
        MoveDir::Right => 0,
    }
}

/// Column delta of one step along a direction.
pub open spec fn dir_dx(d: MoveDir) -> int {
    match d {
        MoveDir::Up => 0,
        MoveDir::Down => 0,
        MoveDir::Left => -1,
        MoveDir::Right => 1,
    }
}

/// The row of the `k`-th cell a move pass visits. The traversal order is
/// chosen per direction so that a vacated cell can be refilled by a later
/// cell of the same pass: for Left, columns ascending; for Right, columns
/// descending; for Up, rows ascending; for Down, rows descending.
pub open spec fn visit_y(d: MoveDir, h: int, w: int, k: int) -> int {
    match d {
        MoveDir::Left => k % h,
        MoveDir::Right => k % h,
        MoveDir::Up => k / w,
        MoveDir::Down => h - 1 - k / w,
    }
}

/// The column of the `k`-th cell a move pass visits.
pub open spec fn visit_x(d: MoveDir, h: int, w: int, k: int) -> int {
    match d {
        MoveDir::Left => k / h,
        MoveDir::Right => w - 1 - k / h,
        MoveDir::Up => k % w,
        MoveDir::Down => k % w,
    }
}

/// The cell at `(y, x)` can shift one step along `d`: the target is in
/// bounds, the origin holds a regular tile, and the target is empty.
pub open spec fn can_shift(t: Seq<Tile>, h: int, w: int, y: int, x: int, d: MoveDir) -> bool {
    let ty = y + dir_dy(d);
    let tx = x + dir_dx(d);
    &&& 0 <= ty < h
    &&& 0 <= tx < w
    &&& t[y * w + x] is Regular
    &&& t[ty * w + tx] is Empty
}

/// The tiles after attempting one shift at `(y, x)`: the regular tile
/// moves into the empty target, or nothing changes.
pub open spec fn shift_tiles(t: Seq<Tile>, h: int, w: int, y: int, x: int, d: MoveDir) -> Seq<
    Tile,
> {
    if can_shift(t, h, w, y, x, d) {
        let ty = y + dir_dy(d);
        let tx = x + dir_dx(d);
        t.update(ty * w + tx, t[y * w + x]).update(y * w + x, Tile::Empty)
    } else {
        t
    }
}

/// The moving animation recorded for a shift out of `(y, x)`, holding the
/// pre-shift tile snapshot.
pub open spec fn moving_anim(t: Seq<Tile>, w: int, y: int, x: int, d: MoveDir, now: u64) -> Animation {
    Animation::Moving {
        tile: t[y * w + x],
        from_y: y as usize,
        from_x: x as usize,
        direction: d,
        start_ms: now,
    }
}

/// The tiles after the first `k` cells of a move pass.
pub open spec fn pass_tiles(t0: Seq<Tile>, h: int, w: int, d: MoveDir, k: nat) -> Seq<Tile>
    decreases k,
{
    if k == 0 {
        t0
    } else {
        let t = pass_tiles(t0, h, w, d, (k - 1) as nat);
        shift_tiles(t, h, w, visit_y(d, h, w, k - 1), visit_x(d, h, w, k - 1), d)
    }
}

/// The animation list after the first `k` cells of a move pass: one
/// moving entry appended per shift, in visiting order.
pub open spec fn pass_anims(
    t0: Seq<Tile>,
    a0: Seq<Animation>,
    h: int,
    w: int,
    d: MoveDir,
    now: u64,
    k: nat,
) -> Seq<Animation>
    decreases k,
{
    if k == 0 {
        a0
    } else {
        let t = pass_tiles(t0, h, w, d, (k - 1) as nat);
        let a = pass_anims(t0, a0, h, w, d, now, (k - 1) as nat);
        let y = visit_y(d, h, w, k - 1);
        let x = visit_x(d, h, w, k - 1);
        if can_shift(t, h, w, y, x, d) {
            a.push(moving_anim(t, w, y, x, d, now))
        } else {
            a
        }
    }
}

/// A shift never writes a blocker cell, so a pass leaves every blocker
/// cell exactly as it was; the tile sequence keeps its length throughout.
pub proof fn lemma_pass_preserves_blockers(t0: Seq<Tile>, h: int, w: int, d: MoveDir, k: nat)
    requires
        t0.len() == h * w,
        0 <= h,
        0 <= w,
        k <= h * w,
    ensures
        pass_tiles(t0, h, w, d, k).len() == t0.len(),
        forall|i: int|
            0 <= i < t0.len() && t0[i] is Blocker ==> #[trigger] pass_tiles(t0, h, w, d, k)[i]
                == t0[i],
    decreases k,
{
    if k == 0 {
    } else {
        lemma_pass_preserves_blockers(t0, h, w, d, (k - 1) as nat);
        let t = pass_tiles(t0, h, w, d, (k - 1) as nat);
        let y = visit_y(d, h, w, k - 1);
        let x = visit_x(d, h, w, k - 1);
        if h > 0 && w > 0 {
            lemma_visit_in_bounds(d, h, w, k - 1);
            lemma_cell_index_bounds(h, w, y, x);
            if can_shift(t, h, w, y, x, d) {
                lemma_cell_index_bounds(h, w, y + dir_dy(d), x + dir_dx(d));
            }
        }
    }
}

/// How many animations a pass has recorded only grows with `k`.
proof fn lemma_pass_anims_grow(
    t0: Seq<Tile>,
    a0: Seq<Animation>,
    h: int,
    w: int,
    d: MoveDir,
    now: u64,
    k: nat,
)
    ensures
        a0.len() <= pass_anims(t0, a0, h, w, d, now, k).len(),
    decreases k,
{
    if k == 0 {
    } else {
        lemma_pass_anims_grow(t0, a0, h, w, d, now, (k - 1) as nat);
    }
}

/// A pass that recorded no animation shifted nothing: the tiles come out
/// exactly as they went in.
pub proof fn lemma_pass_no_move(
    t0: Seq<Tile>,
    a0: Seq<Animation>,
    h: int,
    w: int,
    d: MoveDir,
    now: u64,
    k: nat,
)
    requires
        pass_anims(t0, a0, h, w, d, now, k).len() == a0.len(),
    ensures
        pass_tiles(t0, h, w, d, k) == t0,
        pass_anims(t0, a0, h, w, d, now, k) == a0,
    decreases k,
{
    if k == 0 {
    } else {
        lemma_pass_anims_grow(t0, a0, h, w, d, now, (k - 1) as nat);
        lemma_pass_no_move(t0, a0, h, w, d, now, (k - 1) as nat);
    }
}

/// The clearing animation recorded for cell index `c`, holding the
/// pre-clear tile snapshot.
pub open spec fn clearing_anim(t: Seq<Tile>, w: int, c: int, now: u64) -> Animation {
    Animation::Clearing {
        tile: t[c],
        at_y: (c / w) as usize,
        at_x: (c % w) as usize,
        start_ms: now,
    }
}

/// The clearing pass converts cell `c`: it holds a regular tile whose
/// same-color component has at least four cells.
pub open spec fn cell_pops(t: Seq<Tile>, h: int, w: int, c: int) -> bool {
    t[c] is Regular && crate::connect::component_size(t, h, w, c) >= 4
}

/// The tiles after one clearing pass: popped cells become empty, every
/// other cell is untouched.
pub open spec fn popped_tiles(t: Seq<Tile>, h: int, w: int) -> Seq<Tile> {
    Seq::new(t.len(), |c: int| if cell_pops(t, h, w, c) { Tile::Empty } else { t[c] })
}

/// The clearing animations a pass records over its first `k` cells, in
/// row-major order: one entry per popped cell.
pub open spec fn clearing_anims(t: Seq<Tile>, h: int, w: int, now: u64, k: nat) -> Seq<Animation>
    decreases k,
{
    if k == 0 {
        Seq::empty()
    } else {
        let rest = clearing_anims(t, h, w, now, (k - 1) as nat);
        if cell_pops(t, h, w, k - 1) {
            rest.push(clearing_anim(t, w, k - 1, now))
        } else {
            rest
        }
    }
}

/// The animations still in flight at `now`, in their original order.
pub open spec fn drained(a: Seq<Animation>, now: u64) -> Seq<Animation>
    decreases a.len(),
{
    if a.len() == 0 {
        a
    } else {
        let rest = drained(a.drop_last(), now);
        if a.last().spec_is_active(now) {
            rest.push(a.last())
        } else {
            rest
        }
    }
}

/// The row-major index of an in-bounds cell is itself in bounds.
pub proof fn lemma_cell_index_bounds(h: int, w: int, y: int, x: int)
    requires
        0 <= y < h,
        0 <= x < w,
    ensures
        0 <= y * w + x < h * w,
{
    assert(y * w + x < h * w) by (nonlinear_arith)
        requires
            0 <= y < h,
            0 <= x < w,
    {}
}

/// A position below `d * lim` has quotient below `lim`.
proof fn lemma_div_bound(k: int, d: int, lim: int)
    requires
        0 < d,
        0 <= k < d * lim,
    ensures
        0 <= k / d < lim,
{
    vstd::arithmetic::div_mod::lemma_div_pos_is_pos(k, d);
    vstd::arithmetic::div_mod::lemma_multiply_divide_lt(k, d, lim);
}

/// Every visited cell of a pass lies inside the grid.
pub proof fn lemma_visit_in_bounds(d: MoveDir, h: int, w: int, k: int)
    requires
        0 < h,
        0 < w,
        0 <= k < h * w,
    ensures
        0 <= visit_y(d, h, w, k) < h,
        0 <= visit_x(d, h, w, k) < w,
{
    vstd::arithmetic::div_mod::lemma_mod_bound(k, h);
    vstd::arithmetic::div_mod::lemma_mod_bound(k, w);
    vstd::arithmetic::mul::lemma_mul_is_commutative(h, w);
    lemma_div_bound(k, h, w);
    lemma_div_bound(k, w, h);
}

impl Grid {
    /// Grid height: number of rows.
    pub closed spec fn h(self) -> nat {
        rows_of(self.tiles)
    }

    /// Grid width: number of columns.
    pub closed spec fn w(self) -> nat {
        cols_of(self.tiles)
    }

    /// The tiles, flattened row-major: cell `(y, x)` at index `y * w + x`.
    pub closed spec fn tiles_seq(self) -> Seq<Tile> {
        tiles_of(self.tiles)
    }

    /// The remaining move budget.
    pub closed spec fn spec_steps(self) -> nat {
        self.steps as nat
    }

    /// The in-flight animations, in insertion order.
    pub closed spec fn anims(self) -> Seq<Animation> {
        self.active_animations@
    }

    /// Whether a clearing pass is owed once the animations drain.
    pub closed spec fn spec_pending_pop(self) -> bool {
        self.pending_pop
    }

    /// The matrix shape is consistent and small enough to index: each
    /// axis and the cell count stay within `isize`.
    pub open spec fn wf(self) -> bool {
        &&& self.tiles_seq().len() == self.h() * self.w()
        &&& self.h() <= isize::MAX
        &&& self.w() <= isize::MAX
        &&& self.h() * self.w() <= isize::MAX
    }

    /// The tile at in-bounds cell `(y, x)`.
    pub open spec fn tile_at(self, y: int, x: int) -> Tile {
        self.tiles_seq()[y * self.w() + x]
    }

    /// A fresh grid of the given shape, all cells empty, no animations,
    /// no pending clear.
    pub fn new(length: usize, width: usize, steps: usize) -> (g: Grid)
        requires
            length <= isize::MAX,
            width <= isize::MAX,
            length * width <= isize::MAX,
        ensures
            g.wf(),
            g.h() == length,
            g.w() == width,
            g.spec_steps() == steps,
            forall|i: int| 0 <= i < length * width ==> g.tiles_seq()[i] == Tile::Empty,
            g.anims() =~= Seq::<Animation>::empty(),
            !g.spec_pending_pop(),
    {
        Grid {
            steps,
            tiles: matrix_from_elem(length, width, Tile::Empty),
            active_animations: Vec::new(),
            pending_pop: false,
        }
    }

    /// Assembles a grid around an existing tile matrix, idle and with no
    /// pending clear.
    pub(crate) fn from_parts(steps: usize, tiles: TileMatrix) -> (g: Grid)
        requires
            tiles_of(tiles).len() == rows_of(tiles) * cols_of(tiles),
            rows_of(tiles) <= isize::MAX,
            cols_of(tiles) <= isize::MAX,
            rows_of(tiles) * cols_of(tiles) <= isize::MAX,
        ensures
            g.wf(),
            g.h() == rows_of(tiles),
            g.w() == cols_of(tiles),
            g.tiles_seq() == tiles_of(tiles),
            g.spec_steps() == steps,
            g.anims() == Seq::<Animation>::empty(),
            !g.spec_pending_pop(),
    {
        Grid { steps, tiles, active_animations: Vec::new(), pending_pop: false }
    }

    pub fn get_height(&self) -> (r: usize)
        requires
            self.wf(),
        ensures
            r == self.h(),
    {
        crate::matrix::matrix_nrows(&self.tiles)
    }

    pub fn get_width(&self) -> (r: usize)
        requires
            self.wf(),
        ensures
            r == self.w(),
    {
        crate::matrix::matrix_ncols(&self.tiles)
    }

    /// The remaining move budget.
    pub fn get_steps(&self) -> (r: usize)
        ensures
            r == self.spec_steps(),
    {
        self.steps
    }

    /// The tile at `(y, x)`, or `None` outside the grid.
    pub fn get(&self, y: usize, x: usize) -> (r: Option<Tile>)
        requires
            self.wf(),
        ensures
            (y < self.h() && x < self.w()) ==> r == Some(self.tile_at(y as int, x as int)),
            !(y < self.h() && x < self.w()) ==> r is None,
    {
        matrix_get(&self.tiles, y, x)
    }

    /// Overwrites the tile at `(y, x)`; false if the cell is out of bounds.
    pub fn set(&mut self, y: usize, x: usize, tile: Tile) -> (r: bool)
        requires
            old(self).wf(),
        ensures
            final(self).wf(),
            r == (y < old(self).h() && x < old(self).w()),
            final(self).h() == old(self).h(),
            final(self).w() == old(self).w(),
            final(self).spec_steps() == old(self).spec_steps(),
            final(self).anims() == old(self).anims(),
            final(self).spec_pending_pop() == old(self).spec_pending_pop(),
            r ==> final(self).tiles_seq() == old(self).tiles_seq().update(
                y * old(self).w() + x,
                tile,
            ),
            !r ==> final(self).tiles_seq() == old(self).tiles_seq(),
    {
        let h = self.get_height();
        let w = self.get_width();
        if y < h && x < w {
            proof {
                lemma_cell_index_bounds(
                    old(self).h() as int,
                    old(self).w() as int,
                    y as int,
                    x as int,
                );
            }
            crate::matrix::matrix_set(&mut self.tiles, y, x, tile);
            true
        } else {
            false
        }
    }

    /// No animation is in flight: the grid is idle and may accept a move.
    pub fn is_anim_completed(&self) -> (r: bool)
        ensures
            r == (self.anims().len() == 0),
    {
        self.active_animations.len() == 0
    }

    /// A read-only copy of the in-flight animations, in insertion order.
    pub fn get_anims_slice(&self) -> (r: &Vec<Animation>)
        ensures
            r@ == self.anims(),
    {
        &self.active_animations
    }

    /// Attempts one shift at `(y, x)`: if the target neighbor along
    /// `direction` is in bounds and empty and the origin holds a regular
    /// tile, the two cells swap, a moving animation is recorded with the
    /// pre-shift snapshot, and the pending clear is flagged.
    fn move_tile(&mut self, y: usize, x: usize, direction: MoveDir, now_ms: u64) -> (r: bool)
        requires
            old(self).wf(),
            y < old(self).h(),
            x < old(self).w(),
        ensures
            final(self).wf(),
            final(self).h() == old(self).h(),
            final(self).w() == old(self).w(),
            final(self).spec_steps() == old(self).spec_steps(),
            r == can_shift(
                old(self).tiles_seq(),
                old(self).h() as int,
                old(self).w() as int,
                y as int,
                x as int,
                direction,
            ),
            final(self).tiles_seq() == shift_tiles(
                old(self).tiles_seq(),
                old(self).h() as int,
                old(self).w() as int,
                y as int,
                x as int,
                direction,
            ),
            final(self).anims() == (if r {
                old(self).anims().push(
                    moving_anim(
                        old(self).tiles_seq(),
                        old(self).w() as int,
                        y as int,
                        x as int,
                        direction,
                        now_ms,
                    ),
                )
            } else {
                old(self).anims()
            }),
            final(self).spec_pending_pop() == (old(self).spec_pending_pop() || r),
    {
        let h = self.get_height();
        let w = self.get_width();
        let mut in_bounds = true;
        let mut ty: usize = 0;
        let mut tx: usize = 0;
        match direction {
            MoveDir::Left => {
                if x == 0 {
                    in_bounds = false;
                } else {
                    ty = y;
                    tx = x - 1;
                }
            },
            MoveDir::Right => {
                if x + 1 >= w {
                    in_bounds = false;
                } else {
                    ty = y;
                    tx = x + 1;
                }
            },
            MoveDir::Up => {
                if y == 0 {
                    in_bounds = false;
                } else {
                    ty = y - 1;
                    tx = x;
                }
            },
            MoveDir::Down => {
                if y + 1 >= h {
                    in_bounds = false;
                } else {
                    ty = y + 1;
                    tx = x;
                }
            },
        }
        if !in_bounds {
            // the shift would leave the grid: hit the wall
            return false;
        }
        let from = self.get(y, x).unwrap();
        let to = self.get(ty, tx).unwrap();
        match (from, to) {
            (Tile::Regular(_), Tile::Empty) => {
                self.active_animations.push(
                    Animation::Moving { tile: from, from_y: y, from_x: x, direction, start_ms: now_ms },
                );
                proof {
                    lemma_cell_index_bounds(
                        old(self).h() as int,
                        old(self).w() as int,
                        y as int,
                        x as int,
                    );
                    lemma_cell_index_bounds(
                        old(self).h() as int,
                        old(self).w() as int,
                        ty as int,
                        tx as int,
                    );
                }
                crate::matrix::matrix_swap(&mut self.tiles, ty, tx, y, x);
                self.pending_pop = true;
                true
            },
            _ => false,
        }
    }

    /// One player input: every cell is visited once in the per-direction
    /// order, each attempting a one-step shift, so a chain of adjacent
    /// tiles can cascade within a single call. Returns true iff at least
    /// one tile shifted; one successful input costs exactly one step of
    /// the budget, and an input with no budget left is a no-op.
    pub fn move_grid(&mut self, direction: MoveDir, now_ms: u64) -> (moved: bool)
        requires
            old(self).wf(),
        ensures
            final(self).wf(),
            final(self).h() == old(self).h(),
            final(self).w() == old(self).w(),
            moved ==> final(self).spec_steps() + 1 == old(self).spec_steps(),
            !moved ==> final(self).spec_steps() == old(self).spec_steps(),
            old(self).spec_steps() == 0 ==> (!moved
                && final(self).tiles_seq() == old(self).tiles_seq()
                && final(self).anims() == old(self).anims()
                && final(self).spec_pending_pop() == old(self).spec_pending_pop()),
            old(self).spec_steps() > 0 ==> ({
                let hh = old(self).h() as int;
                let ww = old(self).w() as int;
                &&& final(self).tiles_seq() == pass_tiles(
                    old(self).tiles_seq(),
                    hh,
                    ww,
                    direction,
                    (hh * ww) as nat,
                )
                &&& final(self).anims() == pass_anims(
                    old(self).tiles_seq(),
                    old(self).anims(),
                    hh,
                    ww,
                    direction,
                    now_ms,
                    (hh * ww) as nat,
                )
                &&& moved == (final(self).anims().len() > old(self).anims().len())
                &&& (moved ==> final(self).spec_pending_pop())
                &&& (!moved ==> (final(self).tiles_seq() == old(self).tiles_seq()
                    && final(self).anims() == old(self).anims()
                    && final(self).spec_pending_pop() == old(self).spec_pending_pop()))
            }),
            forall|i: int|
                0 <= i < old(self).tiles_seq().len() && old(self).tiles_seq()[i] is Blocker
                    ==> #[trigger] final(self).tiles_seq()[i] == old(self).tiles_seq()[i],
    {
        if self.steps == 0 {
            return false;
        }
        let h = self.get_height();
        let w = self.get_width();
        let total = h * w;
        let ghost t0 = old(self).tiles_seq();
        let ghost a0 = old(self).anims();
        let mut moved = false;
        let mut k: usize = 0;
        while k < total
            invariant
                self.wf(),
                self.h() == old(self).h(),
                self.w() == old(self).w(),
                h == self.h(),
                w == self.w(),
                total == h * w,
                k <= total,
                t0 == old(self).tiles_seq(),
                a0 == old(self).anims(),
                self.spec_steps() == old(self).spec_steps(),
                self.tiles_seq() == pass_tiles(t0, h as int, w as int, direction, k as nat),
                self.anims() == pass_anims(
                    t0,
                    a0,
                    h as int,
                    w as int,
                    direction,
                    now_ms,
                    k as nat,
                ),
                moved == (self.anims().len() > a0.len()),
                self.spec_pending_pop() == (old(self).spec_pending_pop() || moved),
            decreases total - k,
        {
            proof {
                vstd::arithmetic::div_mod::lemma_mod_bound(k as int, h as int);
                vstd::arithmetic::div_mod::lemma_mod_bound(k as int, w as int);
                lemma_div_bound(k as int, h as int, w as int);
                lemma_div_bound(k as int, w as int, h as int);
                lemma_pass_anims_grow(t0, a0, h as int, w as int, direction, now_ms, k as nat);
            }
            let (y, x): (usize, usize) = match direction {
                MoveDir::Left => (k % h, k / h),
                MoveDir::Right => (k % h, w - 1 - k / h),
                MoveDir::Up => (k / w, k % w),
                MoveDir::Down => (h - 1 - k / w, k % w),
            };
            proof {
                assert(y as int == visit_y(direction, h as int, w as int, k as int));
                assert(x as int == visit_x(direction, h as int, w as int, k as int));
            }
            let shifted = self.move_tile(y, x, direction, now_ms);
            proof {
                let k1 = (k + 1) as nat;
                assert(pass_tiles(t0, h as int, w as int, direction, k1) == shift_tiles(
                    pass_tiles(t0, h as int, w as int, direction, (k1 - 1) as nat),
                    h as int,
                    w as int,
                    visit_y(direction, h as int, w as int, k1 - 1),
                    visit_x(direction, h as int, w as int, k1 - 1),
                    direction,
                ));
            }
            moved = moved || shifted;
            k = k + 1;
        }
        if moved {
            self.steps = self.steps - 1;
            proof {
                lemma_pass_preserves_blockers(
                    t0,
                    h as int,
                    w as int,
                    direction,
                    (h * w) as nat,
                );
            }
            true
        } else {
            proof {
                lemma_pass_anims_grow(
                    t0,
                    a0,
                    h as int,
                    w as int,
                    direction,
                    now_ms,
                    (h * w) as nat,
                );
                lemma_pass_no_move(
                    t0,
                    a0,
                    h as int,
                    w as int,
                    direction,
                    now_ms,
                    (h * w) as nat,
                );
            }
            false
        }
    }

    /// The connectivity and clearing pass. Every same-color 4-connected
    /// component of regular tiles is sized with a union-find pass over
    /// right and down neighbors (left and up follow transitively); each
    /// cell of a component of four or more becomes empty, recording a
    /// clearing animation with the pre-clear snapshot, in row-major order.
    fn pop_connected_tiles(&mut self, now_ms: u64)
        requires
            old(self).wf(),
        ensures
            final(self).wf(),
            final(self).h() == old(self).h(),
            final(self).w() == old(self).w(),
            final(self).spec_steps() == old(self).spec_steps(),
            final(self).spec_pending_pop() == old(self).spec_pending_pop(),
            final(self).tiles_seq() == popped_tiles(
                old(self).tiles_seq(),
                old(self).h() as int,
                old(self).w() as int,
            ),
            final(self).anims() == old(self).anims() + clearing_anims(
                old(self).tiles_seq(),
                old(self).h() as int,
                old(self).w() as int,
                now_ms,
                (old(self).h() * old(self).w()) as nat,
            ),
    {
        let h = self.get_height();
        let w = self.get_width();
        let total = h * w;
        let ghost t = self.tiles_seq();
        let ghost hh = h as int;
        let ghost ww = w as int;
        let mut uf = UnionFind::new(total);
        proof {
            assert forall|i: int, j: int|
                0 <= i < total && 0 <= j < total && #[trigger] uf.same(i, j) implies reach(
                t,
                hh,
                ww,
                i,
                j,
            ) by {
                crate::connect::lemma_reach_refl(t, hh, ww, i);
            }
        }
        let mut c: usize = 0;
        while c < total
            invariant
                self.wf(),
                *self == *old(self),
                t == self.tiles_seq(),
                h == self.h(),
                w == self.w(),
                hh == h as int,
                ww == w as int,
                total == h * w,
                c <= total,
                uf.wf(),
                uf.n() == total,
                forall|i: int, j: int|
                    0 <= i < total && 0 <= j < total && #[trigger] uf.same(i, j) ==> reach(
                        t,
                        hh,
                        ww,
                        i,
                        j,
                    ),
                forall|a: int|
                    0 <= a < c && #[trigger] adj(t, hh, ww, a, a + 1) ==> uf.same(a, a + 1),
                forall|a: int|
                    0 <= a < c && #[trigger] adj(t, hh, ww, a, a + ww) ==> uf.same(a, a + ww),
            decreases total - c,
        {
            proof {
                vstd::arithmetic::div_mod::lemma_mod_bound(c as int, ww);
                vstd::arithmetic::mul::lemma_mul_is_commutative(hh, ww);
                lemma_div_bound(c as int, ww, hh);
            }
            let y = c / w;
            let x = c % w;
            proof {
                vstd::arithmetic::div_mod::lemma_fundamental_div_mod(c as int, ww);
                vstd::arithmetic::mul::lemma_mul_is_commutative(ww, y as int);
                assert(c as int == (y as int) * ww + x as int);
                lemma_cell_index_bounds(hh, ww, y as int, x as int);
            }
            let here = self.get(y, x).unwrap();
            if here.is_regular() {
                if x + 1 < w {
                    let right = self.get(y, x + 1).unwrap();
                    let ghost prev = uf;
                    let mut do_union = false;
                    match (here, right) {
                        (Tile::Regular(ca), Tile::Regular(cb)) => {
                            if ca == cb {
                                do_union = true;
                            }
                        },
                        _ => {},
                    }
                    if do_union {
                        proof {
                            lemma_cell_index_bounds(hh, ww, y as int, x as int + 1);
                            assert(c as int + 1 == (y as int) * ww + (x as int + 1));
                            assert(adj(t, hh, ww, c as int, c as int + 1));
                        }
                        uf.union(c, c + 1);
                        proof {
                            lemma_union_extends_reach(prev, uf, t, hh, ww, c as int, c as int + 1);
                        }
                    }
                }
                if y + 1 < h {
                    let down = self.get(y + 1, x).unwrap();
                    let ghost prev = uf;
                    let mut do_union = false;
                    match (here, down) {
                        (Tile::Regular(ca), Tile::Regular(cb)) => {
                            if ca == cb {
                                do_union = true;
                            }
                        },
                        _ => {},
                    }
                    if do_union {
                        proof {
                            lemma_cell_index_bounds(hh, ww, y as int + 1, x as int);
                            assert((y as int + 1) * ww == (y as int) * ww + ww) by (nonlinear_arith);
                            assert(c as int + ww == (y as int + 1) * ww + x as int);
                            assert(adj(t, hh, ww, c as int, c as int + ww));
                        }
                        uf.union(c, c + w);
                        proof {
                            lemma_union_extends_reach(prev, uf, t, hh, ww, c as int, c as int + ww);
                        }
                    }
                }
            }
            proof {
                assert((y as int + 1) * ww == (y as int) * ww + ww) by (nonlinear_arith);
                assert forall|a: int|
                    0 <= a < c + 1 && #[trigger] adj(t, hh, ww, a, a + 1) implies uf.same(
                    a,
                    a + 1,
                ) by {
                    if a == c {
                        if ww == 1 {
                            // with one column the right neighbor is the cell below
                            assert(a + 1 == a + ww);
                            if y as int + 1 >= hh {
                                vstd::arithmetic::mul::lemma_mul_inequality(
                                    hh,
                                    y as int + 1,
                                    ww,
                                );
                                assert(false);
                            }
                            assert(c as int + ww == (y as int + 1) * ww + x as int);
                        } else {
                            assert(x as int != ww - 1);
                            assert(c as int + 1 == (y as int) * ww + (x as int + 1));
                        }
                    }
                }
                assert forall|a: int|
                    0 <= a < c + 1 && #[trigger] adj(t, hh, ww, a, a + ww) implies uf.same(
                    a,
                    a + ww,
                ) by {
                    if a == c {
                        if y as int + 1 >= hh {
                            vstd::arithmetic::mul::lemma_mul_inequality(hh, y as int + 1, ww);
                            assert(false);
                        }
                        assert(c as int + ww == (y as int + 1) * ww + x as int);
                    }
                }
            }
            c = c + 1;
        }
        proof {
            assert forall|p: int, q: int| adj(t, hh, ww, p, q) implies uf.same(p, q) by {
                if q == p + 1 && p % ww != ww - 1 {
                    assert(adj(t, hh, ww, p, p + 1));
                } else if q == p - 1 && q % ww != ww - 1 {
                    lemma_adj_sym(t, hh, ww, p, q);
                    assert(adj(t, hh, ww, q, q + 1));
                } else if q == p + ww {
                    assert(adj(t, hh, ww, p, p + ww));
                } else {
                    lemma_adj_sym(t, hh, ww, p, q);
                    assert(adj(t, hh, ww, q, q + ww));
                }
            }
        }
        // convert every cell of a large enough component, recording its
        // clearing animation
        let ghost a0 = self.anims();
        let mut c: usize = 0;
        while c < total
            invariant
                self.wf(),
                t == old(self).tiles_seq(),
                a0 == old(self).anims(),
                self.h() == old(self).h(),
                self.w() == old(self).w(),
                self.spec_steps() == old(self).spec_steps(),
                self.spec_pending_pop() == old(self).spec_pending_pop(),
                h == self.h(),
                w == self.w(),
                hh == h as int,
                ww == w as int,
                total == h * w,
                c <= total,
                uf.wf(),
                uf.n() == total,
                forall|i: int, j: int|
                    0 <= i < total && 0 <= j < total && #[trigger] uf.same(i, j) ==> reach(
                        t,
                        hh,
                        ww,
                        i,
                        j,
                    ),
                forall|p: int, q: int| adj(t, hh, ww, p, q) ==> #[trigger] uf.same(p, q),
                forall|i: int|
                    0 <= i < c ==> #[trigger] self.tiles_seq()[i] == (if cell_pops(t, hh, ww, i) {
                        Tile::Empty
                    } else {
                        t[i]
                    }),
                forall|i: int| c <= i < total ==> #[trigger] self.tiles_seq()[i] == t[i],
                self.anims() == a0 + clearing_anims(t, hh, ww, now_ms, c as nat),
            decreases total - c,
        {
            proof {
                vstd::arithmetic::div_mod::lemma_mod_bound(c as int, ww);
                vstd::arithmetic::mul::lemma_mul_is_commutative(hh, ww);
                lemma_div_bound(c as int, ww, hh);
            }
            let y = c / w;
            let x = c % w;
            proof {
                vstd::arithmetic::div_mod::lemma_fundamental_div_mod(c as int, ww);
                vstd::arithmetic::mul::lemma_mul_is_commutative(ww, y as int);
                assert(c as int == (y as int) * ww + x as int);
                lemma_cell_index_bounds(hh, ww, y as int, x as int);
            }
            let here = self.get(y, x).unwrap();
            if here.is_regular() {
                let size = uf.size_of(c);
                proof {
                    lemma_component_is_class(uf, t, hh, ww, c as int);
                }
                if size >= 4 {
                    self.active_animations.push(
                        Animation::Clearing { tile: here, at_y: y, at_x: x, start_ms: now_ms },
                    );
                    crate::matrix::matrix_set(&mut self.tiles, y, x, Tile::Empty);
                    proof {
                        assert(cell_pops(t, hh, ww, c as int));
                        assert(a0 + clearing_anims(t, hh, ww, now_ms, c as nat).push(
                            clearing_anim(t, ww, c as int, now_ms),
                        ) =~= (a0 + clearing_anims(t, hh, ww, now_ms, c as nat)).push(
                            clearing_anim(t, ww, c as int, now_ms),
                        ));
                        assert(clearing_anims(t, hh, ww, now_ms, (c + 1) as nat)
                            == clearing_anims(t, hh, ww, now_ms, c as nat).push(
                            clearing_anim(t, ww, c as int, now_ms),
                        ));
                    }
                } else {
                    proof {
                        assert(!cell_pops(t, hh, ww, c as int));
                        assert(clearing_anims(t, hh, ww, now_ms, (c + 1) as nat)
                            == clearing_anims(t, hh, ww, now_ms, c as nat));
                    }
                }
            } else {
                proof {
                    assert(!cell_pops(t, hh, ww, c as int));
                    assert(clearing_anims(t, hh, ww, now_ms, (c + 1) as nat) == clearing_anims(
                        t,
                        hh,
                        ww,
                        now_ms,
                        c as nat,
                    ));
                }
            }
            c = c + 1;
        }
        proof {
            assert(self.tiles_seq() =~= popped_tiles(t, hh, ww));
            assert(self.anims() == a0 + clearing_anims(t, hh, ww, now_ms, total as nat));
        }
    }

    /// One external tick. Expired animations are dropped; once the list
    /// is empty and a clear is pending, the pending flag falls and the
    /// clearing pass runs, which may enqueue clearing animations.
    pub fn update_anim_state(&mut self, now_ms: u64)
        requires
            old(self).wf(),
        ensures
            final(self).wf(),
            final(self).h() == old(self).h(),
            final(self).w() == old(self).w(),
            final(self).spec_steps() == old(self).spec_steps(),
            ({
                let kept = drained(old(self).anims(), now_ms);
                if kept.len() == 0 && old(self).spec_pending_pop() {
                    &&& !final(self).spec_pending_pop()
                    &&& final(self).tiles_seq() == popped_tiles(
                        old(self).tiles_seq(),
                        old(self).h() as int,
                        old(self).w() as int,
                    )
                    &&& final(self).anims() == clearing_anims(
                        old(self).tiles_seq(),
                        old(self).h() as int,
                        old(self).w() as int,
                        now_ms,
                        (old(self).h() * old(self).w()) as nat,
                    )
                } else {
                    &&& final(self).spec_pending_pop() == old(self).spec_pending_pop()
                    &&& final(self).tiles_seq() == old(self).tiles_seq()
                    &&& final(self).anims() == kept
                }
            }),
    {
        let n = self.active_animations.len();
        let mut kept: Vec<Animation> = Vec::new();
        let mut i: usize = 0;
        while i < n
            invariant
                *self == *old(self),
                n == self.anims().len(),
                i <= n,
                kept@ == drained(self.anims().take(i as int), now_ms),
            decreases n - i,
        {
            let a = self.active_animations[i];
            proof {
                assert(self.anims().take(i as int + 1).drop_last() =~= self.anims().take(
                    i as int,
                ));
                assert(self.anims().take(i as int + 1).last() == self.anims()[i as int]);
            }
            if a.is_active(now_ms) {
                kept.push(a);
            }
            i = i + 1;
        }
        proof {
            assert(self.anims().take(n as int) =~= self.anims());
        }
        self.active_animations = kept;
        if self.pending_pop && self.active_animations.len() == 0 {
            self.pending_pop = false;
            self.pop_connected_tiles(now_ms);
        }
    }
}

/// Merging the classes of one adjacent pair keeps every class inside a
/// same-color component.
proof fn lemma_union_extends_reach(
    prev: UnionFind,
    uf: UnionFind,
    t: Seq<Tile>,
    h: int,
    w: int,
    a: int,
    b: int,
)
    requires
        prev.n() == h * w,
        uf.n() == h * w,
        0 <= a < h * w,
        0 <= b < h * w,
        adj(t, h, w, a, b),
        forall|i: int, j: int|
            0 <= i < h * w && 0 <= j < h * w && #[trigger] prev.same(i, j) ==> reach(t, h, w, i, j),
        forall|i: int, j: int|
            0 <= i < h * w && 0 <= j < h * w ==> (#[trigger] uf.same(i, j) <==> (prev.same(i, j)
                || (prev.same(i, a) && prev.same(j, b)) || (prev.same(i, b) && prev.same(j, a)))),
    ensures
        forall|i: int, j: int|
            0 <= i < h * w && 0 <= j < h * w && #[trigger] uf.same(i, j) ==> reach(t, h, w, i, j),
{
    assert forall|i: int, j: int|
        0 <= i < h * w && 0 <= j < h * w && #[trigger] uf.same(i, j) implies reach(
        t,
        h,
        w,
        i,
        j,
    ) by {
        lemma_reach_step(t, h, w, a, b);
        if prev.same(i, j) {
        } else if prev.same(i, a) && prev.same(j, b) {
            lemma_reach_trans(t, h, w, i, a, b);
            lemma_reach_sym(t, h, w, j, b);
            lemma_reach_trans(t, h, w, i, b, j);
        } else {
            lemma_adj_sym(t, h, w, a, b);
            lemma_reach_step(t, h, w, b, a);
            lemma_reach_trans(t, h, w, i, b, a);
            lemma_reach_sym(t, h, w, j, a);
            lemma_reach_trans(t, h, w, i, a, j);
        }
    }
}

} // verus!

//! The possibility grid and the collapse-and-propagate solver that drives it.
use vstd::prelude::*;
use crate::chance::pick;
use crate::field::{CountField, FlagField, counts_of, flags_of};
use crate::color::WfcColor;
use crate::error::ConfigError;
use crate::grid::{
    at_fixpoint,
    before,
    beside,
    border_ok,
    completable,
    consistent,
    count_true,
    fits_grid,
    grid_total,
    holds_some,
    initial_grid,
    keeps_choices,
    lemma_count_true_prefix,
    lemma_count_true_shrinks,
    lemma_count_true_two,
    lemma_count_true_witness,
    lemma_grid_total_mono,
    lemma_grid_total_shrinks,
    lemma_keeps_nonempty,
    lemma_keeps_refl,
    lemma_keeps_step,
    lemma_none_count,
    lemma_permissive_fixpoint,
    lemma_revise_settles,
    lemma_revised_frame,
    lemma_single_count,
    near,
    only,
    permissive,
    revised,
    settled,
    shaped,
    support,
    supported,
    push_absent,
    push_beside,
    start_list,
    step_result,
    untouched,
    within,
    worklist,
    stable_part,
    keeps_stable,
    lemma_keeps_stable_refl,
    lemma_keeps_stable_step,
    lemma_keeps_stable_nonempty,
};
use crate::sample::Sample;
use crate::tileset::{opposite, TILE_SIZE, block, blocks, blocks_across, first_seen, sample_admits, Adjacent, Direction, Tile, Tileset};

verus! {

/// Where a run stands.
#[derive(Clone, Copy, PartialEq, Eq, Structural, Debug)]
pub enum RunState {
    /// Some cell still holds more than one possibility.
    Running,
    /// Every cell holds exactly one possibility.
    Done,
    /// Some cell lost its last possibility.
    Contradiction,
}

/// What a successful step did.
#[derive(Clone, Copy, PartialEq, Eq, Structural, Debug)]
pub enum Step {
    /// A cell was fixed and its consequences propagated.
    Progress,
    /// Nothing was left to fix.
    Done,
}

/// A cell whose possibilities all ran out; the grid cannot be completed.
#[derive(Clone, Copy, PartialEq, Eq, Structural, Debug)]
pub struct ContradictionError {
    pub x: usize,
    pub y: usize,
}

/// A rectangular grid of cells over a tile set: per cell, which tiles are
/// still possible and how many.
pub struct WaveFunction {
    state: RunState,
    tileset: Tileset,
    entropy_field: CountField,
    wave_field: FlagField,
    shape: [usize; 2],
    conflict: (usize, usize),
}

impl WaveFunction {
    pub closed spec fn width(&self) -> nat {
        self.shape[0] as nat
    }

    pub closed spec fn height(&self) -> nat {
        self.shape[1] as nat
    }

    pub closed spec fn model(&self) -> Tileset {
        self.tileset
    }

    pub open spec fn tiles(&self) -> Seq<Tile> {
        self.model().tiles()
    }

    /// Which tiles are still possible, as `[x][y][tile]`.
    pub closed spec fn wave(&self) -> Seq<Seq<Seq<bool>>> {
        flags_of(self.wave_field)
    }

    /// The number of possible tiles per cell, as `[x][y]`.
    pub closed spec fn entropy(&self) -> Seq<Seq<usize>> {
        counts_of(self.entropy_field)
    }

    pub closed spec fn run_state(&self) -> RunState {
        self.state
    }

    /// The cell that ran out of tiles, once the run has failed.
    pub closed spec fn conflict_cell(&self) -> (usize, usize) {
        self.conflict
    }

    pub open spec fn in_grid(&self, x: int, y: int) -> bool {
        0 <= x < self.width() && 0 <= y < self.height()
    }

    /// The fields have the grid's shape and the tile set is well formed.
    pub open spec fn shape_ok(&self) -> bool {
        &&& self.width() >= 1
        &&& self.height() >= 1
        &&& self.model().wf()
        &&& self.width() * self.height() * self.tiles().len() <= isize::MAX
        &&& shaped(self.wave(), self.width(), self.height(), self.tiles().len())
        &&& self.entropy().len() == self.width()
        &&& forall|x: int| 0 <= x < self.width() ==> (#[trigger] self.entropy()[x]).len() == self.height()
    }

    /// Each cell's count equals the number of its possible tiles.
    pub open spec fn in_sync(&self) -> bool {
        forall|x: int, y: int|
            self.in_grid(x, y) ==> #[trigger] self.entropy()[x][y] == count_true(self.wave()[x][y])
    }

    /// No tile is possible where the grid's edges forbid it.
    pub open spec fn borders_kept(&self) -> bool {
        forall|x: int, y: int, t: int|
            self.in_grid(x, y) && 0 <= t < self.tiles().len() && #[trigger] self.wave()[x][y][t]
                ==> border_ok(self.tiles(), self.width(), self.height(), x, y, t)
    }

    /// The run state agrees with the counts.
    pub open spec fn state_ok(&self) -> bool {
        &&& self.run_state() == RunState::Running ==> forall|x: int, y: int|
            self.in_grid(x, y) ==> #[trigger] self.entropy()[x][y] >= 1
        &&& self.run_state() == RunState::Done ==> forall|x: int, y: int|
            self.in_grid(x, y) ==> #[trigger] self.entropy()[x][y] == 1
        &&& self.run_state() == RunState::Contradiction ==> self.in_grid(
            self.conflict_cell().0 as int,
            self.conflict_cell().1 as int,
        ) && self.entropy()[self.conflict_cell().0 as int][self.conflict_cell().1 as int] == 0
    }

    pub open spec fn wf(&self) -> bool {
        &&& self.shape_ok()
        &&& self.in_sync()
        &&& self.borders_kept()
        &&& self.state_ok()
    }

    /// For every tile, whether some tile possible at `(nx, ny)` admits it on
    /// side `back`.
    fn support_from(&self, nx: usize, ny: usize, back: Direction) -> (r: Vec<bool>)
        requires
            self.shape_ok(),
            self.in_grid(nx as int, ny as int),
        ensures
            r@.len() == self.tiles().len(),
            forall|t: int|
                0 <= t < self.tiles().len() ==> #[trigger] r@[t] == support(
                    self.tiles(),
                    self.wave(),
                    nx as int,
                    ny as int,
                    back,
                    t,
                ),
    {
        let n = self.tileset.len();
        let ghost tiles = self.tiles();
        let ghost g = self.wave();
        let mut r: Vec<bool> = Vec::new();
        let mut i: usize = 0;
        while i < n
            invariant
                i <= n,
                r@.len() == i,
                forall|t: int| 0 <= t < i ==> !r@[t],
            decreases n - i,
        {
            r.push(false);
            i += 1;
        }
        let mut u: usize = 0;
        while u < n
            invariant
                self.shape_ok(),
                self.in_grid(nx as int, ny as int),
                tiles == self.tiles(),
                g == self.wave(),
                n == tiles.len(),
                u <= n,
                r@.len() == n,
                forall|t: int|
                    0 <= t < n ==> (#[trigger] r@[t] <==> exists|v: int|
                        0 <= v < u && #[trigger] g[nx as int][ny as int][v] && tiles[v].allows(
                            back,
                            Adjacent::Tile(t as usize),
                        )),
            decreases n - u,
        {
            if self.wave_field.get(nx, ny, u) {
                let list = self.tileset.tile(u).allowed(back);
                let mut j: usize = 0;
                while j < list.len()
                    invariant
                        self.shape_ok(),
                        tiles == self.tiles(),
                        g == self.wave(),
                        n == tiles.len(),
                        u < n,
                        g[nx as int][ny as int][u as int],
                        list@ == tiles[u as int].allowed_on(back),
                        j <= list.len(),
                        r@.len() == n,
                        forall|t: int|
                            0 <= t < n ==> (#[trigger] r@[t] <==> (exists|v: int|
                                0 <= v < u && #[trigger] g[nx as int][ny as int][v] && tiles[v].allows(
                                    back,
                                    Adjacent::Tile(t as usize),
                                )) || exists|k: int| 0 <= k < j && list@[k] == Adjacent::Tile(t as usize)),
                    decreases list.len() - j,
                {
                    match list[j] {
                        Adjacent::Tile(k) => {
                            proof {
                                assert(tiles[u as int].allows(back, Adjacent::Tile(k)));
                            }
                            r.set(k, true);
                            proof {
                                assert forall|t: int| 0 <= t < n implies (#[trigger] r@[t] <==> (exists|v: int|
                                    0 <= v < u && #[trigger] g[nx as int][ny as int][v] && tiles[v].allows(
                                        back,
                                        Adjacent::Tile(t as usize),
                                    )) || exists|k2: int| 0 <= k2 < j + 1 && list@[k2] == Adjacent::Tile(t as usize)) by {
                                    if t == k as int {
                                        assert(list@[j as int] == Adjacent::Tile(t as usize));
                                    }
                                    if exists|k2: int| 0 <= k2 < j + 1 && list@[k2] == Adjacent::Tile(t as usize) {
                                        let k2 = choose|k2: int| 0 <= k2 < j + 1 && list@[k2] == Adjacent::Tile(t as usize);
                                        if k2 < j {
                                        } else {
                                            assert(t == k as int);
                                        }
                                    }
                                }
                            }
                        },
                        Adjacent::Border => {
                            proof {
                                assert forall|t: int| 0 <= t < n implies (#[trigger] r@[t] <==> (exists|v: int|
                                    0 <= v < u && #[trigger] g[nx as int][ny as int][v] && tiles[v].allows(
                                        back,
                                        Adjacent::Tile(t as usize),
                                    )) || exists|k2: int| 0 <= k2 < j + 1 && list@[k2] == Adjacent::Tile(t as usize)) by {
                                    if exists|k2: int| 0 <= k2 < j + 1 && list@[k2] == Adjacent::Tile(t as usize) {
                                        let k2 = choose|k2: int| 0 <= k2 < j + 1 && list@[k2] == Adjacent::Tile(t as usize);
                                        assert(k2 < j);
                                    }
                                }
                            }
                        },
                    }
                    j += 1;
                }
                proof {
                    assert forall|t: int| 0 <= t < n implies (#[trigger] r@[t] <==> exists|v: int|
                        0 <= v < u + 1 && #[trigger] g[nx as int][ny as int][v] && tiles[v].allows(
                            back,
                            Adjacent::Tile(t as usize),
                        )) by {
                        if tiles[u as int].allows(back, Adjacent::Tile(t as usize)) {
                            let k = choose|k: int| 0 <= k < list@.len() && list@[k] == Adjacent::Tile(t as usize);
                            assert(r@[t]);
                        }
                        if exists|k: int| 0 <= k < list@.len() && list@[k] == Adjacent::Tile(t as usize) {
                            assert(list@.contains(Adjacent::Tile(t as usize)));
                        }
                    }
                }
            }
            u += 1;
        }
        r
    }

    /// The flags of cell `(x, y)` once every tile that some neighbour no
    /// longer admits is removed.
    fn revise(&self, x: usize, y: usize) -> (r: Vec<bool>)
        requires
            self.shape_ok(),
            self.in_grid(x as int, y as int),
        ensures
            r@ == revised(self.tiles(), self.width(), self.height(), self.wave(), x as int, y as int),
    {
        let ghost tiles = self.tiles();
        let ghost g = self.wave();
        let ghost (w, h) = (self.width(), self.height());
        let n = self.tileset.len();
        let mut cell: Vec<bool> = Vec::new();
        let mut t: usize = 0;
        while t < n
            invariant
                self.shape_ok(),
                self.in_grid(x as int, y as int),
                g == self.wave(),
                n == tiles.len(),
                tiles == self.tiles(),
                t <= n,
                cell@.len() == t,
                forall|i: int| 0 <= i < t ==> cell@[i] == g[x as int][y as int][i],
            decreases n - t,
        {
            cell.push(self.wave_field.get(x, y, t));
            t += 1;
        }
        if x > 0 {
            let s = self.support_from(x - 1, y, Direction::Right);
            and_into(&mut cell, &s);
        }
        if x + 1 < self.shape[0] {
            let s = self.support_from(x + 1, y, Direction::Left);
            and_into(&mut cell, &s);
        }
        if y > 0 {
            let s = self.support_from(x, y - 1, Direction::Down);
            and_into(&mut cell, &s);
        }
        if y + 1 < self.shape[1] {
            let s = self.support_from(x, y + 1, Direction::Up);
            and_into(&mut cell, &s);
        }
        assert(cell@ =~= revised(tiles, w, h, g, x as int, y as int));
        cell
    }

    /// Whether `cell` differs from the flags of cell `(x, y)`.
    fn differs(&self, x: usize, y: usize, cell: &Vec<bool>) -> (r: bool)
        requires
            self.shape_ok(),
            self.in_grid(x as int, y as int),
            cell@.len() == self.tiles().len(),
        ensures
            r == (cell@ != self.wave()[x as int][y as int]),
    {
        let n = self.tileset.len();
        let mut t: usize = 0;
        while t < n
            invariant
                self.shape_ok(),
                self.in_grid(x as int, y as int),
                n == self.tiles().len(),
                cell@.len() == n,
                t <= n,
                forall|i: int| 0 <= i < t ==> cell@[i] == self.wave()[x as int][y as int][i],
            decreases n - t,
        {
            if self.wave_field.get(x, y, t) != cell[t] {
                return true;
            }
            t += 1;
        }
        assert(cell@ =~= self.wave()[x as int][y as int]);
        false
    }

    /// Replaces the flags of cell `(x, y)` by `cell` and its count by theirs;
    /// returns that count.
    fn write_cell(&mut self, x: usize, y: usize, cell: &Vec<bool>) -> (count: usize)
        requires
            old(self).shape_ok(),
            old(self).in_grid(x as int, y as int),
            cell@.len() == old(self).tiles().len(),
        ensures
            count == count_true(cell@),
            final(self).wave() == old(self).wave().update(
                x as int,
                old(self).wave()[x as int].update(y as int, cell@),
            ),
            final(self).entropy() == old(self).entropy().update(
                x as int,
                old(self).entropy()[x as int].update(y as int, count),
            ),
            final(self).model() == old(self).model(),
            final(self).width() == old(self).width(),
            final(self).height() == old(self).height(),
            final(self).run_state() == old(self).run_state(),
            final(self).conflict_cell() == old(self).conflict_cell(),
    {
        let ghost g0 = self.wave();
        let n = self.tileset.len();
        let ghost mut part: Seq<bool> = g0[x as int][y as int];
        let mut count: usize = 0;
        let mut t: usize = 0;
        proof {
            assert(g0[x as int].update(y as int, part) =~= g0[x as int]);
            assert(g0.update(x as int, g0[x as int]) =~= g0);
        }
        while t < n
            invariant
                self.shape[0] == old(self).shape[0],
                self.shape[1] == old(self).shape[1],
                self.tileset == old(self).tileset,
                self.state == old(self).state,
                self.conflict == old(self).conflict,
                self.entropy_field == old(self).entropy_field,
                old(self).shape_ok(),
                old(self).in_grid(x as int, y as int),
                g0 == old(self).wave(),
                n == old(self).tiles().len(),
                cell@.len() == n,
                t <= n,
                part.len() == n,
                forall|i: int| 0 <= i < t ==> part[i] == cell@[i],
                forall|i: int| t <= i < n ==> part[i] == g0[x as int][y as int][i],
                self.wave() == g0.update(x as int, g0[x as int].update(y as int, part)),
                count == count_true(cell@.take(t as int)),
                count <= t,
            decreases n - t,
        {
            self.wave_field.set(x, y, t, cell[t]);
            proof {
                lemma_count_true_prefix(cell@, t as int);
                let part0 = part;
                part = part.update(t as int, cell@[t as int]);
                assert(g0[x as int].update(y as int, part0).update(y as int, part) =~= g0[x as int].update(
                    y as int,
                    part,
                ));
                assert(g0.update(x as int, g0[x as int].update(y as int, part0)).update(
                    x as int,
                    g0[x as int].update(y as int, part),
                ) =~= g0.update(x as int, g0[x as int].update(y as int, part)));
            }
            if cell[t] {
                count += 1;
            }
            t += 1;
        }
        proof {
            assert(part =~= cell@);
            assert(cell@.take(n as int) =~= cell@);
        }
        self.entropy_field.set(x, y, count);
        count
    }
}

/// Clears each entry of `cell` whose entry in `s` is clear.
fn and_into(cell: &mut Vec<bool>, s: &Vec<bool>)
    requires
        old(cell)@.len() == s@.len(),
    ensures
        final(cell)@.len() == s@.len(),
        forall|i: int| 0 <= i < s@.len() ==> #[trigger] final(cell)@[i] == (old(cell)@[i] && s@[i]),
{
    let mut i: usize = 0;
    while i < s.len()
        invariant
            cell@.len() == s@.len(),
            i <= s@.len(),
            forall|j: int| 0 <= j < i ==> #[trigger] cell@[j] == (old(cell)@[j] && s@[j]),
            forall|j: int| i <= j < s@.len() ==> #[trigger] cell@[j] == old(cell)@[j],
        decreases s@.len() - i,
    {
        if !s[i] {
            cell.set(i, false);
        }
        i += 1;
    }
}

/// Whether cell `c` is on `stack`.
fn queued(stack: &Vec<(usize, usize)>, c: (usize, usize)) -> (r: bool)
    ensures
        r == stack@.contains(c),
{
    let mut i: usize = 0;
    while i < stack.len()
        invariant
            i <= stack.len(),
            forall|j: int| 0 <= j < i ==> stack@[j] != c,
        decreases stack.len() - i,
    {
        if stack[i].0 == c.0 && stack[i].1 == c.1 {
            return true;
        }
        i += 1;
    }
    false
}

/// Pushes cell `c` unless it is already on `stack`.
fn enqueue(stack: &mut Vec<(usize, usize)>, c: (usize, usize))
    ensures
        final(stack)@ == push_absent(old(stack)@, c),
        forall|d: (usize, usize)| final(stack)@.contains(d) <==> (old(stack)@.contains(d) || d == c),
        old(stack)@.no_duplicates() ==> final(stack)@.no_duplicates(),
{
    if !queued(stack, c) {
        stack.push(c);
        proof {
            assert forall|d: (usize, usize)| final(stack)@.contains(d) <==> (old(stack)@.contains(d) || d == c) by {
                if old(stack)@.contains(d) {
                    let j = choose|j: int| 0 <= j < old(stack)@.len() && old(stack)@[j] == d;
                    assert(final(stack)@[j] == d);
                }
                if d == c {
                    assert(final(stack)@[old(stack)@.len() as int] == d);
                }
                if final(stack)@.contains(d) {
                    let j = choose|j: int| 0 <= j < final(stack)@.len() && final(stack)@[j] == d;
                    if j < old(stack)@.len() {
                        assert(old(stack)@[j] == d);
                    }
                }
            }
        }
    }
}

/// Queues every neighbour of `(x, y)` inside the `w` by `h` grid that is not
/// queued yet.
fn enqueue_beside(stack: &mut Vec<(usize, usize)>, x: usize, y: usize, w: usize, h: usize)
    requires
        x < w,
        y < h,
    ensures
        final(stack)@ == push_beside(old(stack)@, x, y, w as nat, h as nat),
        forall|d: (usize, usize)| #[trigger] final(stack)@.contains(d) <==> (old(stack)@.contains(d)
            || beside(w as nat, h as nat, x as int, y as int, d.0 as int, d.1 as int)),
        old(stack)@.no_duplicates() ==> final(stack)@.no_duplicates(),
{
    if x + 1 < w {
        enqueue(stack, (x + 1, y));
    }
    if x > 0 {
        enqueue(stack, (x - 1, y));
    }
    if y + 1 < h {
        enqueue(stack, (x, y + 1));
    }
    if y > 0 {
        enqueue(stack, (x, y - 1));
    }
}

impl WaveFunction {
    /// Revises cells, starting with `(x, y)` and its neighbours and going on
    /// with the neighbours of every cell that loses a tile, until nothing
    /// changes or some cell loses its last tile.
    ///
    /// On success every cell of the grid either loses nothing to a further
    /// revision or has itself and its neighbours untouched by this call;
    /// cell `(x, y)` and its neighbours are always in the first group. A grid
    /// where no cell loses anything to a revision comes back unchanged.
    pub fn propagate(&mut self, x: usize, y: usize) -> (r: Result<(), ContradictionError>)
        requires
            old(self).wf(),
            old(self).run_state() == RunState::Running,
            old(self).in_grid(x as int, y as int),
        ensures
            final(self).wf(),
            final(self).model() == old(self).model(),
            final(self).width() == old(self).width(),
            final(self).height() == old(self).height(),
            forall|cx: int, cy: int, t: int|
                final(self).in_grid(cx, cy) && 0 <= t < final(self).tiles().len()
                    && #[trigger] final(self).wave()[cx][cy][t] ==> old(self).wave()[cx][cy][t],
            r is Ok <==> final(self).run_state() == RunState::Running,
            r is Err ==> final(self).run_state() == RunState::Contradiction,
            r matches Err(e) ==> final(self).conflict_cell() == (e.x, e.y),
            r is Ok ==> forall|cx: int, cy: int|
                #![trigger final(self).wave()[cx][cy]]
                final(self).in_grid(cx, cy) ==> settled(
                    final(self).tiles(),
                    final(self).width(),
                    final(self).height(),
                    final(self).wave(),
                    cx,
                    cy,
                ) || (!near(x as int, y as int, cx, cy) && untouched(
                    final(self).width(),
                    final(self).height(),
                    final(self).wave(),
                    old(self).wave(),
                    cx,
                    cy,
                )),
            at_fixpoint(old(self).tiles(), old(self).width(), old(self).height(), old(self).wave()) ==> r is Ok
                && final(self).wave() == old(self).wave(),
            forall|a: Seq<Seq<int>>|
                fits_grid(old(self).wave(), old(self).width(), old(self).height(), old(self).tiles().len(), a)
                    && consistent(old(self).tiles(), old(self).width(), old(self).height(), a)
                    ==> #[trigger] fits_grid(final(self).wave(), final(self).width(), final(self).height(), final(self).tiles().len(), a),
            completable(old(self).tiles(), old(self).width(), old(self).height(), old(self).wave()) ==> r is Ok,
            forall|f: Seq<Seq<Seq<bool>>>|
                stable_part(old(self).tiles(), old(self).width(), old(self).height(), old(self).wave(), f)
                    ==> #[trigger] within(f, final(self).wave(), old(self).width(), old(self).height(), old(self).tiles().len()),
            (exists|f: Seq<Seq<Seq<bool>>>| #[trigger] stable_part(old(self).tiles(), old(self).width(), old(self).height(), old(self).wave(), f))
                ==> r is Ok,
            r matches Err(e) ==> count_true(final(self).wave()[e.x as int][e.y as int]) == 0,
            final(self).wave() == worklist(
                old(self).tiles(),
                old(self).width(),
                old(self).height(),
                old(self).wave(),
                start_list(x, y, old(self).width(), old(self).height()),
            ).0,
            r is Ok <==> worklist(
                old(self).tiles(),
                old(self).width(),
                old(self).height(),
                old(self).wave(),
                start_list(x, y, old(self).width(), old(self).height()),
            ).1 is None,
            r matches Err(e) ==> worklist(
                old(self).tiles(),
                old(self).width(),
                old(self).height(),
                old(self).wave(),
                start_list(x, y, old(self).width(), old(self).height()),
            ).1 == Some((e.x, e.y)),
    {
        let ghost g0 = self.wave();
        let ghost tiles = self.tiles();
        let ghost (w, h) = (self.width(), self.height());
        let mut stack: Vec<(usize, usize)> = Vec::new();
        stack.push((x, y));
        proof {
            assert(stack@ =~= seq![(x, y)]);
        }
        enqueue_beside(&mut stack, x, y, self.shape[0], self.shape[1]);
        let ghost outcome = worklist(tiles, w, h, g0, stack@);
        proof {
            lemma_keeps_refl(tiles, w, h, g0);
            lemma_keeps_stable_refl(tiles, w, h, g0);
            assert forall|d: (usize, usize)| #[trigger] stack@.contains(d) implies 0 <= d.0 < w && 0 <= d.1 < h by {
                if d != (x, y) {
                    assert(seq![(x, y)].contains(d) ==> d == (x, y));
                }
            }
            assert(seq![(x, y)][0] == (x, y));
            assert forall|cx: int, cy: int|
                #![trigger self.wave()[cx][cy]]
                self.in_grid(cx, cy) && !stack@.contains((cx as usize, cy as usize)) implies settled(
                    tiles,
                    w,
                    h,
                    self.wave(),
                    cx,
                    cy,
                ) || (!near(x as int, y as int, cx, cy) && untouched(w, h, self.wave(), g0, cx, cy)) by {
                let d = (cx as usize, cy as usize);
                if near(x as int, y as int, cx, cy) {
                    if cx == x && cy == y {
                        assert(seq![(x, y)].contains(d));
                    } else {
                        assert(beside(w, h, x as int, y as int, d.0 as int, d.1 as int));
                    }
                    assert(stack@.contains(d));
                }
            }
        }
        while stack.len() > 0
            invariant
                self.wf(),
                self.run_state() == RunState::Running,
                self.model() == old(self).model(),
                self.width() == w,
                self.height() == h,
                tiles == self.tiles(),
                g0 == old(self).wave(),
                w == old(self).width(),
                h == old(self).height(),
                old(self).in_grid(x as int, y as int),
                stack@.no_duplicates(),
                forall|d: (usize, usize)| #[trigger] stack@.contains(d) ==> 0 <= d.0 < w && 0 <= d.1 < h,
                forall|cx: int, cy: int, t: int|
                    self.in_grid(cx, cy) && 0 <= t < tiles.len() && #[trigger] self.wave()[cx][cy][t] ==> g0[cx][cy][t],
                forall|cx: int, cy: int|
                    #![trigger self.wave()[cx][cy]]
                    self.in_grid(cx, cy) && !stack@.contains((cx as usize, cy as usize)) ==> settled(
                        tiles,
                        w,
                        h,
                        self.wave(),
                        cx,
                        cy,
                    ) || (!near(x as int, y as int, cx, cy) && untouched(w, h, self.wave(), g0, cx, cy)),
                at_fixpoint(tiles, w, h, g0) ==> self.wave() == g0,
                keeps_choices(tiles, w, h, g0, self.wave()),
                keeps_stable(tiles, w, h, g0, self.wave()),
                outcome == worklist(tiles, w, h, self.wave(), stack@),
                outcome == worklist(tiles, w, h, g0, start_list(x, y, w, h)),
            decreases grid_total(self.wave()), stack.len(),
        {
            let ghost g1 = self.wave();
            let ghost s1 = stack@;
            let (cx, cy) = stack.pop().unwrap();
            proof {
                assert(s1.last() == (cx, cy));
                assert(s1.contains((cx, cy)));
                assert forall|d: (usize, usize)| s1.contains(d) && d != (cx, cy) implies #[trigger] stack@.contains(d) by {
                    let j = choose|j: int| 0 <= j < s1.len() && s1[j] == d;
                    assert(j < s1.len() - 1);
                    assert(stack@[j] == d);
                }
            }
            proof {
                assert forall|d: (usize, usize)| #[trigger] stack@.contains(d) implies 0 <= d.0 < w && 0 <= d.1 < h by {
                    let j = choose|j: int| 0 <= j < stack@.len() && stack@[j] == d;
                    assert(s1[j] == d);
                    assert(s1.contains(d));
                }
            }
            let ghost s2 = stack@;
            let cell = self.revise(cx, cy);
            if self.differs(cx, cy, &cell) {
                proof {
                    assert forall|i: int| 0 <= i < cell@.len() && #[trigger] cell@[i] implies g1[cx as int][cy as int][i] by {}
                    lemma_grid_total_shrinks(g1, cx as int, cy as int, cell@);
                    lemma_revise_settles(tiles, w, h, g1, cx as int, cy as int);
                    if at_fixpoint(tiles, w, h, g0) {
                        assert(settled(tiles, w, h, g1, cx as int, cy as int));
                    }
                }
                let count = self.write_cell(cx, cy, &cell);
                proof {
                    lemma_keeps_step(tiles, w, h, g0, g1, cx as int, cy as int);
                    lemma_keeps_stable_step(tiles, w, h, g0, g1, cx as int, cy as int);
                    if exists|f: Seq<Seq<Seq<bool>>>| #[trigger] stable_part(tiles, w, h, g0, f) {
                        let f = choose|f: Seq<Seq<Seq<bool>>>| #[trigger] stable_part(tiles, w, h, g0, f);
                        lemma_keeps_stable_nonempty(tiles, w, h, g0, self.wave(), f, cx as int, cy as int);
                    }
                    if completable(tiles, w, h, g0) {
                        lemma_keeps_nonempty(tiles, w, h, g0, self.wave(), cx as int, cy as int);
                    }
                }
                if count == 0 {
                    self.state = RunState::Contradiction;
                    self.conflict = (cx, cy);
                    proof {
                        assert(self.entropy()[cx as int][cy as int] == 0);
                    }
                    return Err(ContradictionError { x: cx, y: cy });
                }
                enqueue_beside(&mut stack, cx, cy, self.shape[0], self.shape[1]);
                proof {
                    let g2 = self.wave();
                    assert forall|px: int, py: int| #![trigger self.wave()[px][py]] self.in_grid(px, py) && !stack@.contains(
                        (px as usize, py as usize),
                    ) implies settled(tiles, w, h, self.wave(), px, py) || (!near(x as int, y as int, px, py)
                        && untouched(w, h, self.wave(), g0, px, py)) by {
                        if px == cx && py == cy {
                        } else {
                            assert(!near(cx as int, cy as int, px, py));
                            assert(!s2.contains((px as usize, py as usize)));
                            assert(!s1.contains((px as usize, py as usize)));
                            assert forall|qx: int, qy: int| 0 <= qx < w && 0 <= qy < h && near(px, py, qx, qy) implies #[trigger] g2[qx][qy] == g1[qx][qy] by {}
                            lemma_revised_frame(tiles, w, h, g1, g2, px, py);
                        }
                    }
                }
            } else {
                proof {
                    assert(settled(tiles, w, h, g1, cx as int, cy as int));
                    assert forall|px: int, py: int| #![trigger self.wave()[px][py]] self.in_grid(px, py) && !stack@.contains(
                        (px as usize, py as usize),
                    ) implies settled(tiles, w, h, self.wave(), px, py) || (!near(x as int, y as int, px, py)
                        && untouched(w, h, self.wave(), g0, px, py)) by {
                        if px == cx && py == cy {
                        } else {
                            assert(!s1.contains((px as usize, py as usize)));
                        }
                    }
                }
            }
        }
        proof {
            reveal(keeps_choices);
            reveal(keeps_stable);
        }
        Ok(())
    }
}

impl WaveFunction {
    /// Keeps tile `tile` alone at cell `(x, y)`, then propagates the
    /// consequences. Fails when some cell loses its last tile.
    #[verifier::rlimit(60)]
    pub fn collapse_at(&mut self, x: usize, y: usize, tile: usize) -> (r: Result<Step, ContradictionError>)
        requires
            old(self).wf(),
            old(self).run_state() == RunState::Running,
            old(self).in_grid(x as int, y as int),
            tile < old(self).tiles().len(),
            old(self).wave()[x as int][y as int][tile as int],
        ensures
            final(self).wf(),
            final(self).model() == old(self).model(),
            final(self).width() == old(self).width(),
            final(self).height() == old(self).height(),
            forall|cx: int, cy: int, t: int|
                final(self).in_grid(cx, cy) && 0 <= t < final(self).tiles().len()
                    && #[trigger] final(self).wave()[cx][cy][t] ==> old(self).wave()[cx][cy][t],
            forall|t: int| 0 <= t < final(self).tiles().len() && #[trigger] final(self).wave()[x as int][y as int][t] ==> t == tile,
            r is Ok ==> r == Ok::<Step, ContradictionError>(Step::Progress) && final(self).run_state() == RunState::Running
                && final(self).wave()[x as int][y as int] == only(final(self).tiles().len(), tile as int),
            r matches Err(e) ==> final(self).run_state() == RunState::Contradiction && final(self).conflict_cell() == (e.x, e.y),
            old(self).entropy()[x as int][y as int] > 1 ==> grid_total(final(self).wave()) < grid_total(old(self).wave()),
            grid_total(final(self).wave()) <= grid_total(old(self).wave()),
            permissive(old(self).tiles()) ==> r is Ok,
            r is Ok ==> forall|cx: int, cy: int|
                #![trigger final(self).wave()[cx][cy]]
                final(self).in_grid(cx, cy) ==> settled(
                    final(self).tiles(),
                    final(self).width(),
                    final(self).height(),
                    final(self).wave(),
                    cx,
                    cy,
                ) || (!near(x as int, y as int, cx, cy) && untouched(
                    final(self).width(),
                    final(self).height(),
                    final(self).wave(),
                    old(self).wave(),
                    cx,
                    cy,
                )),
            r is Ok && at_fixpoint(old(self).tiles(), old(self).width(), old(self).height(), old(self).wave())
                ==> at_fixpoint(final(self).tiles(), final(self).width(), final(self).height(), final(self).wave()),
            forall|f: Seq<Seq<Seq<bool>>>|
                stable_part(
                    old(self).tiles(),
                    old(self).width(),
                    old(self).height(),
                    old(self).wave().update(
                        x as int,
                        old(self).wave()[x as int].update(y as int, only(old(self).tiles().len(), tile as int)),
                    ),
                    f,
                ) ==> #[trigger] within(f, final(self).wave(), old(self).width(), old(self).height(), old(self).tiles().len()),
            forall|u: int|
                #[trigger] universal_ready(old(self).tiles(), old(self).width(), old(self).height(), old(self).wave(), u)
                    ==> r is Ok && universal_ready(final(self).tiles(), final(self).width(), final(self).height(), final(self).wave(), u),
            final(self).wave() == step_result(
                old(self).tiles(),
                old(self).width(),
                old(self).height(),
                old(self).wave(),
                x as int,
                y as int,
                tile as int,
            ).0,
            r is Err <==> step_result(
                old(self).tiles(),
                old(self).width(),
                old(self).height(),
                old(self).wave(),
                x as int,
                y as int,
                tile as int,
            ).1 is Some,
            r matches Err(e) ==> step_result(
                old(self).tiles(),
                old(self).width(),
                old(self).height(),
                old(self).wave(),
                x as int,
                y as int,
                tile as int,
            ).1 == Some((e.x, e.y)),
            forall|a: Seq<Seq<int>>|
                fits_grid(old(self).wave(), old(self).width(), old(self).height(), old(self).tiles().len(), a)
                    && consistent(old(self).tiles(), old(self).width(), old(self).height(), a) && a[x as int][y as int] == tile
                    ==> #[trigger] fits_grid(final(self).wave(), final(self).width(), final(self).height(), final(self).tiles().len(), a),
            (exists|a: Seq<Seq<int>>|
                #[trigger] fits_grid(old(self).wave(), old(self).width(), old(self).height(), old(self).tiles().len(), a)
                    && consistent(old(self).tiles(), old(self).width(), old(self).height(), a) && a[x as int][y as int] == tile)
                ==> r is Ok,
    {
        let ghost g0 = self.wave();
        let ghost n = self.tiles().len();
        let ghost (w, h) = (self.width(), self.height());
        let count = self.tileset.len();
        let mut cell: Vec<bool> = Vec::new();
        let mut t: usize = 0;
        while t < count
            invariant
                count == n,
                t <= count,
                cell@.len() == t,
                forall|i: int| 0 <= i < t ==> cell@[i] == (i == tile as int),
            decreases count - t,
        {
            cell.push(t == tile);
            t += 1;
        }
        proof {
            assert(cell@ =~= only(n, tile as int));
            assert forall|i: int| 0 <= i < cell@.len() && #[trigger] cell@[i] implies g0[x as int][y as int][i] by {}
            lemma_count_true_shrinks(g0[x as int][y as int], cell@);
            if g0[x as int][y as int] != cell@ {
                lemma_grid_total_shrinks(g0, x as int, y as int, cell@);
            }
            if self.entropy()[x as int][y as int] > 1 {
                assert(g0[x as int][y as int] != cell@) by {
                    if g0[x as int][y as int] == cell@ {
                        lemma_count_true_shrinks(cell@, Seq::new(n, |i: int| false));
                        assert(count_true(cell@) <= 1) by {
                            lemma_single_count(n, tile as int);
                        }
                    }
                }
            }
            lemma_single_count(n, tile as int);
        }
        self.write_cell(x, y, &cell);
        let ghost g1 = self.wave();
        proof {
            assert(self.entropy()[x as int][y as int] == 1);
            assert forall|cx: int, cy: int, t: int|
                self.in_grid(cx, cy) && 0 <= t < n && #[trigger] g1[cx][cy][t] implies border_ok(self.tiles(), w, h, cx, cy, t) by {
                if cx == x && cy == y {
                    assert(g0[cx][cy][t]);
                }
            }
            assert forall|cx: int, cy: int, t: int|
                0 <= cx < w && 0 <= cy < h && 0 <= t < n && #[trigger] g1[cx][cy][t] implies g0[cx][cy][t] by {}
            lemma_grid_total_mono(g0, g1, w, h, n);
            if permissive(self.tiles()) {
                assert forall|cx: int, cy: int| 0 <= cx < w && 0 <= cy < h implies holds_some(#[trigger] g1[cx][cy]) by {
                    if cx == x && cy == y {
                        assert(g1[cx][cy][tile as int]);
                    } else {
                        assert(self.entropy()[cx][cy] >= 1);
                        lemma_count_true_witness(g1[cx][cy]);
                    }
                }
                lemma_permissive_fixpoint(self.tiles(), w, h, g1);
            }
            assert forall|a: Seq<Seq<int>>|
                fits_grid(g0, w, h, n, a) && consistent(self.tiles(), w, h, a) && a[x as int][y as int] == tile
                    implies #[trigger] fits_grid(g1, w, h, n, a) by {
                assert forall|cx: int, cy: int| 0 <= cx < w && 0 <= cy < h implies 0 <= #[trigger] a[cx][cy] < n
                    && g1[cx][cy][a[cx][cy]] by {
                    if cx == x && cy == y {
                    } else {
                        assert(g1[cx][cy] == g0[cx][cy]);
                    }
                }
            }
            lemma_wf_symmetric(self.model());
            if exists|u: int| #[trigger] universal_ready(self.tiles(), w, h, g0, u) {
                let u = choose|u: int| #[trigger] universal_ready(self.tiles(), w, h, g0, u);
                assert(g1 == g0.update(x as int, g0[x as int].update(y as int, only(n, tile as int))));
                lemma_universal_before(self.tiles(), w, h, g0, x as int, y as int, tile as int, u);
            }
            if exists|a: Seq<Seq<int>>|
                #[trigger] fits_grid(g0, w, h, n, a) && consistent(self.tiles(), w, h, a) && a[x as int][y as int] == tile {
                let a = choose|a: Seq<Seq<int>>|
                    #[trigger] fits_grid(g0, w, h, n, a) && consistent(self.tiles(), w, h, a) && a[x as int][y as int] == tile;
                assert(fits_grid(g1, w, h, n, a));
                assert(completable(self.tiles(), w, h, g1));
            }
        }
        let r = self.propagate(x, y);
        proof {
            lemma_grid_total_mono(g1, self.wave(), w, h, n);
        }
        match r {
            Ok(()) => {
                proof {
                    let g2 = self.wave();
                    assert forall|cx: int, cy: int|
                        #![trigger g2[cx][cy]]
                        self.in_grid(cx, cy) && !settled(self.tiles(), w, h, g2, cx, cy)
                            implies !near(x as int, y as int, cx, cy) && untouched(w, h, g2, g0, cx, cy) by {
                        assert(!near(x as int, y as int, cx, cy) && untouched(w, h, g2, g1, cx, cy));
                        assert forall|qx: int, qy: int|
                            0 <= qx < w && 0 <= qy < h && near(cx, cy, qx, qy) implies #[trigger] g2[qx][qy] == g0[qx][qy] by {
                            assert(g2[qx][qy] == g1[qx][qy]);
                            if qx == x && qy == y {
                                assert(near(x as int, y as int, cx, cy));
                            }
                        }
                    }
                    if at_fixpoint(self.tiles(), w, h, g0) {
                        assert forall|cx: int, cy: int| 0 <= cx < w && 0 <= cy < h implies #[trigger] settled(self.tiles(), w, h, g2, cx, cy) by {
                            if !settled(self.tiles(), w, h, g2, cx, cy) {
                                assert(g2[cx][cy] == g2[cx][cy]);
                                assert(settled(self.tiles(), w, h, g0, cx, cy));
                                lemma_revised_frame(self.tiles(), w, h, g0, g2, cx, cy);
                                assert(g2[cx][cy] == g0[cx][cy]);
                            }
                        }
                    }
                    assert forall|cx: int, cy: int| 0 <= cx < w && 0 <= cy < h implies #[trigger] count_true(g2[cx][cy]) >= 1 by {
                        assert(self.entropy()[cx][cy] >= 1);
                    }
                    assert forall|u: int| #[trigger] universal_ready(self.tiles(), w, h, g0, u)
                        implies universal_ready(self.tiles(), w, h, g2, u) by {
                        lemma_ready_fixpoint(self.tiles(), w, h, g0, u);
                        lemma_universal_after(self.tiles(), w, h, g0, g2, x as int, y as int, tile as int, u);
                    }
                    let cur = self.wave()[x as int][y as int];
                    assert(self.entropy()[x as int][y as int] >= 1);
                    lemma_count_true_witness(cur);
                    let i = choose|i: int| 0 <= i < cur.len() && cur[i];
                    assert(g1[x as int][y as int][i]);
                    assert(cur =~= only(n, tile as int));
                }
                Ok(Step::Progress)
            },
            Err(e) => Err(e),
        }
    }
}

/// The least count above one among the cells of the grid.
pub open spec fn is_min_open(e: Seq<Seq<usize>>, w: nat, h: nat, m: usize) -> bool {
    &&& exists|x: int, y: int| 0 <= x < w && 0 <= y < h && #[trigger] e[x][y] == m && m > 1
    &&& forall|x: int, y: int| 0 <= x < w && 0 <= y < h && #[trigger] e[x][y] > 1 ==> m <= e[x][y]
}

impl WaveFunction {
    /// The least count above one, if some cell has one.
    fn min_open_entropy(&self) -> (r: Option<usize>)
        requires
            self.shape_ok(),
        ensures
            r is None <==> forall|x: int, y: int| self.in_grid(x, y) ==> #[trigger] self.entropy()[x][y] <= 1,
            r matches Some(m) ==> is_min_open(self.entropy(), self.width(), self.height(), m),
    {
        let ghost e = self.entropy();
        let ghost (w, h) = (self.width(), self.height());
        let mut best: Option<usize> = None;
        let mut x: usize = 0;
        while x < self.shape[0]
            invariant
                self.shape_ok(),
                e == self.entropy(),
                w == self.width(),
                h == self.height(),
                x <= w,
                best is None ==> forall|cx: int, cy: int| 0 <= cx < x && 0 <= cy < h ==> #[trigger] e[cx][cy] <= 1,
                best matches Some(m) ==> m > 1 && (exists|cx: int, cy: int| 0 <= cx < w && 0 <= cy < h && #[trigger] e[cx][cy] == m)
                    && forall|cx: int, cy: int| 0 <= cx < x && 0 <= cy < h && #[trigger] e[cx][cy] > 1 ==> m <= e[cx][cy],
            decreases w - x,
        {
            let mut y: usize = 0;
            while y < self.shape[1]
                invariant
                    self.shape_ok(),
                    e == self.entropy(),
                    w == self.width(),
                    h == self.height(),
                    x < w,
                    y <= h,
                    best is None ==> forall|cx: int, cy: int|
                        (0 <= cx < x && 0 <= cy < h) || (cx == x && 0 <= cy < y) ==> #[trigger] e[cx][cy] <= 1,
                    best matches Some(m) ==> m > 1 && (exists|cx: int, cy: int| 0 <= cx < w && 0 <= cy < h && #[trigger] e[cx][cy] == m)
                        && forall|cx: int, cy: int|
                        ((0 <= cx < x && 0 <= cy < h) || (cx == x && 0 <= cy < y)) && #[trigger] e[cx][cy] > 1 ==> m <= e[cx][cy],
                decreases h - y,
            {
                let v = self.entropy_field.get(x, y);
                if v > 1 {
                    match best {
                        None => {
                            best = Some(v);
                        },
                        Some(m) => {
                            if v < m {
                                best = Some(v);
                            }
                        },
                    }
                }
                y += 1;
            }
            x += 1;
        }
        best
    }

    /// The cells whose count is the least above one, column by column.
    pub fn min_entropy_cells(&self) -> (r: Vec<(usize, usize)>)
        requires
            self.wf(),
        ensures
            forall|c: (usize, usize)| #[trigger] r@.contains(c) <==> self.in_grid(c.0 as int, c.1 as int)
                && self.entropy()[c.0 as int][c.1 as int] > 1
                && forall|x: int, y: int| self.in_grid(x, y) && #[trigger] self.entropy()[x][y] > 1
                    ==> self.entropy()[c.0 as int][c.1 as int] <= self.entropy()[x][y],
            forall|i: int, j: int| 0 <= i < j < r@.len() ==> before(#[trigger] r@[i], #[trigger] r@[j]),
    {
        let ghost e = self.entropy();
        let ghost (w, h) = (self.width(), self.height());
        let mut r: Vec<(usize, usize)> = Vec::new();
        let best = self.min_open_entropy();
        match best {
            None => {
                proof {
                    assert forall|c: (usize, usize)| #[trigger] r@.contains(c) <==> self.in_grid(c.0 as int, c.1 as int)
                        && self.entropy()[c.0 as int][c.1 as int] > 1
                        && forall|x: int, y: int| self.in_grid(x, y) && #[trigger] self.entropy()[x][y] > 1
                            ==> self.entropy()[c.0 as int][c.1 as int] <= self.entropy()[x][y] by {
                        if self.in_grid(c.0 as int, c.1 as int) {
                            assert(e[c.0 as int][c.1 as int] <= 1);
                        }
                    }
                }
                r
            },
            Some(m) => {
                let mut x: usize = 0;
                while x < self.shape[0]
                    invariant
                        self.wf(),
                        e == self.entropy(),
                        w == self.width(),
                        h == self.height(),
                        is_min_open(e, w, h, m),
                        x <= w,
                        forall|c: (usize, usize)| #[trigger] r@.contains(c) <==> (c.0 < x && c.1 < h && e[c.0 as int][c.1 as int] == m),
                        forall|i: int, j: int| 0 <= i < j < r@.len() ==> before(#[trigger] r@[i], #[trigger] r@[j]),
                        forall|i: int| 0 <= i < r@.len() ==> (#[trigger] r@[i]).0 < x,
                    decreases w - x,
                {
                    let mut y: usize = 0;
                    while y < self.shape[1]
                        invariant
                            self.wf(),
                            e == self.entropy(),
                            w == self.width(),
                            h == self.height(),
                            is_min_open(e, w, h, m),
                            x < w,
                            y <= h,
                            forall|c: (usize, usize)| #[trigger] r@.contains(c) <==> ((c.0 < x && c.1 < h) || (c.0 == x && c.1 < y))
                                && e[c.0 as int][c.1 as int] == m,
                            forall|i: int, j: int| 0 <= i < j < r@.len() ==> before(#[trigger] r@[i], #[trigger] r@[j]),
                            forall|i: int| 0 <= i < r@.len() ==> before(#[trigger] r@[i], (x, y)),
                        decreases h - y,
                    {
                        if self.entropy_field.get(x, y) == m {
                            let ghost r0 = r@;
                            r.push((x, y));
                            proof {
                                assert forall|c: (usize, usize)| #[trigger] r@.contains(c) <==> ((c.0 < x && c.1 < h) || (c.0 == x && c.1 < y + 1))
                                    && e[c.0 as int][c.1 as int] == m by {
                                    if r@.contains(c) {
                                        let k = choose|k: int| 0 <= k < r@.len() && r@[k] == c;
                                        if k < r0.len() {
                                            assert(r0[k] == c);
                                            assert(r0.contains(c));
                                        }
                                    }
                                    if ((c.0 < x && c.1 < h) || (c.0 == x && c.1 < y)) && e[c.0 as int][c.1 as int] == m {
                                        assert(r0.contains(c));
                                        let k = choose|k: int| 0 <= k < r0.len() && r0[k] == c;
                                        assert(r@[k] == c);
                                    }
                                    if c == (x, y) {
                                        assert(r@[r0.len() as int] == c);
                                    }
                                }
                            }
                        }
                        y += 1;
                    }
                    x += 1;
                }
                proof {
                    assert forall|c: (usize, usize)| #[trigger] r@.contains(c) <==> self.in_grid(c.0 as int, c.1 as int)
                        && self.entropy()[c.0 as int][c.1 as int] > 1
                        && forall|x: int, y: int| self.in_grid(x, y) && #[trigger] self.entropy()[x][y] > 1
                            ==> self.entropy()[c.0 as int][c.1 as int] <= self.entropy()[x][y] by {
                        if self.in_grid(c.0 as int, c.1 as int) && self.entropy()[c.0 as int][c.1 as int] > 1
                            && forall|x: int, y: int| self.in_grid(x, y) && #[trigger] self.entropy()[x][y] > 1
                            ==> self.entropy()[c.0 as int][c.1 as int] <= self.entropy()[x][y] {
                            let (mx, my) = choose|mx: int, my: int| 0 <= mx < w && 0 <= my < h && #[trigger] e[mx][my] == m && m > 1;
                            assert(e[c.0 as int][c.1 as int] <= e[mx][my]);
                        }
                    }
                }
                r
            },
        }
    }

    /// The tiles still possible at cell `(x, y)`, in increasing order.
    pub fn possible_tiles(&self, x: usize, y: usize) -> (r: Vec<usize>)
        requires
            self.shape_ok(),
            self.in_grid(x as int, y as int),
        ensures
            forall|t: usize| #[trigger] r@.contains(t) <==> t < self.tiles().len() && self.wave()[x as int][y as int][t as int],
            forall|i: int, j: int| 0 <= i < j < r@.len() ==> #[trigger] r@[i] < #[trigger] r@[j],
    {
        let n = self.tileset.len();
        let mut r: Vec<usize> = Vec::new();
        let mut t: usize = 0;
        while t < n
            invariant
                self.shape_ok(),
                self.in_grid(x as int, y as int),
                n == self.tiles().len(),
                t <= n,
                forall|u: usize| #[trigger] r@.contains(u) <==> u < t && self.wave()[x as int][y as int][u as int],
                forall|i: int, j: int| 0 <= i < j < r@.len() ==> #[trigger] r@[i] < #[trigger] r@[j],
                forall|i: int| 0 <= i < r@.len() ==> #[trigger] r@[i] < t,
            decreases n - t,
        {
            if self.wave_field.get(x, y, t) {
                let ghost r0 = r@;
                r.push(t);
                proof {
                    assert forall|u: usize| #[trigger] r@.contains(u) <==> u < t + 1 && self.wave()[x as int][y as int][u as int] by {
                        if r@.contains(u) {
                            let k = choose|k: int| 0 <= k < r@.len() && r@[k] == u;
                            if k < r0.len() {
                                assert(r0[k] == u);
                                assert(r0.contains(u));
                            }
                        }
                        if u < t && self.wave()[x as int][y as int][u as int] {
                            assert(r0.contains(u));
                            let k = choose|k: int| 0 <= k < r0.len() && r0[k] == u;
                            assert(r@[k] == u);
                        }
                        if u == t {
                            assert(r@[r0.len() as int] == u);
                        }
                    }
                }
            }
            t += 1;
        }
        r
    }
}

/// The least count above one that `(x, y)` holds, among all cells.
pub open spec fn least_open(e: Seq<Seq<usize>>, w: nat, h: nat, x: int, y: int) -> bool {
    &&& 0 <= x < w && 0 <= y < h
    &&& e[x][y] > 1
    &&& forall|cx: int, cy: int| 0 <= cx < w && 0 <= cy < h && #[trigger] e[cx][cy] > 1 ==> e[x][y] <= e[cx][cy]
}

/// The flags of cell `(x, y)` at the start of a run.
fn initial_cell(tileset: &Tileset, w: usize, h: usize, x: usize, y: usize) -> (r: Vec<bool>)
    requires
        x < w,
        y < h,
    ensures
        r@ == initial_grid(tileset.tiles(), w as nat, h as nat)[x as int][y as int],
{
    let n = tileset.len();
    let mut r: Vec<bool> = Vec::new();
    let mut t: usize = 0;
    while t < n
        invariant
            x < w,
            y < h,
            n == tileset.tiles().len(),
            t <= n,
            r@.len() == t,
            forall|i: int| 0 <= i < t ==> r@[i] == border_ok(tileset.tiles(), w as nat, h as nat, x as int, y as int, i),
        decreases n - t,
    {
        let tile = tileset.tile(t);
        let mut ok = true;
        if x == 0 {
            ok = ok && tile.is_left_border();
        }
        if x + 1 == w {
            ok = ok && tile.is_right_border();
        }
        if y == 0 {
            ok = ok && tile.is_upper_border();
        }
        if y + 1 == h {
            ok = ok && tile.is_lower_border();
        }
        r.push(ok);
        t += 1;
    }
    assert(r@ =~= initial_grid(tileset.tiles(), w as nat, h as nat)[x as int][y as int]);
    r
}

impl WaveFunction {
    /// A grid of `out_shape.0` by `out_shape.1` cells over `tileset`, where each
    /// tile is possible in each cell as far as the grid's edges allow. The run
    /// starts failed when some cell is left with no tile.
    pub fn new(out_shape: (usize, usize), tileset: Tileset) -> (r: Result<WaveFunction, ConfigError>)
        requires
            tileset.wf(),
        ensures
            r == Err::<WaveFunction, ConfigError>(ConfigError::EmptyGrid) <==> out_shape.0 == 0 || out_shape.1 == 0,
            r == Err::<WaveFunction, ConfigError>(ConfigError::GridTooLarge) <==> out_shape.0 > 0 && out_shape.1 > 0
                && too_large(out_shape.0 as nat, out_shape.1 as nat, tileset.tiles().len()),
            r matches Err(e) ==> e == ConfigError::EmptyGrid || e == ConfigError::GridTooLarge,
            r matches Ok(f) ==> {
                &&& f.wf()
                &&& f.model() == tileset
                &&& f.width() == out_shape.0
                &&& f.height() == out_shape.1
                &&& f.wave() == initial_grid(tileset.tiles(), out_shape.0 as nat, out_shape.1 as nat)
                &&& f.run_state() != RunState::Done
                &&& f.run_state() == RunState::Running <==> forall|x: int, y: int| f.in_grid(x, y) ==>
                    #[trigger] count_true(f.wave()[x][y]) >= 1
                &&& permissive(tileset.tiles()) && tileset.tiles().len() > 0 ==> f.run_state() == RunState::Running
                &&& forall|u: int| #[trigger] universal(tileset.tiles(), u) ==> f.run_state() == RunState::Running
                    && universal_ready(tileset.tiles(), out_shape.0 as nat, out_shape.1 as nat, f.wave(), u)
            },
    {
        let (w, h) = out_shape;
        if w == 0 || h == 0 {
            return Err(ConfigError::EmptyGrid);
        }
        let n = tileset.len();
        let wh = match w.checked_mul(h) {
            Some(v) => v,
            None => {
                return Err(ConfigError::GridTooLarge);
            },
        };
        if wh > isize::MAX as usize {
            return Err(ConfigError::GridTooLarge);
        }
        let whn = match wh.checked_mul(n) {
            Some(v) => v,
            None => {
                return Err(ConfigError::GridTooLarge);
            },
        };
        if whn > isize::MAX as usize {
            return Err(ConfigError::GridTooLarge);
        }
        let ghost tiles = tileset.tiles();
        let mut f = WaveFunction {
            state: RunState::Running,
            tileset,
            entropy_field: CountField::filled(w, h, 0),
            wave_field: FlagField::filled(w, h, n, true),
            shape: [w, h],
            conflict: (0, 0),
        };
        let ghost init = initial_grid(tiles, w as nat, h as nat);
        let mut empty: Option<(usize, usize)> = None;
        let mut x: usize = 0;
        while x < w
            invariant
                f.shape_ok(),
                f.width() == w,
                f.height() == h,
                f.shape[0] == w,
                f.shape[1] == h,
                f.model() == tileset,
                tiles == tileset.tiles(),
                f.run_state() == RunState::Running,
                init == initial_grid(tiles, w as nat, h as nat),
                x <= w,
                forall|cx: int, cy: int| 0 <= cx < x && 0 <= cy < h ==> #[trigger] f.wave()[cx][cy] == init[cx][cy]
                    && f.entropy()[cx][cy] == count_true(init[cx][cy]),
                empty is None ==> forall|cx: int, cy: int| 0 <= cx < x && 0 <= cy < h ==> #[trigger] count_true(init[cx][cy]) >= 1,
                empty matches Some(c) ==> c.0 < x && c.1 < h && count_true(init[c.0 as int][c.1 as int]) == 0,
            decreases w - x,
        {
            let mut y: usize = 0;
            while y < h
                invariant
                    f.shape_ok(),
                    f.width() == w,
                    f.height() == h,
                    f.shape[0] == w,
                    f.shape[1] == h,
                    f.model() == tileset,
                    tiles == tileset.tiles(),
                    f.run_state() == RunState::Running,
                    init == initial_grid(tiles, w as nat, h as nat),
                    x < w,
                    y <= h,
                    forall|cx: int, cy: int| (0 <= cx < x && 0 <= cy < h) || (cx == x && 0 <= cy < y) ==> #[trigger] f.wave()[cx][cy] == init[cx][cy]
                        && f.entropy()[cx][cy] == count_true(init[cx][cy]),
                    empty is None ==> forall|cx: int, cy: int| (0 <= cx < x && 0 <= cy < h) || (cx == x && 0 <= cy < y) ==> #[trigger] count_true(init[cx][cy]) >= 1,
                    empty matches Some(c) ==> ((c.0 < x && c.1 < h) || (c.0 == x && c.1 < y)) && count_true(init[c.0 as int][c.1 as int]) == 0,
                decreases h - y,
            {
                let cell = initial_cell(&f.tileset, w, h, x, y);
                let ghost wave0 = f.wave();
                let ghost counts0 = f.entropy();
                let c = f.write_cell(x, y, &cell);
                proof {
                    assert forall|cx: int, cy: int| (0 <= cx < x && 0 <= cy < h) || (cx == x && 0 <= cy < y + 1) implies #[trigger] f.wave()[cx][cy] == init[cx][cy]
                        && f.entropy()[cx][cy] == count_true(init[cx][cy]) by {
                        if !(cx == x && cy == y) {
                            assert(f.wave()[cx][cy] == wave0[cx][cy]);
                            assert(f.entropy()[cx][cy] == counts0[cx][cy]);
                        }
                    }
                }
                if c == 0 && empty.is_none() {
                    empty = Some((x, y));
                }
                let ghost y0 = y;
                y += 1;
                assert forall|cx: int, cy: int| (0 <= cx < x && 0 <= cy < h) || (cx == x && 0 <= cy < y) implies #[trigger] f.wave()[cx][cy] == init[cx][cy]
                    && f.entropy()[cx][cy] == count_true(init[cx][cy]) by {
                    assert((0 <= cx < x && 0 <= cy < h) || (cx == x && 0 <= cy < y0 + 1));
                    assert(f.wave()[cx][cy] == init[cx][cy]);
                    assert(f.entropy()[cx][cy] == count_true(init[cx][cy]));
                }
            }
            let ghost x0 = x;
            x += 1;
            assert forall|cx: int, cy: int| 0 <= cx < x && 0 <= cy < h implies #[trigger] f.wave()[cx][cy] == init[cx][cy]
                && f.entropy()[cx][cy] == count_true(init[cx][cy]) by {
                assert((0 <= cx < x0 && 0 <= cy < h) || (cx == x0 && 0 <= cy < y));
                assert(f.wave()[cx][cy] == init[cx][cy]);
                assert(f.entropy()[cx][cy] == count_true(init[cx][cy]));
            }
        }
        proof {
            assert forall|cx: int| 0 <= cx < w implies #[trigger] f.wave()[cx] =~= init[cx] by {
                assert forall|cy: int| 0 <= cy < h implies #[trigger] f.wave()[cx][cy] == init[cx][cy] by {}
            }
            assert(f.wave() =~= init);
        }
        match empty {
            Some(c) => {
                f.state = RunState::Contradiction;
                f.conflict = c;
            },
            None => {},
        }
        proof {
            assert(f.in_sync());
            assert(f.borders_kept());
            assert(f.state_ok());
            if permissive(tiles) && n > 0 {
                assert forall|cx: int, cy: int| f.in_grid(cx, cy) implies #[trigger] count_true(f.wave()[cx][cy]) >= 1 by {
                    let c = f.wave()[cx][cy];
                    assert(tiles[0].allows(Direction::Left, Adjacent::Border));
                    assert(tiles[0].allows(Direction::Right, Adjacent::Border));
                    assert(tiles[0].allows(Direction::Up, Adjacent::Border));
                    assert(tiles[0].allows(Direction::Down, Adjacent::Border));
                    assert(c[0]);
                    lemma_none_count(n as nat);
                    lemma_count_true_shrinks(c, Seq::new(n as nat, |i: int| false));
                }
                if let Some(c) = empty {
                    assert(count_true(f.wave()[c.0 as int][c.1 as int]) >= 1);
                }
            }
            assert forall|u: int| #[trigger] universal(tiles, u) implies f.run_state() == RunState::Running
                && universal_ready(tiles, w as nat, h as nat, f.wave(), u) by {
                lemma_initial_ready(tiles, w as nat, h as nat, u);
                if let Some(c) = empty {
                    lemma_ready_nonempty(tiles, w as nat, h as nat, f.wave(), u, c.0 as int, c.1 as int);
                }
            }
        }
        Ok(f)
    }

    /// Fixes one cell of least count above one to one of its tiles, both
    /// drawn from `rng`, and propagates. Ends the run with `Done` when every
    /// cell holds a single tile, and fails when some cell runs out of tiles.
    pub fn collapse(&mut self, rng: &mut rand::rngs::StdRng) -> (r: Result<Step, ContradictionError>)
        requires
            old(self).wf(),
        ensures
            final(self).wf(),
            final(self).model() == old(self).model(),
            final(self).width() == old(self).width(),
            final(self).height() == old(self).height(),
            r == Ok::<Step, ContradictionError>(Step::Done) <==> final(self).run_state() == RunState::Done,
            r == Ok::<Step, ContradictionError>(Step::Progress) <==> final(self).run_state() == RunState::Running,
            r matches Err(e) ==> final(self).run_state() == RunState::Contradiction && final(self).conflict_cell() == (e.x, e.y),
            old(self).run_state() != RunState::Running ==> *final(self) == *old(self),
            forall|cx: int, cy: int, t: int|
                final(self).in_grid(cx, cy) && 0 <= t < final(self).tiles().len()
                    && #[trigger] final(self).wave()[cx][cy][t] ==> old(self).wave()[cx][cy][t],
            old(self).run_state() == RunState::Running && r == Ok::<Step, ContradictionError>(Step::Done) ==> final(self).wave() == old(self).wave(),
            old(self).run_state() == RunState::Running && permissive(old(self).tiles()) ==> r is Ok,
            old(self).run_state() == RunState::Running && r != Ok::<Step, ContradictionError>(Step::Done) ==> grid_total(final(self).wave()) < grid_total(old(self).wave())
                && exists|cx: int, cy: int, t: int| #![trigger old(self).wave()[cx][cy][t]]
                    least_open(old(self).entropy(), old(self).width(), old(self).height(), cx, cy)
                    && 0 <= t < old(self).tiles().len() && old(self).wave()[cx][cy][t]
                    && forall|u: int| 0 <= u < final(self).tiles().len() && #[trigger] final(self).wave()[cx][cy][u] ==> u == t
                    && final(self).wave() == step_result(
                        old(self).tiles(),
                        old(self).width(),
                        old(self).height(),
                        old(self).wave(),
                        cx,
                        cy,
                        t,
                    ).0
                    && (r is Err <==> step_result(
                        old(self).tiles(),
                        old(self).width(),
                        old(self).height(),
                        old(self).wave(),
                        cx,
                        cy,
                        t,
                    ).1 is Some)
                    && (r is Ok ==> forall|px: int, py: int|
                        #![trigger final(self).wave()[px][py]]
                        final(self).in_grid(px, py) ==> settled(
                            final(self).tiles(),
                            final(self).width(),
                            final(self).height(),
                            final(self).wave(),
                            px,
                            py,
                        ) || (!near(cx, cy, px, py) && untouched(
                            final(self).width(),
                            final(self).height(),
                            final(self).wave(),
                            old(self).wave(),
                            px,
                            py,
                        ))),
            r is Ok && at_fixpoint(old(self).tiles(), old(self).width(), old(self).height(), old(self).wave())
                ==> at_fixpoint(final(self).tiles(), final(self).width(), final(self).height(), final(self).wave()),
            forall|u: int|
                #[trigger] universal_ready(old(self).tiles(), old(self).width(), old(self).height(), old(self).wave(), u)
                    && old(self).run_state() != RunState::Contradiction
                    ==> r is Ok && universal_ready(final(self).tiles(), final(self).width(), final(self).height(), final(self).wave(), u),
            (old(self).run_state() != RunState::Running || (forall|cx: int, cy: int|
                old(self).in_grid(cx, cy) ==> #[trigger] old(self).entropy()[cx][cy] <= 1)) ==> *final(rng) == *old(rng),
    {
        match self.state {
            RunState::Done => {
                return Ok(Step::Done);
            },
            RunState::Contradiction => {
                return Err(ContradictionError { x: self.conflict.0, y: self.conflict.1 });
            },
            RunState::Running => {},
        }
        let cells = self.min_entropy_cells();
        match pick(rng, &cells) {
            None => {
                proof {
                    assert forall|cx: int, cy: int| self.in_grid(cx, cy) implies #[trigger] self.entropy()[cx][cy] == 1 by {
                        if self.entropy()[cx][cy] > 1 {
                            self.lemma_min_open_exists(cx, cy);
                            let (mx, my) = choose|mx: int, my: int| #[trigger] least_open(self.entropy(), self.width(), self.height(), mx, my);
                            assert(cells@.contains((mx as usize, my as usize)));
                        }
                    }
                }
                self.state = RunState::Done;
                Ok(Step::Done)
            },
            Some(c) => {
                let (x, y) = c;
                let count = self.tileset.len();
                let ghost g0 = self.wave();
                proof {
                    assert(cells@.contains(c));
                    lemma_count_true_witness(g0[x as int][y as int]);
                    let i = choose|i: int| 0 <= i < g0[x as int][y as int].len() && g0[x as int][y as int][i];
                    assert(i < self.tiles().len());
                }
                let options = self.possible_tiles(x, y);
                proof {
                    let i = choose|i: int| 0 <= i < g0[x as int][y as int].len() && g0[x as int][y as int][i];
                    assert(i < self.tiles().len());
                    assert(g0[x as int][y as int][(i as usize) as int]);
                    assert(options@.contains(i as usize));
                }
                let t = pick(rng, &options).unwrap();
                proof {
                    assert(options@.contains(t));
                }
                self.collapse_at(x, y, t)
            },
        }
    }

    /// Some cell of least count above one exists while a count above one does.
    proof fn lemma_min_open_exists(&self, x: int, y: int)
        requires
            self.shape_ok(),
            self.in_grid(x, y),
            self.entropy()[x][y] > 1,
        ensures
            exists|cx: int, cy: int| #[trigger] least_open(self.entropy(), self.width(), self.height(), cx, cy),
        decreases self.entropy()[x][y],
    {
        let e = self.entropy();
        if exists|cx: int, cy: int| self.in_grid(cx, cy) && #[trigger] e[cx][cy] > 1 && e[cx][cy] < e[x][y] {
            let (cx, cy) = choose|cx: int, cy: int| self.in_grid(cx, cy) && #[trigger] e[cx][cy] > 1 && e[cx][cy] < e[x][y];
            self.lemma_min_open_exists(cx, cy);
        } else {
            assert(least_open(e, self.width(), self.height(), x, y));
        }
    }
}

/// In a finished grid every cell's tile may stand at each grid edge that
/// the cell touches.
pub proof fn lemma_done_respects_border(f: &WaveFunction, x: int, y: int, t: int)
    requires
        f.wf(),
        f.run_state() == RunState::Done,
        f.in_grid(x, y),
        0 <= t < f.tiles().len(),
        f.wave()[x][y][t],
    ensures
        x == 0 ==> f.tiles()[t].allows(Direction::Left, Adjacent::Border),
        x + 1 == f.width() ==> f.tiles()[t].allows(Direction::Right, Adjacent::Border),
        y == 0 ==> f.tiles()[t].allows(Direction::Up, Adjacent::Border),
        y + 1 == f.height() ==> f.tiles()[t].allows(Direction::Down, Adjacent::Border),
{
}

impl WaveFunction {
    /// Whether every cell holds exactly one tile.
    pub fn done(&self) -> (r: bool)
        ensures
            r == (self.run_state() == RunState::Done),
    {
        self.state == RunState::Done
    }

    pub fn state(&self) -> (r: RunState)
        ensures
            r == self.run_state(),
    {
        self.state
    }

    /// The grid's width and height, in cells.
    pub fn shape(&self) -> (r: (usize, usize))
        ensures
            r == (self.width() as usize, self.height() as usize),
    {
        (self.shape[0], self.shape[1])
    }

    pub fn tileset(&self) -> (r: &Tileset)
        ensures
            *r == self.model(),
    {
        &self.tileset
    }

    /// The number of tiles still possible at cell `(x, y)`.
    pub fn entropy_at(&self, x: usize, y: usize) -> (r: usize)
        requires
            self.wf(),
            self.in_grid(x as int, y as int),
        ensures
            r == self.entropy()[x as int][y as int],
            r == count_true(self.wave()[x as int][y as int]),
    {
        self.entropy_field.get(x, y)
    }

    /// Whether tile `t` is still possible at cell `(x, y)`.
    pub fn is_possible(&self, x: usize, y: usize, t: usize) -> (r: bool)
        requires
            self.wf(),
            self.in_grid(x as int, y as int),
            t < self.tiles().len(),
        ensures
            r == self.wave()[x as int][y as int][t as int],
    {
        self.wave_field.get(x, y, t)
    }

    /// The tile of cell `(x, y)` once it holds exactly one.
    pub fn resolved_tile(&self, x: usize, y: usize) -> (r: Option<usize>)
        requires
            self.wf(),
            self.in_grid(x as int, y as int),
        ensures
            r is Some <==> self.entropy()[x as int][y as int] == 1,
            r matches Some(t) ==> t < self.tiles().len() && self.wave()[x as int][y as int] == only(
                self.tiles().len(),
                t as int,
            ),
    {
        if self.entropy_field.get(x, y) != 1 {
            return None;
        }
        let ghost cell = self.wave()[x as int][y as int];
        proof {
            lemma_count_true_witness(cell);
        }
        let n = self.tileset.len();
        let mut t: usize = 0;
        while t < n
            invariant
                self.wf(),
                self.in_grid(x as int, y as int),
                n == self.tiles().len(),
                cell == self.wave()[x as int][y as int],
                count_true(cell) == 1,
                t <= n,
                forall|i: int| 0 <= i < t ==> !cell[i],
            decreases n - t,
        {
            if self.wave_field.get(x, y, t) {
                proof {
                    assert forall|i: int| 0 <= i < n && i != t implies !cell[i] by {
                        if cell[i] {
                            if i < t {
                            } else {
                                lemma_count_true_two(cell, t as int, i);
                            }
                        }
                    }
                    assert(cell =~= only(n as nat, t as int));
                }
                return Some(t);
            }
            t += 1;
        }
        proof {
            let i = choose|i: int| 0 <= i < cell.len() && cell[i];
        }
        None
    }
}

/// `s` is the sample that a raster of `width` by `height` pixels with three
/// bytes per pixel holds.
pub open spec fn holds_raster(s: Sample, width: nat, height: nat, data: Seq<u8>) -> bool {
    &&& s.wf()
    &&& s.width() == width
    &&& s.height() == height
    &&& forall|i: int| 0 <= i < width * height ==> (#[trigger] s.pixels()[i]).channels() == (
        data[3 * i],
        data[3 * i + 1],
        data[3 * i + 2],
    )
}

/// A grid of `w` by `h` cells with `n` tiles holds more flags or counts than
/// an array can address.
pub open spec fn too_large(w: nat, h: nat, n: nat) -> bool {
    w * h > isize::MAX || w * h * n > isize::MAX
}

/// Two samples that hold the same raster have the same blocks.
pub proof fn lemma_raster_blocks(s1: Sample, s2: Sample, width: nat, height: nat, data: Seq<u8>, size: nat)
    requires
        holds_raster(s1, width, height, data),
        holds_raster(s2, width, height, data),
    ensures
        blocks(s1, size) == blocks(s2, size),
{
    assert forall|i: int| 0 <= i < s1.pixels().len() implies s1.pixels()[i] == s2.pixels()[i] by {
        WfcColor::lemma_channels_determine(s1.pixels()[i], s2.pixels()[i]);
    }
    assert(s1.pixels() =~= s2.pixels());
    assert forall|k: int| 0 <= k < blocks(s1, size).len() implies blocks(s1, size)[k] == blocks(s2, size)[k] by {
        let bw = blocks_across(s1, size) as int;
        assert(block(s1, size, k % bw, k / bw) =~= block(s2, size, k % bw, k / bw));
    }
    assert(blocks(s1, size) =~= blocks(s2, size));
}

impl WaveFunction {
    /// A grid of `out_shape.0` by `out_shape.1` cells over the tiles of edge
    /// `TILE_SIZE` cut from a decoded PNG sample: `width` by `height` pixels
    /// with three bytes per pixel, row by row.
    pub fn from_png(out_shape: (usize, usize), width: usize, height: usize, data: &Vec<u8>) -> (r: Result<WaveFunction, ConfigError>)
        ensures
            r is Ok <==> data@.len() == 3 * width * height && width % TILE_SIZE == 0 && height % TILE_SIZE == 0
                && out_shape.0 > 0 && out_shape.1 > 0 && exists|s: Sample|
                #[trigger] holds_raster(s, width as nat, height as nat, data@) && !too_large(
                    out_shape.0 as nat,
                    out_shape.1 as nat,
                    first_seen(blocks(s, TILE_SIZE as nat)).len(),
                ),
            r == Err::<WaveFunction, ConfigError>(ConfigError::AlphaChannel) <==> data@.len() != 3 * width * height
                && data@.len() == 4 * width * height,
            r == Err::<WaveFunction, ConfigError>(ConfigError::NotRgb) <==> data@.len() != 3 * width * height
                && data@.len() != 4 * width * height,
            r == Err::<WaveFunction, ConfigError>(ConfigError::NotTileMultiple) <==> data@.len() == 3 * width * height
                && (width % TILE_SIZE != 0 || height % TILE_SIZE != 0),
            r == Err::<WaveFunction, ConfigError>(ConfigError::EmptyGrid) <==> data@.len() == 3 * width * height
                && width % TILE_SIZE == 0 && height % TILE_SIZE == 0 && (out_shape.0 == 0 || out_shape.1 == 0),
            r == Err::<WaveFunction, ConfigError>(ConfigError::GridTooLarge) <==> data@.len() == 3 * width * height
                && width % TILE_SIZE == 0 && height % TILE_SIZE == 0 && out_shape.0 > 0 && out_shape.1 > 0 && exists|s: Sample|
                #[trigger] holds_raster(s, width as nat, height as nat, data@) && too_large(
                    out_shape.0 as nat,
                    out_shape.1 as nat,
                    first_seen(blocks(s, TILE_SIZE as nat)).len(),
                ),
            r matches Ok(f) ==> exists|s: Sample| {
                &&& #[trigger] holds_raster(s, width as nat, height as nat, data@)
                &&& f.wf()
                &&& f.model().edge() == TILE_SIZE
                &&& f.model().images() == first_seen(blocks(s, TILE_SIZE as nat))
                &&& forall|t: int, d: Direction, a: Adjacent|
                    0 <= t < f.tiles().len() ==> (#[trigger] f.tiles()[t].allows(d, a) <==> sample_admits(
                        s,
                        TILE_SIZE as nat,
                        f.model().images(),
                        t,
                        d,
                        a,
                    ))
                &&& f.width() == out_shape.0
                &&& f.height() == out_shape.1
                &&& f.wave() == initial_grid(f.tiles(), out_shape.0 as nat, out_shape.1 as nat)
                &&& f.run_state() != RunState::Done
            },
    {
        let sample = match Sample::from_rgb(width, height, data) {
            Ok(s) => s,
            Err(e) => {
                return Err(e);
            },
        };
        let tileset = match Tileset::from_sample(&sample, TILE_SIZE) {
            Ok(ts) => ts,
            Err(e) => {
                return Err(e);
            },
        };
        proof {
            assert(holds_raster(sample, width as nat, height as nat, data@));
            assert forall|s2: Sample| #[trigger] holds_raster(s2, width as nat, height as nat, data@) implies first_seen(
                blocks(s2, TILE_SIZE as nat),
            ) == first_seen(blocks(sample, TILE_SIZE as nat)) by {
                lemma_raster_blocks(sample, s2, width as nat, height as nat, data@, TILE_SIZE as nat);
            }
        }
        let f = match WaveFunction::new(out_shape, tileset) {
            Ok(f) => f,
            Err(e) => {
                return Err(e);
            },
        };
        Ok(f)
    }
}

impl WaveFunction {
    /// Steps until every cell holds one tile or some cell holds none. A run
    /// over tiles that admit each other everywhere always finishes.
    pub fn run(&mut self, rng: &mut rand::rngs::StdRng) -> (r: Result<(), ContradictionError>)
        requires
            old(self).wf(),
        ensures
            final(self).wf(),
            final(self).model() == old(self).model(),
            final(self).width() == old(self).width(),
            final(self).height() == old(self).height(),
            r is Ok <==> final(self).run_state() == RunState::Done,
            r matches Err(e) ==> final(self).run_state() == RunState::Contradiction && final(self).conflict_cell() == (e.x, e.y),
            forall|cx: int, cy: int, t: int|
                final(self).in_grid(cx, cy) && 0 <= t < final(self).tiles().len()
                    && #[trigger] final(self).wave()[cx][cy][t] ==> old(self).wave()[cx][cy][t],
            old(self).run_state() != RunState::Contradiction && permissive(old(self).tiles()) ==> r is Ok,
            forall|u: int|
                #[trigger] universal_ready(old(self).tiles(), old(self).width(), old(self).height(), old(self).wave(), u)
                    && old(self).run_state() != RunState::Contradiction ==> r is Ok,
    {
        let ghost g0 = self.wave();
        loop
            invariant
                self.wf(),
                self.model() == old(self).model(),
                self.width() == old(self).width(),
                self.height() == old(self).height(),
                g0 == old(self).wave(),
                forall|cx: int, cy: int, t: int|
                    self.in_grid(cx, cy) && 0 <= t < self.tiles().len() && #[trigger] self.wave()[cx][cy][t] ==> g0[cx][cy][t],
                old(self).run_state() != RunState::Contradiction && permissive(old(self).tiles())
                    ==> self.run_state() != RunState::Contradiction,
                forall|u: int|
                    #[trigger] universal_ready(old(self).tiles(), old(self).width(), old(self).height(), g0, u)
                        && old(self).run_state() != RunState::Contradiction
                        ==> self.run_state() != RunState::Contradiction && universal_ready(
                        self.tiles(),
                        self.width(),
                        self.height(),
                        self.wave(),
                        u,
                    ),
            decreases grid_total(self.wave()),
        {
            let ghost g1 = self.wave();
            match self.collapse(rng) {
                Ok(Step::Done) => {
                    return Ok(());
                },
                Ok(Step::Progress) => {
                    proof {
                        assert(grid_total(self.wave()) < grid_total(g1));
                    }
                },
                Err(e) => {
                    return Err(e);
                },
            }
        }
    }
}

/// Tile `u` admits every tile and the border on every side.
pub open spec fn universal(tiles: Seq<Tile>, u: int) -> bool {
    &&& 0 <= u < tiles.len()
    &&& forall|d: Direction, a: Adjacent|
        (a == Adjacent::Border || (a matches Adjacent::Tile(k) && k < tiles.len())) ==> #[trigger] tiles[u].allows(d, a)
}

/// Adjacency among `tiles` is symmetric.
#[verifier::opaque]
pub open spec fn symmetric(tiles: Seq<Tile>) -> bool {
    forall|i: int, j: int, d: Direction|
        0 <= i < tiles.len() && 0 <= j < tiles.len() && #[trigger] tiles[i].allows(d, Adjacent::Tile(j as usize))
            ==> tiles[j].allows(opposite(d), Adjacent::Tile(i as usize))
}

/// What the core grid holds at cell `(cx, cy)`: the fixed cell keeps `t`,
/// decided cells keep their tile, and every other cell keeps `u` alone.
pub open spec fn core_cell(g: Seq<Seq<Seq<bool>>>, n: nat, x: int, y: int, t: int, u: int, cx: int, cy: int) -> Seq<bool> {
    if cx == x && cy == y {
        only(n, t)
    } else if count_true(g[cx][cy]) == 1 {
        g[cx][cy]
    } else {
        only(n, u)
    }
}

/// The stable grid used to show that a step over a universal tile cannot fail.
pub open spec fn universal_core(g: Seq<Seq<Seq<bool>>>, w: nat, h: nat, n: nat, x: int, y: int, t: int, u: int) -> Seq<Seq<Seq<bool>>> {
    Seq::new(w, |cx: int| Seq::new(h, |cy: int| core_cell(g, n, x, y, t, u, cx, cy)))
}

/// A cell that counts one holds exactly the tile it holds.
proof fn lemma_single_tile(c: Seq<bool>, s: int, v: int)
    requires
        count_true(c) == 1,
        0 <= s < c.len(),
        0 <= v < c.len(),
        c[s],
        c[v],
    ensures
        s == v,
{
    if s < v {
        lemma_count_true_two(c, s, v);
    } else if v < s {
        lemma_count_true_two(c, v, s);
    }
}

proof fn lemma_opposite_twice(d: Direction)
    ensures
        opposite(opposite(d)) == d,
{
    match d {
        Direction::Up => {},
        Direction::Down => {},
        Direction::Left => {},
        Direction::Right => {},
    }
}

/// Every tile admits a universal tile on every side.
proof fn lemma_admits_universal(tiles: Seq<Tile>, u: int, v: int, d: Direction)
    requires
        universal(tiles, u),
        symmetric(tiles),
        tiles.len() <= usize::MAX,
        0 <= v < tiles.len(),
    ensures
        tiles[v].allows(d, Adjacent::Tile(u as usize)),
{
    lemma_opposite_twice(d);
    assert(tiles[u].allows(opposite(d), Adjacent::Tile(v as usize)));
    lemma_flip(tiles, u, v, opposite(d));
}

/// If `i` admits `j` on side `d`, `j` admits `i` on the opposite side.
proof fn lemma_flip(tiles: Seq<Tile>, i: int, j: int, d: Direction)
    requires
        symmetric(tiles),
        0 <= i < tiles.len(),
        0 <= j < tiles.len(),
        tiles[i].allows(d, Adjacent::Tile(j as usize)),
    ensures
        tiles[j].allows(opposite(d), Adjacent::Tile(i as usize)),
{
    reveal(symmetric);
}

/// In the core grid, tile `s` at cell `(dx, dy)` is admitted by the core's
/// neighbour `(nx, ny)` on its side `back`.
proof fn lemma_core_support(
    tiles: Seq<Tile>,
    g: Seq<Seq<Seq<bool>>>,
    x: int,
    y: int,
    t: int,
    u: int,
    dx: int,
    dy: int,
    nx: int,
    ny: int,
    back: Direction,
    s: int,
)
    requires
        universal(tiles, u),
        symmetric(tiles),
        tiles.len() <= usize::MAX,
        0 <= t < tiles.len(),
        g[x][y][t],
        g[dx][dy].len() == tiles.len(),
        g[nx][ny].len() == tiles.len(),
        !(dx == nx && dy == ny),
        count_true(g[dx][dy]) >= 1,
        count_true(g[nx][ny]) >= 1,
        count_true(g[nx][ny]) > 1 ==> g[nx][ny][u],
        forall|v: int| 0 <= v < tiles.len() && #[trigger] g[dx][dy][v] ==> support(tiles, g, nx, ny, back, v),
        forall|v: int| 0 <= v < tiles.len() && #[trigger] g[nx][ny][v] ==> support(tiles, g, dx, dy, opposite(back), v),
        0 <= s < tiles.len(),
        core_cell(g, tiles.len(), x, y, t, u, dx, dy)[s],
    ensures
        exists|v: int|
            0 <= v < tiles.len() && #[trigger] core_cell(g, tiles.len(), x, y, t, u, nx, ny)[v] && tiles[v].allows(
                back,
                Adjacent::Tile(s as usize),
            ),
{
    let n = tiles.len();
    let fd = core_cell(g, n, x, y, t, u, dx, dy);
    let fnb = core_cell(g, n, x, y, t, u, nx, ny);
    lemma_opposite_twice(back);
    let d_fixed = dx == x && dy == y;
    let d_single = !d_fixed && count_true(g[dx][dy]) == 1;
    if nx == x && ny == y {
        assert(fnb[t]);
        if d_single {
            assert(g[dx][dy][s]);
            assert(support(tiles, g, dx, dy, opposite(back), t));
            let v = choose|v: int| 0 <= v < tiles.len() && #[trigger] g[dx][dy][v] && tiles[v].allows(opposite(back), Adjacent::Tile(t as usize));
            lemma_single_tile(g[dx][dy], s, v);
            assert(tiles[s].allows(opposite(back), Adjacent::Tile(t as usize)));
            lemma_flip(tiles, s, t, opposite(back));
        } else {
            assert(s == u);
            lemma_admits_universal(tiles, u, t, back);
        }
        assert(tiles[t].allows(back, Adjacent::Tile(s as usize)));
    } else if count_true(g[nx][ny]) == 1 {
        lemma_count_true_witness(g[nx][ny]);
        let v0 = choose|v: int| 0 <= v < g[nx][ny].len() && g[nx][ny][v];
        assert(fnb == g[nx][ny]);
        if d_fixed {
            assert(s == t);
            assert(support(tiles, g, nx, ny, back, s));
        } else if d_single {
            assert(g[dx][dy][s]);
            assert(support(tiles, g, nx, ny, back, s));
        } else {
            assert(s == u);
            lemma_admits_universal(tiles, u, v0, back);
            assert(fnb[v0]);
        }
    } else {
        assert(fnb[u]);
        assert(tiles[u].allows(back, Adjacent::Tile(s as usize)));
    }
}

/// The conditions under which a step over a universal tile `u` cannot fail:
/// the grid is at fixpoint, no cell is empty, and `u` is possible in every
/// cell that still holds more than one tile.
#[verifier::opaque]
pub open spec fn universal_ready(tiles: Seq<Tile>, w: nat, h: nat, g: Seq<Seq<Seq<bool>>>, u: int) -> bool {
    &&& universal(tiles, u)
    &&& at_fixpoint(tiles, w, h, g)
    &&& forall|cx: int, cy: int| 0 <= cx < w && 0 <= cy < h ==> #[trigger] count_true(g[cx][cy]) >= 1
    &&& forall|cx: int, cy: int| 0 <= cx < w && 0 <= cy < h && count_true(g[cx][cy]) > 1 ==> #[trigger] g[cx][cy][u]
}

/// Tile `s` of core cell `(dx, dy)` is admitted by its neighbour `(nx, ny)`,
/// which faces it with side `back`.
proof fn lemma_core_side(
    tiles: Seq<Tile>,
    w: nat,
    h: nat,
    g: Seq<Seq<Seq<bool>>>,
    x: int,
    y: int,
    t: int,
    u: int,
    dx: int,
    dy: int,
    nx: int,
    ny: int,
    back: Direction,
    s: int,
)
    requires
        symmetric(tiles),
        tiles.len() <= usize::MAX,
        shaped(g, w, h, tiles.len()),
        universal(tiles, u),
        0 <= t < tiles.len(),
        g[x][y][t],
        0 <= dx < w && 0 <= dy < h,
        0 <= nx < w && 0 <= ny < h,
        !(dx == nx && dy == ny),
        count_true(g[dx][dy]) >= 1,
        count_true(g[nx][ny]) >= 1,
        count_true(g[nx][ny]) > 1 ==> g[nx][ny][u],
        forall|v: int| 0 <= v < tiles.len() && #[trigger] g[dx][dy][v] ==> support(tiles, g, nx, ny, back, v),
        forall|v: int| 0 <= v < tiles.len() && #[trigger] g[nx][ny][v] ==> support(tiles, g, dx, dy, opposite(back), v),
        0 <= s < tiles.len(),
        universal_core(g, w, h, tiles.len(), x, y, t, u)[dx][dy][s],
    ensures
        support(tiles, universal_core(g, w, h, tiles.len(), x, y, t, u), nx, ny, back, s),
{
    let n = tiles.len();
    let f = universal_core(g, w, h, n, x, y, t, u);
    assert(f[dx][dy] == core_cell(g, n, x, y, t, u, dx, dy));
    assert(f[nx][ny] == core_cell(g, n, x, y, t, u, nx, ny));
    lemma_core_support(tiles, g, x, y, t, u, dx, dy, nx, ny, back, s);
    let v = choose|v: int|
        0 <= v < tiles.len() && #[trigger] core_cell(g, tiles.len(), x, y, t, u, nx, ny)[v] && tiles[v].allows(
            back,
            Adjacent::Tile(s as usize),
        );
    assert(f[nx][ny][v]);
}

/// Each cell of the core grid loses nothing to a revision.
proof fn lemma_core_settled(tiles: Seq<Tile>, w: nat, h: nat, g: Seq<Seq<Seq<bool>>>, x: int, y: int, t: int, u: int, dx: int, dy: int)
    requires
        symmetric(tiles),
        tiles.len() <= usize::MAX,
        shaped(g, w, h, tiles.len()),
        universal_ready(tiles, w, h, g, u),
        0 <= x < w && 0 <= y < h,
        0 <= t < tiles.len(),
        g[x][y][t],
        0 <= dx < w && 0 <= dy < h,
    ensures
        settled(tiles, w, h, universal_core(g, w, h, tiles.len(), x, y, t, u), dx, dy),
{
    reveal(universal_ready);
    let n = tiles.len();
    let f = universal_core(g, w, h, n, x, y, t, u);
    assert forall|s: int| 0 <= s < n && #[trigger] f[dx][dy][s] implies supported(tiles, w, h, f, dx, dy, s) by {
        if dx > 0 {
            lemma_side_facts(tiles, w, h, g, dx, dy, dx - 1, dy, Direction::Right);
            lemma_core_side(tiles, w, h, g, x, y, t, u, dx, dy, dx - 1, dy, Direction::Right, s);
        }
        if dx + 1 < w {
            lemma_side_facts(tiles, w, h, g, dx, dy, dx + 1, dy, Direction::Left);
            lemma_core_side(tiles, w, h, g, x, y, t, u, dx, dy, dx + 1, dy, Direction::Left, s);
        }
        if dy > 0 {
            lemma_side_facts(tiles, w, h, g, dx, dy, dx, dy - 1, Direction::Down);
            lemma_core_side(tiles, w, h, g, x, y, t, u, dx, dy, dx, dy - 1, Direction::Down, s);
        }
        if dy + 1 < h {
            lemma_side_facts(tiles, w, h, g, dx, dy, dx, dy + 1, Direction::Up);
            lemma_core_side(tiles, w, h, g, x, y, t, u, dx, dy, dx, dy + 1, Direction::Up, s);
        }
    }
    assert(f[dx][dy] =~= revised(tiles, w, h, f, dx, dy));
}

/// In a grid at fixpoint, two neighbours support each other's tiles.
proof fn lemma_side_facts(tiles: Seq<Tile>, w: nat, h: nat, g: Seq<Seq<Seq<bool>>>, dx: int, dy: int, nx: int, ny: int, back: Direction)
    requires
        shaped(g, w, h, tiles.len()),
        at_fixpoint(tiles, w, h, g),
        0 <= dx < w && 0 <= dy < h,
        0 <= nx < w && 0 <= ny < h,
        (nx == dx - 1 && ny == dy && back == Direction::Right) || (nx == dx + 1 && ny == dy && back == Direction::Left)
            || (nx == dx && ny == dy - 1 && back == Direction::Down) || (nx == dx && ny == dy + 1 && back == Direction::Up),
    ensures
        forall|v: int| 0 <= v < tiles.len() && #[trigger] g[dx][dy][v] ==> support(tiles, g, nx, ny, back, v),
        forall|v: int| 0 <= v < tiles.len() && #[trigger] g[nx][ny][v] ==> support(tiles, g, dx, dy, opposite(back), v),
{
    assert(settled(tiles, w, h, g, dx, dy));
    assert(settled(tiles, w, h, g, nx, ny));
    assert forall|v: int| 0 <= v < tiles.len() && #[trigger] g[dx][dy][v] implies support(tiles, g, nx, ny, back, v) by {
        assert(revised(tiles, w, h, g, dx, dy)[v]);
    }
    assert forall|v: int| 0 <= v < tiles.len() && #[trigger] g[nx][ny][v] implies support(tiles, g, dx, dy, opposite(back), v) by {
        assert(revised(tiles, w, h, g, nx, ny)[v]);
    }
}

/// In a well-formed tile set adjacency is symmetric.
proof fn lemma_wf_symmetric(ts: Tileset)
    requires
        ts.wf(),
    ensures
        symmetric(ts.tiles()),
{
    reveal(symmetric);
    assert forall|i: int, j: int, d: Direction|
        0 <= i < ts.tiles().len() && 0 <= j < ts.tiles().len() && #[trigger] ts.tiles()[i].allows(d, Adjacent::Tile(j as usize))
            implies ts.tiles()[j].allows(opposite(d), Adjacent::Tile(i as usize)) by {
        assert(ts.tiles()[i].allows(d, Adjacent::Tile(j as usize)) <==> ts.tiles()[j].allows(opposite(d), Adjacent::Tile(i as usize)));
    }
}

/// Fixing a cell of a grid that is ready for the universal tile `u` leaves
/// a stable part: the core grid.
proof fn lemma_universal_stable(tiles: Seq<Tile>, w: nat, h: nat, g: Seq<Seq<Seq<bool>>>, x: int, y: int, t: int, u: int)
    requires
        symmetric(tiles),
        tiles.len() <= usize::MAX,
        shaped(g, w, h, tiles.len()),
        universal_ready(tiles, w, h, g, u),
        0 <= x < w && 0 <= y < h,
        0 <= t < tiles.len(),
        g[x][y][t],
    ensures
        stable_part(
            tiles,
            w,
            h,
            g.update(x, g[x].update(y, only(tiles.len(), t))),
            universal_core(g, w, h, tiles.len(), x, y, t, u),
        ),
{
    reveal(universal_ready);
    let n = tiles.len();
    let f = universal_core(g, w, h, n, x, y, t, u);
    let g1 = g.update(x, g[x].update(y, only(n, t)));
    assert forall|cx: int, cy: int| 0 <= cx < w && 0 <= cy < h implies #[trigger] f[cx][cy] == core_cell(g, n, x, y, t, u, cx, cy) by {}
    assert(shaped(f, w, h, n));
    assert forall|cx: int, cy: int, s: int| 0 <= cx < w && 0 <= cy < h && 0 <= s < n && #[trigger] f[cx][cy][s]
        implies g1[cx][cy][s] by {
        if !(cx == x && cy == y) && count_true(g[cx][cy]) != 1 {
            assert(s == u);
            assert(g[cx][cy][u]);
        }
    }
    assert forall|cx: int, cy: int| 0 <= cx < w && 0 <= cy < h implies holds_some(#[trigger] f[cx][cy]) by {
        if cx == x && cy == y {
            assert(f[cx][cy][t]);
        } else if count_true(g[cx][cy]) == 1 {
            lemma_count_true_witness(g[cx][cy]);
        } else {
            assert(f[cx][cy][u]);
        }
    }
    assert forall|cx: int, cy: int| 0 <= cx < w && 0 <= cy < h implies #[trigger] settled(tiles, w, h, f, cx, cy) by {
        lemma_core_settled(tiles, w, h, g, x, y, t, u, cx, cy);
    }
}

/// After a step from a grid ready for `u` that kept the core grid, the
/// result is ready for `u` again.
proof fn lemma_universal_after(tiles: Seq<Tile>, w: nat, h: nat, g0: Seq<Seq<Seq<bool>>>, g2: Seq<Seq<Seq<bool>>>, x: int, y: int, t: int, u: int)
    requires
        shaped(g0, w, h, tiles.len()),
        shaped(g2, w, h, tiles.len()),
        universal_ready(tiles, w, h, g0, u),
        0 <= x < w && 0 <= y < h,
        0 <= t < tiles.len(),
        forall|f: Seq<Seq<Seq<bool>>>|
            stable_part(tiles, w, h, g0.update(x, g0[x].update(y, only(tiles.len(), t))), f)
                ==> #[trigger] within(f, g2, w, h, tiles.len()),
        symmetric(tiles),
        tiles.len() <= usize::MAX,
        g0[x][y][t],
        forall|cx: int, cy: int, i: int|
            0 <= cx < w && 0 <= cy < h && 0 <= i < tiles.len() && #[trigger] g2[cx][cy][i]
                ==> g0.update(x, g0[x].update(y, only(tiles.len(), t)))[cx][cy][i],
        forall|cx: int, cy: int| 0 <= cx < w && 0 <= cy < h ==> #[trigger] count_true(g2[cx][cy]) >= 1,
        at_fixpoint(tiles, w, h, g2),
    ensures
        universal_ready(tiles, w, h, g2, u),
{
    reveal(universal_ready);
    let n = tiles.len();
    let g1 = g0.update(x, g0[x].update(y, only(n, t)));
    let f = universal_core(g0, w, h, n, x, y, t, u);
    lemma_universal_stable(tiles, w, h, g0, x, y, t, u);
    assert(within(f, g2, w, h, n));
    assert forall|cx: int, cy: int| 0 <= cx < w && 0 <= cy < h && count_true(g2[cx][cy]) > 1
        implies #[trigger] g2[cx][cy][u] by {
        assert forall|i: int| 0 <= i < n && #[trigger] g2[cx][cy][i] implies g1[cx][cy][i] by {}
        lemma_count_true_shrinks(g1[cx][cy], g2[cx][cy]);
        if cx == x && cy == y {
            lemma_single_count(n, t);
        } else if count_true(g0[cx][cy]) == 1 {
            assert(g1[cx][cy] == g0[cx][cy]);
        } else {
            assert(f[cx][cy] == core_cell(g0, n, x, y, t, u, cx, cy));
            assert(f[cx][cy][u]);
        }
    }
}

/// Fixing a cell of a grid ready for `u` leaves some stable part.
proof fn lemma_universal_before(tiles: Seq<Tile>, w: nat, h: nat, g: Seq<Seq<Seq<bool>>>, x: int, y: int, t: int, u: int)
    requires
        symmetric(tiles),
        tiles.len() <= usize::MAX,
        shaped(g, w, h, tiles.len()),
        universal_ready(tiles, w, h, g, u),
        0 <= x < w && 0 <= y < h,
        0 <= t < tiles.len(),
        g[x][y][t],
    ensures
        exists|f: Seq<Seq<Seq<bool>>>| #[trigger] stable_part(tiles, w, h, g.update(x, g[x].update(y, only(tiles.len(), t))), f),
{
    lemma_universal_stable(tiles, w, h, g, x, y, t, u);
}

proof fn lemma_ready_fixpoint(tiles: Seq<Tile>, w: nat, h: nat, g: Seq<Seq<Seq<bool>>>, u: int)
    requires
        universal_ready(tiles, w, h, g, u),
    ensures
        at_fixpoint(tiles, w, h, g),
{
    reveal(universal_ready);
}

proof fn lemma_ready_nonempty(tiles: Seq<Tile>, w: nat, h: nat, g: Seq<Seq<Seq<bool>>>, u: int, x: int, y: int)
    requires
        universal_ready(tiles, w, h, g, u),
        0 <= x < w && 0 <= y < h,
    ensures
        count_true(g[x][y]) >= 1,
{
    reveal(universal_ready);
}

/// A fresh grid over a tile set with a universal tile is ready for it.
proof fn lemma_initial_ready(tiles: Seq<Tile>, w: nat, h: nat, u: int)
    requires
        universal(tiles, u),
        tiles.len() <= usize::MAX,
    ensures
        universal_ready(tiles, w, h, initial_grid(tiles, w, h), u),
{
    reveal(universal_ready);
    let g = initial_grid(tiles, w, h);
    let n = tiles.len();
    assert forall|cx: int, cy: int| 0 <= cx < w && 0 <= cy < h implies #[trigger] g[cx][cy][u] by {
        assert(tiles[u].allows(Direction::Left, Adjacent::Border));
        assert(tiles[u].allows(Direction::Right, Adjacent::Border));
        assert(tiles[u].allows(Direction::Up, Adjacent::Border));
        assert(tiles[u].allows(Direction::Down, Adjacent::Border));
    }
    assert forall|cx: int, cy: int| 0 <= cx < w && 0 <= cy < h implies #[trigger] count_true(g[cx][cy]) >= 1 by {
        assert(g[cx][cy][u]);
        lemma_none_count(n);
        lemma_count_true_shrinks(g[cx][cy], Seq::new(n, |i: int| false));
    }
    assert forall|cx: int, cy: int| 0 <= cx < w && 0 <= cy < h implies #[trigger] settled(tiles, w, h, g, cx, cy) by {
        assert forall|s: int| 0 <= s < n && #[trigger] g[cx][cy][s] implies supported(tiles, w, h, g, cx, cy, s) by {
            let a = Adjacent::Tile(s as usize);
            assert(tiles[u].allows(Direction::Right, a));
            assert(tiles[u].allows(Direction::Left, a));
            assert(tiles[u].allows(Direction::Down, a));
            assert(tiles[u].allows(Direction::Up, a));
            if cx > 0 {
                assert(g[cx - 1][cy][u]);
            }
            if cx + 1 < w {
                assert(g[cx + 1][cy][u]);
            }
            if cy > 0 {
                assert(g[cx][cy - 1][u]);
            }
            if cy + 1 < h {
                assert(g[cx][cy + 1][u]);
            }
        }
        assert(g[cx][cy] =~= revised(tiles, w, h, g, cx, cy));
    }
}

} // verus!

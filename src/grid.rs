//! The possibility grid as mathematics: flags per cell and tile, how a cell
//! is revised against its neighbours, and the facts the solver's proofs use.
use vstd::prelude::*;
use crate::tileset::{Adjacent, Direction, Tile};

verus! {

/// The number of `true` entries of `s`.
pub open spec fn count_true(s: Seq<bool>) -> nat
    decreases s.len(),
{
    if s.len() == 0 {
        0
    } else {
        count_true(s.drop_last()) + if s.last() {
            1nat
        } else {
            0nat
        }
    }
}

/// The number of possibilities left in a column of cells.
pub open spec fn column_total(col: Seq<Seq<bool>>) -> nat
    decreases col.len(),
{
    if col.len() == 0 {
        0
    } else {
        column_total(col.drop_last()) + count_true(col.last())
    }
}

/// The number of possibilities left in the whole grid.
pub open spec fn grid_total(g: Seq<Seq<Seq<bool>>>) -> nat
    decreases g.len(),
{
    if g.len() == 0 {
        0
    } else {
        grid_total(g.drop_last()) + column_total(g.last())
    }
}

/// `g` is a `w` by `h` grid of cells, each with `n` flags.
pub open spec fn shaped(g: Seq<Seq<Seq<bool>>>, w: nat, h: nat, n: nat) -> bool {
    &&& g.len() == w
    &&& forall|x: int| 0 <= x < w ==> (#[trigger] g[x]).len() == h
    &&& forall|x: int, y: int| 0 <= x < w && 0 <= y < h ==> (#[trigger] g[x][y]).len() == n
}

/// Some tile still possible at cell `(nx, ny)` admits tile `t` on its side `back`.
pub open spec fn support(tiles: Seq<Tile>, g: Seq<Seq<Seq<bool>>>, nx: int, ny: int, back: Direction, t: int) -> bool {
    exists|u: int|
        0 <= u < tiles.len() && #[trigger] g[nx][ny][u] && tiles[u].allows(back, Adjacent::Tile(t as usize))
}

/// Tile `t` at cell `(x, y)` is admitted by some possibility of every
/// neighbour inside the `w` by `h` grid.
pub open spec fn supported(tiles: Seq<Tile>, w: nat, h: nat, g: Seq<Seq<Seq<bool>>>, x: int, y: int, t: int) -> bool {
    &&& x > 0 ==> support(tiles, g, x - 1, y, Direction::Right, t)
    &&& x + 1 < w ==> support(tiles, g, x + 1, y, Direction::Left, t)
    &&& y > 0 ==> support(tiles, g, x, y - 1, Direction::Down, t)
    &&& y + 1 < h ==> support(tiles, g, x, y + 1, Direction::Up, t)
}

/// The flags of cell `(x, y)` once every unsupported tile is removed.
pub open spec fn revised(tiles: Seq<Tile>, w: nat, h: nat, g: Seq<Seq<Seq<bool>>>, x: int, y: int) -> Seq<bool> {
    Seq::new(tiles.len(), |t: int| g[x][y][t] && supported(tiles, w, h, g, x, y, t))
}

/// Cell `(x, y)` loses nothing to a revision.
pub open spec fn settled(tiles: Seq<Tile>, w: nat, h: nat, g: Seq<Seq<Seq<bool>>>, x: int, y: int) -> bool {
    g[x][y] == revised(tiles, w, h, g, x, y)
}

/// No cell of the grid loses anything to a revision.
pub open spec fn at_fixpoint(tiles: Seq<Tile>, w: nat, h: nat, g: Seq<Seq<Seq<bool>>>) -> bool {
    forall|x: int, y: int| 0 <= x < w && 0 <= y < h ==> #[trigger] settled(tiles, w, h, g, x, y)
}

/// Cells `(x, y)` and `(cx, cy)` are equal or share a side.
pub open spec fn near(x: int, y: int, cx: int, cy: int) -> bool {
    (x == cx && (y == cy || y == cy + 1 || y + 1 == cy)) || (y == cy && (x == cx + 1 || x + 1 == cx))
}

/// Tile `t` may stand at cell `(x, y)` as far as the grid's edges go.
pub open spec fn border_ok(tiles: Seq<Tile>, w: nat, h: nat, x: int, y: int, t: int) -> bool {
    &&& x == 0 ==> tiles[t].allows(Direction::Left, Adjacent::Border)
    &&& x + 1 == w ==> tiles[t].allows(Direction::Right, Adjacent::Border)
    &&& y == 0 ==> tiles[t].allows(Direction::Up, Adjacent::Border)
    &&& y + 1 == h ==> tiles[t].allows(Direction::Down, Adjacent::Border)
}

/// The grid at the start of a run: each tile is possible in each cell
/// exactly where the edges allow it.
pub open spec fn initial_grid(tiles: Seq<Tile>, w: nat, h: nat) -> Seq<Seq<Seq<bool>>> {
    Seq::new(w, |x: int| Seq::new(h, |y: int| Seq::new(tiles.len(), |t: int| border_ok(tiles, w, h, x, y, t))))
}

pub proof fn lemma_count_true_prefix(s: Seq<bool>, i: int)
    requires
        0 <= i < s.len(),
    ensures
        count_true(s.take(i + 1)) == count_true(s.take(i)) + if s[i] {
            1nat
        } else {
            0nat
        },
{
    assert(s.take(i + 1).drop_last() =~= s.take(i));
}

/// Removing at least one flag, and adding none, lowers the count.
pub proof fn lemma_count_true_shrinks(a: Seq<bool>, b: Seq<bool>)
    requires
        a.len() == b.len(),
        forall|i: int| 0 <= i < a.len() && #[trigger] b[i] ==> a[i],
    ensures
        count_true(b) <= count_true(a),
        (exists|i: int| 0 <= i < a.len() && a[i] && !b[i]) ==> count_true(b) < count_true(a),
    decreases a.len(),
{
    if a.len() > 0 {
        let a1 = a.drop_last();
        let b1 = b.drop_last();
        assert forall|i: int| 0 <= i < a1.len() && #[trigger] b1[i] implies a1[i] by {
            assert(b[i]);
        }
        lemma_count_true_shrinks(a1, b1);
        if exists|i: int| 0 <= i < a.len() && a[i] && !b[i] {
            let i = choose|i: int| 0 <= i < a.len() && a[i] && !b[i];
            if i < a.len() - 1 {
                assert(a1[i] && !b1[i]);
            }
        }
    }
}

pub proof fn lemma_column_total_update(col: Seq<Seq<bool>>, y: int, c: Seq<bool>)
    requires
        0 <= y < col.len(),
    ensures
        column_total(col.update(y, c)) + count_true(col[y]) == column_total(col) + count_true(c),
    decreases col.len(),
{
    let u = col.update(y, c);
    if y == col.len() - 1 {
        assert(u.drop_last() =~= col.drop_last());
    } else {
        assert(u.drop_last() =~= col.drop_last().update(y, c));
        lemma_column_total_update(col.drop_last(), y, c);
    }
}

pub proof fn lemma_grid_total_update(g: Seq<Seq<Seq<bool>>>, x: int, col: Seq<Seq<bool>>)
    requires
        0 <= x < g.len(),
    ensures
        grid_total(g.update(x, col)) + column_total(g[x]) == grid_total(g) + column_total(col),
    decreases g.len(),
{
    let u = g.update(x, col);
    if x == g.len() - 1 {
        assert(u.drop_last() =~= g.drop_last());
    } else {
        assert(u.drop_last() =~= g.drop_last().update(x, col));
        lemma_grid_total_update(g.drop_last(), x, col);
    }
}

/// Replacing one cell by a strict subset of its flags lowers the grid total.
pub proof fn lemma_grid_total_shrinks(g: Seq<Seq<Seq<bool>>>, x: int, y: int, c: Seq<bool>)
    requires
        0 <= x < g.len(),
        0 <= y < g[x].len(),
        c.len() == g[x][y].len(),
        forall|i: int| 0 <= i < c.len() && #[trigger] c[i] ==> g[x][y][i],
        c != g[x][y],
    ensures
        grid_total(g.update(x, g[x].update(y, c))) < grid_total(g),
{
    let a = g[x][y];
    if forall|i: int| 0 <= i < a.len() ==> a[i] == #[trigger] c[i] {
        assert(a =~= c);
    }
    let i = choose|i: int| !(0 <= i < a.len() ==> a[i] == #[trigger] c[i]);
    assert(a[i] && !c[i]);
    lemma_count_true_shrinks(a, c);
    lemma_column_total_update(g[x], y, c);
    lemma_grid_total_update(g, x, g[x].update(y, c));
}

/// A revision depends only on the cell and its neighbours.
pub proof fn lemma_revised_frame(
    tiles: Seq<Tile>,
    w: nat,
    h: nat,
    g: Seq<Seq<Seq<bool>>>,
    g2: Seq<Seq<Seq<bool>>>,
    x: int,
    y: int,
)
    requires
        shaped(g, w, h, tiles.len()),
        shaped(g2, w, h, tiles.len()),
        0 <= x < w,
        0 <= y < h,
        forall|cx: int, cy: int|
            0 <= cx < w && 0 <= cy < h && near(x, y, cx, cy) ==> #[trigger] g2[cx][cy] == g[cx][cy],
    ensures
        revised(tiles, w, h, g2, x, y) == revised(tiles, w, h, g, x, y),
{
    assert(g2[x][y] == g[x][y]);
    if x > 0 {
        assert(g2[x - 1][y] == g[x - 1][y]);
    }
    if x + 1 < w {
        assert(g2[x + 1][y] == g[x + 1][y]);
    }
    if y > 0 {
        assert(g2[x][y - 1] == g[x][y - 1]);
    }
    if y + 1 < h {
        assert(g2[x][y + 1] == g[x][y + 1]);
    }
    assert(revised(tiles, w, h, g2, x, y) =~= revised(tiles, w, h, g, x, y));
}

/// Cell `(cx, cy)` lies inside the `w` by `h` grid and shares a side with `(x, y)`.
pub open spec fn beside(w: nat, h: nat, x: int, y: int, cx: int, cy: int) -> bool {
    0 <= cx < w && 0 <= cy < h && near(x, y, cx, cy) && !(x == cx && y == cy)
}

/// Cell `(x, y)` and its neighbours hold what they held in `g0`.
pub open spec fn untouched(w: nat, h: nat, g: Seq<Seq<Seq<bool>>>, g0: Seq<Seq<Seq<bool>>>, x: int, y: int) -> bool {
    forall|cx: int, cy: int|
        0 <= cx < w && 0 <= cy < h && near(x, y, cx, cy) ==> #[trigger] g[cx][cy] == g0[cx][cy]
}

/// Writing a cell's revision back leaves it settled.
pub proof fn lemma_revise_settles(tiles: Seq<Tile>, w: nat, h: nat, g: Seq<Seq<Seq<bool>>>, x: int, y: int)
    requires
        shaped(g, w, h, tiles.len()),
        0 <= x < w,
        0 <= y < h,
    ensures
        settled(tiles, w, h, g.update(x, g[x].update(y, revised(tiles, w, h, g, x, y))), x, y),
{
    let c = revised(tiles, w, h, g, x, y);
    let g2 = g.update(x, g[x].update(y, c));
    assert forall|t: int| 0 <= t < tiles.len() implies #[trigger] supported(tiles, w, h, g2, x, y, t)
        == supported(tiles, w, h, g, x, y, t) by {
        if x > 0 {
            assert(g2[x - 1][y] == g[x - 1][y]);
        }
        if x + 1 < w {
            assert(g2[x + 1][y] == g[x + 1][y]);
        }
        if y > 0 {
            assert(g2[x][y - 1] == g[x][y - 1]);
        }
        if y + 1 < h {
            assert(g2[x][y + 1] == g[x][y + 1]);
        }
    }
    assert(g2[x][y] == c);
    assert(revised(tiles, w, h, g2, x, y) =~= c);
}

/// `a` names, for every cell of the `w` by `h` grid, one tile still possible there.
pub open spec fn fits_grid(g: Seq<Seq<Seq<bool>>>, w: nat, h: nat, n: nat, a: Seq<Seq<int>>) -> bool {
    &&& a.len() == w
    &&& forall|x: int| 0 <= x < w ==> (#[trigger] a[x]).len() == h
    &&& forall|x: int, y: int| 0 <= x < w && 0 <= y < h ==> 0 <= #[trigger] a[x][y] < n && g[x][y][a[x][y]]
}

/// Side by side, the tiles that `a` names admit each other.
pub open spec fn consistent(tiles: Seq<Tile>, w: nat, h: nat, a: Seq<Seq<int>>) -> bool {
    forall|x: int, y: int|
        #![trigger a[x][y]]
        0 <= x < w && 0 <= y < h ==> {
            &&& x + 1 < w ==> tiles[a[x][y]].allows(Direction::Right, Adjacent::Tile(a[x + 1][y] as usize))
                && tiles[a[x + 1][y]].allows(Direction::Left, Adjacent::Tile(a[x][y] as usize))
            &&& y + 1 < h ==> tiles[a[x][y]].allows(Direction::Down, Adjacent::Tile(a[x][y + 1] as usize))
                && tiles[a[x][y + 1]].allows(Direction::Up, Adjacent::Tile(a[x][y] as usize))
        }
}

/// Some consistent choice of one tile per cell is still open in `g`.
pub open spec fn completable(tiles: Seq<Tile>, w: nat, h: nat, g: Seq<Seq<Seq<bool>>>) -> bool {
    exists|a: Seq<Seq<int>>| #[trigger] fits_grid(g, w, h, tiles.len(), a) && consistent(tiles, w, h, a)
}

/// A revision keeps every tile that belongs to a consistent choice.
pub proof fn lemma_revise_keeps(
    tiles: Seq<Tile>,
    w: nat,
    h: nat,
    g: Seq<Seq<Seq<bool>>>,
    a: Seq<Seq<int>>,
    x: int,
    y: int,
)
    requires
        shaped(g, w, h, tiles.len()),
        fits_grid(g, w, h, tiles.len(), a),
        consistent(tiles, w, h, a),
        0 <= x < w,
        0 <= y < h,
    ensures
        fits_grid(g.update(x, g[x].update(y, revised(tiles, w, h, g, x, y))), w, h, tiles.len(), a),
{
    let t = a[x][y];
    if x > 0 {
        assert(a[x - 1][y] == a[x - 1][y]);
        assert(g[x - 1][y][a[x - 1][y]]);
    }
    if x + 1 < w {
        assert(g[x + 1][y][a[x + 1][y]]);
    }
    if y > 0 {
        assert(a[x][y - 1] == a[x][y - 1]);
        assert(g[x][y - 1][a[x][y - 1]]);
    }
    if y + 1 < h {
        assert(g[x][y + 1][a[x][y + 1]]);
    }
    assert(supported(tiles, w, h, g, x, y, t));
    let g2 = g.update(x, g[x].update(y, revised(tiles, w, h, g, x, y)));
    assert forall|cx: int, cy: int| 0 <= cx < w && 0 <= cy < h implies 0 <= #[trigger] a[cx][cy] < tiles.len()
        && g2[cx][cy][a[cx][cy]] by {
        if cx == x && cy == y {
        } else {
            assert(g2[cx][cy] == g[cx][cy]);
        }
    }
}

/// A cell that counts zero holds no tile.
pub proof fn lemma_count_zero(s: Seq<bool>, i: int)
    requires
        count_true(s) == 0,
        0 <= i < s.len(),
    ensures
        !s[i],
{
    if s[i] {
        lemma_none_count(s.len());
        lemma_count_true_shrinks(s, Seq::new(s.len(), |k: int| false));
    }
}

/// Every consistent choice open in `g0` is still open in `g`.
#[verifier::opaque]
pub open spec fn keeps_choices(tiles: Seq<Tile>, w: nat, h: nat, g0: Seq<Seq<Seq<bool>>>, g: Seq<Seq<Seq<bool>>>) -> bool {
    forall|a: Seq<Seq<int>>|
        fits_grid(g0, w, h, tiles.len(), a) && consistent(tiles, w, h, a) ==> #[trigger] fits_grid(g, w, h, tiles.len(), a)
}

pub proof fn lemma_keeps_refl(tiles: Seq<Tile>, w: nat, h: nat, g: Seq<Seq<Seq<bool>>>)
    ensures
        keeps_choices(tiles, w, h, g, g),
{
    reveal(keeps_choices);
}

/// Writing back one revision keeps every consistent choice.
pub proof fn lemma_keeps_step(tiles: Seq<Tile>, w: nat, h: nat, g0: Seq<Seq<Seq<bool>>>, g: Seq<Seq<Seq<bool>>>, x: int, y: int)
    requires
        shaped(g, w, h, tiles.len()),
        keeps_choices(tiles, w, h, g0, g),
        0 <= x < w,
        0 <= y < h,
    ensures
        keeps_choices(tiles, w, h, g0, g.update(x, g[x].update(y, revised(tiles, w, h, g, x, y)))),
{
    reveal(keeps_choices);
    let g2 = g.update(x, g[x].update(y, revised(tiles, w, h, g, x, y)));
    assert forall|a: Seq<Seq<int>>|
        fits_grid(g0, w, h, tiles.len(), a) && consistent(tiles, w, h, a) implies #[trigger] fits_grid(g2, w, h, tiles.len(), a) by {
        assert(fits_grid(g, w, h, tiles.len(), a));
        lemma_revise_keeps(tiles, w, h, g, a, x, y);
    }
}

/// While a consistent choice stays open, no cell runs out of tiles.
pub proof fn lemma_keeps_nonempty(tiles: Seq<Tile>, w: nat, h: nat, g0: Seq<Seq<Seq<bool>>>, g: Seq<Seq<Seq<bool>>>, x: int, y: int)
    requires
        shaped(g, w, h, tiles.len()),
        keeps_choices(tiles, w, h, g0, g),
        completable(tiles, w, h, g0),
        0 <= x < w,
        0 <= y < h,
    ensures
        count_true(g[x][y]) > 0,
{
    reveal(keeps_choices);
    let a = choose|a: Seq<Seq<int>>| #[trigger] fits_grid(g0, w, h, tiles.len(), a) && consistent(tiles, w, h, a);
    assert(fits_grid(g, w, h, tiles.len(), a));
    let t = a[x][y];
    assert(g[x][y][t]);
    if count_true(g[x][y]) == 0 {
        lemma_count_zero(g[x][y], t);
    }
}

/// The flags of a cell that holds tile `t` alone.
pub open spec fn only(n: nat, t: int) -> Seq<bool> {
    Seq::new(n, |i: int| i == t)
}

/// `a` comes before `b` when cells are read column by column.
pub open spec fn before(a: (usize, usize), b: (usize, usize)) -> bool {
    a.0 < b.0 || (a.0 == b.0 && a.1 < b.1)
}

/// A cell with a positive count holds some tile.
pub proof fn lemma_count_true_witness(s: Seq<bool>)
    requires
        count_true(s) > 0,
    ensures
        exists|i: int| 0 <= i < s.len() && s[i],
    decreases s.len(),
{
    if !s.last() {
        lemma_count_true_witness(s.drop_last());
        let i = choose|i: int| 0 <= i < s.drop_last().len() && s.drop_last()[i];
        assert(s[i]);
    } else {
        assert(s[s.len() - 1]);
    }
}

/// A cell that holds two tiles counts more than one.
pub proof fn lemma_count_true_two(s: Seq<bool>, i: int, j: int)
    requires
        0 <= i < j < s.len(),
        s[i],
        s[j],
    ensures
        count_true(s) >= 2,
    decreases s.len(),
{
    if j < s.len() - 1 {
        lemma_count_true_two(s.drop_last(), i, j);
    } else {
        let s1 = s.drop_last();
        assert(s1[i]);
        lemma_count_true_shrinks(s1, Seq::new(s1.len(), |k: int| false));
        assert(count_true(s1) > 0) by {
            if count_true(s1) == 0 {
                lemma_count_true_shrinks(s1, s1.update(i, false));
            }
        }
    }
}

pub proof fn lemma_column_total_mono(a: Seq<Seq<bool>>, b: Seq<Seq<bool>>)
    requires
        a.len() == b.len(),
        forall|y: int| 0 <= y < a.len() ==> (#[trigger] a[y]).len() == b[y].len(),
        forall|y: int, t: int| 0 <= y < a.len() && 0 <= t < a[y].len() && #[trigger] b[y][t] ==> a[y][t],
    ensures
        column_total(b) <= column_total(a),
    decreases a.len(),
{
    if a.len() > 0 {
        let k = a.len() - 1;
        assert forall|t: int| 0 <= t < a[k].len() && #[trigger] b[k][t] implies a[k][t] by {}
        lemma_count_true_shrinks(a[k], b[k]);
        lemma_column_total_mono(a.drop_last(), b.drop_last());
    }
}

/// Narrowing cells never raises the grid total.
pub proof fn lemma_grid_total_mono(a: Seq<Seq<Seq<bool>>>, b: Seq<Seq<Seq<bool>>>, w: nat, h: nat, n: nat)
    requires
        shaped(a, w, h, n),
        shaped(b, w, h, n),
        forall|x: int, y: int, t: int| 0 <= x < w && 0 <= y < h && 0 <= t < n && #[trigger] b[x][y][t] ==> a[x][y][t],
    ensures
        grid_total(b) <= grid_total(a),
    decreases w,
{
    if w > 0 {
        let k = w - 1;
        assert forall|y: int, t: int| 0 <= y < a[k].len() && 0 <= t < a[k][y].len() && #[trigger] b[k][y][t] implies a[k][y][t] by {}
        lemma_column_total_mono(a[k], b[k]);
        let a1 = a.drop_last();
        let b1 = b.drop_last();
        assert forall|x: int, y: int, t: int| 0 <= x < w - 1 && 0 <= y < h && 0 <= t < n && #[trigger] b1[x][y][t] implies a1[x][y][t] by {
            assert(b[x][y][t]);
        }
        lemma_grid_total_mono(a1, b1, (w - 1) as nat, h, n);
    }
}

/// A cell that holds tile `t` alone counts one.
pub proof fn lemma_single_count(n: nat, t: int)
    requires
        0 <= t < n,
    ensures
        count_true(only(n, t)) == 1,
    decreases n,
{
    let s = only(n, t);
    if t == n - 1 {
        let z = s.drop_last();
        lemma_count_true_shrinks(Seq::new(z.len(), |i: int| false), z);
        lemma_none_count(z.len());
    } else {
        assert(s.drop_last() =~= only((n - 1) as nat, t));
        lemma_single_count((n - 1) as nat, t);
    }
}

/// A cell that holds no tile counts zero.
pub proof fn lemma_none_count(n: nat)
    ensures
        count_true(Seq::new(n, |i: int| false)) == 0,
    decreases n,
{
    if n > 0 {
        assert(Seq::new(n, |i: int| false).drop_last() =~= Seq::new((n - 1) as nat, |i: int| false));
        lemma_none_count((n - 1) as nat);
    }
}

/// Some tile is possible in the cell.
pub open spec fn holds_some(c: Seq<bool>) -> bool {
    exists|t: int| 0 <= t < c.len() && #[trigger] c[t]
}

/// Every tile admits every tile and the border on every side.
pub open spec fn permissive(tiles: Seq<Tile>) -> bool {
    forall|t: int, d: Direction, a: Adjacent|
        0 <= t < tiles.len() && (a == Adjacent::Border || (a matches Adjacent::Tile(k) && k < tiles.len()))
            ==> #[trigger] tiles[t].allows(d, a)
}

/// Where every tile admits every other, a grid with no empty cell loses
/// nothing to revision.
pub proof fn lemma_permissive_fixpoint(tiles: Seq<Tile>, w: nat, h: nat, g: Seq<Seq<Seq<bool>>>)
    requires
        permissive(tiles),
        tiles.len() <= usize::MAX,
        shaped(g, w, h, tiles.len()),
        forall|x: int, y: int| 0 <= x < w && 0 <= y < h ==> holds_some(#[trigger] g[x][y]),
    ensures
        at_fixpoint(tiles, w, h, g),
{
    assert forall|x: int, y: int| 0 <= x < w && 0 <= y < h implies #[trigger] settled(tiles, w, h, g, x, y) by {
        assert forall|t: int| 0 <= t < tiles.len() implies #[trigger] supported(tiles, w, h, g, x, y, t) by {
            let a = Adjacent::Tile(t as usize);
            if x > 0 {
                assert(holds_some(g[x - 1][y]));
                let u = choose|u: int| 0 <= u < g[x - 1][y].len() && #[trigger] g[x - 1][y][u];
                assert(tiles[u].allows(Direction::Right, a));
            }
            if x + 1 < w {
                assert(holds_some(g[x + 1][y]));
                let u = choose|u: int| 0 <= u < g[x + 1][y].len() && #[trigger] g[x + 1][y][u];
                assert(tiles[u].allows(Direction::Left, a));
            }
            if y > 0 {
                assert(holds_some(g[x][y - 1]));
                let u = choose|u: int| 0 <= u < g[x][y - 1].len() && #[trigger] g[x][y - 1][u];
                assert(tiles[u].allows(Direction::Down, a));
            }
            if y + 1 < h {
                assert(holds_some(g[x][y + 1]));
                let u = choose|u: int| 0 <= u < g[x][y + 1].len() && #[trigger] g[x][y + 1][u];
                assert(tiles[u].allows(Direction::Up, a));
            }
        }
        assert(g[x][y] =~= revised(tiles, w, h, g, x, y));
    }
}

/// `s` with cell `c` pushed on top, unless `c` is already on it.
pub open spec fn push_absent(s: Seq<(usize, usize)>, c: (usize, usize)) -> Seq<(usize, usize)> {
    if s.contains(c) {
        s
    } else {
        s.push(c)
    }
}

/// `s` with the neighbours of `(x, y)` inside the `w` by `h` grid pushed in
/// the order right, left, below, above, each unless already on it.
pub open spec fn push_beside(s: Seq<(usize, usize)>, x: usize, y: usize, w: nat, h: nat) -> Seq<(usize, usize)> {
    let s1 = if x + 1 < w {
        push_absent(s, ((x + 1) as usize, y))
    } else {
        s
    };
    let s2 = if x > 0 {
        push_absent(s1, ((x - 1) as usize, y))
    } else {
        s1
    };
    let s3 = if y + 1 < h {
        push_absent(s2, (x, (y + 1) as usize))
    } else {
        s2
    };
    if y > 0 {
        push_absent(s3, (x, (y - 1) as usize))
    } else {
        s3
    }
}

/// The worklist that propagation from cell `(x, y)` starts with: the cell
/// itself, then its neighbours.
pub open spec fn start_list(x: usize, y: usize, w: nat, h: nat) -> Seq<(usize, usize)> {
    push_beside(seq![(x, y)], x, y, w, h)
}

/// Propagation on grid `g` with worklist `stack`: the top cell is revised;
/// when it loses a tile, the result is written back and its neighbours are
/// queued, unless it lost its last tile, which ends the work with that cell.
/// Gives the final grid and the cell that ran out, if any.
pub open spec fn worklist(tiles: Seq<Tile>, w: nat, h: nat, g: Seq<Seq<Seq<bool>>>, stack: Seq<(usize, usize)>) -> (
    Seq<Seq<Seq<bool>>>,
    Option<(usize, usize)>,
)
    decreases grid_total(g), stack.len(),
    via worklist_decreases
{
    if stack.len() == 0 {
        (g, None)
    } else {
        let c = stack.last();
        let rest = stack.drop_last();
        if !(shaped(g, w, h, tiles.len()) && c.0 < w && c.1 < h) {
            (g, None)
        } else {
            let cell = revised(tiles, w, h, g, c.0 as int, c.1 as int);
            if cell == g[c.0 as int][c.1 as int] {
                worklist(tiles, w, h, g, rest)
            } else {
                let g2 = g.update(c.0 as int, g[c.0 as int].update(c.1 as int, cell));
                if count_true(cell) == 0 {
                    (g2, Some(c))
                } else {
                    worklist(tiles, w, h, g2, push_beside(rest, c.0, c.1, w, h))
                }
            }
        }
    }
}

#[via_fn]
proof fn worklist_decreases(tiles: Seq<Tile>, w: nat, h: nat, g: Seq<Seq<Seq<bool>>>, stack: Seq<(usize, usize)>) {
    if stack.len() > 0 {
        let c = stack.last();
        if shaped(g, w, h, tiles.len()) && c.0 < w && c.1 < h {
            let cell = revised(tiles, w, h, g, c.0 as int, c.1 as int);
            if cell != g[c.0 as int][c.1 as int] {
                assert forall|i: int| 0 <= i < cell.len() && #[trigger] cell[i] implies g[c.0 as int][c.1 as int][i] by {}
                lemma_grid_total_shrinks(g, c.0 as int, c.1 as int, cell);
            }
        }
    }
}

/// The result of keeping tile `t` alone at cell `(x, y)` of `g` and
/// propagating from there.
pub open spec fn step_result(tiles: Seq<Tile>, w: nat, h: nat, g: Seq<Seq<Seq<bool>>>, x: int, y: int, t: int) -> (
    Seq<Seq<Seq<bool>>>,
    Option<(usize, usize)>,
) {
    worklist(
        tiles,
        w,
        h,
        g.update(x, g[x].update(y, only(tiles.len(), t))),
        start_list(x as usize, y as usize, w, h),
    )
}

/// Cell by cell, `f` holds no tile that `g` does not.
pub open spec fn within(f: Seq<Seq<Seq<bool>>>, g: Seq<Seq<Seq<bool>>>, w: nat, h: nat, n: nat) -> bool {
    forall|x: int, y: int, t: int| 0 <= x < w && 0 <= y < h && 0 <= t < n && #[trigger] f[x][y][t] ==> g[x][y][t]
}

/// `f` is a grid inside `g` where no cell loses anything to a revision and
/// no cell is empty.
pub open spec fn stable_part(tiles: Seq<Tile>, w: nat, h: nat, g: Seq<Seq<Seq<bool>>>, f: Seq<Seq<Seq<bool>>>) -> bool {
    &&& shaped(f, w, h, tiles.len())
    &&& within(f, g, w, h, tiles.len())
    &&& at_fixpoint(tiles, w, h, f)
    &&& forall|x: int, y: int| 0 <= x < w && 0 <= y < h ==> holds_some(#[trigger] f[x][y])
}

/// Every stable part of `g0` is still inside `g`.
#[verifier::opaque]
pub open spec fn keeps_stable(tiles: Seq<Tile>, w: nat, h: nat, g0: Seq<Seq<Seq<bool>>>, g: Seq<Seq<Seq<bool>>>) -> bool {
    forall|f: Seq<Seq<Seq<bool>>>| stable_part(tiles, w, h, g0, f) ==> #[trigger] within(f, g, w, h, tiles.len())
}

pub proof fn lemma_keeps_stable_refl(tiles: Seq<Tile>, w: nat, h: nat, g: Seq<Seq<Seq<bool>>>)
    ensures
        keeps_stable(tiles, w, h, g, g),
{
    reveal(keeps_stable);
}

/// Writing back one revision keeps every stable part.
pub proof fn lemma_keeps_stable_step(tiles: Seq<Tile>, w: nat, h: nat, g0: Seq<Seq<Seq<bool>>>, g: Seq<Seq<Seq<bool>>>, x: int, y: int)
    requires
        shaped(g, w, h, tiles.len()),
        keeps_stable(tiles, w, h, g0, g),
        0 <= x < w,
        0 <= y < h,
    ensures
        keeps_stable(tiles, w, h, g0, g.update(x, g[x].update(y, revised(tiles, w, h, g, x, y)))),
{
    reveal(keeps_stable);
    let n = tiles.len();
    let g2 = g.update(x, g[x].update(y, revised(tiles, w, h, g, x, y)));
    assert forall|f: Seq<Seq<Seq<bool>>>| stable_part(tiles, w, h, g0, f) implies #[trigger] within(f, g2, w, h, n) by {
        assert(within(f, g, w, h, n));
        assert(settled(tiles, w, h, f, x, y));
        assert forall|cx: int, cy: int, t: int| 0 <= cx < w && 0 <= cy < h && 0 <= t < n && #[trigger] f[cx][cy][t]
            implies g2[cx][cy][t] by {
            if cx == x && cy == y {
                assert(revised(tiles, w, h, f, x, y)[t]);
                assert(supported(tiles, w, h, f, x, y, t));
                if x > 0 {
                    let u = choose|u: int| 0 <= u < tiles.len() && #[trigger] f[x - 1][y][u] && tiles[u].allows(Direction::Right, Adjacent::Tile(t as usize));
                    assert(g[x - 1][y][u]);
                }
                if x + 1 < w {
                    let u = choose|u: int| 0 <= u < tiles.len() && #[trigger] f[x + 1][y][u] && tiles[u].allows(Direction::Left, Adjacent::Tile(t as usize));
                    assert(g[x + 1][y][u]);
                }
                if y > 0 {
                    let u = choose|u: int| 0 <= u < tiles.len() && #[trigger] f[x][y - 1][u] && tiles[u].allows(Direction::Down, Adjacent::Tile(t as usize));
                    assert(g[x][y - 1][u]);
                }
                if y + 1 < h {
                    let u = choose|u: int| 0 <= u < tiles.len() && #[trigger] f[x][y + 1][u] && tiles[u].allows(Direction::Up, Adjacent::Tile(t as usize));
                    assert(g[x][y + 1][u]);
                }
                assert(supported(tiles, w, h, g, x, y, t));
            } else {
                assert(g2[cx][cy] == g[cx][cy]);
            }
        }
    }
}

/// While some stable part of `g0` stays inside `g`, no cell of `g` is empty.
pub proof fn lemma_keeps_stable_nonempty(tiles: Seq<Tile>, w: nat, h: nat, g0: Seq<Seq<Seq<bool>>>, g: Seq<Seq<Seq<bool>>>, f: Seq<Seq<Seq<bool>>>, x: int, y: int)
    requires
        shaped(g, w, h, tiles.len()),
        keeps_stable(tiles, w, h, g0, g),
        stable_part(tiles, w, h, g0, f),
        0 <= x < w,
        0 <= y < h,
    ensures
        count_true(g[x][y]) > 0,
{
    reveal(keeps_stable);
    assert(within(f, g, w, h, tiles.len()));
    assert(holds_some(f[x][y]));
    let t = choose|t: int| 0 <= t < f[x][y].len() && #[trigger] f[x][y][t];
    assert(g[x][y][t]);
    if count_true(g[x][y]) == 0 {
        lemma_count_zero(g[x][y], t);
    }
}

} // verus!

//! Tiles cut from a sample and the adjacency rules between them.
use vstd::prelude::*;
use crate::color::WfcColor;
use crate::error::ConfigError;
use crate::sample::Sample;
use vstd::arithmetic::div_mod::{lemma_fundamental_div_mod, lemma_fundamental_div_mod_converse};

verus! {

/// The edge length, in pixels, of the square tiles that a sample is cut into
/// by default.
pub const TILE_SIZE: usize = 3;

/// One of the four sides of a cell or tile.
#[derive(Clone, Copy, PartialEq, Eq, Structural, Debug)]
pub enum Direction {
    Up,
    Down,
    Left,
    Right,
}

/// The side facing `d`.
pub open spec fn opposite(d: Direction) -> Direction {
    match d {
        Direction::Up => Direction::Down,
        Direction::Down => Direction::Up,
        Direction::Left => Direction::Right,
        Direction::Right => Direction::Left,
    }
}

impl Direction {
    pub fn opposite(self) -> (r: Direction)
        ensures
            r == opposite(self),
    {
        match self {
            Direction::Up => Direction::Down,
            Direction::Down => Direction::Up,
            Direction::Left => Direction::Right,
            Direction::Right => Direction::Left,
        }
    }
}

/// What may sit next to a tile on one side: another tile, or the edge of
/// the grid.
#[derive(Clone, Copy, PartialEq, Eq, Structural, Debug)]
pub enum Adjacent {
    Tile(usize),
    Border,
}

/// A square block of colours with, for each side, the set of neighbours it
/// admits there.
pub struct Tile {
    image: Vec<WfcColor>,
    left: Vec<Adjacent>,
    right: Vec<Adjacent>,
    up: Vec<Adjacent>,
    down: Vec<Adjacent>,
}

/// Whether `a` occurs in `v`.
fn list_contains(v: &Vec<Adjacent>, a: Adjacent) -> (r: bool)
    ensures
        r == v@.contains(a),
{
    let mut i: usize = 0;
    while i < v.len()
        invariant
            i <= v.len(),
            forall|j: int| 0 <= j < i ==> v@[j] != a,
        decreases v.len() - i,
    {
        if v[i] == a {
            return true;
        }
        i += 1;
    }
    false
}

/// Appends `a` to `v` unless it is already there.
fn add_once(v: &mut Vec<Adjacent>, a: Adjacent)
    ensures
        final(v)@ == (if old(v)@.contains(a) {
            old(v)@
        } else {
            old(v)@.push(a)
        }),
        forall|b: Adjacent| final(v)@.contains(b) <==> (old(v)@.contains(b) || b == a),
        old(v)@.no_duplicates() ==> final(v)@.no_duplicates(),
{
    if !list_contains(v, a) {
        v.push(a);
        proof {
            assert forall|b: Adjacent| final(v)@.contains(b) <==> (old(v)@.contains(b) || b == a) by {
                if old(v)@.contains(b) {
                    let j = choose|j: int| 0 <= j < old(v)@.len() && old(v)@[j] == b;
                    assert(final(v)@[j] == b);
                }
                if b == a {
                    assert(final(v)@[old(v)@.len() as int] == b);
                }
                if final(v)@.contains(b) {
                    let j = choose|j: int| 0 <= j < final(v)@.len() && final(v)@[j] == b;
                    if j < old(v)@.len() {
                        assert(old(v)@[j] == b);
                    }
                }
            }
        }
    }
}

impl Tile {
    /// The neighbours admitted on side `d`.
    pub closed spec fn allowed_on(&self, d: Direction) -> Seq<Adjacent> {
        match d {
            Direction::Up => self.up@,
            Direction::Down => self.down@,
            Direction::Left => self.left@,
            Direction::Right => self.right@,
        }
    }

    /// Whether `a` may sit on side `d` of this tile.
    pub open spec fn allows(&self, d: Direction, a: Adjacent) -> bool {
        self.allowed_on(d).contains(a)
    }

    pub closed spec fn pixels(&self) -> Seq<WfcColor> {
        self.image@
    }

    /// A tile with the given block of colours and neighbour lists.
    pub fn new(
        image: Vec<WfcColor>,
        left: Vec<Adjacent>,
        right: Vec<Adjacent>,
        up: Vec<Adjacent>,
        down: Vec<Adjacent>,
    ) -> (t: Tile)
        ensures
            t.pixels() == image@,
            t.allowed_on(Direction::Left) == left@,
            t.allowed_on(Direction::Right) == right@,
            t.allowed_on(Direction::Up) == up@,
            t.allowed_on(Direction::Down) == down@,
    {
        Tile { image, left, right, up, down }
    }

    /// A tile with the given block of colours that admits nothing yet.
    fn bare(image: Vec<WfcColor>) -> (t: Tile)
        ensures
            t.pixels() == image@,
            forall|d: Direction, a: Adjacent| !t.allows(d, a),
            forall|d: Direction| #[trigger] t.allowed_on(d).len() == 0,
    {
        Tile { image, left: Vec::new(), right: Vec::new(), up: Vec::new(), down: Vec::new() }
    }

    /// Records that `a` may sit on side `d`.
    fn add(&mut self, d: Direction, a: Adjacent)
        ensures
            final(self).pixels() == old(self).pixels(),
            final(self).allowed_on(d) == (if old(self).allowed_on(d).contains(a) {
                old(self).allowed_on(d)
            } else {
                old(self).allowed_on(d).push(a)
            }),
            forall|e: Direction| e != d ==> #[trigger] final(self).allowed_on(e) == old(self).allowed_on(e),
            forall|e: Direction, b: Adjacent| #[trigger]
                final(self).allows(e, b) <==> (old(self).allows(e, b) || (e == d && b == a)),
    {
        match d {
            Direction::Up => add_once(&mut self.up, a),
            Direction::Down => add_once(&mut self.down, a),
            Direction::Left => add_once(&mut self.left, a),
            Direction::Right => add_once(&mut self.right, a),
        }
    }

    /// The neighbours admitted on side `d`.
    pub fn allowed(&self, d: Direction) -> (r: &Vec<Adjacent>)
        ensures
            r@ == self.allowed_on(d),
    {
        match d {
            Direction::Up => &self.up,
            Direction::Down => &self.down,
            Direction::Left => &self.left,
            Direction::Right => &self.right,
        }
    }

    /// Whether this tile may sit at the edge of the grid on side `d`.
    pub fn is_border(&self, d: Direction) -> (r: bool)
        ensures
            r == self.allows(d, Adjacent::Border),
    {
        list_contains(self.allowed(d), Adjacent::Border)
    }

    pub fn is_left_border(&self) -> (r: bool)
        ensures
            r == self.allows(Direction::Left, Adjacent::Border),
    {
        self.is_border(Direction::Left)
    }

    pub fn is_right_border(&self) -> (r: bool)
        ensures
            r == self.allows(Direction::Right, Adjacent::Border),
    {
        self.is_border(Direction::Right)
    }

    pub fn is_upper_border(&self) -> (r: bool)
        ensures
            r == self.allows(Direction::Up, Adjacent::Border),
    {
        self.is_border(Direction::Up)
    }

    pub fn is_lower_border(&self) -> (r: bool)
        ensures
            r == self.allows(Direction::Down, Adjacent::Border),
    {
        self.is_border(Direction::Down)
    }

    /// The block of colours, row by row.
    pub fn get_image(&self) -> (r: &Vec<WfcColor>)
        ensures
            r@ == self.pixels(),
    {
        &self.image
    }
}


/// The tiles of one sample, indexed densely from zero, and the edge length
/// of their square blocks.
pub struct Tileset {
    tiles: Vec<Tile>,
    size: usize,
}

impl Tileset {
    pub closed spec fn tiles(&self) -> Seq<Tile> {
        self.tiles@
    }

    /// The edge length of each tile's block, in pixels.
    pub closed spec fn edge(&self) -> nat {
        self.size as nat
    }

    /// Every neighbour id names a tile of the set, adjacency is symmetric,
    /// and every block is `edge` by `edge` pixels.
    pub open spec fn wf(&self) -> bool {
        &&& forall|i: int, d: Direction, k: usize|
            0 <= i < self.tiles().len() && #[trigger] self.tiles()[i].allows(d, Adjacent::Tile(k))
                ==> k < self.tiles().len()
        &&& forall|i: int, j: int, d: Direction|
            #![trigger self.tiles()[i].allows(d, Adjacent::Tile(j as usize))]
            0 <= i < self.tiles().len() && 0 <= j < self.tiles().len() ==> (
            self.tiles()[i].allows(d, Adjacent::Tile(j as usize))
                <==> self.tiles()[j].allows(opposite(d), Adjacent::Tile(i as usize)))
        &&& forall|i: int|
            0 <= i < self.tiles().len() ==> #[trigger] self.tiles()[i].pixels().len() == self.edge()
                * self.edge()
        &&& forall|i: int, d: Direction|
            0 <= i < self.tiles().len() ==> (#[trigger] self.tiles()[i].allowed_on(d)).no_duplicates()
    }

    /// The number of tiles.
    pub fn len(&self) -> (r: usize)
        ensures
            r == self.tiles().len(),
    {
        self.tiles.len()
    }

    /// The tile with id `i`.
    pub fn tile(&self, i: usize) -> (r: &Tile)
        requires
            i < self.tiles().len(),
        ensures
            *r == self.tiles()[i as int],
    {
        &self.tiles[i]
    }

    /// The edge length of each tile's block, in pixels.
    pub fn tile_size(&self) -> (r: usize)
        ensures
            r == self.edge(),
    {
        self.size
    }

    /// Whether tile `t` may sit at the edge of the grid on side `d`.
    pub fn is_border_allowed(&self, t: usize, d: Direction) -> (r: bool)
        requires
            t < self.tiles().len(),
        ensures
            r == self.tiles()[t as int].allows(d, Adjacent::Border),
    {
        self.tiles[t].is_border(d)
    }

    /// The neighbours that tile `t` admits on side `d`.
    pub fn allowed_neighbors(&self, t: usize, d: Direction) -> (r: &Vec<Adjacent>)
        requires
            t < self.tiles().len(),
        ensures
            r@ == self.tiles()[t as int].allowed_on(d),
    {
        self.tiles[t].allowed(d)
    }
}

/// Adjacency in a well-formed tile set is symmetric: `b` may sit on side `d`
/// of `a` exactly when `a` may sit on the opposite side of `b`.
pub proof fn lemma_adjacency_symmetric(ts: &Tileset, a: usize, b: usize, d: Direction)
    requires
        ts.wf(),
        a < ts.tiles().len(),
        b < ts.tiles().len(),
    ensures
        ts.tiles()[a as int].allows(d, Adjacent::Tile(b))
            <==> ts.tiles()[b as int].allows(opposite(d), Adjacent::Tile(a)),
{
    assert(ts.tiles()[a as int].allows(d, Adjacent::Tile((b as int) as usize))
        <==> ts.tiles()[b as int].allows(opposite(d), Adjacent::Tile((a as int) as usize)));
}

/// The blocks of a list of tiles.
pub open spec fn images_of(tiles: Seq<Tile>) -> Seq<Seq<WfcColor>> {
    Seq::new(tiles.len(), |i: int| tiles[i].pixels())
}

/// How many blocks of edge `size` fit across the sample.
pub open spec fn blocks_across(s: Sample, size: nat) -> nat {
    s.width() / size
}

/// How many blocks of edge `size` fit down the sample.
pub open spec fn blocks_down(s: Sample, size: nat) -> nat {
    s.height() / size
}

pub open spec fn in_blocks(s: Sample, size: nat, bx: int, by: int) -> bool {
    0 <= bx < blocks_across(s, size) && 0 <= by < blocks_down(s, size)
}

/// The block of `size` by `size` pixels in block column `bx` and block row
/// `by` of the sample, row by row.
pub open spec fn block(s: Sample, size: nat, bx: int, by: int) -> Seq<WfcColor> {
    Seq::new(size * size, |i: int| s.pixel(bx * size + i % (size as int), by * size + i / (size as int)))
}

/// All blocks of the sample, row by row.
pub open spec fn blocks(s: Sample, size: nat) -> Seq<Seq<WfcColor>> {
    Seq::new(
        blocks_across(s, size) * blocks_down(s, size),
        |k: int| block(s, size, k % (blocks_across(s, size) as int), k / (blocks_across(s, size) as int)),
    )
}

/// The position one step from `(x, y)` towards side `d`.
pub open spec fn step(x: int, y: int, d: Direction) -> (int, int) {
    match d {
        Direction::Up => (x, y - 1),
        Direction::Down => (x, y + 1),
        Direction::Left => (x - 1, y),
        Direction::Right => (x + 1, y),
    }
}

/// The distinct elements of `s`, in order of first appearance.
pub open spec fn first_seen(s: Seq<Seq<WfcColor>>) -> Seq<Seq<WfcColor>>
    decreases s.len(),
{
    if s.len() == 0 {
        Seq::empty()
    } else {
        let d = first_seen(s.drop_last());
        if d.contains(s.last()) {
            d
        } else {
            d.push(s.last())
        }
    }
}

/// What lies on side `d` of block `(bx, by)` is `a`, with tiles named by
/// their index in `images`.
pub open spec fn fits_adjacent(
    s: Sample,
    size: nat,
    images: Seq<Seq<WfcColor>>,
    bx: int,
    by: int,
    d: Direction,
    a: Adjacent,
) -> bool {
    let (nx, ny) = step(bx, by, d);
    match a {
        Adjacent::Border => !in_blocks(s, size, nx, ny),
        Adjacent::Tile(u) => in_blocks(s, size, nx, ny) && u < images.len() && images[u as int] == block(
            s,
            size,
            nx,
            ny,
        ),
    }
}

/// Somewhere in the sample, a block equal to tile `t` has `a` on its side `d`.
pub open spec fn sample_admits(
    s: Sample,
    size: nat,
    images: Seq<Seq<WfcColor>>,
    t: int,
    d: Direction,
    a: Adjacent,
) -> bool {
    exists|bx: int, by: int|
        in_blocks(s, size, bx, by) && #[trigger] block(s, size, bx, by) == images[t] && fits_adjacent(
            s,
            size,
            images,
            bx,
            by,
            d,
            a,
        )
}

pub proof fn lemma_first_seen(s: Seq<Seq<WfcColor>>)
    ensures
        forall|x: Seq<WfcColor>| #[trigger] first_seen(s).contains(x) <==> s.contains(x),
        first_seen(s).no_duplicates(),
    decreases s.len(),
{
    if s.len() > 0 {
        let s1 = s.drop_last();
        lemma_first_seen(s1);
        let d = first_seen(s1);
        assert forall|x: Seq<WfcColor>| #[trigger] first_seen(s).contains(x) <==> s.contains(x) by {
            if s1.contains(x) {
                let j = choose|j: int| 0 <= j < s1.len() && s1[j] == x;
                assert(s[j] == x);
            }
            if x == s.last() {
                assert(s[s.len() - 1] == x);
            }
            if s.contains(x) {
                let j = choose|j: int| 0 <= j < s.len() && s[j] == x;
                if j < s.len() - 1 {
                    assert(s1[j] == x);
                }
            }
            if !d.contains(s.last()) {
                if d.push(s.last()).contains(x) {
                    let j = choose|j: int| 0 <= j < d.push(s.last()).len() && d.push(s.last())[j] == x;
                    if j < d.len() {
                        assert(d[j] == x);
                    }
                }
                if d.contains(x) {
                    let j = choose|j: int| 0 <= j < d.len() && d[j] == x;
                    assert(d.push(s.last())[j] == x);
                }
                if x == s.last() {
                    assert(d.push(s.last())[d.len() as int] == x);
                }
            }
        }
    }
}

/// Block `(bx, by)` is the element `by * across + bx` of the row-by-row list.
proof fn lemma_block_index(s: Sample, size: nat, bx: int, by: int)
    requires
        size > 0,
        in_blocks(s, size, bx, by),
    ensures
        0 <= by * blocks_across(s, size) + bx < blocks(s, size).len(),
        blocks(s, size)[by * blocks_across(s, size) + bx] == block(s, size, bx, by),
{
    let bw = blocks_across(s, size) as int;
    let bh = blocks_down(s, size) as int;
    assert(0 <= by * bw + bx < bw * bh) by (nonlinear_arith)
        requires 0 <= bx < bw, 0 <= by < bh;
    lemma_fundamental_div_mod_converse(by * bw + bx, bw, by, bx);
}

/// Whether two blocks hold the same colours.
fn same_pixels(a: &Vec<WfcColor>, b: &Vec<WfcColor>) -> (r: bool)
    ensures
        r == (a@ == b@),
{
    if a.len() != b.len() {
        return false;
    }
    let mut i: usize = 0;
    while i < a.len()
        invariant
            a@.len() == b@.len(),
            i <= a@.len(),
            forall|j: int| 0 <= j < i ==> a@[j] == b@[j],
        decreases a@.len() - i,
    {
        if a[i] != b[i] {
            return false;
        }
        i += 1;
    }
    assert(a@ =~= b@);
    true
}

/// The index of a tile whose block is `b`, if there is one.
fn find_image(tiles: &Vec<Tile>, b: &Vec<WfcColor>) -> (r: Option<usize>)
    ensures
        r matches Some(i) ==> i < tiles@.len() && images_of(tiles@)[i as int] == b@ && forall|j: int|
            0 <= j < i ==> images_of(tiles@)[j] != b@,
        r is None ==> !images_of(tiles@).contains(b@),
{
    let mut i: usize = 0;
    while i < tiles.len()
        invariant
            i <= tiles@.len(),
            forall|j: int| 0 <= j < i ==> images_of(tiles@)[j] != b@,
        decreases tiles@.len() - i,
    {
        if same_pixels(&tiles[i].image, b) {
            return Some(i);
        }
        i += 1;
    }
    None
}

/// Cuts block `(bx, by)` out of the sample.
fn cut_block(s: &Sample, size: usize, bx: usize, by: usize) -> (r: Vec<WfcColor>)
    requires
        s.wf(),
        size > 0,
        in_blocks(*s, size as nat, bx as int, by as int),
    ensures
        r@ == block(*s, size as nat, bx as int, by as int),
{
    let w = s.get_width();
    let h = s.get_height();
    proof {
        let si = size as int;
        let qw = (w as int) / si;
        let qh = (h as int) / si;
        lemma_fundamental_div_mod(w as int, si);
        lemma_fundamental_div_mod(h as int, si);
        assert((bx + 1) * si <= w) by (nonlinear_arith)
            requires bx + 1 <= qw, si * qw + (w as int) % si == w, 0 <= (w as int) % si, si > 0;
        assert((by + 1) * si <= h) by (nonlinear_arith)
            requires by + 1 <= qh, si * qh + (h as int) % si == h, 0 <= (h as int) % si, si > 0;
        assert(size <= w && size <= h) by (nonlinear_arith)
            requires (bx + 1) * si <= w, (by + 1) * si <= h, si == size, bx >= 0, by >= 0;
        assert(size * size <= w * h) by (nonlinear_arith)
            requires size <= w, size <= h;
    }
    let mut r: Vec<WfcColor> = Vec::new();
    let mut ty: usize = 0;
    while ty < size
        invariant
            s.wf(),
            size > 0,
            w == s.width(),
            h == s.height(),
            (bx + 1) * size <= w,
            (by + 1) * size <= h,
            ty <= size,
            r@.len() == ty * size,
            forall|i: int| 0 <= i < ty * size ==> #[trigger] r@[i] == block(*s, size as nat, bx as int, by as int)[i],
        decreases size - ty,
    {
        let mut tx: usize = 0;
        while tx < size
            invariant
                s.wf(),
                size > 0,
                w == s.width(),
                h == s.height(),
                (bx + 1) * size <= w,
                (by + 1) * size <= h,
                ty < size,
                tx <= size,
                r@.len() == ty * size + tx,
                forall|i: int| 0 <= i < ty * size + tx ==> #[trigger] r@[i] == block(*s, size as nat, bx as int, by as int)[i],
            decreases size - tx,
        {
            proof {
                assert(bx * size + tx < w && by * size + ty < h) by (nonlinear_arith)
                    requires (bx + 1) * size <= w, (by + 1) * size <= h, tx < size, ty < size;
                assert(ty * size + tx < size * size) by (nonlinear_arith)
                    requires tx < size, ty < size;
                lemma_fundamental_div_mod_converse(ty * size + tx, size as int, ty as int, tx as int);
            }
            let c = s.get_pixel(bx * size + tx, by * size + ty);
            r.push(c);
            tx += 1;
        }
        proof {
            assert(ty * size + size == (ty + 1) * size) by (nonlinear_arith);
        }
        ty += 1;
    }
    proof {
        assert(size * size == ty * size);
    }
    assert(r@ =~= block(*s, size as nat, bx as int, by as int));
    r
}

/// Some block before `(bx, by)`, row by row, equals tile `t` and has `a`
/// on its side `d`.
pub open spec fn seen_before(
    s: Sample,
    size: nat,
    images: Seq<Seq<WfcColor>>,
    t: int,
    d: Direction,
    a: Adjacent,
    bx: int,
    by: int,
) -> bool {
    exists|px: int, py: int|
        (py < by || (py == by && px < bx)) && in_blocks(s, size, px, py) && #[trigger] block(s, size, px, py)
            == images[t] && fits_adjacent(s, size, images, px, py, d, a)
}

/// Every block of the sample is among `images`.
pub open spec fn covers(s: Sample, size: nat, images: Seq<Seq<WfcColor>>) -> bool {
    forall|bx: int, by: int| in_blocks(s, size, bx, by) ==> images.contains(#[trigger] block(s, size, bx, by))
}

/// Among distinct blocks, at most one neighbour fits a side.
proof fn lemma_fits_unique(
    s: Sample,
    size: nat,
    images: Seq<Seq<WfcColor>>,
    bx: int,
    by: int,
    d: Direction,
    a1: Adjacent,
    a2: Adjacent,
)
    requires
        images.no_duplicates(),
        fits_adjacent(s, size, images, bx, by, d, a1),
        fits_adjacent(s, size, images, bx, by, d, a2),
    ensures
        a1 == a2,
{
}

/// The neighbour on side `d` of block `(bx, by)`: the border, or the tile
/// whose block lies there.
fn neighbour_of(s: &Sample, size: usize, tiles: &Vec<Tile>, bx: usize, by: usize, d: Direction) -> (a: Adjacent)
    requires
        s.wf(),
        size > 0,
        in_blocks(*s, size as nat, bx as int, by as int),
        covers(*s, size as nat, images_of(tiles@)),
    ensures
        fits_adjacent(*s, size as nat, images_of(tiles@), bx as int, by as int, d, a),
{
    let bw = s.get_width() / size;
    let bh = s.get_height() / size;
    let (inside, nx, ny) = match d {
        Direction::Up => (by > 0, bx, if by > 0 { by - 1 } else { 0 }),
        Direction::Down => (by + 1 < bh, bx, by + 1),
        Direction::Left => (bx > 0, if bx > 0 { bx - 1 } else { 0 }, by),
        Direction::Right => (bx + 1 < bw, bx + 1, by),
    };
    if inside {
        let b = cut_block(s, size, nx, ny);
        proof {
            assert(images_of(tiles@).contains(block(*s, size as nat, nx as int, ny as int)));
        }
        match find_image(tiles, &b) {
            Some(u) => Adjacent::Tile(u),
            None => Adjacent::Border,
        }
    } else {
        Adjacent::Border
    }
}

/// Records on tile `t`, whose block is `(bx, by)`, what lies on its side `d`.
fn record_side(tiles: &mut Vec<Tile>, s: &Sample, size: usize, bx: usize, by: usize, t: usize, d: Direction)
    requires
        s.wf(),
        size > 0,
        in_blocks(*s, size as nat, bx as int, by as int),
        covers(*s, size as nat, images_of(old(tiles)@)),
        images_of(old(tiles)@).no_duplicates(),
        t < old(tiles)@.len(),
    ensures
        final(tiles)@.len() == old(tiles)@.len(),
        images_of(final(tiles)@) == images_of(old(tiles)@),
        forall|u: int, e: Direction, a: Adjacent|
            0 <= u < old(tiles)@.len() ==> (#[trigger] final(tiles)@[u].allows(e, a) <==> (old(tiles)@[u].allows(e, a) || (
            u == t && e == d && fits_adjacent(*s, size as nat, images_of(old(tiles)@), bx as int, by as int, d, a)))),
        forall|u: int, e: Direction|
            0 <= u < old(tiles)@.len() && old(tiles)@[u].allowed_on(e).no_duplicates()
                ==> (#[trigger] final(tiles)@[u].allowed_on(e)).no_duplicates(),
{
    let ghost imgs = images_of(tiles@);
    let a = neighbour_of(s, size, tiles, bx, by, d);
    tiles[t].add(d, a);
    proof {
        assert(images_of(tiles@) =~= imgs);
        assert forall|u: int, e: Direction, b: Adjacent|
            0 <= u < old(tiles)@.len() implies (#[trigger] tiles@[u].allows(e, b) <==> (old(tiles)@[u].allows(e, b) || (
            u == t && e == d && fits_adjacent(*s, size as nat, imgs, bx as int, by as int, d, b)))) by {
            if u == t && e == d && fits_adjacent(*s, size as nat, imgs, bx as int, by as int, d, b) {
                lemma_fits_unique(*s, size as nat, imgs, bx as int, by as int, d, a, b);
            }
        }
    }
}

/// Adjacency read off a sample is symmetric.
proof fn lemma_sample_symmetric(s: Sample, size: nat, images: Seq<Seq<WfcColor>>, t: int, u: int, d: Direction)
    requires
        0 <= t < images.len(),
        0 <= u < images.len(),
        images.len() <= usize::MAX,
        sample_admits(s, size, images, t, d, Adjacent::Tile(u as usize)),
    ensures
        sample_admits(s, size, images, u, opposite(d), Adjacent::Tile(t as usize)),
{
    let (bx, by) = choose|bx: int, by: int|
        in_blocks(s, size, bx, by) && #[trigger] block(s, size, bx, by) == images[t] && fits_adjacent(
            s,
            size,
            images,
            bx,
            by,
            d,
            Adjacent::Tile(u as usize),
        );
    let (nx, ny) = step(bx, by, d);
    assert(step(nx, ny, opposite(d)) == (bx, by));
    assert(block(s, size, nx, ny) == images[u]);
    assert(fits_adjacent(s, size, images, nx, ny, opposite(d), Adjacent::Tile(t as usize)));
}

impl Tileset {
    /// The blocks of the tiles, by id.
    pub open spec fn images(&self) -> Seq<Seq<WfcColor>> {
        images_of(self.tiles())
    }

    /// The tiles of a sample cut into square blocks of edge `size`: the
    /// distinct blocks in order of first appearance, row by row, each
    /// admitting on each side exactly what lies next to an equal block
    /// somewhere in the sample, or the border where such a block touches
    /// the sample's edge.
    pub fn from_sample(s: &Sample, size: usize) -> (r: Result<Tileset, ConfigError>)
        requires
            s.wf(),
        ensures
            r is Ok <==> size > 0 && s.width() % (size as nat) == 0 && s.height() % (size as nat) == 0,
            r == Err::<Tileset, ConfigError>(ConfigError::ZeroTileSize) <==> size == 0,
            r == Err::<Tileset, ConfigError>(ConfigError::NotTileMultiple) <==> size > 0 && (s.width() % (size as nat)
                != 0 || s.height() % (size as nat) != 0),
            r matches Ok(ts) ==> {
                &&& ts.wf()
                &&& ts.edge() == size
                &&& ts.images() == first_seen(blocks(*s, size as nat))
                &&& forall|t: int, d: Direction, a: Adjacent|
                    0 <= t < ts.tiles().len() ==> (#[trigger] ts.tiles()[t].allows(d, a) <==> sample_admits(
                        *s,
                        size as nat,
                        ts.images(),
                        t,
                        d,
                        a,
                    ))
            },
    {
        if size == 0 {
            return Err(ConfigError::ZeroTileSize);
        }
        let w = s.get_width();
        let h = s.get_height();
        if w % size != 0 || h % size != 0 {
            return Err(ConfigError::NotTileMultiple);
        }
        let bw = w / size;
        let bh = h / size;
        let ghost sz = size as nat;
        let ghost all = blocks(*s, sz);
        proof {
            lemma_fundamental_div_mod(w as int, size as int);
            lemma_fundamental_div_mod(h as int, size as int);
            assert(bw * size == w) by (nonlinear_arith)
                requires w == size * bw + 0;
            assert(bh * size == h) by (nonlinear_arith)
                requires h == size * bh + 0;
            assert(bw * bh <= w * h) by (nonlinear_arith)
                requires bw * size == w, bh * size == h, size >= 1, bw >= 0, bh >= 0;
        }
        let mut tiles: Vec<Tile> = Vec::new();
        let mut by: usize = 0;
        while by < bh
            invariant
                s.wf(),
                size > 0,
                sz == size,
                bw == blocks_across(*s, sz),
                bh == blocks_down(*s, sz),
                all == blocks(*s, sz),
                by <= bh,
                images_of(tiles@) == first_seen(all.take(by * bw)),
                forall|i: int, d: Direction, a: Adjacent| 0 <= i < tiles@.len() ==> !(#[trigger] tiles@[i].allows(d, a)),
                forall|i: int, d: Direction| 0 <= i < tiles@.len() ==> (#[trigger] tiles@[i].allowed_on(d)).len() == 0,
            decreases bh - by,
        {
            let mut bx: usize = 0;
            while bx < bw
                invariant
                    s.wf(),
                    size > 0,
                    sz == size,
                    bw == blocks_across(*s, sz),
                    bh == blocks_down(*s, sz),
                    all == blocks(*s, sz),
                    by < bh,
                    bx <= bw,
                    images_of(tiles@) == first_seen(all.take(by * bw + bx)),
                    forall|i: int, d: Direction, a: Adjacent| 0 <= i < tiles@.len() ==> !(#[trigger] tiles@[i].allows(d, a)),
                    forall|i: int, d: Direction| 0 <= i < tiles@.len() ==> (#[trigger] tiles@[i].allowed_on(d)).len() == 0,
                forall|i: int, d: Direction| 0 <= i < tiles@.len() ==> (#[trigger] tiles@[i].allowed_on(d)).len() == 0,
                decreases bw - bx,
            {
                let b = cut_block(s, size, bx, by);
                let ghost k = by * bw + bx;
                proof {
                    lemma_block_index(*s, sz, bx as int, by as int);
                    assert(all.take(k + 1).drop_last() =~= all.take(k));
                    assert(all.take(k + 1).last() == b@);
                }
                match find_image(&tiles, &b) {
                    Some(_) => {
                        proof {
                            assert(images_of(tiles@).contains(b@));
                        }
                    },
                    None => {
                        let ghost before = images_of(tiles@);
                        tiles.push(Tile::bare(b));
                        proof {
                            assert(images_of(tiles@) =~= before.push(b@));
                        }
                    },
                }
                bx += 1;
            }
            proof {
                assert(by * bw + bw == (by + 1) * bw) by (nonlinear_arith);
            }
            by += 1;
        }
        let ghost imgs = images_of(tiles@);
        proof {
            assert(bh * bw == bw * bh) by (nonlinear_arith);
            assert(all.take(bh * bw) =~= all);
            lemma_first_seen(all);
            assert forall|px: int, py: int| in_blocks(*s, sz, px, py) implies imgs.contains(#[trigger] block(*s, sz, px, py)) by {
                lemma_block_index(*s, sz, px, py);
                assert(all.contains(block(*s, sz, px, py)));
            }
        }
        let n = tiles.len();
        by = 0;
        while by < bh
            invariant
                s.wf(),
                size > 0,
                sz == size,
                bw == blocks_across(*s, sz),
                bh == blocks_down(*s, sz),
                by <= bh,
                n == tiles@.len(),
                imgs == images_of(tiles@),
                imgs.no_duplicates(),
                covers(*s, sz, imgs),
                forall|i: int, d: Direction| 0 <= i < tiles@.len() ==> (#[trigger] tiles@[i].allowed_on(d)).no_duplicates(),
                forall|t: int, d: Direction, a: Adjacent|
                    0 <= t < n ==> (#[trigger] tiles@[t].allows(d, a) <==> seen_before(*s, sz, imgs, t, d, a, 0, by as int)),
            decreases bh - by,
        {
            let mut bx: usize = 0;
            while bx < bw
                invariant
                    s.wf(),
                    size > 0,
                    sz == size,
                    bw == blocks_across(*s, sz),
                    bh == blocks_down(*s, sz),
                    by < bh,
                    bx <= bw,
                    n == tiles@.len(),
                    imgs == images_of(tiles@),
                    imgs.no_duplicates(),
                    covers(*s, sz, imgs),
                    forall|i: int, d: Direction| 0 <= i < tiles@.len() ==> (#[trigger] tiles@[i].allowed_on(d)).no_duplicates(),
                    forall|t: int, d: Direction, a: Adjacent|
                        0 <= t < n ==> (#[trigger] tiles@[t].allows(d, a) <==> seen_before(*s, sz, imgs, t, d, a, bx as int, by as int)),
                decreases bw - bx,
            {
                let b = cut_block(s, size, bx, by);
                proof {
                    assert(imgs.contains(block(*s, sz, bx as int, by as int)));
                }
                let t = find_image(&tiles, &b).unwrap();
                let ghost t0 = tiles@;
                record_side(&mut tiles, s, size, bx, by, t, Direction::Left);
                record_side(&mut tiles, s, size, bx, by, t, Direction::Right);
                record_side(&mut tiles, s, size, bx, by, t, Direction::Up);
                record_side(&mut tiles, s, size, bx, by, t, Direction::Down);
                proof {
                    assert forall|u: int, d: Direction, a: Adjacent|
                        0 <= u < n implies (#[trigger] tiles@[u].allows(d, a) <==> seen_before(*s, sz, imgs, u, d, a, bx + 1, by as int)) by {
                        let here = block(*s, sz, bx as int, by as int) == imgs[u] && fits_adjacent(*s, sz, imgs, bx as int, by as int, d, a);
                        if here {
                            assert(imgs[u] == imgs[t as int]);
                            assert(u == t);
                        }
                        if seen_before(*s, sz, imgs, u, d, a, bx + 1, by as int) {
                            let (px, py) = choose|px: int, py: int|
                                (py < by || (py == by && px < bx + 1)) && in_blocks(*s, sz, px, py) && #[trigger] block(*s, sz, px, py)
                                    == imgs[u] && fits_adjacent(*s, sz, imgs, px, py, d, a);
                            if !(px == bx && py == by) {
                                assert(seen_before(*s, sz, imgs, u, d, a, bx as int, by as int));
                            } else {
                                assert(here);
                            }
                        }
                        if seen_before(*s, sz, imgs, u, d, a, bx as int, by as int) {
                            let (px, py) = choose|px: int, py: int|
                                (py < by || (py == by && px < bx)) && in_blocks(*s, sz, px, py) && #[trigger] block(*s, sz, px, py)
                                    == imgs[u] && fits_adjacent(*s, sz, imgs, px, py, d, a);
                            assert(block(*s, sz, px, py) == imgs[u]);
                        }
                        if u == t && fits_adjacent(*s, sz, imgs, bx as int, by as int, d, a) {
                            assert(block(*s, sz, bx as int, by as int) == imgs[u]);
                        }
                        match d {
                            Direction::Left => {},
                            Direction::Right => {},
                            Direction::Up => {},
                            Direction::Down => {},
                        }
                    }
                }
                bx += 1;
            }
            proof {
                assert forall|u: int, d: Direction, a: Adjacent|
                    0 <= u < n implies (#[trigger] tiles@[u].allows(d, a) <==> seen_before(*s, sz, imgs, u, d, a, 0, by + 1)) by {
                    if seen_before(*s, sz, imgs, u, d, a, 0, by + 1) {
                        let (px, py) = choose|px: int, py: int|
                            (py < by + 1 || (py == by + 1 && px < 0)) && in_blocks(*s, sz, px, py) && #[trigger] block(*s, sz, px, py)
                                == imgs[u] && fits_adjacent(*s, sz, imgs, px, py, d, a);
                        assert(seen_before(*s, sz, imgs, u, d, a, bw as int, by as int));
                    }
                    if seen_before(*s, sz, imgs, u, d, a, bw as int, by as int) {
                        let (px, py) = choose|px: int, py: int|
                            (py < by || (py == by && px < bw)) && in_blocks(*s, sz, px, py) && #[trigger] block(*s, sz, px, py)
                                == imgs[u] && fits_adjacent(*s, sz, imgs, px, py, d, a);
                        assert(block(*s, sz, px, py) == imgs[u]);
                    }
                }
            }
            by += 1;
        }
        let ts = Tileset { tiles, size };
        proof {
            assert forall|t: int, d: Direction, a: Adjacent|
                0 <= t < n implies (#[trigger] ts.tiles()[t].allows(d, a) <==> sample_admits(*s, sz, imgs, t, d, a)) by {
                if sample_admits(*s, sz, imgs, t, d, a) {
                    let (px, py) = choose|px: int, py: int|
                        in_blocks(*s, sz, px, py) && #[trigger] block(*s, sz, px, py) == imgs[t] && fits_adjacent(
                            *s, sz, imgs, px, py, d, a);
                    assert(seen_before(*s, sz, imgs, t, d, a, 0, bh as int));
                }
                if seen_before(*s, sz, imgs, t, d, a, 0, bh as int) {
                    let (px, py) = choose|px: int, py: int|
                        (py < bh || (py == bh && px < 0)) && in_blocks(*s, sz, px, py) && #[trigger] block(*s, sz, px, py)
                            == imgs[t] && fits_adjacent(*s, sz, imgs, px, py, d, a);
                    assert(block(*s, sz, px, py) == imgs[t]);
                }
            }
            assert forall|i: int, d: Direction, k: usize|
                0 <= i < ts.tiles().len() && #[trigger] ts.tiles()[i].allows(d, Adjacent::Tile(k)) implies k < ts.tiles().len() by {
                assert(sample_admits(*s, sz, imgs, i, d, Adjacent::Tile(k)));
            }
            assert forall|i: int, j: int, d: Direction|
                0 <= i < ts.tiles().len() && 0 <= j < ts.tiles().len() implies (
                ts.tiles()[i].allows(d, Adjacent::Tile(j as usize))
                    <==> ts.tiles()[j].allows(opposite(d), Adjacent::Tile(i as usize))) by {
                if ts.tiles()[i].allows(d, Adjacent::Tile(j as usize)) {
                    lemma_sample_symmetric(*s, sz, imgs, i, j, d);
                }
                if ts.tiles()[j].allows(opposite(d), Adjacent::Tile(i as usize)) {
                    lemma_sample_symmetric(*s, sz, imgs, j, i, opposite(d));
                    assert(opposite(opposite(d)) == d);
                }
            }
            assert forall|i: int| 0 <= i < ts.tiles().len() implies #[trigger] ts.tiles()[i].pixels().len() == ts.edge() * ts.edge() by {
                assert(imgs.contains(imgs[i]));
                let j = choose|j: int| 0 <= j < all.len() && all[j] == imgs[i];
            }
        }
        Ok(ts)
    }
}

/// Every tile's block is `size` by `size` pixels.
pub open spec fn images_sized(tiles: Seq<Tile>, size: nat) -> bool {
    forall|i: int| 0 <= i < tiles.len() ==> #[trigger] tiles[i].pixels().len() == size * size
}

/// Every neighbour id names a tile of the list.
pub open spec fn ids_known(tiles: Seq<Tile>) -> bool {
    forall|i: int, d: Direction, k: usize|
        0 <= i < tiles.len() && #[trigger] tiles[i].allows(d, Adjacent::Tile(k)) ==> k < tiles.len()
}

/// No side of a tile lists a neighbour twice.
pub open spec fn lists_distinct(tiles: Seq<Tile>) -> bool {
    forall|i: int, d: Direction| 0 <= i < tiles.len() ==> (#[trigger] tiles[i].allowed_on(d)).no_duplicates()
}

/// Whether no entry of `v` occurs twice.
fn list_distinct(v: &Vec<Adjacent>) -> (r: bool)
    ensures
        r == v@.no_duplicates(),
{
    let mut i: usize = 0;
    while i < v.len()
        invariant
            i <= v@.len(),
            forall|a: int, b: int| 0 <= a < i && a < b < v@.len() ==> v@[a] != v@[b],
        decreases v@.len() - i,
    {
        let mut j: usize = i + 1;
        while j < v.len()
            invariant
                i < v@.len(),
                i + 1 <= j <= v@.len(),
                forall|a: int, b: int| 0 <= a < i && a < b < v@.len() ==> v@[a] != v@[b],
                forall|b: int| i < b < j ==> v@[i as int] != v@[b],
            decreases v@.len() - j,
        {
            if v[i] == v[j] {
                return false;
            }
            j += 1;
        }
        i += 1;
    }
    true
}

/// Every tile that a tile admits admits it back on the opposite side.
pub open spec fn admits_back(tiles: Seq<Tile>) -> bool {
    forall|i: int, j: int, d: Direction|
        0 <= i < tiles.len() && 0 <= j < tiles.len() && #[trigger] tiles[i].allows(d, Adjacent::Tile(j as usize))
            ==> tiles[j].allows(opposite(d), Adjacent::Tile(i as usize))
}

/// Whether every tile id on side `d` of tile `i` names a tile of the list.
fn side_ids_known(tiles: &Vec<Tile>, i: usize, d: Direction) -> (r: bool)
    requires
        i < tiles@.len(),
    ensures
        r == forall|k: usize| #[trigger] tiles@[i as int].allows(d, Adjacent::Tile(k)) ==> k < tiles@.len(),
{
    let list = tiles[i].allowed(d);
    let mut e: usize = 0;
    while e < list.len()
        invariant
            i < tiles@.len(),
            list@ == tiles@[i as int].allowed_on(d),
            e <= list@.len(),
            forall|f: int| 0 <= f < e ==> (#[trigger] list@[f] matches Adjacent::Tile(k) ==> k < tiles@.len()),
        decreases list@.len() - e,
    {
        match list[e] {
            Adjacent::Tile(k) => {
                if k >= tiles.len() {
                    proof {
                        assert(list@[e as int] == Adjacent::Tile(k));
                        assert(list@.contains(Adjacent::Tile(k)));
                        assert(tiles@[i as int].allows(d, Adjacent::Tile(k)));
                    }
                    return false;
                }
            },
            Adjacent::Border => {},
        }
        e += 1;
    }
    proof {
        assert forall|k: usize| #[trigger] tiles@[i as int].allows(d, Adjacent::Tile(k)) implies k < tiles@.len() by {
            let f = choose|f: int| 0 <= f < list@.len() && list@[f] == Adjacent::Tile(k);
            assert(list@[f] matches Adjacent::Tile(k2) ==> k2 < tiles@.len());
        }
    }
    true
}

/// Whether every tile on side `d` of tile `i` admits tile `i` back.
fn side_admits_back(tiles: &Vec<Tile>, i: usize, d: Direction) -> (r: bool)
    requires
        i < tiles@.len(),
        ids_known(tiles@),
    ensures
        r == forall|j: int| 0 <= j < tiles@.len() && #[trigger] tiles@[i as int].allows(d, Adjacent::Tile(j as usize))
            ==> tiles@[j].allows(opposite(d), Adjacent::Tile(i)),
{
    let n = tiles.len();
    let list = tiles[i].allowed(d);
    let back = d.opposite();
    let mut e: usize = 0;
    while e < list.len()
        invariant
            n == tiles@.len(),
            i < tiles@.len(),
            ids_known(tiles@),
            back == opposite(d),
            list@ == tiles@[i as int].allowed_on(d),
            e <= list@.len(),
            forall|f: int| 0 <= f < e ==> (#[trigger] list@[f] matches Adjacent::Tile(k) ==> tiles@[k as int].allows(back, Adjacent::Tile(i))),
        decreases list@.len() - e,
    {
        match list[e] {
            Adjacent::Tile(k) => {
                proof {
                    assert(list@[e as int] == Adjacent::Tile(k));
                    assert(list@.contains(Adjacent::Tile(k)));
                    assert(tiles@[i as int].allows(d, Adjacent::Tile(k)));
                }
                if !list_contains(tiles[k].allowed(back), Adjacent::Tile(i)) {
                    proof {
                        assert(tiles@[i as int].allows(d, Adjacent::Tile((k as int) as usize)));
                    }
                    return false;
                }
            },
            Adjacent::Border => {},
        }
        e += 1;
    }
    proof {
        assert forall|j: int| 0 <= j < tiles@.len() && #[trigger] tiles@[i as int].allows(d, Adjacent::Tile(j as usize))
            implies tiles@[j].allows(opposite(d), Adjacent::Tile(i)) by {
            let f = choose|f: int| 0 <= f < list@.len() && list@[f] == Adjacent::Tile(j as usize);
            assert(list@[f] matches Adjacent::Tile(k2) ==> tiles@[k2 as int].allows(back, Adjacent::Tile(i)));
            assert((j as usize) as int == j);
        }
    }
    true
}

impl Tileset {
    /// A tile set made of `tiles`, whose blocks have edge `size`. Refused
    /// when a block has another size, when a neighbour id names no tile,
    /// when a side lists a neighbour twice, or when a tile admits another
    /// that does not admit it back.
    pub fn from_tiles(tiles: Vec<Tile>, size: usize) -> (r: Result<Tileset, ConfigError>)
        ensures
            r is Ok <==> images_sized(tiles@, size as nat) && ids_known(tiles@) && lists_distinct(tiles@) && admits_back(tiles@),
            r == Err::<Tileset, ConfigError>(ConfigError::WrongTileImage) <==> !images_sized(tiles@, size as nat),
            r == Err::<Tileset, ConfigError>(ConfigError::UnknownNeighbour) <==> images_sized(tiles@, size as nat)
                && !ids_known(tiles@),
            r == Err::<Tileset, ConfigError>(ConfigError::RepeatedNeighbour) <==> images_sized(tiles@, size as nat)
                && ids_known(tiles@) && !lists_distinct(tiles@),
            r == Err::<Tileset, ConfigError>(ConfigError::AsymmetricAdjacency) <==> images_sized(tiles@, size as nat)
                && ids_known(tiles@) && lists_distinct(tiles@) && !admits_back(tiles@),
            r matches Ok(ts) ==> ts.wf() && ts.tiles() == tiles@ && ts.edge() == size,
    {
        let n = tiles.len();
        let area = size.checked_mul(size);
        let mut i: usize = 0;
        while i < n
            invariant
                n == tiles@.len(),
                area == (if size * size > usize::MAX { None::<usize> } else { Some((size * size) as usize) }),
                i <= n,
                forall|j: int| 0 <= j < i ==> #[trigger] tiles@[j].pixels().len() == size * size,
            decreases n - i,
        {
            let len = tiles[i].get_image().len();
            let ok = match area {
                Some(a) => len == a,
                None => false,
            };
            if !ok {
                proof {
                    assert(!(tiles@[i as int].pixels().len() == size * size));
                }
                return Err(ConfigError::WrongTileImage);
            }
            i += 1;
        }
        i = 0;
        while i < n
            invariant
                n == tiles@.len(),
                images_sized(tiles@, size as nat),
                i <= n,
                forall|j: int, d: Direction, k: usize|
                    0 <= j < i && #[trigger] tiles@[j].allows(d, Adjacent::Tile(k)) ==> k < n,
            decreases n - i,
        {
            if !(side_ids_known(&tiles, i, Direction::Up) && side_ids_known(&tiles, i, Direction::Down)
                && side_ids_known(&tiles, i, Direction::Left) && side_ids_known(&tiles, i, Direction::Right)) {
                return Err(ConfigError::UnknownNeighbour);
            }
            proof {
                assert forall|j: int, d: Direction, k: usize|
                    0 <= j < i + 1 && #[trigger] tiles@[j].allows(d, Adjacent::Tile(k)) implies k < n by {
                    match d {
                        Direction::Up => {},
                        Direction::Down => {},
                        Direction::Left => {},
                        Direction::Right => {},
                    }
                }
            }
            i += 1;
        }
        i = 0;
        while i < n
            invariant
                n == tiles@.len(),
                images_sized(tiles@, size as nat),
                ids_known(tiles@),
                i <= n,
                forall|j: int, d: Direction| 0 <= j < i ==> (#[trigger] tiles@[j].allowed_on(d)).no_duplicates(),
            decreases n - i,
        {
            let tile = &tiles[i];
            if !(list_distinct(tile.allowed(Direction::Up)) && list_distinct(tile.allowed(Direction::Down))
                && list_distinct(tile.allowed(Direction::Left)) && list_distinct(tile.allowed(Direction::Right))) {
                return Err(ConfigError::RepeatedNeighbour);
            }
            proof {
                assert forall|j: int, d: Direction| 0 <= j < i + 1 implies (#[trigger] tiles@[j].allowed_on(d)).no_duplicates() by {
                    match d {
                        Direction::Up => {},
                        Direction::Down => {},
                        Direction::Left => {},
                        Direction::Right => {},
                    }
                }
            }
            i += 1;
        }
        i = 0;
        while i < n
            invariant
                n == tiles@.len(),
                images_sized(tiles@, size as nat),
                ids_known(tiles@),
                lists_distinct(tiles@),
                i <= n,
                forall|a: int, j: int, d: Direction|
                    0 <= a < i && 0 <= j < n && #[trigger] tiles@[a].allows(d, Adjacent::Tile(j as usize))
                        ==> tiles@[j].allows(opposite(d), Adjacent::Tile(a as usize)),
            decreases n - i,
        {
            if !(side_admits_back(&tiles, i, Direction::Up) && side_admits_back(&tiles, i, Direction::Down)
                && side_admits_back(&tiles, i, Direction::Left) && side_admits_back(&tiles, i, Direction::Right)) {
                return Err(ConfigError::AsymmetricAdjacency);
            }
            proof {
                assert forall|a: int, j: int, d: Direction|
                    0 <= a < i + 1 && 0 <= j < n && #[trigger] tiles@[a].allows(d, Adjacent::Tile(j as usize))
                        implies tiles@[j].allows(opposite(d), Adjacent::Tile(a as usize)) by {
                    if a == i {
                        match d {
                            Direction::Up => {},
                            Direction::Down => {},
                            Direction::Left => {},
                            Direction::Right => {},
                        }
                    }
                }
            }
            i += 1;
        }
        let ts = Tileset { tiles, size };
        proof {
            assert forall|a: int, j: int, d: Direction|
                #![trigger ts.tiles()[a].allows(d, Adjacent::Tile(j as usize))]
                0 <= a < n && 0 <= j < n implies (ts.tiles()[a].allows(d, Adjacent::Tile(j as usize))
                    <==> ts.tiles()[j].allows(opposite(d), Adjacent::Tile(a as usize))) by {
                if ts.tiles()[j].allows(opposite(d), Adjacent::Tile(a as usize)) {
                    assert(ts.tiles()[a].allows(opposite(opposite(d)), Adjacent::Tile(j as usize)));
                    assert(opposite(opposite(d)) == d);
                }
            }
        }
        Ok(ts)
    }
}

} // verus!

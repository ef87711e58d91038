//! The two dense grids that the solver keeps: a per-cell, per-tile flag field
//! and a per-cell count field, each stored in an `ndarray` array.
use vstd::prelude::*;

verus! {

/// A three-axis array of flags, indexed by `[x][y][tile]`.
#[verifier::external_body]
pub struct FlagField {
    cells: ndarray::Array3<bool>,
}

/// A two-axis array of counts, indexed by `[x][y]`.
#[verifier::external_body]
pub struct CountField {
    cells: ndarray::Array2<usize>,
}

/// What a flag field holds, as nested sequences `[x][y][tile]`.
pub uninterp spec fn flags_of(f: FlagField) -> Seq<Seq<Seq<bool>>>;

/// What a count field holds, as nested sequences `[x][y]`.
pub uninterp spec fn counts_of(f: CountField) -> Seq<Seq<usize>>;

/// The flag field `(w, h, n)` with every entry equal to `v`.
pub open spec fn uniform_flags(w: nat, h: nat, n: nat, v: bool) -> Seq<Seq<Seq<bool>>> {
    Seq::new(w, |x: int| Seq::new(h, |y: int| Seq::new(n, |t: int| v)))
}

/// The count field `(w, h)` with every entry equal to `v`.
pub open spec fn uniform_counts(w: nat, h: nat, v: usize) -> Seq<Seq<usize>> {
    Seq::new(w, |x: int| Seq::new(h, |y: int| v))
}

impl FlagField {
    pub open spec fn view(&self) -> Seq<Seq<Seq<bool>>> {
        flags_of(*self)
    }

    /// Relies on `ndarray::Array3::from_elem`: an array of the given shape
    /// whose elements are all `v`; it panics only when the product of the
    /// non-zero axis lengths overflows `isize`.
    #[verifier::external_body]
    pub(crate) fn filled(w: usize, h: usize, n: usize, v: bool) -> (r: FlagField)
        requires
            w >= 1,
            h >= 1,
            w * h <= isize::MAX,
            w * h * n <= isize::MAX,
        ensures
            flags_of(r) == uniform_flags(w as nat, h as nat, n as nat, v),
    {
        FlagField { cells: ndarray::Array3::from_elem((w, h, n), v) }
    }

    /// Relies on ndarray's `Index<[usize; 3]>`: the element at that position.
    #[verifier::external_body]
    pub(crate) fn get(&self, x: usize, y: usize, t: usize) -> (r: bool)
        requires
            x < flags_of(*self).len(),
            y < flags_of(*self)[x as int].len(),
            t < flags_of(*self)[x as int][y as int].len(),
        ensures
            r == flags_of(*self)[x as int][y as int][t as int],
    {
        self.cells[[x, y, t]]
    }

    /// Relies on ndarray's `IndexMut<[usize; 3]>`: only that element changes.
    #[verifier::external_body]
    pub(crate) fn set(&mut self, x: usize, y: usize, t: usize, v: bool)
        requires
            x < flags_of(*old(self)).len(),
            y < flags_of(*old(self))[x as int].len(),
            t < flags_of(*old(self))[x as int][y as int].len(),
        ensures
            flags_of(*final(self)) == flags_of(*old(self)).update(
                x as int,
                flags_of(*old(self))[x as int].update(
                    y as int,
                    flags_of(*old(self))[x as int][y as int].update(t as int, v),
                ),
            ),
    {
        self.cells[[x, y, t]] = v;
    }
}

impl CountField {
    pub open spec fn view(&self) -> Seq<Seq<usize>> {
        counts_of(*self)
    }

    /// Relies on `ndarray::Array2::from_elem`: an array of the given shape
    /// whose elements are all `v`; it panics only when the product of the
    /// non-zero axis lengths overflows `isize`.
    #[verifier::external_body]
    pub(crate) fn filled(w: usize, h: usize, v: usize) -> (r: CountField)
        requires
            w >= 1,
            h >= 1,
            w * h <= isize::MAX,
        ensures
            counts_of(r) == uniform_counts(w as nat, h as nat, v),
    {
        CountField { cells: ndarray::Array2::from_elem((w, h), v) }
    }

    /// Relies on ndarray's `Index<[usize; 2]>`: the element at that position.
    #[verifier::external_body]
    pub(crate) fn get(&self, x: usize, y: usize) -> (r: usize)
        requires
            x < counts_of(*self).len(),
            y < counts_of(*self)[x as int].len(),
        ensures
            r == counts_of(*self)[x as int][y as int],
    {
        self.cells[[x, y]]
    }

    /// Relies on ndarray's `IndexMut<[usize; 2]>`: only that element changes.
    #[verifier::external_body]
    pub(crate) fn set(&mut self, x: usize, y: usize, v: usize)
        requires
            x < counts_of(*old(self)).len(),
            y < counts_of(*old(self))[x as int].len(),
        ensures
            counts_of(*final(self)) == counts_of(*old(self)).update(
                x as int,
                counts_of(*old(self))[x as int].update(y as int, v),
            ),
    {
        self.cells[[x, y]] = v;
    }
}

} // verus!

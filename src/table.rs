use vstd::prelude::*;

verus! {

/// A dense grid of `width * height` cells, stored row after row.
pub struct Table<T> {
    data: Vec<T>,
    width: usize,
    height: usize,
}

/// Where cell `(x, y)` sits in a row-after-row layout of the given width.
pub open spec fn flat_index(width: nat, p: (usize, usize)) -> int {
    p.0 + width * p.1
}

proof fn lemma_flat_index(width: nat, height: nat, p: (usize, usize), q: (usize, usize))
    requires
        p.0 < width,
        p.1 < height,
        q.0 < width,
        q.1 < height,
    ensures
        0 <= flat_index(width, p) < width * height,
        flat_index(width, p) == flat_index(width, q) ==> p == q,
{
    let (x, y, a, b) = (p.0 as int, p.1 as int, q.0 as int, q.1 as int);
    let w = width as int;
    let h = height as int;
    assert(0 <= x + w * y < w * h) by (nonlinear_arith)
        requires
            0 <= x < w,
            0 <= y < h,
    ;
    assert(x + w * y == a + w * b ==> x == a && y == b) by (nonlinear_arith)
        requires
            0 <= x < w,
            0 <= a < w,
            0 <= y,
            0 <= b,
    ;
}

impl<T> Table<T> {
    /// The cells, row after row: cell `(x, y)` sits at `x + width * y`.
    pub closed spec fn cells(&self) -> Seq<T> {
        self.data@
    }

    pub closed spec fn spec_width(&self) -> nat {
        self.width as nat
    }

    pub closed spec fn spec_height(&self) -> nat {
        self.height as nat
    }

    /// The cells hold exactly one value per coordinate, and their number is addressable.
    pub open spec fn wf(&self) -> bool {
        &&& self.cells().len() == self.spec_width() * self.spec_height()
        &&& self.spec_width() * self.spec_height() <= usize::MAX
    }

    pub open spec fn in_bounds(&self, p: (usize, usize)) -> bool {
        p.0 < self.spec_width() && p.1 < self.spec_height()
    }

    pub open spec fn same_shape<E>(&self, other: &Table<E>) -> bool {
        self.spec_width() == other.spec_width() && self.spec_height() == other.spec_height()
    }

    /// The value of the cell at `p`.
    pub open spec fn at(&self, p: (usize, usize)) -> T {
        self.cells()[flat_index(self.spec_width(), p)]
    }

    pub proof fn lemma_at(&self, p: (usize, usize), q: (usize, usize))
        requires
            self.wf(),
            self.in_bounds(p),
            self.in_bounds(q),
        ensures
            0 <= flat_index(self.spec_width(), p) < self.cells().len(),
            flat_index(self.spec_width(), p) == flat_index(self.spec_width(), q) ==> p == q,
    {
        lemma_flat_index(self.spec_width(), self.spec_height(), p, q);
    }

    pub fn width(&self) -> (r: usize)
        ensures
            r == self.spec_width(),
    {
        self.width
    }

    pub fn height(&self) -> (r: usize)
        ensures
            r == self.spec_height(),
    {
        self.height
    }

    /// Reads the cell at `p`, which must lie inside the grid.
    pub fn get(&self, p: (usize, usize)) -> (r: &T)
        requires
            self.wf(),
            self.in_bounds(p),
        ensures
            *r == self.at(p),
    {
        proof {
            self.lemma_at(p, p);
        }
        &self.data[p.0 + self.width * p.1]
    }

    /// Writes `v` into the cell at `p`, which must lie inside the grid; no other cell changes.
    pub fn set(&mut self, p: (usize, usize), v: T)
        requires
            old(self).wf(),
            old(self).in_bounds(p),
        ensures
            final(self).wf(),
            final(self).same_shape(old(self)),
            final(self).cells() == old(self).cells().update(
                flat_index(old(self).spec_width(), p),
                v,
            ),
            final(self).at(p) == v,
            forall|q: (usize, usize)|
                old(self).in_bounds(q) && q != p ==> #[trigger] final(self).at(q) == old(self).at(
                    q,
                ),
    {
        proof {
            self.lemma_at(p, p);
            assert forall|q: (usize, usize)| old(self).in_bounds(q) && q != p implies flat_index(
                old(self).spec_width(),
                q,
            ) != flat_index(old(self).spec_width(), p) && 0 <= flat_index(
                old(self).spec_width(),
                q,
            ) < old(self).cells().len() by {
                old(self).lemma_at(p, q);
                old(self).lemma_at(q, q);
            }
        }
        let i = p.0 + self.width * p.1;
        self.data.set(i, v);
    }

    /// The first cell, going down each column and the columns from left to right, on which
    /// `pred` holds.
    pub fn find<F>(&self, pred: F) -> (r: Option<(usize, usize)>)
        where
            F: Fn(&T) -> bool,
        requires
            self.wf(),
            forall|p: (usize, usize)| self.in_bounds(p) ==> #[trigger] pred.requires((&self.at(p),)),
        ensures
            match r {
                Some(p) => {
                    &&& self.in_bounds(p)
                    &&& pred.ensures((&self.at(p),), true)
                    &&& forall|q: (usize, usize)|
                        self.in_bounds(q) && (q.0 < p.0 || (q.0 == p.0 && q.1 < p.1))
                            ==> pred.ensures((&#[trigger] self.at(q),), false)
                },
                None => forall|q: (usize, usize)|
                    self.in_bounds(q) ==> pred.ensures((&#[trigger] self.at(q),), false),
            },
    {
        let mut i: usize = 0;
        while i < self.width
            invariant
                self.wf(),
                i <= self.spec_width(),
                forall|p: (usize, usize)| self.in_bounds(p) ==> pred.requires((&self.at(p),)),
                forall|q: (usize, usize)|
                    self.in_bounds(q) && q.0 < i ==> pred.ensures((&#[trigger] self.at(q),), false),
            decreases self.spec_width() - i,
        {
            let mut j: usize = 0;
            while j < self.height
                invariant
                    self.wf(),
                    i < self.spec_width(),
                    j <= self.spec_height(),
                    forall|p: (usize, usize)| self.in_bounds(p) ==> pred.requires((&self.at(p),)),
                    forall|q: (usize, usize)|
                        self.in_bounds(q) && (q.0 < i || (q.0 == i && q.1 < j)) ==> pred.ensures(
                            (&#[trigger] self.at(q),),
                            false,
                        ),
                decreases self.spec_height() - j,
            {
                let c = self.get((i, j));
                assert(self.in_bounds((i, j)));
                if pred(c) {
                    return Some((i, j));
                }
                j = j + 1;
            }
            i = i + 1;
        }
        None
    }
}

impl<T: Clone> Table<T> {
    /// A `width` by `height` grid with every cell a clone of `fill`.
    pub fn new(width: usize, height: usize, fill: &T) -> (r: Table<T>)
        requires
            width * height <= usize::MAX,
        ensures
            r.wf(),
            r.spec_width() == width,
            r.spec_height() == height,
            forall|i: int| 0 <= i < r.cells().len() ==> cloned(*fill, #[trigger] r.cells()[i]),
    {
        let n: usize = width * height;
        let mut data: Vec<T> = Vec::with_capacity(n);
        let mut k: usize = 0;
        while k < n
            invariant
                k <= n,
                data@.len() == k,
                forall|i: int| 0 <= i < k ==> cloned(*fill, #[trigger] data@[i]),
            decreases n - k,
        {
            data.push(fill.clone());
            k = k + 1;
        }
        Table { data, width, height }
    }
}

impl<T> Table<T> {
    /// A grid of the same width and height with every cell a clone of `fill`.
    pub fn same_size<E: Clone>(&self, fill: &E) -> (r: Table<E>)
        requires
            self.wf(),
        ensures
            r.wf(),
            r.same_shape(self),
            forall|i: int| 0 <= i < r.cells().len() ==> cloned(*fill, #[trigger] r.cells()[i]),
    {
        Table::new(self.width, self.height, fill)
    }
}

impl<T: Clone> Clone for Table<T> {
    fn clone(&self) -> (r: Self)
        ensures
            r.same_shape(self),
            r.cells().len() == self.cells().len(),
            forall|i: int|
                0 <= i < self.cells().len() ==> cloned(self.cells()[i], #[trigger] r.cells()[i]),
    {
        Table { data: self.data.clone(), width: self.width, height: self.height }
    }
}

} // verus!

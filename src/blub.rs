use vstd::prelude::*;
use vstd::std_specs::cmp::PartialOrdIs;
use vstd::std_specs::cmp::PartialOrdSpec;

use crate::table::Table;

verus! {

/// What the flood fill has made of a cell.
///
/// `Border(b)` marks a cell of the occupied region numbered `b`; `Region(b, i)` marks a cell of
/// the free region that is the `i`-th child found of occupied region `b` (the outermost free
/// region is `Region(0, 0)`); `Unmarked` is a cell that no region has claimed yet.
#[derive(Clone, Copy, Debug, PartialEq, Eq, Structural)]
pub enum BlubPx {
    Unmarked,
    Border(usize),
    Region(usize, usize),
}

/// The eight base colours that marks cycle through.
pub open spec fn palette_spec(k: nat) -> [u8; 3] {
    let i = k % 8;
    if i == 0 {
        [255, 255, 255]
    } else if i == 1 {
        [255, 0, 0]
    } else if i == 2 {
        [255, 165, 0]
    } else if i == 3 {
        [255, 255, 0]
    } else if i == 4 {
        [0, 128, 0]
    } else if i == 5 {
        [0, 0, 255]
    } else if i == 6 {
        [75, 0, 130]
    } else {
        [238, 130, 238]
    }
}

/// Base colour number `k`, counted modulo the eight of the palette.
pub fn palette(k: usize) -> (r: [u8; 3])
    ensures
        r == palette_spec(k as nat),
{
    let i = k % 8;
    if i == 0 {
        [255, 255, 255]
    } else if i == 1 {
        [255, 0, 0]
    } else if i == 2 {
        [255, 165, 0]
    } else if i == 3 {
        [255, 255, 0]
    } else if i == 4 {
        [0, 128, 0]
    } else if i == 5 {
        [0, 0, 255]
    } else if i == 6 {
        [75, 0, 130]
    } else {
        [238, 130, 238]
    }
}

/// One channel of a region's colour: the border colour `c` lightened halfway to white, scaled
/// by three quarters, plus a quarter of the sibling colour `f`.
pub open spec fn blend_channel(c: u8, f: u8) -> int {
    (c + (255 - c) / 2) / 4 * 3 + f / 4
}

/// The colour of an occupancy value: black for occupied, white for free.
pub open spec fn occupancy_rgb_spec(occupied: bool) -> [u8; 3] {
    if occupied {
        [0, 0, 0]
    } else {
        [255, 255, 255]
    }
}

pub fn occupancy_rgb(occupied: bool) -> (r: [u8; 3])
    ensures
        r == occupancy_rgb_spec(occupied),
{
    if occupied {
        [0, 0, 0]
    } else {
        [255, 255, 255]
    }
}

/// Channel `k` of the colour that shows mark `v`.
pub open spec fn mark_channel(v: BlubPx, k: int) -> int {
    match v {
        BlubPx::Unmarked => occupancy_rgb_spec(false)[k] as int,
        BlubPx::Border(b) => palette_spec(b as nat)[k] as int,
        BlubPx::Region(b, i) => blend_channel(palette_spec(b as nat)[k], palette_spec(i as nat)[k]),
    }
}

impl BlubPx {
    /// The colour that shows this mark: unclaimed cells white, border `b` in base colour `b`,
    /// and region `(b, i)` as base colour `b` lightened and tinted with base colour `i`.
    pub fn rgb(&self) -> (r: [u8; 3])
        ensures
            forall|k: int| 0 <= k < 3 ==> r[k] as int == mark_channel(*self, k),
            *self == BlubPx::Unmarked ==> r == occupancy_rgb_spec(false),
            forall|b: usize| *self == BlubPx::Border(b) ==> r == palette_spec(b as nat),
            forall|b: usize, i: usize|
                *self == BlubPx::Region(b, i) ==> forall|k: int|
                    0 <= k < 3 ==> r[k] as int == blend_channel(
                        palette_spec(b as nat)[k],
                        palette_spec(i as nat)[k],
                    ),
    {
        match *self {
            BlubPx::Unmarked => occupancy_rgb(false),
            BlubPx::Border(b) => palette(b),
            BlubPx::Region(b, i) => {
                let mut c = palette(b);
                let f = palette(i);
                let mut k: usize = 0;
                while k < 3
                    invariant
                        k <= 3,
                        f == palette_spec(i as nat),
                        forall|m: int| 0 <= m < k ==> c[m] as int == blend_channel(
                            palette_spec(b as nat)[m],
                            palette_spec(i as nat)[m],
                        ),
                        forall|m: int| k <= m < 3 ==> c[m] == palette_spec(b as nat)[m],
                    decreases 3 - k,
                {
                    let v = c[k];
                    c[k] = (v + (255 - v) / 2) / 4 * 3 + f[k] / 4;
                    k = k + 1;
                }
                c
            },
        }
    }
}

proof fn lemma_cell_offset(w: int, h: int, x: int, y: int, i: int, j: int)
    requires
        0 <= x < w,
        0 <= y < h,
        0 <= i <= w,
        0 <= j < h,
        y < j || (y == j && x < i),
    ensures
        x + w * y < i + w * j,
        i + w * j <= w * h,
{
    assert(x + w * y < i + w * j) by (nonlinear_arith)
        requires
            0 <= x < w,
            0 <= i,
            y < j || (y == j && x < i),
    ;
    assert(i + w * j <= w * h) by (nonlinear_arith)
        requires
            0 <= i <= w,
            j < h,
    ;
}

/// The colours of all cells as RGB bytes, row after row: cell `(x, y)` takes the three bytes
/// from `3 * (x + width * y)`.
pub fn rgb_buffer(t: &Table<BlubPx>) -> (r: Vec<u8>)
    requires
        t.wf(),
        3 * t.spec_width() * t.spec_height() <= usize::MAX,
    ensures
        r@.len() == 3 * t.spec_width() * t.spec_height(),
        forall|x: usize, y: usize, k: int|
            x < t.spec_width() && y < t.spec_height() && 0 <= k < 3 ==> r@[3 * (x + t.spec_width()
                * y) + k] as int == #[trigger] mark_channel(t.at((x, y)), k),
{
    let w = t.width();
    let h = t.height();
    let mut r: Vec<u8> = Vec::new();
    let mut j: usize = 0;
    while j < h
        invariant
            t.wf(),
            w == t.spec_width(),
            h == t.spec_height(),
            3 * w * h <= usize::MAX,
            j <= h,
            r@.len() == 3 * (w * j),
            forall|x: usize, y: usize, k: int|
                x < w && y < j && 0 <= k < 3 ==> r@[3 * (x + w * y) + k] as int == #[trigger] mark_channel(
                    t.at((x, y)),
                    k,
                ),
        decreases h - j,
    {
        let mut i: usize = 0;
        while i < w
            invariant
                t.wf(),
                w == t.spec_width(),
                h == t.spec_height(),
                3 * w * h <= usize::MAX,
                j < h,
                i <= w,
                r@.len() == 3 * (i + w * j),
                forall|x: usize, y: usize, k: int|
                    x < w && (y < j || (y == j && x < i)) && 0 <= k < 3 ==> r@[3 * (x + w * y) + k]
                        as int == #[trigger] mark_channel(t.at((x, y)), k),
            decreases w - i,
        {
            let c = t.get((i, j)).rgb();
            proof {
                lemma_cell_offset(w as int, h as int, i as int, j as int, (i + 1) as int, j as int);
                assert(3 * (i + 1 + w * j) <= 3 * (w * h)) by (nonlinear_arith)
                    requires
                        i + 1 + w * j <= w * h,
                ;
                assert(3 * (w * h) == 3 * w * h) by (nonlinear_arith);
            }
            let ghost before = r@;
            r.push(c[0]);
            r.push(c[1]);
            r.push(c[2]);
            proof {
                assert forall|x: usize, y: usize, k: int|
                    x < w && (y < j || (y == j && x < i + 1)) && 0 <= k < 3 implies r@[3 * (x + w
                    * y) + k] as int == #[trigger] mark_channel(t.at((x, y)), k) by {
                    if y == j && x == i {
                    } else {
                        lemma_cell_offset(w as int, h as int, x as int, y as int, i as int, j as int);
                        assert(r@[3 * (x + w * y) + k] == before[3 * (x + w * y) + k]);
                    }
                }
            }
            i = i + 1;
        }
        proof {
            assert(w + w * j == w * (j + 1)) by (nonlinear_arith);
        }
        j = j + 1;
    }
    proof {
        assert(3 * (w * h) == 3 * w * h) by (nonlinear_arith);
    }
    r
}

/// `a` and `b` differ by one step along exactly one axis.
pub open spec fn adjacent(a: (usize, usize), b: (usize, usize)) -> bool {
    ||| a.1 == b.1 && (a.0 + 1 == b.0 || b.0 + 1 == a.0)
    ||| a.0 == b.0 && (a.1 + 1 == b.1 || b.1 + 1 == a.1)
}

/// The neighbours of `p` inside a `width` by `height` grid, in the order
/// `+x`, `-x`, `+y`, `-y`.
pub open spec fn neighbour_seq(width: nat, height: nat, p: (usize, usize)) -> Seq<(usize, usize)> {
    let s0 = Seq::<(usize, usize)>::empty();
    let s1 = if p.0 + 1 < width {
        s0.push(((p.0 + 1) as usize, p.1))
    } else {
        s0
    };
    let s2 = if p.0 > 0 {
        s1.push(((p.0 - 1) as usize, p.1))
    } else {
        s1
    };
    let s3 = if p.1 + 1 < height {
        s2.push((p.0, (p.1 + 1) as usize))
    } else {
        s2
    };
    if p.1 > 0 {
        s3.push((p.0, (p.1 - 1) as usize))
    } else {
        s3
    }
}

/// The neighbours of `p` that lie inside a grid of the given size, `+x`, `-x`, `+y`, `-y`.
/// A step below zero is no neighbour.
fn neighbours(size: (usize, usize), p: (usize, usize)) -> (r: Vec<(usize, usize)>)
    requires
        p.0 < size.0,
        p.1 < size.1,
    ensures
        r@ == neighbour_seq(size.0 as nat, size.1 as nat, p),
        forall|k: int|
            0 <= k < r@.len() ==> adjacent(p, #[trigger] r@[k]) && r@[k].0 < size.0 && r@[k].1
                < size.1,
        forall|q: (usize, usize)|
            q.0 < size.0 && q.1 < size.1 && adjacent(p, q) ==> #[trigger] r@.contains(q),
{
    let (width, height) = size;
    let (i, j) = p;
    let mut r: Vec<(usize, usize)> = Vec::new();
    if i + 1 < width {
        r.push((i + 1, j));
    }
    if i > 0 {
        r.push((i - 1, j));
    }
    if j + 1 < height {
        r.push((i, j + 1));
    }
    if j > 0 {
        r.push((i, j - 1));
    }
    proof {
        assert forall|q: (usize, usize)|
            q.0 < size.0 && q.1 < size.1 && adjacent(p, q) implies #[trigger] r@.contains(q) by {
            let c1: int = if i + 1 < width { 1 } else { 0 };
            let c2: int = c1 + if i > 0 { 1int } else { 0int };
            let c3: int = c2 + if j + 1 < height { 1int } else { 0int };
            if q.1 == j && q.0 == i + 1 {
                assert(r@[0] == q);
            } else if q.1 == j && q.0 + 1 == i {
                assert(r@[c1] == q);
            } else if q.1 == j + 1 {
                assert(r@[c2] == q);
            } else {
                assert(r@[c3] == q);
            }
        }
    }
    r
}

pub open spec fn is_marked(v: BlubPx) -> bool {
    v != BlubPx::Unmarked
}

/// A mark fits the label of its cell: occupied cells belong to borders, free cells to regions.
pub open spec fn label_fits(v: BlubPx, occupied: bool) -> bool {
    &&& (v is Border ==> occupied)
    &&& (v is Region ==> !occupied)
}

pub open spec fn labels_fit(data: &Table<BlubPx>, borders: &Table<bool>) -> bool {
    forall|c: (usize, usize)| data.in_bounds(c) ==> label_fits(#[trigger] data.at(c), borders.at(c))
}

/// Every neighbour of `c` with the same label carries the same mark as `c`.
pub open spec fn joins_like_neighbours(
    data: &Table<BlubPx>,
    borders: &Table<bool>,
    c: (usize, usize),
) -> bool {
    forall|n: (usize, usize)|
        data.in_bounds(n) && adjacent(c, n) && borders.at(n) == borders.at(c) ==> #[trigger] data.at(
            n,
        ) == data.at(c)
}

/// Every neighbour of `c` is marked, or waits in `pending`.
pub open spec fn neighbours_claimed(
    data: &Table<BlubPx>,
    c: (usize, usize),
    pending: Seq<(usize, usize)>,
) -> bool {
    forall|n: (usize, usize)|
        data.in_bounds(n) && adjacent(c, n) ==> is_marked(#[trigger] data.at(n)) || pending.contains(
            n,
        )
}

/// No mark that `d0` holds is changed or removed in `d1`.
pub open spec fn keeps_marks(d0: &Table<BlubPx>, d1: &Table<BlubPx>) -> bool {
    forall|c: (usize, usize)| d0.in_bounds(c) && is_marked(d0.at(c)) ==> #[trigger] d1.at(c) == d0.at(c)
}

/// The number of cells not yet claimed.
pub open spec fn unmarked_count(s: Seq<BlubPx>) -> nat
    decreases s.len(),
{
    if s.len() == 0 {
        0
    } else {
        unmarked_count(s.drop_last()) + if s.last() == BlubPx::Unmarked {
            1nat
        } else {
            0nat
        }
    }
}

proof fn lemma_unmarked_count_update(s: Seq<BlubPx>, i: int, v: BlubPx)
    requires
        0 <= i < s.len(),
        s[i] == BlubPx::Unmarked,
        is_marked(v),
    ensures
        unmarked_count(s.update(i, v)) + 1 == unmarked_count(s),
    decreases s.len(),
{
    let t = s.update(i, v);
    if i == s.len() - 1 {
        assert(t.drop_last() =~= s.drop_last());
    } else {
        assert(t.drop_last() =~= s.drop_last().update(i, v));
        lemma_unmarked_count_update(s.drop_last(), i, v);
    }
}

proof fn lemma_unmarked_count_len(s: Seq<BlubPx>)
    ensures
        unmarked_count(s) <= s.len(),
    decreases s.len(),
{
    if s.len() > 0 {
        lemma_unmarked_count_len(s.drop_last());
    }
}

proof fn lemma_contains_drop_last(s: Seq<(usize, usize)>)
    requires
        s.len() > 0,
    ensures
        forall|c: (usize, usize)|
            s.contains(c) ==> c == s.last() || #[trigger] s.drop_last().contains(c),
{
    assert forall|c: (usize, usize)| s.contains(c) implies c == s.last() || #[trigger] s.drop_last().contains(c) by {
        let k = choose|k: int| 0 <= k < s.len() && s[k] == c;
        if k < s.len() - 1 {
            assert(s.drop_last()[k] == c);
        }
    }
}

proof fn lemma_contains_push(s: Seq<(usize, usize)>, n: (usize, usize))
    ensures
        forall|c: (usize, usize)| #[trigger] s.push(n).contains(c) <==> s.contains(c) || c == n,
{
    assert forall|c: (usize, usize)| #[trigger] s.push(n).contains(c) <==> s.contains(c) || c == n by {
        if s.contains(c) {
            let k = choose|k: int| 0 <= k < s.len() && s[k] == c;
            assert(s.push(n)[k] == c);
        }
        if c == n {
            assert(s.push(n)[s.len() as int] == c);
        }
        if s.push(n).contains(c) {
            let k = choose|k: int| 0 <= k < s.len() + 1 && s.push(n)[k] == c;
            if k < s.len() {
                assert(s[k] == c);
            }
        }
    }
}

proof fn lemma_contains_subrange(s: Seq<(usize, usize)>, k: int)
    requires
        0 <= k < s.len(),
    ensures
        forall|c: (usize, usize)|
            #[trigger] s.subrange(k, s.len() as int).contains(c) ==> c == s[k] || s.subrange(
                k + 1,
                s.len() as int,
            ).contains(c),
{
    assert forall|c: (usize, usize)| #[trigger] s.subrange(k, s.len() as int).contains(c) implies c
        == s[k] || s.subrange(k + 1, s.len() as int).contains(c) by {
        let t = s.subrange(k, s.len() as int);
        let i = choose|i: int| 0 <= i < t.len() && t[i] == c;
        if i > 0 {
            assert(s.subrange(k + 1, s.len() as int)[i - 1] == c);
        }
    }
}

/// Claiming one unmarked cell `n` for `v` keeps earlier marks, keeps every mark fitting its
/// label, keeps like neighbours of the other marked cells together, and leaves one unmarked
/// cell fewer.
proof fn lemma_claim(
    d: &Table<BlubPx>,
    d2: &Table<BlubPx>,
    borders: &Table<bool>,
    n: (usize, usize),
    v: BlubPx,
)
    requires
        d.wf(),
        d2.wf(),
        borders.wf(),
        d.same_shape(borders),
        d2.same_shape(d),
        d.in_bounds(n),
        d.at(n) == BlubPx::Unmarked,
        is_marked(v),
        label_fits(v, borders.at(n)),
        labels_fit(d, borders),
        forall|c: (usize, usize)|
            d.in_bounds(c) && is_marked(#[trigger] d.at(c)) ==> joins_like_neighbours(d, borders, c),
        d2.cells() == d.cells().update(crate::table::flat_index(d.spec_width(), n), v),
        d2.at(n) == v,
        forall|q: (usize, usize)| d.in_bounds(q) && q != n ==> #[trigger] d2.at(q) == d.at(q),
    ensures
        keeps_marks(d, d2),
        labels_fit(d2, borders),
        forall|c: (usize, usize)|
            d2.in_bounds(c) && is_marked(#[trigger] d2.at(c)) && c != n ==> joins_like_neighbours(
                d2,
                borders,
                c,
            ),
        unmarked_count(d2.cells()) + 1 == unmarked_count(d.cells()),
{
    d.lemma_at(n, n);
    lemma_unmarked_count_update(d.cells(), crate::table::flat_index(d.spec_width(), n), v);
    assert forall|c: (usize, usize)|
        d2.in_bounds(c) && is_marked(#[trigger] d2.at(c)) && c != n implies joins_like_neighbours(
        d2,
        borders,
        c,
    ) by {
        assert(joins_like_neighbours(d, borders, c));
        assert forall|m: (usize, usize)|
            d2.in_bounds(m) && adjacent(c, m) && borders.at(m) == borders.at(c) implies #[trigger] d2.at(
            m,
        ) == d2.at(c) by {
            if m == n {
                assert(d.at(m) == d.at(c));
            }
        }
    }
}

/// Widens the interval `lims` just enough to hold `v`: unchanged when `v` already lies within,
/// else with the nearer end moved to `v`.
pub fn relimit<T: Ord>(lims: (T, T), v: T) -> (r: (T, T))
    requires
        T::obeys_partial_cmp_spec(),
    ensures
        lims.0.is_le(&v) && v.is_le(&lims.1) ==> r == lims,
        !(lims.0.is_le(&v) && v.is_le(&lims.1)) && lims.1.is_lt(&v) ==> r == (lims.0, v),
        !(lims.0.is_le(&v) && v.is_le(&lims.1)) && !lims.1.is_lt(&v) ==> r == (v, lims.1),
{
    if lims.0 <= v && v <= lims.1 {
        lims
    } else if lims.1 < v {
        (lims.0, v)
    } else {
        (v, lims.1)
    }
}

/// Some cell marked `v` lies beside some cell whose mark satisfies `parent`.
pub open spec fn touches(d: &Table<BlubPx>, v: BlubPx, parent: spec_fn(BlubPx) -> bool) -> bool {
    exists|a: (usize, usize), b: (usize, usize)|
        d.in_bounds(a) && d.in_bounds(b) && adjacent(a, b) && #[trigger] d.at(a) == v && parent(
            #[trigger] d.at(b),
        )
}

/// Mark `v` touches its parent: region `(b, i)` touches border `b`, and a border touches some
/// region.
pub open spec fn mark_contact(d: &Table<BlubPx>, v: BlubPx) -> bool {
    match v {
        BlubPx::Region(b, i) => touches(d, v, |w: BlubPx| w == BlubPx::Border(b)),
        BlubPx::Border(b) => touches(d, v, |w: BlubPx| w is Region),
        BlubPx::Unmarked => true,
    }
}

/// Every mark that `d1` gives to a cell unmarked in `d0`, other than `me`, touches its parent.
pub open spec fn created_contacts(d0: &Table<BlubPx>, d1: &Table<BlubPx>, me: BlubPx) -> bool {
    forall|c: (usize, usize)|
        d1.in_bounds(c) && d0.at(c) == BlubPx::Unmarked && #[trigger] d1.at(c) != me
            ==> mark_contact(d1, d1.at(c))
}

/// The number that mark `v` carries (its border's, for a region) is below `n`.
pub open spec fn numbered_below(v: BlubPx, n: usize) -> bool {
    match v {
        BlubPx::Border(b) => b < n,
        BlubPx::Region(b, _) => b < n,
        BlubPx::Unmarked => true,
    }
}

/// Every mark of `d` is numbered below `n`: numbers from `n` on are unused.
pub open spec fn marks_below(d: &Table<BlubPx>, n: usize) -> bool {
    forall|c: (usize, usize)| d.in_bounds(c) ==> numbered_below(#[trigger] d.at(c), n)
}

/// Mark `v` was handed out while the counter ran from `b0` to `b1` under a fill of mark `me`:
/// a border numbered in that range, a region of such a border, or a child region of `me`.
pub open spec fn fresh_mark(v: BlubPx, b0: usize, b1: usize, me: BlubPx) -> bool {
    match v {
        BlubPx::Border(b) => b0 <= b < b1,
        BlubPx::Region(b, _) => (b0 <= b < b1) || me == BlubPx::Border(b),
        BlubPx::Unmarked => true,
    }
}

/// Every cell that `d1` marks and `d0` left unmarked carries `me` or a fresh mark.
pub open spec fn new_marks_fresh(
    d0: &Table<BlubPx>,
    d1: &Table<BlubPx>,
    b0: usize,
    b1: usize,
    me: BlubPx,
) -> bool {
    forall|c: (usize, usize)|
        d1.in_bounds(c) && d0.at(c) == BlubPx::Unmarked && is_marked(#[trigger] d1.at(c)) ==> d1.at(c)
            == me || fresh_mark(d1.at(c), b0, b1, me)
}

proof fn lemma_contact_kept(d1: &Table<BlubPx>, d2: &Table<BlubPx>, v: BlubPx)
    requires
        d2.same_shape(d1),
        keeps_marks(d1, d2),
        mark_contact(d1, v),
    ensures
        mark_contact(d2, v),
{
    match v {
        BlubPx::Region(b, i) => {
            let (a, c) = choose|a: (usize, usize), c: (usize, usize)|
                d1.in_bounds(a) && d1.in_bounds(c) && adjacent(a, c) && #[trigger] d1.at(a) == v
                    && (|w: BlubPx| w == BlubPx::Border(b))(#[trigger] d1.at(c));
            assert(d2.at(a) == v && d2.at(c) == BlubPx::Border(b));
        },
        BlubPx::Border(b) => {
            let (a, c) = choose|a: (usize, usize), c: (usize, usize)|
                d1.in_bounds(a) && d1.in_bounds(c) && adjacent(a, c) && #[trigger] d1.at(a) == v
                    && (|w: BlubPx| w is Region)(#[trigger] d1.at(c));
            assert(d2.at(a) == v && d2.at(c) is Region);
        },
        BlubPx::Unmarked => {},
    }
}

/// After a child mark `v` was set at `n` (turning `dk` into `dcall`) and its fill turned
/// `dcall` into `d2`, the marks created since `d0` still touch their parents.
proof fn lemma_child_contacts(
    d0: &Table<BlubPx>,
    dk: &Table<BlubPx>,
    dcall: &Table<BlubPx>,
    d2: &Table<BlubPx>,
    n: (usize, usize),
    v: BlubPx,
    me: BlubPx,
)
    requires
        dk.same_shape(d0),
        dcall.same_shape(dk),
        d2.same_shape(dcall),
        keeps_marks(dk, d2),
        keeps_marks(dcall, d2),
        created_contacts(d0, dk, me),
        forall|q: (usize, usize)| dk.in_bounds(q) && q != n ==> #[trigger] dcall.at(q) == dk.at(q),
        dcall.at(n) == v,
        mark_contact(dcall, v),
        created_contacts(dcall, d2, v),
    ensures
        created_contacts(d0, d2, me),
{
    assert forall|c: (usize, usize)|
        d2.in_bounds(c) && d0.at(c) == BlubPx::Unmarked && #[trigger] d2.at(c) != me implies mark_contact(
        d2,
        d2.at(c),
    ) by {
        if is_marked(dk.at(c)) {
            assert(d2.at(c) == dk.at(c));
            lemma_contact_kept(dk, d2, dk.at(c));
        } else if d2.at(c) == v {
            lemma_contact_kept(dcall, d2, v);
        } else if c != n {
            assert(dcall.at(c) == BlubPx::Unmarked);
        }
    }
}

/// After a child mark `v` was set at `n` and filled, the marks created since `d0` are still
/// fresh, now up to the counter `b2` that the child's fill ended with.
proof fn lemma_child_fresh(
    d0: &Table<BlubPx>,
    dk: &Table<BlubPx>,
    dcall: &Table<BlubPx>,
    d2: &Table<BlubPx>,
    n: (usize, usize),
    v: BlubPx,
    me: BlubPx,
    b0: usize,
    bk: usize,
    bcall: usize,
    b2: usize,
)
    requires
        dk.same_shape(d0),
        dcall.same_shape(dk),
        d2.same_shape(dcall),
        keeps_marks(dk, d2),
        new_marks_fresh(d0, dk, b0, bk, me),
        forall|q: (usize, usize)| dk.in_bounds(q) && q != n ==> #[trigger] dcall.at(q) == dk.at(q),
        dk.at(n) == BlubPx::Unmarked,
        d2.at(n) == v,
        fresh_mark(v, b0, b2, me),
        v is Border ==> b0 <= v->Border_0 < b2,
        new_marks_fresh(dcall, d2, bcall, b2, v),
        b0 <= bk <= bcall <= b2,
    ensures
        new_marks_fresh(d0, d2, b0, b2, me),
{
    assert forall|c: (usize, usize)|
        d2.in_bounds(c) && d0.at(c) == BlubPx::Unmarked && is_marked(#[trigger] d2.at(c)) implies d2.at(c)
        == me || fresh_mark(d2.at(c), b0, b2, me) by {
        if is_marked(dk.at(c)) {
            assert(d2.at(c) == dk.at(c));
        } else if c != n {
            assert(dcall.at(c) == BlubPx::Unmarked);
        }
    }
}

/// Each cell of `fr` lies beside a cell marked `v`.
pub open spec fn frontier_beside(d: &Table<BlubPx>, fr: Seq<(usize, usize)>, v: BlubPx) -> bool {
    forall|k: int| 0 <= k < fr.len() ==> #[trigger] beside(d, fr[k], v)
}

/// Some neighbour of `n` is marked `v`.
pub open spec fn beside(d: &Table<BlubPx>, n: (usize, usize), v: BlubPx) -> bool {
    exists|m: (usize, usize)| d.in_bounds(m) && adjacent(m, n) && #[trigger] d.at(m) == v
}

proof fn lemma_beside_kept(d1: &Table<BlubPx>, d2: &Table<BlubPx>, fr: Seq<(usize, usize)>, v: BlubPx)
    requires
        is_marked(v),
        d2.same_shape(d1),
        keeps_marks(d1, d2),
        frontier_beside(d1, fr, v),
    ensures
        frontier_beside(d2, fr, v),
{
    assert forall|k: int| 0 <= k < fr.len() implies #[trigger] beside(d2, fr[k], v) by {
        assert(beside(d1, fr[k], v));
        let m = choose|m: (usize, usize)| d1.in_bounds(m) && adjacent(m, fr[k]) && #[trigger] d1.at(m) == v;
        assert(d2.at(m) == v);
    }
}

proof fn lemma_beside_push(
    d: &Table<BlubPx>,
    fr: Seq<(usize, usize)>,
    v: BlubPx,
    n: (usize, usize),
    c: (usize, usize),
)
    requires
        frontier_beside(d, fr, v),
        d.in_bounds(c),
        adjacent(c, n),
        d.at(c) == v,
    ensures
        frontier_beside(d, fr.push(n), v),
{
    assert forall|k: int| 0 <= k < fr.push(n).len() implies #[trigger] beside(d, fr.push(n)[k], v) by {
        if k < fr.len() {
            assert(fr.push(n)[k] == fr[k]);
            assert(beside(d, fr[k], v));
        } else {
            assert(fr.push(n)[k] == n);
            assert(d.at(c) == v);
        }
    }
}

/// Claiming the frontier cell `fr[k]` for `v`, beside a cell with a mark of the kind that `v`
/// needs as parent, makes `v` touch its parent.
proof fn lemma_claim_contact(
    d: &Table<BlubPx>,
    d2: &Table<BlubPx>,
    fr: Seq<(usize, usize)>,
    k: int,
    v: BlubPx,
)
    requires
        0 <= k < fr.len(),
        d2.same_shape(d),
        keeps_marks(d, d2),
        d.in_bounds(fr[k]),
        d.at(fr[k]) == BlubPx::Unmarked,
        d2.at(fr[k]) == v,
        forall|q: (usize, usize)| d.in_bounds(q) && q != fr[k] ==> #[trigger] d2.at(q) == d.at(q),
        exists|w: BlubPx|
            frontier_beside(d, fr, w) && is_marked(w) && match v {
                BlubPx::Border(_) => w is Region,
                BlubPx::Region(b, _) => w == BlubPx::Border(b),
                BlubPx::Unmarked => true,
            },
    ensures
        mark_contact(d2, v),
{
    let w = choose|w: BlubPx|
        frontier_beside(d, fr, w) && is_marked(w) && match v {
            BlubPx::Border(_) => w is Region,
            BlubPx::Region(b, _) => w == BlubPx::Border(b),
            BlubPx::Unmarked => true,
        };
    let n = fr[k];
    assert(beside(d, n, w));
    let m = choose|m: (usize, usize)| d.in_bounds(m) && adjacent(m, n) && #[trigger] d.at(m) == w;
    assert(d2.at(m) == w);
    assert(adjacent(n, m));
    match v {
        BlubPx::Border(b) => {
            assert((|x: BlubPx| x is Region)(d2.at(m)));
        },
        BlubPx::Region(b, i) => {
            assert((|x: BlubPx| x == BlubPx::Border(b))(d2.at(m)));
        },
        BlubPx::Unmarked => {},
    }
}

/// Moving past frontier cell `fr[k]`, now claimed: the neighbours of the cells claimed since
/// `d0` are claimed or wait further on in `fr`.
proof fn lemma_advance(
    d0: &Table<BlubPx>,
    dk: &Table<BlubPx>,
    d: &Table<BlubPx>,
    fr: Seq<(usize, usize)>,
    k: int,
    p: (usize, usize),
)
    requires
        0 <= k < fr.len(),
        dk.same_shape(d0),
        d.same_shape(dk),
        keeps_marks(dk, d),
        d.in_bounds(fr[k]),
        is_marked(d.at(fr[k])),
        forall|c: (usize, usize)|
            dk.in_bounds(c) && is_marked(#[trigger] dk.at(c)) && (d0.at(c) == BlubPx::Unmarked || c
                == p) ==> neighbours_claimed(dk, c, fr.subrange(k, fr.len() as int)),
        forall|c: (usize, usize)|
            d.in_bounds(c) && is_marked(#[trigger] d.at(c)) && !is_marked(dk.at(c))
                ==> neighbours_claimed(d, c, Seq::empty()),
    ensures
        forall|c: (usize, usize)|
            d.in_bounds(c) && is_marked(#[trigger] d.at(c)) && (d0.at(c) == BlubPx::Unmarked || c
                == p) ==> neighbours_claimed(d, c, fr.subrange(k + 1, fr.len() as int)),
{
    lemma_contains_subrange(fr, k);
    assert forall|c: (usize, usize)|
        d.in_bounds(c) && is_marked(#[trigger] d.at(c)) && (d0.at(c) == BlubPx::Unmarked || c == p)
        implies neighbours_claimed(d, c, fr.subrange(k + 1, fr.len() as int)) by {
        if is_marked(dk.at(c)) {
            assert(neighbours_claimed(dk, c, fr.subrange(k, fr.len() as int)));
            assert forall|m: (usize, usize)| d.in_bounds(m) && adjacent(c, m) implies is_marked(
                #[trigger] d.at(m),
            ) || fr.subrange(k + 1, fr.len() as int).contains(m) by {
                if !is_marked(dk.at(m)) {
                    assert(fr.subrange(k, fr.len() as int).contains(m));
                }
            }
        } else {
            assert(neighbours_claimed(d, c, Seq::empty()));
        }
    }
}

/// After the child mark `v` was set at frontier cell `n` (turning `dk` into `dcall`) and its
/// fill turned `dcall` into `d2`: earlier marks stand, the frontier still lies beside `p`'s mark,
/// the marks created since `d0` touch their parents and are fresh, and every cell claimed since
/// `dk` has its neighbours claimed.
proof fn lemma_child_done(
    d0: &Table<BlubPx>,
    dk: &Table<BlubPx>,
    dcall: &Table<BlubPx>,
    d2: &Table<BlubPx>,
    borders: &Table<bool>,
    fr: Seq<(usize, usize)>,
    n: (usize, usize),
    v: BlubPx,
    p: (usize, usize),
    b0: usize,
    bk: usize,
    bcall: usize,
    b2: usize,
)
    requires
        dk.same_shape(d0),
        dcall.same_shape(dk),
        keeps_marks(dk, dcall),
        forall|q: (usize, usize)| dk.in_bounds(q) && q != n ==> #[trigger] dcall.at(q) == dk.at(q),
        dk.in_bounds(n),
        dk.at(n) == BlubPx::Unmarked,
        dcall.at(n) == v,
        mark_contact(dcall, v),
        is_marked(d0.at(p)),
        frontier_beside(dcall, fr, d0.at(p)),
        created_contacts(d0, dk, d0.at(p)),
        new_marks_fresh(d0, dk, b0, bk, d0.at(p)),
        b0 <= bk,
        (v == BlubPx::Border(bk) && bcall == bk + 1) || (v is Region && bcall == bk && d0.at(p)
            == BlubPx::Border(v->Region_0)),
        fill_done(dcall, d2, borders, bcall, b2, n),
    ensures
        keeps_marks(dk, d2),
        frontier_beside(d2, fr, d0.at(p)),
        created_contacts(d0, d2, d0.at(p)),
        new_marks_fresh(d0, d2, b0, b2, d0.at(p)),
        forall|c: (usize, usize)|
            d2.in_bounds(c) && is_marked(#[trigger] d2.at(c)) && !is_marked(dk.at(c))
                ==> neighbours_claimed(d2, c, Seq::empty()),
{
    assert(keeps_marks(dk, d2));
    assert(d2.at(n) == v);
    lemma_beside_kept(dcall, d2, fr, d0.at(p));
    lemma_child_contacts(d0, dk, dcall, d2, n, v, d0.at(p));
    lemma_child_fresh(d0, dk, dcall, d2, n, v, d0.at(p), b0, bk, bcall, b2);
    assert forall|c: (usize, usize)|
        d2.in_bounds(c) && is_marked(#[trigger] d2.at(c)) && !is_marked(dk.at(c)) implies neighbours_claimed(
        d2,
        c,
        Seq::empty(),
    ) by {
        if c != n {
            assert(dcall.at(c) == BlubPx::Unmarked);
        }
    }
}

/// `path` is a walk of neighbouring cells of `d`, each marked `v`.
pub open spec fn path_in(d: &Table<BlubPx>, path: Seq<(usize, usize)>, v: BlubPx) -> bool {
    &&& path.len() > 0
    &&& forall|i: int| 0 <= i < path.len() ==> d.in_bounds(#[trigger] path[i]) && d.at(path[i]) == v
    &&& forall|i: int| 0 <= i < path.len() - 1 ==> adjacent(#[trigger] path[i], path[i + 1])
}

/// A walk of cells carrying the mark of `a` leads from `a` to `b`.
pub open spec fn linked(d: &Table<BlubPx>, a: (usize, usize), b: (usize, usize)) -> bool {
    exists|path: Seq<(usize, usize)>| #[trigger] path_in(d, path, d.at(a)) && path[0] == a && path.last() == b
}

/// Each mark of `d` covers one connected piece: any two cells with the same mark are linked.
pub open spec fn one_piece(d: &Table<BlubPx>) -> bool {
    forall|a: (usize, usize), b: (usize, usize)|
        #![trigger d.at(a), d.at(b)]
        d.in_bounds(a) && d.in_bounds(b) && is_marked(d.at(a)) && d.at(a) == d.at(b) ==> linked(
            d,
            a,
            b,
        )
}

proof fn lemma_linked_self(d: &Table<BlubPx>, a: (usize, usize))
    requires
        d.in_bounds(a),
    ensures
        linked(d, a, a),
{
    let path = seq![a];
    assert(path_in(d, path, d.at(a)) && path[0] == a && path.last() == a);
}

proof fn lemma_linked_rev(d: &Table<BlubPx>, a: (usize, usize), b: (usize, usize))
    requires
        linked(d, a, b),
    ensures
        linked(d, b, a),
{
    let path = choose|path: Seq<(usize, usize)>|
        path_in(d, path, d.at(a)) && path[0] == a && path.last() == b;
    let n = path.len();
    let rev = Seq::new(n, |i: int| path[n - 1 - i]);
    assert forall|i: int| 0 <= i < rev.len() - 1 implies adjacent(#[trigger] rev[i], rev[i + 1]) by {
        assert(adjacent(path[n - 2 - i], path[n - 1 - i]));
    }
    assert(d.at(b) == d.at(a));
    assert(rev[0] == b && rev.last() == a);
    assert(path_in(d, rev, d.at(b)));
}

proof fn lemma_linked_step(d: &Table<BlubPx>, a: (usize, usize), b: (usize, usize), n: (usize, usize))
    requires
        linked(d, a, b),
        d.in_bounds(n),
        adjacent(b, n),
        d.at(n) == d.at(a),
    ensures
        linked(d, a, n),
{
    let path = choose|path: Seq<(usize, usize)>|
        path_in(d, path, d.at(a)) && path[0] == a && path.last() == b;
    let p2 = path.push(n);
    assert forall|i: int| 0 <= i < p2.len() - 1 implies adjacent(#[trigger] p2[i], p2[i + 1]) by {
        if i < path.len() - 1 {
            assert(adjacent(path[i], path[i + 1]));
        }
    }
    assert forall|i: int| 0 <= i < p2.len() implies d.in_bounds(#[trigger] p2[i]) && d.at(p2[i])
        == d.at(a) by {
        if i < path.len() {
            assert(p2[i] == path[i]);
        }
    }
    assert(p2[0] == a && p2.last() == n);
    assert(path_in(d, p2, d.at(a)));
}

proof fn lemma_linked_kept(d1: &Table<BlubPx>, d2: &Table<BlubPx>, a: (usize, usize), b: (usize, usize))
    requires
        d2.same_shape(d1),
        keeps_marks(d1, d2),
        is_marked(d1.at(a)),
        linked(d1, a, b),
    ensures
        linked(d2, a, b),
{
    let path = choose|path: Seq<(usize, usize)>|
        path_in(d1, path, d1.at(a)) && path[0] == a && path.last() == b;
    assert forall|i: int| 0 <= i < path.len() implies d2.in_bounds(#[trigger] path[i]) && d2.at(
        path[i],
    ) == d1.at(a) by {
        assert(d1.at(path[i]) == d1.at(a));
    }
    assert(d2.at(a) == d1.at(a));
    assert(path_in(d2, path, d2.at(a)));
}

/// Marking the unmarked cell `n` with `v` keeps every mark in one piece when `v` is new, or
/// when `n` lies beside a cell `w` already marked `v`.
proof fn lemma_one_piece_add(
    d: &Table<BlubPx>,
    d2: &Table<BlubPx>,
    n: (usize, usize),
    v: BlubPx,
    w: (usize, usize),
)
    requires
        d2.same_shape(d),
        keeps_marks(d, d2),
        one_piece(d),
        d.in_bounds(n),
        d.at(n) == BlubPx::Unmarked,
        is_marked(v),
        d2.at(n) == v,
        forall|q: (usize, usize)| d.in_bounds(q) && q != n ==> #[trigger] d2.at(q) == d.at(q),
        (d.in_bounds(w) && adjacent(w, n) && d.at(w) == v) || (forall|c: (usize, usize)|
            d.in_bounds(c) ==> #[trigger] d.at(c) != v),
    ensures
        one_piece(d2),
{
    assert forall|a: (usize, usize), b: (usize, usize)|
        #![trigger d2.at(a), d2.at(b)]
        d2.in_bounds(a) && d2.in_bounds(b) && is_marked(d2.at(a)) && d2.at(a) == d2.at(b) implies linked(
        d2,
        a,
        b,
    ) by {
        if a != n && b != n {
            assert(d.at(a) == d2.at(a) && d.at(b) == d2.at(b));
            assert(linked(d, a, b));
            lemma_linked_kept(d, d2, a, b);
        } else if a == n && b == n {
            lemma_linked_self(d2, a);
        } else if a == n {
            assert(d.at(b) == v);
            assert(d.at(w) == v);
            assert(linked(d, b, w));
            lemma_linked_kept(d, d2, b, w);
            lemma_linked_step(d2, b, w, n);
            lemma_linked_rev(d2, b, n);
        } else {
            assert(d.at(a) == v);
            assert(d.at(w) == v);
            assert(linked(d, a, w));
            lemma_linked_kept(d, d2, a, w);
            lemma_linked_step(d2, a, w, n);
        }
    }
}

/// Some cell carries mark `v`.
pub open spec fn mark_used(d: &Table<BlubPx>, v: BlubPx) -> bool {
    exists|c: (usize, usize)| d.in_bounds(c) && #[trigger] d.at(c) == v
}

/// Every border number from `b0` up to `b1` is in use.
pub open spec fn numbers_used(d: &Table<BlubPx>, b0: usize, b1: usize) -> bool {
    forall|b: usize| b0 <= b < b1 ==> #[trigger] mark_used(d, BlubPx::Border(b))
}

/// The child regions of border `bid` are numbered `0` to `m - 1`, each in use.
pub open spec fn children_numbered(d: &Table<BlubPx>, bid: usize, m: usize) -> bool {
    &&& forall|i: usize| i < m ==> #[trigger] mark_used(d, BlubPx::Region(bid, i))
    &&& forall|c: (usize, usize)|
        d.in_bounds(c) && #[trigger] d.at(c) is Region && d.at(c)->Region_0 == bid ==> d.at(c)->Region_1
            < m
}

proof fn lemma_mark_used_kept(d1: &Table<BlubPx>, d2: &Table<BlubPx>, v: BlubPx)
    requires
        d2.same_shape(d1),
        keeps_marks(d1, d2),
        is_marked(v),
        mark_used(d1, v),
    ensures
        mark_used(d2, v),
{
    let c = choose|c: (usize, usize)| d1.in_bounds(c) && #[trigger] d1.at(c) == v;
    assert(d2.at(c) == v);
}

proof fn lemma_numbers_used_kept(d1: &Table<BlubPx>, d2: &Table<BlubPx>, b0: usize, b1: usize)
    requires
        d2.same_shape(d1),
        keeps_marks(d1, d2),
        numbers_used(d1, b0, b1),
    ensures
        numbers_used(d2, b0, b1),
{
    assert forall|b: usize| b0 <= b < b1 implies #[trigger] mark_used(d2, BlubPx::Border(b)) by {
        lemma_mark_used_kept(d1, d2, BlubPx::Border(b));
    }
}

/// What holds when a flood fill starts at `p`, whose mark has just been set: marks fit their
/// labels, each mark covers one connected piece, and every other marked cell already shares its
/// mark with its like neighbours.
pub open spec fn fill_start(
    data: &Table<BlubPx>,
    borders: &Table<bool>,
    count: usize,
    p: (usize, usize),
) -> bool {
    &&& data.wf()
    &&& borders.wf()
    &&& data.same_shape(borders)
    &&& data.in_bounds(p)
    &&& labels_fit(data, borders)
    &&& one_piece(data)
    &&& forall|c: (usize, usize)|
        data.in_bounds(c) && is_marked(#[trigger] data.at(c)) && c != p ==> joins_like_neighbours(
            data,
            borders,
            c,
        )
    &&& count + unmarked_count(data.cells()) <= usize::MAX
}

/// What holds when a flood fill that started at `p` on `d0` with counter `b0` has finished with
/// `d1` and `b1`: earlier marks stand, every mark fits its label, each mark covers one connected
/// piece, like neighbours share marks, the neighbours of every cell claimed here are claimed,
/// every cell claimed here carries `p`'s mark or a mark numbered from `b0` up to `b1` (or, under
/// a border, a child region of it), every mark created here touches its parent, all numbers
/// stay below `b1`, and the counter grew by at most the number of cells claimed.
pub open spec fn fill_done(
    d0: &Table<BlubPx>,
    d1: &Table<BlubPx>,
    borders: &Table<bool>,
    b0: usize,
    b1: usize,
    p: (usize, usize),
) -> bool {
    &&& d1.wf()
    &&& d1.same_shape(d0)
    &&& keeps_marks(d0, d1)
    &&& labels_fit(d1, borders)
    &&& created_contacts(d0, d1, d0.at(p))
    &&& one_piece(d1)
    &&& marks_below(d1, b1)
    &&& numbers_used(d1, b0, b1)
    &&& new_marks_fresh(d0, d1, b0, b1, d0.at(p))
    &&& forall|c: (usize, usize)|
        d1.in_bounds(c) && is_marked(#[trigger] d1.at(c)) ==> joins_like_neighbours(d1, borders, c)
    &&& forall|c: (usize, usize)|
        d1.in_bounds(c) && is_marked(#[trigger] d1.at(c)) && (d0.at(c) == BlubPx::Unmarked || c
            == p) ==> neighbours_claimed(d1, c, Seq::empty())
    &&& b0 <= b1
    &&& b1 + unmarked_count(d1.cells()) <= b0 + unmarked_count(d0.cells())
}

/// Claims for the mark of `p` every cell that a path of cells with the label of `p` joins to
/// `p`, and returns the neighbours of the claimed cells that have the other label and were
/// unclaimed when found, in the order found.
fn fill(data: &mut Table<BlubPx>, borders: &Table<bool>, p: (usize, usize)) -> (r: Vec<(usize, usize)>)
    requires
        fill_start(old(data), borders, 0, p),
        is_marked(old(data).at(p)),
    ensures
        final(data).wf(),
        final(data).same_shape(old(data)),
        keeps_marks(old(data), final(data)),
        labels_fit(final(data), borders),
        forall|c: (usize, usize)|
            final(data).in_bounds(c) && is_marked(#[trigger] final(data).at(c)) ==> joins_like_neighbours(
                final(data),
                borders,
                c,
            ),
        forall|c: (usize, usize)|
            final(data).in_bounds(c) && is_marked(#[trigger] final(data).at(c)) && (old(data).at(c)
                == BlubPx::Unmarked || c == p) ==> neighbours_claimed(final(data), c, r@),
        forall|c: (usize, usize)|
            final(data).in_bounds(c) && is_marked(#[trigger] final(data).at(c)) && old(data).at(c)
                == BlubPx::Unmarked ==> final(data).at(c) == old(data).at(p),
        forall|k: int|
            0 <= k < r@.len() ==> final(data).in_bounds(#[trigger] r@[k]) && borders.at(r@[k])
                != borders.at(p),
        frontier_beside(final(data), r@, old(data).at(p)),
        one_piece(final(data)),
        unmarked_count(final(data).cells()) <= unmarked_count(old(data).cells()),
{
    let ghost d0 = *data;
    let size = (data.width(), data.height());
    let me = *data.get(p);
    let same = *borders.get(p);
    let mut frontier: Vec<(usize, usize)> = Vec::new();
    let mut stack: Vec<(usize, usize)> = Vec::new();
    stack.push(p);
    proof {
        assert(stack@[0] == p);
        assert(stack@.contains(p));
    }
    while stack.len() > 0
        invariant
            data.wf(),
            borders.wf(),
            data.same_shape(&d0),
            data.same_shape(borders),
            size.0 == data.spec_width() && size.1 == data.spec_height(),
                is_marked(me),
                label_fits(me, same),
            data.in_bounds(p),
            me == d0.at(p),
            same == borders.at(p),
            keeps_marks(&d0, data),
            labels_fit(data, borders),
            one_piece(data),
            forall|k: int|
                0 <= k < stack@.len() ==> data.in_bounds(#[trigger] stack@[k]) && data.at(stack@[k])
                    == me,
            forall|c: (usize, usize)|
                data.in_bounds(c) && is_marked(#[trigger] data.at(c)) && !stack@.contains(c)
                    ==> joins_like_neighbours(data, borders, c),
            forall|c: (usize, usize)|
                data.in_bounds(c) && is_marked(#[trigger] data.at(c)) && (d0.at(c)
                    == BlubPx::Unmarked || c == p) && !stack@.contains(c) ==> neighbours_claimed(
                    data,
                    c,
                    frontier@,
                ),
            forall|c: (usize, usize)|
                data.in_bounds(c) && is_marked(#[trigger] data.at(c)) && d0.at(c)
                    == BlubPx::Unmarked ==> data.at(c) == me,
            forall|k: int|
                0 <= k < frontier@.len() ==> data.in_bounds(#[trigger] frontier@[k]) && borders.at(
                    frontier@[k],
                ) != same,
            frontier_beside(data, frontier@, me),
            unmarked_count(data.cells()) <= unmarked_count(d0.cells()),
        decreases unmarked_count(data.cells()), stack@.len(),
    {
        let ghost before = stack@;
        proof {
            lemma_contains_drop_last(stack@);
        }
        let c0 = stack.pop().unwrap();
        proof {
            assert(stack@ == before.drop_last());
            assert forall|c: (usize, usize)| !stack@.contains(c) && c != c0 implies !before.contains(
                c,
            ) by {
                if before.contains(c) {
                    assert(before.drop_last().contains(c));
                }
            }
        }
        let nb = neighbours(size, c0);
        let ghost s0 = stack@;
        let ghost dstart = *data;
        let mut j: usize = 0;
        while j < nb.len()
            invariant
                data.wf(),
                borders.wf(),
                data.same_shape(&d0),
                data.same_shape(borders),
                size.0 == data.spec_width() && size.1 == data.spec_height(),
                is_marked(me),
                label_fits(me, same),
                data.in_bounds(p),
                data.in_bounds(c0),
                data.at(c0) == me,
                me == d0.at(p),
                same == borders.at(p),
                j <= nb@.len(),
                forall|k: int|
                    0 <= k < nb@.len() ==> adjacent(c0, #[trigger] nb@[k]) && data.in_bounds(nb@[k]),
                forall|q: (usize, usize)|
                    data.in_bounds(q) && adjacent(c0, q) ==> #[trigger] nb@.contains(q),
                keeps_marks(&d0, data),
                labels_fit(data, borders),
                one_piece(data),
                forall|k: int|
                    0 <= k < stack@.len() ==> data.in_bounds(#[trigger] stack@[k]) && data.at(
                        stack@[k],
                    ) == me,
                forall|c: (usize, usize)|
                    data.in_bounds(c) && is_marked(#[trigger] data.at(c)) && !stack@.contains(c)
                        && c != c0 ==> joins_like_neighbours(data, borders, c),
                forall|c: (usize, usize)|
                    data.in_bounds(c) && is_marked(#[trigger] data.at(c)) && (d0.at(c)
                        == BlubPx::Unmarked || c == p) && !stack@.contains(c) && c != c0
                        ==> neighbours_claimed(data, c, frontier@),
                forall|c: (usize, usize)|
                    data.in_bounds(c) && is_marked(#[trigger] data.at(c)) && d0.at(c)
                        == BlubPx::Unmarked ==> data.at(c) == me,
                forall|k: int|
                    0 <= k < frontier@.len() ==> data.in_bounds(#[trigger] frontier@[k])
                        && borders.at(frontier@[k]) != same,
                frontier_beside(data, frontier@, me),
                forall|k: int|
                    0 <= k < j ==> is_marked(data.at(#[trigger] nb@[k])) || frontier@.contains(
                        nb@[k],
                    ),
                forall|k: int|
                    0 <= k < j && borders.at(#[trigger] nb@[k]) == same ==> data.at(nb@[k]) == me,
                unmarked_count(data.cells()) <= unmarked_count(dstart.cells()),
                unmarked_count(dstart.cells()) <= unmarked_count(d0.cells()),
                stack@.len() + unmarked_count(data.cells()) <= s0.len() + unmarked_count(
                    dstart.cells(),
                ),
            decreases nb@.len() - j,
        {
            let n = nb[j];
            let v = *data.get(n);
            if v == BlubPx::Unmarked {
                if *borders.get(n) == same {
                    proof {
                        data.lemma_at(n, n);
                        lemma_unmarked_count_update(
                            data.cells(),
                            crate::table::flat_index(data.spec_width(), n),
                            me,
                        );
                    }
                    let ghost dprev = *data;
                    data.set(n, me);
                    proof {
                        lemma_contains_push(stack@, n);
                        assert(keeps_marks(&dprev, data));
                        lemma_beside_kept(&dprev, data, frontier@, me);
                        lemma_one_piece_add(&dprev, data, n, me, c0);
                    }
                    stack.push(n);
                } else {
                    proof {
                        lemma_contains_push(frontier@, n);
                        lemma_beside_push(data, frontier@, me, n, c0);
                    }
                    frontier.push(n);
                }
            } else if *borders.get(n) == same {
                proof {
                    if !stack@.contains(n) {
                        assert(adjacent(n, c0));
                        assert(joins_like_neighbours(data, borders, n));
                    }
                }
            }
            j = j + 1;
        }
        proof {
            assert(label_fits(data.at(c0), borders.at(c0)));
            assert(borders.at(c0) == same);
            assert forall|n: (usize, usize)|
                data.in_bounds(n) && adjacent(c0, n) implies (borders.at(n) == borders.at(c0)
                ==> #[trigger] data.at(n) == data.at(c0)) && (is_marked(data.at(n))
                || frontier@.contains(n)) by {
                assert(nb@.contains(n));
                let k = choose|k: int| 0 <= k < nb@.len() && nb@[k] == n;
            }
            assert(joins_like_neighbours(data, borders, c0));
            assert(neighbours_claimed(data, c0, frontier@));
        }
    }
    frontier
}

/// Claims the free region that holds `p` (already marked `Region(..)`), then gives each
/// occupied cell found beside it that is still unclaimed a new border number from `bcount` and
/// fills that border in turn.
pub fn propagate_region(
    data: &mut Table<BlubPx>,
    borders: &mut Table<bool>,
    bcount: &mut usize,
    p: (usize, usize),
)
    requires
        fill_start(old(data), old(borders), *old(bcount), p),
        marks_below(old(data), *old(bcount)),
        old(data).at(p) is Region,
    ensures
        *final(borders) == *old(borders),
        fill_done(old(data), final(data), final(borders), *old(bcount), *final(bcount), p),
    decreases unmarked_count(old(data).cells()),
{
    let ghost d0 = *data;
    let ghost b0 = *bcount;
    let frontier = fill(data, &*borders, p);
    proof {
        assert(frontier@.subrange(0, frontier@.len() as int) =~= frontier@);
    }
    let mut k: usize = 0;
    while k < frontier.len()
        invariant
            data.wf(),
            borders.wf(),
            data.same_shape(&d0),
            data.same_shape(borders),
            *borders == *old(borders),
            d0 == *old(data),
            d0.in_bounds(p),
            label_fits(d0.at(p), borders.at(p)),
            d0.at(p) is Region,
            k <= frontier@.len(),
            keeps_marks(&d0, data),
            labels_fit(data, borders),
            forall|c: (usize, usize)|
                data.in_bounds(c) && is_marked(#[trigger] data.at(c)) ==> joins_like_neighbours(
                    data,
                    borders,
                    c,
                ),
            forall|c: (usize, usize)|
                data.in_bounds(c) && is_marked(#[trigger] data.at(c)) && (d0.at(c)
                    == BlubPx::Unmarked || c == p) ==> neighbours_claimed(
                    data,
                    c,
                    frontier@.subrange(k as int, frontier@.len() as int),
                ),
            forall|i: int|
                0 <= i < frontier@.len() ==> data.in_bounds(#[trigger] frontier@[i]) && borders.at(
                    frontier@[i],
                ) != borders.at(p),
            created_contacts(&d0, data, d0.at(p)),
            one_piece(data),
            marks_below(data, *bcount),
            numbers_used(data, b0, *bcount),
            new_marks_fresh(&d0, data, b0, *bcount, d0.at(p)),
            is_marked(d0.at(p)),
            frontier_beside(data, frontier@, d0.at(p)),
            b0 <= *bcount,
            *bcount + unmarked_count(data.cells()) <= b0 + unmarked_count(d0.cells()),
            b0 + unmarked_count(d0.cells()) <= usize::MAX,
        decreases frontier@.len() - k,
    {
        let n = frontier[k];
        let ghost dk = *data;
        let ghost bk = *bcount;
        if *data.get(n) == BlubPx::Unmarked {
            let v = BlubPx::Border(*bcount);
            data.set(n, v);
            proof {
                lemma_claim(&dk, data, borders, n, v);
                lemma_claim_contact(&dk, data, frontier@, k as int, v);
                lemma_one_piece_add(&dk, data, n, v, n);
                lemma_beside_kept(&dk, data, frontier@, d0.at(p));
            }
            *bcount = *bcount + 1;
            let ghost dcall = *data;
            let ghost bcall = *bcount;
            proof {
                assert(unmarked_count(dcall.cells()) < unmarked_count(d0.cells()));
                lemma_numbers_used_kept(&dk, &dcall, b0, bk);
                assert(mark_used(&dcall, BlubPx::Border(bk)));
                assert(numbers_used(&dcall, b0, bcall));
                assert forall|c: (usize, usize)| dcall.in_bounds(c) implies numbered_below(
                    #[trigger] dcall.at(c),
                    bcall,
                ) by {
                    if c != n {
                        assert(numbered_below(dk.at(c), bk));
                    }
                }
            }
            propagate_border(data, borders, bcount, n);
            proof {
                lemma_numbers_used_kept(&dcall, data, b0, bcall);
                lemma_child_done(
                    &d0,
                    &dk,
                    &dcall,
                    data,
                    borders,
                    frontier@,
                    n,
                    v,
                    p,
                    b0,
                    bk,
                    bcall,
                    *bcount,
                );
            }
        }
        proof {
            lemma_advance(&d0, &dk, data, frontier@, k as int, p);
        }
        k = k + 1;
    }
    proof {
        assert forall|c: (usize, usize)|
            data.in_bounds(c) && is_marked(#[trigger] data.at(c)) && (d0.at(c) == BlubPx::Unmarked
                || c == p) implies neighbours_claimed(data, c, Seq::empty()) by {
            assert(neighbours_claimed(
                data,
                c,
                frontier@.subrange(k as int, frontier@.len() as int),
            ));
        }
    }
}

/// Claims the occupied region that holds `p` (already marked `Border(..)`), then marks each
/// free cell found beside it that is still unclaimed as the next child region of this border
/// and fills that region in turn.
pub fn propagate_border(
    data: &mut Table<BlubPx>,
    borders: &mut Table<bool>,
    bcount: &mut usize,
    p: (usize, usize),
)
    requires
        fill_start(old(data), old(borders), *old(bcount), p),
        marks_below(old(data), *old(bcount)),
        old(data).at(p) is Border,
        forall|c: (usize, usize)|
            old(data).in_bounds(c) && #[trigger] old(data).at(c) is Region ==> old(data).at(c)->Region_0
                != old(data).at(p)->Border_0,
    ensures
        *final(borders) == *old(borders),
        fill_done(old(data), final(data), final(borders), *old(bcount), *final(bcount), p),
        exists|m: usize| children_numbered(final(data), old(data).at(p)->Border_0, m),
    decreases unmarked_count(old(data).cells()),
{
    let ghost d0 = *data;
    let ghost b0 = *bcount;
    let bid = match *data.get(p) {
        BlubPx::Border(b) => b,
        _ => 0,
    };
    let frontier = fill(data, &*borders, p);
    proof {
        assert(frontier@.subrange(0, frontier@.len() as int) =~= frontier@);
        lemma_unmarked_count_len(d0.cells());
    }
    let mut rn: usize = 0;
    let mut k: usize = 0;
    while k < frontier.len()
        invariant
            data.wf(),
            borders.wf(),
            data.same_shape(&d0),
            data.same_shape(borders),
            *borders == *old(borders),
            d0 == *old(data),
            d0.in_bounds(p),
            d0.wf(),
            label_fits(d0.at(p), borders.at(p)),
            d0.at(p) == BlubPx::Border(bid),
            k <= frontier@.len(),
            keeps_marks(&d0, data),
            labels_fit(data, borders),
            forall|c: (usize, usize)|
                data.in_bounds(c) && is_marked(#[trigger] data.at(c)) ==> joins_like_neighbours(
                    data,
                    borders,
                    c,
                ),
            forall|c: (usize, usize)|
                data.in_bounds(c) && is_marked(#[trigger] data.at(c)) && (d0.at(c)
                    == BlubPx::Unmarked || c == p) ==> neighbours_claimed(
                    data,
                    c,
                    frontier@.subrange(k as int, frontier@.len() as int),
                ),
            forall|i: int|
                0 <= i < frontier@.len() ==> data.in_bounds(#[trigger] frontier@[i]) && borders.at(
                    frontier@[i],
                ) != borders.at(p),
            created_contacts(&d0, data, d0.at(p)),
            one_piece(data),
            marks_below(data, *bcount),
            numbers_used(data, b0, *bcount),
            new_marks_fresh(&d0, data, b0, *bcount, d0.at(p)),
            is_marked(d0.at(p)),
            frontier_beside(data, frontier@, d0.at(p)),
            b0 <= *bcount,
            *bcount + unmarked_count(data.cells()) <= b0 + unmarked_count(d0.cells()),
            b0 + unmarked_count(d0.cells()) <= usize::MAX,
            rn + unmarked_count(data.cells()) <= unmarked_count(d0.cells()),
            forall|c: (usize, usize)|
                data.in_bounds(c) && #[trigger] data.at(c) is Region && data.at(c)->Region_0 == bid
                    ==> data.at(c)->Region_1 < rn,
            forall|i: usize| i < rn ==> #[trigger] mark_used(data, BlubPx::Region(bid, i)),
            unmarked_count(d0.cells()) <= usize::MAX,
        decreases frontier@.len() - k,
    {
        let n = frontier[k];
        let ghost dk = *data;
        let ghost bk = *bcount;
        if *data.get(n) == BlubPx::Unmarked {
            let v = BlubPx::Region(bid, rn);
            data.set(n, v);
            proof {
                lemma_claim(&dk, data, borders, n, v);
                lemma_claim_contact(&dk, data, frontier@, k as int, v);
                lemma_one_piece_add(&dk, data, n, v, n);
                lemma_beside_kept(&dk, data, frontier@, d0.at(p));
            }
            let ghost rk = rn;
            rn = rn + 1;
            let ghost dcall = *data;
            let ghost bcall = *bcount;
            proof {
                assert(unmarked_count(dcall.cells()) < unmarked_count(d0.cells()));
                assert(numbered_below(dk.at(p), bk));
                assert forall|c: (usize, usize)| dcall.in_bounds(c) implies numbered_below(
                    #[trigger] dcall.at(c),
                    bcall,
                ) by {
                    if c != n {
                        assert(numbered_below(dk.at(c), bk));
                    }
                }
            }
            proof {
                lemma_numbers_used_kept(&dk, &dcall, b0, bk);
                assert forall|i: usize| i < rn implies #[trigger] mark_used(
                    &dcall,
                    BlubPx::Region(bid, i),
                ) by {
                    if i < rk {
                        lemma_mark_used_kept(&dk, &dcall, BlubPx::Region(bid, i));
                    } else {
                        assert(dcall.at(n) == BlubPx::Region(bid, i));
                    }
                }
            }
            propagate_region(data, borders, bcount, n);
            proof {
                assert forall|i: usize| i < rn implies #[trigger] mark_used(
                    data,
                    BlubPx::Region(bid, i),
                ) by {
                    lemma_mark_used_kept(&dcall, data, BlubPx::Region(bid, i));
                }
                lemma_numbers_used_kept(&dcall, data, b0, bcall);
                assert forall|c: (usize, usize)|
                    data.in_bounds(c) && #[trigger] data.at(c) is Region && data.at(c)->Region_0
                        == bid implies data.at(c)->Region_1 < rn by {
                    if is_marked(dk.at(c)) {
                        assert(data.at(c) == dk.at(c));
                    } else if c != n {
                        assert(dcall.at(c) == BlubPx::Unmarked);
                    }
                }
                lemma_child_done(
                    &d0,
                    &dk,
                    &dcall,
                    data,
                    borders,
                    frontier@,
                    n,
                    v,
                    p,
                    b0,
                    bk,
                    bcall,
                    *bcount,
                );
            }
        }
        proof {
            lemma_advance(&d0, &dk, data, frontier@, k as int, p);
        }
        k = k + 1;
    }
    proof {
        assert forall|c: (usize, usize)|
            data.in_bounds(c) && is_marked(#[trigger] data.at(c)) && (d0.at(c) == BlubPx::Unmarked
                || c == p) implies neighbours_claimed(data, c, Seq::empty()) by {
            assert(neighbours_claimed(
                data,
                c,
                frontier@.subrange(k as int, frontier@.len() as int),
            ));
        }
        assert(children_numbered(data, bid, rn));
    }
}

/// Why a topology could not be built.
#[derive(Clone, Copy, Debug, PartialEq, Eq, Structural)]
pub enum TopologyError {
    /// The seed lies outside the grid.
    OutOfBounds,
}

/// The mark of the outermost region, which holds the seed: an occupied seed starts border `0`,
/// a free one region `(0, 0)`.
pub open spec fn root_mark(occupied: bool) -> BlubPx {
    if occupied {
        BlubPx::Border(0)
    } else {
        BlubPx::Region(0, 0)
    }
}

/// `data` marks a decomposition of `grid` into regions grown from `seed`: every cell is claimed
/// by exactly one region, occupied cells by borders and free cells by regions, each mark covers
/// one connected piece, neighbours with the same label are always claimed by the same region
/// (so each mark is exactly one maximal region), each region other than the root lies beside
/// its parent, and the borders other than the root are numbered `1` to `nb - 1` with every
/// number in use.
pub open spec fn is_topology(grid: &Table<bool>, data: &Table<BlubPx>, seed: (usize, usize)) -> bool {
    &&& data.wf()
    &&& data.same_shape(grid)
    &&& data.at(seed) == root_mark(grid.at(seed))
    &&& forall|c: (usize, usize)| data.in_bounds(c) ==> is_marked(#[trigger] data.at(c))
    &&& labels_fit(data, grid)
    &&& one_piece(data)
    &&& exists|nb: usize|
        {
            &&& marks_below(data, nb)
            &&& numbers_used(data, 1, nb)
            &&& forall|c: (usize, usize)|
                data.in_bounds(c) && #[trigger] data.at(c) != root_mark(grid.at(seed)) ==> fresh_mark(
                    data.at(c),
                    1,
                    nb,
                    root_mark(grid.at(seed)),
                )
        }
    &&& forall|c: (usize, usize)| data.in_bounds(c) ==> joins_like_neighbours(data, grid, c)
    &&& forall|c: (usize, usize)|
        data.in_bounds(c) && #[trigger] data.at(c) != root_mark(grid.at(seed)) ==> mark_contact(
            data,
            data.at(c),
        )
}

/// When every marked cell has only marked neighbours, a marked cell `s` reaches every cell.
proof fn lemma_reach_all(data: &Table<BlubPx>, s: (usize, usize), q: (usize, usize))
    requires
        data.in_bounds(s),
        data.in_bounds(q),
        is_marked(data.at(s)),
        forall|c: (usize, usize)|
            data.in_bounds(c) && is_marked(#[trigger] data.at(c)) ==> neighbours_claimed(
                data,
                c,
                Seq::empty(),
            ),
    ensures
        is_marked(data.at(q)),
    decreases
            (if q.0 >= s.0 { q.0 - s.0 } else { s.0 - q.0 }) + (if q.1 >= s.1 { q.1 - s.1 } else {
                s.1 - q.1
            }),
{
    if q != s {
        let r: (usize, usize) = if q.0 > s.0 {
            ((q.0 - 1) as usize, q.1)
        } else if q.0 < s.0 {
            ((q.0 + 1) as usize, q.1)
        } else if q.1 > s.1 {
            (q.0, (q.1 - 1) as usize)
        } else {
            (q.0, (q.1 + 1) as usize)
        };
        lemma_reach_all(data, s, r);
        assert(neighbours_claimed(data, r, Seq::empty()));
        assert(adjacent(r, q));
    }
}

/// Builds the nesting of regions of `graytable` (occupied cells `true`) grown from `seed`.
/// The region of the seed is the root; each border or region found beside a region is its
/// child, numbered in the order found.
pub fn topology(graytable: &Table<bool>, seed: (usize, usize)) -> (r: Result<
    Table<BlubPx>,
    TopologyError,
>)
    requires
        graytable.wf(),
    ensures
        !graytable.in_bounds(seed) <==> r == Err::<Table<BlubPx>, TopologyError>(
            TopologyError::OutOfBounds,
        ),
        match r {
            Ok(data) => is_topology(graytable, &data, seed),
            Err(_) => true,
        },
{
    if seed.0 >= graytable.width() || seed.1 >= graytable.height() {
        return Err(TopologyError::OutOfBounds);
    }
    let mut data = graytable.same_size(&BlubPx::Unmarked);
    let occupied = *graytable.get(seed);
    let root = if occupied {
        BlubPx::Border(0)
    } else {
        BlubPx::Region(0, 0)
    };
    let ghost blank = data;
    proof {
        assert forall|c: (usize, usize)| data.in_bounds(c) implies #[trigger] data.at(c)
            == BlubPx::Unmarked by {
            data.lemma_at(c, c);
        }
        lemma_unmarked_count_len(data.cells());
    }
    data.set(seed, root);
    let mut borders = graytable.clone();
    proof {
        assert(borders.cells() =~= graytable.cells());
        lemma_claim(&blank, &data, &borders, seed, root);
        lemma_one_piece_add(&blank, &data, seed, root, seed);
        assert forall|c: (usize, usize)| data.in_bounds(c) implies numbered_below(
            #[trigger] data.at(c),
            1,
        ) by {
            if c != seed {
                assert(blank.at(c) == BlubPx::Unmarked);
            }
        }
    }
    let mut bcount: usize = 1;
    let ghost start = data;
    if occupied {
        propagate_border(&mut data, &mut borders, &mut bcount, seed);
    } else {
        propagate_region(&mut data, &mut borders, &mut bcount, seed);
    }
    proof {
        assert forall|c: (usize, usize)| data.in_bounds(c) implies is_marked(#[trigger] data.at(c)) by {
            assert forall|m: (usize, usize)| data.in_bounds(m) && is_marked(#[trigger] data.at(m))
                implies neighbours_claimed(&data, m, Seq::empty()) by {
                assert(start.in_bounds(m));
            }
            lemma_reach_all(&data, seed, c);
        }
        assert forall|c: (usize, usize)|
            data.in_bounds(c) && #[trigger] data.at(c) != root implies mark_contact(
            &data,
            data.at(c),
        ) && fresh_mark(data.at(c), 1, bcount, root) by {
            assert(start.in_bounds(c));
            if c != seed {
                assert(blank.at(c) == BlubPx::Unmarked);
            }
        }
        assert(marks_below(&data, bcount) && numbers_used(&data, 1, bcount));
    }
    Ok(data)
}

/// The nesting of regions of `graytable` grown from its top left cell.
pub fn detect(graytable: &Table<bool>) -> (r: Table<BlubPx>)
    requires
        graytable.wf(),
        graytable.spec_width() > 0,
        graytable.spec_height() > 0,
    ensures
        is_topology(graytable, &r, (0, 0)),
{
    let res = topology(graytable, (0, 0));
    assert(graytable.in_bounds((0, 0)));
    match res {
        Ok(data) => data,
        Err(e) => {
            assert(e == TopologyError::OutOfBounds);
            graytable.same_size(&BlubPx::Unmarked)
        },
    }
}

} // verus!

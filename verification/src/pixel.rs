//! Pixel traversal strategies: the order in which the coordinates of a
//! width x height grid are visited. Sequential raster order, or an order
//! drawn from a seeded generator that never repeats a coordinate. Either
//! way the coordinate at each step is a function of the strategy, the seed
//! and the grid size alone, so the same traversal can be reproduced.

use std::collections::HashSet;
use vstd::prelude::*;
use crate::rng::{rng_draw, SeededRng};

verus! {

broadcast use vstd::std_specs::hash::group_hash_axioms;

/// Which of the two traversal strategies is in use.
#[derive(Clone, Copy, Debug, PartialEq, Eq, Structural)]
pub enum TraversalMode {
    Sequential,
    Random,
}

// ---------------------------------------------------------------------------
// Raster order.
// ---------------------------------------------------------------------------

/// The coordinate visited at step `t` of a raster scan of a grid `w` wide:
/// left to right, then top to bottom.
pub open spec fn seq_coord(w: u32, t: nat) -> (u32, u32) {
    ((t % (w as nat)) as u32, (t / (w as nat)) as u32)
}

/// Raster steps are injective within the grid: two different steps give
/// different coordinates.
pub proof fn lemma_seq_coord_injective(w: u32, h: u32, t1: nat, t2: nat)
    requires
        w > 0,
        t1 < w * h,
        t2 < w * h,
        t1 != t2,
    ensures
        seq_coord(w, t1) != seq_coord(w, t2),
{
    vstd::arithmetic::div_mod::lemma_fundamental_div_mod(t1 as int, w as int);
    vstd::arithmetic::div_mod::lemma_fundamental_div_mod(t2 as int, w as int);
    vstd::arithmetic::div_mod::lemma_mod_bound(t1 as int, w as int);
    vstd::arithmetic::div_mod::lemma_mod_bound(t2 as int, w as int);
    vstd::arithmetic::div_mod::lemma_multiply_divide_lt(t1 as int, w as int, h as int);
    vstd::arithmetic::div_mod::lemma_multiply_divide_lt(t2 as int, w as int, h as int);
}

/// A coordinate below `(w, h)` packs into a cell index below `w * h`.
pub proof fn lemma_grid_cell_bound(w: u32, h: u32, x: u32, y: u32)
    by (nonlinear_arith)
    requires
        x < w,
        y < h,
    ensures
        y * w + x < w * h,
        (y + 1) * w == y * w + w,
{
}

/// Visits the grid in raster order and stops after the last cell.
pub struct SequentialPixelIterator {
    imgwh: (u32, u32),
    idx: (u32, u32),
}

impl SequentialPixelIterator {
    pub closed spec fn width(self) -> u32 {
        self.imgwh.0
    }

    pub closed spec fn height(self) -> u32 {
        self.imgwh.1
    }

    /// How many coordinates have been handed out so far.
    pub closed spec fn count(self) -> nat {
        (self.idx.1 * self.imgwh.0 + self.idx.0) as nat
    }

    pub closed spec fn wf(self) -> bool {
        &&& self.imgwh.0 > 0
        &&& self.idx.0 < self.imgwh.0
        &&& self.idx.1 <= self.imgwh.1
    }

    pub fn new(imgwh: (u32, u32)) -> (r: Self)
        requires
            imgwh.0 > 0,
        ensures
            r.wf(),
            r.width() == imgwh.0,
            r.height() == imgwh.1,
            r.count() == 0,
    {
        SequentialPixelIterator { imgwh, idx: (0, 0) }
    }

    /// The next coordinate in raster order, `None` once the grid is done.
    pub fn next(&mut self) -> (r: Option<(u32, u32)>)
        requires
            old(self).wf(),
        ensures
            final(self).wf(),
            final(self).width() == old(self).width(),
            final(self).height() == old(self).height(),
            match r {
                Some(c) => {
                    &&& old(self).count() < old(self).width() * old(self).height()
                    &&& c == seq_coord(old(self).width(), old(self).count())
                    &&& c.0 < old(self).width() && c.1 < old(self).height()
                    &&& final(self).count() == old(self).count() + 1
                },
                None => {
                    &&& old(self).count() >= old(self).width() * old(self).height()
                    &&& final(self).count() == old(self).count()
                },
            },
    {
        let (w, h) = self.imgwh;
        if self.idx.1 >= h {
            proof {
                lemma_mul_adds_bound(self.idx.1 as int, w as int, h as int);
            }
            None
        } else {
            let pix = self.idx;
            proof {
                lemma_grid_cell_bound(w, h, pix.0, pix.1);
                vstd::arithmetic::div_mod::lemma_fundamental_div_mod_converse(
                    self.count() as int,
                    w as int,
                    pix.1 as int,
                    pix.0 as int,
                );
            }
            self.idx.0 = self.idx.0 + 1;
            if self.idx.0 >= w {
                self.idx = (0, self.idx.1 + 1);
            }
            Some(pix)
        }
    }
}

/// If `y >= h` then the packed index `y * w + x` is at least `w * h`.
proof fn lemma_mul_adds_bound(y: int, w: int, h: int)
    by (nonlinear_arith)
    requires
        y >= h,
        w >= 0,
        h >= 0,
    ensures
        y * w >= w * h,
{
}

// ---------------------------------------------------------------------------
// Seeded random order.
//
// Each request draws coordinate pairs below (w, h) from the seeded generator
// and rejects any coordinate already handed out, so the whole traversal is a
// function of the seed and the grid size. The model below replays that
// process: `wh_reps` is the draw-bound history of `j` rejected pairs,
// `rand_cand` the j-th candidate of one request, `rand_pick` the first fresh
// candidate, and `rand_state` the generator history and the emitted
// coordinates after `k` requests.
// ---------------------------------------------------------------------------

/// How many candidate pairs one request may draw before giving up.
pub const RETRY_LIMIT: u64 = 4294967296;

/// The draw bounds of `j` candidate pairs: `[w, h]` repeated `j` times.
pub open spec fn wh_reps(w: u32, h: u32, j: nat) -> Seq<u32>
    decreases j,
{
    if j == 0 {
        Seq::empty()
    } else {
        wh_reps(w, h, (j - 1) as nat) + seq![w, h]
    }
}

/// The j-th candidate coordinate of a request that starts with draw history
/// `hist`.
pub open spec fn rand_cand(seed: u64, hist: Seq<u32>, w: u32, h: u32, j: nat) -> (u32, u32) {
    (
        rng_draw(seed, hist + wh_reps(w, h, j), w),
        rng_draw(seed, (hist + wh_reps(w, h, j)).push(w), h),
    )
}

/// Candidate `j` is the first one not yet handed out.
pub open spec fn rand_accepts(
    seed: u64,
    hist: Seq<u32>,
    w: u32,
    h: u32,
    taken: Seq<(u32, u32)>,
    j: nat,
) -> bool {
    &&& !taken.contains(rand_cand(seed, hist, w, h, j))
    &&& forall|i: nat| i < j ==> taken.contains(#[trigger] rand_cand(seed, hist, w, h, i))
}

/// At most one candidate index is accepted.
pub proof fn lemma_rand_accepts_unique(
    seed: u64,
    hist: Seq<u32>,
    w: u32,
    h: u32,
    taken: Seq<(u32, u32)>,
    j1: nat,
    j2: nat,
)
    requires
        rand_accepts(seed, hist, w, h, taken, j1),
        rand_accepts(seed, hist, w, h, taken, j2),
    ensures
        j1 == j2,
{
    if j1 < j2 {
        assert(taken.contains(rand_cand(seed, hist, w, h, j1)));
    }
    if j2 < j1 {
        assert(taken.contains(rand_cand(seed, hist, w, h, j2)));
    }
}

/// The accepted candidate index, where one exists.
pub open spec fn rand_pick(seed: u64, hist: Seq<u32>, w: u32, h: u32, taken: Seq<(u32, u32)>) -> nat {
    choose|j: nat| rand_accepts(seed, hist, w, h, taken, j)
}

/// Some candidate within the retry limit is fresh.
pub open spec fn rand_step_ok(
    seed: u64,
    hist: Seq<u32>,
    w: u32,
    h: u32,
    taken: Seq<(u32, u32)>,
) -> bool {
    exists|j: nat| j < RETRY_LIMIT && rand_accepts(seed, hist, w, h, taken, j)
}

/// The generator history and the emitted coordinates after `k` requests of a
/// random traversal of a `w` x `h` grid seeded with `seed`.
pub open spec fn rand_state(seed: u64, w: u32, h: u32, k: nat) -> (Seq<u32>, Seq<(u32, u32)>)
    decreases k,
{
    if k == 0 {
        (Seq::<u32>::empty(), Seq::<(u32, u32)>::empty())
    } else {
        let prev = rand_state(seed, w, h, (k - 1) as nat);
        let j = rand_pick(seed, prev.0, w, h, prev.1);
        (prev.0 + wh_reps(w, h, j + 1), prev.1.push(rand_cand(seed, prev.0, w, h, j)))
    }
}

/// The coordinate visited at step `t` of the random traversal.
pub open spec fn rand_coord(seed: u64, w: u32, h: u32, t: nat) -> (u32, u32) {
    rand_state(seed, w, h, t + 1).1.last()
}

/// The first `k` requests of the traversal each find a fresh coordinate
/// within the retry limit.
pub open spec fn rand_ok_upto(seed: u64, w: u32, h: u32, k: nat) -> bool {
    forall|t: nat|
        t < k ==> rand_step_ok(
            seed,
            (#[trigger] rand_state(seed, w, h, t)).0,
            w,
            h,
            rand_state(seed, w, h, t).1,
        )
}

/// A random traversal has emitted `k` coordinates after `k` requests.
pub proof fn lemma_rand_state_len(seed: u64, w: u32, h: u32, k: nat)
    ensures
        rand_state(seed, w, h, k).1.len() == k,
    decreases k,
{
    if k > 0 {
        lemma_rand_state_len(seed, w, h, (k - 1) as nat);
    }
}

/// Coordinate `t` of the emitted sequence is the traversal's step-`t` coordinate.
pub proof fn lemma_rand_emit_index(seed: u64, w: u32, h: u32, k: nat, t: nat)
    requires
        t < k,
    ensures
        rand_state(seed, w, h, k).1[t as int] == rand_coord(seed, w, h, t),
    decreases k,
{
    lemma_rand_state_len(seed, w, h, k);
    lemma_rand_state_len(seed, w, h, (k - 1) as nat);
    if t + 1 < k {
        lemma_rand_emit_index(seed, w, h, (k - 1) as nat, t);
    }
}

/// The packed cell index of a coordinate, used as the key of the set of
/// coordinates already handed out.
pub open spec fn cell_key(w: u32, c: (u32, u32)) -> u64 {
    ((c.1 as int) * (w as int) + (c.0 as int)) as u64
}

/// Packing a grid coordinate into a cell index stays below 2^64.
proof fn lemma_pack_bound(x: int, y: int, w: int)
    by (nonlinear_arith)
    requires
        0 <= x < w,
        0 <= y <= 0xFFFF_FFFF,
        w <= 0x1_0000_0000,
    ensures
        0 <= y * w + x < 0x1_0000_0000_0000_0000,
{
}

/// Packing in-range coordinates into cell indices is injective.
proof fn lemma_pack_injective(x1: int, y1: int, x2: int, y2: int, w: int)
    by (nonlinear_arith)
    requires
        0 <= x1 < w,
        0 <= x2 < w,
        0 <= y1,
        0 <= y2,
        !(x1 == x2 && y1 == y2),
    ensures
        y1 * w + x1 != y2 * w + x2,
{
}

/// Visits the grid in an order drawn from a seeded generator, never handing
/// out the same coordinate twice.
pub struct RandomPixelIterator {
    imgwh: (u32, u32),
    rng: SeededRng,
    used: HashSet<u64>,
    emitted: Ghost<Seq<(u32, u32)>>,
}

impl RandomPixelIterator {
    pub closed spec fn width(self) -> u32 {
        self.imgwh.0
    }

    pub closed spec fn height(self) -> u32 {
        self.imgwh.1
    }

    pub closed spec fn seed(self) -> u64 {
        self.rng.seed()
    }

    /// The coordinates handed out so far, in order.
    pub closed spec fn emitted(self) -> Seq<(u32, u32)> {
        self.emitted@
    }

    pub closed spec fn wf(self) -> bool {
        let w = self.imgwh.0;
        let h = self.imgwh.1;
        let k = self.emitted@.len();
        &&& w > 0 && h > 0
        &&& rand_state(self.rng.seed(), w, h, k).0 == self.rng.hist()
        &&& rand_state(self.rng.seed(), w, h, k).1 == self.emitted@
        &&& forall|i: int|
            0 <= i < k ==> (#[trigger] self.emitted@[i]).0 < w && self.emitted@[i].1 < h
        &&& forall|c: (u32, u32)|
            c.0 < w && c.1 < h ==> (self.used@.contains(#[trigger] cell_key(w, c))
                <==> self.emitted@.contains(c))
    }

    pub fn new(imgwh: (u32, u32), rng: SeededRng) -> (r: Self)
        requires
            imgwh.0 > 0,
            imgwh.1 > 0,
            rng.hist() == Seq::<u32>::empty(),
        ensures
            r.wf(),
            r.width() == imgwh.0,
            r.height() == imgwh.1,
            r.seed() == rng.seed(),
            r.emitted() == Seq::<(u32, u32)>::empty(),
    {
        let r = RandomPixelIterator {
            imgwh,
            rng,
            used: HashSet::new(),
            emitted: Ghost(Seq::empty()),
        };
        proof {
            assert(rand_state(r.rng.seed(), imgwh.0, imgwh.1, 0).0 =~= r.rng.hist());
            assert(rand_state(r.rng.seed(), imgwh.0, imgwh.1, 0).1 =~= r.emitted@);
        }
        r
    }

    /// The next fresh coordinate: candidates are drawn from the generator and
    /// rejected while already handed out. `None` only when no fresh candidate
    /// turned up within the retry limit.
    pub fn next(&mut self) -> (r: Option<(u32, u32)>)
        requires
            old(self).wf(),
        ensures
            final(self).width() == old(self).width(),
            final(self).height() == old(self).height(),
            final(self).seed() == old(self).seed(),
            match r {
                Some(c) => {
                    &&& final(self).wf()
                    &&& c == rand_coord(
                        old(self).seed(),
                        old(self).width(),
                        old(self).height(),
                        old(self).emitted().len(),
                    )
                    &&& c.0 < old(self).width() && c.1 < old(self).height()
                    &&& !old(self).emitted().contains(c)
                    &&& final(self).emitted() == old(self).emitted().push(c)
                    &&& rand_step_ok(
                        old(self).seed(),
                        rand_state(
                            old(self).seed(),
                            old(self).width(),
                            old(self).height(),
                            old(self).emitted().len(),
                        ).0,
                        old(self).width(),
                        old(self).height(),
                        rand_state(
                            old(self).seed(),
                            old(self).width(),
                            old(self).height(),
                            old(self).emitted().len(),
                        ).1,
                    )
                },
                None => {
                    &&& final(self).emitted() == old(self).emitted()
                    &&& !rand_step_ok(
                        old(self).seed(),
                        rand_state(
                            old(self).seed(),
                            old(self).width(),
                            old(self).height(),
                            old(self).emitted().len(),
                        ).0,
                        old(self).width(),
                        old(self).height(),
                        rand_state(
                            old(self).seed(),
                            old(self).width(),
                            old(self).height(),
                            old(self).emitted().len(),
                        ).1,
                    )
                },
            },
    {
        let w = self.imgwh.0;
        let h = self.imgwh.1;
        let ghost seed = self.rng.seed();
        let ghost hist0 = self.rng.hist();
        let ghost taken = self.emitted@;
        let mut tries: u64 = 0;
        while tries < RETRY_LIMIT
            invariant
                self.imgwh == old(self).imgwh,
                w == self.imgwh.0,
                h == self.imgwh.1,
                w > 0,
                h > 0,
                self.rng.seed() == seed,
                self.used@ == old(self).used@,
                self.emitted@ == taken,
                old(self).wf(),
                seed == old(self).seed(),
                hist0 == rand_state(seed, w, h, taken.len()).0,
                taken == rand_state(seed, w, h, taken.len()).1,
                taken == old(self).emitted(),
                tries <= RETRY_LIMIT,
                self.rng.hist() == hist0 + wh_reps(w, h, tries as nat),
                forall|i: nat|
                    i < tries as nat ==> taken.contains(
                        #[trigger] rand_cand(seed, hist0, w, h, i),
                    ),
                forall|i: int|
                    0 <= i < taken.len() ==> (#[trigger] taken[i]).0 < w && taken[i].1 < h,
                forall|c: (u32, u32)|
                    c.0 < w && c.1 < h ==> (self.used@.contains(#[trigger] cell_key(w, c))
                        <==> taken.contains(c)),
            decreases RETRY_LIMIT - tries,
        {
            let ghost j = tries as nat;
            let widx = self.rng.gen_below(w);
            let hidx = self.rng.gen_below(h);
            proof {
                assert(wh_reps(w, h, j + 1) =~= wh_reps(w, h, j) + seq![w, h]);
                assert((hist0 + wh_reps(w, h, j)).push(w).push(h) =~= hist0 + wh_reps(
                    w,
                    h,
                    j + 1,
                ));
                assert((widx, hidx) == rand_cand(seed, hist0, w, h, j));
                lemma_pack_bound(widx as int, hidx as int, w as int);
            }
            let key: u64 = (hidx as u64) * (w as u64) + (widx as u64);
            proof {
                assert(key == cell_key(w, (widx, hidx)));
            }
            if !self.used.contains(&key) {
                let ghost c = (widx, hidx);
                let ghost k = taken.len();
                self.used.insert(key);
                self.emitted = Ghost(taken.push(c));
                proof {
                    assert(!taken.contains(c));
                    assert(rand_accepts(seed, hist0, w, h, taken, j));
                    assert(rand_step_ok(seed, hist0, w, h, taken));
                    let jj = rand_pick(seed, hist0, w, h, taken);
                    assert(rand_accepts(seed, hist0, w, h, taken, jj));
                    lemma_rand_accepts_unique(seed, hist0, w, h, taken, j, jj);
                    lemma_rand_state_len(seed, w, h, k);
                    assert(rand_state(seed, w, h, k + 1).0 == hist0 + wh_reps(w, h, j + 1));
                    assert(rand_state(seed, w, h, k + 1).1 == taken.push(c));
                    assert(rand_coord(seed, w, h, k) == c);
                    assert forall|cc: (u32, u32)|
                        cc.0 < w && cc.1 < h implies (self.used@.contains(
                        #[trigger] cell_key(w, cc),
                    ) <==> taken.push(c).contains(cc)) by {
                        if cc != c {
                            lemma_pack_bound(cc.0 as int, cc.1 as int, w as int);
                            lemma_pack_bound(c.0 as int, c.1 as int, w as int);
                            lemma_pack_injective(
                                cc.0 as int,
                                cc.1 as int,
                                c.0 as int,
                                c.1 as int,
                                w as int,
                            );
                            assert(cell_key(w, cc) != cell_key(w, c));
                            if taken.contains(cc) {
                                let i = choose|i: int| 0 <= i < taken.len() && taken[i] == cc;
                                assert(taken.push(c)[i] == cc);
                                assert(taken.push(c).contains(cc));
                            }
                            if taken.push(c).contains(cc) {
                                let i = choose|i: int|
                                    0 <= i < taken.push(c).len() && taken.push(c)[i] == cc;
                                assert(i < taken.len());
                                assert(taken[i] == cc);
                                assert(taken.contains(cc));
                            }
                            assert(taken.push(c).contains(cc) <==> taken.contains(cc));
                        } else {
                            assert(taken.push(c)[k as int] == c);
                            assert(taken.push(c).contains(cc));
                        }
                    }
                }
                return Some((widx, hidx));
            }
            proof {
                assert(self.used@.contains(cell_key(w, (widx, hidx))));
                assert(taken.contains(rand_cand(seed, hist0, w, h, j)));
            }
            tries = tries + 1;
        }
        proof {
            assert forall|j: nat| j < RETRY_LIMIT implies !rand_accepts(
                seed,
                hist0,
                w,
                h,
                taken,
                j,
            ) by {
                assert(taken.contains(rand_cand(seed, hist0, w, h, j)));
            }
        }
        None
    }
}


// ---------------------------------------------------------------------------
// The closed pair of strategies.
// ---------------------------------------------------------------------------

/// The coordinate visited at step `t` of a traversal: raster order for the
/// sequential strategy, the seeded random order otherwise.
pub open spec fn coord_at(mode: TraversalMode, seed: u64, w: u32, h: u32, t: nat) -> (u32, u32) {
    match mode {
        TraversalMode::Sequential => seq_coord(w, t),
        TraversalMode::Random => rand_coord(seed, w, h, t),
    }
}

/// Either of the two traversal strategies, chosen at run time.
pub enum PixelIterator {
    Sequential(SequentialPixelIterator),
    Random(RandomPixelIterator),
}

impl PixelIterator {
    pub closed spec fn mode(self) -> TraversalMode {
        match self {
            PixelIterator::Sequential(_) => TraversalMode::Sequential,
            PixelIterator::Random(_) => TraversalMode::Random,
        }
    }

    pub closed spec fn width(self) -> u32 {
        match self {
            PixelIterator::Sequential(it) => it.width(),
            PixelIterator::Random(it) => it.width(),
        }
    }

    pub closed spec fn height(self) -> u32 {
        match self {
            PixelIterator::Sequential(it) => it.height(),
            PixelIterator::Random(it) => it.height(),
        }
    }

    /// The seed the traversal replays; a sequential traversal ignores it.
    pub closed spec fn seed(self) -> u64 {
        match self {
            PixelIterator::Sequential(_) => 0,
            PixelIterator::Random(it) => it.seed(),
        }
    }

    /// How many coordinates have been handed out so far.
    pub closed spec fn count(self) -> nat {
        match self {
            PixelIterator::Sequential(it) => it.count(),
            PixelIterator::Random(it) => it.emitted().len(),
        }
    }

    pub closed spec fn wf(self) -> bool {
        match self {
            PixelIterator::Sequential(it) => it.wf(),
            PixelIterator::Random(it) => it.wf(),
        }
    }

    /// Builds the traversal a mode and a seed call for.
    pub fn build(mode: TraversalMode, seed: u64, width: u32, height: u32) -> (r: Self)
        requires
            width > 0,
            height > 0,
        ensures
            r.wf(),
            r.mode() == mode,
            r.width() == width,
            r.height() == height,
            r.count() == 0,
            mode == TraversalMode::Random ==> r.seed() == seed,
    {
        match mode {
            TraversalMode::Sequential => PixelIterator::Sequential(
                SequentialPixelIterator::new((width, height)),
            ),
            TraversalMode::Random => PixelIterator::Random(
                RandomPixelIterator::new((width, height), SeededRng::from_seed(seed)),
            ),
        }
    }

    /// The next coordinate of the traversal. A `Some` is always the
    /// coordinate `coord_at` names for the current step, lies in the grid,
    /// and repeats no earlier coordinate. A sequential traversal ends with
    /// `None` after the last cell; a random one gives `None` only when no
    /// fresh coordinate turned up within the retry limit.
    pub fn next(&mut self) -> (r: Option<(u32, u32)>)
        requires
            old(self).wf(),
        ensures
            final(self).mode() == old(self).mode(),
            final(self).width() == old(self).width(),
            final(self).height() == old(self).height(),
            final(self).seed() == old(self).seed(),
            match r {
                Some(c) => {
                    &&& final(self).wf()
                    &&& c == coord_at(
                        old(self).mode(),
                        old(self).seed(),
                        old(self).width(),
                        old(self).height(),
                        old(self).count(),
                    )
                    &&& c.0 < old(self).width() && c.1 < old(self).height()
                    &&& forall|t: nat|
                        t < old(self).count() ==> c != coord_at(
                            old(self).mode(),
                            old(self).seed(),
                            old(self).width(),
                            old(self).height(),
                            t,
                        )
                    &&& final(self).count() == old(self).count() + 1
                    &&& (old(self).mode() == TraversalMode::Sequential ==> old(self).count()
                        < old(self).width() * old(self).height())
                    &&& (old(self).mode() == TraversalMode::Random ==> rand_step_ok(
                        old(self).seed(),
                        rand_state(
                            old(self).seed(),
                            old(self).width(),
                            old(self).height(),
                            old(self).count(),
                        ).0,
                        old(self).width(),
                        old(self).height(),
                        rand_state(
                            old(self).seed(),
                            old(self).width(),
                            old(self).height(),
                            old(self).count(),
                        ).1,
                    ))
                },
                None => {
                    &&& final(self).count() == old(self).count()
                    &&& (old(self).mode() == TraversalMode::Sequential ==> {
                        &&& old(self).count() >= old(self).width() * old(self).height()
                        &&& final(self).wf()
                    })
                    &&& (old(self).mode() == TraversalMode::Random ==> !rand_step_ok(
                        old(self).seed(),
                        rand_state(
                            old(self).seed(),
                            old(self).width(),
                            old(self).height(),
                            old(self).count(),
                        ).0,
                        old(self).width(),
                        old(self).height(),
                        rand_state(
                            old(self).seed(),
                            old(self).width(),
                            old(self).height(),
                            old(self).count(),
                        ).1,
                    ))
                },
            },
    {
        let ghost pre = *self;
        match self {
            PixelIterator::Sequential(it) => {
                let r = it.next();
                proof {
                    if r is Some {
                        let c = r.unwrap();
                        assert forall|t: nat| t < pre.count() implies c != coord_at(
                            pre.mode(),
                            pre.seed(),
                            pre.width(),
                            pre.height(),
                            t,
                        ) by {
                            lemma_seq_coord_injective(
                                pre.width(),
                                pre.height(),
                                t,
                                pre.count(),
                            );
                        }
                    }
                }
                r
            },
            PixelIterator::Random(it) => {
                let ghost k = it.emitted().len();
                let r = it.next();
                proof {
                    if r is Some {
                        let c = r.unwrap();
                        assert forall|t: nat| t < k implies c != coord_at(
                            pre.mode(),
                            pre.seed(),
                            pre.width(),
                            pre.height(),
                            t,
                        ) by {
                            lemma_rand_emit_index(pre.seed(), pre.width(), pre.height(), k, t);
                        }
                    }
                }
                r
            },
        }
    }
}


/// Determinism: two traversals of the same mode, seed and grid that have run
/// for the same number of steps have visited exactly the same coordinates.
pub proof fn lemma_traversal_reproducible(
    mode: TraversalMode,
    seed: u64,
    w: u32,
    h: u32,
    cs1: Seq<(u32, u32)>,
    cs2: Seq<(u32, u32)>,
)
    requires
        cs1.len() == cs2.len(),
        forall|t: int| 0 <= t < cs1.len() ==> #[trigger] cs1[t] == coord_at(mode, seed, w, h, t as nat),
        forall|t: int| 0 <= t < cs2.len() ==> #[trigger] cs2[t] == coord_at(mode, seed, w, h, t as nat),
    ensures
        cs1 == cs2,
{
    assert(cs1 =~= cs2);
}

/// Distinctness: as long as every request of a random traversal found a
/// fresh coordinate, no coordinate appears twice.
pub proof fn lemma_rand_coords_distinct(seed: u64, w: u32, h: u32, k: nat, t1: nat, t2: nat)
    requires
        rand_ok_upto(seed, w, h, k),
        t1 < t2,
        t2 < k,
    ensures
        rand_coord(seed, w, h, t1) != rand_coord(seed, w, h, t2),
{
    let hist = rand_state(seed, w, h, t2).0;
    let taken = rand_state(seed, w, h, t2).1;
    assert(rand_step_ok(seed, hist, w, h, taken));
    let j = rand_pick(seed, hist, w, h, taken);
    assert(rand_accepts(seed, hist, w, h, taken, j)) by {
        let jw = choose|jx: nat| jx < RETRY_LIMIT && rand_accepts(seed, hist, w, h, taken, jx);
        assert(rand_accepts(seed, hist, w, h, taken, jw));
    }
    lemma_rand_state_len(seed, w, h, t2);
    lemma_rand_emit_index(seed, w, h, t2, t1);
    assert(taken[t1 as int] == rand_coord(seed, w, h, t1));
    assert(taken.contains(rand_coord(seed, w, h, t1)));
    assert(rand_coord(seed, w, h, t2) == rand_cand(seed, hist, w, h, j));
    assert(!taken.contains(rand_cand(seed, hist, w, h, j)));
}

} // verus!

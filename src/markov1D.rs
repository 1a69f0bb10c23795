//! A one-dimensional canvas: a sequence of elements scanned left to right,
//! with a seedable ChaCha8 random source for random matching.
use crate::{EngineError, MapState, Transformation};
use rand::{Rng, SeedableRng};
use rand_chacha::ChaCha8Rng;
use vstd::laws_eq::obeys_concrete_eq;
use vstd::prelude::*;

verus! {

#[verifier::external_type_specification]
#[verifier::external_body]
pub struct ExChaCha8Rng(ChaCha8Rng);

/// Relies on rand_core's `SeedableRng::seed_from_u64` for `ChaCha8Rng`: the
/// generator is a function of the seed alone.
#[verifier::external_body]
fn rng_from_seed(seed: u64) -> ChaCha8Rng {
    ChaCha8Rng::seed_from_u64(seed)
}

/// Relies on rand_core's `SeedableRng::from_rng` over rand's `thread_rng`.
/// `ThreadRng::try_fill_bytes` always returns `Ok` (it fills through a
/// `BlockRng`), so the `unwrap` never fires. `thread_rng` itself panics
/// only where the operating system's entropy source fails, on first use or
/// when reseeding.
#[verifier::external_body]
fn rng_from_entropy() -> ChaCha8Rng {
    ChaCha8Rng::from_rng(rand::thread_rng()).unwrap()
}

/// Relies on rand's `Rng::gen_range` over the inclusive range `0..=max`: the
/// result lies in the range, and a range that starts at zero is never empty,
/// so the call does not panic.
#[verifier::external_body]
fn draw_up_to(rng: &mut ChaCha8Rng, max: usize) -> (r: usize)
    ensures
        r <= max,
{
    rng.gen_range(0..=max)
}

/// The only orientation on a line.
#[derive(Clone, Copy, Debug, PartialEq, Eq, Structural)]
pub enum Direction1D {
    Right,
}

/// A run of elements, as a pattern or as a payload.
pub struct Transformation1D<T: Eq + Clone> {
    pub item: Vec<T>,
}

impl<T: Eq + Clone> Transformation1D<T> {
    pub fn new(item: Vec<T>) -> (r: Self)
        ensures
            r.item == item,
    {
        Self { item }
    }
}

impl<T: Eq + Clone> Transformation for Transformation1D<T> {
    type Item = Vec<T>;

    open spec fn size(&self) -> nat {
        self.item@.len()
    }

    open spec fn item(&self) -> Vec<T> {
        self.item
    }

    fn equal_size(&self, compared: &Self) -> (r: bool) {
        self.item.len() == compared.item.len()
    }

    fn get(&self) -> (r: &Vec<T>) {
        &self.item
    }
}

/// `pattern` lies in `canvas` from `pos` on.
pub open spec fn fits_at<T>(canvas: Seq<T>, pattern: Seq<T>, pos: int) -> bool {
    0 <= pos && pos + pattern.len() <= canvas.len() && canvas.subrange(pos, pos + pattern.len())
        == pattern
}

/// `pos` is the leftmost place where `pattern` lies in `canvas`.
pub open spec fn leftmost_at<T>(canvas: Seq<T>, pattern: Seq<T>, pos: int) -> bool {
    fits_at(canvas, pattern, pos) && forall|j: int| 0 <= j < pos ==> !fits_at(canvas, pattern, j)
}

/// The leftmost place where `pattern` lies in `canvas`, if any.
pub open spec fn leftmost<T>(canvas: Seq<T>, pattern: Seq<T>) -> Option<int> {
    if exists|i: int| leftmost_at(canvas, pattern, i) {
        Some(choose|i: int| leftmost_at(canvas, pattern, i))
    } else {
        None
    }
}

/// `after` is `before` with a clone of each element of `payload` written from
/// `pos` on; everything outside that window is the same.
pub open spec fn spliced<T: Clone>(after: Seq<T>, before: Seq<T>, payload: Seq<T>, pos: int) -> bool {
    &&& after.len() == before.len()
    &&& forall|i: int|
        0 <= i < before.len() && !(pos <= i < pos + payload.len()) ==> after[i] == before[i]
    &&& forall|k: int| 0 <= k < payload.len() ==> cloned(payload[k], #[trigger] after[pos + k])
}

/// The canvas: its elements and the random source for random matching.
pub struct MapState1D<T: Eq> {
    pub state: Vec<T>,
    pub rand: ChaCha8Rng,
}

impl<T: Eq> MapState1D<T> {
    /// A canvas over `state`; with a seed its random draws repeat from run to
    /// run, without one they are seeded from the thread's generator.
    pub fn new(state: Vec<T>, seed: Option<u64>) -> (r: Self)
        ensures
            r.state == state,
    {
        Self {
            state,
            rand: match seed {
                None => rng_from_entropy(),
                Some(s) => rng_from_seed(s),
            },
        }
    }

    /// Whether `pattern` lies in the canvas from `pos` on.
    fn match_pattern(&self, pos: usize, pattern: &Vec<T>) -> (r: bool)
        requires
            obeys_concrete_eq::<T>(),
            pos + pattern@.len() <= self.state@.len(),
        ensures
            r == fits_at(self.state@, pattern@, pos as int),
    {
        let len = self.state.len();
        let mut n: usize = 0;
        while n < pattern.len()
            invariant
                obeys_concrete_eq::<T>(),
                len == self.state@.len(),
                pos + pattern@.len() <= self.state@.len(),
                n <= pattern@.len(),
                forall|k: int| 0 <= k < n ==> self.state@[pos + k] == pattern@[k],
            decreases pattern@.len() - n,
        {
            proof {
                reveal(obeys_concrete_eq);
            }
            if self.state[pos + n] != pattern[n] {
                assert(self.state@.subrange(pos as int, pos + pattern@.len())[n as int]
                    != pattern@[n as int]);
                return false;
            }
            n += 1;
        }
        assert(self.state@.subrange(pos as int, pos + pattern@.len()) =~= pattern@);
        true
    }
}

/// The largest start from which a pattern of `plen` elements still ends
/// inside a canvas of `len` elements, or `None` where no start does.
pub fn draw_bound(len: usize, plen: usize) -> (r: Option<usize>)
    ensures
        r == if plen <= len {
            Some((len - plen) as usize)
        } else {
            None::<usize>
        },
{
    if plen <= len {
        Some(len - plen)
    } else {
        None
    }
}

impl<T: Eq + Clone> MapState1D<T> {
    /// One random try: the hit at the drawn place `pos` if `pattern` lies
    /// there, or `None`.
    pub fn random_try(&self, pattern: &Transformation1D<T>, pos: usize) -> (r: Option<
        Vec<(usize, Direction1D)>,
    >)
        requires
            self.wf(),
            pos + pattern.item@.len() <= self.state@.len(),
        ensures
            (r is Some) == fits_at(self.state@, pattern.item@, pos as int),
            r matches Some(h) ==> h@ == seq![(pos, Direction1D::Right)],
    {
        if self.match_pattern(pos, &pattern.item) {
            Some(vec![(pos, Direction1D::Right)])
        } else {
            None
        }
    }
}

impl<T: Eq + Clone> MapState<Transformation1D<T>> for MapState1D<T> {
    type Pos = usize;

    type Dir = Direction1D;

    type Canvas = Seq<T>;

    type Source = ChaCha8Rng;

    /// `==` on the elements is plain equality. vstd proves this for its
    /// integer types and `bool`, but gives no such law for `char`, so a
    /// verified caller cannot yet establish it for `char` content.
    open spec fn wf(&self) -> bool {
        obeys_concrete_eq::<T>()
    }

    open spec fn canvas(&self) -> Seq<T> {
        self.state@
    }

    open spec fn source(&self) -> ChaCha8Rng {
        self.rand
    }

    open spec fn supports_all_without_conflicts() -> bool {
        false
    }

    open spec fn supports_all() -> bool {
        false
    }

    open spec fn conflict(
        pattern: Transformation1D<T>,
        a: (usize, Direction1D),
        b: (usize, Direction1D),
    ) -> bool {
        a.0 < b.0 + pattern.item@.len() && b.0 < a.0 + pattern.item@.len()
    }

    open spec fn precedes(a: (usize, Direction1D), b: (usize, Direction1D)) -> bool {
        a.0 < b.0
    }

    open spec fn fits(
        canvas: Seq<T>,
        pattern: Transformation1D<T>,
        pos: usize,
        dir: Direction1D,
    ) -> bool {
        fits_at(canvas, pattern.item@, pos as int)
    }

    open spec fn first_fit(canvas: Seq<T>, pattern: Transformation1D<T>) -> Option<
        (usize, Direction1D),
    > {
        match leftmost(canvas, pattern.item@) {
            Some(i) => if i <= usize::MAX {
                Some((i as usize, Direction1D::Right))
            } else {
                None
            },
            None => None,
        }
    }

    open spec fn settable(
        canvas: Seq<T>,
        payload: Transformation1D<T>,
        pos: usize,
        dir: Direction1D,
    ) -> bool {
        pos + payload.item@.len() <= canvas.len()
    }

    open spec fn written(
        after: Seq<T>,
        before: Seq<T>,
        payload: Transformation1D<T>,
        pos: usize,
        dir: Direction1D,
    ) -> bool {
        spliced(after, before, payload.item@, pos as int)
    }

    proof fn lemma_first_fit(canvas: Seq<T>, pattern: Transformation1D<T>) {
        let pt = pattern.item@;
        if exists|i: int| leftmost_at(canvas, pt, i) {
            let c = choose|i: int| leftmost_at(canvas, pt, i);
            assert(leftmost_at(canvas, pt, c));
            if c > usize::MAX {
                assert forall|p: usize, d: Direction1D| !#[trigger] Self::fits(canvas, pattern, p, d) by {
                    assert((p as int) < c);
                }
            }
        } else {
            assert forall|p: usize, d: Direction1D| !#[trigger] Self::fits(canvas, pattern, p, d) by {
                if fits_at(canvas, pt, p as int) {
                    lemma_fit_has_leftmost(canvas, pt, p as int);
                }
            }
        }
    }

    proof fn lemma_fit_settable(
        canvas: Seq<T>,
        pattern: Transformation1D<T>,
        payload: Transformation1D<T>,
        pos: usize,
        dir: Direction1D,
    ) {
    }

    proof fn lemma_written_settable(
        after: Seq<T>,
        before: Seq<T>,
        payload: Transformation1D<T>,
        pos: usize,
        dir: Direction1D,
        other: Transformation1D<T>,
        other_pos: usize,
        other_dir: Direction1D,
    ) {
    }

    fn linear_match(&self, pattern: &Transformation1D<T>) -> (r: Option<Vec<(usize, Direction1D)>>) {
        let item_pattern = pattern.get();
        if item_pattern.len() > self.state.len() {
            proof {
                lemma_too_long_never_fits(self.state@, item_pattern@);
            }
            return None;
        }
        // The last start from which the pattern still ends inside the canvas.
        let last = self.state.len() - item_pattern.len();
        let mut i: usize = 0;
        while i < last
            invariant
                self.wf(),
                *item_pattern == pattern.item,
                last + item_pattern@.len() == self.state@.len(),
                i <= last,
                forall|j: int| 0 <= j < i ==> !fits_at(self.state@, item_pattern@, j),
            decreases last - i,
        {
            if self.match_pattern(i, item_pattern) {
                proof {
                    lemma_leftmost_unique(self.state@, item_pattern@, i as int);
                }
                return Some(vec![(i, Direction1D::Right)]);
            }
            i += 1;
        }
        if self.match_pattern(last, item_pattern) {
            proof {
                lemma_leftmost_unique(self.state@, item_pattern@, last as int);
            }
            return Some(vec![(last, Direction1D::Right)]);
        }
        proof {
            assert forall|j: int| !leftmost_at(self.state@, item_pattern@, j) by {
                if 0 <= j && j + item_pattern@.len() <= self.state@.len() && j != last {
                    assert(j < i);
                }
            }
        }
        None
    }

    fn random_match(&mut self, pattern: &Transformation1D<T>, tries: u64) -> (r: Option<
        Vec<(usize, Direction1D)>,
    >) {
        let item_pattern = pattern.get();
        let max = match draw_bound(self.state.len(), item_pattern.len()) {
            None => {
                proof {
                    lemma_too_long_never_fits(self.state@, item_pattern@);
                }
                return None;
            },
            Some(max) => max,
        };
        let mut tried: u64 = 0;
        while tried != tries
            invariant
                self.wf(),
                self.state == old(self).state,
                tried == 0 ==> self.rand == old(self).rand,
                *item_pattern == pattern.item,
                max + item_pattern@.len() == self.state@.len(),
                tried <= tries,
                tried > 0 ==> exists|p: usize|
                    p + item_pattern@.len() <= self.state@.len() && !#[trigger] fits_at(
                        self.state@,
                        item_pattern@,
                        p as int,
                    ),
            decreases tries - tried,
        {
            let pos = draw_up_to(&mut self.rand, max);
            let hit = self.random_try(pattern, pos);
            if let Some(hits) = hit {
                proof {
                    lemma_fit_has_leftmost(self.state@, item_pattern@, pos as int);
                }
                return Some(hits);
            }
            tried += 1;
        }
        proof {
            if tries > 0 {
                let p = choose|p: usize|
                    p + item_pattern@.len() <= self.state@.len() && !#[trigger] fits_at(
                        self.state@,
                        item_pattern@,
                        p as int,
                    );
                assert(<MapState1D<T> as MapState<Transformation1D<T>>>::settable(
                    self.state@,
                    *pattern,
                    p,
                    Direction1D::Right,
                ));
            }
        }
        None
    }

    fn match_all_without_conflicts(&self, pattern: &Transformation1D<T>) -> (r: Result<
        Option<Vec<(usize, Direction1D)>>,
        EngineError,
    >) {
        Err(EngineError::Unsupported)
    }

    fn match_all(&self, pattern: &Transformation1D<T>) -> (r: Result<
        Option<Vec<(usize, Direction1D)>>,
        EngineError,
    >) {
        Err(EngineError::Unsupported)
    }

    fn set(&mut self, pattern: &Transformation1D<T>, pos: &usize, dir: &Direction1D) {
        // The line has a single orientation, so `dir` plays no part.
        let payload = &pattern.item;
        let len = self.state.len();
        let mut k: usize = 0;
        while k < payload.len()
            invariant
                self.rand == old(self).rand,
                len == old(self).state@.len(),
                *pos + payload@.len() <= old(self).state@.len(),
                k <= payload@.len(),
                self.state@.len() == old(self).state@.len(),
                forall|i: int|
                    0 <= i < self.state@.len() && !(*pos <= i < *pos + k) ==> self.state@[i]
                        == old(self).state@[i],
                forall|j: int| 0 <= j < k ==> cloned(payload@[j], #[trigger] self.state@[*pos + j]),
            decreases payload@.len() - k,
        {
            let e = payload[k].clone();
            self.state.set(*pos + k, e);
            k += 1;
        }
    }
}

/// A pattern longer than the canvas lies nowhere in it.
pub proof fn lemma_too_long_never_fits<T>(canvas: Seq<T>, pattern: Seq<T>)
    requires
        pattern.len() > canvas.len(),
    ensures
        forall|i: int| !fits_at(canvas, pattern, i),
        leftmost(canvas, pattern) is None,
{
}

/// A place where the pattern fits and before which it fits nowhere is the
/// leftmost one.
pub proof fn lemma_leftmost_unique<T>(canvas: Seq<T>, pattern: Seq<T>, i: int)
    requires
        leftmost_at(canvas, pattern, i),
    ensures
        leftmost(canvas, pattern) == Some(i),
{
    let c = choose|c: int| leftmost_at(canvas, pattern, c);
    assert(leftmost_at(canvas, pattern, c));
    if c < i {
        assert(!fits_at(canvas, pattern, c));
    } else if i < c {
        assert(!fits_at(canvas, pattern, i));
    }
}

/// Wherever the pattern fits, there is a leftmost place where it fits.
proof fn lemma_fit_has_leftmost<T>(canvas: Seq<T>, pattern: Seq<T>, pos: int)
    requires
        fits_at(canvas, pattern, pos),
    ensures
        exists|i: int| leftmost_at(canvas, pattern, i),
    decreases pos,
{
    if exists|j: int| 0 <= j < pos && fits_at(canvas, pattern, j) {
        let j = choose|j: int| 0 <= j < pos && fits_at(canvas, pattern, j);
        lemma_fit_has_leftmost(canvas, pattern, j);
    } else {
        assert(leftmost_at(canvas, pattern, pos));
    }
}

/// The linear strategy finds the smallest index from which the canvas
/// holds the pattern element for element, and finds nothing when there is
/// no such index.
pub proof fn lemma_first_fit_is_leftmost<T: Eq + Clone>(canvas: Seq<T>, pattern: Transformation1D<T>)
    requires
        canvas.len() <= usize::MAX,
    ensures
        match <MapState1D<T> as MapState<Transformation1D<T>>>::first_fit(canvas, pattern) {
            Some((i, dir)) => {
                &&& dir == Direction1D::Right
                &&& fits_at(canvas, pattern.item@, i as int)
                &&& forall|j: int| 0 <= j < i ==> !fits_at(canvas, pattern.item@, j)
            },
            None => forall|j: int| !fits_at(canvas, pattern.item@, j),
        },
{
    let p = pattern.item@;
    if exists|i: int| leftmost_at(canvas, p, i) {
        let c = choose|i: int| leftmost_at(canvas, p, i);
        assert(leftmost_at(canvas, p, c));
        assert(c as usize as int == c);
    } else {
        assert forall|j: int| !fits_at(canvas, p, j) by {
            if fits_at(canvas, p, j) {
                lemma_fit_has_leftmost(canvas, p, j);
            }
        }
    }
}

/// A pattern longer than the canvas fits nowhere in it, so neither the
/// linear nor the random strategy can return a hit.
pub proof fn lemma_too_long_no_match<T: Eq + Clone>(canvas: Seq<T>, pattern: Transformation1D<T>)
    requires
        pattern.item@.len() > canvas.len(),
    ensures
        <MapState1D<T> as MapState<Transformation1D<T>>>::first_fit(canvas, pattern) is None,
        forall|pos: usize, dir: Direction1D|
            !#[trigger] <MapState1D<T> as MapState<Transformation1D<T>>>::fits(canvas, pattern, pos, dir),
{
    lemma_too_long_never_fits(canvas, pattern.item@);
}

} // verus!

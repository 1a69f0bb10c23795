//! A rewriting engine in the style of Markov algorithms: an ordered list of
//! rules is applied to a mutable canvas, one rule at a time, until no rule
//! matches any more.
#![allow(non_snake_case)]

#[allow(unused_imports)]
use vstd::prelude::*;

pub mod markov1D;

verus! {

/// Why building a rule or taking a step failed.
#[derive(Debug, PartialEq, Eq, Structural)]
pub enum EngineError {
    /// A rule's pattern and payload differ in length.
    SizeMismatch,
    /// The canvas cannot carry out the rule's strategy.
    Unsupported,
    /// `finish` took `u64::MAX` steps without reaching a fixpoint.
    StepLimit,
}

/// How a rule looks for its pattern in the canvas.
#[derive(Clone, Copy, Debug, PartialEq, Eq, Structural)]
pub enum Match {
    /// The first occurrence in the canvas's own scan order.
    Linear,
    /// Up to `tries` positions drawn at random, with replacement.
    Random { tries: u64 },
    /// Every occurrence that does not overlap one accepted before it.
    AllWithoutConflicts,
    /// Every occurrence, overlapping ones included.
    All,
}

/// A fixed-length piece of canvas content, used as a pattern to look for and
/// as a payload to write.
pub trait Transformation {
    /// The content itself.
    type Item;

    /// The number of elements.
    spec fn size(&self) -> nat;

    /// The content, as `get` returns it.
    spec fn item(&self) -> Self::Item;

    /// Whether both hold the same number of elements. Only the lengths are
    /// compared, never the elements.
    fn equal_size(&self, compared: &Self) -> (r: bool)
        ensures
            r == (self.size() == compared.size()),
    ;

    /// Read access to the content.
    fn get(&self) -> (r: &Self::Item)
        ensures
            *r == self.item(),
    ;
}

/// `steps` is a chain of canvases from `before` to `after` in which each
/// step writes `payload` at the next of `hits`.
pub open spec fn write_chain<T: Transformation, M: MapState<T>>(
    steps: Seq<M::Canvas>,
    before: M::Canvas,
    after: M::Canvas,
    payload: T,
    hits: Seq<(M::Pos, M::Dir)>,
) -> bool {
    &&& steps.len() == hits.len() + 1
    &&& steps[0] == before
    &&& steps.last() == after
    &&& forall|i: int|
        0 <= i < hits.len() ==> #[trigger] M::written(
            steps[i + 1],
            steps[i],
            payload,
            hits[i].0,
            hits[i].1,
        )
}

/// `after` is `before` with `payload` written at each of `hits`, in order.
pub open spec fn written_all<T: Transformation, M: MapState<T>>(
    after: M::Canvas,
    before: M::Canvas,
    payload: T,
    hits: Seq<(M::Pos, M::Dir)>,
) -> bool {
    exists|steps: Seq<M::Canvas>| write_chain::<T, M>(steps, before, after, payload, hits)
}

/// The mutable content that rules rewrite. A canvas defines its own
/// positions and orientations, says in spec terms where a pattern fits and
/// what writing a payload does, and provides the matchers and the commit.
pub trait MapState<T: Transformation>: Sized {
    /// A location in the canvas.
    type Pos;
    /// An orientation at a location.
    type Dir;
    /// The content, apart from any bookkeeping such as a random source.
    type Canvas;
    /// The bookkeeping beside the content, such as a random source.
    type Source;

    /// The canvas's own invariant, which every operation keeps.
    spec fn wf(&self) -> bool;

    /// The current content.
    spec fn canvas(&self) -> Self::Canvas;

    /// The current bookkeeping.
    spec fn source(&self) -> Self::Source;

    /// Whether `match_all_without_conflicts` is carried out at all.
    spec fn supports_all_without_conflicts() -> bool;

    /// Whether `match_all` is carried out at all.
    spec fn supports_all() -> bool;

    /// The occurrences of `pattern` at `a` and at `b` share a place.
    spec fn conflict(pattern: T, a: (Self::Pos, Self::Dir), b: (Self::Pos, Self::Dir)) -> bool;

    /// `a` comes before `b` in the canvas's scan order.
    spec fn precedes(a: (Self::Pos, Self::Dir), b: (Self::Pos, Self::Dir)) -> bool;

    /// `pattern` occurs at `pos` in orientation `dir`.
    spec fn fits(canvas: Self::Canvas, pattern: T, pos: Self::Pos, dir: Self::Dir) -> bool;

    /// The first place where `pattern` fits, in the canvas's scan order.
    spec fn first_fit(canvas: Self::Canvas, pattern: T) -> Option<(Self::Pos, Self::Dir)>;

    /// `payload` can be written at `pos` in orientation `dir`.
    spec fn settable(canvas: Self::Canvas, payload: T, pos: Self::Pos, dir: Self::Dir) -> bool;

    /// `after` is `before` with `payload` written at `pos` in orientation `dir`.
    spec fn written(
        after: Self::Canvas,
        before: Self::Canvas,
        payload: T,
        pos: Self::Pos,
        dir: Self::Dir,
    ) -> bool;

    /// `first_fit` is a place where the pattern fits and no fit comes
    /// before it; it is `None` only where the pattern fits nowhere.
    proof fn lemma_first_fit(canvas: Self::Canvas, pattern: T)
        ensures
            match Self::first_fit(canvas, pattern) {
                Some(h) => Self::fits(canvas, pattern, h.0, h.1) && forall|p: Self::Pos, d: Self::Dir|
                    #[trigger] Self::fits(canvas, pattern, p, d) ==> !Self::precedes((p, d), h),
                None => forall|p: Self::Pos, d: Self::Dir| !#[trigger] Self::fits(canvas, pattern, p, d),
            },
    ;

    /// Wherever a pattern fits, a payload of its size can be written.
    proof fn lemma_fit_settable(
        canvas: Self::Canvas,
        pattern: T,
        payload: T,
        pos: Self::Pos,
        dir: Self::Dir,
    )
        requires
            Self::fits(canvas, pattern, pos, dir),
            pattern.size() == payload.size(),
        ensures
            Self::settable(canvas, payload, pos, dir),
    ;

    /// Writing keeps every place writable that was writable before.
    proof fn lemma_written_settable(
        after: Self::Canvas,
        before: Self::Canvas,
        payload: T,
        pos: Self::Pos,
        dir: Self::Dir,
        other: T,
        other_pos: Self::Pos,
        other_dir: Self::Dir,
    )
        requires
            Self::written(after, before, payload, pos, dir),
            Self::settable(before, other, other_pos, other_dir),
        ensures
            Self::settable(after, other, other_pos, other_dir),
    ;

    /// The first place where `pattern` fits, scanning in the canvas's order.
    fn linear_match(&self, pattern: &T) -> (r: Option<Vec<(Self::Pos, Self::Dir)>>)
        requires
            self.wf(),
        ensures
            match Self::first_fit(self.canvas(), *pattern) {
                None => r is None,
                Some(h) => r matches Some(hits) && hits@ == seq![h],
            },
            r matches Some(hits) ==> Self::fits(self.canvas(), *pattern, hits@[0].0, hits@[0].1),
    ;

    /// Draws up to `tries` places at random and returns the first where
    /// `pattern` fits. Only the random source changes. Where every place
    /// that can hold the pattern does hold it, the first draw hits.
    fn random_match(&mut self, pattern: &T, tries: u64) -> (r: Option<Vec<(Self::Pos, Self::Dir)>>)
        requires
            old(self).wf(),
        ensures
            final(self).wf(),
            final(self).canvas() == old(self).canvas(),
            r matches Some(hits) ==> hits@.len() == 1 && Self::fits(
                old(self).canvas(),
                *pattern,
                hits@[0].0,
                hits@[0].1,
            ),
            Self::first_fit(old(self).canvas(), *pattern) is None ==> r is None,
            tries == 0 ==> r is None && final(self).source() == old(self).source(),
            tries > 0 && Self::first_fit(old(self).canvas(), *pattern) is Some && (forall|
                p: Self::Pos,
                d: Self::Dir,
            |
                #[trigger] Self::settable(old(self).canvas(), *pattern, p, d) ==> Self::fits(
                    old(self).canvas(),
                    *pattern,
                    p,
                    d,
                )) ==> r is Some,
    ;

    /// Every occurrence of `pattern` that does not overlap one accepted
    /// before it, taken greedily in scan order, or `Unsupported` where the
    /// canvas does not offer this.
    fn match_all_without_conflicts(&self, pattern: &T) -> (r: Result<
        Option<Vec<(Self::Pos, Self::Dir)>>,
        EngineError,
    >)
        requires
            self.wf(),
        ensures
            r matches Err(e) ==> e == EngineError::Unsupported,
            r is Err <==> !Self::supports_all_without_conflicts(),
            r is Ok ==> (r matches Ok(None) <==> Self::first_fit(self.canvas(), *pattern) is None),
            r matches Ok(Some(hits)) ==> hits@.len() > 0 && (forall|k: int|
                0 <= k < hits@.len() ==> #[trigger] Self::fits(
                    self.canvas(),
                    *pattern,
                    hits@[k].0,
                    hits@[k].1,
                )) && (forall|a: int, b: int|
                0 <= a < b < hits@.len() ==> Self::precedes(#[trigger] hits@[a], #[trigger] hits@[b])
                    && !Self::conflict(*pattern, hits@[a], hits@[b])) && (forall|
                p: Self::Pos,
                d: Self::Dir,
            |
                #[trigger] Self::fits(self.canvas(), *pattern, p, d) && !hits@.contains((p, d))
                    ==> exists|a: int|
                    0 <= a < hits@.len() && Self::precedes(hits@[a], (p, d)) && Self::conflict(
                        *pattern,
                        #[trigger] hits@[a],
                        (p, d),
                    )),
    ;

    /// Every occurrence of `pattern`, overlapping ones included, or
    /// `Unsupported` where the canvas does not offer this.
    fn match_all(&self, pattern: &T) -> (r: Result<Option<Vec<(Self::Pos, Self::Dir)>>, EngineError>)
        requires
            self.wf(),
        ensures
            r matches Err(e) ==> e == EngineError::Unsupported,
            r is Err <==> !Self::supports_all(),
            r is Ok ==> (r matches Ok(None) <==> Self::first_fit(self.canvas(), *pattern) is None),
            r matches Ok(Some(hits)) ==> hits@.len() > 0 && (forall|k: int|
                0 <= k < hits@.len() ==> #[trigger] Self::fits(
                    self.canvas(),
                    *pattern,
                    hits@[k].0,
                    hits@[k].1,
                )) && (forall|p: Self::Pos, d: Self::Dir|
                #[trigger] Self::fits(self.canvas(), *pattern, p, d) ==> hits@.contains((p, d))),
    ;

    /// Writes `pattern` at `pos` in orientation `dir`.
    fn set(&mut self, pattern: &T, pos: &Self::Pos, dir: &Self::Dir)
        requires
            old(self).wf(),
            Self::settable(old(self).canvas(), *pattern, *pos, *dir),
        ensures
            final(self).wf(),
            Self::written(final(self).canvas(), old(self).canvas(), *pattern, *pos, *dir),
            final(self).source() == old(self).source(),
    ;
}

/// `hits` are taken greedily in scan order: they come in that order, no
/// two overlap, and every fit left out overlaps an earlier hit.
pub open spec fn greedy_hits<T: Transformation, M: MapState<T>>(
    canvas: M::Canvas,
    pattern: T,
    hits: Seq<(M::Pos, M::Dir)>,
) -> bool {
    &&& forall|a: int, b: int|
        0 <= a < b < hits.len() ==> M::precedes(#[trigger] hits[a], #[trigger] hits[b]) && !M::conflict(
            pattern,
            hits[a],
            hits[b],
        )
    &&& forall|p: M::Pos, d: M::Dir|
        #[trigger] M::fits(canvas, pattern, p, d) && !hits.contains((p, d)) ==> exists|a: int|
            0 <= a < hits.len() && M::precedes(hits[a], (p, d)) && M::conflict(
                pattern,
                #[trigger] hits[a],
                (p, d),
            )
}

/// `hits` holds every place where `pattern` fits.
pub open spec fn every_fit_in<T: Transformation, M: MapState<T>>(
    canvas: M::Canvas,
    pattern: T,
    hits: Seq<(M::Pos, M::Dir)>,
) -> bool {
    forall|p: M::Pos, d: M::Dir| #[trigger] M::fits(canvas, pattern, p, d) ==> hits.contains((p, d))
}

/// A draw of a random place cannot miss: `pattern` fits somewhere, and it
/// fits at every place that can hold it.
pub open spec fn sure_to_hit<T: Transformation, M: MapState<T>>(canvas: M::Canvas, pattern: T) -> bool {
    &&& M::first_fit(canvas, pattern) is Some
    &&& forall|p: M::Pos, d: M::Dir|
        #[trigger] M::settable(canvas, pattern, p, d) ==> M::fits(canvas, pattern, p, d)
}

/// Tries to apply one rule to a canvas: finds the rule's pattern with its
/// strategy and writes the payload at every hit. `All` finds hits but has no
/// policy for overlapping ones, so it writes nothing and is `Unsupported`.
pub fn update<T: Transformation, M: MapState<T>>(state: &mut M, rule: &Rule<T>) -> (r: Result<
    Option<Vec<(M::Pos, M::Dir)>>,
    EngineError,
>)
    requires
        old(state).wf(),
        rule.wf(),
    ensures
        final(state).wf(),
        r matches Err(e) ==> e == EngineError::Unsupported,
        r is Err ==> *final(state) == *old(state) && (rule.rule_type is AllWithoutConflicts
            || rule.rule_type is All),
        rule.rule_type is AllWithoutConflicts ==> (r is Err <==> !M::supports_all_without_conflicts()),
        rule.rule_type is All ==> (r is Err <==> (!M::supports_all() || M::first_fit(
            old(state).canvas(),
            rule.comp,
        ) is Some)),
        r matches Ok(None) ==> final(state).canvas() == old(state).canvas() && (
        !(rule.rule_type is Random) ==> M::first_fit(old(state).canvas(), rule.comp) is None
            && *final(state) == *old(state)),
        r matches Ok(Some(hits)) ==> hits@.len() > 0 && !(rule.rule_type is All) && (forall|
            k: int,
        |
            0 <= k < hits@.len() ==> #[trigger] M::fits(
                old(state).canvas(),
                rule.comp,
                hits@[k].0,
                hits@[k].1,
            )) && written_all::<T, M>(
            final(state).canvas(),
            old(state).canvas(),
            rule.result,
            hits@,
        ),
        r matches Ok(Some(hits)) ==> (hits@.len() == 1 ==> M::written(
            final(state).canvas(),
            old(state).canvas(),
            rule.result,
            hits@[0].0,
            hits@[0].1,
        )),
        M::first_fit(old(state).canvas(), rule.comp) is None ==> (r is Err || r matches Ok(None)),
        rule.rule_type is Linear ==> r is Ok && (match M::first_fit(
            old(state).canvas(),
            rule.comp,
        ) {
            None => r matches Ok(None),
            Some(h) => r matches Ok(Some(hits)) && hits@ == seq![h],
        }),
        rule.rule_type is Random ==> r is Ok && (r matches Ok(Some(hits)) ==> hits@.len()
            == 1),
        rule.rule_type is AllWithoutConflicts ==> (r matches Ok(Some(hits)) ==> greedy_hits::<
            T,
            M,
        >(old(state).canvas(), rule.comp, hits@)),
        match rule.rule_type {
            Match::Random { tries } => (tries == 0 ==> (r matches Ok(None) && final(state).source()
                == old(state).source())) && (tries > 0 && sure_to_hit::<T, M>(
                old(state).canvas(),
                rule.comp,
            ) ==> r matches Ok(Some(_))),
            _ => true,
        },
{
    let ghost c0 = state.canvas();
    let matching = matching(state, &rule.comp, &rule.rule_type);
    match matching {
        Err(e) => Err(e),
        Ok(None) => Ok(None),
        Ok(Some(hits)) => {
            if let Match::All = rule.rule_type {
                // No superposition policy is defined for overlapping hits.
                return Err(EngineError::Unsupported);
            }
            proof {
                assert forall|j: int| 0 <= j < hits@.len() implies M::settable(
                    c0,
                    rule.result,
                    hits@[j].0,
                    hits@[j].1,
                ) by {
                    M::lemma_fit_settable(c0, rule.comp, rule.result, hits@[j].0, hits@[j].1);
                }
            }
            let ghost mut steps = seq![c0];
            let mut k: usize = 0;
            while k < hits.len()
                invariant
                    k <= hits@.len(),
                    state.wf(),
                    write_chain::<T, M>(steps, c0, state.canvas(), rule.result, hits@.take(k as int)),
                    forall|j: int|
                        0 <= j < hits@.len() ==> #[trigger] M::settable(
                            state.canvas(),
                            rule.result,
                            hits@[j].0,
                            hits@[j].1,
                        ),
                decreases hits@.len() - k,
            {
                let ghost prev = state.canvas();
                state.set(&rule.result, &hits[k].0, &hits[k].1);
                proof {
                    assert forall|j: int| 0 <= j < hits@.len() implies M::settable(
                        state.canvas(),
                        rule.result,
                        hits@[j].0,
                        hits@[j].1,
                    ) by {
                        M::lemma_written_settable(
                            state.canvas(),
                            prev,
                            rule.result,
                            hits@[k as int].0,
                            hits@[k as int].1,
                            rule.result,
                            hits@[j].0,
                            hits@[j].1,
                        );
                    }
                    steps = steps.push(state.canvas());
                    let ghost done = hits@.take(k + 1);
                    assert forall|i: int| 0 <= i < done.len() implies #[trigger] M::written(
                        steps[i + 1],
                        steps[i],
                        rule.result,
                        done[i].0,
                        done[i].1,
                    ) by {
                        if i < k {
                            assert(done[i] == hits@.take(k as int)[i]);
                        }
                    }
                }
                k += 1;
            }
            assert(hits@.take(hits@.len() as int) =~= hits@);
            assert(write_chain::<T, M>(steps, c0, state.canvas(), rule.result, hits@));
            proof {
                if hits@.len() == 1 {
                    assert(M::written(steps[0int + 1], steps[0], rule.result, hits@[0].0, hits@[0].1));
                }
            }
            Ok(Some(hits))
        },
    }
}

/// Runs the matcher that `rule_type` names.
pub fn matching<T: Transformation, M: MapState<T>>(state: &mut M, pattern: &T, rule_type: &Match) -> (r: Result<
    Option<Vec<(M::Pos, M::Dir)>>,
    EngineError,
>)
    requires
        old(state).wf(),
    ensures
        final(state).wf(),
        final(state).canvas() == old(state).canvas(),
        !(*rule_type is Random) ==> *final(state) == *old(state),
        r matches Err(e) ==> e == EngineError::Unsupported && (*rule_type is AllWithoutConflicts
            || *rule_type is All),
        *rule_type is AllWithoutConflicts ==> (r is Err <==> !M::supports_all_without_conflicts()),
        *rule_type is All ==> (r is Err <==> !M::supports_all()),
        r matches Ok(None) ==> (!(*rule_type is Random) ==> M::first_fit(
            old(state).canvas(),
            *pattern,
        ) is None),
        r matches Ok(Some(hits)) ==> hits@.len() > 0 && forall|k: int|
            0 <= k < hits@.len() ==> #[trigger] M::fits(
                old(state).canvas(),
                *pattern,
                hits@[k].0,
                hits@[k].1,
            ),
        M::first_fit(old(state).canvas(), *pattern) is None ==> (r is Err || r matches Ok(None)),
        *rule_type is Linear ==> r is Ok && (match M::first_fit(old(state).canvas(), *pattern) {
            None => r matches Ok(None),
            Some(h) => r matches Ok(Some(hits)) && hits@ == seq![h],
        }),
        *rule_type is Random ==> r is Ok && (r matches Ok(Some(hits)) ==> hits@.len() == 1),
        *rule_type is AllWithoutConflicts ==> (r matches Ok(Some(hits)) ==> greedy_hits::<T, M>(
            old(state).canvas(),
            *pattern,
            hits@,
        )),
        *rule_type is All ==> (r matches Ok(Some(hits)) ==> every_fit_in::<T, M>(
            old(state).canvas(),
            *pattern,
            hits@,
        )),
        match *rule_type {
            Match::Random { tries } => (tries == 0 ==> (r matches Ok(None) && final(state).source()
                == old(state).source())) && (tries > 0 && sure_to_hit::<T, M>(
                old(state).canvas(),
                *pattern,
            ) ==> r matches Ok(Some(_))),
            _ => true,
        },
{
    match rule_type {
        Match::Linear => Ok(state.linear_match(pattern)),
        Match::Random { tries } => Ok(state.random_match(pattern, *tries)),
        Match::AllWithoutConflicts => state.match_all_without_conflicts(pattern),
        Match::All => state.match_all(pattern),
    }
}

/// One rewriting rule: where `comp` is found, `result` is written.
pub struct Rule<T: Transformation> {
    pub comp: T,
    pub result: T,
    pub rule_type: Match,
    /// `None`: the rule may fire without limit; `Some(n)`: at most `n` more
    /// times.
    pub repeat: Option<u64>,
}

impl<T: Transformation> Rule<T> {
    /// Pattern and payload have the same length.
    pub open spec fn wf(&self) -> bool {
        self.comp.size() == self.result.size()
    }

    /// The rule may still fire.
    pub open spec fn enabled(&self) -> bool {
        self.repeat != Some(0u64)
    }

    /// The repeat budget after one firing.
    pub open spec fn used_repeat(repeat: Option<u64>) -> Option<u64> {
        match repeat {
            Some(n) => if n == 0 { Some(0u64) } else { Some((n - 1) as u64) },
            None => None,
        }
    }

    /// Builds a rule, refusing a pattern and a payload of different lengths.
    pub fn new(comp: T, result: T, rule_type: Match, repeat: Option<u64>) -> (r: Result<
        Self,
        EngineError,
    >)
        ensures
            comp.size() == result.size() <==> r is Ok,
            r is Err ==> r->Err_0 == EngineError::SizeMismatch,
            r matches Ok(rule) ==> rule.comp == comp && rule.result == result
                && rule.rule_type == rule_type && rule.repeat == repeat && rule.wf(),
    {
        if !comp.equal_size(&result) {
            return Err(EngineError::SizeMismatch);
        }
        Ok(Rule { comp, result, rule_type, repeat })
    }

    /// Spends one firing of a bounded budget; a budget at zero stays there
    /// and an unbounded one is left alone.
    pub fn use_repeat(&mut self)
        ensures
            final(self).repeat == Self::used_repeat(old(self).repeat),
            final(self).comp == old(self).comp,
            final(self).result == old(self).result,
            final(self).rule_type == old(self).rule_type,
    {
        if let Some(times) = self.repeat {
            match times.checked_sub(1) {
                None => {},
                Some(sub) => self.repeat = Some(sub),
            }
        }
    }
}

/// Drives a canvas with an ordered list of rules.
pub struct MarkovEngine<M: MapState<T>, T: Transformation> {
    pub state: M,
    pub rules: Vec<Rule<T>>,
}

/// `rule` found nothing on `canvas` in a step: it is spent; or it draws at
/// random and a draw could miss (or it has no tries); or its pattern fits
/// nowhere.
pub open spec fn passes_over<T: Transformation, M: MapState<T>>(canvas: M::Canvas, rule: Rule<T>) -> bool {
    !rule.enabled() || match rule.rule_type {
        Match::Random { tries } => !(tries > 0 && sure_to_hit::<T, M>(canvas, rule.comp)),
        _ => M::first_fit(canvas, rule.comp) is None,
    }
}

/// Budget `a` is no larger than budget `b`: both unbounded, or both bounded
/// with `a` at most `b`.
pub open spec fn budget_not_above(a: Option<u64>, b: Option<u64>) -> bool {
    match (a, b) {
        (Some(x), Some(y)) => x <= y,
        (None, None) => true,
        _ => false,
    }
}

/// No budget in `after` is larger than the same rule's in `before`.
pub open spec fn budgets_not_above<T: Transformation>(after: Seq<Rule<T>>, before: Seq<Rule<T>>) -> bool {
    &&& after.len() == before.len()
    &&& forall|j: int| 0 <= j < before.len() ==> budget_not_above(#[trigger] after[j].repeat, before[j].repeat)
}

/// `after` is `before` with rule `i` having fired once: its budget is spent
/// by one and every other rule is as it was.
pub open spec fn fired_rules<T: Transformation>(before: Seq<Rule<T>>, after: Seq<Rule<T>>, i: int) -> bool {
    &&& 0 <= i < before.len()
    &&& after.len() == before.len()
    &&& before[i].enabled()
    &&& after[i].comp == before[i].comp
    &&& after[i].result == before[i].result
    &&& after[i].rule_type == before[i].rule_type
    &&& after[i].repeat == Rule::<T>::used_repeat(before[i].repeat)
    &&& forall|j: int| 0 <= j < before.len() && j != i ==> after[j] == before[j]
}

/// Both lists hold the same rules, up to their repeat budgets.
pub open spec fn same_shapes<T: Transformation>(a: Seq<Rule<T>>, b: Seq<Rule<T>>) -> bool {
    &&& b.len() == a.len()
    &&& forall|j: int|
        0 <= j < a.len() ==> (#[trigger] b[j]).comp == a[j].comp && b[j].result == a[j].result
            && b[j].rule_type == a[j].rule_type
}

/// How many of `fires` name rule `i`.
pub open spec fn fire_count(fires: Seq<Option<int>>, i: int) -> nat
    decreases fires.len(),
{
    if fires.len() == 0 {
        0
    } else {
        fire_count(fires.drop_last(), i) + if fires.last() == Some(i) {
            1nat
        } else {
            0nat
        }
    }
}

impl<M: MapState<T>, T: Transformation> MarkovEngine<M, T> {
    /// The canvas keeps its invariant and every rule is well formed.
    pub open spec fn wf(&self) -> bool {
        &&& self.state.wf()
        &&& forall|i: int| 0 <= i < self.rules@.len() ==> #[trigger] self.rules@[i].wf()
    }

    /// No rule that may still fire fits anywhere, and each uses a strategy
    /// that the canvas carries out: no step can change the content or the
    /// rules.
    pub open spec fn settled(&self) -> bool {
        forall|i: int|
            0 <= i < self.rules@.len() && #[trigger] self.rules@[i].enabled() ==> {
                let rule = self.rules@[i];
                &&& rule.rule_type is AllWithoutConflicts ==> M::supports_all_without_conflicts()
                &&& rule.rule_type is All ==> M::supports_all()
                &&& M::first_fit(self.state.canvas(), rule.comp) is None
            }
    }

    /// Every rule is spent.
    pub open spec fn spent(&self) -> bool {
        forall|i: int| 0 <= i < self.rules@.len() ==> !(#[trigger] self.rules@[i]).enabled()
    }

    /// A step from `before` to `after` in which rule `i` fired with `hits`:
    /// every rule ahead of it found nothing, its payload was written at every
    /// hit, and its budget was spent by one.
    pub open spec fn fired(before: Self, after: Self, i: int, hits: Seq<(M::Pos, M::Dir)>) -> bool {
        let rule = before.rules@[i];
        let canvas = before.state.canvas();
        &&& fired_rules(before.rules@, after.rules@, i)
        &&& forall|j: int| 0 <= j < i ==> passes_over::<T, M>(canvas, #[trigger] before.rules@[j])
        &&& !(rule.rule_type is All)
        &&& hits.len() > 0
        &&& forall|k: int|
            0 <= k < hits.len() ==> #[trigger] M::fits(canvas, rule.comp, hits[k].0, hits[k].1)
        &&& written_all::<T, M>(after.state.canvas(), canvas, rule.result, hits)
        &&& hits.len() == 1 ==> M::written(after.state.canvas(), canvas, rule.result, hits[0].0, hits[0].1)
        &&& rule.rule_type is Linear ==> hits == seq![M::first_fit(canvas, rule.comp)->Some_0]
        &&& rule.rule_type is Random ==> hits.len() == 1
        &&& rule.rule_type is AllWithoutConflicts ==> greedy_hits::<T, M>(canvas, rule.comp, hits)
    }

    /// A step from `before` to `after` in which no rule fired: the canvas
    /// and the rules are as they were, and every rule found nothing.
    pub open spec fn rested(before: Self, after: Self) -> bool {
        &&& after.rules@ == before.rules@
        &&& after.state.canvas() == before.state.canvas()
        &&& forall|j: int|
            0 <= j < before.rules@.len() ==> passes_over::<T, M>(
                before.state.canvas(),
                #[trigger] before.rules@[j],
            )
    }

    /// A step from `before` to `after` that stopped at rule `i`, whose
    /// strategy the canvas cannot carry out; nothing changed.
    pub open spec fn refused(before: Self, after: Self, i: int) -> bool {
        &&& 0 <= i < before.rules@.len()
        &&& after.rules@ == before.rules@
        &&& after.state.canvas() == before.state.canvas()
        &&& before.rules@[i].enabled()
        &&& (before.rules@[i].rule_type is AllWithoutConflicts || before.rules@[i].rule_type is All)
        &&& forall|j: int|
            0 <= j < i ==> passes_over::<T, M>(before.state.canvas(), #[trigger] before.rules@[j])
    }

    /// `runs` is a run of steps: each engine follows from the one before by
    /// one outcome of `update`, and `fires[k]` names the rule that fired in
    /// step `k`, if any.
    pub open spec fn run(runs: Seq<Self>, fires: Seq<Option<int>>) -> bool {
        &&& runs.len() == fires.len() + 1
        &&& forall|k: int|
            0 <= k < fires.len() ==> Self::stepped(runs[k], runs[k + 1], #[trigger] fires[k])
    }

    /// `runs` is how `finish` went from `before` to `after` with result `r`:
    /// every step but the last fired a rule; on success the last step fired
    /// nothing; on `Unsupported` it was refused; on `StepLimit` there were
    /// `u64::MAX + 1` steps and each fired.
    pub open spec fn finish_run(
        runs: Seq<Self>,
        fires: Seq<Option<int>>,
        before: Self,
        after: Self,
        r: Result<(), EngineError>,
    ) -> bool {
        &&& Self::run(runs, fires)
        &&& runs[0] == before
        &&& runs.last() == after
        &&& forall|k: int| 0 <= k < fires.len() - 1 ==> #[trigger] fires[k] is Some
        &&& r is Ok ==> fires.len() > 0 && fires.last() is None && Self::rested(
            runs[runs.len() - 2],
            after,
        )
        &&& r matches Err(EngineError::Unsupported) ==> fires.len() > 0 && fires.last() is None
            && exists|i: int| #[trigger] Self::refused(runs[runs.len() - 2], after, i)
        &&& r matches Err(EngineError::StepLimit) ==> fires.len() == u64::MAX + 1 && fires.last()
            is Some
    }

    /// What `finish` guarantees: `after` is reached from `before` by a run of
    /// steps; the rules keep their shape and no budget grows; on success no
    /// rule finds anything any more; the only failures are a strategy the
    /// canvas cannot carry out and the step limit; and an engine that is
    /// already settled keeps its content and rules.
    pub open spec fn finished(before: Self, after: Self, r: Result<(), EngineError>) -> bool {
        &&& exists|runs: Seq<Self>, fires: Seq<Option<int>>|
            Self::finish_run(runs, fires, before, after, r)
        &&& same_shapes(before.rules@, after.rules@)
        &&& budgets_not_above(after.rules@, before.rules@)
        &&& r is Ok ==> Self::rested(after, after)
        &&& r matches Err(e) ==> e == EngineError::Unsupported || e == EngineError::StepLimit
        &&& before.settled() ==> r is Ok && after.rules == before.rules && after.state.canvas()
            == before.state.canvas()
    }

    /// Every rule uses the linear strategy.
    pub open spec fn linear_only(&self) -> bool {
        forall|i: int| 0 <= i < self.rules@.len() ==> (#[trigger] self.rules@[i]).rule_type is Linear
    }

    /// One outcome of `update` from `before` to `after`: rule `f` fired, or
    /// (`f` is `None`) nothing fired or a strategy was refused.
    pub open spec fn stepped(before: Self, after: Self, f: Option<int>) -> bool {
        match f {
            Some(i) => exists|hits: Seq<(M::Pos, M::Dir)>| #[trigger] Self::fired(before, after, i, hits),
            None => Self::rested(before, after) || exists|i: int| Self::refused(before, after, i),
        }
    }

    /// A run followed by one more outcome of `update` is again a run.
    pub proof fn lemma_run_extend(runs: Seq<Self>, fires: Seq<Option<int>>, next: Self, f: Option<int>)
        requires
            Self::run(runs, fires),
            Self::stepped(runs.last(), next, f),
        ensures
            Self::run(runs.push(next), fires.push(f)),
            runs.push(next)[0] == runs[0],
    {
        let longer = runs.push(next);
        assert forall|k: int| 0 <= k < fires.push(f).len() implies Self::stepped(
            longer[k],
            longer[k + 1],
            #[trigger] fires.push(f)[k],
        ) by {
            if k < fires.len() {
                assert(fires.push(f)[k] == fires[k]);
                assert(longer[k] == runs[k] && longer[k + 1] == runs[k + 1]);
            } else {
                assert(longer[k] == runs.last());
            }
        }
    }

    /// A rule that starts with a budget of `n` fires at most `n` times over
    /// any run of steps, and what is left of its budget is `n` less the
    /// number of times it fired.
    pub proof fn lemma_repeat_bounds_firings(runs: Seq<Self>, fires: Seq<Option<int>>, i: int, n: u64)
        requires
            Self::run(runs, fires),
            0 <= i < runs[0].rules@.len(),
            runs[0].rules@[i].repeat == Some(n),
        ensures
            fire_count(fires, i) <= n,
            runs.last().rules@.len() == runs[0].rules@.len(),
            runs.last().rules@[i].repeat == Some((n - fire_count(fires, i)) as u64),
        decreases fires.len(),
    {
        if fires.len() > 0 {
            let k = fires.len() - 1;
            let prefix = runs.drop_last();
            assert forall|m: int| 0 <= m < fires.drop_last().len() implies Self::stepped(
                prefix[m],
                prefix[m + 1],
                #[trigger] fires.drop_last()[m],
            ) by {
                assert(fires.drop_last()[m] == fires[m]);
                assert(prefix[m] == runs[m] && prefix[m + 1] == runs[m + 1]);
            }
            assert(Self::run(prefix, fires.drop_last()));
            Self::lemma_repeat_bounds_firings(prefix, fires.drop_last(), i, n);
            let before = runs[k];
            let after = runs[k + 1];
            assert(before == prefix.last());
            assert(Self::stepped(before, after, fires[k]));
            match fires[k] {
                Some(j) => {
                    let hits = choose|hits: Seq<(M::Pos, M::Dir)>| Self::fired(before, after, j, hits);
                    assert(fired_rules(before.rules@, after.rules@, j));
                },
                None => {
                    if !Self::rested(before, after) {
                        let j = choose|j: int| Self::refused(before, after, j);
                        assert(Self::refused(before, after, j));
                    }
                },
            }
        }
    }

    /// Over the steps that `finish` took, a rule that started with a budget of
    /// `n` fired at most `n` times, and `n` less that count is left.
    pub proof fn lemma_finish_bounds_firings(before: Self, after: Self, r: Result<(), EngineError>, i: int, n: u64)
        requires
            Self::finished(before, after, r),
            0 <= i < before.rules@.len(),
            before.rules@[i].repeat == Some(n),
        ensures
            exists|runs: Seq<Self>, fires: Seq<Option<int>>|
                #[trigger] Self::finish_run(runs, fires, before, after, r) && fire_count(fires, i) <= n
                    && after.rules@[i].repeat == Some((n - fire_count(fires, i)) as u64),
    {
        let (runs, fires) = choose|runs: Seq<Self>, fires: Seq<Option<int>>|
            Self::finish_run(runs, fires, before, after, r);
        Self::lemma_repeat_bounds_firings(runs, fires, i, n);
    }

    /// Once `finish` has succeeded on an engine whose rules are all linear,
    /// running it again succeeds and changes neither the content nor the
    /// rules.
    pub proof fn lemma_finish_idempotent(first: Self, second: Self, third: Self, r: Result<(), EngineError>)
        requires
            first.linear_only(),
            Self::finished(first, second, Ok(())),
            Self::finished(second, third, r),
        ensures
            r is Ok,
            third.rules == second.rules,
            third.state.canvas() == second.state.canvas(),
    {
        assert forall|i: int| 0 <= i < second.rules@.len() && #[trigger] second.rules@[i].enabled()
            implies M::first_fit(second.state.canvas(), second.rules@[i].comp) is None
            && second.rules@[i].rule_type is Linear by {
            assert(first.rules@[i].rule_type is Linear);
            assert(passes_over::<T, M>(second.state.canvas(), second.rules@[i]));
        }
        assert(second.settled());
    }

    /// An engine over `state` with `rules`, earlier rules taking priority.
    pub fn new(state: M, rules: Vec<Rule<T>>) -> (r: Self)
        ensures
            r.state == state,
            r.rules == rules,
    {
        Self { state, rules }
    }

    /// Takes one step: the first rule, in list order, that is not spent and
    /// whose pattern is found is applied. Returns that rule and its hits, or
    /// `None` when no rule fires.
    pub fn update(&mut self) -> (r: Result<Option<(&Rule<T>, Vec<(M::Pos, M::Dir)>)>, EngineError>)
        requires
            old(self).wf(),
        ensures
            final(self).wf(),
            r matches Ok(None) ==> Self::rested(*old(self), *final(self)),
            r matches Ok(Some((rule, hits))) ==> exists|i: int|
                Self::fired(*old(self), *final(self), i, hits@) && *rule == final(self).rules@[i],
            r is Err ==> r->Err_0 == EngineError::Unsupported && exists|i: int|
                Self::refused(*old(self), *final(self), i),
            old(self).settled() ==> (r matches Ok(None) && final(self).rules == old(self).rules
                && final(self).state.canvas() == old(self).state.canvas()),
            old(self).spent() ==> (r matches Ok(None) && *final(self) == *old(self)),
    {
        let ghost before = *self;
        let mut i: usize = 0;
        while i < self.rules.len()
            invariant
                before == *old(self),
                self.wf(),
                self.rules == before.rules,
                self.state.canvas() == before.state.canvas(),
                before.spent() ==> self.state == before.state,
                i <= self.rules@.len(),
                forall|j: int|
                    0 <= j < i ==> passes_over::<T, M>(before.state.canvas(), #[trigger] self.rules@[j]),
            decreases self.rules@.len() - i,
        {
            if let Some(times) = self.rules[i].repeat {
                if times == 0 {
                    i += 1;
                    continue;
                }
            }
            assert(self.rules@[i as int].wf());
            assert(before.rules@[i as int].enabled());
            assert(!before.spent());
            let result = crate::update(&mut self.state, &self.rules[i]);
            match result {
                Err(e) => {
                    assert(Self::refused(before, *self, i as int));
                    assert(!before.settled());
                    return Err(e);
                },
                Ok(None) => {},
                Ok(Some(hits)) => {
                    self.rules[i].use_repeat();
                    assert(Self::fired(before, *self, i as int, hits@));
                    assert(!before.settled());
                    return Ok(Some((&self.rules[i], hits)));
                },
            }
            i += 1;
        }
        Ok(None)
    }

    /// Takes steps until no rule fires. Fails where a step fails, and after
    /// `u64::MAX` steps that all fired.
    pub fn finish(&mut self) -> (r: Result<(), EngineError>)
        requires
            old(self).wf(),
        ensures
            final(self).wf(),
            Self::finished(*old(self), *final(self), r),
    {
        let ghost start = *self;
        let ghost mut runs = seq![*self];
        let ghost mut fires: Seq<Option<int>> = seq![];
        let mut steps: u64 = 0;
        loop
            invariant
                start == *old(self),
                self.wf(),
                Self::run(runs, fires),
                runs[0] == start,
                runs.last() == *self,
                fires.len() == steps,
                forall|k: int| 0 <= k < fires.len() ==> #[trigger] fires[k] is Some,
                same_shapes(start.rules@, self.rules@),
                budgets_not_above(self.rules@, start.rules@),
                start.settled() ==> self.rules == start.rules && self.state.canvas()
                    == start.state.canvas(),
            decreases u64::MAX - steps,
        {
            let ghost prev = *self;
            match self.update() {
                Err(e) => {
                    proof {
                        let i = choose|i: int| Self::refused(prev, *self, i);
                        assert(Self::stepped(prev, *self, None));
                        runs = runs.push(*self);
                        fires = fires.push(None);
                        assert(Self::run(runs, fires));
                        assert(runs[runs.len() - 2] == prev);
                        assert(Self::refused(runs[runs.len() - 2], *self, i));
                        assert(e == EngineError::Unsupported);
                        assert(Self::finish_run(runs, fires, start, *self, Err(e)));
                    }
                    return Err(e);
                },
                Ok(None) => {
                    proof {
                        assert(Self::stepped(prev, *self, None));
                        runs = runs.push(*self);
                        fires = fires.push(None);
                        assert(Self::run(runs, fires));
                        assert(runs[runs.len() - 2] == prev);
                        assert(Self::finish_run(runs, fires, start, *self, Ok(())));
                    }
                    return Ok(());
                },
                Ok(Some((_, hits))) => {
                    proof {
                        assert(exists|i: int| Self::fired(prev, *self, i, hits@));
                        let i = choose|i: int| Self::fired(prev, *self, i, hits@);
                        assert(exists|h: Seq<(M::Pos, M::Dir)>| Self::fired(prev, *self, i, h));
                        let f: Option<int> = Some(i);
                        assert(f matches Some(j) && j == i);
                        assert(Self::stepped(prev, *self, f));
                        assert(budgets_not_above(self.rules@, start.rules@)) by {
                            assert forall|j: int| 0 <= j < start.rules@.len() implies budget_not_above(
                                #[trigger] self.rules@[j].repeat,
                                start.rules@[j].repeat,
                            ) by {
                                assert(budget_not_above(prev.rules@[j].repeat, start.rules@[j].repeat));
                            }
                        }
                        runs = runs.push(*self);
                        fires = fires.push(Some(i));
                        assert(Self::run(runs, fires));
                    }
                },
            }
            if steps == u64::MAX {
                proof {
                    assert(Self::finish_run(runs, fires, start, *self, Err(EngineError::StepLimit)));
                }
                return Err(EngineError::StepLimit);
            }
            steps += 1;
        }
    }
}

} // verus!

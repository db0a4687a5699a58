//! The greedy search: rounds of scored candidates, of which the best is
//! committed if it beats the canvas as it stands, until the goals are met or
//! too many rounds in a row have brought nothing.
//!
//! The engine decides; it neither turns stamps nor scores canvases. Its
//! caller prepares a batch of candidates for each round, scores each on a
//! trial copy of the canvas, and hands the batch over.
//!
//! Scores count similarity in millionths, from 0 to `SCORE_SCALE`.

use vstd::prelude::*;
use crate::placement::Placement;
use crate::raster::{lemma_overlay_is_laid, overlay, Picture, Raster, Rgba};

verus! {

/// The score of a perfect match.
pub const SCORE_SCALE: u32 = 1_000_000;

/// What a search is asked for.
///
/// The search goes on while the score is below `target_score` or fewer than
/// `target_shapes` placements are committed, but no longer than until
/// `max_failures` rounds in a row have failed. A target of 0 is met from the
/// start. `batch` is the number of candidates per round.
#[derive(Clone, Copy, Debug, PartialEq, Eq, Structural)]
pub struct Config {
    pub target_score: u32,
    pub target_shapes: u32,
    pub max_failures: u32,
    pub batch: u32,
}

/// Why a configuration is refused.
#[derive(Clone, Copy, Debug, PartialEq, Eq, Structural)]
pub enum ConfigError {
    /// Neither a score nor a number of shapes is asked for: the search would
    /// end at once on a blank canvas.
    NoGoal,
    /// The target score is above `SCORE_SCALE`.
    ScoreOutOfRange,
}

impl Config {
    /// What is wrong with the configuration, if anything.
    pub open spec fn fault(self) -> Option<ConfigError> {
        if self.target_score > SCORE_SCALE {
            Some(ConfigError::ScoreOutOfRange)
        } else if self.target_score == 0 && self.target_shapes == 0 {
            Some(ConfigError::NoGoal)
        } else {
            None
        }
    }

    /// Checks the configuration.
    pub fn validate(&self) -> (checked: Result<(), ConfigError>)
        ensures
            checked == match self.fault() {
                Some(error) => Err::<(), ConfigError>(error),
                None => Ok(()),
            },
    {
        if self.target_score > SCORE_SCALE {
            Err(ConfigError::ScoreOutOfRange)
        } else if self.target_score == 0 && self.target_shapes == 0 {
            Err(ConfigError::NoGoal)
        } else {
            Ok(())
        }
    }
}

/// A candidate of a round: a placement, its stamp as it is laid on the
/// canvas, and the score of the canvas with the stamp on it.
pub struct Candidate {
    pub placement: Placement,
    pub stamp: Raster,
    pub score: u32,
}

/// The scores of a batch, in its order.
pub open spec fn scores_of(batch: Seq<Candidate>) -> Seq<u32> {
    Seq::new(batch.len(), |i: int| batch[i].score)
}

/// `scores[i]` wins the round against the score `current`: it is above
/// `current`, no score of the round is above it, and none after it equals it.
/// Of equal best scores the last wins.
pub open spec fn is_winner(scores: Seq<u32>, current: u32, i: int) -> bool {
    &&& 0 <= i < scores.len()
    &&& scores[i] > current
    &&& forall|j: int| 0 <= j < scores.len() ==> scores[j] <= scores[i]
    &&& forall|j: int| i < j < scores.len() ==> scores[j] < scores[i]
}

/// The index of the score that wins the round, if any does.
pub open spec fn winner(scores: Seq<u32>, current: u32) -> Option<int> {
    if exists|i: int| is_winner(scores, current, i) {
        Some(choose|i: int| is_winner(scores, current, i))
    } else {
        None
    }
}

/// The score that wins the round, if any does.
pub open spec fn winning_score(scores: Seq<u32>, current: u32) -> Option<u32> {
    match winner(scores, current) {
        Some(i) => Some(scores[i]),
        None => None,
    }
}

/// At most one score wins a round.
pub proof fn lemma_winner_unique(scores: Seq<u32>, current: u32, i: int, j: int)
    requires
        is_winner(scores, current, i),
        is_winner(scores, current, j),
    ensures
        i == j,
{
}

/// A round has a winner exactly if one of its scores is above the current
/// one, and whatever meets `is_winner` is the winner.
pub proof fn lemma_winner(scores: Seq<u32>, current: u32)
    ensures
        winner(scores, current) is None <==> forall|j: int|
            0 <= j < scores.len() ==> scores[j] <= current,
        forall|i: int| is_winner(scores, current, i) ==> winner(scores, current) == Some(i),
        winner(scores, current) matches Some(i) ==> is_winner(scores, current, i),
{
    assert forall|i: int| is_winner(scores, current, i) implies winner(scores, current) == Some(
        i,
    ) by {
        let w = choose|w: int| is_winner(scores, current, w);
        lemma_winner_unique(scores, current, i, w);
    }
    if exists|j: int| 0 <= j < scores.len() && scores[j] > current {
        lemma_last_best(scores, current);
    }
}

/// Where a score is above the current one, some score wins.
proof fn lemma_last_best(scores: Seq<u32>, current: u32)
    requires
        exists|j: int| 0 <= j < scores.len() && scores[j] > current,
    ensures
        exists|i: int| is_winner(scores, current, i),
    decreases scores.len(),
{
    let last = scores.len() - 1;
    let front = scores.drop_last();
    if exists|j: int| 0 <= j < front.len() && front[j] > current {
        lemma_last_best(front, current);
        let w = choose|w: int| is_winner(front, current, w);
        if scores[last] >= front[w] {
            assert forall|j: int| 0 <= j < scores.len() implies scores[j] <= scores[last] by {
                if j < last {
                    assert(front[j] <= front[w]);
                }
            }
            assert(is_winner(scores, current, last));
        } else {
            assert forall|j: int| 0 <= j < scores.len() implies scores[j] <= scores[w] by {
                if j < last {
                    assert(front[j] <= front[w]);
                }
            }
            assert forall|j: int| w < j < scores.len() implies scores[j] < scores[w] by {
                if j < last {
                    assert(front[j] < front[w]);
                }
            }
            assert(is_winner(scores, current, w));
        }
    } else {
        let j = choose|j: int| 0 <= j < scores.len() && scores[j] > current;
        assert(j == last) by {
            if j < last {
                assert(front[j] > current);
            }
        }
        assert forall|k: int| 0 <= k < scores.len() implies scores[k] <= scores[last] by {
            if k < last {
                assert(!(front[k] > current));
            }
        }
        assert(is_winner(scores, current, last));
    }
}

/// The candidate that wins the round against the score `current`, if any
/// does: the last of those with the best score, where that is above
/// `current`.
pub fn select(batch: &Vec<Candidate>, current: u32) -> (chosen: Option<usize>)
    ensures
        match chosen {
            Some(i) => winner(scores_of(batch@), current) == Some(i as int),
            None => winner(scores_of(batch@), current) is None,
        },
{
    let ghost scores = scores_of(batch@);
    let mut chosen: Option<usize> = None;
    let mut best: u32 = current;
    let mut k: usize = 0;
    while k < batch.len()
        invariant
            k <= batch.len(),
            scores == scores_of(batch@),
            best >= current,
            forall|j: int| 0 <= j < k ==> scores[j] <= best,
            match chosen {
                Some(i) => {
                    &&& i < k
                    &&& scores[i as int] == best
                    &&& best > current
                    &&& forall|j: int| i < j < k ==> scores[j] < best
                },
                None => best == current,
            },
        decreases batch.len() - k,
    {
        let score: u32 = batch[k].score;
        if score > current && score >= best {
            best = score;
            chosen = Some(k);
        }
        k = k + 1;
    }
    proof {
        lemma_winner(scores, current);
        match chosen {
            Some(i) => {
                assert(is_winner(scores, current, i as int));
            },
            None => {},
        }
    }
    chosen
}

/// The state of a search.
pub struct Search {
    pub target_score: u32,
    pub target_shapes: u32,
    pub max_failures: u32,
    /// The canvas as it stands.
    pub canvas: Picture,
    /// The score of the canvas.
    pub score: u32,
    /// The placements committed, in their order.
    pub placements: Seq<Placement>,
    /// The number of rounds that committed nothing.
    pub failures: nat,
    /// The number of such rounds since the last that committed one.
    pub streak: nat,
}

impl Search {
    /// A search that has not yet had a round, on `canvas`, whose score is
    /// `score`.
    pub open spec fn fresh(config: Config, canvas: Picture, score: u32) -> Search {
        Search {
            target_score: config.target_score,
            target_shapes: config.target_shapes,
            max_failures: config.max_failures,
            canvas,
            score,
            placements: Seq::empty(),
            failures: 0,
            streak: 0,
        }
    }

    /// A goal is still unmet: the score or the number of placements.
    pub open spec fn unmet(self) -> bool {
        self.score < self.target_score || self.placements.len() < self.target_shapes
    }

    /// The search has another round: a goal is unmet and the failures in a
    /// row are below their limit.
    pub open spec fn running(self) -> bool {
        self.unmet() && self.streak < self.max_failures
    }

    /// The state after a round that commits `placement` with the stamp
    /// `stamp` for `score`: the stamp laid on the canvas where the placement
    /// puts it, the placement added to the others, the failures in a row
    /// none.
    pub open spec fn accept(self, score: u32, placement: Placement, stamp: Picture) -> Search {
        Search {
            canvas: self.canvas.laid(stamp, placement.left(), placement.top()),
            score,
            placements: self.placements.push(placement),
            streak: 0,
            ..self
        }
    }

    /// The state after a round that commits nothing.
    pub open spec fn reject(self) -> Search {
        Search { failures: self.failures + 1, streak: self.streak + 1, ..self }
    }

    /// The state after a round on `batch`: the winner committed, if there is
    /// one; nothing changed if the search had ended before.
    pub open spec fn after_round(self, batch: Seq<Candidate>) -> Search {
        if !self.running() {
            self
        } else {
            match winner(scores_of(batch), self.score) {
                Some(i) => self.accept(batch[i].score, batch[i].placement, batch[i].stamp@),
                None => self.reject(),
            }
        }
    }

    /// The state after one round on each batch of `rounds`, in their order.
    pub open spec fn after_rounds(self, rounds: Seq<Seq<Candidate>>) -> Search
        decreases rounds.len(),
    {
        if rounds.len() == 0 {
            self
        } else {
            self.after_rounds(rounds.drop_last()).after_round(rounds.last())
        }
    }
}

/// A round never lowers the score, and a round that commits a placement
/// raises it.
pub proof fn lemma_round_raises_score(state: Search, batch: Seq<Candidate>)
    ensures
        state.after_round(batch).score >= state.score,
        state.after_round(batch).placements != state.placements ==> state.after_round(batch).score
            > state.score,
        state.after_round(batch).placements == state.placements || state.after_round(
            batch,
        ).placements.drop_last() == state.placements,
{
    lemma_winner(scores_of(batch), state.score);
    let next = state.after_round(batch);
    if next.placements != state.placements {
        assert(state.running());
        let i = winner(scores_of(batch), state.score)->0;
        assert(next.placements == state.placements.push(batch[i].placement));
        assert(next.placements.drop_last() =~= state.placements);
    }
}

/// A round without a candidate above the current score leaves the canvas,
/// the score and the placements as they were, and counts as a failure if the
/// search had not ended.
pub proof fn lemma_round_without_winner(state: Search, batch: Seq<Candidate>)
    requires
        winner(scores_of(batch), state.score) is None,
    ensures
        state.after_round(batch).canvas == state.canvas,
        state.after_round(batch).score == state.score,
        state.after_round(batch).placements == state.placements,
        state.running() ==> state.after_round(batch) == state.reject(),
        !state.running() ==> state.after_round(batch) == state,
{
}

/// Over the rounds of a search the score never falls: after more rounds it
/// is no lower than after fewer, whichever two numbers of rounds are taken.
pub proof fn lemma_scores_never_fall(
    state: Search,
    rounds: Seq<Seq<Candidate>>,
    fewer: int,
    more: int,
)
    requires
        0 <= fewer <= more <= rounds.len(),
    ensures
        state.after_rounds(rounds.take(fewer)).score <= state.after_rounds(rounds.take(more)).score,
    decreases more,
{
    if fewer < more {
        let upto = rounds.take(more);
        assert(upto.drop_last() =~= rounds.take(more - 1));
        lemma_scores_never_fall(state, rounds, fewer, more - 1);
        lemma_round_raises_score(state.after_rounds(upto.drop_last()), upto.last());
    }
}

/// A search for a number of shapes alone, with no target score, that has
/// ended without reaching its limit of failures in a row has committed
/// exactly that number of placements; before that it has committed fewer.
pub proof fn lemma_shape_goal_met_exactly(state: Search, rounds: Seq<Seq<Candidate>>)
    requires
        state.target_score == 0,
        state.placements.len() <= state.target_shapes,
    ensures
        state.after_rounds(rounds).placements.len() <= state.target_shapes,
        !state.after_rounds(rounds).running() && state.after_rounds(rounds).streak
            < state.max_failures ==> state.after_rounds(rounds).placements.len()
            == state.target_shapes,
        state.after_rounds(rounds).target_score == 0,
        state.after_rounds(rounds).target_shapes == state.target_shapes,
        state.after_rounds(rounds).max_failures == state.max_failures,
    decreases rounds.len(),
{
    if rounds.len() > 0 {
        lemma_shape_goal_met_exactly(state, rounds.drop_last());
        lemma_winner(scores_of(rounds.last()), state.after_rounds(rounds.drop_last()).score);
    }
}

/// What rounds without an improving candidate leave: the canvas, the score
/// and the placements as they were and, if the search still runs, one more failure
/// in a row for each round. Where a goal is unmet and the rounds do not go
/// beyond the limit of failures in a row, every one of them is run: each adds
/// one to the failures and one to the failures in a row.
pub proof fn lemma_failed_rounds(state: Search, rounds: Seq<Seq<Candidate>>)
    requires
        forall|k: int|
            0 <= k < rounds.len() ==> winner(scores_of(#[trigger] rounds[k]), state.score) is None,
    ensures
        state.after_rounds(rounds).canvas == state.canvas,
        state.after_rounds(rounds).score == state.score,
        state.after_rounds(rounds).placements == state.placements,
        state.after_rounds(rounds).target_score == state.target_score,
        state.after_rounds(rounds).target_shapes == state.target_shapes,
        state.after_rounds(rounds).max_failures == state.max_failures,
        state.after_rounds(rounds).running() ==> state.after_rounds(rounds).streak == state.streak
            + rounds.len(),
        state.unmet() && state.streak + rounds.len() <= state.max_failures ==> {
            &&& state.after_rounds(rounds).streak == state.streak + rounds.len()
            &&& state.after_rounds(rounds).failures == state.failures + rounds.len()
        },
    decreases rounds.len(),
{
    if rounds.len() > 0 {
        let front = rounds.drop_last();
        assert forall|k: int| 0 <= k < front.len() implies winner(
            scores_of(#[trigger] front[k]),
            state.score,
        ) is None by {
            assert(front[k] == rounds[k]);
        }
        lemma_failed_rounds(state, front);
        assert(rounds.last() == rounds[rounds.len() - 1]);
        if state.unmet() && state.streak + rounds.len() <= state.max_failures {
            assert(state.after_rounds(front).running());
        }
    }
}

/// A search halts once its limit of failures in a row is reached, whether
/// or not its goals are met: after as many rounds without an improving
/// candidate as were left to the limit, it does not run, and its canvas,
/// score and placements are as they were. Where a goal was unmet and the rounds are
/// just those left to the limit, the failures in a row stand at the limit
/// and the failures have grown by the number of the rounds.
pub proof fn lemma_failure_cap_halts(state: Search, rounds: Seq<Seq<Candidate>>)
    requires
        forall|k: int|
            0 <= k < rounds.len() ==> winner(scores_of(#[trigger] rounds[k]), state.score) is None,
        state.streak + rounds.len() >= state.max_failures,
    ensures
        !state.after_rounds(rounds).running(),
        state.after_rounds(rounds).canvas == state.canvas,
        state.after_rounds(rounds).score == state.score,
        state.after_rounds(rounds).placements == state.placements,
        state.unmet() && state.streak + rounds.len() == state.max_failures ==> {
            &&& state.after_rounds(rounds).streak == state.max_failures
            &&& state.after_rounds(rounds).failures == state.failures + rounds.len()
        },
{
    lemma_failed_rounds(state, rounds);
}

/// The winning score of a round does not depend on the order of its
/// scores.
pub proof fn lemma_winning_score_of_same_scores(first: Seq<u32>, second: Seq<u32>, current: u32)
    requires
        forall|i: int| 0 <= i < first.len() ==> second.contains(#[trigger] first[i]),
        forall|i: int| 0 <= i < second.len() ==> first.contains(#[trigger] second[i]),
    ensures
        winning_score(first, current) == winning_score(second, current),
{
    lemma_winner(first, current);
    lemma_winner(second, current);
    match winner(first, current) {
        Some(i) => {
            assert(second.contains(first[i]));
            let k = choose|k: int| 0 <= k < second.len() && second[k] == first[i];
            let m = winner(second, current)->0;
            assert(second[k] <= second[m]);
            assert(first.contains(second[m]));
            let n = choose|n: int| 0 <= n < first.len() && first[n] == second[m];
            assert(first[n] <= first[i]);
        },
        None => {
            assert forall|k: int| 0 <= k < second.len() implies second[k] <= current by {
                assert(first.contains(second[k]));
                let n = choose|n: int| 0 <= n < first.len() && first[n] == second[k];
                assert(first[n] <= current);
            }
        },
    }
}

/// The order of the candidates of a round does not matter to the score that
/// wins it: two batches that hold the same candidates, in whatever order,
/// have the same winning score, and leave a search with the same score.
pub proof fn lemma_winning_score_ignores_order(
    state: Search,
    first: Seq<Candidate>,
    second: Seq<Candidate>,
)
    requires
        first.to_multiset() == second.to_multiset(),
    ensures
        winning_score(scores_of(first), state.score) == winning_score(
            scores_of(second),
            state.score,
        ),
        state.after_round(first).score == state.after_round(second).score,
{
    first.to_multiset_ensures();
    second.to_multiset_ensures();
    let a = scores_of(first);
    let b = scores_of(second);
    assert forall|i: int| 0 <= i < a.len() implies b.contains(#[trigger] a[i]) by {
        assert(first.contains(first[i]));
        assert(first.to_multiset().count(first[i]) > 0);
        assert(second.to_multiset().count(first[i]) > 0);
        assert(second.contains(first[i]));
        let k = choose|k: int| 0 <= k < second.len() && second[k] == first[i];
        assert(b[k] == a[i]);
    }
    assert forall|i: int| 0 <= i < b.len() implies a.contains(#[trigger] b[i]) by {
        assert(second.contains(second[i]));
        assert(second.to_multiset().count(second[i]) > 0);
        assert(first.to_multiset().count(second[i]) > 0);
        assert(first.contains(second[i]));
        let k = choose|k: int| 0 <= k < first.len() && first[k] == second[i];
        assert(a[k] == b[i]);
    }
    lemma_winning_score_of_same_scores(a, b, state.score);
    lemma_winner(a, state.score);
    lemma_winner(b, state.score);
}

/// How a round ended.
#[derive(Clone, Copy, Debug, PartialEq, Eq, Structural)]
pub enum Round {
    /// The candidate at this index of the batch was committed.
    Accepted(usize),
    /// No candidate beat the canvas.
    Rejected,
    /// The search had ended before the round: nothing was done.
    Ended,
}

/// A canvas for `target`: of its dimensions, in `average` at full opacity.
pub fn blank_canvas(target: &Raster, average: Rgba) -> (canvas: Raster)
    ensures
        canvas@.well_formed(),
        canvas@.same_shape(target@),
        canvas@.uniform(Rgba { a: 255, ..average }),
{
    proof {
        use_type_invariant(target);
    }
    let data = target.bytes();
    assert(data.len() == data@.len());
    Raster::filled(target.width(), target.height(), Rgba { a: 255, ..average })
}

/// A greedy search in progress: its canvas, the score of the canvas, the
/// placements committed, and its counts of failed rounds.
pub struct Engine {
    config: Config,
    canvas: Raster,
    score: u32,
    history: Vec<Placement>,
    failures: u64,
    streak: u32,
}

impl View for Engine {
    type V = Search;

    closed spec fn view(&self) -> Search {
        Search {
            target_score: self.config.target_score,
            target_shapes: self.config.target_shapes,
            max_failures: self.config.max_failures,
            canvas: self.canvas@,
            score: self.score,
            placements: self.history@,
            failures: self.failures as nat,
            streak: self.streak as nat,
        }
    }
}

impl Engine {
    /// A search for `config` that starts from `canvas`, whose score is
    /// `score`. A configuration with a fault is refused.
    pub fn new(config: Config, canvas: Raster, score: u32) -> (made: Result<Engine, ConfigError>)
        ensures
            match config.fault() {
                Some(error) => made == Err::<Engine, ConfigError>(error),
                None => {
                    &&& made matches Ok(engine)
                    &&& engine@ == Search::fresh(config, canvas@, score)
                },
            },
    {
        match config.validate() {
            Err(error) => Err(error),
            Ok(()) => Ok(
                Engine { config, canvas, score, history: Vec::new(), failures: 0, streak: 0 },
            ),
        }
    }

    /// Whether the search has another round.
    pub fn is_running(&self) -> (running: bool)
        ensures
            running == self@.running(),
    {
        (self.score < self.config.target_score || self.history.len()
            < self.config.target_shapes as usize) && self.streak < self.config.max_failures
    }

    /// The score of the canvas.
    pub fn score(&self) -> (score: u32)
        ensures
            score == self@.score,
    {
        self.score
    }

    /// The number of placements committed.
    pub fn successes(&self) -> (count: usize)
        ensures
            count == self@.placements.len(),
    {
        self.history.len()
    }

    /// The number of rounds that committed nothing.
    pub fn failures(&self) -> (count: u64)
        ensures
            count == self@.failures,
    {
        self.failures
    }

    /// The number of rounds that committed nothing since the last that
    /// committed a placement.
    pub fn consecutive_failures(&self) -> (count: u32)
        ensures
            count == self@.streak,
    {
        self.streak
    }

    /// The placements committed, in their order.
    pub fn history(&self) -> (history: &Vec<Placement>)
        ensures
            history@ == self@.placements,
    {
        &self.history
    }

    /// The canvas as it stands.
    pub fn canvas(&self) -> (canvas: &Raster)
        ensures
            canvas@ == self@.canvas,
    {
        &self.canvas
    }

    /// A copy of the canvas with `stamp` laid on it where `placement` puts
    /// it. The canvas itself stays as it is.
    pub fn trial(&self, placement: &Placement, stamp: &Raster) -> (copy: Raster)
        ensures
            copy@ == self@.canvas.laid(stamp@, placement.left(), placement.top()),
            copy@.is_overlay(self@.canvas, stamp@, placement.left(), placement.top()),
    {
        let corner = placement.stamp_corner();
        let mut copy = self.canvas.clone();
        proof {
            use_type_invariant(&copy);
        }
        overlay(&mut copy, stamp, corner.0, corner.1);
        proof {
            lemma_overlay_is_laid(copy@, self.canvas@, stamp@, corner.0 as int, corner.1 as int);
        }
        copy
    }

    /// Ends a round on `batch`. If a candidate wins, its stamp is laid on the
    /// canvas, its placement joins the history, its score becomes the
    /// canvas's, and the count of failures in a row starts again. If none
    /// does, the failure is counted and nothing else changes. If the search
    /// had ended before, nothing is done.
    pub fn finish_round(&mut self, batch: &Vec<Candidate>) -> (round: Round)
        requires
            old(self)@.failures < u64::MAX,
        ensures
            final(self)@ == old(self)@.after_round(batch@),
            final(self)@.score >= old(self)@.score,
            round is Accepted ==> final(self)@.score > old(self)@.score,
            round == (if !old(self)@.running() {
                Round::Ended
            } else {
                match winner(scores_of(batch@), old(self)@.score) {
                    Some(i) => Round::Accepted(i as usize),
                    None => Round::Rejected,
                }
            }),
            match round {
                Round::Accepted(i) => {
                    &&& i < batch@.len()
                    &&& final(self)@.canvas.is_overlay(
                        old(self)@.canvas,
                        batch@[i as int].stamp@,
                        batch@[i as int].placement.left(),
                        batch@[i as int].placement.top(),
                    )
                },
                _ => final(self)@.canvas == old(self)@.canvas,
            },
    {
        if !self.is_running() {
            return Round::Ended;
        }
        match select(batch, self.score) {
            Some(i) => {
                proof {
                    lemma_winner(scores_of(batch@), self.score);
                }
                let corner = batch[i].placement.stamp_corner();
                proof {
                    use_type_invariant(&self.canvas);
                }
                overlay(&mut self.canvas, &batch[i].stamp, corner.0, corner.1);
                proof {
                    lemma_overlay_is_laid(
                        self.canvas@,
                        old(self).canvas@,
                        batch@[i as int].stamp@,
                        corner.0 as int,
                        corner.1 as int,
                    );
                }
                self.score = batch[i].score;
                self.history.push(batch[i].placement);
                self.streak = 0;
                Round::Accepted(i)
            },
            None => {
                self.failures = self.failures + 1;
                self.streak = self.streak + 1;
                Round::Rejected
            },
        }
    }

    /// Ends the search: the canvas and the placements committed.
    pub fn into_parts(self) -> (parts: (Raster, Vec<Placement>))
        ensures
            parts.0@ == self@.canvas,
            parts.1@ == self@.placements,
    {
        (self.canvas, self.history)
    }
}

} // verus!

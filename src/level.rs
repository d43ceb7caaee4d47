use vstd::prelude::*;

verus! {

/// Cap on the height of a node when none is configured.
pub const DEFAULT_MAX_LEVEL: usize = 16;

/// Default chance of climbing one more level: `1 / 2`.
pub const DEFAULT_NUMERATOR: u32 = 1;

pub const DEFAULT_DENOMINATOR: u32 = 2;

/// The level reached by a run of independent trials: one, plus one for each
/// leading success, never beyond `cap`.
pub open spec fn trials_level(trials: Seq<bool>, cap: int) -> int
    decreases trials.len(),
{
    if cap <= 1 || trials.len() == 0 || !trials[0] {
        1
    } else {
        1 + trials_level(trials.drop_first(), cap - 1)
    }
}

pub proof fn lemma_trials_level_bounds(trials: Seq<bool>, cap: int)
    requires
        cap >= 1,
    ensures
        1 <= trials_level(trials, cap) <= cap,
        trials_level(trials, cap) <= trials.len() + 1,
    decreases trials.len(),
{
    if cap > 1 && trials.len() > 0 && trials[0] {
        lemma_trials_level_bounds(trials.drop_first(), cap - 1);
    }
}

/// The level that a sequence of coin flips selects: count the leading
/// successes, starting from level one, and stop at `max_level`.
pub fn level_from_trials(trials: &Vec<bool>, max_level: usize) -> (r: usize)
    requires
        max_level >= 1,
    ensures
        r == trials_level(trials@, max_level as int),
        1 <= r <= max_level,
{
    let mut level: usize = 1;
    let mut i: usize = 0;
    proof {
        lemma_trials_level_bounds(trials@, max_level as int);
        assert(trials@.subrange(0, trials@.len() as int) =~= trials@);
    }
    while level < max_level && i < trials.len() && trials[i]
        invariant
            1 <= level <= max_level,
            i == level - 1,
            i <= trials@.len(),
            trials_level(trials@, max_level as int) == (level - 1) + trials_level(
                trials@.subrange(i as int, trials@.len() as int),
                max_level - i,
            ),
        decreases max_level - level,
    {
        proof {
            let rest = trials@.subrange(i as int, trials@.len() as int);
            assert(rest.drop_first() =~= trials@.subrange(i + 1, trials@.len() as int));
        }
        level = level + 1;
        i = i + 1;
    }
    level
}

/// Relies on `rand::Rng::gen_ratio` over the thread-local generator
/// (`rand::thread_rng`): a fresh draw that is `true` with probability
/// `numerator / denominator`. It is always `true` when the two are equal and
/// never `true` when `numerator` is zero; it panics only when `denominator`
/// is zero or `numerator` exceeds it.
#[verifier::external_body]
fn flip(numerator: u32, denominator: u32) -> (r: bool)
    requires
        0 < denominator,
        numerator <= denominator,
    ensures
        numerator == denominator ==> r,
        numerator == 0 ==> !r,
{
    rand::Rng::gen_ratio(&mut rand::thread_rng(), numerator, denominator)
}

/// Draws node heights: level one, then one more level for each consecutive
/// success of a trial that succeeds with probability
/// `numerator / denominator`, capped at `max_level`.
pub struct LevelGenerator {
    pub max_level: usize,
    pub numerator: u32,
    pub denominator: u32,
}

impl LevelGenerator {
    pub open spec fn wf(&self) -> bool {
        &&& self.max_level >= 1
        &&& self.denominator > 0
        &&& self.numerator <= self.denominator
    }

    /// Cap of 16 levels, probability one half.
    pub fn new() -> (r: Self)
        ensures
            r.wf(),
            r.max_level == DEFAULT_MAX_LEVEL,
            r.numerator == DEFAULT_NUMERATOR,
            r.denominator == DEFAULT_DENOMINATOR,
    {
        LevelGenerator {
            max_level: DEFAULT_MAX_LEVEL,
            numerator: DEFAULT_NUMERATOR,
            denominator: DEFAULT_DENOMINATOR,
        }
    }

    /// A generator with the given cap and probability; `None` when the cap is
    /// zero or the ratio is not a probability.
    pub fn with_config(max_level: usize, numerator: u32, denominator: u32) -> (r: Option<Self>)
        ensures
            r is Some <==> (max_level >= 1 && denominator > 0 && numerator <= denominator),
            r is Some ==> r->0.wf() && r->0.max_level == max_level && r->0.numerator
                == numerator && r->0.denominator == denominator,
    {
        if max_level >= 1 && denominator > 0 && numerator <= denominator {
            Some(LevelGenerator { max_level, numerator, denominator })
        } else {
            None
        }
    }

    /// A random level in `1..=max_level`. Each call makes `max_level - 1`
    /// fresh trials and keeps the leading successes.
    pub fn next_level(&self) -> (r: usize)
        requires
            self.wf(),
        ensures
            1 <= r <= self.max_level,
            self.numerator == 0 ==> r == 1,
            self.numerator == self.denominator ==> r == self.max_level,
    {
        let mut trials: Vec<bool> = Vec::new();
        let mut i: usize = 1;
        while i < self.max_level
            invariant
                self.wf(),
                1 <= i <= self.max_level,
                trials@.len() == i - 1,
                self.numerator == 0 ==> forall|j: int| 0 <= j < trials@.len() ==> !trials@[j],
                self.numerator == self.denominator ==> forall|j: int|
                    0 <= j < trials@.len() ==> trials@[j],
            decreases self.max_level - i,
        {
            let t = flip(self.numerator, self.denominator);
            trials.push(t);
            i = i + 1;
        }
        let r = level_from_trials(&trials, self.max_level);
        proof {
            if self.numerator == 0 && self.max_level > 1 {
                assert(!trials@[0]);
            }
            if self.numerator == self.denominator {
                lemma_all_true_level(trials@, self.max_level as int);
            }
        }
        r
    }
}

proof fn lemma_all_true_level(trials: Seq<bool>, cap: int)
    requires
        cap >= 1,
        trials.len() >= cap - 1,
        forall|j: int| 0 <= j < trials.len() ==> trials[j],
    ensures
        trials_level(trials, cap) == cap,
    decreases trials.len(),
{
    if cap > 1 {
        assert(trials[0]);
        lemma_all_true_level(trials.drop_first(), cap - 1);
    }
}

} // verus!

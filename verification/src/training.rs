//! The bookkeeping of a training run: which example is drawn, what is counted
//! after each step, and when a report, an evaluation and a snapshot are due.
//!
//! The caller runs the model. After every training step it hands the label of
//! the example and the class that the model predicted to
//! [`Progress::step`], and does what the returned [`Action`] asks for.

use rand::Rng;
use vstd::prelude::*;

verus! {

/// The number of training steps between two reports.
pub const REPORT_INTERVAL: usize = 5000;

/// The number of reports between two evaluations.
pub const EVALUATION_GAP: usize = 10;

/// The number of examples at the start of a dataset that are held out of
/// training and used for evaluation.
pub const TEST_SIZE: usize = 2000;

/// `Rng::gen_range` on the generator of the current thread, for a half-open
/// range of indices: some index of the range. Which one is not determined.
#[verifier::external_body]
fn random_index(low: usize, high: usize) -> (r: usize)
    requires
        low < high,
    ensures
        low <= r < high,
{
    rand::thread_rng().gen_range(low..high)
}

/// Draws the index of a training example from a dataset of `len` examples:
/// some index behind the held-out examples, or `None` where the dataset holds
/// no example to train on.
pub fn pick_training_example(len: usize) -> (r: Option<usize>)
    ensures
        r is Some <==> len > TEST_SIZE,
        r matches Some(i) ==> TEST_SIZE <= i < len,
{
    if len > TEST_SIZE {
        Some(random_index(TEST_SIZE, len))
    } else {
        None
    }
}

/// How often each class was predicted for the examples of each author.
#[derive(Clone, Copy, Debug, PartialEq, Eq, Structural)]
pub struct Confusion {
    /// Examples of author 0 for which class 0 was predicted.
    pub zero_as_zero: usize,
    /// Examples of author 0 for which class 1 was predicted.
    pub zero_as_one: usize,
    /// Examples of author 1 for which class 0 was predicted.
    pub one_as_zero: usize,
    /// Examples of author 1 for which class 1 was predicted.
    pub one_as_one: usize,
}

impl Confusion {
    /// The number of examples of `author` for which `predicted` was predicted.
    pub open spec fn count(self, author: int, predicted: int) -> int {
        if author == 0 {
            if predicted == 0 {
                self.zero_as_zero as int
            } else {
                self.zero_as_one as int
            }
        } else {
            if predicted == 0 {
                self.one_as_zero as int
            } else {
                self.one_as_one as int
            }
        }
    }

    /// The number of examples counted.
    pub open spec fn total(self) -> int {
        self.zero_as_zero + self.zero_as_one + self.one_as_zero + self.one_as_one
    }

    /// The number of examples counted whose author was predicted.
    pub open spec fn correct(self) -> int {
        self.zero_as_zero + self.one_as_one
    }

    /// The table that counts nothing.
    pub open spec fn empty() -> Confusion {
        Confusion { zero_as_zero: 0, zero_as_one: 0, one_as_zero: 0, one_as_one: 0 }
    }

    /// The table with one more example of `author` for which `predicted` was
    /// predicted.
    pub open spec fn with(self, author: int, predicted: int) -> Confusion {
        if author == 0 {
            if predicted == 0 {
                Confusion { zero_as_zero: (self.zero_as_zero + 1) as usize, ..self }
            } else {
                Confusion { zero_as_one: (self.zero_as_one + 1) as usize, ..self }
            }
        } else {
            if predicted == 0 {
                Confusion { one_as_zero: (self.one_as_zero + 1) as usize, ..self }
            } else {
                Confusion { one_as_one: (self.one_as_one + 1) as usize, ..self }
            }
        }
    }

    /// The table that counts nothing.
    pub fn new() -> (r: Confusion)
        ensures
            r == Confusion::empty(),
    {
        Confusion { zero_as_zero: 0, zero_as_one: 0, one_as_zero: 0, one_as_one: 0 }
    }

    /// Counts one more example of `author` for which `predicted` was predicted.
    pub fn record(&mut self, author: usize, predicted: usize)
        requires
            author < 2,
            predicted < 2,
            old(self).total() < usize::MAX,
        ensures
            *final(self) == old(self).with(author as int, predicted as int),
            final(self).total() == old(self).total() + 1,
            final(self).correct() == old(self).correct() + if author == predicted {
                1int
            } else {
                0int
            },
    {
        if author == 0 {
            if predicted == 0 {
                self.zero_as_zero = self.zero_as_zero + 1;
            } else {
                self.zero_as_one = self.zero_as_one + 1;
            }
        } else {
            if predicted == 0 {
                self.one_as_zero = self.one_as_zero + 1;
            } else {
                self.one_as_one = self.one_as_one + 1;
            }
        }
    }

    /// The number of examples of `author` for which `predicted` was predicted.
    pub fn get(&self, author: usize, predicted: usize) -> (r: usize)
        requires
            author < 2,
            predicted < 2,
        ensures
            r == self.count(author as int, predicted as int),
    {
        if author == 0 {
            if predicted == 0 {
                self.zero_as_zero
            } else {
                self.zero_as_one
            }
        } else {
            if predicted == 0 {
                self.one_as_zero
            } else {
                self.one_as_one
            }
        }
    }
}

/// What the caller of [`Progress::step`] has to do after a training step.
#[derive(Clone, Copy, Debug, PartialEq, Eq, Structural)]
pub enum Action {
    /// Nothing: go on with the next step.
    Continue,
    /// Report the averages over the steps since the last report.
    Report(Confusion),
    /// Report as for `Report`, then evaluate the model on the held-out
    /// examples and store a snapshot of it.
    ReportAndEvaluate(Confusion),
}

/// The counters of a training run.
#[derive(Clone, Copy, Debug, PartialEq, Eq, Structural)]
pub struct Progress {
    /// The number of steps since the last report.
    pub index: usize,
    /// The number of reports since the last evaluation.
    pub test_count: usize,
    /// The predictions since the last report.
    pub confusion: Confusion,
}

/// The counters after one more training step, on an example of `author` for
/// which the model predicted `predicted`, and what is due after that step.
pub open spec fn step_spec(p: Progress, author: int, predicted: int) -> (Progress, Action) {
    let counted = p.confusion.with(author, predicted);
    let fresh = Confusion::empty();
    if p.index + 1 < REPORT_INTERVAL {
        (
            Progress { index: (p.index + 1) as usize, test_count: p.test_count, confusion: counted },
            Action::Continue,
        )
    } else if p.test_count + 1 < EVALUATION_GAP {
        (
            Progress { index: 0, test_count: (p.test_count + 1) as usize, confusion: fresh },
            Action::Report(counted),
        )
    } else {
        (Progress { index: 0, test_count: 0, confusion: fresh }, Action::ReportAndEvaluate(counted))
    }
}

impl Progress {
    /// Whether the counters are those of a run: a report or an evaluation
    /// that is due has been made, and every step since the last report is in
    /// the table.
    pub open spec fn wf(self) -> bool {
        &&& self.index < REPORT_INTERVAL
        &&& self.test_count < EVALUATION_GAP
        &&& self.confusion.total() == self.index
    }

    /// Whether the counters are those of a run of `steps` steps.
    pub open spec fn after(self, steps: nat) -> bool {
        &&& self.wf()
        &&& self.index == steps % (REPORT_INTERVAL as nat)
        &&& self.test_count == (steps / (REPORT_INTERVAL as nat)) % (EVALUATION_GAP as nat)
    }

    /// The counters of a run that has not made a step.
    pub fn new() -> (r: Progress)
        ensures
            r.after(0),
            r.confusion == Confusion::empty(),
    {
        Progress { index: 0, test_count: 0, confusion: Confusion::new() }
    }

    /// Counts one training step, on an example of `author` for which the
    /// model predicted `predicted`, and says what is due after it.
    pub fn step(&mut self, author: usize, predicted: usize) -> (action: Action)
        requires
            old(self).wf(),
            author < 2,
            predicted < 2,
        ensures
            (*final(self), action) == step_spec(*old(self), author as int, predicted as int),
            final(self).wf(),
    {
        self.confusion.record(author, predicted);
        let counted = self.confusion;
        if self.index + 1 < REPORT_INTERVAL {
            self.index = self.index + 1;
            Action::Continue
        } else {
            self.index = 0;
            self.confusion = Confusion::new();
            if self.test_count + 1 < EVALUATION_GAP {
                self.test_count = self.test_count + 1;
                Action::Report(counted)
            } else {
                self.test_count = 0;
                Action::ReportAndEvaluate(counted)
            }
        }
    }
}

/// A report is due after every `REPORT_INTERVAL`-th step of a run and after
/// no other, and it covers `REPORT_INTERVAL` steps; an evaluation is due with
/// every `EVALUATION_GAP`-th report and with no other.
pub proof fn lemma_schedule(p: Progress, steps: nat, author: int, predicted: int)
    requires
        p.after(steps),
        0 <= author < 2,
        0 <= predicted < 2,
    ensures
        step_spec(p, author, predicted).0.after(steps + 1),
        step_spec(p, author, predicted).1 is Continue <==> (steps + 1) % (REPORT_INTERVAL as nat)
            != 0,
        step_spec(p, author, predicted).1 is ReportAndEvaluate <==> (steps + 1) % ((
        REPORT_INTERVAL * EVALUATION_GAP) as nat) == 0,
        step_spec(p, author, predicted).1 matches Action::Report(c) ==> c.total()
            == REPORT_INTERVAL,
        step_spec(p, author, predicted).1 matches Action::ReportAndEvaluate(c) ==> c.total()
            == REPORT_INTERVAL,
{
    let n = steps as int;
    let q = n / 5000;
    let r = n % 5000;
    assert(n == 5000 * q + r && 0 <= r < 5000) by (nonlinear_arith)
        requires
            q == n / 5000,
            r == n % 5000,
            n >= 0,
    ;
    let t = q % 10;
    let u = q / 10;
    assert(q == 10 * u + t && 0 <= t < 10) by (nonlinear_arith)
        requires
            t == q % 10,
            u == q / 10,
            q >= 0,
    ;
    if r + 1 < 5000 {
        assert((n + 1) / 5000 == q && (n + 1) % 5000 == r + 1) by (nonlinear_arith)
            requires
                n == 5000 * q + r,
                0 <= r,
                r + 1 < 5000,
        ;
        assert((n + 1) % 50000 != 0) by (nonlinear_arith)
            requires
                (n + 1) % 5000 == r + 1,
                0 <= r,
                r + 1 < 5000,
                n >= 0,
        ;
    } else {
        assert((n + 1) / 5000 == q + 1 && (n + 1) % 5000 == 0) by (nonlinear_arith)
            requires
                n == 5000 * q + r,
                r + 1 == 5000,
        ;
        if t + 1 < 10 {
            assert((q + 1) % 10 == t + 1) by (nonlinear_arith)
                requires
                    q == 10 * u + t,
                    0 <= t,
                    t + 1 < 10,
            ;
            assert((n + 1) % 50000 != 0) by (nonlinear_arith)
                requires
                    n + 1 == 5000 * (q + 1),
                    q + 1 == 10 * u + (t + 1),
                    0 <= t,
                    t + 1 < 10,
            ;
        } else {
            assert((q + 1) % 10 == 0) by (nonlinear_arith)
                requires
                    q == 10 * u + t,
                    t + 1 == 10,
            ;
            assert((n + 1) % 50000 == 0) by (nonlinear_arith)
                requires
                    n + 1 == 5000 * (q + 1),
                    q + 1 == 10 * (u + 1),
            ;
        }
    }
}

/// The tally of an evaluation on held-out examples.
#[derive(Clone, Copy, Debug, PartialEq, Eq, Structural)]
pub struct Evaluation {
    /// The predictions for the examples seen so far.
    pub confusion: Confusion,
}

impl Evaluation {
    /// The number of examples of `author` seen so far.
    pub open spec fn spec_author_count(self, author: int) -> int {
        self.confusion.count(author, 0) + self.confusion.count(author, 1)
    }

    /// The tally of an evaluation that has seen no example.
    pub fn new() -> (r: Evaluation)
        ensures
            r.confusion == Confusion::empty(),
    {
        Evaluation { confusion: Confusion::new() }
    }

    /// Counts one example of `author` for which the model predicted
    /// `predicted`.
    pub fn record(&mut self, author: usize, predicted: usize)
        requires
            author < 2,
            predicted < 2,
            old(self).confusion.total() < usize::MAX,
        ensures
            final(self).confusion == old(self).confusion.with(author as int, predicted as int),
    {
        self.confusion.record(author, predicted);
    }

    /// The number of examples seen.
    pub fn examples(&self) -> (r: usize)
        requires
            self.confusion.total() <= usize::MAX,
        ensures
            r == self.confusion.total(),
    {
        self.confusion.zero_as_zero + self.confusion.zero_as_one + self.confusion.one_as_zero
            + self.confusion.one_as_one
    }

    /// The number of examples seen whose author was predicted.
    pub fn correct(&self) -> (r: usize)
        requires
            self.confusion.total() <= usize::MAX,
        ensures
            r == self.confusion.correct(),
    {
        self.confusion.zero_as_zero + self.confusion.one_as_one
    }

    /// The number of examples seen of each author.
    pub fn author_counts(&self) -> (r: [usize; 2])
        requires
            self.confusion.total() <= usize::MAX,
        ensures
            r@[0] == self.spec_author_count(0),
            r@[1] == self.spec_author_count(1),
    {
        [
            self.confusion.zero_as_zero + self.confusion.zero_as_one,
            self.confusion.one_as_zero + self.confusion.one_as_one,
        ]
    }
}

} // verus!

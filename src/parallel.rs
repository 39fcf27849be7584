//! The rules of the parallel download orchestrator: the priority queue of
//! tasks, the retry policy with capped exponential backoff, and the summary
//! of a batch. The asynchronous executor that applies them lives outside the
//! library; every decision it takes is made here.
use std::collections::VecDeque;
use std::time::Duration;
use vstd::prelude::*;

verus! {

/// Why a download failed.
#[derive(Debug)]
pub enum DownloadError {
    Network(String),
    Io(String),
    Timeout(Duration),
    ChecksumMismatch,
    Cancelled,
    MaxRetriesExceeded,
    PackageManager(String),
}

/// How often, and how patiently, a failed download is tried again.
#[derive(Debug, Clone, Copy)]
pub struct RetryConfig {
    /// Attempts in all, the first included.
    pub max_attempts: u32,
    /// Wait before the second attempt, in milliseconds.
    pub initial_backoff_ms: u64,
    /// Upper bound of any wait, in milliseconds.
    pub max_backoff_ms: u64,
    /// Factor by which the wait grows after each failed retry, in percent
    /// (`200` doubles it, `150` makes it half as long again).
    pub multiplier_percent: u64,
}

impl Default for RetryConfig {
    /// Three attempts, waiting one second and then twice as long each time, at
    /// most thirty seconds.
    fn default() -> (r: Self)
        ensures
            r.max_attempts == 3,
            r.initial_backoff_ms == 1000,
            r.max_backoff_ms == 30000,
            r.multiplier_percent == 200,
    {
        RetryConfig { max_attempts: 3, initial_backoff_ms: 1000, max_backoff_ms: 30000, multiplier_percent: 200 }
    }
}

/// One package to download.
#[derive(Debug, Clone)]
pub struct DownloadTask {
    /// Package identifier.
    pub package_id: String,
    /// Package path in the registry.
    pub package_path: String,
    /// Directory the package is written to.
    pub target_dir: String,
    /// Higher runs first.
    pub priority: u8,
    pub retry_config: RetryConfig,
}

/// Options of a parallel download.
#[derive(Debug, Clone, Copy)]
pub struct ParallelDownloadOptions {
    /// Downloads in flight at once.
    pub max_concurrent: usize,
    /// Whether to print the summary.
    pub show_progress: bool,
    pub retry_config: RetryConfig,
    /// Time allowed for one download, in milliseconds.
    pub timeout_ms: u64,
}

impl Default for ParallelDownloadOptions {
    /// Four downloads at once, progress shown, default retries, five minutes each.
    fn default() -> (r: Self)
        ensures
            r.max_concurrent == 4,
            r.show_progress,
            r.retry_config.max_attempts == 3,
            r.retry_config.initial_backoff_ms == 1000,
            r.retry_config.max_backoff_ms == 30000,
            r.retry_config.multiplier_percent == 200,
            r.timeout_ms == 300000,
    {
        ParallelDownloadOptions {
            max_concurrent: 4,
            show_progress: true,
            retry_config: RetryConfig::default(),
            timeout_ms: 300000,
        }
    }
}

/// Priorities never increase from front to back.
pub open spec fn by_descending_priority(s: Seq<DownloadTask>) -> bool {
    forall|i: int, j: int| 0 <= i < j < s.len() ==> s[i].priority >= s[j].priority
}

/// The tasks waiting to run, highest priority first, in arrival order among
/// equal priorities. A new queue is empty, and queueing and taking keep the
/// order, so every queue is ordered.
pub struct DownloadQueue {
    tasks: VecDeque<DownloadTask>,
}

impl DownloadQueue {
    /// The waiting tasks, front first.
    pub closed spec fn view(&self) -> Seq<DownloadTask> {
        self.tasks@
    }

    /// An empty queue.
    pub fn new() -> (q: Self)
        ensures
            q.view() == Seq::<DownloadTask>::empty(),
    {
        DownloadQueue { tasks: VecDeque::new() }
    }

    /// The number of waiting tasks.
    pub fn len(&self) -> (r: usize)
        ensures
            r == self.view().len(),
    {
        self.tasks.len()
    }

    /// Queues `task` behind every task of the same or a higher priority and
    /// ahead of every task of a lower one.
    pub fn queue_download(&mut self, task: DownloadTask)
        ensures
            by_descending_priority(old(self).view()) ==> by_descending_priority(final(self).view()),
            exists|pos: int|
                0 <= pos <= old(self).view().len() && (forall|i: int|
                    0 <= i < pos ==> #[trigger] old(self).view()[i].priority >= task.priority) && (pos
                    == old(self).view().len() || old(self).view()[pos].priority < task.priority)
                    && final(self).view() == #[trigger] old(self).view().insert(pos, task),
            final(self).view() == old(self).view().insert(insert_position(old(self).view(), task.priority), task),
    {
        let len = self.tasks.len();
        let mut pos: usize = 0;
        while pos < len && self.tasks[pos].priority >= task.priority
            invariant
                len == self.tasks@.len(),
                0 <= pos <= len,
                forall|i: int| 0 <= i < pos ==> #[trigger] self.tasks@[i].priority >= task.priority,
            decreases len - pos,
        {
            pos += 1;
        }
        let ghost before = self.tasks@;
        let ghost t = task;
        let p = task.priority;
        proof {
            lemma_insert_position(before, p, pos as int);
        }
        self.tasks.insert(pos, task);
        proof {
            assert(self.tasks@ =~= before.insert(pos as int, t));
            let after = self.tasks@;
            assert(after =~= before.insert(pos as int, after[pos as int]));
            if by_descending_priority(before) {
            assert forall|i: int, j: int| 0 <= i < j < after.len() implies after[i].priority >= after[j].priority by {
                if j < pos {
                } else if j == pos {
                } else if i < pos {
                    assert(after[j] == before[j - 1]);
                    if pos < before.len() {
                        assert(before[pos as int].priority < p);
                        if j - 1 > pos {
                            assert(before[pos as int].priority >= before[j - 1].priority);
                        }
                    }
                } else if i == pos {
                    assert(after[j] == before[j - 1]);
                    if j - 1 > pos {
                        assert(before[pos as int].priority >= before[j - 1].priority);
                    }
                } else {
                    assert(after[i] == before[i - 1]);
                    assert(after[j] == before[j - 1]);
                }
            }
            }
        }
    }

    /// Takes the task at the front, if any.
    pub fn pop_next(&mut self) -> (r: Option<DownloadTask>)
        ensures
            by_descending_priority(old(self).view()) ==> by_descending_priority(final(self).view()),
            old(self).view().len() == 0 ==> r is None && final(self).view() == old(self).view(),
            old(self).view().len() > 0 ==> r == Some(old(self).view()[0]) && final(self).view()
                == old(self).view().drop_first(),
    {
        let r = self.tasks.pop_front();
        proof {
            if old(self).view().len() > 0 {
                assert(self.tasks@ =~= old(self).view().drop_first());
            }
        }
        r
    }
}

/// Equal priorities keep their arrival order: in an ordered queue, the place
/// where `queue_download` puts a task lies behind every waiting task of the
/// same priority, and ahead of every task of a lower one.
pub proof fn lemma_queue_keeps_arrival_order(waiting: Seq<DownloadTask>, task: DownloadTask, pos: int)
    requires
        by_descending_priority(waiting),
        0 <= pos <= waiting.len(),
        forall|i: int| 0 <= i < pos ==> #[trigger] waiting[i].priority >= task.priority,
        pos == waiting.len() || waiting[pos].priority < task.priority,
    ensures
        forall|i: int| 0 <= i < waiting.len() && #[trigger] waiting[i].priority == task.priority ==> i < pos,
        forall|i: int| 0 <= i < waiting.len() && #[trigger] waiting[i].priority < task.priority ==> pos <= i,
{
    assert forall|i: int| 0 <= i < waiting.len() && #[trigger] waiting[i].priority == task.priority implies i < pos by {
        if i > pos {
            assert(waiting[pos].priority >= waiting[i].priority);
        }
    }
}

/// Where a task of priority `p` goes in the queue `s`: behind the leading
/// tasks of priority `p` or higher.
pub open spec fn insert_position(s: Seq<DownloadTask>, p: u8) -> int
    decreases s.len(),
{
    if s.len() == 0 || s[0].priority < p {
        0
    } else {
        1 + insert_position(s.drop_first(), p)
    }
}

/// The queue after `tasks` are queued in order into an empty queue.
pub open spec fn queued_in_order(tasks: Seq<DownloadTask>) -> Seq<DownloadTask>
    decreases tasks.len(),
{
    if tasks.len() == 0 {
        Seq::empty()
    } else {
        let q = queued_in_order(tasks.drop_last());
        q.insert(insert_position(q, tasks.last().priority), tasks.last())
    }
}

/// The tasks of priority `p`, in order.
pub open spec fn with_priority(s: Seq<DownloadTask>, p: u8) -> Seq<DownloadTask>
    decreases s.len(),
{
    if s.len() == 0 {
        Seq::empty()
    } else if s.last().priority == p {
        with_priority(s.drop_last(), p).push(s.last())
    } else {
        with_priority(s.drop_last(), p)
    }
}

proof fn lemma_insert_position(s: Seq<DownloadTask>, p: u8, pos: int)
    requires
        0 <= pos <= s.len(),
        forall|i: int| 0 <= i < pos ==> #[trigger] s[i].priority >= p,
        pos == s.len() || s[pos].priority < p,
    ensures
        insert_position(s, p) == pos,
    decreases pos,
{
    if pos > 0 {
        assert forall|i: int| 0 <= i < pos - 1 implies #[trigger] s.drop_first()[i].priority >= p by {
            assert(s.drop_first()[i] == s[i + 1]);
        }
        lemma_insert_position(s.drop_first(), p, pos - 1);
    }
}

proof fn lemma_insert_position_bounds(s: Seq<DownloadTask>, p: u8)
    ensures
        0 <= insert_position(s, p) <= s.len(),
        forall|i: int| 0 <= i < insert_position(s, p) ==> #[trigger] s[i].priority >= p,
        insert_position(s, p) == s.len() || s[insert_position(s, p)].priority < p,
    decreases s.len(),
{
    if s.len() > 0 && s[0].priority >= p {
        lemma_insert_position_bounds(s.drop_first(), p);
        assert forall|i: int| 0 <= i < insert_position(s, p) implies #[trigger] s[i].priority >= p by {
            if i > 0 {
                assert(s[i] == s.drop_first()[i - 1]);
            }
        }
    }
}

proof fn lemma_with_priority_concat(a: Seq<DownloadTask>, b: Seq<DownloadTask>, p: u8)
    ensures
        with_priority(a + b, p) == with_priority(a, p) + with_priority(b, p),
    decreases b.len(),
{
    if b.len() == 0 {
        assert(a + b =~= a);
        assert(with_priority(a, p) + with_priority(b, p) =~= with_priority(a, p));
    } else {
        lemma_with_priority_concat(a, b.drop_last(), p);
        assert((a + b).drop_last() =~= a + b.drop_last());
        assert((a + b).last() == b.last());
        if b.last().priority == p {
            assert(with_priority(a, p) + with_priority(b.drop_last(), p).push(b.last()) =~= (with_priority(a, p)
                + with_priority(b.drop_last(), p)).push(b.last()));
        }
    }
}

proof fn lemma_with_priority_none(b: Seq<DownloadTask>, p: u8)
    requires
        forall|i: int| 0 <= i < b.len() ==> #[trigger] b[i].priority != p,
    ensures
        with_priority(b, p) == Seq::<DownloadTask>::empty(),
    decreases b.len(),
{
    if b.len() > 0 {
        lemma_with_priority_none(b.drop_last(), p);
    }
}

/// One step of the run: queueing into an ordered queue keeps it ordered, and
/// adds the task at the end of the tasks of its priority.
proof fn lemma_queue_step(s: Seq<DownloadTask>, t: DownloadTask, q: u8)
    requires
        by_descending_priority(s),
    ensures
        by_descending_priority(s.insert(insert_position(s, t.priority), t)),
        with_priority(s.insert(insert_position(s, t.priority), t), q) == if t.priority == q {
            with_priority(s, q).push(t)
        } else {
            with_priority(s, q)
        },
{
    lemma_insert_position_bounds(s, t.priority);
    let pos = insert_position(s, t.priority);
    let after = s.insert(pos, t);
    let a = s.subrange(0, pos);
    let b = s.subrange(pos, s.len() as int);
    assert(after =~= a + seq![t] + b);
    assert(s =~= a + b);
    assert forall|i: int, j: int| 0 <= i < j < after.len() implies after[i].priority >= after[j].priority by {
        if j > pos && i < pos {
            if pos < s.len() && j - 1 > pos {
                assert(s[pos].priority >= s[j - 1].priority);
            }
        } else if i == pos && j - 1 > pos {
            assert(s[pos].priority >= s[j - 1].priority);
        } else if i > pos {
            assert(after[i] == s[i - 1]);
        }
    }
    lemma_with_priority_concat(a + seq![t], b, q);
    lemma_with_priority_concat(a, seq![t], q);
    lemma_with_priority_concat(a, b, q);
    assert(seq![t].drop_last() =~= Seq::<DownloadTask>::empty());
    assert(seq![t].last() == t);
    assert(with_priority(seq![t].drop_last(), q) == Seq::<DownloadTask>::empty());
    if t.priority == q {
        assert(Seq::<DownloadTask>::empty().push(t) =~= seq![t]);
    }
    if t.priority == q {
        assert forall|i: int| 0 <= i < b.len() implies #[trigger] b[i].priority != q by {
            if i > 0 {
                assert(s[pos].priority >= s[pos + i].priority);
            }
        }
        lemma_with_priority_none(b, q);
        assert(with_priority(a, q) + seq![t] + Seq::<DownloadTask>::empty() =~= (with_priority(a, q)
            + Seq::<DownloadTask>::empty()).push(t));
    } else {
        assert(with_priority(a, q) + Seq::<DownloadTask>::empty() + with_priority(b, q) =~= with_priority(a, q)
            + with_priority(b, q));
    }
}

/// Queueing tasks one after another into an empty queue gives them highest
/// priority first, and, among the tasks of any one priority, in arrival
/// order: with one download at a time, they run in that order.
pub proof fn lemma_queue_run(tasks: Seq<DownloadTask>)
    ensures
        by_descending_priority(queued_in_order(tasks)),
        forall|p: u8| #[trigger] with_priority(queued_in_order(tasks), p) == with_priority(tasks, p),
    decreases tasks.len(),
{
    if tasks.len() > 0 {
        lemma_queue_run(tasks.drop_last());
        let q = queued_in_order(tasks.drop_last());
        assert forall|p: u8| #[trigger] with_priority(queued_in_order(tasks), p) == with_priority(tasks, p) by {
            lemma_queue_step(q, tasks.last(), p);
        }
        lemma_queue_step(q, tasks.last(), 0);
    }
}

/// Where a task stands in its retry loop: the attempt under way and the
/// wait that precedes the next one.
#[derive(Debug, Clone, Copy, PartialEq, Eq)]
pub struct RetryState {
    /// Attempts made so far, the current one included.
    pub attempts: u32,
    /// Wait before the next attempt, in milliseconds.
    pub backoff_ms: u64,
}

/// What to do after a failed attempt.
#[derive(Debug, Clone, Copy, PartialEq, Eq)]
pub enum RetryStep {
    /// The attempts are spent: the task fails for good.
    GiveUp,
    /// Wait `wait_ms` milliseconds, then try again in state `next`.
    Retry { wait_ms: u64, next: RetryState },
}

/// The wait after `backoff`: multiplied (rounded down to a millisecond), and capped.
pub open spec fn grown_backoff(backoff: u64, config: RetryConfig) -> u64 {
    if backoff * config.multiplier_percent / 100 >= config.max_backoff_ms {
        config.max_backoff_ms
    } else {
        (backoff * config.multiplier_percent / 100) as u64
    }
}

/// The step after a failure in state `s`.
pub open spec fn step_after_failure(s: RetryState, config: RetryConfig) -> RetryStep {
    if s.attempts >= config.max_attempts {
        RetryStep::GiveUp
    } else {
        RetryStep::Retry {
            wait_ms: s.backoff_ms,
            next: RetryState {
                attempts: (s.attempts + 1) as u32,
                backoff_ms: grown_backoff(s.backoff_ms, config),
            },
        }
    }
}

/// The state of the first attempt.
pub open spec fn first_state(config: RetryConfig) -> RetryState {
    RetryState { attempts: 1, backoff_ms: config.initial_backoff_ms }
}

impl RetryState {
    /// The state of the first attempt: one attempt, the initial backoff.
    pub fn first(config: &RetryConfig) -> (s: RetryState)
        ensures
            s == first_state(*config),
    {
        RetryState { attempts: 1, backoff_ms: config.initial_backoff_ms }
    }

    /// After a failed attempt: give up when the attempts have reached the
    /// maximum; otherwise wait the current backoff, then try again with one
    /// attempt more and the backoff multiplied, at most the maximum backoff.
    pub fn after_failure(&self, config: &RetryConfig) -> (r: RetryStep)
        ensures
            r == step_after_failure(*self, *config),
    {
        if self.attempts >= config.max_attempts {
            RetryStep::GiveUp
        } else {
            let backoff = self.backoff_ms as u128;
            let percent = config.multiplier_percent as u128;
            assert(backoff * percent <= 0xffff_ffff_ffff_ffff * 0xffff_ffff_ffff_ffff) by (nonlinear_arith)
                requires
                    backoff <= 0xffff_ffff_ffff_ffff,
                    percent <= 0xffff_ffff_ffff_ffff,
            ;
            let product = backoff * percent;
            let scaled = product / 100;
            let grown = if scaled >= config.max_backoff_ms as u128 {
                config.max_backoff_ms
            } else {
                scaled as u64
            };
            RetryStep::Retry {
                wait_ms: self.backoff_ms,
                next: RetryState { attempts: self.attempts + 1, backoff_ms: grown },
            }
        }
    }
}

/// Running an operation whose attempts end as `outcomes` says (`true` for a
/// success) from state `s`: whether it succeeds, and how many attempts it makes.
pub open spec fn run_attempts(s: RetryState, config: RetryConfig, outcomes: Seq<bool>) -> (bool, nat)
    decreases outcomes.len(),
{
    if outcomes.len() == 0 {
        (false, 0)
    } else if outcomes[0] {
        (true, 1)
    } else {
        match step_after_failure(s, config) {
            RetryStep::GiveUp => (false, 1),
            RetryStep::Retry { wait_ms, next } => {
                let rest = run_attempts(next, config, outcomes.drop_first());
                (rest.0, rest.1 + 1)
            },
        }
    }
}

proof fn lemma_run_succeeds_from(s: RetryState, config: RetryConfig, outcomes: Seq<bool>, k: int)
    requires
        0 <= k < outcomes.len(),
        outcomes[k],
        forall|j: int| 0 <= j < k ==> !outcomes[j],
        s.attempts + k <= config.max_attempts,
    ensures
        run_attempts(s, config, outcomes) == (true, (k + 1) as nat),
    decreases k,
{
    if k > 0 {
        let next = RetryState { attempts: (s.attempts + 1) as u32, backoff_ms: grown_backoff(s.backoff_ms, config) };
        assert forall|j: int| 0 <= j < k - 1 implies !outcomes.drop_first()[j] by {
            assert(outcomes.drop_first()[j] == outcomes[j + 1]);
        }
        lemma_run_succeeds_from(next, config, outcomes.drop_first(), k - 1);
    }
}

proof fn lemma_run_fails_from(s: RetryState, config: RetryConfig, outcomes: Seq<bool>, m: int)
    requires
        s.attempts <= config.max_attempts,
        m == config.max_attempts - s.attempts + 1,
        m <= outcomes.len(),
        forall|j: int| 0 <= j < m ==> !outcomes[j],
    ensures
        run_attempts(s, config, outcomes) == (false, m as nat),
    decreases m,
{
    if s.attempts < config.max_attempts {
        let next = RetryState { attempts: (s.attempts + 1) as u32, backoff_ms: grown_backoff(s.backoff_ms, config) };
        assert forall|j: int| 0 <= j < m - 1 implies !outcomes.drop_first()[j] by {
            assert(outcomes.drop_first()[j] == outcomes[j + 1]);
        }
        lemma_run_fails_from(next, config, outcomes.drop_first(), m - 1);
    }
}

/// An operation that fails `k` times and then succeeds, with `k` below the
/// maximum number of attempts, succeeds after exactly `k + 1` attempts; one
/// that fails every time is attempted exactly the maximum number of times
/// (once at least), and then given up.
pub proof fn lemma_retry_attempts(config: RetryConfig, outcomes: Seq<bool>, k: int)
    requires
        0 <= k < outcomes.len(),
    ensures
        outcomes[k] && (forall|j: int| 0 <= j < k ==> !outcomes[j]) && k < config.max_attempts
            ==> run_attempts(first_state(config), config, outcomes) == (true, (k + 1) as nat),
        config.max_attempts >= 1 && config.max_attempts <= outcomes.len() && (forall|j: int|
            0 <= j < config.max_attempts ==> !outcomes[j]) ==> run_attempts(
            first_state(config),
            config,
            outcomes,
        ) == (false, config.max_attempts as nat),
        config.max_attempts == 0 && !outcomes[0] ==> run_attempts(first_state(config), config, outcomes)
            == (false, 1nat),
{
    if outcomes[k] && (forall|j: int| 0 <= j < k ==> !outcomes[j]) && k < config.max_attempts {
        lemma_run_succeeds_from(first_state(config), config, outcomes, k);
    }
    if config.max_attempts >= 1 && config.max_attempts <= outcomes.len() && (forall|j: int|
        0 <= j < config.max_attempts ==> !outcomes[j]) {
        lemma_run_fails_from(first_state(config), config, outcomes, config.max_attempts as int);
    }
}

/// A package whose download failed for good.
#[derive(Debug)]
pub struct FailedDownload {
    pub package: String,
    pub error: DownloadError,
    pub retry_count: u32,
}

/// The outcome of one batch of downloads.
#[derive(Debug)]
pub struct DownloadSummary {
    pub total_packages: usize,
    pub successful: usize,
    pub failed: Vec<FailedDownload>,
    pub duration: Duration,
}

/// How many outcomes are successes.
pub open spec fn successes(outcomes: Seq<(String, Result<(), DownloadError>)>) -> nat
    decreases outcomes.len(),
{
    if outcomes.len() == 0 {
        0
    } else {
        successes(outcomes.drop_last()) + if outcomes.last().1 is Ok {
            1nat
        } else {
            0nat
        }
    }
}

/// The failed packages with their errors, in outcome order.
pub open spec fn failures(outcomes: Seq<(String, Result<(), DownloadError>)>) -> Seq<(String, DownloadError)>
    decreases outcomes.len(),
{
    if outcomes.len() == 0 {
        Seq::empty()
    } else {
        let rest = failures(outcomes.drop_last());
        match outcomes.last().1 {
            Ok(_) => rest,
            Err(e) => rest.push((outcomes.last().0, e)),
        }
    }
}

/// Sums up a batch from each package's final outcome, in the order given:
/// how many ran, how many succeeded, and each failure with its error.
pub fn summarize(outcomes: Vec<(String, Result<(), DownloadError>)>, duration: Duration) -> (r: DownloadSummary)
    ensures
        r.total_packages == outcomes@.len(),
        r.successful == successes(outcomes@),
        r.failed@.map_values(|f: FailedDownload| (f.package, f.error)) == failures(outcomes@),
        forall|i: int| 0 <= i < r.failed@.len() ==> #[trigger] r.failed@[i].retry_count == 0,
        r.duration == duration,
{
    let ghost all = outcomes@;
    let total = outcomes.len();
    let mut rest = outcomes;
    let mut successful: usize = 0;
    let mut failed: Vec<FailedDownload> = Vec::new();
    let mut k: usize = 0;
    while rest.len() > 0
        invariant
            total == all.len(),
            0 <= k <= total,
            rest@ == all.skip(k as int),
            successful == successes(all.take(k as int)),
            successful <= k,
            failed@.map_values(|f: FailedDownload| (f.package, f.error)) == failures(all.take(k as int)),
            forall|i: int| 0 <= i < failed@.len() ==> #[trigger] failed@[i].retry_count == 0,
        decreases rest@.len(),
    {
        let (package, result) = rest.remove(0);
        proof {
            assert(all.take(k + 1).drop_last() =~= all.take(k as int));
            assert(all.take(k + 1).last() == all[k as int]);
            assert(all.skip(k as int)[0] == all[k as int]);
            assert(rest@ =~= all.skip(k + 1));
        }
        let ghost before = failed@.map_values(|f: FailedDownload| (f.package, f.error));
        match result {
            Ok(()) => {
                successful += 1;
            },
            Err(error) => {
                failed.push(FailedDownload { package, error, retry_count: 0 });
                assert(failed@.map_values(|f: FailedDownload| (f.package, f.error)) =~= before.push(
                    (all[k as int].0, all[k as int].1->Err_0),
                ));
            },
        }
        k += 1;
    }
    assert(all.take(k as int) =~= all);
    DownloadSummary { total_packages: total, successful, failed, duration }
}

} // verus!

//! The progress that an "optimize all" shows while its presets train: one
//! entry per preset, and the count of presets whose training has finished.
use vstd::prelude::*;

verus! {

/// What the optimizer is doing.
#[derive(Clone, Copy, Debug, Default, PartialEq, Eq, Structural)]
pub enum ComputeParamsProgressPhase {
    #[default]
    OptimizingFsrsParams,
}

/// The progress of training one preset's parameters.
#[derive(Clone, Copy, Debug, Default)]
pub struct ComputeParamsProgress {
    pub current_iteration: u32,
    pub total_iterations: u32,
    /// Total training targets used by optimizer (long-term + same-day)
    pub reviews: u32,
    /// Targets where delta_t >= 1 day
    pub long_term_reviews: u32,
    /// Targets where delta_t < 1 day
    pub short_term_reviews: u32,
    /// Only used in 'compute all params' case
    pub current_preset: u32,
    /// Only used in 'compute all params' case
    pub total_presets: u32,
    pub phase: ComputeParamsProgressPhase,
}

/// The progress of all the presets of one "optimize all".
#[derive(Debug)]
pub struct ComputeAllParamsProgress {
    pub current_iteration: u32,
    pub total_iterations: u32,
    pub presets: Vec<ComputeAllParamsPresetProgress>,
}

/// The progress of one preset of an "optimize all".
#[derive(Debug)]
pub struct ComputeAllParamsPresetProgress {
    pub name: String,
    pub current_iteration: u32,
    pub total_iterations: u32,
    pub reviews: u32,
    pub long_term_reviews: u32,
    pub short_term_reviews: u32,
    pub finished: bool,
    pub skipped: bool,
    pub phase: ComputeParamsProgressPhase,
}

/// What the progress thread reads of one training job: which entry it
/// updates, the trainer's iterations so far and in all, and whether the job
/// is done.
#[derive(Clone, Copy, Debug)]
pub struct BatchJobProgress {
    pub progress_index: usize,
    pub current: usize,
    pub total: usize,
    pub done: bool,
}

/// The count of presets that finished training (those skipped for want of
/// reviews do not count).
pub open spec fn trained_count(presets: Seq<ComputeAllParamsPresetProgress>) -> nat
    decreases presets.len(),
{
    if presets.len() == 0 {
        0
    } else {
        trained_count(presets.drop_last()) + if presets.last().finished && !presets.last().skipped {
            1nat
        } else {
            0nat
        }
    }
}

/// A preset's entry before training: its review counts (cut to 32 bits),
/// and, where it has no reviews, finished and skipped at once.
pub fn batch_preset_progress(name: String, total_targets: usize, long_term_targets: usize, short_term_targets: usize) -> (entry: ComputeAllParamsPresetProgress)
    ensures
        entry.name@ == name@,
        entry.reviews == total_targets as u32,
        entry.long_term_reviews == long_term_targets as u32,
        entry.short_term_reviews == short_term_targets as u32,
        entry.current_iteration == 0 && entry.total_iterations == 0,
        entry.finished == (total_targets == 0),
        entry.skipped == (total_targets == 0),
        entry.phase == ComputeParamsProgressPhase::OptimizingFsrsParams,
{
    let skipped = total_targets == 0;
    ComputeAllParamsPresetProgress {
        name,
        current_iteration: 0,
        total_iterations: 0,
        reviews: total_targets as u32,
        long_term_reviews: long_term_targets as u32,
        short_term_reviews: short_term_targets as u32,
        finished: skipped,
        skipped,
        phase: ComputeParamsProgressPhase::OptimizingFsrsParams,
    }
}

/// How many presets finished training.
pub fn trained_presets(presets: &Vec<ComputeAllParamsPresetProgress>) -> (count: usize)
    ensures
        count == trained_count(presets@),
{
    let mut count: usize = 0;
    let mut i: usize = 0;
    while i < presets.len()
        invariant
            i <= presets@.len(),
            count == trained_count(presets@.take(i as int)),
            count <= i,
        decreases presets@.len() - i,
    {
        assert(presets@.take(i + 1).drop_last() =~= presets@.take(i as int));
        if presets[i].finished && !presets[i].skipped {
            count = count + 1;
        }
        i = i + 1;
    }
    assert(presets@.take(i as int) =~= presets@);
    count
}

/// The progress shown when the training starts.
pub fn batch_progress_start(presets: Vec<ComputeAllParamsPresetProgress>, total_optimizer_jobs: u32) -> (progress: ComputeAllParamsProgress)
    ensures
        progress.current_iteration == trained_count(presets@) as u32,
        progress.total_iterations == total_optimizer_jobs,
        progress.presets@ == presets@,
{
    let count = trained_presets(&presets);
    ComputeAllParamsProgress { current_iteration: count as u32, total_iterations: total_optimizer_jobs, presets }
}

/// The last job, among the first `n`, that updates entry `index`.
pub open spec fn last_job_for(jobs: Seq<BatchJobProgress>, index: int, n: nat) -> Option<BatchJobProgress>
    decreases n,
{
    if n == 0 {
        None
    } else if jobs[n - 1].progress_index == index {
        Some(jobs[n - 1])
    } else {
        last_job_for(jobs, index, (n - 1) as nat)
    }
}

/// An entry after the progress thread read its job: the trainer's
/// iterations (cut to 32 bits) and whether the job is done.
pub open spec fn entry_after(entry: ComputeAllParamsPresetProgress, job: Option<BatchJobProgress>) -> ComputeAllParamsPresetProgress {
    match job {
        None => entry,
        Some(j) => ComputeAllParamsPresetProgress {
            current_iteration: j.current as u32,
            total_iterations: j.total as u32,
            finished: j.done,
            ..entry
        },
    }
}

/// One pass of the progress thread: each job's entry takes the job's
/// iterations and whether it is done, and the count of finished presets is
/// taken again.
pub fn update_batch_progress(state: &mut ComputeAllParamsProgress, total_optimizer_jobs: u32, jobs: &Vec<BatchJobProgress>)
    requires
        forall|k: int| 0 <= k < jobs@.len() ==> (#[trigger] jobs@[k]).progress_index < old(state).presets@.len(),
    ensures
        final(state).presets@.len() == old(state).presets@.len(),
        forall|i: int|
            0 <= i < old(state).presets@.len() ==> #[trigger] final(state).presets@[i] == entry_after(
                old(state).presets@[i],
                last_job_for(jobs@, i, jobs@.len()),
            ),
        final(state).current_iteration == trained_count(final(state).presets@) as u32,
        final(state).total_iterations == total_optimizer_jobs,
{
    state.total_iterations = total_optimizer_jobs;
    let ghost before = state.presets@;
    let mut k: usize = 0;
    while k < jobs.len()
        invariant
            k <= jobs@.len(),
            state.presets@.len() == before.len(),
            forall|j: int| 0 <= j < jobs@.len() ==> (#[trigger] jobs@[j]).progress_index < before.len(),
            forall|i: int|
                0 <= i < before.len() ==> #[trigger] state.presets@[i] == entry_after(
                    before[i],
                    last_job_for(jobs@, i, k as nat),
                ),
            state.total_iterations == total_optimizer_jobs,
        decreases jobs@.len() - k,
    {
        let job = jobs[k];
        let index = job.progress_index;
        let mut entry = state.presets.remove(index);
        entry.current_iteration = job.current as u32;
        entry.total_iterations = job.total as u32;
        entry.finished = job.done;
        state.presets.insert(index, entry);
        proof {
            assert forall|i: int| 0 <= i < before.len() implies #[trigger] state.presets@[i] == entry_after(
                before[i],
                last_job_for(jobs@, i, (k + 1) as nat),
            ) by {
                if i != index as int {
                    assert(last_job_for(jobs@, i, (k + 1) as nat) == last_job_for(jobs@, i, k as nat));
                }
            }
        }
        k = k + 1;
    }
    let count = trained_presets(&state.presets);
    state.current_iteration = count as u32;
}

} // verus!

use vstd::prelude::*;

use crate::collection::Collection;
use crate::queue::model::DeckConfig;

verus! {

/// "Optimize every N days" when the preset has never been given a value.
pub const DEFAULT_FSRS_AUTO_OPTIMIZE_DAYS: u32 = 7;

pub open spec fn spec_auto_optimize_days(config: DeckConfig) -> u32 {
    match config.fsrs_auto_optimize_days {
        Some(days) => days,
        None => DEFAULT_FSRS_AUTO_OPTIMIZE_DAYS,
    }
}

/// The preset is due for an automatic optimization on `today`: it has a
/// period, and it was never optimized or the period has passed since.
pub open spec fn spec_auto_optimize_due(config: DeckConfig, today: u32) -> bool {
    let days = spec_auto_optimize_days(config);
    days != 0 && match config.fsrs_last_optimized_day {
        None => true,
        Some(last) => (if today >= last { today - last } else { 0 }) >= days,
    }
}

impl DeckConfig {
    /// Days between two automatic optimizations; 0 means never.
    pub fn fsrs_auto_optimize_days(&self) -> (days: u32)
        ensures
            days == spec_auto_optimize_days(*self),
    {
        match self.fsrs_auto_optimize_days {
            Some(days) => days,
            None => DEFAULT_FSRS_AUTO_OPTIMIZE_DAYS,
        }
    }

    /// Whether the preset is due for an automatic optimization on `today`.
    pub fn fsrs_auto_optimize_due(&self, today: u32) -> (due: bool)
        ensures
            due == spec_auto_optimize_due(*self, today),
    {
        let days = self.fsrs_auto_optimize_days();
        if days == 0 {
            return false;
        }
        match self.fsrs_last_optimized_day {
            None => true,
            Some(last) => today.saturating_sub(last) >= days,
        }
    }
}

/// The preset as it was read for an optimization. A save in between
/// changes the time or the parameters, and the result is then dropped.
#[derive(Clone, Debug, PartialEq, Eq)]
pub struct FsrsAutoOptimizeJobKey {
    pub preset: i64,
    pub preset_mtime: i64,
    pub params: Vec<u32>,
}

pub open spec fn spec_key_of(config: DeckConfig) -> FsrsAutoOptimizeJobKey {
    FsrsAutoOptimizeJobKey { preset: config.id, preset_mtime: config.mtime_secs, params: config.fsrs_params }
}

/// A copy of the parameters.
fn copy_params(params: &Vec<u32>) -> (copy: Vec<u32>)
    ensures
        copy@ == params@,
{
    let mut copy: Vec<u32> = Vec::new();
    let mut i: usize = 0;
    while i < params.len()
        invariant
            i <= params@.len(),
            copy@ == params@.subrange(0, i as int),
        decreases params@.len() - i,
    {
        copy.push(params[i]);
        proof {
            assert(params@.subrange(0, i + 1 as int) =~= copy@);
        }
        i = i + 1;
    }
    proof {
        assert(params@.subrange(0, params@.len() as int) =~= copy@);
    }
    copy
}

/// The single-precision number with these bits is not a number.
pub open spec fn f32_bits_nan(bits: u32) -> bool {
    (bits & 0x7f80_0000u32) == 0x7f80_0000u32 && (bits & 0x007f_ffffu32) != 0
}

/// The single-precision numbers with these bits compare equal: both zero
/// (of either sign), or the same number.
pub open spec fn f32_bits_eq(a: u32, b: u32) -> bool {
    ((a & 0x7fff_ffffu32) == 0 && (b & 0x7fff_ffffu32) == 0) || (a == b && !f32_bits_nan(a))
}

/// Two parameter lists (the bits of single-precision numbers) compare
/// equal: as long, each number equal to its counterpart.
pub open spec fn same_param_values(a: Seq<u32>, b: Seq<u32>) -> bool {
    a.len() == b.len() && forall|i: int| 0 <= i < a.len() ==> #[trigger] f32_bits_eq(a[i], b[i])
}

/// Comparing parameter lists is symmetric.
pub proof fn lemma_same_param_values_symmetric(a: Seq<u32>, b: Seq<u32>)
    ensures
        same_param_values(a, b) == same_param_values(b, a),
{
    if same_param_values(a, b) {
        assert forall|i: int| 0 <= i < b.len() implies #[trigger] f32_bits_eq(b[i], a[i]) by {
            assert(f32_bits_eq(a[i], b[i]));
        }
    }
    if same_param_values(b, a) {
        assert forall|i: int| 0 <= i < a.len() implies #[trigger] f32_bits_eq(a[i], b[i]) by {
            assert(f32_bits_eq(b[i], a[i]));
        }
    }
}

/// Whether two single-precision numbers, given by their bits, compare
/// equal.
fn f32_bits_equal(a: u32, b: u32) -> (same: bool)
    ensures
        same == f32_bits_eq(a, b),
{
    ((a & 0x7fff_ffffu32) == 0 && (b & 0x7fff_ffffu32) == 0) || (a == b && !((a & 0x7f80_0000u32) == 0x7f80_0000u32
        && (a & 0x007f_ffffu32) != 0))
}

/// Whether two parameter lists compare equal.
pub(crate) fn same_params(a: &Vec<u32>, b: &Vec<u32>) -> (same: bool)
    ensures
        same == same_param_values(a@, b@),
{
    if a.len() != b.len() {
        return false;
    }
    let mut i: usize = 0;
    while i < a.len()
        invariant
            i <= a@.len(),
            a@.len() == b@.len(),
            forall|j: int| 0 <= j < i ==> #[trigger] f32_bits_eq(a@[j], b@[j]),
        decreases a@.len() - i,
    {
        if !f32_bits_equal(a[i], b[i]) {
            return false;
        }
        i = i + 1;
    }
    true
}

impl FsrsAutoOptimizeJobKey {
    /// The key of a preset as it is now.
    pub fn of(config: &DeckConfig) -> (key: FsrsAutoOptimizeJobKey)
        ensures
            key.preset == config.id,
            key.preset_mtime == config.mtime_secs,
            key.params@ == config.fsrs_params@,
    {
        FsrsAutoOptimizeJobKey { preset: config.id, preset_mtime: config.mtime_secs, params: copy_params(&config.fsrs_params) }
    }

    /// The preset is still as it was read.
    pub fn matches(&self, config: &DeckConfig) -> (same: bool)
        ensures
            same == (self.preset == config.id && self.preset_mtime == config.mtime_secs && same_param_values(
                self.params@,
                config.fsrs_params@,
            )),
    {
        self.preset == config.id && self.preset_mtime == config.mtime_secs && same_params(&self.params, &config.fsrs_params)
    }
}

/// Some preset with this id is due.
pub open spec fn is_due_preset(configs: Seq<DeckConfig>, id: i64, today: u32) -> bool {
    exists|i: int| 0 <= i < configs.len() && #[trigger] configs[i].id == id && spec_auto_optimize_due(configs[i], today)
}

/// `ids` sorted, smallest first.
pub open spec fn is_sorted_ids(ids: Seq<i64>) -> bool {
    forall|i: int, j: int| 0 <= i < j < ids.len() ==> ids[i] <= ids[j]
}

impl Collection {
    /// Automatic optimization runs where FSRS is on.
    pub fn auto_optimize_applies(&self) -> (applies: bool)
        ensures
            applies == self.fsrs,
    {
        self.fsrs
    }

    /// The presets due for an automatic optimization on `today`, smallest
    /// id first; none where FSRS is off.
    pub fn fsrs_presets_due_for_auto_optimize(&self, today: u32) -> (due: Vec<i64>)
        ensures
            !self.fsrs ==> due@.len() == 0,
            is_sorted_ids(due@),
            self.fsrs ==> forall|i: int|
                0 <= i < self.configs@.len() && spec_auto_optimize_due(#[trigger] self.configs@[i], today)
                    ==> due@.contains(self.configs@[i].id),
            forall|k: int| 0 <= k < due@.len() ==> is_due_preset(self.configs@, #[trigger] due@[k], today),
    {
        let mut due: Vec<i64> = Vec::new();
        if !self.auto_optimize_applies() {
            return due;
        }
        let mut i: usize = 0;
        while i < self.configs.len()
            invariant
                i <= self.configs@.len(),
                is_sorted_ids(due@),
                forall|m: int|
                    0 <= m < i && spec_auto_optimize_due(#[trigger] self.configs@[m], today) ==> due@.contains(
                        self.configs@[m].id,
                    ),
                forall|k: int| 0 <= k < due@.len() ==> is_due_preset(self.configs@, #[trigger] due@[k], today),
            decreases self.configs@.len() - i,
        {
            if self.configs[i].fsrs_auto_optimize_due(today) {
                let id = self.configs[i].id;
                // after every id not above it
                let mut pos: usize = due.len();
                while pos > 0 && due[pos - 1] > id
                    invariant
                        pos <= due@.len(),
                        forall|k: int| pos <= k < due@.len() ==> due@[k] > id,
                    decreases pos,
                {
                    pos = pos - 1;
                }
                let ghost before = due@;
                due.insert(pos, id);
                proof {
                    assert(due@ == before.insert(pos as int, id));
                    assert forall|a: int, b: int| 0 <= a < b < due@.len() implies due@[a] <= due@[b] by {
                        if b < pos {
                            assert(due@[a] == before[a] && due@[b] == before[b]);
                        } else if b == pos {
                            assert(due@[a] == before[a]);
                            if pos > 0 {
                                assert(before[pos - 1] <= id);
                                assert(before[a] <= before[pos - 1]);
                            }
                        } else if a < pos {
                            assert(due@[a] == before[a] && due@[b] == before[b - 1]);
                        } else if a == pos {
                            assert(due@[b] == before[b - 1]);
                        } else {
                            assert(due@[a] == before[a - 1] && due@[b] == before[b - 1]);
                        }
                    }
                    assert forall|m: int|
                        0 <= m <= i && spec_auto_optimize_due(#[trigger] self.configs@[m], today) implies due@.contains(
                        self.configs@[m].id,
                    ) by {
                        if m < i {
                            let w = choose|w: int| 0 <= w < before.len() && before[w] == self.configs@[m].id;
                            if w < pos {
                                assert(due@[w] == before[w]);
                            } else {
                                assert(due@[w + 1] == before[w]);
                            }
                        } else {
                            assert(due@[pos as int] == id);
                        }
                    }
                    assert forall|k: int| 0 <= k < due@.len() implies is_due_preset(self.configs@, #[trigger] due@[k], today) by {
                        if k < pos {
                            assert(due@[k] == before[k]);
                        } else if k == pos {
                            assert(self.configs@[i as int].id == due@[k]);
                        } else {
                            assert(due@[k] == before[k - 1]);
                        }
                    }
                }
            }
            i = i + 1;
        }
        due
    }

    /// Saves trained parameters as a save of the preset would, where the
    /// preset is still as it was read: records `today` as the day it was
    /// optimized, and takes the parameters where there were reviews to train
    /// on and they differ. Returns whether the parameters changed; false,
    /// and nothing changes, where the preset is gone or was saved meanwhile.
    pub fn apply_fsrs_auto_optimize(&mut self, key: &FsrsAutoOptimizeJobKey, params: Vec<u32>, fsrs_items: u32, today: u32) -> (changed: bool)
        ensures
            *final(self) == (Collection { configs: final(self).configs, ..*old(self) }),
            final(self).configs@.len() == old(self).configs@.len(),
            forall|i: int| 0 <= i < old(self).configs@.len() ==> #[trigger] final(self).configs@[i] == if takes_result(
                old(self).configs@,
                i,
                *key,
            ) {
                optimized_config(old(self).configs@[i], params, fsrs_items, today)
            } else {
                old(self).configs@[i]
            },
            changed == exists|i: int| 0 <= i < old(self).configs@.len() && #[trigger] takes_result(old(self).configs@, i, *key)
                && fsrs_items > 0 && !same_param_values(params@, old(self).configs@[i].fsrs_params@),
    {
        let mut i: usize = 0;
        while i < self.configs.len()
            invariant
                i <= self.configs@.len(),
                *self == *old(self),
                forall|j: int| 0 <= j < i ==> #[trigger] self.configs@[j].id != key.preset,
            decreases self.configs@.len() - i,
        {
            if self.configs[i].id == key.preset {
                proof {
                    assert forall|j: int| 0 <= j < self.configs@.len() && j != i implies !#[trigger] takes_result(
                        self.configs@,
                        j,
                        *key,
                    ) by {
                        if j > i {
                            assert(self.configs@[i as int].id == key.preset);
                        }
                    }
                }
                if !key.matches(&self.configs[i]) {
                    proof {
                        assert(!takes_result(self.configs@, i as int, *key));
                    }
                    return false;
                }
                let ghost before = self.configs@;
                let mut config = self.configs.remove(i);
                let changed = fsrs_items > 0 && !same_params(&params, &config.fsrs_params);
                config.fsrs_last_optimized_day = Some(today);
                if changed {
                    config.fsrs_params = params;
                }
                self.configs.insert(i, config);
                proof {
                    assert(takes_result(before, i as int, *key));
                    assert(self.configs@ =~= before.update(i as int, optimized_config(before[i as int], params, fsrs_items, today)));
                }
                return changed;
            }
            i = i + 1;
        }
        false
    }
}

/// The preset at `i` is the first with the key's id, and is still as the
/// key read it: the result goes there.
pub open spec fn takes_result(configs: Seq<DeckConfig>, i: int, key: FsrsAutoOptimizeJobKey) -> bool {
    &&& configs[i].id == key.preset
    &&& forall|j: int| 0 <= j < i ==> #[trigger] configs[j].id != key.preset
    &&& key.preset_mtime == configs[i].mtime_secs
    &&& same_param_values(key.params@, configs[i].fsrs_params@)
}

/// The preset after an optimization: optimized today, with the new
/// parameters where there were reviews to train on and they differ.
pub open spec fn optimized_config(config: DeckConfig, params: Vec<u32>, fsrs_items: u32, today: u32) -> DeckConfig {
    DeckConfig {
        fsrs_last_optimized_day: Some(today),
        fsrs_params: if fsrs_items > 0 && !same_param_values(params@, config.fsrs_params@) {
            params
        } else {
            config.fsrs_params
        },
        ..config
    }
}

} // verus!

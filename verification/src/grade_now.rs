//! Grade Now: answering chosen cards at once with one rating. Which of each
//! card's options applies, whether its scheduling states come from the caller
//! or must be computed, and which of the states the rating takes.
use vstd::prelude::*;

verus! {

/// The answer Grade Now gives every card.
#[derive(Clone, Copy, Debug, PartialEq, Eq, Structural)]
pub enum GradeNowRating {
    Again,
    Hard,
    Good,
    Easy,
}

/// Why Grade Now answers no card.
#[derive(Clone, Copy, Debug, PartialEq, Eq, Structural)]
pub enum GradeNowError {
    /// The scheduler needs the caller's states, and this card came without.
    StatesRequired { card_id: i64 },
    /// The rating is none of the four.
    InvalidRating,
}

/// How one card is answered: the options entry that applies (by its
/// position in the request; none where the card has none left), whether its
/// states come with those options, and the rating.
#[derive(Clone, Copy, Debug, PartialEq, Eq, Structural)]
pub struct GradeNowStep {
    pub card_id: i64,
    pub options: Option<usize>,
    pub states_supplied: bool,
    pub rating: GradeNowRating,
}

/// The rating a request's number stands for.
pub open spec fn spec_rating(rating: i32) -> Option<GradeNowRating> {
    if rating == 0 {
        Some(GradeNowRating::Again)
    } else if rating == 1 {
        Some(GradeNowRating::Hard)
    } else if rating == 2 {
        Some(GradeNowRating::Good)
    } else if rating == 3 {
        Some(GradeNowRating::Easy)
    } else {
        None
    }
}

/// The last options entry, among the first `n`, for a card: later entries
/// for the same card replace earlier ones.
pub open spec fn last_options_for(options: Seq<(i64, bool)>, card_id: i64, n: nat) -> Option<int>
    decreases n,
{
    if n == 0 {
        None
    } else if options[n - 1].0 == card_id {
        Some(n - 1)
    } else {
        last_options_for(options, card_id, (n - 1) as nat)
    }
}

/// Whether the `k`th card was chosen before, which used up its options.
pub open spec fn chosen_before(card_ids: Seq<i64>, k: int) -> bool {
    exists|j: int| 0 <= j < k && card_ids[j] == card_ids[k]
}

/// The options entry that applies to the `k`th card.
pub open spec fn step_options(card_ids: Seq<i64>, options: Seq<(i64, bool)>, k: int) -> Option<int> {
    if chosen_before(card_ids, k) {
        None
    } else {
        last_options_for(options, card_ids[k], options.len())
    }
}

/// Whether the `k`th card's states come from the caller.
pub open spec fn step_supplied(card_ids: Seq<i64>, options: Seq<(i64, bool)>, k: int) -> bool {
    match step_options(card_ids, options, k) {
        Some(i) => options[i].1,
        None => false,
    }
}

/// Whether the `k`th card is refused for want of the caller's states.
pub open spec fn step_refused(card_ids: Seq<i64>, options: Seq<(i64, bool)>, states_required: bool, k: int) -> bool {
    states_required && !step_supplied(card_ids, options, k)
}

/// The first card, among the first `n`, that is refused.
pub open spec fn first_refused(card_ids: Seq<i64>, options: Seq<(i64, bool)>, states_required: bool, n: nat) -> Option<int>
    decreases n,
{
    if n == 0 {
        None
    } else {
        match first_refused(card_ids, options, states_required, (n - 1) as nat) {
            Some(k) => Some(k),
            None => if step_refused(card_ids, options, states_required, n - 1) {
                Some(n - 1)
            } else {
                None
            },
        }
    }
}

/// What stops Grade Now: the cards are taken in order, each first checked
/// for its states and then for the rating, so a bad rating shows at the
/// first card.
pub open spec fn grade_now_error(card_ids: Seq<i64>, options: Seq<(i64, bool)>, rating: i32, states_required: bool) -> Option<GradeNowError> {
    if card_ids.len() == 0 {
        None
    } else if spec_rating(rating) is None {
        if step_refused(card_ids, options, states_required, 0) {
            Some(GradeNowError::StatesRequired { card_id: card_ids[0] })
        } else {
            Some(GradeNowError::InvalidRating)
        }
    } else {
        match first_refused(card_ids, options, states_required, card_ids.len()) {
            Some(k) => Some(GradeNowError::StatesRequired { card_id: card_ids[k] }),
            None => None,
        }
    }
}

proof fn lemma_last_options_in_range(options: Seq<(i64, bool)>, card_id: i64, n: nat)
    requires
        n <= options.len(),
    ensures
        last_options_for(options, card_id, n) matches Some(i) ==> 0 <= i < n && options[i].0 == card_id,
    decreases n,
{
    if n > 0 {
        lemma_last_options_in_range(options, card_id, (n - 1) as nat);
    }
}

proof fn lemma_first_refused_stays(card_ids: Seq<i64>, options: Seq<(i64, bool)>, states_required: bool, m: nat, n: nat)
    requires
        m <= n,
        first_refused(card_ids, options, states_required, m) is Some,
    ensures
        first_refused(card_ids, options, states_required, n) == first_refused(card_ids, options, states_required, m),
    decreases n - m,
{
    if m < n {
        lemma_first_refused_stays(card_ids, options, states_required, m, (n - 1) as nat);
    }
}

fn last_options_index(options: &Vec<(i64, bool)>, card_id: i64) -> (found: Option<usize>)
    ensures
        match last_options_for(options@, card_id, options@.len()) {
            Some(i) => found == Some(i as usize),
            None => found is None,
        },
        found matches Some(i) ==> i < options@.len(),
{
    let mut n: usize = options.len();
    while n > 0
        invariant
            n <= options@.len(),
            last_options_for(options@, card_id, options@.len()) == last_options_for(options@, card_id, n as nat),
        decreases n,
    {
        if options[n - 1].0 == card_id {
            return Some(n - 1);
        }
        n = n - 1;
    }
    None
}

fn is_chosen_before(card_ids: &Vec<i64>, k: usize) -> (before: bool)
    requires
        k < card_ids@.len(),
    ensures
        before == chosen_before(card_ids@, k as int),
{
    let mut j: usize = 0;
    while j < k
        invariant
            j <= k < card_ids@.len(),
            forall|i: int| 0 <= i < j ==> card_ids@[i] != card_ids@[k as int],
        decreases k - j,
    {
        if card_ids[j] == card_ids[k] {
            return true;
        }
        j = j + 1;
    }
    false
}

fn rating_of(rating: i32) -> (chosen: Option<GradeNowRating>)
    ensures
        chosen == spec_rating(rating),
{
    if rating == 0 {
        Some(GradeNowRating::Again)
    } else if rating == 1 {
        Some(GradeNowRating::Hard)
    } else if rating == 2 {
        Some(GradeNowRating::Good)
    } else if rating == 3 {
        Some(GradeNowRating::Easy)
    } else {
        None
    }
}

/// How Grade Now answers the cards, in order; each options entry is given
/// as its card's id and whether it carries scheduling states. Either every
/// card is answered or none is.
pub fn grade_now_plan(card_ids: &Vec<i64>, options: &Vec<(i64, bool)>, rating: i32, states_required: bool) -> (plan: Result<Vec<GradeNowStep>, GradeNowError>)
    ensures
        match grade_now_error(card_ids@, options@, rating, states_required) {
            Some(e) => plan == Err::<Vec<GradeNowStep>, GradeNowError>(e),
            None => plan is Ok,
        },
        plan matches Ok(steps) ==> {
            &&& steps@.len() == card_ids@.len()
            &&& forall|k: int|
                0 <= k < steps@.len() ==> #[trigger] steps@[k] == (GradeNowStep {
                    card_id: card_ids@[k],
                    options: match step_options(card_ids@, options@, k) {
                        Some(i) => Some(i as usize),
                        None => None,
                    },
                    states_supplied: step_supplied(card_ids@, options@, k),
                    rating: spec_rating(rating)->0,
                })
        },
{
    let chosen = rating_of(rating);
    let mut steps: Vec<GradeNowStep> = Vec::new();
    let mut k: usize = 0;
    while k < card_ids.len()
        invariant
            k <= card_ids@.len(),
            chosen == spec_rating(rating),
            k > 0 ==> chosen is Some,
            first_refused(card_ids@, options@, states_required, k as nat) is None,
            steps@.len() == k,
            forall|j: int|
                0 <= j < k ==> #[trigger] steps@[j] == (GradeNowStep {
                    card_id: card_ids@[j],
                    options: match step_options(card_ids@, options@, j) {
                        Some(i) => Some(i as usize),
                        None => None,
                    },
                    states_supplied: step_supplied(card_ids@, options@, j),
                    rating: spec_rating(rating)->0,
                }),
        decreases card_ids@.len() - k,
    {
        let card_id = card_ids[k];
        let entry = if is_chosen_before(card_ids, k) {
            None
        } else {
            last_options_index(options, card_id)
        };
        proof {
            lemma_last_options_in_range(options@, card_id, options@.len());
        }
        let supplied = match entry {
            Some(i) => options[i].1,
            None => false,
        };
        assert(entry == match step_options(card_ids@, options@, k as int) {
            Some(i) => Some(i as usize),
            None => None,
        });
        proof {
            if let Some(i) = step_options(card_ids@, options@, k as int) {
                assert(0 <= i < options@.len());
                assert(options@.len() == options.len());
                assert(entry == Some(i as usize));
                assert(options@[(i as usize) as int] == options@[i]);
            }
        }
        assert(supplied == step_supplied(card_ids@, options@, k as int));
        if states_required && !supplied {
            proof {
                assert(first_refused(card_ids@, options@, states_required, (k + 1) as nat) == Some(k as int));
                lemma_first_refused_stays(card_ids@, options@, states_required, (k + 1) as nat, card_ids@.len());
            }
            return Err(GradeNowError::StatesRequired { card_id });
        }
        let r = match chosen {
            Some(r) => r,
            None => {
                return Err(GradeNowError::InvalidRating);
            },
        };
        let step = GradeNowStep { card_id, options: entry, states_supplied: supplied, rating: r };
        assert(step == (GradeNowStep {
            card_id: card_ids@[k as int],
            options: match step_options(card_ids@, options@, k as int) {
                Some(i) => Some(i as usize),
                None => None,
            },
            states_supplied: step_supplied(card_ids@, options@, k as int),
            rating: spec_rating(rating)->0,
        }));
        steps.push(step);
        k = k + 1;
    }
    Ok(steps)
}

} // verus!

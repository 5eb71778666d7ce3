use crate::data_structures::pseudo_float::PseudoFloat;
use rand::seq::SliceRandom;
use vstd::prelude::*;

verus! {

/// Why nothing could be selected.
#[derive(Clone, Copy, Debug, PartialEq, Eq, Structural)]
pub enum SelectError {
    /// There is nothing to select from.
    NoItem,
    /// A score is negative.
    InvalidWeight,
    /// Every score is zero.
    AllWeightsZero,
    /// There are too many items.
    TooMany,
}

/// Whether some score of `objects` is negative.
pub open spec fn some_negative<T>(objects: Seq<(T, PseudoFloat)>) -> bool {
    exists|i: int| 0 <= i < objects.len() && (#[trigger] objects[i]).1@ < 0
}

/// Whether some score of `objects` is positive.
pub open spec fn some_positive<T>(objects: Seq<(T, PseudoFloat)>) -> bool {
    exists|i: int| 0 <= i < objects.len() && (#[trigger] objects[i]).1@ > 0
}

/// Whether something can be selected from `objects`: there is a
/// positive score and no negative one.
pub open spec fn selectable<T>(objects: Seq<(T, PseudoFloat)>) -> bool {
    some_positive(objects) && !some_negative(objects)
}

/// Why nothing can be selected from `objects` that are not selectable.
pub open spec fn select_error<T>(objects: Seq<(T, PseudoFloat)>) -> SelectError {
    if objects.len() == 0 {
        SelectError::NoItem
    } else if some_negative(objects) {
        SelectError::InvalidWeight
    } else {
        SelectError::AllWeightsZero
    }
}

/// The sum of the first `n` scores, in units.
pub open spec fn score_sum<T>(objects: Seq<(T, PseudoFloat)>, n: int) -> int
    decreases n,
{
    if n <= 0 {
        0
    } else {
        score_sum(objects, n - 1) + objects[n - 1].1@
    }
}

/// Values with scores, from which one is selected at random with a
/// chance in proportion to its score.
///
/// The view is the list of the values with their scores. The sum of the
/// scores, which is kept beside the list, is no part of it: in a selector
/// that is in order it is the sum that the list gives.
#[derive(Clone, Debug)]
pub struct RandomSelector<T> {
    objects: Vec<(T, PseudoFloat)>,
    total_score: i128,
}

impl<T> View for RandomSelector<T> {
    type V = Seq<(T, PseudoFloat)>;

    closed spec fn view(&self) -> Seq<(T, PseudoFloat)> {
        self.objects@
    }
}

/// The score of an item as a wide number, so that the sum of all scores
/// cannot overflow.
pub fn wide_score<T>(item: &(T, PseudoFloat)) -> (score: i128)
    ensures
        score == item.1@,
{
    item.1.units as i128
}

/// Calls `SliceRandom::choose_weighted` of `rand` on the items, with
/// their scores as weights and the generator of the current thread.
///
/// `rand` documents that it fails on no items, on a negative weight and
/// on weights that are all zero, each with an error of its own, and that
/// it otherwise returns one of the items, never one of weight zero. Its
/// four kinds of error are handed on under the same names.
#[verifier::external_body]
fn choose_weighted<T>(objects: &Vec<(T, PseudoFloat)>) -> (chosen: Result<
    &(T, PseudoFloat),
    SelectError,
>)
    ensures
        chosen is Ok ==> selectable(objects@) && exists|i: int|
            0 <= i < objects@.len() && #[trigger] objects@[i] == *chosen.unwrap()
                && objects@[i].1@ > 0,
        chosen is Err ==> !selectable(objects@) && chosen->Err_0 == select_error(objects@),
{
    match objects.choose_weighted(&mut rand::thread_rng(), |item| wide_score(item)) {
        Ok(item) => Ok(item),
        Err(rand::distributions::WeightedError::NoItem) => Err(SelectError::NoItem),
        Err(rand::distributions::WeightedError::InvalidWeight) => Err(SelectError::InvalidWeight),
        Err(rand::distributions::WeightedError::AllWeightsZero) => Err(
            SelectError::AllWeightsZero,
        ),
        Err(rand::distributions::WeightedError::TooMany) => Err(SelectError::TooMany),
    }
}

impl<T> RandomSelector<T> {
    /// The sum of the scores is kept beside the items.
    pub closed spec fn wf(&self) -> bool {
        &&& self.total_score == score_sum(self.objects@, self.objects@.len() as int)
        &&& -0x8000_0000_0000_0000 * self.objects@.len() <= self.total_score
            <= 0x8000_0000_0000_0000 * self.objects@.len()
    }

    /// The sum of all scores, in units.
    pub closed spec fn total(&self) -> int {
        self.total_score as int
    }

    /// In a selector that is in order the sum that is kept is the sum of
    /// the scores of the list.
    pub proof fn lemma_total(&self)
        requires
            self.wf(),
        ensures
            self.total() == score_sum(self@, self@.len() as int),
    {
    }

    /// A selector without items.
    pub fn new() -> (selector: Self)
        ensures
            selector.wf(),
            selector@ == Seq::<(T, PseudoFloat)>::empty(),
            selector.total() == 0,
    {
        RandomSelector { objects: Vec::new(), total_score: 0 }
    }

    /// Puts `value` with the score `score` behind the other items.
    pub fn add(&mut self, value: T, score: PseudoFloat)
        requires
            old(self).wf(),
        ensures
            final(self).wf(),
            final(self)@ == old(self)@.push((value, score)),
            final(self).total() == old(self).total() + score@,
    {
        let count = self.objects.len();
        proof {
            assert(self.objects@.len() == count);
            assert(self.objects@.push((value, score)).drop_last() =~= self.objects@);
            lemma_score_sum_prefix(self.objects@.push((value, score)), self.objects@, self.objects@.len() as int);
        }
        self.objects.push((value, score));
        self.total_score = self.total_score + score.units as i128;
    }

    /// An item selected at random, with a chance in proportion to its
    /// score, or the reason why none can be selected: see
    /// [`selectable`]. An item of score zero is never selected.
    pub fn random_element(&self) -> (chosen: Result<&(T, PseudoFloat), SelectError>)
        ensures
            chosen is Ok == selectable(self@),
            chosen is Ok ==> exists|i: int|
                0 <= i < self@.len() && #[trigger] self@[i] == *chosen.unwrap() && self@[i].1@ > 0,
            chosen is Err ==> chosen->Err_0 == select_error(self@),
    {
        choose_weighted(&self.objects)
    }

    /// The number of items.
    pub fn len(&self) -> (len: usize)
        ensures
            len == self@.len(),
    {
        self.objects.len()
    }

    /// Whether there is no item.
    pub fn is_empty(&self) -> (empty: bool)
        ensures
            empty == (self@.len() == 0),
    {
        self.objects.len() == 0
    }

    /// Removes every item.
    pub fn clear(&mut self)
        ensures
            final(self).wf(),
            final(self)@ == Seq::<(T, PseudoFloat)>::empty(),
            final(self).total() == 0,
    {
        self.objects.clear();
        self.total_score = 0;
    }

    /// The sum of all scores, in units.
    pub fn total_score(&self) -> (total: i128)
        ensures
            total == self.total(),
    {
        self.total_score
    }
}

impl<T> Default for RandomSelector<T> {
    /// A selector without items.
    fn default() -> (selector: Self)
        ensures
            selector.wf(),
            selector@ == Seq::<(T, PseudoFloat)>::empty(),
            selector.total() == 0,
    {
        RandomSelector::new()
    }
}

/// The sum of the first scores of a list does not depend on what comes
/// behind them.
pub proof fn lemma_score_sum_prefix<T>(
    longer: Seq<(T, PseudoFloat)>,
    shorter: Seq<(T, PseudoFloat)>,
    n: int,
)
    requires
        0 <= n <= shorter.len() <= longer.len(),
        forall|i: int| 0 <= i < shorter.len() ==> longer[i] == shorter[i],
    ensures
        score_sum(longer, n) == score_sum(shorter, n),
    decreases n,
{
    if n > 0 {
        lemma_score_sum_prefix(longer, shorter, n - 1);
    }
}

} // verus!

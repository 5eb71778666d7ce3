use crate::genome::gene::Gene;
use crate::random::random_index;
use std::collections::HashSet;
use vstd::prelude::*;

verus! {

broadcast use vstd::std_specs::hash::group_hash_axioms;

/// The keys of the genes of `genes`.
pub open spec fn keys_of<T: Gene>(genes: Seq<T>) -> Set<u64> {
    Set::new(|key: u64| exists|i: int| 0 <= i < genes.len() && #[trigger] genes[i].identity() == key)
}

/// Whether a gene of `genes` equals `value`.
pub open spec fn holds<T: Gene>(genes: Seq<T>, value: T) -> bool {
    exists|i: int| 0 <= i < genes.len() && (#[trigger] genes[i]).same(&value)
}

/// No two genes of `genes` are equal.
pub open spec fn unique<T: Gene>(genes: Seq<T>) -> bool {
    forall|i: int, j: int|
        0 <= i < genes.len() && 0 <= j < genes.len() && i != j ==> !#[trigger] genes[i].same(
            &genes[j],
        )
}

/// The place of the first gene of `genes` that equals `value`, or the
/// length of `genes` where none does.
pub open spec fn place_of<T: Gene>(genes: Seq<T>, value: T) -> int
    decreases genes.len(),
{
    if genes.len() == 0 {
        0
    } else if genes[0].same(&value) {
        0
    } else {
        1 + place_of(genes.skip(1), value)
    }
}

/// No two genes of `genes` have the same key.
pub open spec fn distinct_keys<T: Gene>(genes: Seq<T>) -> bool {
    forall|i: int, j: int|
        0 <= i < j < genes.len() ==> #[trigger] genes[i].identity() != #[trigger] genes[j].identity()
}

/// The place of the gene with key `key` in `genes`, or the length of
/// `genes` where no gene has that key.
pub open spec fn position_of<T: Gene>(genes: Seq<T>, key: u64) -> int
    decreases genes.len(),
{
    if genes.len() == 0 {
        0
    } else if genes[0].identity() == key {
        0
    } else {
        1 + position_of(genes.skip(1), key)
    }
}

/// Where a gene with innovation number `innovation` goes into `genes`:
/// behind the last gene whose number is not larger.
pub open spec fn insertion_point<T: Gene>(genes: Seq<T>, innovation: u32) -> int
    decreases genes.len(),
{
    if genes.len() == 0 || genes.last().innovation() <= innovation {
        genes.len() as int
    } else {
        insertion_point(genes.drop_last(), innovation)
    }
}

/// The genes of `genes` in their order, without those whose key an
/// earlier gene has.
pub open spec fn gather<T: Gene>(genes: Seq<T>) -> Seq<T>
    decreases genes.len(),
{
    if genes.len() == 0 {
        Seq::empty()
    } else {
        let head = gather(genes.drop_last());
        if keys_of(head).contains(genes.last().identity()) {
            head
        } else {
            head.push(genes.last())
        }
    }
}

/// The innovation numbers of `genes` grow strictly.
pub open spec fn ascending<T: Gene>(genes: Seq<T>) -> bool {
    forall|i: int, j: int|
        0 <= i < j < genes.len() ==> #[trigger] genes[i].innovation() < #[trigger] genes[j].innovation()
}

/// A list of genes in which no gene occurs twice, with a set of the keys
/// of its genes beside it, which tells at once that a gene is not there.
///
/// `contains`, `add`, `add_sorted` and `remove_value` go by the whole
/// gene, as `get` and `==` do: two genes with one key that differ
/// otherwise are two genes, and the collection can hold both.
/// `contains_key` and `index_of` go by the key alone.
///
/// The view is the list. The set of keys is no part of it: in a
/// collection that is in order it holds the keys of the list and no
/// others.
#[derive(Debug)]
pub struct RandomHashSet<T: Gene> {
    set: HashSet<u64>,
    /// The genes, in the order they were put in.
    pub data: Vec<T>,
}

impl<T: Gene> View for RandomHashSet<T> {
    type V = Seq<T>;

    closed spec fn view(&self) -> Seq<T> {
        self.data@
    }
}

impl<T: Gene> RandomHashSet<T> {
    /// The set of keys agrees with the list, and no gene occurs twice.
    pub closed spec fn wf(&self) -> bool {
        &&& self.set@ == keys_of(self.data@)
        &&& unique(self.data@)
    }

    /// In a collection that is in order no gene occurs twice.
    pub proof fn lemma_unique(&self)
        requires
            self.wf(),
        ensures
            unique(self@),
    {
    }

    /// An empty collection.
    pub fn new() -> (set: Self)
        ensures
            set.wf(),
            set@ == Seq::<T>::empty(),
    {
        let set = RandomHashSet { set: HashSet::new(), data: Vec::new() };
        assert(set.set@ =~= keys_of(set.data@));
        set
    }

    /// The place of the first gene that equals `value`, or the number of
    /// genes where none does.
    fn first_equal(&self, value: &T) -> (place: usize)
        ensures
            place == place_of(self@, *value),
            place <= self@.len(),
            (place < self@.len()) == holds(self@, *value),
            place < self@.len() ==> self@[place as int].same(value),
    {
        let mut index: usize = 0;
        while index < self.data.len() && !self.data[index].is_same(value)
            invariant
                index <= self.data.len(),
                forall|i: int| 0 <= i < index ==> !(#[trigger] self.data@[i]).same(value),
            decreases self.data.len() - index,
        {
            index += 1;
        }
        proof {
            lemma_place_of(self.data@, *value, index as int);
        }
        index
    }

    /// Whether a gene that equals `value` is in the collection.
    pub fn contains(&self, value: &T) -> (found: bool)
        requires
            self.wf(),
        ensures
            found == holds(self@, *value),
    {
        let key = value.key();
        if !self.set.contains(&key) {
            proof {
                lemma_held_key(self@, *value);
            }
            return false;
        }
        self.first_equal(value) < self.data.len()
    }

    /// Whether a gene with the key of `value` is in the collection.
    pub fn contains_key(&self, value: &T) -> (found: bool)
        requires
            self.wf(),
        ensures
            found == keys_of(self@).contains(value.identity()),
    {
        let key = value.key();
        self.set.contains(&key)
    }

    /// The gene at `index`, if there is one.
    pub fn get(&self, index: usize) -> (gene: Option<&T>)
        ensures
            index < self@.len() ==> gene == Some(&self@[index as int]),
            index >= self@.len() ==> gene is None,
    {
        if index < self.data.len() {
            Some(&self.data[index])
        } else {
            None
        }
    }

    /// The number of genes.
    pub fn len(&self) -> (len: usize)
        ensures
            len == self@.len(),
    {
        self.data.len()
    }

    /// Whether there is no gene.
    pub fn is_empty(&self) -> (empty: bool)
        ensures
            empty == (self@.len() == 0),
    {
        self.data.len() == 0
    }

    /// Puts `value` behind the other genes unless an equal gene is
    /// already there. Afterwards the collection holds `value`.
    pub fn add(&mut self, value: T)
        requires
            old(self).wf(),
        ensures
            final(self).wf(),
            holds(old(self)@, value) ==> final(self)@ == old(self)@,
            !holds(old(self)@, value) ==> final(self)@ == old(self)@.push(value),
            holds(final(self)@, value),
    {
        if !self.contains(&value) {
            let key = value.key();
            self.set.insert(key);
            self.data.push(value);
            proof {
                let place = old(self)@.len() as int;
                assert(old(self)@.insert(place, value) =~= self.data@);
                lemma_keys_of_insert(old(self)@, place, value);
                lemma_unique_insert(old(self)@, place, value);
                value.lemma_same_both_ways(&value);
                assert(self.data@[place].same(&value));
            }
        }
    }

    /// Puts `value` behind the last gene whose innovation number is not
    /// larger, unless an equal gene is already there. A collection whose
    /// innovation numbers do not fall stays that way. Afterwards the
    /// collection holds `value`.
    pub fn add_sorted(&mut self, value: T)
        requires
            old(self).wf(),
        ensures
            final(self).wf(),
            holds(old(self)@, value) ==> final(self)@ == old(self)@,
            !holds(old(self)@, value) ==> final(self)@ == old(self)@.insert(
                insertion_point(old(self)@, value.innovation()),
                value,
            ),
            holds(final(self)@, value),
    {
        if !self.contains(&value) {
            let key = value.key();
            let place = self.find_place(value.get_innovation_number());
            proof {
                lemma_keys_of_insert(old(self)@, place as int, value);
                lemma_unique_insert(old(self)@, place as int, value);
                value.lemma_same_both_ways(&value);
            }
            self.set.insert(key);
            self.data.insert(place, value);
            assert(self.data@[place as int].same(&value));
        }
    }

    /// Empties the collection.
    pub fn clear(&mut self)
        ensures
            final(self).wf(),
            final(self)@ == Seq::<T>::empty(),
    {
        self.set.clear();
        self.data.clear();
        assert(self.set@ =~= keys_of(self.data@));
    }

    /// Takes out the gene at `index` and says whether there was one.
    pub fn remove_index(&mut self, index: usize) -> (removed: bool)
        requires
            old(self).wf(),
        ensures
            final(self).wf(),
            removed == (index < old(self)@.len()),
            removed ==> final(self)@ == old(self)@.remove(index as int),
            !removed ==> final(self)@ == old(self)@,
    {
        if index < self.data.len() {
            let key = self.data[index].key();
            self.data.remove(index);
            let mut other: usize = 0;
            while other < self.data.len() && self.data[other].key() != key
                invariant
                    other <= self.data.len(),
                    forall|i: int| 0 <= i < other ==> (#[trigger] self.data@[i]).identity() != key,
                decreases self.data.len() - other,
            {
                other += 1;
            }
            if other == self.data.len() {
                self.set.remove(&key);
            }
            proof {
                lemma_keys_of_remove(old(self)@, index as int);
                lemma_unique_remove(old(self)@, index as int);
                if other < self.data@.len() {
                    assert(keys_of(self.data@).contains(self.data@[other as int].identity()));
                } else {
                    assert(!keys_of(self.data@).contains(key));
                }
                assert(self.set@ =~= keys_of(self.data@));
            }
            true
        } else {
            false
        }
    }

    /// Takes out the gene that equals `value` and says whether there was
    /// one.
    pub fn remove_value(&mut self, value: &T) -> (removed: bool)
        requires
            old(self).wf(),
        ensures
            final(self).wf(),
            removed == holds(old(self)@, *value),
            removed ==> final(self)@ == old(self)@.remove(place_of(old(self)@, *value)),
            !removed ==> final(self)@ == old(self)@,
            !holds(final(self)@, *value),
    {
        let place = self.first_equal(value);
        proof {
            if place < self.data@.len() {
                lemma_gone(self.data@, place as int, *value);
            }
        }
        self.remove_index(place)
    }

    /// A place in the collection drawn at random, or nothing where the
    /// collection is empty.
    pub fn random_index(&self) -> (place: Option<usize>)
        ensures
            place is Some == (self@.len() > 0),
            place is Some ==> place.unwrap() < self@.len(),
    {
        if self.data.len() == 0 {
            None
        } else {
            Some(random_index(self.data.len()))
        }
    }

    /// A gene of the collection drawn at random, or nothing where the
    /// collection is empty.
    pub fn random_element(&self) -> (gene: Option<&T>)
        ensures
            gene is Some == (self@.len() > 0),
            gene is Some ==> self@.contains(*gene.unwrap()),
    {
        match self.random_index() {
            Some(place) => Some(&self.data[place]),
            None => None,
        }
    }

    /// Puts `value` in the place of the gene at `index`, which has the
    /// same key, in a collection in which no key occurs twice.
    pub fn replace(&mut self, index: usize, value: T)
        requires
            old(self).wf(),
            distinct_keys(old(self)@),
            index < old(self)@.len(),
            value.identity() == old(self)@[index as int].identity(),
        ensures
            final(self).wf(),
            distinct_keys(final(self)@),
            final(self)@ == old(self)@.update(index as int, value),
    {
        self.data[index] = value;
        proof {
            lemma_keys_update(old(self)@, index as int, value);
            lemma_distinct_keys_unique(self.data@);
        }
    }

    /// Where a gene with the innovation number `innovation` would go.
    pub fn find_place(&self, innovation: u32) -> (place: usize)
        ensures
            place == insertion_point(self@, innovation),
            place <= self@.len(),
    {
        let mut place: usize = self.data.len();
        assert(self.data@.take(place as int) =~= self.data@);
        while place > 0 && self.data[place - 1].get_innovation_number() > innovation
            invariant
                place <= self.data.len(),
                insertion_point(self.data@, innovation) == insertion_point(
                    self.data@.take(place as int),
                    innovation,
                ),
            decreases place,
        {
            proof {
                let head = self.data@.take(place as int);
                assert(head.drop_last() =~= self.data@.take(place - 1));
            }
            place -= 1;
        }
        place
    }

    /// The place of the first gene with the key of `value`, if there is
    /// one.
    pub fn index_of(&self, value: &T) -> (place: Option<usize>)
        requires
            self.wf(),
        ensures
            place is Some == keys_of(self@).contains(value.identity()),
            place is Some ==> place.unwrap() == position_of(self@, value.identity())
                && place.unwrap() < self@.len()
                && self@[place.unwrap() as int].identity() == value.identity(),
    {
        let key = value.key();
        if self.set.contains(&key) {
            let mut index: usize = 0;
            while index < self.data.len() && self.data[index].key() != key
                invariant
                    index <= self.data.len(),
                    keys_of(self.data@).contains(key),
                    forall|i: int| 0 <= i < index ==> (#[trigger] self.data@[i]).identity() != key,
                decreases self.data.len() - index,
            {
                index += 1;
            }
            proof {
                lemma_position_of(self.data@, key, index as int);
            }
            Some(index)
        } else {
            None
        }
    }
}

impl<T: Gene> Default for RandomHashSet<T> {
    /// An empty collection.
    fn default() -> (set: Self)
        ensures
            set.wf(),
            set@ == Seq::<T>::empty(),
    {
        RandomHashSet::new()
    }
}

impl<T: Gene> Clone for RandomHashSet<T> {
    /// A collection of the same genes in the same order.
    fn clone(&self) -> (copy: Self)
        ensures
            copy@ == self@,
            self.wf() ==> copy.wf(),
    {
        let mut copy = RandomHashSet { set: HashSet::new(), data: Vec::new() };
        let mut index: usize = 0;
        assert(copy.set@ =~= keys_of(self.data@.take(0)));
        while index < self.data.len()
            invariant
                index <= self.data.len(),
                copy.data@ == self.data@.take(index as int),
                copy.set@ == keys_of(self.data@.take(index as int)),
            decreases self.data.len() - index,
        {
            let gene = self.data[index];
            copy.set.insert(gene.key());
            copy.data.push(gene);
            proof {
                let before = self.data@.take(index as int);
                let after = self.data@.take(index + 1);
                assert(after =~= before.push(gene));
                assert forall|key: u64| keys_of(after).contains(key) <==> keys_of(before).insert(
                    gene.identity(),
                ).contains(key) by {
                    if keys_of(after).contains(key) {
                        let i = choose|i: int|
                            0 <= i < after.len() && #[trigger] after[i].identity() == key;
                        if i < index {
                            assert(before[i].identity() == key);
                        }
                    }
                    if keys_of(before).contains(key) {
                        let i = choose|i: int|
                            0 <= i < before.len() && #[trigger] before[i].identity() == key;
                        assert(after[i].identity() == key);
                    }
                    if key == gene.identity() {
                        assert(after[index as int].identity() == key);
                    }
                }
                assert(keys_of(after) =~= keys_of(before).insert(gene.identity()));
            }
            index += 1;
        }
        assert(self.data@.take(index as int) =~= self.data@);
        copy
    }
}

/// A list in which no key occurs twice is gathered whole.
pub proof fn lemma_gather_distinct<T: Gene>(genes: Seq<T>)
    requires
        distinct_keys(genes),
    ensures
        gather(genes) == genes,
    decreases genes.len(),
{
    if genes.len() > 0 {
        let head = genes.drop_last();
        lemma_gather_distinct(head);
        if keys_of(head).contains(genes.last().identity()) {
            let i = choose|i: int|
                0 <= i < head.len() && #[trigger] head[i].identity() == genes.last().identity();
            assert(genes[i].identity() == genes[genes.len() - 1].identity());
        }
        assert(head.push(genes.last()) =~= genes);
    }
}

/// In what is gathered from a list no key occurs twice.
pub proof fn lemma_gather_keys<T: Gene>(genes: Seq<T>)
    ensures
        distinct_keys(gather(genes)),
    decreases genes.len(),
{
    if genes.len() > 0 {
        let head = gather(genes.drop_last());
        lemma_gather_keys(genes.drop_last());
        if !keys_of(head).contains(genes.last().identity()) {
            lemma_keys_insert(head, head.len() as int, genes.last());
            assert(head.insert(head.len() as int, genes.last()) =~= head.push(genes.last()));
        }
    }
}

/// What is gathered from a list with one more gene behind it.
pub proof fn lemma_gather_push<T: Gene>(genes: Seq<T>, value: T)
    ensures
        gather(genes.push(value)) == if keys_of(gather(genes)).contains(value.identity()) {
            gather(genes)
        } else {
            gather(genes).push(value)
        },
{
    assert(genes.push(value).drop_last() =~= genes);
}

/// A gene that a list holds has a key of the list.
pub proof fn lemma_held_key<T: Gene>(genes: Seq<T>, value: T)
    ensures
        holds(genes, value) ==> keys_of(genes).contains(value.identity()),
{
    if holds(genes, value) {
        let i = choose|i: int| 0 <= i < genes.len() && (#[trigger] genes[i]).same(&value);
        genes[i].lemma_same_key(&value);
    }
}

/// In a list in which no key occurs twice, no gene occurs twice.
pub proof fn lemma_distinct_keys_unique<T: Gene>(genes: Seq<T>)
    requires
        distinct_keys(genes),
    ensures
        unique(genes),
{
    assert forall|i: int, j: int|
        0 <= i < genes.len() && 0 <= j < genes.len() && i != j implies !#[trigger] genes[i].same(
        &genes[j],
    ) by {
        if genes[i].same(&genes[j]) {
            genes[i].lemma_same_key(&genes[j]);
            if i < j {
                assert(genes[i].identity() != genes[j].identity());
            } else {
                assert(genes[j].identity() != genes[i].identity());
            }
        }
    }
}

/// In a list in which no key occurs twice, a gene is held where its key
/// is, if it equals the gene with that key.
pub proof fn lemma_place_by_key<T: Gene>(genes: Seq<T>, value: T)
    requires
        distinct_keys(genes),
        holds(genes, value),
    ensures
        place_of(genes, value) == position_of(genes, value.identity()),
{
    let i = choose|i: int| 0 <= i < genes.len() && (#[trigger] genes[i]).same(&value);
    genes[i].lemma_same_key(&value);
    assert forall|k: int| 0 <= k < i implies (#[trigger] genes[k]).identity()
        != value.identity() && !genes[k].same(&value) by {
        assert(genes[k].identity() != genes[i].identity());
        if genes[k].same(&value) {
            genes[k].lemma_same_key(&value);
        }
    }
    lemma_place_of(genes, value, i);
    lemma_position_of(genes, value.identity(), i);
}

/// Putting a gene into a list adds its key.
pub proof fn lemma_keys_of_insert<T: Gene>(genes: Seq<T>, place: int, value: T)
    requires
        0 <= place <= genes.len(),
    ensures
        keys_of(genes.insert(place, value)) == keys_of(genes).insert(value.identity()),
{
    let after = genes.insert(place, value);
    assert forall|key: u64| keys_of(after).contains(key) <==> keys_of(genes).insert(
        value.identity(),
    ).contains(key) by {
        if keys_of(after).contains(key) {
            let i = choose|i: int| 0 <= i < after.len() && #[trigger] after[i].identity() == key;
            if i != place {
                let a = if i < place { i } else { i - 1 };
                assert(after[i] == genes[a]);
            }
        }
        if keys_of(genes).contains(key) {
            let i = choose|i: int| 0 <= i < genes.len() && #[trigger] genes[i].identity() == key;
            let a = if i < place { i } else { i + 1 };
            assert(after[a] == genes[i]);
        }
        if key == value.identity() {
            assert(after[place] == value);
        }
    }
    assert(keys_of(after) =~= keys_of(genes).insert(value.identity()));
}

/// Taking a gene out of a list leaves the keys of the other genes.
pub proof fn lemma_keys_of_remove<T: Gene>(genes: Seq<T>, place: int)
    requires
        0 <= place < genes.len(),
    ensures
        forall|key: u64|
            keys_of(genes.remove(place)).contains(key) ==> #[trigger] keys_of(genes).contains(key),
        forall|key: u64|
            #[trigger] keys_of(genes).contains(key) && key != genes[place].identity() ==> keys_of(
                genes.remove(place),
            ).contains(key),
{
    let after = genes.remove(place);
    assert forall|key: u64| keys_of(after).contains(key) implies #[trigger] keys_of(genes).contains(
        key,
    ) by {
        let i = choose|i: int| 0 <= i < after.len() && #[trigger] after[i].identity() == key;
        let a = if i < place { i } else { i + 1 };
        assert(after[i] == genes[a]);
    }
    assert forall|key: u64| #[trigger]
        keys_of(genes).contains(key) && key != genes[place].identity() implies keys_of(
        after,
    ).contains(key) by {
        let i = choose|i: int| 0 <= i < genes.len() && #[trigger] genes[i].identity() == key;
        let a = if i < place { i } else { i - 1 };
        assert(after[a] == genes[i]);
    }
}

/// Putting a gene that a list does not hold into it keeps the genes
/// apart.
pub proof fn lemma_unique_insert<T: Gene>(genes: Seq<T>, place: int, value: T)
    requires
        0 <= place <= genes.len(),
        unique(genes),
        !holds(genes, value),
    ensures
        unique(genes.insert(place, value)),
{
    let after = genes.insert(place, value);
    assert forall|i: int, j: int|
        0 <= i < after.len() && 0 <= j < after.len() && i != j implies !#[trigger] after[i].same(
        &after[j],
    ) by {
        let a = if i < place { i } else { i - 1 };
        let b = if j < place { j } else { j - 1 };
        if i != place {
            assert(after[i] == genes[a]);
        }
        if j != place {
            assert(after[j] == genes[b]);
        }
        if i == place {
            assert(!genes[b].same(&value));
            genes[b].lemma_same_both_ways(&value);
        } else if j == place {
            assert(!genes[a].same(&value));
        } else {
            assert(!genes[a].same(&genes[b]));
        }
    }
}

/// Taking a gene out of a list keeps the genes apart.
pub proof fn lemma_unique_remove<T: Gene>(genes: Seq<T>, place: int)
    requires
        0 <= place < genes.len(),
        unique(genes),
    ensures
        unique(genes.remove(place)),
{
    let after = genes.remove(place);
    assert forall|i: int, j: int|
        0 <= i < after.len() && 0 <= j < after.len() && i != j implies !#[trigger] after[i].same(
        &after[j],
    ) by {
        let a = if i < place { i } else { i + 1 };
        let b = if j < place { j } else { j + 1 };
        assert(after[i] == genes[a]);
        assert(after[j] == genes[b]);
        assert(!genes[a].same(&genes[b]));
    }
}

/// Once the one gene that equals `value` is taken out of a list in which
/// no gene occurs twice, the list does not hold `value`.
pub proof fn lemma_gone<T: Gene>(genes: Seq<T>, place: int, value: T)
    requires
        0 <= place < genes.len(),
        unique(genes),
        genes[place].same(&value),
    ensures
        !holds(genes.remove(place), value),
{
    let after = genes.remove(place);
    if holds(after, value) {
        let i = choose|i: int| 0 <= i < after.len() && (#[trigger] after[i]).same(&value);
        let a = if i < place { i } else { i + 1 };
        assert(after[i] == genes[a]);
        genes[place].lemma_same_both_ways(&value);
        genes[a].lemma_same_chain(&value, &genes[place]);
    }
}

/// The first place at which a gene equals `value` is its place.
pub proof fn lemma_place_of<T: Gene>(genes: Seq<T>, value: T, place: int)
    requires
        0 <= place <= genes.len(),
        forall|i: int| 0 <= i < place ==> !(#[trigger] genes[i]).same(&value),
        place < genes.len() ==> genes[place].same(&value),
    ensures
        place_of(genes, value) == place,
        (place < genes.len()) == holds(genes, value),
    decreases genes.len(),
{
    if genes.len() > 0 && place > 0 {
        let rest = genes.skip(1);
        assert forall|i: int| 0 <= i < place - 1 implies !(#[trigger] rest[i]).same(&value) by {
            assert(rest[i] == genes[i + 1]);
        }
        lemma_place_of(rest, value, place - 1);
    }
    if holds(genes, value) {
        let i = choose|i: int| 0 <= i < genes.len() && (#[trigger] genes[i]).same(&value);
        assert(i >= place);
    }
}

/// Putting a gene with a new key into a list adds its key and keeps the
/// keys apart.
pub proof fn lemma_keys_insert<T: Gene>(genes: Seq<T>, place: int, value: T)
    requires
        0 <= place <= genes.len(),
        distinct_keys(genes),
        !keys_of(genes).contains(value.identity()),
    ensures
        distinct_keys(genes.insert(place, value)),
        keys_of(genes.insert(place, value)) == keys_of(genes).insert(value.identity()),
{
    let after = genes.insert(place, value);
    assert forall|i: int, j: int| 0 <= i < j < after.len() implies #[trigger] after[i].identity()
        != #[trigger] after[j].identity() by {
        let a = if i < place { i } else { i - 1 };
        let b = if j < place { j } else { j - 1 };
        if i != place {
            assert(after[i] == genes[a]);
        }
        if j != place {
            assert(after[j] == genes[b]);
        }
    }
    assert forall|key: u64| keys_of(after).contains(key) <==> keys_of(genes).insert(
        value.identity(),
    ).contains(key) by {
        if keys_of(after).contains(key) {
            let i = choose|i: int| 0 <= i < after.len() && #[trigger] after[i].identity() == key;
            if i != place {
                let a = if i < place { i } else { i - 1 };
                assert(after[i] == genes[a]);
            }
        }
        if keys_of(genes).contains(key) {
            let i = choose|i: int| 0 <= i < genes.len() && #[trigger] genes[i].identity() == key;
            let a = if i < place { i } else { i + 1 };
            assert(after[a] == genes[i]);
        }
        if key == value.identity() {
            assert(after[place] == value);
        }
    }
    assert(keys_of(after) =~= keys_of(genes).insert(value.identity()));
}

/// Taking a gene out of a list takes its key out and keeps the keys apart.
pub proof fn lemma_keys_remove<T: Gene>(genes: Seq<T>, place: int)
    requires
        0 <= place < genes.len(),
        distinct_keys(genes),
    ensures
        distinct_keys(genes.remove(place)),
        keys_of(genes.remove(place)) == keys_of(genes).remove(genes[place].identity()),
{
    let after = genes.remove(place);
    assert forall|i: int, j: int| 0 <= i < j < after.len() implies #[trigger] after[i].identity()
        != #[trigger] after[j].identity() by {
        let a = if i < place { i } else { i + 1 };
        let b = if j < place { j } else { j + 1 };
        assert(after[i] == genes[a]);
        assert(after[j] == genes[b]);
    }
    assert forall|key: u64| keys_of(after).contains(key) <==> keys_of(genes).remove(
        genes[place].identity(),
    ).contains(key) by {
        if keys_of(after).contains(key) {
            let i = choose|i: int| 0 <= i < after.len() && #[trigger] after[i].identity() == key;
            let a = if i < place { i } else { i + 1 };
            assert(after[i] == genes[a]);
        }
        if keys_of(genes).contains(key) && key != genes[place].identity() {
            let i = choose|i: int| 0 <= i < genes.len() && #[trigger] genes[i].identity() == key;
            let a = if i < place { i } else { i - 1 };
            assert(after[a] == genes[i]);
        }
    }
    assert(keys_of(after) =~= keys_of(genes).remove(genes[place].identity()));
}

/// Putting a gene in the place of one with the same key changes no key.
pub proof fn lemma_keys_update<T: Gene>(genes: Seq<T>, place: int, value: T)
    requires
        0 <= place < genes.len(),
        distinct_keys(genes),
        value.identity() == genes[place].identity(),
    ensures
        distinct_keys(genes.update(place, value)),
        keys_of(genes.update(place, value)) == keys_of(genes),
{
    let after = genes.update(place, value);
    assert forall|i: int, j: int| 0 <= i < j < after.len() implies #[trigger] after[i].identity()
        != #[trigger] after[j].identity() by {
        assert(after[i].identity() == genes[i].identity());
        assert(after[j].identity() == genes[j].identity());
    }
    assert forall|key: u64| keys_of(after).contains(key) <==> keys_of(genes).contains(key) by {
        if keys_of(after).contains(key) {
            let i = choose|i: int| 0 <= i < after.len() && #[trigger] after[i].identity() == key;
            assert(genes[i].identity() == key);
        }
        if keys_of(genes).contains(key) {
            let i = choose|i: int| 0 <= i < genes.len() && #[trigger] genes[i].identity() == key;
            assert(after[i].identity() == key);
        }
    }
    assert(keys_of(after) =~= keys_of(genes));
}

/// The first place at which a key occurs is its position.
pub proof fn lemma_position_of<T: Gene>(genes: Seq<T>, key: u64, place: int)
    requires
        0 <= place <= genes.len(),
        forall|i: int| 0 <= i < place ==> (#[trigger] genes[i]).identity() != key,
        place < genes.len() ==> genes[place].identity() == key,
    ensures
        position_of(genes, key) == place,
    decreases genes.len(),
{
    if genes.len() > 0 && place > 0 {
        let rest = genes.skip(1);
        assert forall|i: int| 0 <= i < place - 1 implies (#[trigger] rest[i]).identity() != key by {
            assert(rest[i] == genes[i + 1]);
        }
        lemma_position_of(rest, key, place - 1);
    }
}

/// Putting a gene at its insertion point keeps strictly growing
/// innovation numbers growing, as long as its number is new.
pub proof fn lemma_insert_keeps_ascending<T: Gene>(genes: Seq<T>, value: T)
    requires
        ascending(genes),
        forall|i: int| 0 <= i < genes.len() ==> (#[trigger] genes[i]).innovation() != value.innovation(),
    ensures
        ascending(genes.insert(insertion_point(genes, value.innovation()), value)),
{
    let place = insertion_point(genes, value.innovation());
    lemma_insertion_point(genes, value.innovation());
    let after = genes.insert(place, value);
    assert forall|i: int, j: int| 0 <= i < j < after.len() implies #[trigger] after[i].innovation()
        < #[trigger] after[j].innovation() by {
        let a = if i < place { i } else { i - 1 };
        let b = if j < place { j } else { j - 1 };
        if i != place {
            assert(after[i] == genes[a]);
        }
        if j != place {
            assert(after[j] == genes[b]);
        }
        if i == place {
            assert(genes[b].innovation() > value.innovation());
        }
        if j == place {
            if place > 0 {
                assert(genes[a].innovation() <= genes[place - 1].innovation());
            }
        }
    }
}

/// The insertion point lies behind a gene whose number is not larger and
/// before all genes whose numbers are.
pub proof fn lemma_insertion_point<T: Gene>(genes: Seq<T>, innovation: u32)
    ensures
        0 <= insertion_point(genes, innovation) <= genes.len(),
        insertion_point(genes, innovation) > 0 ==> genes[insertion_point(genes, innovation)
            - 1].innovation() <= innovation,
        forall|i: int|
            insertion_point(genes, innovation) <= i < genes.len() ==> (
            #[trigger] genes[i]).innovation() > innovation,
    decreases genes.len(),
{
    if genes.len() == 0 || genes.last().innovation() <= innovation {
    } else {
        let head = genes.drop_last();
        lemma_insertion_point(head, innovation);
        let place = insertion_point(head, innovation);
        assert forall|i: int| place <= i < genes.len() implies (#[trigger] genes[i]).innovation()
            > innovation by {
            if i < head.len() {
                assert(genes[i] == head[i]);
            }
        }
        if place > 0 {
            assert(head[place - 1] == genes[place - 1]);
        }
    }
}

} // verus!

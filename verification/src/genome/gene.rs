use vstd::prelude::*;

verus! {

/// What node genes and connection genes have in common: an innovation
/// number, and a key that tells the genes of one collection apart.
pub trait Gene: Copy {
    /// The innovation number of the gene.
    spec fn innovation(&self) -> u32;

    /// The key under which a collection looks the gene up. Equal genes
    /// have the same key; genes with the same key may differ.
    spec fn identity(&self) -> u64;

    /// Whether the gene equals `other`, which is what `==` says of the
    /// two. Equal genes have the same key.
    spec fn same(&self, other: &Self) -> bool;

    /// Equal genes have the same key.
    proof fn lemma_same_key(&self, other: &Self)
        requires
            self.same(other),
        ensures
            self.identity() == other.identity(),
    ;

    /// Every gene equals itself, and two genes are equal whichever of
    /// them is asked.
    proof fn lemma_same_both_ways(&self, other: &Self)
        ensures
            self.same(self),
            self.same(other) == other.same(self),
    ;

    /// Two genes that equal a third equal each other.
    proof fn lemma_same_chain(&self, middle: &Self, other: &Self)
        requires
            self.same(middle),
            middle.same(other),
        ensures
            self.same(other),
    ;

    /// Whether the gene equals `other`.
    fn is_same(&self, other: &Self) -> (same: bool)
        ensures
            same == self.same(other),
    ;

    /// Reads the innovation number.
    fn get_innovation_number(&self) -> (number: u32)
        ensures
            number == self.innovation(),
    ;

    /// Replaces the innovation number and leaves the rest of the gene alone.
    fn set_innovation_number(&mut self, new: u32)
        ensures
            final(self).innovation() == new,
    ;

    /// Computes the key.
    fn key(&self) -> (key: u64)
        ensures
            key == self.identity(),
    ;
}

} // verus!

//! The merge walk over two lists of connection genes on which both the
//! distance and the crossover of genomes rest, and what holds of it.

use crate::data_structures::pseudo_float::{clamp, fixed_mul, magnitude, trunc_div};
use crate::data_structures::random_hash_set::ascending;
use crate::genome::connection_gene::ConnectionGene;
use crate::genome::gene::Gene;
use crate::neat::config::Config;
use vstd::prelude::*;

verus! {

/// What a merge walk over two lists of connection genes has counted.
pub struct Alignment {
    /// How often both cursors stood on genes of the same number.
    pub matching: nat,
    /// How often the cursors stood on genes of different numbers.
    pub disjoint: nat,
    /// The sum of the weight differences of the matching genes, in units.
    pub weight_diff: nat,
    /// Where the cursor of the first list stood when one list ran out.
    pub first_end: int,
    /// Where the cursor of the second list stood when one list ran out.
    pub second_end: int,
}

/// The walk from the cursors `i` and `j` on. On equal numbers the genes
/// match and both cursors move. On different numbers the gene with the
/// smaller number is disjoint and only its cursor moves. The walk ends
/// when one cursor leaves its list.
pub open spec fn align(
    first: Seq<ConnectionGene>,
    second: Seq<ConnectionGene>,
    i: int,
    j: int,
) -> Alignment
    decreases first.len() - i + (second.len() - j),
{
    if i < 0 || j < 0 || i >= first.len() || j >= second.len() {
        Alignment { matching: 0, disjoint: 0, weight_diff: 0, first_end: i, second_end: j }
    } else if first[i].innovation_number == second[j].innovation_number {
        let rest = align(first, second, i + 1, j + 1);
        Alignment {
            matching: rest.matching + 1,
            weight_diff: rest.weight_diff + magnitude(first[i].weight@ - second[j].weight@) as nat,
            ..rest
        }
    } else if first[i].innovation_number > second[j].innovation_number {
        let rest = align(first, second, i, j + 1);
        Alignment { disjoint: rest.disjoint + 1, ..rest }
    } else {
        let rest = align(first, second, i + 1, j);
        Alignment { disjoint: rest.disjoint + 1, ..rest }
    }
}

/// The innovation number of the last gene, or zero for an empty list.
pub open spec fn highest(genes: Seq<ConnectionGene>) -> int {
    if genes.len() == 0 {
        0
    } else {
        genes.last().innovation_number as int
    }
}

/// Whether the walk for the distance of `a` and `b` takes `b` first: it
/// does when the highest innovation number of `b` is the larger one.
pub open spec fn swaps(a: Seq<ConnectionGene>, b: Seq<ConnectionGene>) -> bool {
    highest(a) < highest(b)
}

/// The number by which the gene counts are divided: the length of the
/// longer list, or one where that is below twenty.
pub open spec fn normalizer(a: Seq<ConnectionGene>, b: Seq<ConnectionGene>) -> int {
    let longer = if a.len() >= b.len() {
        a.len()
    } else {
        b.len()
    };
    if longer < 20 {
        1
    } else {
        longer as int
    }
}

/// The compatibility distance of two lists of connection genes, in units.
///
/// The list with the larger highest innovation number goes first in the
/// walk. What the walk leaves unvisited of it is excess. Disjoint and
/// excess counts are multiplied by their multipliers and divided by the
/// normalizer, and the mean weight difference of the matching genes is
/// multiplied by its multiplier. Every quotient is rounded towards zero
/// and the sum is held at the ends of the range.
pub open spec fn distance_of(
    a: Seq<ConnectionGene>,
    b: Seq<ConnectionGene>,
    config: Config,
) -> int {
    if a.len() == 0 && b.len() == 0 {
        0
    } else {
        let first = if swaps(a, b) {
            b
        } else {
            a
        };
        let second = if swaps(a, b) {
            a
        } else {
            b
        };
        let walk = align(first, second, 0, 0);
        blend(
            config,
            walk.matching as int,
            walk.disjoint as int,
            walk.weight_diff as int,
            first.len() - walk.first_end,
            normalizer(a, b),
        )
    }
}

/// The distance that the counts of a walk amount to, in units: disjoint
/// and excess counts times their multipliers, each divided by `total`,
/// plus the mean weight difference times its multiplier.
pub open spec fn blend(
    config: Config,
    matching: int,
    disjoint: int,
    weight_diff: int,
    excess: int,
    total: int,
) -> int {
    let mean = if matching == 0 {
        0
    } else {
        weight_diff / matching
    };
    clamp(
        trunc_div(config.mult_disjoint@ * disjoint, total) + trunc_div(
            config.mult_excess@ * excess,
            total,
        ) + fixed_mul(config.mult_weight_diff@, mean),
    )
}

/// The genes are in strictly growing order of innovation numbers, which
/// start at one or above.
pub open spec fn well_ordered(genes: Seq<ConnectionGene>) -> bool {
    &&& ascending(genes)
    &&& genes.len() > 0 ==> genes[0].innovation_number >= 1
}

/// The genes that a child takes over in a walk from the cursors `i` and
/// `j` on. Of matching genes it takes the one of the fitter parent where
/// `picks` says so at the place of that gene, else the one of the other
/// parent. It takes every gene that only the fitter parent has, and none
/// that only the other parent has.
pub open spec fn inherit(
    fitter: Seq<ConnectionGene>,
    other: Seq<ConnectionGene>,
    picks: Seq<bool>,
    i: int,
    j: int,
) -> Seq<ConnectionGene>
    decreases fitter.len() - i + (other.len() - j),
{
    if i < 0 || j < 0 || i >= fitter.len() {
        Seq::empty()
    } else if j >= other.len() {
        fitter.subrange(i, fitter.len() as int)
    } else if fitter[i].innovation_number == other[j].innovation_number {
        seq![
            if picks[i] {
                fitter[i]
            } else {
                other[j]
            },
        ] + inherit(fitter, other, picks, i + 1, j + 1)
    } else if fitter[i].innovation_number > other[j].innovation_number {
        inherit(fitter, other, picks, i, j + 1)
    } else {
        seq![fitter[i]] + inherit(fitter, other, picks, i + 1, j)
    }
}

/// In a strictly growing list an earlier gene has the smaller number.
pub proof fn lemma_ascending_at(genes: Seq<ConnectionGene>, i: int, j: int)
    requires
        ascending(genes),
        0 <= i < j < genes.len(),
    ensures
        genes[i].innovation_number < genes[j].innovation_number,
{
    assert(genes[i].innovation() < genes[j].innovation());
}

/// A strictly growing list of numbered genes is no longer than its last
/// number.
pub proof fn lemma_well_ordered_length(genes: Seq<ConnectionGene>, i: int)
    requires
        well_ordered(genes),
        0 <= i < genes.len(),
    ensures
        genes[i].innovation_number >= i + 1,
        genes.len() <= u32::MAX,
    decreases genes.len() - i,
{
    lemma_numbers_grow(genes, i);
    lemma_numbers_grow(genes, genes.len() - 1);
}

/// The gene at place `i` of a well ordered list has a number above `i`.
proof fn lemma_numbers_grow(genes: Seq<ConnectionGene>, i: int)
    requires
        well_ordered(genes),
        0 <= i < genes.len(),
    ensures
        genes[i].innovation_number >= i + 1,
    decreases i,
{
    if i > 0 {
        lemma_numbers_grow(genes, i - 1);
        lemma_ascending_at(genes, i - 1, i);
    }
}

/// A walk of a list along itself matches every gene with itself.
pub proof fn lemma_align_self(genes: Seq<ConnectionGene>, i: int)
    requires
        0 <= i <= genes.len(),
    ensures
        align(genes, genes, i, i).disjoint == 0,
        align(genes, genes, i, i).weight_diff == 0,
        align(genes, genes, i, i).first_end == genes.len(),
    decreases genes.len() - i,
{
    if i < genes.len() {
        lemma_align_self(genes, i + 1);
    }
}

/// The distance of a list of connection genes from itself is zero.
pub proof fn lemma_distance_self(genes: Seq<ConnectionGene>, config: Config)
    ensures
        distance_of(genes, genes, config) == 0,
{
    lemma_align_self(genes, 0);
    let walk = align(genes, genes, 0, 0);
    assert(config.mult_disjoint@ * 0 == 0);
    assert(config.mult_excess@ * 0 == 0);
    assert(config.mult_weight_diff@ * 0 == 0);
    if walk.matching > 0 {
        assert(0int / (walk.matching as int) == 0) by (nonlinear_arith)
            requires
                walk.matching > 0,
        ;
    }
}

/// Walking two lists in the other order counts the same and swaps the
/// cursors.
pub proof fn lemma_align_mirror(
    first: Seq<ConnectionGene>,
    second: Seq<ConnectionGene>,
    i: int,
    j: int,
)
    requires
        0 <= i <= first.len(),
        0 <= j <= second.len(),
    ensures
        align(second, first, j, i).matching == align(first, second, i, j).matching,
        align(second, first, j, i).disjoint == align(first, second, i, j).disjoint,
        align(second, first, j, i).weight_diff == align(first, second, i, j).weight_diff,
        align(second, first, j, i).first_end == align(first, second, i, j).second_end,
        align(second, first, j, i).second_end == align(first, second, i, j).first_end,
    decreases first.len() - i + (second.len() - j),
{
    if i >= first.len() || j >= second.len() {
    } else if first[i].innovation_number == second[j].innovation_number {
        lemma_align_mirror(first, second, i + 1, j + 1);
    } else if first[i].innovation_number > second[j].innovation_number {
        lemma_align_mirror(first, second, i, j + 1);
    } else {
        lemma_align_mirror(first, second, i + 1, j);
    }
}

/// Two strictly growing lists that end on the same number run out
/// together.
pub proof fn lemma_align_same_end(
    first: Seq<ConnectionGene>,
    second: Seq<ConnectionGene>,
    i: int,
    j: int,
)
    requires
        ascending(first),
        ascending(second),
        0 <= i <= first.len(),
        0 <= j <= second.len(),
        first.len() > 0,
        second.len() > 0,
        first.last().innovation_number == second.last().innovation_number,
        (i == first.len()) == (j == second.len()),
    ensures
        align(first, second, i, j).first_end == first.len(),
        align(first, second, i, j).second_end == second.len(),
    decreases first.len() - i + (second.len() - j),
{
    if i >= first.len() || j >= second.len() {
    } else {
        let top = first.last().innovation_number;
        if i < first.len() - 1 {
            lemma_ascending_at(first, i, first.len() - 1);
        }
        if j < second.len() - 1 {
            lemma_ascending_at(second, j, second.len() - 1);
        }
        if first[i].innovation_number == second[j].innovation_number {
            lemma_align_same_end(first, second, i + 1, j + 1);
        } else if first[i].innovation_number > second[j].innovation_number {
            lemma_align_same_end(first, second, i, j + 1);
        } else {
            lemma_align_same_end(first, second, i + 1, j);
        }
    }
}

/// A child of one genome with itself takes over every gene, whatever the
/// choices between matching genes are.
pub proof fn lemma_inherit_self(genes: Seq<ConnectionGene>, picks: Seq<bool>, i: int)
    requires
        0 <= i <= genes.len(),
    ensures
        inherit(genes, genes, picks, i, i) == genes.subrange(i, genes.len() as int),
    decreases genes.len() - i,
{
    if i < genes.len() {
        lemma_inherit_self(genes, picks, i + 1);
        assert(seq![genes[i]] + genes.subrange(i + 1, genes.len() as int) =~= genes.subrange(
            i,
            genes.len() as int,
        ));
    } else {
        assert(genes.subrange(i, genes.len() as int) =~= Seq::<ConnectionGene>::empty());
    }
}

/// The distance of two well ordered lists of connection genes is the
/// same in both directions, although the walk puts one of them first.
pub proof fn lemma_distance_symmetric(
    a: Seq<ConnectionGene>,
    b: Seq<ConnectionGene>,
    config: Config,
)
    requires
        well_ordered(a),
        well_ordered(b),
    ensures
        distance_of(a, b, config) == distance_of(b, a, config),
{
    if a.len() > 0 {
        lemma_well_ordered_length(a, a.len() - 1);
    }
    if b.len() > 0 {
        lemma_well_ordered_length(b, b.len() - 1);
    }
    if highest(a) == highest(b) && a.len() > 0 {
        lemma_align_same_end(a, b, 0, 0);
        lemma_align_same_end(b, a, 0, 0);
        lemma_align_mirror(a, b, 0, 0);
    }
}

} // verus!

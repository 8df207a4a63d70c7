//! Producing a child genome from two parents.
//!
//! The random draws are made elsewhere; what is decided from them is here,
//! as functions of the values drawn.

use crate::genome::{is_genome, overlap};
use crate::text::{chars_of, string_of};
use vstd::prelude::*;

verus! {

/// Rolls are drawn from zero up to but excluding this bound.
pub const ROLL_BOUND: u32 = 100;

/// Rolls below this mark replace a child by a fresh random genome: 35 in 100.
pub const REINIT_MARK: u32 = 35;

/// Rolls below this mark let a meteor strike the generation: 10 in 100.
pub const METEOR_MARK: u32 = 10;

/// Whether `roll` makes a crossover discard both parents.
pub fn reinitializes(roll: u32) -> (fresh: bool)
    ensures
        fresh == (roll < REINIT_MARK),
{
    roll < REINIT_MARK
}

/// Whether `roll` makes a meteor strike.
pub fn meteor_strikes(roll: u32) -> (strikes: bool)
    ensures
        strikes == (roll < METEOR_MARK),
{
    roll < METEOR_MARK
}

/// The child that takes position `i` from `mother` where `from_mother[i]`
/// holds and from `father` where it does not. It is as long as the shortest
/// of the three sequences.
pub open spec fn recombined(mother: Seq<char>, father: Seq<char>, from_mother: Seq<bool>) -> Seq<
    char,
> {
    let shared = overlap(mother, father);
    let length: nat = if from_mother.len() <= shared {
        from_mother.len()
    } else {
        shared
    };
    Seq::new(
        length,
        |i: int|
            if from_mother[i] {
                mother[i]
            } else {
                father[i]
            },
    )
}

/// Every position of `child` holds what one of the parents holds there, and
/// `child` covers the positions both parents have.
pub open spec fn inherits(child: Seq<char>, mother: Seq<char>, father: Seq<char>) -> bool {
    &&& child.len() == overlap(mother, father)
    &&& forall|i: int|
        0 <= i < child.len() ==> #[trigger] child[i] == mother[i] || child[i] == father[i]
}

/// A recombined child holds at every position the character one of its
/// parents holds there. With a choice for every shared position it inherits
/// from them in full.
pub proof fn lemma_recombined_inherits(
    mother: Seq<char>,
    father: Seq<char>,
    from_mother: Seq<bool>,
)
    ensures
        forall|i: int|
            0 <= i < recombined(mother, father, from_mother).len() ==> #[trigger] recombined(
                mother,
                father,
                from_mother,
            )[i] == mother[i] || recombined(mother, father, from_mother)[i] == father[i],
        from_mother.len() >= overlap(mother, father) ==> inherits(
            recombined(mother, father, from_mother),
            mother,
            father,
        ),
{
}

/// A child that inherits from two genomes of one size is a genome of that
/// size.
pub proof fn lemma_heir_is_genome(
    child: Seq<char>,
    mother: Seq<char>,
    father: Seq<char>,
    size: nat,
)
    requires
        inherits(child, mother, father),
        is_genome(mother, size),
        is_genome(father, size),
    ensures
        is_genome(child, size),
{
    assert forall|i: int| 0 <= i < child.len() implies crate::alphabet::is_symbol(
        #[trigger] child[i],
    ) by {
        if child[i] == mother[i] {
        } else {
            assert(child[i] == father[i]);
        }
    }
}

/// Builds the child that takes each position from `mother` or `father` as
/// `from_mother` says.
pub fn recombine(mother: &str, father: &str, from_mother: &Vec<bool>) -> (child: String)
    ensures
        child@ == recombined(mother@, father@, from_mother@),
{
    let left = chars_of(mother);
    let right = chars_of(father);
    let shared: usize = if left.len() <= right.len() {
        left.len()
    } else {
        right.len()
    };
    let length: usize = if from_mother.len() <= shared {
        from_mother.len()
    } else {
        shared
    };
    let mut child: Vec<char> = Vec::new();
    let mut i: usize = 0;
    while i < length
        invariant
            i <= length,
            length <= left.len(),
            length <= right.len(),
            length <= from_mother.len(),
            child@ == recombined(left@, right@, from_mother@).take(i as int),
            length == recombined(left@, right@, from_mother@).len(),
        decreases length - i,
    {
        let symbol: char = if from_mother[i] {
            left[i]
        } else {
            right[i]
        };
        child.push(symbol);
        i += 1;
    }
    string_of(&child)
}

} // verus!

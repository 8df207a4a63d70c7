//! The fixed set of symbols genomes are written in.

use vstd::prelude::*;

verus! {

/// Number of symbols in the alphabet: the printable ASCII characters.
pub const SYMBOL_COUNT: usize = 95;

/// Code point of the first symbol, the space character.
pub const FIRST_SYMBOL: u8 = 0x20;

/// The alphabet in order: space through `~`.
pub open spec fn symbols() -> Seq<char> {
    Seq::new(SYMBOL_COUNT as nat, |i: int| (FIRST_SYMBOL + i) as char)
}

/// Whether `c` belongs to the alphabet.
pub open spec fn is_symbol(c: char) -> bool {
    FIRST_SYMBOL <= (c as int) < FIRST_SYMBOL + SYMBOL_COUNT
}

/// The alphabet holds exactly the characters `is_symbol` accepts, each once.
pub proof fn lemma_symbols_are_the_alphabet()
    ensures
        symbols().len() == SYMBOL_COUNT,
        forall|c: char| is_symbol(c) <==> symbols().contains(c),
        forall|i: int, j: int|
            0 <= i < j < symbols().len() ==> symbols()[i] != symbols()[j],
{
    assert forall|c: char| is_symbol(c) implies symbols().contains(c) by {
        let i = c as int - FIRST_SYMBOL;
        assert(symbols()[i] == c);
    }
}

/// The symbol at position `index` of the alphabet, if there is one.
pub fn symbol_at(index: usize) -> (symbol: Option<char>)
    ensures
        symbol == if index < SYMBOL_COUNT {
            Some(symbols()[index as int])
        } else {
            None
        },
{
    if index < SYMBOL_COUNT {
        let code: u8 = FIRST_SYMBOL + index as u8;
        Some(code as char)
    } else {
        None
    }
}

} // verus!

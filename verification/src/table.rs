//! The code table: the fixed alphabet of symbols that compact text is
//! written in.

use vstd::prelude::*;
use crate::lookup::{
    last_position, lemma_last_position, lemma_last_position_unique, positions_of, Positions,
};
use crate::text::chars_of;

verus! {

/// Number of symbols in the code table.
pub const CODE_COUNT: usize = 93;

/// The code table, in order. A palette of `n` characters splits it in two:
/// the first `n` symbols name palette positions, the rest name run lengths.
pub open spec fn code_table() -> Seq<char> {
    " `1234567890-=~!@#$%^&*()_+qwertyuiop[]QWERTYUIOP{}|asdfghjkl;'ASDFGHJKL:zxcvbnm,./ZXCVBNM<>?"@
}

/// The position of `c` in the code table, if it is a symbol at all.
pub open spec fn symbol_position(c: char) -> Option<int> {
    last_position(code_table(), c)
}

/// The code table has `CODE_COUNT` symbols and no symbol occurs twice.
pub proof fn lemma_code_table()
    ensures
        code_table().len() == CODE_COUNT,
        code_table().no_duplicates(),
{
    reveal_strlit(
        " `1234567890-=~!@#$%^&*()_+qwertyuiop[]QWERTYUIOP{}|asdfghjkl;'ASDFGHJKL:zxcvbnm,./ZXCVBNM<>?",
    );
}

/// Each symbol of the code table is found at its own position and nowhere
/// else.
pub proof fn lemma_position_of_symbol(i: int)
    requires
        0 <= i < CODE_COUNT,
    ensures
        symbol_position(code_table()[i]) == Some(i),
{
    lemma_code_table();
    lemma_last_position_unique(code_table(), i);
}

/// What is found in the code table is a symbol of it.
pub proof fn lemma_symbol_position(c: char)
    ensures
        symbol_position(c) matches Some(i) ==> 0 <= i < CODE_COUNT && code_table()[i] == c,
        symbol_position(c) is None ==> !code_table().contains(c),
{
    lemma_code_table();
    lemma_last_position(code_table(), c);
}

/// The code table as a vector, for lookups by position.
pub fn code_chars() -> (table: Vec<char>)
    ensures
        table@ == code_table(),
        table@.len() == CODE_COUNT,
{
    proof {
        lemma_code_table();
    }
    chars_of(
        " `1234567890-=~!@#$%^&*()_+qwertyuiop[]QWERTYUIOP{}|asdfghjkl;'ASDFGHJKL:zxcvbnm,./ZXCVBNM<>?",
    )
}

/// The code table as a table from each symbol to its position.
pub fn symbol_positions() -> (symbols: Positions)
    ensures
        symbols@ == positions_of(code_table()),
{
    let table = code_chars();
    Positions::new(table.as_slice())
}

} // verus!

//! Lookup from a character to its position in a sequence, built once and
//! asked many times.

use std::collections::HashMap;
use vstd::prelude::*;

verus! {

/// The last position of `chars` that holds `c`, if any does.
pub open spec fn last_position(chars: Seq<char>, c: char) -> Option<int>
    decreases chars.len(),
{
    if chars.len() == 0 {
        None
    } else if chars.last() == c {
        Some(chars.len() - 1)
    } else {
        last_position(chars.drop_last(), c)
    }
}

/// `last_position` names a position that holds `c` and has no `c` behind
/// it, and names none only where `chars` holds no `c`.
pub proof fn lemma_last_position(chars: Seq<char>, c: char)
    ensures
        match last_position(chars, c) {
            Some(i) => 0 <= i < chars.len() && chars[i] == c && forall|j: int|
                i < j < chars.len() ==> chars[j] != c,
            None => !chars.contains(c),
        },
    decreases chars.len(),
{
    if chars.len() > 0 && chars.last() != c {
        let rest = chars.drop_last();
        lemma_last_position(rest, c);
        match last_position(rest, c) {
            Some(i) => {
                assert(chars[i] == rest[i]);
                assert forall|j: int| i < j < chars.len() implies chars[j] != c by {
                    if j < rest.len() {
                        assert(chars[j] == rest[j]);
                    }
                }
            },
            None => {
                if chars.contains(c) {
                    let i = choose|i: int| 0 <= i < chars.len() && chars[i] == c;
                    assert(rest[i] == c);
                }
            },
        }
    }
}

/// In a sequence without repetition each item is found where it stands.
pub proof fn lemma_last_position_unique(chars: Seq<char>, i: int)
    requires
        chars.no_duplicates(),
        0 <= i < chars.len(),
    ensures
        last_position(chars, chars[i]) == Some(i),
{
    lemma_last_position(chars, chars[i]);
}

/// Two characters have two code points.
proof fn lemma_code_points_differ(a: char, b: char)
    requires
        a != b,
    ensures
        a as u32 != b as u32,
{
}

/// A table from each character of a sequence to the last position that
/// holds it.
pub struct Positions {
    map: HashMap<u32, usize>,
}

/// The table of `chars`: each character that `chars` holds, with the last
/// position that holds it.
pub open spec fn positions_of(chars: Seq<char>) -> Map<char, int> {
    Map::new(|c: char| last_position(chars, c) is Some, |c: char| last_position(chars, c)->0)
}

impl Positions {
    /// The table as a map from characters to positions.
    pub closed spec fn view(&self) -> Map<char, int> {
        Map::new(
            |c: char| self.map@.contains_key(c as u32),
            |c: char| self.map@[c as u32] as int,
        )
    }

    /// Builds the table of `chars`.
    pub fn new(chars: &[char]) -> (table: Positions)
        ensures
            table@ == positions_of(chars@),
    {
        broadcast use vstd::std_specs::hash::group_hash_axioms;

        let mut map: HashMap<u32, usize> = HashMap::new();
        let mut i: usize = 0;
        while i < chars.len()
            invariant
                i <= chars.len(),
                forall|c: char|
                    match #[trigger] last_position(chars@.take(i as int), c) {
                        Some(p) => map@.contains_key(c as u32) && map@[c as u32] == p,
                        None => !map@.contains_key(c as u32),
                    },
            decreases chars.len() - i,
        {
            let ghost seen = chars@.take(i as int);
            let ghost next = chars@.take(i + 1);
            let current: char = chars[i];
            map.insert(current as u32, i);
            proof {
                assert(next.drop_last() =~= seen);
                assert forall|c: char|
                    match #[trigger] last_position(next, c) {
                        Some(p) => map@.contains_key(c as u32) && map@[c as u32] == p,
                        None => !map@.contains_key(c as u32),
                    } by {
                    if c != current {
                        assert(last_position(next, c) == last_position(seen, c));
                        lemma_code_points_differ(c, current);
                    }
                }
            }
            i += 1;
        }
        assert(chars@.take(i as int) =~= chars@);
        let table = Positions { map };
        assert(table@ =~= positions_of(chars@));
        table
    }

    /// Looks up the position of `c`.
    pub fn get(&self, c: char) -> (found: Option<usize>)
        ensures
            match found {
                Some(i) => self@.contains_key(c) && self@[c] == i,
                None => !self@.contains_key(c),
            },
    {
        broadcast use vstd::std_specs::hash::group_hash_axioms;

        match self.map.get(&(c as u32)) {
            Some(i) => Some(*i),
            None => None,
        }
    }
}

} // verus!

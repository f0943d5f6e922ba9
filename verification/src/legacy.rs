//! Identifiers of version 2.2 and the identifiers that took their place.

use vstd::prelude::*;

verus! {

/// How many identifiers of version 2.2 are known.
pub const LEGACY_COUNT: usize = 62;

/// Each row holds the three characters of an identifier of version 2.2 and the four
/// characters of the identifier that took its place.
pub const LEGACY_IDS: [[char; 7]; 62] = [
    ['B', 'U', 'F', 'R', 'B', 'U', 'F'],
    ['C', 'N', 'T', 'P', 'C', 'N', 'T'],
    ['C', 'O', 'M', 'C', 'O', 'M', 'M'],
    ['C', 'R', 'A', 'A', 'E', 'N', 'C'],
    ['E', 'T', 'C', 'E', 'T', 'C', 'O'],
    ['E', 'Q', 'U', 'E', 'Q', 'U', 'A'],
    ['G', 'E', 'O', 'G', 'E', 'O', 'B'],
    ['I', 'P', 'L', 'I', 'P', 'L', 'S'],
    ['L', 'N', 'K', 'L', 'I', 'N', 'K'],
    ['M', 'C', 'I', 'M', 'C', 'D', 'I'],
    ['M', 'L', 'L', 'M', 'L', 'L', 'T'],
    ['P', 'I', 'C', 'A', 'P', 'I', 'C'],
    ['P', 'O', 'P', 'P', 'O', 'P', 'M'],
    ['R', 'E', 'V', 'R', 'V', 'R', 'B'],
    ['R', 'V', 'A', 'R', 'V', 'A', 'D'],
    ['S', 'L', 'T', 'S', 'Y', 'L', 'T'],
    ['S', 'T', 'C', 'S', 'Y', 'T', 'C'],
    ['T', 'A', 'L', 'T', 'A', 'L', 'B'],
    ['T', 'B', 'P', 'T', 'B', 'P', 'M'],
    ['T', 'C', 'M', 'T', 'C', 'O', 'M'],
    ['T', 'C', 'O', 'T', 'C', 'O', 'N'],
    ['T', 'C', 'R', 'T', 'C', 'O', 'P'],
    ['T', 'D', 'A', 'T', 'D', 'A', 'T'],
    ['T', 'D', 'Y', 'T', 'D', 'L', 'Y'],
    ['T', 'E', 'N', 'T', 'E', 'N', 'C'],
    ['T', 'F', 'T', 'T', 'F', 'L', 'T'],
    ['T', 'I', 'M', 'T', 'I', 'M', 'E'],
    ['T', 'K', 'E', 'T', 'K', 'E', 'Y'],
    ['T', 'L', 'A', 'T', 'L', 'A', 'N'],
    ['T', 'L', 'E', 'T', 'L', 'E', 'N'],
    ['T', 'M', 'T', 'T', 'M', 'E', 'D'],
    ['T', 'O', 'A', 'T', 'O', 'P', 'E'],
    ['T', 'O', 'F', 'T', 'O', 'F', 'N'],
    ['T', 'O', 'L', 'T', 'O', 'L', 'Y'],
    ['T', 'O', 'R', 'T', 'O', 'R', 'Y'],
    ['T', 'O', 'T', 'T', 'O', 'A', 'L'],
    ['T', 'P', '1', 'T', 'P', 'E', '1'],
    ['T', 'P', '2', 'T', 'P', 'E', '2'],
    ['T', 'P', '3', 'T', 'P', 'E', '3'],
    ['T', 'P', '4', 'T', 'P', 'E', '4'],
    ['T', 'P', 'A', 'T', 'P', 'O', 'S'],
    ['T', 'P', 'B', 'T', 'P', 'U', 'B'],
    ['T', 'R', 'C', 'T', 'S', 'R', 'C'],
    ['T', 'R', 'D', 'T', 'R', 'D', 'A'],
    ['T', 'R', 'K', 'T', 'R', 'C', 'K'],
    ['T', 'S', 'I', 'T', 'S', 'I', 'Z'],
    ['T', 'S', 'S', 'T', 'S', 'S', 'E'],
    ['T', 'T', '1', 'T', 'I', 'T', '1'],
    ['T', 'T', '2', 'T', 'I', 'T', '2'],
    ['T', 'T', '3', 'T', 'I', 'T', '3'],
    ['T', 'X', 'T', 'T', 'E', 'X', 'T'],
    ['T', 'X', 'X', 'T', 'X', 'X', 'X'],
    ['T', 'Y', 'E', 'T', 'Y', 'E', 'R'],
    ['U', 'F', 'I', 'U', 'F', 'I', 'D'],
    ['U', 'L', 'T', 'U', 'S', 'L', 'T'],
    ['W', 'A', 'F', 'W', 'O', 'A', 'F'],
    ['W', 'A', 'R', 'W', 'O', 'A', 'R'],
    ['W', 'A', 'S', 'W', 'O', 'A', 'S'],
    ['W', 'C', 'M', 'W', 'C', 'O', 'M'],
    ['W', 'C', 'P', 'W', 'C', 'O', 'P'],
    ['W', 'P', 'B', 'W', 'P', 'U', 'B'],
    ['W', 'X', 'X', 'W', 'X', 'X', 'X'],
];

/// The first row at or after `from` whose first three characters are those of `id`.
pub open spec fn spec_legacy_row(id: Seq<char>, from: int) -> Option<int>
    decreases LEGACY_COUNT - from,
{
    if from < 0 || from >= LEGACY_COUNT || id.len() != 3 {
        None
    } else if LEGACY_IDS[from][0] == id[0] && LEGACY_IDS[from][1] == id[1] && LEGACY_IDS[from][2]
        == id[2] {
        Some(from)
    } else {
        spec_legacy_row(id, from + 1)
    }
}

/// The identifier that took the place of `id`, an identifier of version 2.2; none where
/// `id` is not known.
pub open spec fn spec_upgrade_id(id: Seq<char>) -> Option<Seq<char>> {
    match spec_legacy_row(id, 0) {
        Some(row) => Some(
            seq![
                LEGACY_IDS[row][3],
                LEGACY_IDS[row][4],
                LEGACY_IDS[row][5],
                LEGACY_IDS[row][6],
            ],
        ),
        None => None,
    }
}

/// The identifier that took the place of the identifier of version 2.2 made of the
/// three given characters, if that one is known.
pub fn upgrade_id(a: char, b: char, c: char) -> (r: Option<[char; 4]>)
    ensures
        match spec_upgrade_id(seq![a, b, c]) {
            Some(id) => r matches Some(found) && found@ == id,
            None => r is None,
        },
{
    let ghost id = seq![a, b, c];
    let mut i: usize = 0;
    while i < LEGACY_COUNT
        invariant
            i <= LEGACY_COUNT,
            id == seq![a, b, c],
            spec_legacy_row(id, 0) == spec_legacy_row(id, i as int),
        decreases LEGACY_COUNT - i,
    {
        let row = LEGACY_IDS[i];
        if row[0] == a && row[1] == b && row[2] == c {
            let found = [row[3], row[4], row[5], row[6]];
            assert(spec_legacy_row(id, i as int) == Some(i as int));
            assert(found@ =~= seq![row[3], row[4], row[5], row[6]]);
            return Some(found);
        }
        i += 1;
    }
    None
}

} // verus!

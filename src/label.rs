use vstd::prelude::*;

verus! {

/// The number of locations that have a one-letter label.
pub const LETTER_COUNT: usize = 26;

/// The code of the letter `A`.
pub const FIRST_LETTER: u8 = 65;

/// The label of location `index`: the capital letter at that position of the
/// alphabet, for the first `LETTER_COUNT` locations.
pub fn city_label(index: usize) -> (r: Option<char>)
    ensures
        index < LETTER_COUNT <==> r is Some,
        r is Some ==> r->Some_0 == (FIRST_LETTER + index) as u8 as char,
{
    if index < LETTER_COUNT {
        let code: u8 = FIRST_LETTER + index as u8;
        Some(code as char)
    } else {
        None
    }
}

} // verus!

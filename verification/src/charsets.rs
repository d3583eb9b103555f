use vstd::prelude::*;

verus! {

/// The 42 characters of free text: space, digits, letters and `+-./?`.
pub open spec fn free_set() -> Seq<char> {
    seq![' ', '0', '1', '2', '3', '4', '5', '6', '7', '8', '9', 'A', 'B', 'C', 'D', 'E', 'F', 'G', 'H', 'I', 'J', 'K', 'L', 'M', 'N', 'O', 'P', 'Q', 'R', 'S', 'T', 'U', 'V', 'W', 'X', 'Y', 'Z', '+', '-', '.', '/', '?']
}

/// The characters of `free_set`.
pub fn free_chars() -> (r: Vec<char>)
    ensures r@ == free_set(),
{
    let r = vec![' ', '0', '1', '2', '3', '4', '5', '6', '7', '8', '9', 'A', 'B', 'C', 'D', 'E', 'F', 'G', 'H', 'I', 'J', 'K', 'L', 'M', 'N', 'O', 'P', 'Q', 'R', 'S', 'T', 'U', 'V', 'W', 'X', 'Y', 'Z', '+', '-', '.', '/', '?'];
    assert(r@ =~= free_set());
    r
}

/// The 16 hexadecimal digits of telemetry.
pub open spec fn telem_set() -> Seq<char> {
    seq!['0', '1', '2', '3', '4', '5', '6', '7', '8', '9', 'A', 'B', 'C', 'D', 'E', 'F']
}

/// The characters of `telem_set`.
pub fn telem_chars() -> (r: Vec<char>)
    ensures r@ == telem_set(),
{
    let r = vec!['0', '1', '2', '3', '4', '5', '6', '7', '8', '9', 'A', 'B', 'C', 'D', 'E', 'F'];
    assert(r@ =~= telem_set());
    r
}

/// Characters allowed first in a standard callsign: space, digits, letters.
pub open spec fn call1_set() -> Seq<char> {
    seq![' ', '0', '1', '2', '3', '4', '5', '6', '7', '8', '9', 'A', 'B', 'C', 'D', 'E', 'F', 'G', 'H', 'I', 'J', 'K', 'L', 'M', 'N', 'O', 'P', 'Q', 'R', 'S', 'T', 'U', 'V', 'W', 'X', 'Y', 'Z']
}

/// The characters of `call1_set`.
pub fn call1_chars() -> (r: Vec<char>)
    ensures r@ == call1_set(),
{
    let r = vec![' ', '0', '1', '2', '3', '4', '5', '6', '7', '8', '9', 'A', 'B', 'C', 'D', 'E', 'F', 'G', 'H', 'I', 'J', 'K', 'L', 'M', 'N', 'O', 'P', 'Q', 'R', 'S', 'T', 'U', 'V', 'W', 'X', 'Y', 'Z'];
    assert(r@ =~= call1_set());
    r
}

/// Characters allowed second in a standard callsign: digits and letters.
pub open spec fn call2_set() -> Seq<char> {
    seq!['0', '1', '2', '3', '4', '5', '6', '7', '8', '9', 'A', 'B', 'C', 'D', 'E', 'F', 'G', 'H', 'I', 'J', 'K', 'L', 'M', 'N', 'O', 'P', 'Q', 'R', 'S', 'T', 'U', 'V', 'W', 'X', 'Y', 'Z']
}

/// The characters of `call2_set`.
pub fn call2_chars() -> (r: Vec<char>)
    ensures r@ == call2_set(),
{
    let r = vec!['0', '1', '2', '3', '4', '5', '6', '7', '8', '9', 'A', 'B', 'C', 'D', 'E', 'F', 'G', 'H', 'I', 'J', 'K', 'L', 'M', 'N', 'O', 'P', 'Q', 'R', 'S', 'T', 'U', 'V', 'W', 'X', 'Y', 'Z'];
    assert(r@ =~= call2_set());
    r
}

/// Characters allowed third in a standard callsign: digits.
pub open spec fn call3_set() -> Seq<char> {
    seq!['0', '1', '2', '3', '4', '5', '6', '7', '8', '9']
}

/// The characters of `call3_set`.
pub fn call3_chars() -> (r: Vec<char>)
    ensures r@ == call3_set(),
{
    let r = vec!['0', '1', '2', '3', '4', '5', '6', '7', '8', '9'];
    assert(r@ =~= call3_set());
    r
}

/// Characters allowed in the last three places of a standard callsign: space and letters.
pub open spec fn call4_set() -> Seq<char> {
    seq![' ', 'A', 'B', 'C', 'D', 'E', 'F', 'G', 'H', 'I', 'J', 'K', 'L', 'M', 'N', 'O', 'P', 'Q', 'R', 'S', 'T', 'U', 'V', 'W', 'X', 'Y', 'Z']
}

/// The characters of `call4_set`.
pub fn call4_chars() -> (r: Vec<char>)
    ensures r@ == call4_set(),
{
    let r = vec![' ', 'A', 'B', 'C', 'D', 'E', 'F', 'G', 'H', 'I', 'J', 'K', 'L', 'M', 'N', 'O', 'P', 'Q', 'R', 'S', 'T', 'U', 'V', 'W', 'X', 'Y', 'Z'];
    assert(r@ =~= call4_set());
    r
}

/// Characters of a nonstandard callsign: space, digits, letters and `/`.
pub open spec fn hash_set() -> Seq<char> {
    seq![' ', '0', '1', '2', '3', '4', '5', '6', '7', '8', '9', 'A', 'B', 'C', 'D', 'E', 'F', 'G', 'H', 'I', 'J', 'K', 'L', 'M', 'N', 'O', 'P', 'Q', 'R', 'S', 'T', 'U', 'V', 'W', 'X', 'Y', 'Z', '/']
}

/// The characters of `hash_set`.
pub fn hash_chars() -> (r: Vec<char>)
    ensures r@ == hash_set(),
{
    let r = vec![' ', '0', '1', '2', '3', '4', '5', '6', '7', '8', '9', 'A', 'B', 'C', 'D', 'E', 'F', 'G', 'H', 'I', 'J', 'K', 'L', 'M', 'N', 'O', 'P', 'Q', 'R', 'S', 'T', 'U', 'V', 'W', 'X', 'Y', 'Z', '/'];
    assert(r@ =~= hash_set());
    r
}

} // verus!

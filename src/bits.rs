//! The fixed bit buffer that backs a board, and the std text helpers the
//! board's text format needs.
use bitvec::array::BitArray;
use bitvec::order::Lsb0;
use vstd::prelude::*;

verus! {

/// Two bits for each of the at most 361 cells, in twelve 64-bit words.
#[verifier::external_body]
#[derive(Copy, Debug, PartialEq, Eq)]
pub struct CellBits {
    bits: BitArray<[u64; 12], Lsb0>,
}

impl Clone for CellBits {
    /// Relies on `BitArray` being `Copy`: the copy holds the same bits.
    #[verifier::external_body]
    fn clone(&self) -> (r: Self)
        ensures
            bits_of(r) == bits_of(*self),
    {
        CellBits { bits: self.bits }
    }
}

/// Number of bits held by a `CellBits`.
pub const CELL_BITS_LEN: usize = 768;

/// The bits held by a buffer, lowest index first.
pub uninterp spec fn bits_of(b: CellBits) -> Seq<bool>;

/// Relies on `BitArray::ZERO`: a buffer of twelve zeroed words, 768 clear bits.
#[verifier::external_body]
pub fn zeroed_bits() -> (r: CellBits)
    ensures
        bits_of(r) == Seq::new(CELL_BITS_LEN as nat, |i: int| false),
{
    CellBits { bits: BitArray::ZERO }
}

/// Relies on indexing a `BitArray` (through its `BitSlice`): reads one bit,
/// panicking only for an index past the end.
#[verifier::external_body]
pub fn bit_at(b: &CellBits, index: usize) -> (r: bool)
    requires
        index < bits_of(*b).len(),
    ensures
        r == bits_of(*b)[index as int],
{
    b.bits[index]
}

/// Relies on `BitSlice::set` (through `BitArray`'s `DerefMut`): writes one bit
/// and leaves the others, panicking only for an index past the end.
#[verifier::external_body]
pub fn set_bit(b: &mut CellBits, index: usize, value: bool)
    requires
        index < bits_of(*old(b)).len(),
    ensures
        bits_of(*final(b)) == bits_of(*old(b)).update(index as int, value),
{
    b.bits.set(index, value)
}

/// The characters with the Unicode `White_Space` property.
pub open spec fn is_white_space(c: char) -> bool {
    let u = c as u32;
    ||| 0x09 <= u <= 0x0d
    ||| u == 0x20
    ||| u == 0x85
    ||| u == 0xa0
    ||| u == 0x1680
    ||| 0x2000 <= u <= 0x200a
    ||| u == 0x2028
    ||| u == 0x2029
    ||| u == 0x202f
    ||| u == 0x205f
    ||| u == 0x3000
}

/// Whether `c` is whitespace, as `char::is_whitespace` decides it: the
/// characters with the Unicode `White_Space` property.
pub fn char_is_whitespace(c: char) -> (r: bool)
    ensures
        r == is_white_space(c),
{
    let u = c as u32;
    (0x09 <= u && u <= 0x0d) || u == 0x20 || u == 0x85 || u == 0xa0 || u == 0x1680 || (0x2000 <= u
        && u <= 0x200a) || u == 0x2028 || u == 0x2029 || u == 0x202f || u == 0x205f || u == 0x3000
}

/// Relies on `str::chars`: the characters of `s`, in order.
#[verifier::external_body]
pub fn chars_of(s: &str) -> (r: Vec<char>)
    ensures
        r@ == s@,
{
    s.chars().collect()
}

/// Relies on collecting characters into a `String`: the same characters, in order.
#[verifier::external_body]
pub fn string_of_chars(cs: &Vec<char>) -> (r: String)
    ensures
        r@ == cs@,
{
    cs.iter().collect()
}

/// Relies on `format!`: the message for a character that is not a cell symbol.
#[verifier::external_body]
pub fn invalid_symbol_message(c: Option<char>) -> (r: String) {
    format!(
        "Invalid input format: expected '○' for black, '●' for white, or '_' for empty cell but got {c:?}",
    )
}

/// Relies on `format!`: the message for a character after the last cell.
#[verifier::external_body]
pub fn extra_character_message(c: char) -> (r: String) {
    format!("Invalid input format: extra characters found after board: {c:?}")
}

} // verus!

//! The line of text that reports one box and the handle that owns it.

use crate::hex::{
    hex_digits, hex_padded, hex_value, is_hex_char, lemma_hex_padded_shape,
    lemma_hex_value_of_digits, lemma_hex_value_of_padded, push_hex_padded,
};
use vstd::arithmetic::power::*;
use vstd::prelude::*;
use vstd::string::*;

verus! {

/// The least number of digits that an address is written with.
pub const ADDRESS_WIDTH: usize = 8;

/// What stands in front of the handle's address.
pub open spec fn root_label() -> Seq<char> {
    "unique root 0x"@
}

/// What stands between the handle's address and the box's.
pub open spec fn box_label() -> Seq<char> {
    " box 0x"@
}

/// The line for a handle stored at `root` that owns the box at `ptr`: both
/// addresses in lowercase hexadecimal, each padded with zeros to eight
/// digits and longer only where the address does not fit in eight.
pub open spec fn report_line(root: nat, ptr: nat) -> Seq<char> {
    root_label() + hex_padded(root, ADDRESS_WIDTH as nat) + box_label() + hex_padded(
        ptr,
        ADDRESS_WIDTH as nat,
    )
}

/// Whether `s` is a line of the fixed shape: the first label, eight digits,
/// the second label, eight digits, and nothing else.
pub open spec fn is_fixed_width_line(s: Seq<char>) -> bool {
    &&& s.len() == 37
    &&& s.subrange(0, 14) == root_label()
    &&& forall|i: int| 14 <= i < 22 ==> is_hex_char(#[trigger] s[i])
    &&& s.subrange(22, 29) == box_label()
    &&& forall|i: int| 29 <= i < 37 ==> is_hex_char(#[trigger] s[i])
}

/// The line that reports the box at `ptr` and its handle at `root`.
pub fn debug_ptr(ptr: usize, root: usize) -> (line: String)
    ensures
        line@ == report_line(root as nat, ptr as nat),
{
    let mut line = String::from_str("unique root 0x");
    push_hex_padded(&mut line, root, ADDRESS_WIDTH);
    line.append(" box 0x");
    push_hex_padded(&mut line, ptr, ADDRESS_WIDTH);
    line
}

/// The sizes of the two labels.
proof fn lemma_label_lens()
    ensures
        root_label().len() == 14,
        box_label().len() == 7,
{
    reveal_strlit("unique root 0x");
    reveal_strlit(" box 0x");
}

/// Eight digits hold exactly the addresses below two to the thirty-second.
proof fn lemma_eight_digits()
    ensures
        pow(16, 8) == 0x1_0000_0000,
{
    reveal(pow);
    assert(pow(16, 0) == 1);
    assert(pow(16, 1) == 16);
    assert(pow(16, 2) == 0x100);
    assert(pow(16, 3) == 0x1000);
    assert(pow(16, 4) == 0x1_0000);
    assert(pow(16, 5) == 0x10_0000);
    assert(pow(16, 6) == 0x100_0000);
    assert(pow(16, 7) == 0x1000_0000);
}

/// A report line has the fixed shape exactly when both addresses fit in
/// thirty-two bits.
pub proof fn lemma_line_shape(root: nat, ptr: nat)
    ensures
        report_line(root, ptr).len() >= 37,
        is_fixed_width_line(report_line(root, ptr)) <==> root < 0x1_0000_0000 && ptr
            < 0x1_0000_0000,
{
    let line = report_line(root, ptr);
    let a = hex_padded(root, 8);
    let b = hex_padded(ptr, 8);
    lemma_label_lens();
    lemma_eight_digits();
    lemma_hex_padded_shape(root, 8);
    lemma_hex_padded_shape(ptr, 8);
    if root < 0x1_0000_0000 && ptr < 0x1_0000_0000 {
        assert(line.subrange(0, 14) =~= root_label());
        assert(line.subrange(22, 29) =~= box_label());
        assert forall|i: int| 14 <= i < 22 implies is_hex_char(#[trigger] line[i]) by {
            assert(line[i] == a[i - 14]);
        }
        assert forall|i: int| 29 <= i < 37 implies is_hex_char(#[trigger] line[i]) by {
            assert(line[i] == b[i - 29]);
        }
    }
}

/// The two address fields of a report line denote the two addresses.
pub proof fn lemma_line_fields(root: nat, ptr: nat)
    ensures
        ({
            let line = report_line(root, ptr);
            let split: int = 14 + hex_padded(root, 8).len() as int;
            &&& line.subrange(0, 14) == root_label()
            &&& hex_value(line.subrange(14, split)) == root
            &&& line.subrange(split, split + 7) == box_label()
            &&& hex_value(line.subrange(split + 7, line.len() as int)) == ptr
        }),
{
    let line = report_line(root, ptr);
    let a = hex_padded(root, 8);
    let b = hex_padded(ptr, 8);
    let split: int = 14 + a.len() as int;
    lemma_label_lens();
    lemma_hex_value_of_digits(root);
    lemma_hex_value_of_digits(ptr);
    lemma_hex_value_of_padded(hex_digits(root), 8);
    lemma_hex_value_of_padded(hex_digits(ptr), 8);
    assert(line.subrange(14, split) =~= a);
    assert(line.subrange(split + 7, line.len() as int) =~= b);
}

} // verus!

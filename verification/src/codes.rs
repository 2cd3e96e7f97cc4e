//! The fixed encoding tables of the compute instruction: destination, compute
//! expression and jump condition, each a total function with an all-zero
//! default for unrecognized text, plus the 16-bit binary rendering of an
//! address.

use vstd::prelude::*;
use crate::scan::str_eq;
use vstd::string::StringExecFns;

verus! {

/// The 3-bit code of a destination field; all zeros when the text is not a
/// recognized destination combination.
pub open spec fn spec_dest_code(d: Seq<char>) -> Seq<char> {
    if d == "M"@ {
        "001"@
    } else if d == "D"@ {
        "010"@
    } else if d == "MD"@ {
        "011"@
    } else if d == "A"@ {
        "100"@
    } else if d == "AM"@ {
        "101"@
    } else if d == "AD"@ {
        "110"@
    } else if d == "AMD"@ {
        "111"@
    } else {
        "000"@
    }
}

/// Whether the text is one of the 28 recognized compute expressions.
pub open spec fn spec_comp_recognized(c: Seq<char>) -> bool {
    c == "0"@ || c == "1"@ || c == "-1"@ || c == "D"@ || c == "A"@ || c == "M"@ || c == "!D"@ || c
        == "!A"@ || c == "!M"@ || c == "-D"@ || c == "-A"@ || c == "-M"@ || c == "D+1"@ || c
        == "A+1"@ || c == "M+1"@ || c == "D-1"@ || c == "A-1"@ || c == "M-1"@ || c == "D+A"@ || c
        == "D+M"@ || c == "D-A"@ || c == "D-M"@ || c == "A-D"@ || c == "M-D"@ || c == "D&A"@ || c
        == "D&M"@ || c == "D|A"@ || c == "D|M"@
}

/// The 7-bit code of a compute expression; all zeros when the text is not
/// recognized.
pub open spec fn spec_comp_code(c: Seq<char>) -> Seq<char> {
    if c == "0"@ {
        "0101010"@
    } else if c == "1"@ {
        "0111111"@
    } else if c == "-1"@ {
        "0111010"@
    } else if c == "D"@ {
        "0001100"@
    } else if c == "A"@ {
        "0110000"@
    } else if c == "M"@ {
        "1110000"@
    } else if c == "!D"@ {
        "0001101"@
    } else if c == "!A"@ {
        "0110001"@
    } else if c == "!M"@ {
        "1110001"@
    } else if c == "-D"@ {
        "0001111"@
    } else if c == "-A"@ {
        "0110011"@
    } else if c == "-M"@ {
        "1110011"@
    } else if c == "D+1"@ {
        "0011111"@
    } else if c == "A+1"@ {
        "0110111"@
    } else if c == "M+1"@ {
        "1110111"@
    } else if c == "D-1"@ {
        "0001110"@
    } else if c == "A-1"@ {
        "0110010"@
    } else if c == "M-1"@ {
        "1110010"@
    } else if c == "D+A"@ {
        "0000010"@
    } else if c == "D+M"@ {
        "1000010"@
    } else if c == "D-A"@ {
        "0010011"@
    } else if c == "D-M"@ {
        "1010011"@
    } else if c == "A-D"@ {
        "0000111"@
    } else if c == "M-D"@ {
        "1000111"@
    } else if c == "D&A"@ {
        "0000000"@
    } else if c == "D&M"@ {
        "1000000"@
    } else if c == "D|A"@ {
        "0010101"@
    } else if c == "D|M"@ {
        "1010101"@
    } else {
        "0000000"@
    }
}

/// The 3-bit code of a jump field; all zeros when the text is not a
/// recognized jump mnemonic.
pub open spec fn spec_jump_code(j: Seq<char>) -> Seq<char> {
    if j == "JGT"@ {
        "001"@
    } else if j == "JEQ"@ {
        "010"@
    } else if j == "JGE"@ {
        "011"@
    } else if j == "JLT"@ {
        "100"@
    } else if j == "JNE"@ {
        "101"@
    } else if j == "JMP"@ {
        "111"@
    } else if j == "JLE"@ {
        "110"@
    } else {
        "000"@
    }
}

/// The 3-bit code of the destination field, all zeros for text outside the
/// fixed table of destination combinations.
pub fn dest_to_binary(dest: &str) -> (r: &str)
    ensures
        r@ == spec_dest_code(dest@),
{
    if str_eq(dest, "M") {
        "001"
    } else if str_eq(dest, "D") {
        "010"
    } else if str_eq(dest, "MD") {
        "011"
    } else if str_eq(dest, "A") {
        "100"
    } else if str_eq(dest, "AM") {
        "101"
    } else if str_eq(dest, "AD") {
        "110"
    } else if str_eq(dest, "AMD") {
        "111"
    } else {
        "000"
    }
}

/// The 7-bit code of the compute expression, all zeros for text outside the
/// fixed table of compute expressions.
pub fn comp_to_binary(comp: &str) -> (r: &str)
    ensures
        r@ == spec_comp_code(comp@),
{
    if str_eq(comp, "0") {
        "0101010"
    } else if str_eq(comp, "1") {
        "0111111"
    } else if str_eq(comp, "-1") {
        "0111010"
    } else if str_eq(comp, "D") {
        "0001100"
    } else if str_eq(comp, "A") {
        "0110000"
    } else if str_eq(comp, "M") {
        "1110000"
    } else if str_eq(comp, "!D") {
        "0001101"
    } else if str_eq(comp, "!A") {
        "0110001"
    } else if str_eq(comp, "!M") {
        "1110001"
    } else if str_eq(comp, "-D") {
        "0001111"
    } else if str_eq(comp, "-A") {
        "0110011"
    } else if str_eq(comp, "-M") {
        "1110011"
    } else if str_eq(comp, "D+1") {
        "0011111"
    } else if str_eq(comp, "A+1") {
        "0110111"
    } else if str_eq(comp, "M+1") {
        "1110111"
    } else if str_eq(comp, "D-1") {
        "0001110"
    } else if str_eq(comp, "A-1") {
        "0110010"
    } else if str_eq(comp, "M-1") {
        "1110010"
    } else if str_eq(comp, "D+A") {
        "0000010"
    } else if str_eq(comp, "D+M") {
        "1000010"
    } else if str_eq(comp, "D-A") {
        "0010011"
    } else if str_eq(comp, "D-M") {
        "1010011"
    } else if str_eq(comp, "A-D") {
        "0000111"
    } else if str_eq(comp, "M-D") {
        "1000111"
    } else if str_eq(comp, "D&A") {
        "0000000"
    } else if str_eq(comp, "D&M") {
        "1000000"
    } else if str_eq(comp, "D|A") {
        "0010101"
    } else if str_eq(comp, "D|M") {
        "1010101"
    } else {
        "0000000"
    }
}

/// The 3-bit code of the jump field, all zeros for text outside the fixed
/// table of jump mnemonics.
pub fn jump_to_binary(jump: &str) -> (r: &str)
    ensures
        r@ == spec_jump_code(jump@),
{
    if str_eq(jump, "JGT") {
        "001"
    } else if str_eq(jump, "JEQ") {
        "010"
    } else if str_eq(jump, "JGE") {
        "011"
    } else if str_eq(jump, "JLT") {
        "100"
    } else if str_eq(jump, "JNE") {
        "101"
    } else if str_eq(jump, "JMP") {
        "111"
    } else if str_eq(jump, "JLE") {
        "110"
    } else {
        "000"
    }
}


/// A binary code line fragment: only `0` and `1` characters.
pub open spec fn spec_is_bits(l: Seq<char>) -> bool {
    forall|i: int| 0 <= i < l.len() ==> l[i] == '0' || l[i] == '1'
}

/// Every destination code is three binary digits.
pub proof fn lemma_dest_code_shape(d: Seq<char>)
    ensures
        spec_dest_code(d).len() == 3,
        spec_is_bits(spec_dest_code(d)),
{
    reveal_strlit("000");
    reveal_strlit("001");
    reveal_strlit("010");
    reveal_strlit("011");
    reveal_strlit("100");
    reveal_strlit("101");
    reveal_strlit("110");
    reveal_strlit("111");
    assert("000"@ =~= seq!['0', '0', '0']);
    assert("001"@ =~= seq!['0', '0', '1']);
    assert("010"@ =~= seq!['0', '1', '0']);
    assert("011"@ =~= seq!['0', '1', '1']);
    assert("100"@ =~= seq!['1', '0', '0']);
    assert("101"@ =~= seq!['1', '0', '1']);
    assert("110"@ =~= seq!['1', '1', '0']);
    assert("111"@ =~= seq!['1', '1', '1']);
}

/// Every compute code is seven binary digits.
pub proof fn lemma_comp_code_shape(c: Seq<char>)
    ensures
        spec_comp_code(c).len() == 7,
        spec_is_bits(spec_comp_code(c)),
{
    reveal_strlit("0101010");
    reveal_strlit("0111111");
    reveal_strlit("0111010");
    reveal_strlit("0001100");
    reveal_strlit("0110000");
    reveal_strlit("1110000");
    reveal_strlit("0001101");
    reveal_strlit("0110001");
    reveal_strlit("1110001");
    reveal_strlit("0001111");
    reveal_strlit("0110011");
    reveal_strlit("1110011");
    reveal_strlit("0011111");
    reveal_strlit("0110111");
    reveal_strlit("1110111");
    reveal_strlit("0001110");
    reveal_strlit("0110010");
    reveal_strlit("1110010");
    reveal_strlit("0000010");
    reveal_strlit("1000010");
    reveal_strlit("0010011");
    reveal_strlit("1010011");
    reveal_strlit("0000111");
    reveal_strlit("1000111");
    reveal_strlit("0000000");
    reveal_strlit("1000000");
    reveal_strlit("0010101");
    reveal_strlit("1010101");
    assert("0101010"@ =~= seq!['0', '1', '0', '1', '0', '1', '0']);
    assert("0111111"@ =~= seq!['0', '1', '1', '1', '1', '1', '1']);
    assert("0111010"@ =~= seq!['0', '1', '1', '1', '0', '1', '0']);
    assert("0001100"@ =~= seq!['0', '0', '0', '1', '1', '0', '0']);
    assert("0110000"@ =~= seq!['0', '1', '1', '0', '0', '0', '0']);
    assert("1110000"@ =~= seq!['1', '1', '1', '0', '0', '0', '0']);
    assert("0001101"@ =~= seq!['0', '0', '0', '1', '1', '0', '1']);
    assert("0110001"@ =~= seq!['0', '1', '1', '0', '0', '0', '1']);
    assert("1110001"@ =~= seq!['1', '1', '1', '0', '0', '0', '1']);
    assert("0001111"@ =~= seq!['0', '0', '0', '1', '1', '1', '1']);
    assert("0110011"@ =~= seq!['0', '1', '1', '0', '0', '1', '1']);
    assert("1110011"@ =~= seq!['1', '1', '1', '0', '0', '1', '1']);
    assert("0011111"@ =~= seq!['0', '0', '1', '1', '1', '1', '1']);
    assert("0110111"@ =~= seq!['0', '1', '1', '0', '1', '1', '1']);
    assert("1110111"@ =~= seq!['1', '1', '1', '0', '1', '1', '1']);
    assert("0001110"@ =~= seq!['0', '0', '0', '1', '1', '1', '0']);
    assert("0110010"@ =~= seq!['0', '1', '1', '0', '0', '1', '0']);
    assert("1110010"@ =~= seq!['1', '1', '1', '0', '0', '1', '0']);
    assert("0000010"@ =~= seq!['0', '0', '0', '0', '0', '1', '0']);
    assert("1000010"@ =~= seq!['1', '0', '0', '0', '0', '1', '0']);
    assert("0010011"@ =~= seq!['0', '0', '1', '0', '0', '1', '1']);
    assert("1010011"@ =~= seq!['1', '0', '1', '0', '0', '1', '1']);
    assert("0000111"@ =~= seq!['0', '0', '0', '0', '1', '1', '1']);
    assert("1000111"@ =~= seq!['1', '0', '0', '0', '1', '1', '1']);
    assert("0000000"@ =~= seq!['0', '0', '0', '0', '0', '0', '0']);
    assert("1000000"@ =~= seq!['1', '0', '0', '0', '0', '0', '0']);
    assert("0010101"@ =~= seq!['0', '0', '1', '0', '1', '0', '1']);
    assert("1010101"@ =~= seq!['1', '0', '1', '0', '1', '0', '1']);
}

/// Every jump code is three binary digits.
pub proof fn lemma_jump_code_shape(j: Seq<char>)
    ensures
        spec_jump_code(j).len() == 3,
        spec_is_bits(spec_jump_code(j)),
{
    reveal_strlit("000");
    reveal_strlit("001");
    reveal_strlit("010");
    reveal_strlit("011");
    reveal_strlit("100");
    reveal_strlit("101");
    reveal_strlit("110");
    reveal_strlit("111");
    assert("000"@ =~= seq!['0', '0', '0']);
    assert("001"@ =~= seq!['0', '0', '1']);
    assert("010"@ =~= seq!['0', '1', '0']);
    assert("011"@ =~= seq!['0', '1', '1']);
    assert("100"@ =~= seq!['1', '0', '0']);
    assert("101"@ =~= seq!['1', '0', '1']);
    assert("110"@ =~= seq!['1', '1', '0']);
    assert("111"@ =~= seq!['1', '1', '1']);
}

/// An unrecognized compute expression encodes as the all-zero field, which
/// differs from the code of the constant-zero expression.
pub proof fn lemma_comp_fallback(c: Seq<char>)
    requires
        !spec_comp_recognized(c),
    ensures
        spec_comp_code(c) == "0000000"@,
        spec_comp_code("0"@) == "0101010"@,
        spec_comp_code(c) != spec_comp_code("0"@),
{
    reveal_strlit("0000000");
    reveal_strlit("0101010");
    assert("0000000"@ =~= seq!['0', '0', '0', '0', '0', '0', '0']);
    assert("0101010"@ =~= seq!['0', '1', '0', '1', '0', '1', '0']);
}

/// The low `width` binary digits of `n`, most significant first.
pub open spec fn spec_bits(n: nat, width: nat) -> Seq<char>
    decreases width,
{
    if width == 0 {
        Seq::empty()
    } else {
        spec_bits(n / 2, (width - 1) as nat) + seq![if n % 2 == 1 { '1' } else { '0' }]
    }
}

/// The 16-character binary rendering of an address, most significant bit
/// first, zero padded.
pub open spec fn spec_bin16(n: u16) -> Seq<char> {
    spec_bits(n as nat, 16)
}

/// Every rendered digit is `0` or `1`, and the width is exact.
pub proof fn lemma_bits_shape(n: nat, width: nat)
    ensures
        spec_bits(n, width).len() == width,
        forall|i: int|
            0 <= i < width ==> spec_bits(n, width)[i] == '0' || spec_bits(n, width)[i] == '1',
    decreases width,
{
    if width > 0 {
        lemma_bits_shape(n / 2, (width - 1) as nat);
    }
}

/// Builds the low `width` binary digits of `n`, most significant first.
pub fn bits_string(n: u16, width: usize) -> (r: String)
    ensures
        r@ == spec_bits(n as nat, width as nat),
    decreases width,
{
    if width == 0 {
        let r = String::new();
        proof {
            assert(r@ =~= spec_bits(n as nat, 0));
        }
        r
    } else {
        let mut r = bits_string(n / 2, width - 1);
        if n % 2 == 1 {
            r.append("1");
            proof {
                reveal_strlit("1");
                assert(r@ =~= spec_bits(n as nat, width as nat));
            }
        } else {
            r.append("0");
            proof {
                reveal_strlit("0");
                assert(r@ =~= spec_bits(n as nat, width as nat));
            }
        }
        r
    }
}


} // verus!

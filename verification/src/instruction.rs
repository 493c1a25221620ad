//! Parsed instructions and their 16-bit binary encodings.
//!
//! A resolved source line is parsed into either an address load or a
//! compute instruction, and each parsed instruction encodes to a string of
//! sixteen '0'/'1' characters. The three mnemonic tables (computation,
//! destination, jump) are exhaustive enumerations; an unrecognized mnemonic
//! is a runtime encoding error, never a silent default.

pub mod hack;

use vstd::prelude::*;

use crate::text::{
    binary_string, bin_val, bits, dec_val, find_char, find_index, is_digits, lemma_bin_val_bits,
    lemma_bits_len, lemma_find_index, parse_number, str_eq,
};

verus! {

/// A computation mnemonic of the ALU, covering both register operands.
#[derive(Clone, Copy, PartialEq, Eq, Structural, Debug)]
pub enum Comp {
    Zero,
    One,
    NegOne,
    D,
    A,
    M,
    NotD,
    NotA,
    NotM,
    NegD,
    NegA,
    NegM,
    DPlusOne,
    APlusOne,
    MPlusOne,
    DMinusOne,
    AMinusOne,
    MMinusOne,
    DPlusA,
    DPlusM,
    DMinusA,
    DMinusM,
    AMinusD,
    MMinusD,
    DAndA,
    DAndM,
    DOrA,
    DOrM,
}

/// A destination mnemonic; absence means "store nothing".
#[derive(Clone, Copy, PartialEq, Eq, Structural, Debug)]
pub enum Dest {
    M,
    D,
    MD,
    A,
    AM,
    AD,
    AMD,
}

/// A jump mnemonic; absence means "never jump".
#[derive(Clone, Copy, PartialEq, Eq, Structural, Debug)]
pub enum Jump {
    JGT,
    JEQ,
    JGE,
    JLT,
    JNE,
    JLE,
    JMP,
}

/// One instruction as parsed from a resolved source line: an address load
/// carrying its operand text, or a compute instruction carrying its field
/// texts.
pub enum Instruction {
    Address(String),
    Compute { dest: Option<String>, comp: String, jump: Option<String> },
}

/// The mathematical shape of a parsed instruction.
pub enum InstructionView {
    Address(Seq<char>),
    Compute { dest: Option<Seq<char>>, comp: Seq<char>, jump: Option<Seq<char>> },
}

impl View for Instruction {
    type V = InstructionView;

    open spec fn view(&self) -> InstructionView {
        match self {
            Instruction::Address(s) => InstructionView::Address(s@),
            Instruction::Compute { dest, comp, jump } => InstructionView::Compute {
                dest: match dest {
                    Option::Some(d) => Option::Some(d@),
                    Option::None => Option::None,
                },
                comp: comp@,
                jump: match jump {
                    Option::Some(j) => Option::Some(j@),
                    Option::None => Option::None,
                },
            },
        }
    }
}

/// The computation mnemonic named by a field text, if any.
pub open spec fn comp_of(s: Seq<char>) -> Option<Comp> {
    if s == "0"@ {
        Option::Some(Comp::Zero)
    } else if s == "1"@ {
        Option::Some(Comp::One)
    } else if s == "-1"@ {
        Option::Some(Comp::NegOne)
    } else if s == "D"@ {
        Option::Some(Comp::D)
    } else if s == "A"@ {
        Option::Some(Comp::A)
    } else if s == "M"@ {
        Option::Some(Comp::M)
    } else if s == "!D"@ {
        Option::Some(Comp::NotD)
    } else if s == "!A"@ {
        Option::Some(Comp::NotA)
    } else if s == "!M"@ {
        Option::Some(Comp::NotM)
    } else if s == "-D"@ {
        Option::Some(Comp::NegD)
    } else if s == "-A"@ {
        Option::Some(Comp::NegA)
    } else if s == "-M"@ {
        Option::Some(Comp::NegM)
    } else if s == "D+1"@ {
        Option::Some(Comp::DPlusOne)
    } else if s == "A+1"@ {
        Option::Some(Comp::APlusOne)
    } else if s == "M+1"@ {
        Option::Some(Comp::MPlusOne)
    } else if s == "D-1"@ {
        Option::Some(Comp::DMinusOne)
    } else if s == "A-1"@ {
        Option::Some(Comp::AMinusOne)
    } else if s == "M-1"@ {
        Option::Some(Comp::MMinusOne)
    } else if s == "D+A"@ {
        Option::Some(Comp::DPlusA)
    } else if s == "D+M"@ {
        Option::Some(Comp::DPlusM)
    } else if s == "D-A"@ {
        Option::Some(Comp::DMinusA)
    } else if s == "D-M"@ {
        Option::Some(Comp::DMinusM)
    } else if s == "A-D"@ {
        Option::Some(Comp::AMinusD)
    } else if s == "M-D"@ {
        Option::Some(Comp::MMinusD)
    } else if s == "D&A"@ {
        Option::Some(Comp::DAndA)
    } else if s == "D&M"@ {
        Option::Some(Comp::DAndM)
    } else if s == "D|A"@ {
        Option::Some(Comp::DOrA)
    } else if s == "D|M"@ {
        Option::Some(Comp::DOrM)
    } else {
        Option::None
    }
}

/// The destination mnemonic named by a field text, if any.
pub open spec fn dest_of(s: Seq<char>) -> Option<Dest> {
    if s == "M"@ {
        Option::Some(Dest::M)
    } else if s == "D"@ {
        Option::Some(Dest::D)
    } else if s == "MD"@ {
        Option::Some(Dest::MD)
    } else if s == "A"@ {
        Option::Some(Dest::A)
    } else if s == "AM"@ {
        Option::Some(Dest::AM)
    } else if s == "AD"@ {
        Option::Some(Dest::AD)
    } else if s == "AMD"@ {
        Option::Some(Dest::AMD)
    } else {
        Option::None
    }
}

/// The jump mnemonic named by a field text, if any.
pub open spec fn jump_of(s: Seq<char>) -> Option<Jump> {
    if s == "JGT"@ {
        Option::Some(Jump::JGT)
    } else if s == "JEQ"@ {
        Option::Some(Jump::JEQ)
    } else if s == "JGE"@ {
        Option::Some(Jump::JGE)
    } else if s == "JLT"@ {
        Option::Some(Jump::JLT)
    } else if s == "JNE"@ {
        Option::Some(Jump::JNE)
    } else if s == "JLE"@ {
        Option::Some(Jump::JLE)
    } else if s == "JMP"@ {
        Option::Some(Jump::JMP)
    } else {
        Option::None
    }
}

/// The a-bit and the six c-bits of a computation, as a 7-bit number.
pub open spec fn comp_code(c: Comp) -> nat {
    match c {
        Comp::Zero => 42,
        Comp::One => 63,
        Comp::NegOne => 58,
        Comp::D => 12,
        Comp::A => 48,
        Comp::M => 112,
        Comp::NotD => 13,
        Comp::NotA => 49,
        Comp::NotM => 113,
        Comp::NegD => 15,
        Comp::NegA => 51,
        Comp::NegM => 115,
        Comp::DPlusOne => 31,
        Comp::APlusOne => 55,
        Comp::MPlusOne => 119,
        Comp::DMinusOne => 14,
        Comp::AMinusOne => 50,
        Comp::MMinusOne => 114,
        Comp::DPlusA => 2,
        Comp::DPlusM => 66,
        Comp::DMinusA => 19,
        Comp::DMinusM => 83,
        Comp::AMinusD => 7,
        Comp::MMinusD => 71,
        Comp::DAndA => 0,
        Comp::DAndM => 64,
        Comp::DOrA => 21,
        Comp::DOrM => 85,
    }
}

/// The three d-bits, as a number; no destination stores nothing.
pub open spec fn dest_code(d: Option<Dest>) -> nat {
    match d {
        Option::None => 0,
        Option::Some(Dest::M) => 1,
        Option::Some(Dest::D) => 2,
        Option::Some(Dest::MD) => 3,
        Option::Some(Dest::A) => 4,
        Option::Some(Dest::AM) => 5,
        Option::Some(Dest::AD) => 6,
        Option::Some(Dest::AMD) => 7,
    }
}

/// The three j-bits, as a number; no jump never jumps.
pub open spec fn jump_code(j: Option<Jump>) -> nat {
    match j {
        Option::None => 0,
        Option::Some(Jump::JGT) => 1,
        Option::Some(Jump::JEQ) => 2,
        Option::Some(Jump::JGE) => 3,
        Option::Some(Jump::JLT) => 4,
        Option::Some(Jump::JNE) => 5,
        Option::Some(Jump::JLE) => 6,
        Option::Some(Jump::JMP) => 7,
    }
}

/// The 16-character encoding of an address load: '0' then the 15-bit
/// binary numeral of the address.
pub open spec fn encode_address(n: nat) -> Seq<char> {
    seq!['0'] + bits(n, 15)
}

/// The 16-character encoding of a compute instruction: '111', the
/// computation bits, the destination bits, the jump bits.
pub open spec fn encode_compute(d: Option<Dest>, c: Comp, j: Option<Jump>) -> Seq<char> {
    seq!['1', '1', '1'] + bits(comp_code(c), 7) + bits(dest_code(d), 3) + bits(jump_code(j), 3)
}

/// What encoding a parsed instruction yields: its machine word, or the
/// error text of the first unencodable field, checked in the order
/// computation, destination, jump.
pub open spec fn encode_model(m: InstructionView) -> Result<Seq<char>, Seq<char>> {
    match m {
        InstructionView::Address(s) => if is_digits(s) && dec_val(s) <= 32767 {
            Result::Ok(encode_address(dec_val(s)))
        } else {
            Result::Err("Invalid address "@ + s)
        },
        InstructionView::Compute { dest, comp, jump } => {
            if comp_of(comp) is None {
                Result::Err("Unknown computation "@ + comp)
            } else if dest is Some && dest_of(dest.unwrap()) is None {
                Result::Err("Unknown destination "@ + dest.unwrap())
            } else if jump is Some && jump_of(jump.unwrap()) is None {
                Result::Err("Unknown jump "@ + jump.unwrap())
            } else {
                Result::Ok(
                    encode_compute(
                        match dest {
                            Option::Some(s) => Option::Some(dest_of(s).unwrap()),
                            Option::None => Option::None,
                        },
                        comp_of(comp).unwrap(),
                        match jump {
                            Option::Some(s) => Option::Some(jump_of(s).unwrap()),
                            Option::None => Option::None,
                        },
                    ),
                )
            }
        },
    }
}

/// What instruction a resolved source line parses to, if any: `@` starts
/// an address load, `(` starts a label declaration (no instruction), and
/// any other non-empty line is read as `[dest=]comp[;jump]`, splitting at
/// the first ';' and then at the first '='.
pub open spec fn parse_line(l: Seq<char>) -> Option<InstructionView> {
    if l.len() == 0 {
        Option::None
    } else if l[0] == '@' {
        Option::Some(InstructionView::Address(l.subrange(1, l.len() as int)))
    } else if l[0] == '(' {
        Option::None
    } else {
        let (left, jump) = match find_index(l, ';') {
            Option::Some(i) => (l.subrange(0, i), Option::Some(l.subrange(i + 1, l.len() as int))),
            Option::None => (l, Option::None),
        };
        let (dest, comp) = match find_index(left, '=') {
            Option::Some(i) => (
                Option::Some(left.subrange(0, i)),
                left.subrange(i + 1, left.len() as int),
            ),
            Option::None => (Option::None, left),
        };
        Option::Some(InstructionView::Compute { dest, comp, jump })
    }
}

/// Law: encoding an in-range address and reading the low fifteen bits back
/// recovers the address exactly, and the leading bit is always '0'.
pub proof fn lemma_address_round_trip(n: nat)
    requires
        n <= 32767,
    ensures
        encode_address(n).len() == 16,
        encode_address(n)[0] == '0',
        bin_val(encode_address(n).skip(1)) == n,
{
    lemma_bits_len(n, 15);
    assert(crate::text::pow2(15) == 32768) by {
        reveal_with_fuel(crate::text::pow2, 16);
    }
    assert(encode_address(n).skip(1) =~= bits(n, 15));
    lemma_bin_val_bits(n, 15);
}

/// Law: every compute-form encoding is sixteen characters long and its top
/// three bits are '111'.
pub proof fn lemma_compute_encoding_shape(d: Option<Dest>, c: Comp, j: Option<Jump>)
    ensures
        encode_compute(d, c, j).len() == 16,
        encode_compute(d, c, j)[0] == '1',
        encode_compute(d, c, j)[1] == '1',
        encode_compute(d, c, j)[2] == '1',
{
    lemma_bits_len(comp_code(c), 7);
    lemma_bits_len(dest_code(d), 3);
    lemma_bits_len(jump_code(j), 3);
}

/// Law: the encoder is a function of the parsed mnemonic combination
/// alone, so the same combination always yields the identical word.
pub proof fn lemma_encoding_deterministic(a: InstructionView, b: InstructionView)
    requires
        a == b,
    ensures
        encode_model(a) == encode_model(b),
{
}

/// The computation mnemonic an instruction field names, if any.
fn parse_comp(s: &str) -> (r: Option<Comp>)
    ensures
        r == comp_of(s@),
{
    if str_eq(s, "0") {
        Some(Comp::Zero)
    } else if str_eq(s, "1") {
        Some(Comp::One)
    } else if str_eq(s, "-1") {
        Some(Comp::NegOne)
    } else if str_eq(s, "D") {
        Some(Comp::D)
    } else if str_eq(s, "A") {
        Some(Comp::A)
    } else if str_eq(s, "M") {
        Some(Comp::M)
    } else if str_eq(s, "!D") {
        Some(Comp::NotD)
    } else if str_eq(s, "!A") {
        Some(Comp::NotA)
    } else if str_eq(s, "!M") {
        Some(Comp::NotM)
    } else if str_eq(s, "-D") {
        Some(Comp::NegD)
    } else if str_eq(s, "-A") {
        Some(Comp::NegA)
    } else if str_eq(s, "-M") {
        Some(Comp::NegM)
    } else if str_eq(s, "D+1") {
        Some(Comp::DPlusOne)
    } else if str_eq(s, "A+1") {
        Some(Comp::APlusOne)
    } else if str_eq(s, "M+1") {
        Some(Comp::MPlusOne)
    } else if str_eq(s, "D-1") {
        Some(Comp::DMinusOne)
    } else if str_eq(s, "A-1") {
        Some(Comp::AMinusOne)
    } else if str_eq(s, "M-1") {
        Some(Comp::MMinusOne)
    } else if str_eq(s, "D+A") {
        Some(Comp::DPlusA)
    } else if str_eq(s, "D+M") {
        Some(Comp::DPlusM)
    } else if str_eq(s, "D-A") {
        Some(Comp::DMinusA)
    } else if str_eq(s, "D-M") {
        Some(Comp::DMinusM)
    } else if str_eq(s, "A-D") {
        Some(Comp::AMinusD)
    } else if str_eq(s, "M-D") {
        Some(Comp::MMinusD)
    } else if str_eq(s, "D&A") {
        Some(Comp::DAndA)
    } else if str_eq(s, "D&M") {
        Some(Comp::DAndM)
    } else if str_eq(s, "D|A") {
        Some(Comp::DOrA)
    } else if str_eq(s, "D|M") {
        Some(Comp::DOrM)
    } else {
        None
    }
}

/// The destination mnemonic an instruction field names, if any.
fn parse_dest(s: &str) -> (r: Option<Dest>)
    ensures
        r == dest_of(s@),
{
    if str_eq(s, "M") {
        Some(Dest::M)
    } else if str_eq(s, "D") {
        Some(Dest::D)
    } else if str_eq(s, "MD") {
        Some(Dest::MD)
    } else if str_eq(s, "A") {
        Some(Dest::A)
    } else if str_eq(s, "AM") {
        Some(Dest::AM)
    } else if str_eq(s, "AD") {
        Some(Dest::AD)
    } else if str_eq(s, "AMD") {
        Some(Dest::AMD)
    } else {
        None
    }
}

/// The jump mnemonic an instruction field names, if any.
fn parse_jump(s: &str) -> (r: Option<Jump>)
    ensures
        r == jump_of(s@),
{
    if str_eq(s, "JGT") {
        Some(Jump::JGT)
    } else if str_eq(s, "JEQ") {
        Some(Jump::JEQ)
    } else if str_eq(s, "JGE") {
        Some(Jump::JGE)
    } else if str_eq(s, "JLT") {
        Some(Jump::JLT)
    } else if str_eq(s, "JNE") {
        Some(Jump::JNE)
    } else if str_eq(s, "JLE") {
        Some(Jump::JLE)
    } else if str_eq(s, "JMP") {
        Some(Jump::JMP)
    } else {
        None
    }
}

/// The numeric code of a computation mnemonic.
fn comp_code_of(c: Comp) -> (r: u64)
    ensures
        r == comp_code(c),
{
    match c {
        Comp::Zero => 42,
        Comp::One => 63,
        Comp::NegOne => 58,
        Comp::D => 12,
        Comp::A => 48,
        Comp::M => 112,
        Comp::NotD => 13,
        Comp::NotA => 49,
        Comp::NotM => 113,
        Comp::NegD => 15,
        Comp::NegA => 51,
        Comp::NegM => 115,
        Comp::DPlusOne => 31,
        Comp::APlusOne => 55,
        Comp::MPlusOne => 119,
        Comp::DMinusOne => 14,
        Comp::AMinusOne => 50,
        Comp::MMinusOne => 114,
        Comp::DPlusA => 2,
        Comp::DPlusM => 66,
        Comp::DMinusA => 19,
        Comp::DMinusM => 83,
        Comp::AMinusD => 7,
        Comp::MMinusD => 71,
        Comp::DAndA => 0,
        Comp::DAndM => 64,
        Comp::DOrA => 21,
        Comp::DOrM => 85,
    }
}

/// The numeric code of an optional destination mnemonic.
fn dest_code_of(d: &Option<Dest>) -> (r: u64)
    ensures
        r == dest_code(*d),
{
    match d {
        Option::None => 0,
        Option::Some(Dest::M) => 1,
        Option::Some(Dest::D) => 2,
        Option::Some(Dest::MD) => 3,
        Option::Some(Dest::A) => 4,
        Option::Some(Dest::AM) => 5,
        Option::Some(Dest::AD) => 6,
        Option::Some(Dest::AMD) => 7,
    }
}

/// The numeric code of an optional jump mnemonic.
fn jump_code_of(j: &Option<Jump>) -> (r: u64)
    ensures
        r == jump_code(*j),
{
    match j {
        Option::None => 0,
        Option::Some(Jump::JGT) => 1,
        Option::Some(Jump::JEQ) => 2,
        Option::Some(Jump::JGE) => 3,
        Option::Some(Jump::JLT) => 4,
        Option::Some(Jump::JNE) => 5,
        Option::Some(Jump::JLE) => 6,
        Option::Some(Jump::JMP) => 7,
    }
}

impl Instruction {
    /// Parse one resolved source line into an instruction; a label
    /// declaration or an empty line is no instruction at all.
    pub fn from(op: &str) -> (r: Option<Instruction>)
        ensures
            match r {
                Option::Some(inst) => parse_line(op@) == Option::Some(inst@),
                Option::None => parse_line(op@) is None,
            },
    {
        let len = op.unicode_len();
        if len == 0 {
            return None;
        }
        let c0 = op.get_char(0);
        if c0 == '@' {
            let operand = String::from_str(op.substring_char(1, len));
            return Some(Instruction::Address(operand));
        }
        if c0 == '(' {
            return None;
        }
        let (left, jump): (&str, Option<String>) = match find_char(op, ';') {
            Some(i) => {
                proof {
                    lemma_find_index(op@, ';');
                }
                (
                    op.substring_char(0, i),
                    Some(String::from_str(op.substring_char(i + 1, len))),
                )
            },
            None => (op, None),
        };
        let llen = left.unicode_len();
        let (dest, comp): (Option<String>, String) = match find_char(left, '=') {
            Some(i) => {
                proof {
                    lemma_find_index(left@, '=');
                }
                (
                    Some(String::from_str(left.substring_char(0, i))),
                    String::from_str(left.substring_char(i + 1, llen)),
                )
            },
            None => (None, String::from_str(left)),
        };
        Some(Instruction::Compute { dest, comp, jump })
    }

    /// Encode this instruction as its sixteen-character machine word, or
    /// report the first field that cannot be encoded.
    pub fn to_hack(self) -> (r: Result<String, String>)
        ensures
            match r {
                Result::Ok(s) => encode_model(self@) == Result::Ok::<Seq<char>, Seq<char>>(s@),
                Result::Err(e) => encode_model(self@) == Result::Err::<Seq<char>, Seq<char>>(e@),
            },
    {
        match self {
            Instruction::Address(s) => {
                match parse_number(s.as_str(), 32767) {
                    Some(v) => {
                        let mut r = String::from_str("0");
                        r.append(binary_string(v, 15).as_str());
                        proof {
                            reveal_strlit("0");
                            assert(r@ =~= encode_address(v as nat));
                        }
                        Ok(r)
                    },
                    None => {
                        let mut e = String::from_str("Invalid address ");
                        e.append(s.as_str());
                        Err(e)
                    },
                }
            },
            Instruction::Compute { dest, comp, jump } => {
                let c = match parse_comp(comp.as_str()) {
                    Some(c) => c,
                    None => {
                        let mut e = String::from_str("Unknown computation ");
                        e.append(comp.as_str());
                        return Err(e);
                    },
                };
                let d: Option<Dest> = match &dest {
                    Option::None => Option::None,
                    Option::Some(ds) => match parse_dest(ds.as_str()) {
                        Some(d) => Some(d),
                        None => {
                            let mut e = String::from_str("Unknown destination ");
                            e.append(ds.as_str());
                            return Err(e);
                        },
                    },
                };
                let j: Option<Jump> = match &jump {
                    Option::None => Option::None,
                    Option::Some(js) => match parse_jump(js.as_str()) {
                        Some(j) => Some(j),
                        None => {
                            let mut e = String::from_str("Unknown jump ");
                            e.append(js.as_str());
                            return Err(e);
                        },
                    },
                };
                let mut r = String::from_str("111");
                r.append(binary_string(comp_code_of(c), 7).as_str());
                r.append(binary_string(dest_code_of(&d), 3).as_str());
                r.append(binary_string(jump_code_of(&j), 3).as_str());
                proof {
                    reveal_strlit("111");
                    assert(r@ =~= encode_compute(d, c, j));
                }
                Ok(r)
            },
        }
    }
}

} // verus!

use hack_assembler::instruction::hack::Hackable;
use hack_assembler::instruction::Instruction;

fn encode_line(line: &str) -> Result<String, String> {
    match Instruction::from(line) {
        Some(inst) => inst.to_hack(),
        None => Err(format!("no instruction: {line}")),
    }
}

#[test]
fn address_instructions_round_trip() {
    for n in [0u16, 1, 2, 15, 16, 255, 16384, 24576, 32767] {
        let line = format!("@{}", n);
        let word = encode_line(&line).unwrap();
        assert_eq!(16, word.len());
        assert_eq!('0', word.chars().next().unwrap());
        let mut value: u32 = 0;
        for c in word.chars().skip(1) {
            value = value * 2 + if c == '1' { 1 } else { 0 };
        }
        assert_eq!(n as u32, value);
    }
}

#[test]
fn compute_encodings_start_with_111_and_are_deterministic() {
    for line in [
        "D=M",
        "0;JMP",
        "AMD=D|M;JLE",
        "M=M+1",
        "D;JEQ",
        "A=!A",
        "D=D&A",
        "MD=A-D;JNE",
    ] {
        let first = encode_line(line).unwrap();
        let second = encode_line(line).unwrap();
        assert_eq!(first, second);
        assert_eq!(16, first.len());
        assert_eq!("111", &first[0..3]);
    }
}

#[test]
fn exact_words_for_known_instructions() {
    assert_eq!("0000000000000010", encode_line("@2").unwrap());
    assert_eq!("1110110000010000", encode_line("D=A").unwrap());
    assert_eq!("1110000010010000", encode_line("D=D+A").unwrap());
    assert_eq!("1110001100001000", encode_line("M=D").unwrap());
    assert_eq!("0000000000111100", encode_line("@60").unwrap());
    assert_eq!("1110101010000111", encode_line("0;JMP").unwrap());
}

#[test]
fn unknown_computation_is_reported() {
    assert_eq!(Err("Unknown computation Y".to_string()), encode_line("X=Y"));
}

#[test]
fn unknown_destination_is_reported() {
    assert_eq!(Err("Unknown destination X".to_string()), encode_line("X=D"));
}

#[test]
fn unknown_jump_is_reported() {
    assert_eq!(Err("Unknown jump JXX".to_string()), encode_line("D;JXX"));
}

#[test]
fn out_of_range_address_is_reported() {
    assert_eq!(
        Err("Invalid address 32768".to_string()),
        encode_line("@32768")
    );
    assert_eq!(Err("Invalid address foo".to_string()), encode_line("@foo"));
}

#[test]
fn hackable_trait_encodes() {
    let inst = Instruction::from("D=M").unwrap();
    assert_eq!(Ok("1111110000010000".to_string()), Hackable::to_hack(inst));
}

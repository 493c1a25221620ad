use hack_assembler::assembler::Assembler;

#[test]
fn default_symbols_are_replaced_correctly() {
    let mut assembler = Assembler::new(vec![
        "@R0".to_string(),
        "D=M".to_string(),
        "(TEST_LABEL)".to_string(),
    ]);

    assembler.replace_symbols();

    assert_eq!(
        vec![
            "@0".to_string(),
            "D=M".to_string(),
            "(TEST_LABEL)".to_string()
        ],
        assembler.without_symbols
    );
}

#[test]
fn labels_are_replaced_correctly() {
    let source = vec![
        "@R0".to_string(),
        "D=M".to_string(),
        "@ZERO_OUTPUT".to_string(),
        "D;JEQ".to_string(),
        "(ZERO_OUTPUT)".to_string(),
        "@0".to_string(),
        "D=A".to_string(),
        "@R2".to_string(),
        "M=D".to_string(),
        "@END".to_string(),
        "0;JMP".to_string(),
        "(INCR_D)".to_string(),
        "D=D+1".to_string(),
        "(END)".to_string(),
        "@END".to_string(),
        "0;JMP".to_string(),
    ];

    let processed = vec![
        "@0".to_string(),
        "D=M".to_string(),
        "@4".to_string(),
        "D;JEQ".to_string(),
        "@0".to_string(),
        "D=A".to_string(),
        "@2".to_string(),
        "M=D".to_string(),
        "@11".to_string(),
        "0;JMP".to_string(),
        "D=D+1".to_string(),
        "@11".to_string(),
        "0;JMP".to_string(),
    ];

    let mut assembler = Assembler::new(source);
    assembler.replace_symbols();
    assembler.replace_labels();

    assert_eq!(processed, assembler.without_labels);
}

#[test]
fn variables_are_replaced_correctly() {
    let source = vec![
        "@R0".to_string(),
        "D=M".to_string(),
        "@a".to_string(),
        "M=M+1".to_string(),
        "@ZERO_OUTPUT".to_string(),
        "D;JEQ".to_string(),
        "(ZERO_OUTPUT)".to_string(),
        "@0".to_string(),
        "D=A".to_string(),
        "@R2".to_string(),
        "M=D".to_string(),
        "@END".to_string(),
        "0;JMP".to_string(),
        "(INCR_D)".to_string(),
        "D=D+1".to_string(),
        "@b".to_string(),
        "M=M+1".to_string(),
        "(END)".to_string(),
        "@END".to_string(),
        "0;JMP".to_string(),
    ];

    let processed = vec![
        "@0".to_string(),
        "D=M".to_string(),
        "@16".to_string(),
        "M=M+1".to_string(),
        "@6".to_string(),
        "D;JEQ".to_string(),
        "@0".to_string(),
        "D=A".to_string(),
        "@2".to_string(),
        "M=D".to_string(),
        "@15".to_string(),
        "0;JMP".to_string(),
        "D=D+1".to_string(),
        "@17".to_string(),
        "M=M+1".to_string(),
        "@15".to_string(),
        "0;JMP".to_string(),
    ];

    let mut assembler = Assembler::new(source);
    assembler.replace_symbols();
    assembler.replace_labels();
    assembler.replace_variables();

    assert_eq!(processed, assembler.without_variables);
}

#[test]
fn compilation_works() {
    let source = vec![
        "@R0".to_string(),
        "D=M".to_string(),
        "@a".to_string(),
        "M=M+1".to_string(),
        "@ZERO_OUTPUT".to_string(),
        "D;JEQ".to_string(),
        "(ZERO_OUTPUT)".to_string(),
        "@0".to_string(),
        "D=A".to_string(),
        "@R2".to_string(),
        "M=D".to_string(),
        "@END".to_string(),
        "0;JMP".to_string(),
        "(INCR_D)".to_string(),
        "D=D+1".to_string(),
        "@b".to_string(),
        "M=M+1".to_string(),
        "(END)".to_string(),
        "@END".to_string(),
        "0;JMP".to_string(),
    ];

    let expected: Vec<String> = vec![
        "0000000000000000".to_string(),
        "1111110000010000".to_string(),
        "0000000000010000".to_string(),
        "1111110111001000".to_string(),
        "0000000000000110".to_string(),
        "1110001100000010".to_string(),
        "0000000000000000".to_string(),
        "1110110000010000".to_string(),
        "0000000000000010".to_string(),
        "1110001100001000".to_string(),
        "0000000000001111".to_string(),
        "1110101010000111".to_string(),
        "1110011111010000".to_string(),
        "0000000000010001".to_string(),
        "1111110111001000".to_string(),
        "0000000000001111".to_string(),
        "1110101010000111".to_string(),
    ];

    let mut assembler = Assembler::new(source);
    assembler.pre_process();

    assert_eq!(expected, assembler.compile().unwrap());
}

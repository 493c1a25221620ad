use hack_assembler::assembler::Assembler;

#[test]
fn every_predefined_symbol_resolves_to_its_address() {
    let names = [
        "SP", "LCL", "ARG", "THIS", "THAT", "R0", "R1", "R2", "R3", "R4", "R5", "R6", "R7",
        "R8", "R9", "R10", "R11", "R12", "R13", "R14", "R15", "SCREEN", "KBD",
    ];
    let addrs = [
        0, 1, 2, 3, 4, 0, 1, 2, 3, 4, 5, 6, 7, 8, 9, 10, 11, 12, 13, 14, 15, 16384, 24576,
    ];
    let mut assembler = Assembler::new(names.iter().map(|n| format!("@{n}")).collect());
    assembler.replace_symbols();
    for (k, a) in addrs.iter().enumerate() {
        assert_eq!(format!("@{a}"), assembler.without_symbols[k]);
    }
}

#[test]
fn symbol_lookup_is_case_sensitive() {
    let mut assembler = Assembler::new(vec!["@sp".to_string()]);
    assembler.replace_symbols();
    assert_eq!(vec!["@sp".to_string()], assembler.without_symbols);
}

#[test]
fn label_declarations_are_dropped_from_the_output() {
    let source = vec![
        "(START)".to_string(),
        "@START".to_string(),
        "D=A".to_string(),
        "(MID)".to_string(),
        "@MID".to_string(),
        "(END)".to_string(),
        "@END".to_string(),
    ];
    let mut assembler = Assembler::new(source.clone());
    assembler.replace_symbols();
    assembler.replace_labels();
    assert_eq!(source.len() - 3, assembler.without_labels.len());
    for line in &assembler.without_labels {
        assert!(!line.starts_with('('));
    }
    assert_eq!(
        vec![
            "@0".to_string(),
            "D=A".to_string(),
            "@2".to_string(),
            "@3".to_string(),
        ],
        assembler.without_labels
    );
}

#[test]
fn variables_allocate_in_first_seen_order() {
    let source = vec![
        "@one".to_string(),
        "@two".to_string(),
        "@one".to_string(),
        "@three".to_string(),
        "@two".to_string(),
    ];
    let mut assembler = Assembler::new(source);
    assembler.pre_process();
    assert_eq!(
        vec![
            "@16".to_string(),
            "@17".to_string(),
            "@16".to_string(),
            "@18".to_string(),
            "@17".to_string(),
        ],
        assembler.without_variables
    );
}

#[test]
fn numeric_operands_pass_through_every_stage() {
    let mut assembler = Assembler::new(vec!["@0".to_string(), "@32767".to_string()]);
    assembler.pre_process();
    assert_eq!(
        vec!["@0".to_string(), "@32767".to_string()],
        assembler.without_variables
    );
}

#[test]
fn numeric_operands_above_the_address_range_are_not_variables() {
    let mut assembler = Assembler::new(vec!["@70000".to_string(), "@x".to_string()]);
    assembler.pre_process();
    assert_eq!(
        vec!["@70000".to_string(), "@16".to_string()],
        assembler.without_variables
    );
    assert_eq!(
        Err("Invalid address 70000".to_string()),
        assembler.compile()
    );
}

#[test]
fn compilation_halts_at_first_failure() {
    let mut assembler = Assembler::new(vec![
        "@1".to_string(),
        "D=Q".to_string(),
        "D=A".to_string(),
    ]);
    assembler.pre_process();
    assert_eq!(Err("Unknown computation Q".to_string()), assembler.compile());
}

#[test]
fn unparseable_line_is_reported_with_its_text() {
    let mut assembler = Assembler::new(vec!["@1".to_string(), "".to_string()]);
    assembler.pre_process();
    assert_eq!(Err("Could not parse ".to_string()), assembler.compile());
}

#[test]
fn empty_program_compiles_to_nothing() {
    let mut assembler = Assembler::new(vec![]);
    assembler.pre_process();
    assert_eq!(Ok(Vec::<String>::new()), assembler.compile());
}

use hasm::assemble_string;
use hasm::error::AsmError;
use hasm::parser::Parser;
use hasm::symbol_table::SymbolTable;

#[test]
fn address_immediate_keeps_value() {
    let out = assemble_string("@5\n0;JMP").unwrap();
    assert_eq!(out, "0000000000000101\n1110101010000111\n");
}

#[test]
fn variables_start_at_sixteen_and_bind_once() {
    let out = assemble_string("@i\n@j\n@i\n0;JMP").unwrap();
    assert_eq!(
        out,
        "0000000000010000\n0000000000010001\n0000000000010000\n1110101010000111\n"
    );
}

#[test]
fn label_binds_to_next_instruction_address() {
    let out = assemble_string("(LOOP)\n@1\n@LOOP").unwrap();
    assert_eq!(out, "0000000000000001\n0000000000000000\n");
}

#[test]
fn duplicate_label_is_an_error() {
    let err = assemble_string("(X)\n@1\n(X)\n@2").unwrap_err();
    match err {
        AsmError::DuplicateLabel { name, address } => {
            assert_eq!(name, b"X".to_vec());
            assert_eq!(address, 0);
        },
        other => panic!("expected DuplicateLabel, got {:?}", other),
    }
}

#[test]
fn label_colliding_with_seeded_name_is_an_error() {
    let err = assemble_string("(R5)\n@1").unwrap_err();
    match err {
        AsmError::DuplicateLabel { name, address } => {
            assert_eq!(name, b"R5".to_vec());
            assert_eq!(address, 5);
        },
        other => panic!("expected DuplicateLabel, got {:?}", other),
    }
}

#[test]
fn bare_operation_is_missing_effect() {
    let err = assemble_string("D+1").unwrap_err();
    assert!(matches!(err, AsmError::MissingEffect));
}

#[test]
fn jump_or_destination_gives_an_effect() {
    assert_eq!(assemble_string("D+1;JMP").unwrap(), "1110011111000111\n");
    assert_eq!(assemble_string("D=D+1").unwrap(), "1110011111010000\n");
}

#[test]
fn six_instruction_program() {
    let out = assemble_string("@2\nD=A\n@3\nD=D+A\n@0\nM=D").unwrap();
    let want = "0000000000000010\n1110110000010000\n0000000000000011\n1110000010010000\n0000000000000000\n1110001100001000\n";
    assert_eq!(out, want);
}

#[test]
fn stripped_source_assembles_identically() {
    let original = "  @2 // load two\n\tD = A // copy\n(LOOP)\n@LOOP // spin\n0;JMP";
    let stripped = "@2\nD=A\n(LOOP)\n@LOOP\n0;JMP";
    let parser = Parser::from_string(original);
    assert_eq!(parser.text, stripped.as_bytes().to_vec());
    assert_eq!(
        assemble_string(original).unwrap(),
        assemble_string(stripped).unwrap()
    );
}

#[test]
fn empty_source_gives_empty_output() {
    assert_eq!(assemble_string("").unwrap(), "");
    assert_eq!(assemble_string("// only a comment\n\n").unwrap(), "");
}

#[test]
fn seeded_names_resolve_to_fixed_addresses() {
    let out = assemble_string("@R5\n@SCREEN\n@KBD\n@SP\n@THAT").unwrap();
    assert_eq!(
        out,
        "0000000000000101\n0100000000000000\n0110000000000000\n0000000000000000\n0000000000000100\n"
    );
}

#[test]
fn invalid_jump_names_the_token() {
    let err = assemble_string("D;JXX").unwrap_err();
    match err {
        AsmError::InvalidJump { token } => assert_eq!(token, b"JXX".to_vec()),
        other => panic!("expected InvalidJump, got {:?}", other),
    }
}

#[test]
fn invalid_destination_names_the_token() {
    let err = assemble_string("X=D").unwrap_err();
    match err {
        AsmError::InvalidDestination { token } => assert_eq!(token, b"X".to_vec()),
        other => panic!("expected InvalidDestination, got {:?}", other),
    }
}

#[test]
fn invalid_operation_names_the_token() {
    let err = assemble_string("D=W").unwrap_err();
    match err {
        AsmError::InvalidOperation { token } => assert_eq!(token, b"W".to_vec()),
        other => panic!("expected InvalidOperation, got {:?}", other),
    }
}

#[test]
fn unrecognized_line_carries_line_number_and_text() {
    let err = assemble_string("@1\n\n@@").unwrap_err();
    match err {
        AsmError::UnrecognizedLine { line, text } => {
            assert_eq!(line, 3);
            assert_eq!(text, b"@@".to_vec());
        },
        other => panic!("expected UnrecognizedLine, got {:?}", other),
    }
}

#[test]
fn oversized_address_literal_is_rejected() {
    let err = assemble_string("@32768").unwrap_err();
    match err {
        AsmError::AddressOutOfRange { text } => assert_eq!(text, b"32768".to_vec()),
        other => panic!("expected AddressOutOfRange, got {:?}", other),
    }
    assert_eq!(assemble_string("@32767").unwrap(), "0111111111111111\n");
    let long = assemble_string("@000000000000000099999").unwrap_err();
    assert!(matches!(long, AsmError::AddressOutOfRange { .. }));
}

#[test]
fn symbol_table_allocates_lazily() {
    let parser = Parser::from_string("(START)\n@1");
    let mut table = SymbolTable::new(&parser).unwrap();
    assert_eq!(table.get_address(b"first"), 16);
    assert_eq!(table.get_address(b"second"), 17);
    assert_eq!(table.get_address(b"first"), 16);
    assert_eq!(table.get_address(b"START"), 0);
    assert_eq!(table.get_address(b"SP"), 0);
    assert_eq!(table.get_address(b"KBD"), 24576);
}

#[test]
fn too_many_instructions_is_an_error() {
    let mut source = String::new();
    for _ in 0..65536 {
        source.push_str("@1\n");
    }
    let err = assemble_string(&source).unwrap_err();
    assert!(matches!(err, AsmError::ProgramTooLarge));
    let mut shorter = String::new();
    for _ in 0..65535 {
        shorter.push_str("@1\n");
    }
    assert!(assemble_string(&shorter).is_ok());
}

#[test]
fn first_pass_error_surfaces_from_table_construction() {
    let parser = Parser::from_string("@1\nnope nope");
    assert!(SymbolTable::new(&parser).is_err());
}

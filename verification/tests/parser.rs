use hasm::parser::{ACommand, AsmLine, Command, Parser};

#[test]
fn filter() {
    let source = "\
        @3 //blub
        @4
        //blubbl
        ";

    let parser = Parser::from_string(source);

    assert_eq!(parser.text, b"@3\n@4\n\n".to_vec());
}

#[test]
fn parse() {
    let source = "
        @5
        @3 //blub
        @4
        //blubbl
        (BLUB)
        (lo)
        A;JEQ
        ";

    let parser = Parser::from_string(source);

    let mut lines = parser.iter();
    while let Some(line) = lines.next() {
        println!("{:x?}", line);
    }
}

#[test]
fn parse_address_immediate() {
    let line = AsmLine::parse(1, 0, b"@21").unwrap();
    assert_eq!(line.address, 0);
    assert!(matches!(line.command, Command::A(ACommand::Constant(21))));
}

#[test]
fn parse_address_symbolic() {
    let line = AsmLine::parse(1, 3, b"@loop$x.y:z_0").unwrap();
    assert_eq!(line.address, 3);
    match line.command {
        Command::A(ACommand::Symbol(name)) => assert_eq!(name, b"loop$x.y:z_0".to_vec()),
        other => panic!("expected a symbolic address, got {:?}", other),
    }
}

#[test]
fn parse_label() {
    let line = AsmLine::parse(1, 7, b"(END)").unwrap();
    match line.command {
        Command::L(name) => assert_eq!(name, b"END".to_vec()),
        other => panic!("expected a label, got {:?}", other),
    }
}

#[test]
fn parse_compute() {
    let line = AsmLine::parse(1, 0, b"D=D+A").unwrap();
    match line.command {
        Command::C(code) => assert_eq!(code, 0b1110_0000_1001_0000),
        other => panic!("expected a compute instruction, got {:?}", other),
    }
}

#[test]
fn stream_counts_addresses_and_skips_labels() {
    let parser = Parser::from_string("@1\n(HERE)\n@2");
    let mut lines = parser.iter();
    assert_eq!(lines.next().unwrap().unwrap().address, 0);
    assert_eq!(lines.next().unwrap().unwrap().address, 1);
    assert_eq!(lines.next().unwrap().unwrap().address, 1);
    assert!(lines.next().is_none());
}

#[test]
fn stream_stops_after_error() {
    let parser = Parser::from_string("@1\n@@\n@2");
    let mut lines = parser.iter();
    assert!(lines.next().unwrap().is_ok());
    assert!(lines.next().unwrap().is_err());
    assert!(lines.next().is_none());
}

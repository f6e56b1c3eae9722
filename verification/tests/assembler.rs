use bcasm::{parse_asm, parse_value, produce_machine_code, AsmError, SymTable};

#[test]
fn test_parse_value() {
    assert_eq!(12, parse_value("12").unwrap());
    assert_eq!(12, parse_value("014").unwrap());
    assert_eq!(12, parse_value("0xC").unwrap());
    assert_eq!(12, parse_value("0xc").unwrap());
}

#[test]
fn test_parse_asm() {
    let contents = "data:    \n \
            a 1   \n \
            b 2   \n \
         text:    \n \
            lda a \n \
            add b \n \
            out   \n \
            hlt";

    let (data, code) = parse_asm(contents.into()).unwrap();

    assert_eq!(2, data.len());
    assert_eq!(4, code.len());

    assert_eq!("lda a", code[0]);
    assert_eq!("add b", code[1]);
    assert_eq!("out", code[2]);
    assert_eq!("hlt", code[3]);

    assert_eq!((1, false), data.get("a").unwrap());
    assert_eq!((2, false), data.get("b").unwrap());

    println!("output: {:?}\n{:?}", data, code);
}

#[test]
fn test_produce_machine_code() {
    let mut data = SymTable::new();
    data.insert("a".to_string(), 1, false);
    data.insert("b".to_string(), 2, false);

    let code = vec![
        "lda a".to_string(),
        "add b".to_string(),
        "out".to_string(),
        "hlt".to_string(),
    ];

    let machine_code = produce_machine_code((data, code)).unwrap();

    assert_eq!(7, machine_code.len());

    assert_eq!(0x4003, machine_code[0]); // 0000 bun 0003
    assert_eq!(0x0001, machine_code[1]); // 0001        1
    assert_eq!(0x0002, machine_code[2]); // 0002        2
    assert_eq!(0x2001, machine_code[3]); // 0003 lda 0001
    assert_eq!(0x1002, machine_code[4]); // 0004 add 0002
    assert_eq!(0xf400, machine_code[5]); // 0005 out
    assert_eq!(0x7001, machine_code[6]); // 0006 hlt
}

#[test]
fn parse_value_char_literal() {
    assert_eq!(65, parse_value("'A'").unwrap());
    assert_eq!(97, parse_value("'a'").unwrap());
    // only the character after the opening quote is read
    assert_eq!(120, parse_value("'xyz'").unwrap());
}

#[test]
fn parse_value_malformed_char_literal() {
    assert!(matches!(parse_value("'"), Err(AsmError::MalformedCharLiteral)));
}

#[test]
fn parse_value_invalid_digits() {
    assert!(matches!(parse_value("0xzz"), Err(AsmError::InvalidNumber)));
    assert!(matches!(parse_value("09"), Err(AsmError::InvalidNumber)));
    assert!(matches!(parse_value("abc"), Err(AsmError::InvalidNumber)));
    assert!(matches!(parse_value(""), Err(AsmError::InvalidNumber)));
}

#[test]
fn parse_value_overflow() {
    assert_eq!(65535, parse_value("65535").unwrap());
    assert_eq!(65535, parse_value("0xFFFF").unwrap());
    assert!(matches!(parse_value("65536"), Err(AsmError::InvalidNumber)));
    assert!(matches!(parse_value("0x10000"), Err(AsmError::InvalidNumber)));
}

#[test]
fn parse_value_case_and_prefixes() {
    // the token is lowercased before the prefix is inspected
    assert_eq!(31, parse_value("0X1F").unwrap());
    // a lone zero is decimal
    assert_eq!(0, parse_value("0").unwrap());
    // "0x" with no digits falls into the octal branch and fails on 'x'
    assert!(matches!(parse_value("0x"), Err(AsmError::InvalidNumber)));
}

#[test]
fn parse_asm_labels_and_sections() {
    let contents = "data:\na 1\ntext:\nloop:\nlda a\nbun loop";
    let (data, code) = parse_asm(contents.into()).unwrap();
    assert_eq!(2, data.len());
    assert_eq!((1, false), data.get("a").unwrap());
    // the label records the address of the line that follows it:
    // one data line before it, so the next slot is 2
    assert_eq!((2, true), data.get("loop").unwrap());
    assert_eq!(vec!["lda a".to_string(), "bun loop".to_string()], code);
}

#[test]
fn parse_asm_comments_and_case() {
    let contents = "// full comment line\nDATA:\nA 1//\nTEXT:\nHLT";
    let (data, code) = parse_asm(contents.into()).unwrap();
    assert_eq!(1, data.len());
    // everything is lowercased, and the trailing comment marker is stripped
    assert_eq!((1, false), data.get("a").unwrap());
    assert_eq!(vec!["hlt".to_string()], code);
}

#[test]
fn parse_asm_label_shares_line() {
    // a label definition prefixed to an instruction counts as two lines
    let contents = "text:\nstart: hlt";
    let (data, code) = parse_asm(contents.into()).unwrap();
    assert_eq!((1, true), data.get("start").unwrap());
    assert_eq!(vec!["hlt".to_string()], code);
}

#[test]
fn parse_asm_duplicate_label_overwrites() {
    let contents = "data:\na 1\na 2";
    let (data, _) = parse_asm(contents.into()).unwrap();
    assert_eq!(1, data.len());
    assert_eq!((2, false), data.get("a").unwrap());
}

#[test]
fn parse_asm_malformed_value() {
    let r = parse_asm("data:\nx zz9".to_string());
    assert!(matches!(r, Err(AsmError::MalformedValue(t)) if t == "zz9"));
}

#[test]
fn parse_asm_char_literal_data() {
    // the whole text is lowercased before parsing, so the quoted character
    // arrives at the value parser already in small form
    let (data, _) = parse_asm("data:\nc 'A'".to_string()).unwrap();
    assert_eq!((97, false), data.get("c").unwrap());
}

#[test]
fn program_too_large() {
    let data = SymTable::new();
    let code = vec!["hlt".to_string(); 4097];
    let r = produce_machine_code((data, code));
    assert!(matches!(r, Err(AsmError::ProgramTooLarge)));

    let mut data2 = SymTable::new();
    data2.insert("a".to_string(), 1, false);
    let code2 = vec!["hlt".to_string(); 4096];
    let r2 = produce_machine_code((data2, code2));
    assert!(matches!(r2, Err(AsmError::ProgramTooLarge)));
}

#[test]
fn program_at_limit_succeeds() {
    let data = SymTable::new();
    let code = vec!["hlt".to_string(); 4096];
    let image = produce_machine_code((data, code)).unwrap();
    assert_eq!(4097, image.len());
    assert_eq!(0x4001, image[0]);
    assert_eq!(0x7001, image[4096]);
}

#[test]
fn bootstrap_word_counts_constants() {
    let mut data = SymTable::new();
    data.insert("a".to_string(), 7, false);
    data.insert("lbl".to_string(), 9, true);
    data.insert("b".to_string(), 8, false);
    let image = produce_machine_code((data, vec![])).unwrap();
    // two constants: bootstrap branches to word 3; labels emit no word
    assert_eq!(0x4003, image[0]);
    assert_eq!(vec![0x4003, 7, 8], image);
}

#[test]
fn indirect_bit() {
    let mut data = SymTable::new();
    data.insert("a".to_string(), 1, false);
    let code = vec!["lda a i".to_string(), "lda a".to_string()];
    let image = produce_machine_code((data, code)).unwrap();
    assert_eq!(0xa001, image[2]); // bit 15 set
    assert_eq!(0x2001, image[3]); // bit 15 clear
    assert_eq!(0x8000, image[2] & 0x8000);
    assert_eq!(0x0000, image[3] & 0x8000);
}

#[test]
fn indirect_flag_is_case_insensitive() {
    let mut data = SymTable::new();
    data.insert("a".to_string(), 1, false);
    let code = vec!["sta a I".to_string()];
    let image = produce_machine_code((data, code)).unwrap();
    assert_eq!(vec![0x4002, 0x0001, 0xb001], image);
}

#[test]
fn immediate_operand() {
    let data = SymTable::new();
    let code = vec!["bun 5".to_string(), "add 0x10".to_string()];
    let image = produce_machine_code((data, code)).unwrap();
    assert_eq!(vec![0x4001, 0x4005, 0x1010], image);
}

#[test]
fn end_to_end_scenario() {
    let source = "data:\na 1\nb 2\ntext:\nlda a\nadd b\nout\nhlt";
    let parsed = parse_asm(source.to_string()).unwrap();
    let image = produce_machine_code(parsed).unwrap();
    assert_eq!(vec![0x4003, 0x0001, 0x0002, 0x2001, 0x1002, 0xf400, 0x7001], image);
}

#[test]
fn label_resolution_end_to_end() {
    let source = "data:\na 1\ntext:\nloop:\nlda a\nbun loop";
    let parsed = parse_asm(source.to_string()).unwrap();
    let image = produce_machine_code(parsed).unwrap();
    // loop points at the first code word, index 2
    assert_eq!(vec![0x4002, 0x0001, 0x2001, 0x4002], image);
}

#[test]
fn unknown_instruction() {
    let data = SymTable::new();
    let code = vec!["xyz".to_string()];
    let r = produce_machine_code((data, code));
    assert!(matches!(r, Err(AsmError::UnknownInstruction(t)) if t == "xyz"));
}

#[test]
fn undefined_operand() {
    let data = SymTable::new();
    let code = vec!["lda nosuch".to_string()];
    let r = produce_machine_code((data, code));
    assert!(matches!(r, Err(AsmError::UndefinedOperand(t)) if t == "nosuch"));
}

#[test]
fn error_descriptions_name_the_token() {
    let e = AsmError::UnknownInstruction("xyz".to_string());
    assert_eq!("'xyz' is not a recognized instruction", e.describe());
    let m = AsmError::MalformedValue("zz9".to_string());
    assert_eq!("unparsable value 'zz9'", m.describe());
}

#[test]
fn symbol_table_lookup() {
    let mut t = SymTable::new();
    assert_eq!(0, t.len());
    assert_eq!(None, t.get("missing"));
    t.insert("x".to_string(), 3, false);
    t.insert("y".to_string(), 4, true);
    assert_eq!(2, t.len());
    assert_eq!(Some((3, false)), t.get("x"));
    assert_eq!(Some((4, true)), t.get("y"));
    t.insert("x".to_string(), 5, true);
    assert_eq!(2, t.len());
    assert_eq!(Some((5, true)), t.get("x"));
}

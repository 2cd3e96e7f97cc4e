use hack_assembler::assembler::{assemble, assemble_source, build_symbol_table, count_instructions};
use hack_assembler::codes::{comp_to_binary, dest_to_binary, jump_to_binary};
use hack_assembler::parse::parse_u16;
use hack_assembler::symbols::SymbolTable;

fn run(src: &str) -> Vec<String> {
    let mut table = build_symbol_table(src);
    assemble(src, &mut table)
}

#[test]
fn scenario_straight_line_program() {
    let out = run("@2\nD=A\n@3\nD=D+A\n@0\nM=D");
    let expected = vec![
        "0000000000000010",
        "1110110000010000",
        "0000000000000011",
        "1110000010010000",
        "0000000000000000",
        "1110001100001000",
    ];
    assert_eq!(out, expected);
}

#[test]
fn scenario_label_loop() {
    let out = run("(LOOP)\n@LOOP\n0;JMP");
    assert_eq!(out, vec!["0000000000000000", "1110101010000111"]);
}

#[test]
fn scenario_fresh_symbols_allocate_from_sixteen() {
    let out = run("@first\n@second\n@second\n@first");
    assert_eq!(
        out,
        vec![
            "0000000000010000",
            "0000000000010001",
            "0000000000010001",
            "0000000000010000",
        ]
    );
    let src = "@first\n@second\n@second\n@first";
    let mut table = build_symbol_table(src);
    assemble(src, &mut table);
    assert_eq!(table.lookup("first"), Some(16));
    assert_eq!(table.lookup("second"), Some(17));
}

#[test]
fn encoding_is_deterministic() {
    let src = "(TOP)\n@TOP\nD=D+1;JNE\n@fresh\nM=D\n// note\n@7";
    let first = run(src);
    let second = run(src);
    assert_eq!(first, second);
}

#[test]
fn every_line_is_sixteen_binary_chars() {
    let out = run("@2\nAMD=D|M;JLE\n(HERE)\n@HERE\n@temp\nnonsense\nD=X+1");
    assert!(!out.is_empty());
    for line in &out {
        assert_eq!(line.len(), 16);
        assert!(line.chars().all(|c| c == '0' || c == '1'));
    }
}

#[test]
fn predefined_symbols_are_stable_across_a_run() {
    let src = "(LOOP)\n@LOOP\n@value\n0;JMP";
    let mut table = build_symbol_table(src);
    let before = [
        table.lookup("SP"),
        table.lookup("R0"),
        table.lookup("THIS"),
        table.lookup("R3"),
        table.lookup("SCREEN"),
        table.lookup("KBD"),
    ];
    assert_eq!(before[0], Some(0));
    assert_eq!(before[1], Some(0));
    assert_eq!(before[2], Some(3));
    assert_eq!(before[3], Some(3));
    assert_eq!(before[4], Some(16384));
    assert_eq!(before[5], Some(24576));
    assemble(src, &mut table);
    assert_eq!(table.lookup("SP"), before[0]);
    assert_eq!(table.lookup("R0"), before[1]);
    assert_eq!(table.lookup("THIS"), before[2]);
    assert_eq!(table.lookup("R3"), before[3]);
    assert_eq!(table.lookup("SCREEN"), before[4]);
    assert_eq!(table.lookup("KBD"), before[5]);
}

#[test]
fn numbered_register_encodes_like_named_pointer() {
    assert_eq!(run("@R0"), vec!["0000000000000000"]);
    assert_eq!(run("@SP"), vec!["0000000000000000"]);
    assert_eq!(run("@R4"), run("@THAT"));
}

#[test]
fn unrecognized_comp_falls_back_to_all_zero_field() {
    let out = run("D=X+1");
    assert_eq!(out, vec!["1110000000010000"]);
    let valid_zero = run("0");
    assert_eq!(valid_zero, vec!["1110101010000000"]);
    assert_ne!(out[0][3..10], valid_zero[0][3..10]);
    assert_eq!(&out[0][3..10], "0000000");
    assert_eq!(&valid_zero[0][3..10], "0101010");
}

#[test]
fn numeric_operands_encode_directly() {
    assert_eq!(run("@0"), vec!["0000000000000000"]);
    assert_eq!(run("@1"), vec!["0000000000000001"]);
    assert_eq!(run("@16384"), vec!["0100000000000000"]);
    assert_eq!(run("@32767"), vec!["0111111111111111"]);
}

#[test]
fn oversized_numeral_is_treated_as_a_symbol() {
    assert_eq!(run("@70000"), vec!["0000000000010000"]);
}

#[test]
fn comments_and_whitespace_are_insignificant() {
    let out = run("  @2  // load two\n// a full comment line\n\n\t\nD=A // copy\n");
    assert_eq!(out, vec!["0000000000000010", "1110110000010000"]);
}

#[test]
fn later_label_declaration_overrides_earlier() {
    let out = run("(L)\n@L\n(L)\n@L");
    assert_eq!(out, vec!["0000000000000001", "0000000000000001"]);
}

#[test]
fn back_to_back_labels_share_an_address() {
    let out = run("(A1)\n(A2)\nD=A\n@A1\n@A2");
    assert_eq!(out[1], out[2]);
    assert_eq!(out[1], "0000000000000000");
}

#[test]
fn empty_source_emits_nothing() {
    assert_eq!(run(""), Vec::<String>::new());
    assert_eq!(run("\n\n// only comments\n"), Vec::<String>::new());
}

#[test]
fn full_compute_instruction_uses_all_fields() {
    assert_eq!(run("AMD=D+1;JLE"), vec!["1110011111111110"]);
    assert_eq!(run("MD=D&M;JGT"), vec!["1111000000011001"]);
}

#[test]
fn destination_codes() {
    assert_eq!(dest_to_binary("M"), "001");
    assert_eq!(dest_to_binary("D"), "010");
    assert_eq!(dest_to_binary("MD"), "011");
    assert_eq!(dest_to_binary("A"), "100");
    assert_eq!(dest_to_binary("AM"), "101");
    assert_eq!(dest_to_binary("AD"), "110");
    assert_eq!(dest_to_binary("AMD"), "111");
    assert_eq!(dest_to_binary(""), "000");
    assert_eq!(dest_to_binary("DM"), "000");
}

#[test]
fn compute_codes() {
    assert_eq!(comp_to_binary("0"), "0101010");
    assert_eq!(comp_to_binary("1"), "0111111");
    assert_eq!(comp_to_binary("-1"), "0111010");
    assert_eq!(comp_to_binary("D"), "0001100");
    assert_eq!(comp_to_binary("M"), "1110000");
    assert_eq!(comp_to_binary("!M"), "1110001");
    assert_eq!(comp_to_binary("M-1"), "1110010");
    assert_eq!(comp_to_binary("D+M"), "1000010");
    assert_eq!(comp_to_binary("D|A"), "0010101");
    assert_eq!(comp_to_binary("D|M"), "1010101");
    assert_eq!(comp_to_binary("Q"), "0000000");
}

#[test]
fn jump_codes() {
    assert_eq!(jump_to_binary("JGT"), "001");
    assert_eq!(jump_to_binary("JEQ"), "010");
    assert_eq!(jump_to_binary("JGE"), "011");
    assert_eq!(jump_to_binary("JLT"), "100");
    assert_eq!(jump_to_binary("JNE"), "101");
    assert_eq!(jump_to_binary("JLE"), "110");
    assert_eq!(jump_to_binary("JMP"), "111");
    assert_eq!(jump_to_binary(""), "000");
    assert_eq!(jump_to_binary("JXX"), "000");
}

#[test]
fn assemble_source_runs_both_passes() {
    let out = assemble_source("(LOOP)\n@LOOP\n0;JMP").unwrap();
    assert_eq!(out, vec!["0000000000000000", "1110101010000111"]);
    let again = assemble_source("(LOOP)\n@LOOP\n0;JMP").unwrap();
    assert_eq!(out, again);
}

#[test]
fn count_instructions_skips_labels_and_comments() {
    assert_eq!(count_instructions("@2\nD=A\n@3\nD=D+A\n@0\nM=D"), 6);
    assert_eq!(count_instructions("(LOOP)\n@LOOP\n0;JMP"), 2);
    assert_eq!(count_instructions("// nothing\n\n(L)\n"), 0);
    assert_eq!(count_instructions(""), 0);
}

#[test]
fn operand_parsing_matches_the_integer_parser() {
    assert_eq!(parse_u16("0"), Some(0));
    assert_eq!(parse_u16("007"), Some(7));
    assert_eq!(parse_u16("65535"), Some(65535));
    assert_eq!(parse_u16("65536"), None);
    assert_eq!(parse_u16("+5"), Some(5));
    assert_eq!(parse_u16("-5"), None);
    assert_eq!(parse_u16(""), None);
    assert_eq!(parse_u16("+"), None);
    assert_eq!(parse_u16("12x"), None);
    assert_eq!("+5".parse::<u16>().ok(), parse_u16("+5"));
    assert_eq!("65536".parse::<u16>().ok(), parse_u16("65536"));
}

#[test]
fn signed_operand_becomes_a_symbol() {
    assert_eq!(run("@+5"), vec!["0000000000000101"]);
    assert_eq!(run("@-5"), vec!["0000000000010000"]);
}

#[test]
fn symbol_table_insert_overrides() {
    let mut table = SymbolTable::new();
    assert_eq!(table.lookup("x"), None);
    table.insert("x", 5);
    assert_eq!(table.lookup("x"), Some(5));
    table.insert("x", 9);
    assert_eq!(table.lookup("x"), Some(9));
    table.insert("y", 1);
    assert_eq!(table.lookup("x"), Some(9));
    assert_eq!(table.lookup("y"), Some(1));
}

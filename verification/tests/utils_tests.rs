use luajit_decompiler::utils::classify_line;
use luajit_decompiler::utils::parse_luajit_bytecode;
use luajit_decompiler::utils::Jumps;
use luajit_decompiler::utils::LineKind;
use luajit_decompiler::utils::Listing;

fn lines(text: &[&str]) -> Vec<String> {
    text.iter().map(|l| l.to_string()).collect()
}

#[test]
fn lines_are_told_apart() {
    assert_eq!(classify_line("-- BYTECODE -- test.lua:0-12"), Some(LineKind::Header));
    assert_eq!(classify_line(""), Some(LineKind::Other));
    assert_eq!(classify_line("KSHORT 0 1"), Some(LineKind::Other));
    assert_eq!(
        classify_line("0001    KSHORT   0   1"),
        Some(LineKind::Instruction { index: 0, jumps: Jumps::Plain })
    );
    assert_eq!(
        classify_line("0003    JMP      1 => 0005"),
        Some(LineKind::Instruction { index: 2, jumps: Jumps::To })
    );
    assert_eq!(
        classify_line("0005 => RET0     0   1"),
        Some(LineKind::Instruction { index: 4, jumps: Jumps::From })
    );
    assert_eq!(
        classify_line("0007 => FORL     0 => 0004"),
        Some(LineKind::Instruction { index: 6, jumps: Jumps::FromAndTo })
    );
    assert_eq!(
        classify_line("9999    MOV      0   1"),
        Some(LineKind::Instruction { index: 9998, jumps: Jumps::Plain })
    );
    // instructions are numbered from 1
    assert_eq!(classify_line("0000    MOV      0   1"), None);
}

#[test]
fn a_listing_is_grouped_into_blocks() {
    let listing = lines(&[
        "-- BYTECODE -- test.lua:0-0",
        "0001    KSHORT   0   1",
        "0002    ISGE     0   1",
        "0003    JMP      1 => 0005",
        "0004    KSHORT   2   3",
        "0005 => RET0     0   1",
        "",
        "-- BYTECODE -- test.lua:1-3",
        "0001    RET0     0   1",
    ]);
    let protos = parse_luajit_bytecode(listing.clone()).unwrap();
    assert_eq!(protos.len(), 2);
    let first = &protos[0];
    assert_eq!(first.len(), 3);
    assert_eq!(first[&0], listing[1..4].to_vec());
    assert_eq!(first[&3], listing[4..5].to_vec());
    assert_eq!(first[&4], listing[5..6].to_vec());
    let second = &protos[1];
    assert_eq!(second.len(), 1);
    assert_eq!(second[&0], listing[8..9].to_vec());
}

#[test]
fn a_loop_end_is_a_block_of_its_own_and_opens_one() {
    let listing = lines(&[
        "-- BYTECODE -- test.lua:0-0",
        "0001    FORI     0 => 0004",
        "0002    MOV      4   3",
        "0003 => FORL     0 => 0002",
        "0004 => RET0     0   1",
    ]);
    let protos = parse_luajit_bytecode(listing.clone()).unwrap();
    let blocks = &protos[0];
    assert_eq!(blocks.len(), 4);
    assert_eq!(blocks[&0], listing[1..2].to_vec());
    assert_eq!(blocks[&1], listing[2..3].to_vec());
    assert_eq!(blocks[&2], listing[3..4].to_vec());
    assert_eq!(blocks[&3], listing[4..5].to_vec());
}

#[test]
fn an_instruction_needs_a_prototype() {
    assert_eq!(parse_luajit_bytecode(lines(&["0001    RET0     0   1"])), None);
    assert_eq!(parse_luajit_bytecode(lines(&["some text", ""])), Some(vec![]));
    assert_eq!(parse_luajit_bytecode(lines(&[])), Some(vec![]));
    assert_eq!(
        parse_luajit_bytecode(lines(&["-- BYTECODE --", "0000    RET0     0   1"])),
        None
    );
}

#[test]
fn lines_are_taken_by_their_kind() {
    let mut listing = Listing::new();
    assert!(!listing.add_line("x".to_string(), LineKind::Instruction { index: 0, jumps: Jumps::Plain }));
    assert!(listing.add_line("h".to_string(), LineKind::Header));
    assert!(listing.add_line("a".to_string(), LineKind::Instruction { index: 0, jumps: Jumps::Plain }));
    assert!(listing.add_line("b".to_string(), LineKind::Instruction { index: 7, jumps: Jumps::From }));
    assert!(listing.add_line("c".to_string(), LineKind::Instruction { index: 3, jumps: Jumps::Plain }));
    assert!(listing.add_line("d".to_string(), LineKind::Instruction { index: 4, jumps: Jumps::To }));
    assert!(listing.add_line("e".to_string(), LineKind::Instruction { index: 1, jumps: Jumps::FromAndTo }));
    assert!(listing.add_line("f".to_string(), LineKind::Other));
    assert!(!listing.add_line(
        "g".to_string(),
        LineKind::Instruction { index: u16::MAX, jumps: Jumps::To }
    ));
    assert!(listing.add_line(
        "i".to_string(),
        LineKind::Instruction { index: u16::MAX, jumps: Jumps::From }
    ));
    assert!(listing.add_line("j".to_string(), LineKind::Instruction { index: 9, jumps: Jumps::Plain }));
    let protos = listing.into_prototypes();
    assert_eq!(protos.len(), 1);
    let blocks = &protos[0];
    assert_eq!(blocks[&0], vec!["a".to_string()]);
    assert_eq!(blocks[&7], vec!["b".to_string(), "c".to_string(), "d".to_string()]);
    assert_eq!(blocks[&5], Vec::<String>::new());
    assert_eq!(blocks[&1], vec!["e".to_string()]);
    assert_eq!(blocks[&2], Vec::<String>::new());
    assert_eq!(blocks[&u16::MAX], vec!["i".to_string(), "j".to_string()]);
    assert_eq!(blocks.len(), 6);
}

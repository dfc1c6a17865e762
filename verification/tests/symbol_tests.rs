use rom_config::function::{Function, JumpTable};
use rom_config::symbol::{
    DataKind, InstructionMode, SymData, SymFunction, Symbol, SymbolKind, SymbolMap,
    SymbolMapError, SymbolParseError,
};
use rom_config::text::ParseContext;

fn ctx() -> ParseContext {
    ParseContext::new(String::from("symbols.txt"), 1)
}

fn parse_line(line: &str) -> Result<Option<Symbol>, SymbolParseError> {
    Symbol::parse(line, &ctx())
}

#[test]
fn parses_function_symbols() {
    let s = parse_line("main kind:function(arm) addr:0x2000000").unwrap().unwrap();
    assert_eq!(s.name, "main");
    assert_eq!(s.kind, SymbolKind::Function(SymFunction { mode: InstructionMode::Arm }));
    assert_eq!(s.addr, 0x2000000);

    let s = parse_line("f kind:function() addr:0x10").unwrap().unwrap();
    assert_eq!(s.kind, SymbolKind::Function(SymFunction { mode: InstructionMode::Auto }));

    let s = parse_line("g kind:function(thumb) addr:16").unwrap().unwrap();
    assert_eq!(s.kind, SymbolKind::Function(SymFunction { mode: InstructionMode::Thumb }));
    assert_eq!(s.addr, 16);
}

#[test]
fn parses_data_symbols_with_count_default() {
    let s = parse_line("tbl kind:data(word) addr:0x100").unwrap().unwrap();
    assert_eq!(s.kind, SymbolKind::Data(SymData { kind: DataKind::Word, count: 1 }));

    let s = parse_line("buf kind:data(byte,count=16) addr:0x200").unwrap().unwrap();
    assert_eq!(s.kind, SymbolKind::Data(SymData { kind: DataKind::Byte, count: 16 }));
}

#[test]
fn parses_bss_symbols() {
    let s = parse_line("heap kind:bss addr:0x300").unwrap().unwrap();
    assert_eq!(s.kind, SymbolKind::Bss);
}

#[test]
fn symbol_parse_faults() {
    let e = parse_line("x kind:rope addr:0").unwrap_err();
    assert!(matches!(e, SymbolParseError::UnknownKind { ref value, .. } if value == "rope"));

    let e = parse_line("x kind:function(sideways) addr:0").unwrap_err();
    assert!(matches!(
        e,
        SymbolParseError::BadInstructionMode { ref value, .. } if value == "sideways"
    ));

    let e = parse_line("x kind:data(word,count=zz) addr:0").unwrap_err();
    assert!(matches!(e, SymbolParseError::BadCount { ref value, .. } if value == "zz"));

    let e = parse_line("x kind:data(word,width=2) addr:0").unwrap_err();
    assert!(matches!(e, SymbolParseError::BadDataOption { ref key, .. } if key == "width"));

    let e = parse_line("x kind:data(rope) addr:0").unwrap_err();
    assert!(matches!(e, SymbolParseError::BadDataKind { ref value, .. } if value == "rope"));

    let e = parse_line("x addr:0").unwrap_err();
    assert!(matches!(
        e,
        SymbolParseError::MissingAttribute { ref attribute, .. } if attribute == "kind"
    ));

    let e = parse_line("x kind:bss").unwrap_err();
    assert!(matches!(
        e,
        SymbolParseError::MissingAttribute { ref attribute, .. } if attribute == "addr"
    ));

    let e = parse_line("x kind:bss addr:soup").unwrap_err();
    assert!(matches!(e, SymbolParseError::ParseAddr { ref value, .. } if value == "soup"));

    let e = parse_line("x kind:bss addr:0 flavor:mint").unwrap_err();
    assert!(matches!(e, SymbolParseError::UnknownAttribute { ref key, .. } if key == "flavor"));
}

#[test]
fn blank_lines_carry_no_symbol() {
    assert!(parse_line("").unwrap().is_none());
    assert!(parse_line("// note").unwrap().is_none());
}

#[test]
fn ambiguous_address_faults_but_for_address_yields_both() {
    let mut m = SymbolMap::new();
    m.add(Symbol::new_label(String::from("one"), 0x100)).unwrap();
    m.add(Symbol::new_label(String::from("two"), 0x100)).unwrap();

    let e = m.by_address(0x100).unwrap_err();
    match e {
        SymbolMapError::MultipleAtAddress { address, first, second } => {
            assert_eq!(address, 0x100);
            assert_eq!(first, "one");
            assert_eq!(second, "two");
        }
        other => panic!("unexpected {:?}", other),
    }

    let both = m.for_address(0x100).unwrap();
    assert_eq!(both.len(), 2);
    assert_eq!(both[0].1.name, "one");
    assert_eq!(both[1].1.name, "two");
}

#[test]
fn ambiguous_name_faults_but_for_name_yields_all() {
    let mut m = SymbolMap::new();
    m.add(Symbol::new_label(String::from("x"), 0x10)).unwrap();
    m.add(Symbol::new_label(String::from("x"), 0x20)).unwrap();

    let e = m.by_name("x").unwrap_err();
    match e {
        SymbolMapError::MultipleWithName { name, first_addr, second_addr } => {
            assert_eq!(name, "x");
            assert_eq!(first_addr, 0x10);
            assert_eq!(second_addr, 0x20);
        }
        other => panic!("unexpected {:?}", other),
    }
    assert_eq!(m.for_name("x").unwrap().len(), 2);
    assert!(m.for_name("y").is_none());
}

#[test]
fn unique_lookups_find_one_symbol() {
    let mut m = SymbolMap::new();
    m.add(Symbol::new_label(String::from("a"), 0x10)).unwrap();
    m.add(Symbol::new_label(String::from("b"), 0x20)).unwrap();
    let (i, s) = m.by_address(0x20).unwrap().unwrap();
    assert_eq!(i, 1);
    assert_eq!(s.name, "b");
    assert!(m.by_address(0x30).unwrap().is_none());
    let (i, s) = m.by_name("a").unwrap().unwrap();
    assert_eq!(i, 0);
    assert_eq!(s.addr, 0x10);
}

#[test]
fn add_if_new_address_is_a_no_op_on_occupied_addresses() {
    let mut m = SymbolMap::new();
    m.add(Symbol::new_label(String::from("a"), 0x10)).unwrap();
    m.add_if_new_address(Symbol::new_label(String::from("b"), 0x10)).unwrap();
    m.add_if_new_address(Symbol::new_label(String::from("c"), 0x20)).unwrap();
    assert_eq!(m.symbols.len(), 2);
}

#[test]
fn synthetic_names_use_eight_hex_digits() {
    let mut m = SymbolMap::new();
    m.add_label(0x123).unwrap();
    let s = m.get_label(0x123).unwrap();
    assert_eq!(s.name, "_00000123");

    let mut m = SymbolMap::new();
    m.add_pool_constant(0xdeadbeef).unwrap();
    let s = m.get_pool_constant(0xdeadbeef).unwrap();
    assert_eq!(s.name, "_deadbeef");
}

#[test]
fn kind_filtered_lookups_check_the_kind() {
    let mut m = SymbolMap::new();
    m.add_label(0x10).unwrap();
    assert!(m.get_pool_constant(0x10).is_none());
    assert!(m.get_label(0x10).is_some());
    assert!(m.get_label(0x20).is_none());

    m.add_jump_table(&JumpTable::new(0x30, 16, true)).unwrap();
    let (jt, s) = m.get_jump_table(0x30).unwrap();
    assert_eq!(jt.size, 16);
    assert!(jt.code);
    assert_eq!(s.name, "_00000030");

    m.add_data(Some(String::from("d")), 0x40, SymData { kind: DataKind::Word, count: 2 }).unwrap();
    let (d, s) = m.get_data(0x40).unwrap();
    assert_eq!(d.count, 2);
    assert_eq!(s.name, "d");
}

#[test]
fn add_function_records_mode_and_address() {
    let mut m = SymbolMap::new();
    m.add_function(&Function::new(String::from("go"), 0x80, true)).unwrap();
    let (_, s) = m.by_name("go").unwrap().unwrap();
    assert_eq!(s.addr, 0x80);
    assert_eq!(s.kind, SymbolKind::Function(SymFunction { mode: InstructionMode::Thumb }));
}

#[test]
fn lookup_symbol_name_tolerates_ambiguity() {
    let mut m = SymbolMap::new();
    m.add(Symbol::new_label(String::from("solo"), 0x10)).unwrap();
    m.add(Symbol::new_label(String::from("p1"), 0x20)).unwrap();
    m.add(Symbol::new_label(String::from("p2"), 0x20)).unwrap();
    assert_eq!(m.lookup_symbol_name(0, 0x10), Some(&String::from("solo")));
    assert_eq!(m.lookup_symbol_name(0, 0x20), None);
    assert_eq!(m.lookup_symbol_name(0, 0x30), None);
}

#[test]
fn data_directives_render_the_first_element() {
    assert_eq!(DataKind::Byte.write_directive(), ".byte");
    assert_eq!(DataKind::Word.write_directive(), ".word");
    let bytes: Vec<u8> = vec![0x78, 0x56, 0x34, 0x12, 0xff];
    assert_eq!(DataKind::Byte.write_raw(&bytes), "0x78");
    assert_eq!(DataKind::Word.write_raw(&bytes), "0x12345678");
}

#[test]
fn sym_function_parse_reads_a_mode() {
    let f = SymFunction::parse(&vec!['a', 'r', 'm'], &ctx()).unwrap();
    assert_eq!(f.mode, InstructionMode::Arm);
    let f = SymFunction::parse(&Vec::new(), &ctx()).unwrap();
    assert_eq!(f.mode, InstructionMode::Auto);
    assert!(SymFunction::parse(&vec!['z'], &ctx()).is_err());
}

#[test]
fn data_sizes() {
    assert_eq!(DataKind::Byte.size(), 1);
    assert_eq!(DataKind::Word.size(), 4);
    assert_eq!(SymData { kind: DataKind::Word, count: 3 }.size(), 12);
}

#[test]
fn symbol_lines_round_trip() {
    for line in [
        "main kind:function(arm) addr:0x2000000",
        "buf kind:data(byte,count=16) addr:0x200",
        "tbl kind:data(word) addr:0x100",
        "heap kind:bss addr:0x300",
        "f kind:function(auto) addr:0x10",
    ] {
        let s = parse_line(line).unwrap().unwrap();
        let out = s.to_line();
        assert_eq!(out, line);
        let back = parse_line(&out).unwrap().unwrap();
        assert_eq!(back.name, s.name);
        assert_eq!(back.kind, s.kind);
        assert_eq!(back.addr, s.addr);
    }
}

#[test]
fn from_lines_appends_every_record() {
    let lines = vec![
        String::from("// symbols"),
        String::from("a kind:bss addr:0x10"),
        String::from("a kind:bss addr:0x10"),
        String::from(""),
    ];
    let m = SymbolMap::from_lines(&lines, "s.txt").unwrap();
    assert_eq!(m.symbols.len(), 2);
}

#[test]
fn symbol_from_lines_reports_row_of_first_fault() {
    let lines = vec![
        String::from("a kind:bss addr:0x10"),
        String::from("b kind:bss addr:oops"),
    ];
    let e = SymbolMap::from_lines(&lines, "s.txt").unwrap_err();
    match e {
        SymbolParseError::ParseAddr { context, value } => {
            assert_eq!(context.row, 2);
            assert_eq!(context.file_path, "s.txt");
            assert_eq!(value, "oops");
        }
        other => panic!("unexpected {:?}", other),
    }
}

#[test]
fn to_lines_filters_and_orders_by_address() {
    let mut m = SymbolMap::new();
    m.add(Symbol::new_data(String::from("late"), 0x30, SymData { kind: DataKind::Word, count: 1 })).unwrap();
    m.add_label(0x5).unwrap();
    m.add(Symbol::new_label(String::from("skipme"), 0x1)).unwrap();
    m.add(Symbol::new_data(String::from("early"), 0x10, SymData { kind: DataKind::Byte, count: 2 })).unwrap();
    m.add(Symbol { name: String::from("fun"), kind: SymbolKind::Function(SymFunction { mode: InstructionMode::Arm }), addr: 0x10 }).unwrap();
    let out = m.to_lines();
    assert_eq!(out, vec![
        String::from("early kind:data(byte,count=2) addr:0x10"),
        String::from("fun kind:function(arm) addr:0x10"),
        String::from("late kind:data(word) addr:0x30"),
    ]);
}

#[test]
fn from_symbols_keeps_the_given_order() {
    let m = SymbolMap::from_symbols(vec![
        Symbol::new_label(String::from("a"), 2),
        Symbol::new_label(String::from("b"), 1),
    ]);
    assert_eq!(m.symbols.len(), 2);
    assert_eq!(m.symbols[0].name, "a");
}

#[test]
fn instruction_mode_from_thumb() {
    assert_eq!(InstructionMode::from_thumb(true), InstructionMode::Thumb);
    assert_eq!(InstructionMode::from_thumb(false), InstructionMode::Arm);
}

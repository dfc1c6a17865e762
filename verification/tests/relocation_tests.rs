use rom_config::relocations::{
    Relocation, RelocationKind, RelocationModule, RelocationModuleParseError,
    RelocationParseError, Relocations, RelocationsError,
};
use rom_config::text::ParseContext;

fn ctx() -> ParseContext {
    ParseContext::new(String::from("relocs.txt"), 1)
}

fn parse_line(line: &str) -> Result<Option<Relocation>, RelocationParseError> {
    Relocation::parse(line, &ctx())
}

#[test]
fn parses_a_full_relocation_line() {
    let r = parse_line("from:0x100 kind:arm_call to:0x200 module:main")
        .unwrap()
        .unwrap();
    assert_eq!(r.from, 0x100);
    assert_eq!(r.to, 0x200);
    assert_eq!(r.addend, 0);
    assert_eq!(r.kind, RelocationKind::ArmCall);
    assert_eq!(r.module, RelocationModule::Main);
    assert!(r.source.is_none());
}

#[test]
fn parses_decimal_and_signed_addend() {
    let r = parse_line("from:256 kind:load to:512 module:none add:-4")
        .unwrap()
        .unwrap();
    assert_eq!(r.from, 256);
    assert_eq!(r.to, 512);
    assert_eq!(r.addend, -4);
    assert_eq!(r.kind, RelocationKind::Load);
}

#[test]
fn blank_and_comment_lines_are_ignored() {
    assert!(parse_line("").unwrap().is_none());
    assert!(parse_line("   \t ").unwrap().is_none());
    assert!(parse_line("// just a comment").unwrap().is_none());
}

#[test]
fn trailing_comment_is_stripped() {
    let r = parse_line("from:0x10 kind:arm_branch to:0x20 module:itcm // why not")
        .unwrap()
        .unwrap();
    assert_eq!(r.kind, RelocationKind::ArmBranch);
    assert_eq!(r.module, RelocationModule::Itcm);
}

#[test]
fn missing_required_attribute_faults() {
    let e = parse_line("from:0x10 kind:arm_call module:main").unwrap_err();
    assert!(matches!(
        e,
        RelocationParseError::MissingAttribute { ref attribute, .. } if attribute == "to"
    ));
}

#[test]
fn unknown_attribute_faults() {
    let e = parse_line("from:0x10 kind:arm_call to:0x20 module:main color:red").unwrap_err();
    assert!(matches!(
        e,
        RelocationParseError::UnknownAttribute { ref key, .. } if key == "color"
    ));
}

#[test]
fn malformed_integer_faults_with_raw_token() {
    let e = parse_line("from:zebra kind:arm_call to:0x20 module:main").unwrap_err();
    assert!(matches!(
        e,
        RelocationParseError::ParseFrom { ref value, .. } if value == "zebra"
    ));
}

#[test]
fn unknown_kind_faults() {
    let e = parse_line("from:0x10 kind:hop to:0x20 module:main").unwrap_err();
    assert!(matches!(
        e,
        RelocationParseError::Kind(_)
    ));
}

#[test]
fn overlay_module_tokens() {
    let r = parse_line("from:0x10 kind:arm_call to:0x20 module:overlay(3)")
        .unwrap()
        .unwrap();
    assert_eq!(r.module, RelocationModule::Overlay { id: 3 });

    let r = parse_line("from:0x10 kind:arm_call to:0x20 module:overlays(1,2)")
        .unwrap()
        .unwrap();
    assert_eq!(r.module, RelocationModule::Overlays { ids: vec![1, 2] });
}

#[test]
fn single_id_overlays_faults() {
    let e = parse_line("from:0x10 kind:arm_call to:0x20 module:overlays(1)").unwrap_err();
    assert!(matches!(
        e,
        RelocationParseError::Module(RelocationModuleParseError::ExpectedMultipleOverlays { ref ids, .. })
            if ids == &vec![1u16]
    ));
}

#[test]
fn options_on_plain_module_fault() {
    let e = parse_line("from:0x10 kind:arm_call to:0x20 module:none(x)").unwrap_err();
    assert!(matches!(
        e,
        RelocationParseError::Module(RelocationModuleParseError::UnexpectedOptions { ref module, ref options, .. })
            if module == "none" && options == "x"
    ));
}

#[test]
fn unknown_module_faults() {
    let e = parse_line("from:0x10 kind:arm_call to:0x20 module:ether").unwrap_err();
    assert!(matches!(
        e,
        RelocationParseError::Module(RelocationModuleParseError::UnknownModule { ref module, .. })
            if module == "ether"
    ));
}

#[test]
fn kind_bias_table_is_exact() {
    assert_eq!(RelocationKind::ArmCall.addend(), -8);
    assert_eq!(RelocationKind::ThumbCall.addend(), -4);
    assert_eq!(RelocationKind::ArmCallThumb.addend(), -8);
    assert_eq!(RelocationKind::ThumbCallArm.addend(), -4);
    assert_eq!(RelocationKind::ArmBranch.addend(), -8);
    assert_eq!(RelocationKind::Load.addend(), 0);
}

#[test]
fn effective_addend_adds_kind_bias() {
    let r = Relocation::new_load(0x10, 0x20, 12, RelocationModule::Main);
    assert_eq!(r.addend(), 12);
    let r = parse_line("from:0x10 kind:arm_call to:0x20 module:main add:100")
        .unwrap()
        .unwrap();
    assert_eq!(r.addend(), 92);
    assert_eq!(r.addend_value(), 100);
}

#[test]
fn call_kind_derivation() {
    let m = || RelocationModule::Main;
    assert_eq!(Relocation::new_call(0, 0, m(), true, true).kind(), RelocationKind::ThumbCall);
    assert_eq!(Relocation::new_call(0, 0, m(), true, false).kind(), RelocationKind::ThumbCallArm);
    assert_eq!(Relocation::new_call(0, 0, m(), false, true).kind(), RelocationKind::ArmCallThumb);
    assert_eq!(Relocation::new_call(0, 0, m(), false, false).kind(), RelocationKind::ArmCall);
}

#[test]
fn duplicate_insert_is_idempotent_and_conflict_faults() {
    let mut t = Relocations::new();
    let a = Relocation::new_call(0x100, 0x200, RelocationModule::Main, false, false);
    let b = Relocation::new_call(0x100, 0x200, RelocationModule::Main, false, false);
    assert!(t.add(a).is_ok());
    assert!(t.add(b).is_ok());
    assert_eq!(t.iter().len(), 1);

    let c = Relocation::new_call(0x100, 0x300, RelocationModule::Main, false, false);
    let e = t.add(c).unwrap_err();
    match e {
        RelocationsError::RelocationCollision { from, curr_to, prev_to, .. } => {
            assert_eq!(from, 0x100);
            assert_eq!(curr_to, 0x300);
            assert_eq!(prev_to, 0x200);
        }
    }
    assert_eq!(t.iter().len(), 1);
    assert_eq!(t.get(0x100).unwrap().to_address(), 0x200);
}

#[test]
fn table_keeps_address_order() {
    let mut t = Relocations::new();
    t.add(Relocation::new_load(0x30, 1, 0, RelocationModule::Main)).unwrap();
    t.add(Relocation::new_load(0x10, 2, 0, RelocationModule::Main)).unwrap();
    t.add(Relocation::new_load(0x20, 3, 0, RelocationModule::Main)).unwrap();
    let froms: Vec<u32> = t.iter().iter().map(|r| r.from_address()).collect();
    assert_eq!(froms, vec![0x10, 0x20, 0x30]);
}

#[test]
fn iter_range_is_half_open() {
    let mut t = Relocations::new();
    for a in [0x10u32, 0x20, 0x30, 0x40] {
        t.add(Relocation::new_load(a, 0, 0, RelocationModule::Main)).unwrap();
    }
    let sel = t.iter_range(0x20..0x40);
    let froms: Vec<u32> = sel.iter().map(|r| r.from_address()).collect();
    assert_eq!(froms, vec![0x20, 0x30]);
}

#[test]
fn get_finds_exact_address_only() {
    let mut t = Relocations::new();
    t.add(Relocation::new_load(0x10, 7, 0, RelocationModule::Dtcm)).unwrap();
    assert_eq!(t.get(0x10).unwrap().to_address(), 7);
    assert!(t.get(0x11).is_none());
}

#[test]
fn relocation_line_round_trips() {
    let line = "from:0x00000100 kind:arm_call to:0x00000200 module:main";
    let r = parse_line(line).unwrap().unwrap();
    let out = r.to_line();
    assert_eq!(out, line);
    let back = parse_line(&out).unwrap().unwrap();
    assert!(back.same_as(&r));
}

#[test]
fn overlays_line_round_trips() {
    let line = "from:0x00000010 kind:thumb_call to:0x00000020 module:overlays(4,7,9)";
    let r = parse_line(line).unwrap().unwrap();
    let out = r.to_line();
    assert_eq!(out, line);
    let back = parse_line(&out).unwrap().unwrap();
    assert!(back.same_as(&r));
}

#[test]
fn nonzero_addend_round_trips() {
    let line = "from:0x00000010 kind:load to:0x00000020 module:none add:5";
    let r = parse_line(line).unwrap().unwrap();
    assert_eq!(r.addend, 5);
    let out = r.to_line();
    assert_eq!(out, line);
    let back = parse_line(&out).unwrap().unwrap();
    assert!(back.same_as(&r));

    let r = parse_line("from:0x10 kind:arm_call to:0x20 module:overlay(3) add:-4")
        .unwrap()
        .unwrap();
    let out = r.to_line();
    assert_eq!(out, "from:0x00000010 kind:arm_call to:0x00000020 module:overlay(3) add:-4");
    let back = parse_line(&out).unwrap().unwrap();
    assert_eq!(back.addend, -4);
    assert!(back.same_as(&r));
}

#[test]
fn source_annotation_is_written_and_stripped_on_reread() {
    let mut r = parse_line("from:0x10 kind:load to:0x20 module:none").unwrap().unwrap();
    r.source = Some(String::from("table scan"));
    let out = r.to_line();
    assert!(out.ends_with("// table scan"));
    let back = parse_line(&out).unwrap().unwrap();
    assert!(back.source.is_none());
    assert_eq!(back.from_address(), 0x10);
}

#[test]
fn from_lines_loads_and_last_line_wins() {
    let lines = vec![
        String::from("// header"),
        String::from("from:0x10 kind:load to:0x20 module:main"),
        String::from(""),
        String::from("from:0x10 kind:load to:0x30 module:main"),
    ];
    let t = Relocations::from_lines(&lines, "r.txt").unwrap();
    assert_eq!(t.iter().len(), 1);
    assert_eq!(t.get(0x10).unwrap().to_address(), 0x30);
}

#[test]
fn from_lines_reports_row_of_first_fault() {
    let lines = vec![
        String::from("from:0x10 kind:load to:0x20 module:main"),
        String::from("from:bad kind:load to:0x20 module:main"),
    ];
    let e = Relocations::from_lines(&lines, "r.txt").unwrap_err();
    match e {
        RelocationParseError::ParseFrom { context, value } => {
            assert_eq!(context.row, 2);
            assert_eq!(context.file_path, "r.txt");
            assert_eq!(value, "bad");
        }
        other => panic!("unexpected error {:?}", other),
    }
}

#[test]
fn to_lines_writes_all_entries_in_order() {
    let lines = vec![
        String::from("from:0x20 kind:arm_branch to:0x40 module:dtcm"),
        String::from("from:0x10 kind:arm_call to:0x30 module:overlay(5)"),
    ];
    let t = Relocations::from_lines(&lines, "r.txt").unwrap();
    let out = t.to_lines();
    assert_eq!(out, vec![
        String::from("from:0x00000010 kind:arm_call to:0x00000030 module:overlay(5)"),
        String::from("from:0x00000020 kind:arm_branch to:0x00000040 module:dtcm"),
    ]);
}

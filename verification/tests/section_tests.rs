use rom_config::function::Function;
use rom_config::module::{AutoloadKind, Module, ModuleKind, RelocationModuleKindNotSupportedError};
use rom_config::relocations::RelocationModule;
use rom_config::section::{
    Section, SectionError, SectionInheritParseError, SectionKind, SectionParseError, Sections,
    SectionsError,
};
use rom_config::text::ParseContext;

fn ctx() -> ParseContext {
    ParseContext::new(String::from("sections.txt"), 1)
}

fn new_section(name: &str, kind: SectionKind, start: u32, end: u32, align: u32) -> Section {
    Section::new(String::from(name), kind, start, end, align).unwrap()
}

#[test]
fn construction_validates_in_order() {
    let e = Section::new(String::from("a"), SectionKind::Code, 0x20, 0x10, 4).unwrap_err();
    assert!(matches!(e, SectionError::EndBeforeStart { start_address: 0x20, end_address: 0x10, .. }));

    let e = Section::new(String::from("a"), SectionKind::Code, 0x10, 0x20, 3).unwrap_err();
    assert!(matches!(e, SectionError::AlignmentPowerOfTwo { alignment: 3, .. }));

    let e = Section::new(String::from("a"), SectionKind::Code, 0x12, 0x20, 4).unwrap_err();
    assert!(matches!(e, SectionError::MisalignedStart { start_address: 0x12, alignment: 4, .. }));

    let s = new_section("a", SectionKind::Code, 0x10, 0x20, 4);
    assert_eq!(s.size(), 0x10);
    assert_eq!(s.alignment(), 4);
}

#[test]
fn inherit_keeps_kind_and_alignment() {
    let base = new_section("text", SectionKind::Code, 0x100, 0x200, 8);
    let child = Section::inherit(&base, 0x300, 0x340).unwrap();
    assert_eq!(child.name(), "text");
    assert_eq!(child.kind(), SectionKind::Code);
    assert_eq!(child.alignment(), 8);
    assert_eq!(child.start_address(), 0x300);
    assert_eq!(child.end_address(), 0x340);

    let e = Section::inherit(&base, 0x340, 0x300).unwrap_err();
    assert!(matches!(e, SectionError::EndBeforeStart { .. }));
}

#[test]
fn inherit_rejects_a_misaligned_start() {
    let base = new_section("data", SectionKind::Data, 0x100, 0x200, 8);
    let e = Section::inherit(&base, 0x301, 0x340).unwrap_err();
    assert!(matches!(
        e,
        SectionError::MisalignedStart { start_address: 0x301, alignment: 8, .. }
    ));
}

#[test]
fn parses_a_section_header_line() {
    let s = Section::parse("main kind:code start:0x1000 end:0x2000 align:4", &ctx())
        .unwrap()
        .unwrap();
    assert_eq!(s.name(), "main");
    assert_eq!(s.kind(), SectionKind::Code);
    assert_eq!(s.start_address(), 0x1000);
    assert_eq!(s.end_address(), 0x2000);
    assert_eq!(s.alignment(), 4);
}

#[test]
fn section_parse_faults() {
    let e = Section::parse("main kind:rope start:0 end:0 align:4", &ctx()).unwrap_err();
    assert!(matches!(e, SectionParseError::Kind(_)));

    let e = Section::parse("main kind:code start:0 end:0", &ctx()).unwrap_err();
    assert!(matches!(
        e,
        SectionParseError::MissingAttribute { ref attribute, .. } if attribute == "align"
    ));

    let e = Section::parse("main kind:code start:x end:0 align:4", &ctx()).unwrap_err();
    assert!(matches!(
        e,
        SectionParseError::ParseStartAddress { ref value, .. } if value == "x"
    ));

    let e = Section::parse("main kind:code start:8 end:4 align:4", &ctx()).unwrap_err();
    assert!(matches!(
        e,
        SectionParseError::Section { error: SectionError::EndBeforeStart { .. }, .. }
    ));
}

#[test]
fn parse_inherit_takes_only_the_range() {
    let mut all = Sections::new();
    all.add(new_section("text", SectionKind::Code, 0x100, 0x200, 8)).unwrap();

    let s = Section::parse_inherit("text start:0x300 end:0x340", &ctx(), &all)
        .unwrap()
        .unwrap();
    assert_eq!(s.kind(), SectionKind::Code);
    assert_eq!(s.alignment(), 8);
    assert_eq!(s.start_address(), 0x300);

    let e = Section::parse_inherit("text start:0x300 end:0x340 kind:code", &ctx(), &all).unwrap_err();
    assert!(matches!(
        e,
        SectionInheritParseError::InheritedAttribute { ref attribute, .. } if attribute == "kind"
    ));

    let e = Section::parse_inherit("rodata start:0x300 end:0x340", &ctx(), &all).unwrap_err();
    assert!(matches!(
        e,
        SectionInheritParseError::NotInHeader { ref name, .. } if name == "rodata"
    ));
}

#[test]
fn collection_rejects_duplicate_names_and_overlaps() {
    let mut all = Sections::new();
    all.add(new_section("a", SectionKind::Code, 0x1000, 0x2000, 4)).unwrap();

    let e = all.add(new_section("a", SectionKind::Data, 0x3000, 0x4000, 4)).unwrap_err();
    assert!(matches!(e, SectionsError::DuplicateName { ref name } if name == "a"));
    assert_eq!(all.len(), 1);

    let e = all.add(new_section("b", SectionKind::Data, 0x1800, 0x2800, 4)).unwrap_err();
    match e {
        SectionsError::Overlapping { name, other_name } => {
            assert_eq!(name, "b");
            assert_eq!(other_name, "a");
        }
        other => panic!("unexpected {:?}", other),
    }
    assert_eq!(all.len(), 1);

    all.add(new_section("b", SectionKind::Data, 0x2000, 0x2800, 4)).unwrap();
    assert_eq!(all.len(), 2);
}

#[test]
fn containment_is_half_open() {
    let mut all = Sections::new();
    all.add(new_section("a", SectionKind::Code, 0x1000, 0x2000, 4)).unwrap();

    assert!(all.get_by_contained_address(0x1000).is_some());
    assert!(all.get_by_contained_address(0x1fff).is_some());
    assert!(all.get_by_contained_address(0x2000).is_none());

    all.add(new_section("b", SectionKind::Data, 0x2000, 0x3000, 4)).unwrap();
    let (_, sec) = all.get_by_contained_address(0x2000).unwrap();
    assert_eq!(sec.name(), "b");
}

#[test]
fn by_name_finds_the_unique_section() {
    let mut all = Sections::new();
    all.add(new_section("text", SectionKind::Code, 0x0, 0x100, 4)).unwrap();
    all.add(new_section("bss", SectionKind::Bss, 0x100, 0x200, 4)).unwrap();
    let (idx, sec) = all.by_name("bss").unwrap();
    assert_eq!(idx.0, 1);
    assert_eq!(sec.kind(), SectionKind::Bss);
    assert!(all.by_name("rodata").is_none());
}

#[test]
fn sorted_by_address_does_not_mutate_storage() {
    let mut all = Sections::new();
    all.add(new_section("late", SectionKind::Code, 0x2000, 0x3000, 4)).unwrap();
    all.add(new_section("early", SectionKind::Code, 0x1000, 0x2000, 4)).unwrap();
    let sorted = all.sorted_by_address();
    assert_eq!(sorted[0].name(), "early");
    assert_eq!(sorted[1].name(), "late");
    assert_eq!(all.get(0).name(), "late");
}

#[test]
fn extent_and_bss_summaries() {
    let mut all = Sections::new();
    assert!(all.base_address().is_none());
    assert!(all.end_address().is_none());
    assert!(all.bss_range().is_none());
    assert_eq!(all.bss_size(), 0);

    all.add(new_section("text", SectionKind::Code, 0x1000, 0x2000, 4)).unwrap();
    all.add(new_section("bss1", SectionKind::Bss, 0x3000, 0x3400, 4)).unwrap();
    all.add(new_section("bss2", SectionKind::Bss, 0x2000, 0x2200, 4)).unwrap();

    assert_eq!(all.base_address(), Some(0x1000));
    assert_eq!(all.end_address(), Some(0x3400));
    assert_eq!(all.bss_size(), 0x600);
    let rg = all.bss_range().unwrap();
    assert_eq!(rg.start, 0x2000);
    assert_eq!(rg.end, 0x3400);
}

#[test]
fn code_extracts_the_exact_slice() {
    let sec = new_section("data", SectionKind::Data, 0x14, 0x18, 4);
    let image: Vec<u8> = vec![0, 1, 2, 3, 4, 5, 6, 7, 8, 9, 10, 11];
    let slice = sec.code(&image, 0x10).unwrap().unwrap();
    assert_eq!(slice, &[4, 5, 6, 7]);

    let bss = new_section("bss", SectionKind::Bss, 0x14, 0x18, 4);
    assert!(bss.code(&image, 0x10).unwrap().is_none());

    assert!(sec.code(&image, 0x16).is_err());
    let far = new_section("far", SectionKind::Data, 0x14, 0x30, 4);
    assert!(far.code(&image, 0x10).is_err());
}

#[test]
fn code_from_module_matches_code() {
    let sec = new_section("data", SectionKind::Data, 0x14, 0x18, 4);
    let module = Module::new(vec![0, 1, 2, 3, 4, 5, 6, 7], 0x10);
    let slice = sec.code_from_module(&module).unwrap().unwrap();
    assert_eq!(slice, &[4, 5, 6, 7]);
}

#[test]
fn iter_words_drops_the_partial_tail() {
    let sec = new_section("data", SectionKind::Data, 0x1000, 0x100a, 4);
    let bytes: Vec<u8> = vec![0x78, 0x56, 0x34, 0x12, 0xef, 0xbe, 0xad, 0xde, 0xaa, 0xbb];
    let words = sec.iter_words(&bytes, None);
    assert_eq!(words.len(), 2);
    assert_eq!(words[0].address, 0x1000);
    assert_eq!(words[0].value, 0x12345678);
    assert_eq!(words[1].address, 0x1004);
    assert_eq!(words[1].value, 0xdeadbeef);
}

#[test]
fn iter_words_clips_a_sub_range() {
    let sec = new_section("data", SectionKind::Data, 0x1000, 0x1010, 4);
    let bytes: Vec<u8> = (0u8..16).collect();
    let words = sec.iter_words(&bytes, Some(0x1001..0x100f));
    assert_eq!(words.len(), 2);
    assert_eq!(words[0].address, 0x1004);
    assert_eq!(words[1].address, 0x1008);
}

#[test]
fn functions_attach_keyed_by_address() {
    let mut sec = new_section("text", SectionKind::Code, 0x0, 0x100, 4);
    sec.add_function(Function::new(String::from("f1"), 0x10, false));
    sec.add_function(Function::new(String::from("f0"), 0x4, true));
    sec.add_function(Function::new(String::from("f1b"), 0x10, false));
    let fs = sec.functions();
    assert_eq!(fs.len(), 2);
    assert_eq!(fs[0].name(), "f0");
    assert_eq!(fs[1].name(), "f1b");
}

#[test]
fn collection_attaches_function_to_containing_section() {
    let mut all = Sections::new();
    all.add(new_section("text", SectionKind::Code, 0x0, 0x100, 4)).unwrap();
    all.add(new_section("more", SectionKind::Code, 0x100, 0x200, 4)).unwrap();
    all.add_function(Function::new(String::from("f"), 0x150, false));
    assert_eq!(all.get(0).functions().len(), 0);
    assert_eq!(all.get(1).functions().len(), 1);
    assert_eq!(all.get(1).functions()[0].name(), "f");
}

#[test]
fn collection_lists_all_attached_functions() {
    let mut all = Sections::new();
    all.add(new_section("text", SectionKind::Code, 0x0, 0x100, 4)).unwrap();
    all.add(new_section("more", SectionKind::Code, 0x100, 0x200, 4)).unwrap();
    all.add_function(Function::new(String::from("late"), 0x150, false));
    all.add_function(Function::new(String::from("early"), 0x10, true));
    let fs = all.functions();
    assert_eq!(fs.len(), 2);
    assert_eq!(fs[0].name(), "early");
    assert_eq!(fs[1].name(), "late");
}

#[test]
fn section_kind_helpers() {
    assert!(SectionKind::Code.is_initialized());
    assert!(SectionKind::Data.is_initialized());
    assert!(!SectionKind::Bss.is_initialized());
}

#[test]
fn module_kind_conversion() {
    assert_eq!(
        RelocationModule::from_module_kind(ModuleKind::Arm9),
        Ok(RelocationModule::Main)
    );
    assert_eq!(
        RelocationModule::from_module_kind(ModuleKind::Overlay(9)),
        Ok(RelocationModule::Overlay { id: 9 })
    );
    assert_eq!(
        RelocationModule::from_module_kind(ModuleKind::Autoload(AutoloadKind::Itcm)),
        Ok(RelocationModule::Itcm)
    );
    assert_eq!(
        RelocationModule::from_module_kind(ModuleKind::Autoload(AutoloadKind::Dtcm)),
        Ok(RelocationModule::Dtcm)
    );
    assert_eq!(
        RelocationModule::from_module_kind(ModuleKind::Autoload(AutoloadKind::Unknown(7))),
        Err(RelocationModuleKindNotSupportedError::UnknownAutoload { kind: 7 })
    );
}

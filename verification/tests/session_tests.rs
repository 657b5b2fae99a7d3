use ftrace::elf_reader::STT_FUNC;
use ftrace::manager::ImageFile;
use ftrace::model::TraceFault;
use ftrace::session::{
    get_string, ManagerBuilder, Session, MAX_PATH_LEN, RC_ERROR_CODE, RC_SUCCESS_CODE,
};

fn put16(out: &mut Vec<u8>, v: u16) {
    out.extend_from_slice(&v.to_le_bytes());
}

fn put32(out: &mut Vec<u8>, v: u32) {
    out.extend_from_slice(&v.to_le_bytes());
}

fn put64(out: &mut Vec<u8>, v: u64) {
    out.extend_from_slice(&v.to_le_bytes());
}

fn section_header(out: &mut Vec<u8>, kind: u32, offset: u64, size: u64, link: u32, entsize: u64) {
    put32(out, 0);
    put32(out, kind);
    put64(out, 0);
    put64(out, 0);
    put64(out, offset);
    put64(out, size);
    put32(out, link);
    put32(out, 0);
    put64(out, 1);
    put64(out, entsize);
}

/// A little-endian ELF64 file whose symbol table holds the given function
/// symbols: name, value and size of each.
fn elf_image(symbols: &[(&str, u64, u64)]) -> Vec<u8> {
    let mut strtab: Vec<u8> = vec![0];
    let mut symtab: Vec<u8> = vec![0; 24];
    for (name, value, size) in symbols {
        let at = strtab.len() as u32;
        strtab.extend_from_slice(name.as_bytes());
        strtab.push(0);
        put32(&mut symtab, at);
        symtab.push((1 << 4) | STT_FUNC);
        symtab.push(0);
        put16(&mut symtab, 1);
        put64(&mut symtab, *value);
        put64(&mut symtab, *size);
    }
    let symtab_at = 64u64;
    let strtab_at = symtab_at + symtab.len() as u64;
    let headers_at = strtab_at + strtab.len() as u64;

    let mut out: Vec<u8> = vec![0x7f, b'E', b'L', b'F', 2, 1, 1, 0, 0, 0, 0, 0, 0, 0, 0, 0];
    put16(&mut out, 2);
    put16(&mut out, 243);
    put32(&mut out, 1);
    put64(&mut out, 0);
    put64(&mut out, 0);
    put64(&mut out, headers_at);
    put32(&mut out, 0);
    put16(&mut out, 64);
    put16(&mut out, 56);
    put16(&mut out, 0);
    put16(&mut out, 64);
    put16(&mut out, 3);
    put16(&mut out, 0);
    out.extend_from_slice(&symtab);
    out.extend_from_slice(&strtab);
    section_header(&mut out, 0, 0, 0, 0, 0);
    section_header(&mut out, 2, symtab_at, symtab.len() as u64, 2, 24);
    section_header(&mut out, 3, strtab_at, strtab.len() as u64, 0, 0);
    out
}

fn main_file() -> ImageFile {
    ImageFile {
        name: "main".to_string(),
        data: elf_image(&[("foo", 0x1000, 0x100), ("bar", 0x1100, 0x100)]),
    }
}

fn lib_file() -> ImageFile {
    ImageFile { name: "lib".to_string(), data: elf_image(&[("lib_a", 0x8000, 0x80)]) }
}

#[test]
fn status_codes() {
    assert_eq!(RC_SUCCESS_CODE, 0);
    assert_eq!(RC_ERROR_CODE, -1);
    assert_eq!(MAX_PATH_LEN, 300);
}

#[test]
fn text_ends_at_the_first_nul() {
    assert_eq!(get_string(b"Hello\0", 20), Ok("Hello".to_string()));
    assert_eq!(get_string(b"a/b.elf\0junk\0", MAX_PATH_LEN), Ok("a/b.elf".to_string()));
    assert_eq!(get_string(b"\0", 1), Ok(String::new()));
    assert_eq!(get_string("gr\u{fc}n \u{4e2d}\0".as_bytes(), 300), Ok("gr\u{fc}n \u{4e2d}".to_string()));
}

#[test]
fn text_without_nul_within_the_length_is_refused() {
    assert_eq!(get_string(b"Hello", 20), Err(RC_ERROR_CODE));
    assert_eq!(get_string(b"Hello\0", 5), Err(RC_ERROR_CODE));
    assert_eq!(get_string(b"Hello\0", 6), Ok("Hello".to_string()));
    assert_eq!(get_string(b"", 20), Err(RC_ERROR_CODE));
    assert_eq!(get_string(b"Hello\0", 0), Err(RC_ERROR_CODE));
    let mut long = vec![b'x'; 300];
    long.push(0);
    assert_eq!(get_string(&long, MAX_PATH_LEN), Err(RC_ERROR_CODE));
    long[299] = 0;
    assert_eq!(get_string(&long, MAX_PATH_LEN).map(|s| s.len()), Ok(299));
}

#[test]
fn text_that_is_not_utf8_is_refused() {
    assert_eq!(get_string(&[0xff, 0xfe, 0], 20), Err(RC_ERROR_CODE));
    assert_eq!(get_string(&[b'a', 0xc3, 0], 20), Err(RC_ERROR_CODE));
    assert_eq!(get_string(&[0xed, 0xa0, 0x80, 0], 20), Err(RC_ERROR_CODE));
    assert_eq!(get_string(&[0xc0, 0x80, 0], 20), Err(RC_ERROR_CODE));
    // bytes after the terminator are not looked at
    assert_eq!(get_string(&[b'o', b'k', 0, 0xff], 20), Ok("ok".to_string()));
}

#[test]
fn a_builder_gathers_the_configuration() {
    let mut builder = ManagerBuilder::new("path/to/main.elf");
    assert!(!builder.show_context());
    assert_eq!(builder.main_path(), "path/to/main.elf");
    assert_eq!(builder.progs_path(), None);
    builder.set_show_context(true);
    assert!(builder.show_context());
    builder.add_prog_path("a.elf".to_string());
    builder.add_prog_path("b.elf".to_string());
    builder.add_prog_path("a.elf".to_string());
    builder.add_prog_path("b.elf".to_string());
    builder.add_prog_path("c.elf".to_string());
    assert_eq!(
        builder.progs_path(),
        Some(&vec!["a.elf".to_string(), "b.elf".to_string(), "c.elf".to_string()])
    );
    builder.set_show_context(false);
    assert!(!builder.show_context());
    assert_eq!(builder.main_path(), "path/to/main.elf");
}

#[test]
fn nothing_can_be_set_before_the_builder_is_started() {
    let mut session = Session::new();
    assert!(session.builder().is_none());
    assert!(session.manager().is_none());
    assert_eq!(session.set_show_context(true), Err(RC_ERROR_CODE));
    assert_eq!(session.add_prog_path("a.elf".to_string()), Err(RC_ERROR_CODE));
    assert_eq!(session.build_builder(&main_file(), None), Err(RC_ERROR_CODE));
    assert!(session.manager().is_none());
    assert!(session.stack_dump().is_none());
    assert_eq!(session.check_instruction(0x1000, 0x0000_00ef, &[0u64; 32]), Ok(()));
}

#[test]
fn the_tracer_is_built_once() {
    let mut session = Session::new();
    assert_eq!(session.start_builder("main.elf"), Ok(()));
    assert_eq!(session.set_show_context(true), Ok(()));
    assert_eq!(session.add_prog_path("lib.elf".to_string()), Ok(()));
    assert_eq!(session.add_prog_path("lib.elf".to_string()), Ok(()));
    assert_eq!(session.builder().unwrap().progs_path().unwrap().len(), 1);
    assert!(session.builder().unwrap().show_context());
    assert_eq!(session.build_builder(&main_file(), Some(&vec![lib_file()])), Ok(()));
    assert!(session.manager().is_some());
    assert_eq!(session.build_builder(&main_file(), Some(&vec![lib_file()])), Err(RC_ERROR_CODE));
    assert_eq!(session.stack_dump().map(|d| d.len()), Some(0));
}

#[test]
fn a_configuration_is_started_once() {
    let mut session = Session::new();
    assert_eq!(session.start_builder("one.elf"), Ok(()));
    assert_eq!(session.set_show_context(true), Ok(()));
    assert_eq!(session.add_prog_path("lib.elf".to_string()), Ok(()));
    assert_eq!(session.start_builder("two.elf"), Err(RC_ERROR_CODE));
    let builder = session.builder().unwrap();
    assert_eq!(builder.main_path(), "one.elf");
    assert!(builder.show_context());
    assert_eq!(builder.progs_path().map(|p| p.len()), Some(1));
}

#[test]
fn after_a_teardown_another_configuration_can_be_started() {
    let mut session = Session::new();
    assert_eq!(session.start_builder("one.elf"), Ok(()));
    assert_eq!(session.set_show_context(true), Ok(()));
    assert_eq!(session.build_builder(&main_file(), None), Ok(()));
    session.teardown();
    assert!(session.builder().is_none());
    assert!(session.manager().is_some());
    assert_eq!(session.set_show_context(false), Err(RC_ERROR_CODE));
    assert_eq!(session.start_builder("two.elf"), Ok(()));
    let builder = session.builder().unwrap();
    assert_eq!(builder.main_path(), "two.elf");
    assert!(!builder.show_context());
    assert_eq!(builder.progs_path(), None);
    assert_eq!(session.build_builder(&main_file(), None), Err(RC_ERROR_CODE));
}

#[test]
fn files_that_give_no_tracer_fail_the_build() {
    let mut session = Session::new();
    assert_eq!(session.start_builder("main.elf"), Ok(()));
    let broken = ImageFile { name: "broken".to_string(), data: vec![0; 10] };
    assert_eq!(session.build_builder(&broken, None), Err(RC_ERROR_CODE));
    assert_eq!(session.build_builder(&main_file(), Some(&vec![main_file()])), Err(RC_ERROR_CODE));
    assert!(session.manager().is_none());
    assert_eq!(session.build_builder(&main_file(), None), Ok(()));
    assert!(session.manager().is_some());
}

#[test]
fn a_session_traces_instructions() {
    let mut session = Session::new();
    session.start_builder("main.elf").unwrap();
    session.set_show_context(true).unwrap();
    session.build_builder(&main_file(), Some(&vec![lib_file()])).unwrap();
    let mut regs = [0u64; 32];
    // jal x1, 0 at 0x1000
    assert_eq!(session.check_instruction(0x1000, 0x0000_00ef, &regs), Ok(()));
    regs[15] = 0x8000;
    // jalr x1, 0(x15)
    assert_eq!(session.check_instruction(0x1004, 0x0007_80e7, &regs), Ok(()));
    let names: Vec<Option<String>> =
        session.stack_dump().unwrap().iter().map(|e| e.map(|f| f.name.clone())).collect();
    assert_eq!(names, vec![Some("lib_a".to_string()), Some("foo".to_string())]);
    regs[1] = 0x1008;
    // ret
    assert_eq!(session.check_instruction(0x8010, 0x0000_8067, &regs), Ok(()));
    assert_eq!(
        session.check_instruction(0x1008, 0x0000_8067, &regs),
        Err(TraceFault::ReturnToSelf)
    );
    regs[1] = 0x5000;
    assert_eq!(session.check_instruction(0x1008, 0x0000_8067, &regs), Err(TraceFault::NoCaller));
    let manager = session.manager().unwrap();
    assert_eq!(manager.func_stack(), &vec![0]);
    assert_eq!(manager.trace_log(), &vec![0, 1, 0]);
    assert_eq!(manager.frame(1).unwrap().ret_val(), Some((0, Some(0))));
}

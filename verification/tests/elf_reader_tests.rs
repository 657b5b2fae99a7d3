use ftrace::elf_reader::{ElfError, ElfReader, FunType, Func, RawSymbol, STT_FUNC};
use rand::Rng;
use std::cmp::Ordering;

const STT_OBJECT: u8 = 1;

fn put16(out: &mut Vec<u8>, v: u16) {
    out.extend_from_slice(&v.to_le_bytes());
}

fn put32(out: &mut Vec<u8>, v: u32) {
    out.extend_from_slice(&v.to_le_bytes());
}

fn put64(out: &mut Vec<u8>, v: u64) {
    out.extend_from_slice(&v.to_le_bytes());
}

fn section_header(out: &mut Vec<u8>, kind: u32, offset: u64, size: u64, link: u32, entsize: u64) {
    put32(out, 0);
    put32(out, kind);
    put64(out, 0);
    put64(out, 0);
    put64(out, offset);
    put64(out, size);
    put32(out, link);
    put32(out, 0);
    put64(out, 1);
    put64(out, entsize);
}

/// A little-endian ELF64 file whose symbol table holds the given symbols:
/// name, symbol type, value and size of each.
fn elf_image(symbols: &[(&str, u8, u64, u64)], with_symtab: bool) -> Vec<u8> {
    let mut strtab: Vec<u8> = vec![0];
    let mut symtab: Vec<u8> = vec![0; 24];
    for (name, kind, value, size) in symbols {
        let at = strtab.len() as u32;
        strtab.extend_from_slice(name.as_bytes());
        strtab.push(0);
        put32(&mut symtab, at);
        symtab.push((1 << 4) | kind);
        symtab.push(0);
        put16(&mut symtab, 1);
        put64(&mut symtab, *value);
        put64(&mut symtab, *size);
    }
    let symtab_at = 64u64;
    let strtab_at = symtab_at + symtab.len() as u64;
    let headers_at = strtab_at + strtab.len() as u64;

    let mut out: Vec<u8> = vec![0x7f, b'E', b'L', b'F', 2, 1, 1, 0, 0, 0, 0, 0, 0, 0, 0, 0];
    put16(&mut out, 2);
    put16(&mut out, 243);
    put32(&mut out, 1);
    put64(&mut out, 0);
    put64(&mut out, 0);
    put64(&mut out, headers_at);
    put32(&mut out, 0);
    put16(&mut out, 64);
    put16(&mut out, 56);
    put16(&mut out, 0);
    put16(&mut out, 64);
    put16(&mut out, 3);
    put16(&mut out, 0);
    assert_eq!(out.len(), 64);
    out.extend_from_slice(&symtab);
    out.extend_from_slice(&strtab);
    section_header(&mut out, 0, 0, 0, 0, 0);
    let symtab_kind = if with_symtab { 2 } else { 1 };
    section_header(&mut out, symtab_kind, symtab_at, symtab.len() as u64, 2, 24);
    section_header(&mut out, 3, strtab_at, strtab.len() as u64, 0, 0);
    out
}

/// Stands in for an interpreter binary: its symbol table is out of order,
/// leaves gaps, and mixes functions with data and undefined functions.
fn interpreter_symbols() -> Vec<(&'static str, u8, u64, u64)> {
    vec![
        ("main", STT_FUNC, 0x4510, 0x120),
        ("counter", STT_OBJECT, 0x9000, 8),
        ("_start", STT_FUNC, 0x2700, 0x10),
        ("printf", STT_FUNC, 0, 0),
        ("deregister_tm_clones", STT_FUNC, 0x2710, 0x30),
        ("frame_dummy", STT_FUNC, 0x27c0, 0x40),
        ("register_tm_clones", STT_FUNC, 0x2740, 0x40),
        ("_init", STT_FUNC, 0x2000, 0),
        ("cpu_exec", STT_FUNC, 0x4630, 0x200),
        ("malloc", STT_FUNC, 0, 0),
        ("isa_exec_once", STT_FUNC, 0x4830, 0x7d0),
    ]
}

/// Stands in for a program that the interpreter runs.
fn program_symbols() -> Vec<(&'static str, u8, u64, u64)> {
    vec![
        ("memset", STT_FUNC, 0x8000_13a0, 0x60),
        ("_start", STT_FUNC, 0x8000_0000, 0x20),
        ("heap", STT_OBJECT, 0x8010_0000, 0x1000),
        ("main", STT_FUNC, 0x8000_0020, 0x400),
        ("halt", STT_FUNC, 0x8000_1400, 0x18),
        ("_trm_init", STT_FUNC, 0x8000_0420, 0x3c),
    ]
}

fn create_new(id: u32, symbols: &[(&str, u8, u64, u64)]) -> ElfReader {
    ElfReader::new(id, "image", &elf_image(symbols, true)).expect("the image should build")
}

fn func(id: u32, name: &str, start: u64, end: u64) -> Func {
    Func { id, func_type: FunType::LocalFunc, name: name.to_string(), start, end }
}

fn ids_are_positions(id: u32, symbols: &[(&str, u8, u64, u64)]) {
    let elf_reader = create_new(id, symbols);
    println!(
        "ElfReader(id: {}, name: {}, start: 0x{:X}, end: 0x{:X}, func_num: {})",
        elf_reader.id,
        elf_reader.name,
        elf_reader.start,
        elf_reader.end,
        elf_reader.func_vec.len()
    );
    assert!(!elf_reader.func_vec.is_empty());
    for i in 0..elf_reader.func_vec.len() {
        assert!(elf_reader.func_vec[i].id == i as u32);
    }
}

#[test]
fn test_reader_new() {
    ids_are_positions(0, &interpreter_symbols());
}

#[test]
fn elf_reader_test_reader_new() {
    ids_are_positions(0, &interpreter_symbols());
}

#[test]
fn test_reader_new1() {
    ids_are_positions(1, &program_symbols());
}

#[test]
fn elf_reader_test_reader_new1() {
    ids_are_positions(1, &program_symbols());
}

fn gaps_miss() {
    let elf_reader = create_new(0, &interpreter_symbols());
    let mut rng = rand::thread_rng();

    println!("\n===============To Test gap miss================");
    let mut gaps = 0;
    let mut last_end = elf_reader.func_vec.first().unwrap().end;
    for i in &elf_reader.func_vec {
        if i.start > last_end {
            let rand_addr = rng.gen_range(last_end..i.start);
            println!(
                "Random addr 0x{:X} between 0x{:X} and 0x{:X}, should miss\t",
                rand_addr, i.start, last_end
            );
            assert!(elf_reader.find(rand_addr).is_none());
            println!("Miss!");
            gaps += 1;
        }
        last_end = i.end;
    }
    assert!(gaps > 0);
}

#[test]
fn test_find() {
    gaps_miss();
}

#[test]
fn elf_reader_test_find() {
    gaps_miss();
}

fn records_hit_and_borders_miss() {
    let elf_reader1 = create_new(1, &program_symbols());
    let mut rng = rand::thread_rng();
    println!(
        "ElfReader(id: {}, name: {}, start: 0x{:X}, end: 0x{:X}, func_num: {})",
        elf_reader1.id,
        elf_reader1.name,
        elf_reader1.start,
        elf_reader1.end,
        elf_reader1.func_vec.len()
    );

    println!("\n===============To Test hit================");
    for i in 0..elf_reader1.func_vec.len() {
        let start = elf_reader1.func_vec[i].start;
        let end = elf_reader1.func_vec[i].end;
        if start == end {
            continue;
        }
        let rand_addr = rng.gen_range(start..end);
        println!("Random addr: 0x{:X}, start: 0x{:X}, end: 0x{:X}\t", rand_addr, start, end);
        assert!(elf_reader1.find(rand_addr).is_some());
        println!("Hit!");
    }

    println!("\n===============To Test miss================");
    let addr = elf_reader1.func_vec.first().unwrap().start - 1;
    println!("Should miss addr(start - 1): 0x{:X}\t", addr);
    assert!(elf_reader1.find(addr).is_none());
    println!("Miss!");

    let addr = elf_reader1.func_vec.last().unwrap().end;
    println!("Should miss addr(end): 0x{:X}\t", addr);
    assert!(elf_reader1.find(addr).is_none());
    println!("Miss!");

    let addr = addr + 1;
    println!("Should miss addr(end + 1): 0x{:X}\t", addr);
    assert!(elf_reader1.find(addr).is_none());
    println!("Miss!");
}

#[test]
fn test_find1() {
    records_hit_and_borders_miss();
}

#[test]
fn elf_reader_test_find1() {
    records_hit_and_borders_miss();
}

#[test]
fn test_get_func() {
    let elf_reader = create_new(0, &interpreter_symbols());
    for i in 0..elf_reader.func_vec.len() {
        let func = elf_reader.get_func(i as u32).unwrap();
        println!("Func: {}, id: {}", func.name, func.id);
    }
    assert!(elf_reader.get_func(elf_reader.func_vec.len() as u32).is_none());
}

#[test]
fn image_keeps_functions_with_an_extent_sorted_by_start() {
    let image = ElfReader::new(7, "interp", &elf_image(&interpreter_symbols(), true)).unwrap();
    assert_eq!(image.id, 7);
    assert_eq!(image.name, "interp");
    let names: Vec<&str> = image.func_vec().iter().map(|f| f.name.as_str()).collect();
    assert_eq!(
        names,
        vec![
            "_init",
            "_start",
            "deregister_tm_clones",
            "register_tm_clones",
            "frame_dummy",
            "main",
            "cpu_exec",
            "isa_exec_once"
        ]
    );
    let ranges: Vec<(u64, u64)> = image.func_vec().iter().map(|f| (f.start, f.end)).collect();
    assert_eq!(
        ranges,
        vec![
            (0x2000, 0x2000),
            (0x2700, 0x2710),
            (0x2710, 0x2740),
            (0x2740, 0x2780),
            (0x27c0, 0x2800),
            (0x4510, 0x4630),
            (0x4630, 0x4830),
            (0x4830, 0x5000)
        ]
    );
    assert!(image.func_vec().iter().all(|f| f.func_type == FunType::LocalFunc));
    assert_eq!(image.start, 0x2000);
    assert_eq!(image.end, 0x5000);
    assert!(image.check());
}

#[test]
fn records_are_sorted_and_numbered() {
    for symbols in [interpreter_symbols(), program_symbols()] {
        let image = create_new(0, &symbols);
        let records = image.func_vec();
        for i in 0..records.len() {
            assert_eq!(records[i].id as usize, i);
            assert!(records[i].start <= records[i].end);
            if i + 1 < records.len() {
                assert!(records[i].start <= records[i + 1].start);
            }
        }
    }
}

#[test]
fn symbols_with_the_same_start_keep_the_order_of_the_table() {
    let symbols = vec![
        RawSymbol { name: Some("b".to_string()), symtype: STT_FUNC, value: 0x200, size: 4 },
        RawSymbol { name: Some("first".to_string()), symtype: STT_FUNC, value: 0x100, size: 0 },
        RawSymbol { name: Some("second".to_string()), symtype: STT_FUNC, value: 0x100, size: 8 },
        RawSymbol { name: Some("third".to_string()), symtype: STT_FUNC, value: 0x100, size: 8 },
    ];
    let image = ElfReader::from_symbols(0, "ties", &symbols).unwrap();
    let names: Vec<&str> = image.func_vec().iter().map(|f| f.name.as_str()).collect();
    assert_eq!(names, vec!["first", "second", "third", "b"]);
    assert_eq!(image.find(0x104).unwrap().name, "third");
}

#[test]
fn find_hits_at_start_and_last_byte_and_misses_at_end() {
    let image = create_new(0, &interpreter_symbols());
    let main = image.find(0x4510).expect("the start of a record hits");
    assert_eq!(main.name, "main");
    assert_eq!(image.find(0x462f).expect("the last byte of a record hits").name, "main");
    assert_eq!(image.find(0x4630).unwrap().name, "cpu_exec");
    assert!(image.find(0x2780).is_none());
    assert!(image.find(0x27bf).is_none());
    assert!(image.find(image.start - 1).is_none());
    assert!(image.find(image.end).is_none());
    assert!(image.find(0).is_none());
    assert!(image.find(u64::MAX).is_none());
}

#[test]
fn find_returns_exactly_the_records_that_hold_the_address() {
    let image = create_new(0, &program_symbols());
    for pc in (0x7fff_fff0u64..0x8000_1500).step_by(4) {
        let holders: Vec<&Func> =
            image.func_vec().iter().filter(|f| f.start <= pc && pc < f.end).collect();
        match image.find(pc) {
            Some(f) => {
                assert_eq!(holders.len(), 1);
                assert_eq!(holders[0].id, f.id);
            }
            None => assert!(holders.is_empty()),
        }
    }
}

#[test]
fn zero_size_records_are_never_found() {
    let image = create_new(0, &interpreter_symbols());
    assert_eq!(image.func_vec()[0].start, image.func_vec()[0].end);
    assert!(image.find(0x2000).is_none());
    let only = ElfReader::dummy(0, "one", 0x10, 0x10, Some(vec![func(0, "empty", 0x10, 0x10)]));
    assert!(only.check());
    assert!(only.find(0x10).is_none());
    assert!(only.find(0xf).is_none());
    assert!(only.find(0x11).is_none());
}

#[test]
fn get_func_checks_the_stored_id() {
    let good = ElfReader::dummy(0, "good", 0, 0x20, Some(vec![func(0, "a", 0, 0x10)]));
    assert_eq!(good.get_func(0).unwrap().name, "a");
    assert!(good.get_func(1).is_none());
    let bad = ElfReader::dummy(0, "bad", 0, 0x20, Some(vec![func(5, "a", 0, 0x10)]));
    assert!(bad.get_func(0).is_none());
    assert!(bad.get_func(5).is_none());
    assert!(!bad.check());
}

#[test]
fn reader_cmp_counts_the_end_as_inside() {
    let image = ElfReader::dummy(0, "dummy", 0x50000, 0x50005, None);
    assert_eq!(image.reader_cmp(0x4ffff), Ordering::Greater);
    assert_eq!(image.reader_cmp(0x50000), Ordering::Equal);
    assert_eq!(image.reader_cmp(0x50004), Ordering::Equal);
    assert_eq!(image.reader_cmp(0x50005), Ordering::Equal);
    assert_eq!(image.reader_cmp(0x50006), Ordering::Less);
    assert!(image.contains(0x50005));
    assert!(!image.contains(0x50006));
    assert!(image.func_vec().is_empty());
}

#[test]
fn check_tells_images_that_break_the_invariant() {
    let unsorted = ElfReader::dummy(
        0,
        "unsorted",
        0,
        0x100,
        Some(vec![func(0, "a", 0x40, 0x50), func(1, "b", 0x10, 0x20)]),
    );
    assert!(!unsorted.check());
    let inverted = ElfReader::dummy(0, "inverted", 0x100, 0x10, None);
    assert!(!inverted.check());
    let backwards = ElfReader::dummy(0, "backwards", 0, 0x100, Some(vec![func(0, "a", 0x50, 0x40)]));
    assert!(!backwards.check());
    let external = ElfReader::dummy(
        0,
        "external",
        0,
        0x100,
        Some(vec![Func {
            id: 0,
            func_type: FunType::ExternalFunc,
            name: "x".to_string(),
            start: 0,
            end: 0,
        }]),
    );
    assert!(!external.check());
}

#[test]
fn bytes_that_are_no_elf_file_are_refused() {
    assert_eq!(ElfReader::new(0, "x", &[]).err(), Some(ElfError::Unparseable));
    assert_eq!(ElfReader::new(0, "x", b"not an elf file at all").err(), Some(ElfError::Unparseable));
    let mut cut = elf_image(&program_symbols(), true);
    cut.truncate(cut.len() - 10);
    assert_eq!(ElfReader::new(0, "x", &cut).err(), Some(ElfError::Unparseable));
}

#[test]
fn a_file_without_symbol_table_is_refused() {
    let bytes = elf_image(&program_symbols(), false);
    assert_eq!(ElfReader::new(0, "x", &bytes).err(), Some(ElfError::NoSymbolTable));
}

#[test]
fn a_table_without_functions_is_refused() {
    let symbols = vec![("printf", STT_FUNC, 0, 0), ("data", STT_OBJECT, 0x100, 8)];
    let bytes = elf_image(&symbols, true);
    assert_eq!(ElfReader::new(0, "x", &bytes).err(), Some(ElfError::NoFunctions));
    assert_eq!(ElfReader::from_symbols(0, "x", &[]).err(), Some(ElfError::NoFunctions));
}

#[test]
fn a_function_without_name_is_refused() {
    let symbols = vec![
        RawSymbol { name: Some("a".to_string()), symtype: STT_FUNC, value: 0x10, size: 4 },
        RawSymbol { name: None, symtype: STT_OBJECT, value: 0x20, size: 4 },
        RawSymbol { name: None, symtype: STT_FUNC, value: 0, size: 0 },
    ];
    assert_eq!(ElfReader::from_symbols(0, "x", &symbols).err(), Some(ElfError::BadName));
    assert!(ElfReader::from_symbols(0, "x", &symbols[..2]).is_ok());
}

#[test]
fn a_function_that_ends_past_the_address_space_is_refused() {
    let symbols = vec![
        RawSymbol { name: Some("a".to_string()), symtype: STT_OBJECT, value: u64::MAX, size: 4 },
        RawSymbol { name: Some("b".to_string()), symtype: STT_FUNC, value: u64::MAX, size: 1 },
        RawSymbol { name: None, symtype: STT_FUNC, value: 0x10, size: 1 },
    ];
    assert_eq!(ElfReader::from_symbols(0, "x", &symbols).err(), Some(ElfError::BadExtent));
    let fits =
        vec![RawSymbol { name: Some("b".to_string()), symtype: STT_FUNC, value: u64::MAX, size: 0 }];
    let image = ElfReader::from_symbols(0, "x", &fits).unwrap();
    assert_eq!((image.start, image.end), (u64::MAX, u64::MAX));
}

#[test]
fn the_reader_hands_out_every_entry_of_the_table() {
    let symbols = vec![("f", STT_FUNC, 0x100u64, 0x10u64), ("v", STT_OBJECT, 0x200, 4)];
    let image = ElfReader::new(3, "two", &elf_image(&symbols, true)).unwrap();
    assert_eq!(image.func_vec().len(), 1);
    assert_eq!(image.func_vec()[0].name, "f");
    assert_eq!((image.func_vec()[0].start, image.func_vec()[0].end), (0x100, 0x110));
}

#[test]
fn the_function_symbol_type_is_that_of_the_elf_format() {
    assert_eq!(STT_FUNC, elf::abi::STT_FUNC);
}

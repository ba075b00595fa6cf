use yara_x::olecf::{OLECFParser, ENDOFCHAIN};
use yara_x::modules::module_main;
use yara_x::pool::BStringPool;
use yara_x::values::RuntimeValue;

fn put_u16(buf: &mut Vec<u8>, off: usize, v: u16) {
    buf[off] = (v & 0xff) as u8;
    buf[off + 1] = (v >> 8) as u8;
}

fn put_u32(buf: &mut Vec<u8>, off: usize, v: u32) {
    for k in 0..4 {
        buf[off + k] = ((v >> (8 * k)) & 0xff) as u8;
    }
}

fn put_utf16_name(buf: &mut Vec<u8>, off: usize, name: &str) {
    let mut p = off;
    for b in name.bytes() {
        buf[p] = b;
        buf[p + 1] = 0;
        p += 2;
    }
    // trailing null unit
    buf[p] = 0;
    buf[p + 1] = 0;
}

/// A minimal compound file: header, one FAT sector (sector 0), one
/// directory sector (sector 1), one data sector (sector 2). The root
/// storage's chain (sector 2, 512 bytes) backs the mini stream; the
/// `data` entry is a 16-byte stream in mini sector 0.
fn build_image() -> Vec<u8> {
    let mut buf = vec![0u8; 2048];
    // header
    let sig = [0xd0u8, 0xcf, 0x11, 0xe0, 0xa1, 0xb1, 0x1a, 0xe1];
    buf[..8].copy_from_slice(&sig);
    put_u16(&mut buf, 28, 0xFFFE); // byte-order mark
    put_u32(&mut buf, 44, 1); // number of FAT sectors
    put_u32(&mut buf, 48, 1); // first directory sector
    put_u32(&mut buf, 60, ENDOFCHAIN); // first mini-FAT sector
    put_u32(&mut buf, 64, 0); // mini-FAT sector count
    put_u32(&mut buf, 68, ENDOFCHAIN); // first DIFAT sector
    put_u32(&mut buf, 72, 0); // DIFAT sector count
    // DIFAT slots: slot 0 names FAT sector 0, the rest are free
    put_u32(&mut buf, 76, 0);
    for slot in 1..109 {
        put_u32(&mut buf, 76 + 4 * slot, 0xFFFFFFFF);
    }
    // FAT (sector 0, offset 512)
    put_u32(&mut buf, 512, 0xFFFFFFFD); // sector 0: the FAT itself
    put_u32(&mut buf, 516, ENDOFCHAIN); // sector 1: directory chain ends
    put_u32(&mut buf, 520, ENDOFCHAIN); // sector 2: data chain ends
    for e in 3..128 {
        put_u32(&mut buf, 512 + 4 * e, 0xFFFFFFFF);
    }
    // directory (sector 1, offset 1024): root storage, then one stream
    let root = 1024;
    put_utf16_name(&mut buf, root, "Root");
    put_u16(&mut buf, root + 64, 10); // name length in bytes
    buf[root + 66] = 5; // root storage
    put_u32(&mut buf, root + 116, 2); // mini stream starts at sector 2
    put_u32(&mut buf, root + 120, 512); // mini stream size
    let entry = 1024 + 128;
    put_utf16_name(&mut buf, entry, "data");
    put_u16(&mut buf, entry + 64, 10);
    buf[entry + 66] = 2; // stream
    put_u32(&mut buf, entry + 116, 0); // mini sector 0
    put_u32(&mut buf, entry + 120, 16); // 16 bytes
    // data (sector 2, offset 1536)
    for k in 0..512 {
        buf[1536 + k] = (k % 256) as u8;
    }
    buf
}

#[test]
fn parses_wellformed_image() {
    let image = build_image();
    let parser = OLECFParser::new(&image).unwrap();
    assert!(parser.is_valid_header());
    let mut names = parser.get_stream_names().unwrap();
    names.sort();
    assert_eq!(names, vec!["Root".to_string(), "data".to_string()]);
}

#[test]
fn stream_sizes_and_lookup_failures() {
    let image = build_image();
    let parser = OLECFParser::new(&image).unwrap();
    assert_eq!(parser.get_stream_size("data").unwrap(), 16);
    assert_eq!(parser.get_stream_size("Root").unwrap(), 512);
    assert!(parser.get_stream_size("absent").is_err());
    assert!(parser.get_stream_data("absent").is_err());
}

#[test]
fn regular_stream_read_through_root() {
    let image = build_image();
    let parser = OLECFParser::new(&image).unwrap();
    let bytes = parser.get_stream_data("Root").unwrap();
    assert_eq!(bytes.len(), 512);
    for k in 0..512 {
        assert_eq!(bytes[k], (k % 256) as u8);
    }
}

#[test]
fn mini_stream_read() {
    let image = build_image();
    let parser = OLECFParser::new(&image).unwrap();
    let bytes = parser.get_stream_data("data").unwrap();
    assert_eq!(bytes.len(), 16);
    for k in 0..16 {
        assert_eq!(bytes[k], k as u8);
    }
}

#[test]
fn get_streams_lists_entries_in_insertion_order() {
    let image = build_image();
    let parser = OLECFParser::new(&image).unwrap();
    let streams = parser.get_streams();
    assert_eq!(streams.len(), 2);
    assert_eq!(streams[0].name, "Root");
    assert_eq!(streams[0].stream_type, 5);
    assert_eq!(streams[1].name, "data");
    assert_eq!(streams[1].stream_type, 2);
    assert_eq!(streams[1].size, 16);
}

#[test]
fn rejects_bad_signature_and_byte_order() {
    let mut image = build_image();
    image[0] = 0;
    assert!(OLECFParser::new(&image).is_err());
    let mut image2 = build_image();
    image2[28] = 0;
    assert!(OLECFParser::new(&image2).is_err());
    assert!(OLECFParser::new(b"junk").is_err());
    assert!(OLECFParser::new(&[]).is_err());
}

#[test]
fn directory_entry_name_length_bounds() {
    // name_len of 0, 1 and 65 are all rejected; the entry disappears.
    for bad_len in [0u16, 1, 65] {
        let mut image = build_image();
        put_u16(&mut image, 1024 + 128 + 64, bad_len);
        let parser = OLECFParser::new(&image).unwrap();
        let names = parser.get_stream_names().unwrap();
        assert_eq!(names, vec!["Root".to_string()]);
    }
    // 2 and 64 are accepted.
    for ok_len in [2u16, 64] {
        let mut image = build_image();
        put_u16(&mut image, 1024 + 128 + 64, ok_len);
        let parser = OLECFParser::new(&image).unwrap();
        assert_eq!(parser.get_stream_names().unwrap().len(), 2);
    }
}

#[test]
fn chain_of_length_one_on_immediate_end_of_chain() {
    let image = build_image();
    let parser = OLECFParser::new(&image).unwrap();
    // The FAT entry for sector 2 is end-of-chain: the chain is just [2].
    assert_eq!(parser.follow_chain(2), vec![2]);
    assert_eq!(parser.follow_chain(1), vec![1]);
}

#[test]
fn cyclic_chain_terminates_without_revisiting() {
    let mut image = build_image();
    // Point sector 2's FAT entry back at sector 2.
    put_u32(&mut image, 520, 2);
    let parser = OLECFParser::new(&image).unwrap();
    assert_eq!(parser.follow_chain(2), vec![2]);
}

#[test]
fn reserved_start_sector_gives_empty_chain() {
    let image = build_image();
    let parser = OLECFParser::new(&image).unwrap();
    assert_eq!(parser.follow_chain(0xFFFFFFFF), Vec::<u32>::new());
    assert_eq!(parser.follow_chain(ENDOFCHAIN), Vec::<u32>::new());
}

#[test]
fn short_stream_read_is_an_error() {
    let mut image = build_image();
    // Claim the root stream is larger than its one-sector chain provides.
    put_u32(&mut image, 1024 + 120, 4096);
    let parser = OLECFParser::new(&image).unwrap();
    assert!(parser.get_stream_data("Root").is_err());
}

#[test]
fn olecf_module_reports_parse_outcome() {
    let image = build_image();
    let mut pool = BStringPool::new();
    let tree = module_main(&"olecf".to_string(), &image, &mut pool).unwrap();
    assert_eq!(tree.get("is_olecf"), Some(&RuntimeValue::Bool(true)));
    assert_eq!(tree.get("number_of_streams"), Some(&RuntimeValue::Int(2)));
    match tree.get("stream_names") {
        Some(RuntimeValue::Array(names)) => {
            assert_eq!(names.len(), 2);
            // The names were interned into the scan's pool.
            match (&names[0], &names[1]) {
                (RuntimeValue::String(a), RuntimeValue::String(b)) => {
                    let mut got = vec![
                        pool.get(*a).clone(),
                        pool.get(*b).clone(),
                    ];
                    got.sort();
                    assert_eq!(got, vec![b"Root".to_vec(), b"data".to_vec()]);
                }
                _ => panic!("stream names should be interned strings"),
            }
        }
        _ => panic!("stream_names should be an array"),
    }
}

#[test]
fn olecf_module_on_unparseable_data() {
    let mut pool = BStringPool::new();
    let tree = module_main(&"olecf".to_string(), b"not a compound file", &mut pool).unwrap();
    assert_eq!(tree.get("is_olecf"), Some(&RuntimeValue::Bool(false)));
    assert_eq!(tree.get("number_of_streams"), Some(&RuntimeValue::Int(0)));
}

#[test]
fn unknown_module_is_not_populated() {
    let mut pool = BStringPool::new();
    assert!(module_main(&"pe".to_string(), b"", &mut pool).is_none());
}

#[test]
fn scan_with_olecf_import() {
    let image = build_image();
    let rules = yara_x::compiler::compile(
        b"import \"olecf\" rule has_bytes { condition: filesize > 100 }",
    )
    .unwrap();
    let mut scanner = yara_x::scanner::Scanner::new(&rules);
    let results = scanner.scan(&image).unwrap();
    assert_eq!(results.matching_rules(), 1);
}

use megutil::parser::{ExtractionError, IoFault, MegFile, MegFileError};
use megutil::select::{components_agree, match_path};
use megutil::wire::{bytes_between, u16_at, u32_at};

const NOCRYPT: u32 = 0xFFFF_FFFF;
const ENCRYPTED: u32 = 0x8FFF_FFFF;
const MAGIC: u32 = 0x3F7D_70A4;

struct Entry {
    flags: u16,
    name_index: u16,
    size: u32,
    start: u32,
}

fn push16(out: &mut Vec<u8>, v: u16) {
    out.extend_from_slice(&v.to_le_bytes());
}

fn push32(out: &mut Vec<u8>, v: u32) {
    out.extend_from_slice(&v.to_le_bytes());
}

fn raw_archive(flags: u32, magic: u32, counts: (u32, u32), name_tab_size: u32, names: &[&[u8]], entries: &[Entry], data: &[u8]) -> Vec<u8> {
    let mut out = Vec::new();
    push32(&mut out, flags);
    push32(&mut out, magic);
    push32(&mut out, 0);
    push32(&mut out, counts.0);
    push32(&mut out, counts.1);
    push32(&mut out, name_tab_size);
    for n in names {
        push16(&mut out, n.len() as u16);
        out.extend_from_slice(n);
    }
    for (i, e) in entries.iter().enumerate() {
        push16(&mut out, e.flags);
        push32(&mut out, 0xDEAD_BEEF);
        push32(&mut out, i as u32);
        push32(&mut out, e.size);
        push32(&mut out, e.start);
        push16(&mut out, e.name_index);
    }
    out.extend_from_slice(data);
    out
}

/// A well-formed archive holding `members`, contents laid out after the tables.
fn build(members: &[(&str, &[u8])]) -> Vec<u8> {
    let names: Vec<&[u8]> = members.iter().map(|m| m.0.as_bytes()).collect();
    let name_bytes: usize = names.iter().map(|n| n.len()).sum();
    let tables = 24 + names.iter().map(|n| 2 + n.len()).sum::<usize>() + 20 * members.len();
    let mut entries = Vec::new();
    let mut data = Vec::new();
    for (i, m) in members.iter().enumerate() {
        entries.push(Entry { flags: 0, name_index: i as u16, size: m.1.len() as u32, start: (tables + data.len()) as u32 });
        data.extend_from_slice(m.1);
    }
    let n = members.len() as u32;
    raw_archive(NOCRYPT, MAGIC, (n, n), name_bytes as u32, &names, &entries, &data)
}

fn extract_to_vec(m: &mut MegFile, name: &str) -> Result<Vec<u8>, ExtractionError> {
    let mut out = Vec::new();
    m.extract(name, &mut out).map(|_| out)
}

fn sorted(mut v: Vec<String>) -> Vec<String> {
    v.sort();
    v
}

#[test]
fn round_trip_lists_and_extracts() {
    let members: [(&str, &[u8]); 3] = [("DATA/A.XML", b"<a/>"), ("DATA/ART/B.TGA", b"\x00\x01\x02\x03\x04"), ("C.TXT", b"hello")];
    let mut m = MegFile::new(build(&members)).unwrap();
    assert_eq!(sorted(m.filenames()), vec!["C.TXT".to_string(), "DATA/A.XML".to_string(), "DATA/ART/B.TGA".to_string()]);
    for (name, content) in members.iter() {
        assert_eq!(extract_to_vec(&mut m, name).unwrap(), content.to_vec());
    }
}

#[test]
fn repeated_extract_gives_same_content() {
    let members: [(&str, &[u8]); 2] = [("X", b"first member"), ("Y", b"second")];
    let mut m = MegFile::new(build(&members)).unwrap();
    let y1 = extract_to_vec(&mut m, "Y").unwrap();
    let x1 = extract_to_vec(&mut m, "X").unwrap();
    let y2 = extract_to_vec(&mut m, "Y").unwrap();
    let x2 = extract_to_vec(&mut m, "X").unwrap();
    assert_eq!(x1, b"first member".to_vec());
    assert_eq!(x2, x1);
    assert_eq!(y1, b"second".to_vec());
    assert_eq!(y2, y1);
}

#[test]
fn extract_appends_to_destination() {
    let mut m = MegFile::new(build(&[("A", b"xyz")])).unwrap();
    let mut out = b"pre".to_vec();
    m.extract("A", &mut out).unwrap();
    assert_eq!(out, b"prexyz".to_vec());
}

#[test]
fn altered_magic_is_badly_formed() {
    let mut a = build(&[("A", b"1")]);
    a[4] ^= 0x01;
    assert_eq!(MegFile::new(a).err(), Some(MegFileError::BadlyFormed));
}

#[test]
fn unknown_flags_are_badly_formed() {
    let a = raw_archive(0x1234_5678, MAGIC, (0, 0), 0, &[], &[], &[]);
    assert_eq!(MegFile::new(a).err(), Some(MegFileError::BadlyFormed));
}

#[test]
fn encrypted_flags_are_refused() {
    let a = raw_archive(ENCRYPTED, MAGIC, (0, 0), 0, &[], &[], &[]);
    assert_eq!(MegFile::new(a).err(), Some(MegFileError::Encrypted));
    let b = raw_archive(ENCRYPTED, 0, (0, 0), 0, &[], &[], &[]);
    assert_eq!(MegFile::new(b).err(), Some(MegFileError::Encrypted));
}

#[test]
fn count_mismatch_is_badly_formed() {
    let names: [&[u8]; 1] = [b"A"];
    let entries = [Entry { flags: 0, name_index: 0, size: 0, start: 0 }];
    let a = raw_archive(NOCRYPT, MAGIC, (1, 2), 1, &names, &entries, &[]);
    assert_eq!(MegFile::new(a).err(), Some(MegFileError::BadlyFormed));
}

#[test]
fn name_table_overflow_is_badly_formed() {
    let names: [&[u8]; 2] = [b"ABC", b"DE"];
    let entries = [Entry { flags: 0, name_index: 0, size: 0, start: 0 }, Entry { flags: 0, name_index: 1, size: 0, start: 0 }];
    let a = raw_archive(NOCRYPT, MAGIC, (2, 2), 4, &names, &entries, &[]);
    assert_eq!(MegFile::new(a).err(), Some(MegFileError::BadlyFormed));
    let b = raw_archive(NOCRYPT, MAGIC, (2, 2), 5, &names, &entries, &[]);
    assert!(MegFile::new(b).is_ok());
}

#[test]
fn one_encrypted_member_refuses_archive() {
    let names: [&[u8]; 3] = [b"A", b"B", b"C"];
    let entries = [
        Entry { flags: 0, name_index: 0, size: 0, start: 0 },
        Entry { flags: 1, name_index: 1, size: 0, start: 0 },
        Entry { flags: 0, name_index: 2, size: 0, start: 0 },
    ];
    let a = raw_archive(NOCRYPT, MAGIC, (3, 3), 3, &names, &entries, &[]);
    assert_eq!(MegFile::new(a).err(), Some(MegFileError::Encrypted));
}

#[test]
fn member_flags_without_low_bit_are_accepted() {
    let names: [&[u8]; 1] = [b"A"];
    let entries = [Entry { flags: 2, name_index: 0, size: 0, start: 0 }];
    let a = raw_archive(NOCRYPT, MAGIC, (1, 1), 1, &names, &entries, &[]);
    assert!(MegFile::new(a).is_ok());
}

#[test]
fn missing_member_is_reported_and_writes_nothing() {
    let mut m = MegFile::new(build(&[("A", b"abc")])).unwrap();
    let mut out = b"kept".to_vec();
    match m.extract("B", &mut out) {
        Err(ExtractionError::NoSuchFile(s)) => assert_eq!(s, "B"),
        other => panic!("unexpected {:?}", other),
    }
    assert_eq!(out, b"kept".to_vec());
    assert_eq!(extract_to_vec(&mut m, "A").unwrap(), b"abc".to_vec());
}

#[test]
fn empty_member_extracts_nothing() {
    let mut m = MegFile::new(build(&[("EMPTY", b""), ("FULL", b"zz")])).unwrap();
    let mut out = Vec::new();
    m.extract("EMPTY", &mut out).unwrap();
    assert!(out.is_empty());
}

#[test]
fn empty_member_past_end_extracts_nothing() {
    let names: [&[u8]; 1] = [b"E"];
    let entries = [Entry { flags: 0, name_index: 0, size: 0, start: 1_000_000 }];
    let a = raw_archive(NOCRYPT, MAGIC, (1, 1), 1, &names, &entries, &[]);
    let mut m = MegFile::new(a).unwrap();
    assert_eq!(extract_to_vec(&mut m, "E").unwrap(), Vec::<u8>::new());
}

#[test]
fn member_past_end_is_io_error() {
    let names: [&[u8]; 1] = [b"A"];
    let entries = [Entry { flags: 0, name_index: 0, size: 10, start: 60 }];
    let a = raw_archive(NOCRYPT, MAGIC, (1, 1), 1, &names, &entries, b"0123");
    let mut m = MegFile::new(a).unwrap();
    let mut out = Vec::new();
    assert!(matches!(m.extract("A", &mut out), Err(ExtractionError::IOError(IoFault::UnexpectedEof))));
    assert!(out.is_empty());
}

#[test]
fn duplicate_names_keep_last_entry() {
    let names: [&[u8]; 2] = [b"A", b"A"];
    let entries = [Entry { flags: 0, name_index: 0, size: 1, start: 70 }, Entry { flags: 0, name_index: 1, size: 2, start: 71 }];
    let a = raw_archive(NOCRYPT, MAGIC, (2, 2), 2, &names, &entries, b"xyz");
    let mut m = MegFile::new(a).unwrap();
    assert_eq!(m.filenames(), vec!["A".to_string()]);
    assert_eq!(extract_to_vec(&mut m, "A").unwrap(), b"yz".to_vec());
}

#[test]
fn entry_may_reuse_a_name_index() {
    let names: [&[u8]; 2] = [b"A", b"B"];
    let entries = [Entry { flags: 0, name_index: 1, size: 1, start: 70 }, Entry { flags: 0, name_index: 1, size: 1, start: 71 }];
    let a = raw_archive(NOCRYPT, MAGIC, (2, 2), 2, &names, &entries, b"pq");
    let mut m = MegFile::new(a).unwrap();
    assert_eq!(m.filenames(), vec!["B".to_string()]);
    assert_eq!(extract_to_vec(&mut m, "B").unwrap(), b"q".to_vec());
}

#[test]
fn name_index_out_of_range_is_badly_formed() {
    let names: [&[u8]; 1] = [b"A"];
    let entries = [Entry { flags: 0, name_index: 1, size: 0, start: 0 }];
    let a = raw_archive(NOCRYPT, MAGIC, (1, 1), 1, &names, &entries, &[]);
    assert_eq!(MegFile::new(a).err(), Some(MegFileError::BadlyFormed));
}

#[test]
fn invalid_utf8_name_is_badly_formed() {
    let names: [&[u8]; 1] = [b"\xFF\xFE"];
    let entries = [Entry { flags: 0, name_index: 0, size: 0, start: 0 }];
    let a = raw_archive(NOCRYPT, MAGIC, (1, 1), 2, &names, &entries, &[]);
    assert_eq!(MegFile::new(a).err(), Some(MegFileError::BadlyFormed));
}

#[test]
fn utf8_names_are_decoded() {
    let mut m = MegFile::new(build(&[("DATA/ÄÖ.TXT", b"u")])).unwrap();
    assert_eq!(m.filenames(), vec!["DATA/ÄÖ.TXT".to_string()]);
    assert_eq!(extract_to_vec(&mut m, "DATA/ÄÖ.TXT").unwrap(), b"u".to_vec());
}

#[test]
fn truncated_sources_are_io_errors() {
    let eof = Some(MegFileError::IOError(IoFault::UnexpectedEof));
    assert_eq!(MegFile::new(Vec::new()).err(), eof);
    let full = build(&[("NAME", b"data")]);
    assert_eq!(MegFile::new(full[..7].to_vec()).err(), eof);
    assert_eq!(MegFile::new(full[..23].to_vec()).err(), eof);
    assert_eq!(MegFile::new(full[..27].to_vec()).err(), eof);
    assert_eq!(MegFile::new(full[..40].to_vec()).err(), eof);
}

#[test]
fn empty_archive_has_no_names() {
    let m = MegFile::new(build(&[])).unwrap();
    assert!(m.filenames().is_empty());
}

#[test]
fn path_patterns_select_by_component() {
    let members: [(&str, &[u8]); 4] = [("DATA/XML/A.XML", b"1"), ("DATA/XML/B.XML", b"2"), ("DATA/ART/C.TGA", b"3"), ("DATAX/D", b"4")];
    let m = MegFile::new(build(&members)).unwrap();
    assert_eq!(sorted(match_path("DATA/XML", &m)), vec!["DATA/XML/A.XML".to_string(), "DATA/XML/B.XML".to_string()]);
    assert_eq!(sorted(match_path("DATA", &m)), vec!["DATA/ART/C.TGA".to_string(), "DATA/XML/A.XML".to_string(), "DATA/XML/B.XML".to_string()]);
    assert_eq!(match_path("DATAX/D/E", &m), vec!["DATAX/D".to_string()]);
    assert!(match_path("OTHER", &m).is_empty());
}

#[test]
fn components_compare_as_far_as_both_go() {
    let a = vec!["x".to_string(), "y".to_string()];
    let b = vec!["x".to_string()];
    let c = vec!["z".to_string()];
    assert!(components_agree(&a, &b));
    assert!(!components_agree(&a, &c));
    assert!(components_agree(&Vec::new(), &c));
}

#[test]
fn little_endian_reads() {
    let d = vec![0x01, 0x02, 0x03, 0x04, 0x05];
    assert_eq!(u16_at(&d, 0), Some(0x0201));
    assert_eq!(u16_at(&d, 3), Some(0x0504));
    assert_eq!(u16_at(&d, 4), None);
    assert_eq!(u32_at(&d, 1), Some(0x0504_0302));
    assert_eq!(u32_at(&d, 2), None);
    assert_eq!(bytes_between(&d, 1, 3), vec![0x02, 0x03]);
}

#[test]
fn error_messages() {
    assert_eq!(MegFileError::BadlyFormed.message(), "File is not a valid archive.");
    assert_eq!(MegFileError::Encrypted.message(), "Archive is encrypted");
    assert_eq!(MegFileError::IOError(IoFault::UnexpectedEof).message(), "failed to fill whole buffer");
    assert_eq!(ExtractionError::NoSuchFile("A/B".to_string()).message(), "file A/B not present in archive");
}

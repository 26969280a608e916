use sol_gate::vp::compression::{maybe_decompress, LZ4Info};
use sol_gate::vp::fs::{index, read_entry as find_entry, split_path};
use sol_gate::vp::parser::{header, indices, write_header, write_indices};
use sol_gate::vp::types::{VPDir, VPEntry, VPError, VPFile, VPHeader, VPIndex};

fn name_field(name: &str) -> [u8; 32] {
    let mut field = [0u8; 32];
    field[..name.len()].copy_from_slice(name.as_bytes());
    field
}

fn record(name: &str, fileoffset: u32, size: u32) -> VPIndex {
    VPIndex { fileoffset, size, name: name_field(name), timestamp: 1_000_000 }
}

/// A container with `data/hud/radar-asteroid.dds` and `data/readme.txt`.
fn sample_container() -> (Vec<u8>, Vec<u8>) {
    let icon: Vec<u8> = (0u8..200).collect();
    let readme = b"read me".to_vec();
    let index_offset = 16 + icon.len() + readme.len();
    let records = vec![
        record("data", 0, 0),
        record("hud", 0, 0),
        record("radar-asteroid.dds", 16, icon.len() as u32),
        record("..", 0, 0),
        record("readme.txt", (16 + icon.len()) as u32, readme.len() as u32),
        record("..", 0, 0),
    ];
    let head = VPHeader { version: 2, offset: index_offset as u32, entries: records.len() as u32 };
    let mut bytes = write_header(&head);
    bytes.extend_from_slice(&icon);
    bytes.extend_from_slice(&readme);
    bytes.extend_from_slice(&write_indices(&records));
    (bytes, icon)
}

fn path(parts: &[&str]) -> Vec<String> {
    parts.iter().map(|p| p.to_string()).collect()
}

#[test]
fn read_vp() {
    let (bytes, _) = sample_container();
    let result = index(&bytes);
    println!("{:?}", result);
    assert!(result.is_ok());
}

#[test]
fn read_entry() {
    let (bytes, icon) = sample_container();
    let tree = index(&bytes).unwrap();
    let entry: VPFile = find_entry(&tree, &path(&["data", "hud", "radar-asteroid.dds"])).unwrap();
    assert_eq!(entry.name, "radar-asteroid.dds");
    assert_eq!(entry.fileoffset, 16);
    assert_eq!(entry.size, icon.len() as u64);
}

#[test]
fn read_file() {
    let (bytes, raw_data) = sample_container();
    let components = path(&["test_files", "mv_radaricons.vp", "data", "hud", "radar-asteroid.dds"]);
    let is_file = vec![false, true, false, false, false];
    let (fs_path, vp_path) = split_path(&components, &is_file).unwrap();
    assert_eq!(fs_path, path(&["test_files", "mv_radaricons.vp"]));
    let contents = index(&bytes).unwrap();
    let vp_entry = contents.locate(&vp_path).unwrap();
    let start = vp_entry.fileoffset as usize;
    let filesize: usize = vp_entry.size.try_into().unwrap();
    let vp_data = bytes[start..start + filesize].to_vec();
    assert_eq!(raw_data, vp_data)
}

#[test]
fn header_is_sixteen_bytes_little_endian() {
    let head = VPHeader { version: 2, offset: 0x0102_0304, entries: 7 };
    let bytes = write_header(&head);
    assert_eq!(
        bytes,
        vec![b'V', b'P', b'V', b'P', 2, 0, 0, 0, 4, 3, 2, 1, 7, 0, 0, 0]
    );
    assert_eq!(header(&bytes), Ok(head));
}

#[test]
fn header_with_wrong_magic_is_malformed() {
    let mut bytes = write_header(&VPHeader { version: 2, offset: 16, entries: 0 });
    bytes[3] = b'Q';
    assert_eq!(header(&bytes), Err(VPError::MalformedContainer));
}

#[test]
fn header_that_is_too_short_is_malformed() {
    assert_eq!(header(b"VPVP\x02\x00\x00\x00"), Err(VPError::MalformedContainer));
    assert_eq!(header(b""), Err(VPError::MalformedContainer));
}

#[test]
fn record_is_forty_four_bytes() {
    let bytes = write_indices(&vec![record("a.txt", 16, 3)]);
    assert_eq!(bytes.len(), 44);
    assert_eq!(&bytes[0..4], &[16, 0, 0, 0]);
    assert_eq!(&bytes[4..8], &[3, 0, 0, 0]);
    assert_eq!(&bytes[8..13], b"a.txt");
    assert!(bytes[13..40].iter().all(|b| *b == 0));
    assert_eq!(&bytes[40..44], &1_000_000u32.to_le_bytes());
}

#[test]
fn written_index_reads_back() {
    let records = vec![
        record("data", 0, 0),
        record("x.tbl", 16, 40),
        record("..", 0, 0),
        record("12345678901234567890123456789012", 56, 9),
    ];
    let bytes = write_indices(&records);
    let read = indices(&bytes, records.len() as u32).unwrap();
    assert_eq!(read.len(), records.len());
    for (a, b) in read.iter().zip(records.iter()) {
        assert_eq!(a.fileoffset, b.fileoffset);
        assert_eq!(a.size, b.size);
        assert_eq!(a.name, b.name);
        assert_eq!(a.timestamp, b.timestamp);
    }
}

#[test]
fn truncated_index_is_malformed() {
    let bytes = write_indices(&vec![record("a", 16, 1), record("b", 17, 1)]);
    assert!(matches!(indices(&bytes[..87], 2), Err(VPError::MalformedContainer)));
    assert!(indices(&bytes, 2).is_ok());
    assert!(matches!(indices(&bytes, 3), Err(VPError::MalformedContainer)));
}

#[test]
fn index_beyond_the_end_is_malformed() {
    let bytes = write_header(&VPHeader { version: 2, offset: 17, entries: 0 });
    assert!(matches!(index(&bytes), Err(VPError::MalformedContainer)));
}

#[test]
fn container_without_entries_is_an_empty_directory() {
    let bytes = write_header(&VPHeader { version: 2, offset: 16, entries: 0 });
    let tree = index(&bytes).unwrap();
    assert_eq!(tree.name, "");
    assert!(tree.contents.is_empty());
    assert!(tree.flatten().is_empty());
}

#[test]
fn name_of_thirty_two_bytes_parses_intact() {
    let long = "12345678901234567890123456789012";
    assert_eq!(long.len(), 32);
    let file = VPFile::from_index(&record(long, 16, 5)).unwrap();
    assert_eq!(file.name, long);
    assert_eq!(file.fileoffset, 16);
    assert_eq!(file.size, 5);
    assert_eq!(file.timestamp, 1_000_000);
}

#[test]
fn name_is_trimmed_of_padding() {
    let mut field = [0u8; 32];
    field[2..7].copy_from_slice(b"a.txt");
    let raw = VPIndex { fileoffset: 1, size: 2, name: field, timestamp: 3 };
    assert_eq!(VPFile::from_index(&raw).unwrap().name, "a.txt");
}

#[test]
fn name_that_is_not_utf8_is_malformed() {
    let mut field = [0u8; 32];
    field[0] = 0xff;
    field[1] = 0xfe;
    let raw = VPIndex { fileoffset: 1, size: 2, name: field, timestamp: 3 };
    assert!(matches!(VPFile::from_index(&raw), Err(VPError::MalformedContainer)));
    assert!(matches!(VPDir::from_indices(&vec![raw]), Err(VPError::MalformedContainer)));
}

#[test]
fn ascend_without_open_directory_is_malformed() {
    let records = vec![record("a.txt", 16, 1), record("..", 0, 0), record("b.txt", 17, 1)];
    assert!(matches!(VPDir::from_indices(&records), Err(VPError::MalformedContainer)));
}

#[test]
fn directory_left_open_is_closed_by_the_end() {
    let records = vec![record("data", 0, 0), record("a.txt", 16, 1)];
    let tree = VPDir::from_indices(&records).unwrap();
    assert_eq!(tree.contents.len(), 1);
    match &tree.contents[0] {
        VPEntry::Dir(d) => {
            assert_eq!(d.name, "data");
            assert_eq!(d.contents.len(), 1);
        }
        VPEntry::File(_) => panic!("expected a directory"),
    }
}

#[test]
fn flatten_names_files_by_their_paths() {
    let (bytes, _) = sample_container();
    let mut tree = index(&bytes).unwrap();
    tree.name = "out".to_string();
    let files = tree.flatten();
    let names: Vec<&str> = files.iter().map(|f| f.name.as_str()).collect();
    assert_eq!(names, vec!["out/data/hud/radar-asteroid.dds", "out/data/readme.txt"]);
    assert_eq!(files[0].fileoffset, 16);
    assert_eq!(files[0].size, 200);
    assert_eq!(files[1].fileoffset, 216);
    assert_eq!(files[1].size, 7);
}

#[test]
fn locate_walks_the_tree() {
    let (bytes, _) = sample_container();
    let tree = index(&bytes).unwrap();
    let found = tree.locate(&path(&["data", "readme.txt"])).unwrap();
    assert_eq!(found.name, "readme.txt");
    assert_eq!((found.fileoffset, found.size), (216, 7));
    assert!(matches!(tree.locate(&path(&["data", "missing"])), Err(VPError::NotFound)));
    assert!(matches!(tree.locate(&path(&["data", "hud"])), Err(VPError::NotFound)));
    assert!(matches!(tree.locate(&path(&[])), Err(VPError::NotFound)));
    assert!(matches!(
        tree.locate(&path(&["data", "readme.txt", "more"])),
        Err(VPError::NotFound)
    ));
}

#[test]
fn read_entry_wants_directories_then_a_file() {
    let (bytes, _) = sample_container();
    let tree = index(&bytes).unwrap();
    assert!(matches!(find_entry(&tree, &path(&["data"])), Err(VPError::NotFound)));
    assert!(matches!(find_entry(&tree, &path(&["data", "hud"])), Err(VPError::NotFound)));
    assert!(matches!(find_entry(&tree, &path(&[])), Err(VPError::NotFound)));
    assert!(find_entry(&tree, &path(&["data", "readme.txt"])).is_ok());
}

#[test]
fn split_path_takes_the_longest_file_prefix() {
    let components = path(&["a", "b.vp", "c", "d"]);
    let (outer, inner) = split_path(&components, &vec![false, true, false, false]).unwrap();
    assert_eq!(outer, path(&["a", "b.vp"]));
    assert_eq!(inner, path(&["c", "d"]));
    let (outer, inner) = split_path(&components, &vec![false, true, false, true]).unwrap();
    assert_eq!(outer, components);
    assert!(inner.is_empty());
    assert!(matches!(
        split_path(&components, &vec![false, false, false, false]),
        Err(VPError::NotFound)
    ));
}

#[test]
fn trailer_is_three_little_endian_numbers() {
    let info = LZ4Info::parse(&[1, 0, 0, 0, 0, 1, 0, 0, 0, 0, 1, 0, 9, 9]).unwrap();
    assert_eq!(info, LZ4Info { offsets: 1, filesize: 256, blocksize: 65536 });
    assert_eq!(LZ4Info::parse(&[0; 11]), None);
}

fn lz4_wrap(bytes: &[u8]) -> Vec<u8> {
    let body = lz4::block::compress(bytes, None, false).unwrap();
    let mut framed = b"LZ41".to_vec();
    framed.extend_from_slice(&body);
    framed.extend_from_slice(&1u32.to_le_bytes());
    framed.extend_from_slice(&(bytes.len() as u32).to_le_bytes());
    framed.extend_from_slice(&65536u32.to_le_bytes());
    framed
}

#[test]
fn framed_payload_decompresses_to_what_was_packed() {
    let plain: Vec<u8> = (0..5000u32).map(|i| (i % 7) as u8).collect();
    let framed = lz4_wrap(&plain);
    assert_ne!(framed, plain);
    assert_eq!(maybe_decompress(framed), Ok(plain));
}

#[test]
fn payload_without_magic_is_returned_as_it_is() {
    let plain = b"plain payload".to_vec();
    assert_eq!(maybe_decompress(plain.clone()), Ok(plain));
    assert_eq!(maybe_decompress(b"LZ4".to_vec()), Ok(b"LZ4".to_vec()));
    assert_eq!(maybe_decompress(Vec::new()), Ok(Vec::new()));
}

#[test]
fn framed_payload_that_is_too_short_is_malformed() {
    assert_eq!(maybe_decompress(b"LZ41\x00\x00".to_vec()), Err(VPError::MalformedContainer));
}

#[test]
fn framed_payload_that_does_not_decompress_is_malformed() {
    let mut framed = lz4_wrap(b"some bytes that compress, some bytes that compress");
    let end = framed.len();
    framed[end - 8..end - 4].copy_from_slice(&3u32.to_le_bytes());
    assert_eq!(maybe_decompress(framed), Err(VPError::MalformedContainer));
}

#[test]
fn framed_payload_that_declares_too_much_is_malformed() {
    let mut framed = lz4_wrap(b"abc");
    let end = framed.len();
    framed[end - 8..end - 4].copy_from_slice(&0x8000_0000u32.to_le_bytes());
    assert_eq!(maybe_decompress(framed), Err(VPError::MalformedContainer));
}

fn file(name: &str, fileoffset: u64, size: u64) -> VPEntry {
    VPEntry::File(VPFile { fileoffset, size, name: name.to_string(), timestamp: 5 })
}

fn dir(name: &str, contents: Vec<VPEntry>) -> VPEntry {
    VPEntry::Dir(VPDir { name: name.to_string(), contents })
}

#[test]
fn tree_written_as_an_index_reads_back() {
    let tree = VPDir {
        name: String::new(),
        contents: vec![
            dir(
                "data",
                vec![
                    dir("tables", vec![file("ships.tbl", 16, 100), file("weapons.tbl", 116, 7)]),
                    dir("empty", vec![]),
                    file("12345678901234567890123456789012", 123, 1),
                ],
            ),
            file("readme.txt", 124, 4_000_000_000),
            file("..", 200, 1),
        ],
    };
    let records = tree.to_indices().unwrap();
    assert_eq!(records.len(), 11);
    assert_eq!(&records[0].name[..5], b"data\0");
    assert_eq!(records[0].size, 0);
    assert_eq!(&records[6].name[..3], b"..\0");
    assert_eq!(records[9].size, 4_000_000_000);
    assert_eq!(VPDir::from_indices(&records).unwrap(), tree);
    let bytes = write_indices(&records);
    assert_eq!(VPDir::from_indices(&indices(&bytes, 11).unwrap()).unwrap(), tree);
}

#[test]
fn tree_that_cannot_be_read_back_is_not_written() {
    let write = |entry: VPEntry| VPDir { name: String::new(), contents: vec![entry] }.to_indices();
    assert!(write(file("ok.txt", 1, 1)).is_ok());
    assert!(matches!(write(file("empty.txt", 1, 0)), Err(VPError::MalformedContainer)));
    assert!(matches!(write(file("far.txt", 1 << 32, 1)), Err(VPError::MalformedContainer)));
    assert!(matches!(write(file("big.txt", 1, 1 << 32)), Err(VPError::MalformedContainer)));
    assert!(matches!(
        write(file("123456789012345678901234567890123", 1, 1)),
        Err(VPError::MalformedContainer)
    ));
    assert!(matches!(write(file("nul\0", 1, 1)), Err(VPError::MalformedContainer)));
    assert!(matches!(write(dir("..", vec![])), Err(VPError::MalformedContainer)));
    assert!(matches!(
        write(dir("outer", vec![file("empty.txt", 1, 0)])),
        Err(VPError::MalformedContainer)
    ));
    assert!(write(dir("", vec![file("", 1, 1)])).is_ok());
    let root = VPDir { name: "anything at all, however long it may be".to_string(), contents: vec![] };
    assert_eq!(root.to_indices().unwrap().len(), 0);
}

#[test]
fn last_entry_of_a_name_wins() {
    let tree = VPDir {
        name: String::new(),
        contents: vec![
            dir("data", vec![file("a.tbl", 16, 1)]),
            file("x", 20, 2),
            dir("data", vec![file("a.tbl", 30, 3), file("a.tbl", 40, 4)]),
            file("x", 50, 5),
        ],
    };
    assert_eq!(tree.locate(&path(&["x"])).unwrap().fileoffset, 50);
    assert_eq!(tree.locate(&path(&["data", "a.tbl"])).unwrap().fileoffset, 40);
    assert_eq!(find_entry(&tree, &path(&["x"])).unwrap().size, 5);
    assert_eq!(find_entry(&tree, &path(&["data", "a.tbl"])).unwrap().size, 4);
}

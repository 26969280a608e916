use sol_gate::catalog::Catalog;
use sol_gate::common::{Archive, ArchiveEntry, SHA256Checksum, Source, SourceFormat};
use sol_gate::db::SourceLocation;
use sol_gate::files::hash::hash_bytes;
use sol_gate::files::materialize::{materialize, read_blob, read_data_path, LocalFile};
use sol_gate::files::readers::{get_path, ReaderError};
use sol_gate::files::{
    DataPath, FileAcquisitionError, ManifEntry, ManifIdent, VPContents, VPEntry,
};
use sol_gate::vp::parser::{write_header, write_indices};
use sol_gate::vp::types::{VPHeader, VPIndex};

fn record(name: &str, fileoffset: u32, size: u32) -> VPIndex {
    let mut field = [0u8; 32];
    field[..name.len()].copy_from_slice(name.as_bytes());
    VPIndex { fileoffset, size, name: field, timestamp: 0 }
}

/// A VP with the directory `data`, which holds `a.txt` ("alpha") and
/// `b.txt` ("beta").
fn small_vp() -> Vec<u8> {
    let records = vec![
        record("data", 0, 0),
        record("a.txt", 16, 5),
        record("b.txt", 21, 4),
        record("..", 0, 0),
    ];
    let mut bytes = write_header(&VPHeader { version: 2, offset: 25, entries: 4 });
    bytes.extend_from_slice(b"alphabeta");
    bytes.extend_from_slice(&write_indices(&records));
    bytes
}

fn local(path: &str, h_id: i64, size: i64, location: SourceLocation, format: SourceFormat) -> Source {
    Source { location, path: path.to_string(), h_id, size, format }
}

fn file(path: &str, bytes: &[u8]) -> LocalFile {
    LocalFile { path: path.to_string(), bytes: bytes.to_vec() }
}

fn raw(path: &str, sum: &SHA256Checksum) -> ManifEntry {
    ManifEntry { path: path.to_string(), ident: ManifIdent::Raw(sum.clone()) }
}

/// A catalog that knows a loose file "hello\n" in the managed tree, and a
/// VP in the temp directory that holds `alpha` and `beta`.
fn stocked() -> (Catalog, Vec<LocalFile>, Vec<SHA256Checksum>) {
    let hello = hash_bytes(b"hello\n");
    let vp = hash_bytes(&small_vp());
    let alpha = hash_bytes(b"alpha");
    let beta = hash_bytes(b"beta");
    let mut catalog = Catalog::new();
    let sums = vec![hello, vp, alpha, beta];
    let ids = catalog.upsert_digests(&sums).unwrap();
    assert_eq!(ids, vec![1, 2, 3, 4]);
    catalog
        .insert_sources(&vec![
            local("/m/hello", 1, 6, SourceLocation::Local, SourceFormat::Raw),
            local("/t/root.vp", 2, small_vp().len() as i64, SourceLocation::Temp, SourceFormat::VP),
        ])
        .unwrap();
    catalog
        .insert_archive_entries(&vec![
            ArchiveEntry {
                file_id: 3,
                file_path: "/data/a.txt".to_string(),
                archive_id: 2,
                archive_type: Archive::VP,
            },
            ArchiveEntry {
                file_id: 4,
                file_path: "/data/b.txt".to_string(),
                archive_id: 2,
                archive_type: Archive::VP,
            },
        ])
        .unwrap();
    let disk = vec![file("/m/hello", b"hello\n"), file("/t/root.vp", &small_vp())];
    (catalog, disk, sums)
}

#[test]
fn catalogued_file_is_read_from_disk() {
    let (catalog, disk, sums) = stocked();
    match get_path(&catalog, &sums[0]).unwrap() {
        DataPath::Raw(path) => assert_eq!(path, "/m/hello"),
        other => panic!("unexpected place {:?}", other),
    }
    assert_eq!(read_blob(&catalog, &disk, &sums[0]).unwrap(), b"hello\n");
}

#[test]
fn catalogued_vp_entry_is_read_out_of_the_vp() {
    let (catalog, disk, sums) = stocked();
    match get_path(&catalog, &sums[3]).unwrap() {
        DataPath::VPEntry(path, inner) => {
            assert_eq!(path, "/t/root.vp");
            assert_eq!(inner, "/data/b.txt");
        }
        other => panic!("unexpected place {:?}", other),
    }
    assert_eq!(read_blob(&catalog, &disk, &sums[2]).unwrap(), b"alpha");
    assert_eq!(read_blob(&catalog, &disk, &sums[3]).unwrap(), b"beta");
}

#[test]
fn unknown_digest_has_no_place() {
    let (catalog, disk, _) = stocked();
    let stranger = hash_bytes(b"stranger");
    match get_path(&catalog, &stranger) {
        Err(ReaderError::LocateError(sum)) => assert_eq!(sum, stranger),
        other => panic!("unexpected answer {:?}", other),
    }
    assert!(matches!(
        read_blob(&catalog, &disk, &stranger),
        Err(FileAcquisitionError::IOFailure(_))
    ));
}

#[test]
fn blob_with_only_remote_sources_has_no_place() {
    let mut catalog = Catalog::new();
    let sum = hash_bytes(b"far away");
    catalog.upsert_digests(&vec![sum.clone()]).unwrap();
    catalog
        .insert_sources(&vec![local("https://r/x", 1, 8, SourceLocation::FSN, SourceFormat::Raw)])
        .unwrap();
    assert!(matches!(get_path(&catalog, &sum), Err(ReaderError::LocateError(_))));
}

#[test]
fn places_are_read_from_the_files_given() {
    let (_, disk, _) = stocked();
    let whole = read_data_path(&DataPath::Raw("/t/root.vp".to_string()), &disk).unwrap();
    assert_eq!(whole, small_vp());
    let inner = DataPath::VPEntry("/t/root.vp".to_string(), "/data/a.txt".to_string());
    assert_eq!(read_data_path(&inner, &disk).unwrap(), b"alpha");

    let absent = DataPath::Raw("/nowhere".to_string());
    assert!(matches!(read_data_path(&absent, &disk), Err(ReaderError::IOError(_))));
    let no_entry = DataPath::VPEntry("/t/root.vp".to_string(), "/data/c.txt".to_string());
    match read_data_path(&no_entry, &disk) {
        Err(ReaderError::VPError(path, inner)) => {
            assert_eq!(path, "/t/root.vp");
            assert_eq!(inner, "/data/c.txt");
        }
        other => panic!("unexpected answer {:?}", other),
    }
    let no_vp = DataPath::VPEntry("/m/hello".to_string(), "/data/a.txt".to_string());
    assert!(matches!(read_data_path(&no_vp, &disk), Err(ReaderError::VPError(_, _))));
    let seven = DataPath::SZEntry("/t/root.vp".to_string(), "/data/a.txt".to_string());
    assert!(matches!(read_data_path(&seven, &disk), Err(ReaderError::VPError(_, _))));
}

#[test]
fn entry_that_runs_past_the_end_of_the_vp_is_refused() {
    let records = vec![record("a.txt", 16, 500)];
    let mut bytes = write_header(&VPHeader { version: 2, offset: 21, entries: 1 });
    bytes.extend_from_slice(b"alpha");
    bytes.extend_from_slice(&write_indices(&records));
    let disk = vec![file("/t/short.vp", &bytes)];
    let place = DataPath::VPEntry("/t/short.vp".to_string(), "/a.txt".to_string());
    assert!(matches!(read_data_path(&place, &disk), Err(ReaderError::VPError(_, _))));
}

#[test]
fn every_file_of_the_manifest_is_written_with_its_content() {
    let (catalog, disk, sums) = stocked();
    let manifest = vec![
        raw("readme.txt", &sums[0]),
        raw("data/tables/a.tbl", &sums[2]),
        ManifEntry {
            path: "root.vp".to_string(),
            ident: ManifIdent::VP(VPContents::Hash(sums[1].clone())),
        },
    ];
    let written = materialize(&catalog, &disk, &manifest, "/games/mod/mod-1.0").unwrap();
    assert_eq!(
        written,
        vec![
            file("/games/mod/mod-1.0/readme.txt", b"hello\n"),
            file("/games/mod/mod-1.0/data/tables/a.tbl", b"alpha"),
            file("/games/mod/mod-1.0/root.vp", &small_vp()),
        ]
    );
    for (entry, out) in manifest.iter().zip(written.iter()) {
        let expected = match &entry.ident {
            ManifIdent::Raw(sum) => sum,
            ManifIdent::VP(VPContents::Hash(sum)) => sum,
            ManifIdent::VP(VPContents::Contents(_)) => unreachable!(),
        };
        assert_eq!(&hash_bytes(&out.bytes), expected);
    }
}

#[test]
fn empty_manifest_writes_nothing() {
    let (catalog, disk, _) = stocked();
    assert_eq!(materialize(&catalog, &disk, &vec![], "/games").unwrap(), vec![]);
}

#[test]
fn one_unreadable_blob_keeps_every_file_from_being_written() {
    let (catalog, mut disk, sums) = stocked();
    disk.pop();
    let manifest = vec![raw("readme.txt", &sums[0]), raw("a.tbl", &sums[2])];
    assert!(matches!(
        materialize(&catalog, &disk, &manifest, "/games"),
        Err(FileAcquisitionError::IOFailure(_))
    ));
}

#[test]
fn file_that_is_not_the_blob_is_a_hash_mismatch() {
    let (catalog, mut disk, sums) = stocked();
    disk[0].bytes = b"jello\n".to_vec();
    let manifest = vec![raw("a.tbl", &sums[2]), raw("readme.txt", &sums[0])];
    match materialize(&catalog, &disk, &manifest, "/games") {
        Err(FileAcquisitionError::ContentHashMismatch(observed)) => {
            assert_eq!(observed, hash_bytes(b"jello\n"));
        }
        other => panic!("unexpected answer {:?}", other),
    }
}

#[test]
fn vp_that_is_yet_to_be_built_is_not_written() {
    let (catalog, disk, sums) = stocked();
    let manifest = vec![ManifEntry {
        path: "new.vp".to_string(),
        ident: ManifIdent::VP(VPContents::Contents(vec![VPEntry {
            path: "/data/a.txt".to_string(),
            hash: sums[2].clone(),
        }])),
    }];
    assert!(matches!(
        materialize(&catalog, &disk, &manifest, "/games"),
        Err(FileAcquisitionError::IOFailure(_))
    ));
}

#[test]
fn last_file_of_a_path_in_a_vp_is_read() {
    let records = vec![record("a.txt", 16, 5), record("a.txt", 21, 4)];
    let mut bytes = write_header(&VPHeader { version: 2, offset: 25, entries: 2 });
    bytes.extend_from_slice(b"alphabeta");
    bytes.extend_from_slice(&write_indices(&records));
    let disk = vec![file("/t/twice.vp", &bytes)];
    let place = DataPath::VPEntry("/t/twice.vp".to_string(), "/a.txt".to_string());
    assert_eq!(read_data_path(&place, &disk).unwrap(), b"beta");
}

use sol_gate::catalog::Catalog;
use sol_gate::common::{Archive, ArchiveEntry, SHA256Checksum, Source, SourceFormat};
use sol_gate::db::SourceLocation;
use sol_gate::files::hash::hash_bytes;
use sol_gate::files::indexer::{
    acquisition_error, file_source, index_file, source_format_for, vp_archive_entries, IndexError,
};
use sol_gate::files::FileAcquisitionError;
use sol_gate::vp::parser::{write_header, write_indices};
use sol_gate::vp::types::{VPHeader, VPIndex};

fn digest(tag: u8) -> SHA256Checksum {
    SHA256Checksum(vec![tag; 32])
}

fn source(location: SourceLocation, path: &str, h_id: i64, size: i64) -> Source {
    Source { location, path: path.to_string(), h_id, size, format: SourceFormat::Raw }
}

fn entry(child: i64, archive: i64, path: &str) -> ArchiveEntry {
    ArchiveEntry {
        file_id: child,
        file_path: path.to_string(),
        archive_id: archive,
        archive_type: Archive::VP,
    }
}

fn record(name: &str, fileoffset: u32, size: u32) -> VPIndex {
    let mut field = [0u8; 32];
    field[..name.len()].copy_from_slice(name.as_bytes());
    VPIndex { fileoffset, size, name: field, timestamp: 7 }
}

fn small_vp() -> Vec<u8> {
    let records =
        vec![record("data", 0, 0), record("x.tbl", 16, 5), record("y.tbl", 21, 3), record("..", 0, 0)];
    let mut bytes = write_header(&VPHeader { version: 2, offset: 24, entries: 4 });
    bytes.extend_from_slice(b"hello");
    bytes.extend_from_slice(b"abc");
    bytes.extend_from_slice(&write_indices(&records));
    bytes
}

#[test]
fn digests_are_numbered_once() {
    let mut catalog = Catalog::new();
    assert_eq!(catalog.upsert_digests(&vec![digest(1), digest(2), digest(1)]).unwrap(), vec![1, 2, 1]);
    assert_eq!(catalog.upsert_digests(&vec![digest(3), digest(2)]).unwrap(), vec![3, 2]);
    assert_eq!(catalog.upsert_digests(&vec![digest(1), digest(2), digest(1)]).unwrap(), vec![1, 2, 1]);
    assert_eq!(catalog.get_id_from_hash(&digest(3)), Some(3));
    assert_eq!(catalog.get_id_from_hash(&digest(4)), None);
    assert_eq!(catalog.get_hash_from_id(2), Some(&digest(2)));
    assert_eq!(catalog.get_hash_from_id(0), None);
    assert_eq!(catalog.get_hash_from_id(4), None);
    assert_eq!(catalog.get_hash_from_id(-1), None);
    assert_eq!(
        catalog.get_hash_ids(&vec![digest(2), digest(9), digest(1)]),
        vec![(digest(2), 2), (digest(1), 1)]
    );
}

#[test]
fn sources_are_recorded_once_for_each_place_and_blob() {
    let mut catalog = Catalog::new();
    catalog.upsert_digests(&vec![digest(1), digest(2)]).unwrap();
    let batch = vec![
        source(SourceLocation::FSN, "https://r/a", 1, 10),
        source(SourceLocation::FSN, "https://r/a", 2, 10),
        source(SourceLocation::Temp, "https://r/a", 1, 10),
        source(SourceLocation::FSN, "https://r/a", 1, 99),
    ];
    catalog.insert_sources(&batch).unwrap();
    let all = catalog.get_sources_from_ids(&vec![1, 2]);
    assert_eq!(all, batch[..3].to_vec());
    catalog.insert_sources(&batch).unwrap();
    assert_eq!(catalog.get_sources_from_ids(&vec![1, 2]), all);
    assert_eq!(catalog.get_sources_from_ids(&vec![2]), vec![batch[1].clone()]);
    assert_eq!(catalog.get_sources_from_hash(&digest(1)), vec![batch[0].clone(), batch[2].clone()]);
    assert!(catalog.get_sources_from_hash(&digest(7)).is_empty());
}

#[test]
fn source_of_an_unknown_blob_fails_the_whole_batch() {
    let mut catalog = Catalog::new();
    catalog.upsert_digests(&vec![digest(1)]).unwrap();
    let batch = vec![source(SourceLocation::FSN, "https://r/a", 1, 10), source(SourceLocation::FSN, "https://r/b", 2, 10)];
    assert!(matches!(catalog.insert_sources(&batch), Err(FileAcquisitionError::CatalogFailure(_))));
    assert!(catalog.get_sources_from_ids(&vec![1, 2]).is_empty());
}

#[test]
fn edges_are_recorded_once_for_each_child_and_archive() {
    let mut catalog = Catalog::new();
    catalog.upsert_digests(&vec![digest(1), digest(2), digest(3)]).unwrap();
    let batch = vec![entry(1, 3, "a"), entry(2, 3, "b"), entry(1, 3, "other"), entry(1, 2, "c")];
    catalog.insert_archive_entries(&batch).unwrap();
    let parents = catalog.get_parents_from_ids(&vec![1, 2]);
    assert_eq!(parents, vec![batch[0].clone(), batch[1].clone(), batch[3].clone()]);
    catalog.insert_archive_entries(&batch).unwrap();
    assert_eq!(catalog.get_parents_from_ids(&vec![1, 2]), parents);
    assert_eq!(catalog.get_parents_from_ids(&vec![2]), vec![batch[1].clone()]);
    assert!(catalog.get_parents_from_ids(&vec![3]).is_empty());
    assert!(matches!(
        catalog.insert_archive_entries(&vec![entry(1, 9, "x")]),
        Err(FileAcquisitionError::CatalogFailure(_))
    ));
    assert_eq!(catalog.get_parents_from_ids(&vec![1, 2]), parents);
}

#[test]
fn files_are_indexed_by_their_extension() {
    assert_eq!(source_format_for(Some("vp")), Some(SourceFormat::VP));
    assert_eq!(source_format_for(Some("vpc")), None);
    assert_eq!(source_format_for(Some("7z")), Some(SourceFormat::Raw));
    assert_eq!(source_format_for(Some("VP")), Some(SourceFormat::Raw));
    assert_eq!(source_format_for(None), Some(SourceFormat::Raw));
}

#[test]
fn source_row_of_a_file() {
    let row = file_source(SourceLocation::Temp, "/t/x", 4, 1234, SourceFormat::VP).unwrap();
    assert_eq!(
        row,
        Source {
            location: SourceLocation::Temp,
            path: "/t/x".to_string(),
            h_id: 4,
            size: 1234,
            format: SourceFormat::VP
        }
    );
    assert!(file_source(SourceLocation::Temp, "/t/x", 4, u64::MAX, SourceFormat::Raw).is_none());
    assert!(file_source(SourceLocation::Temp, "/t/x", 4, i64::MAX as u64, SourceFormat::Raw).is_some());
}

#[test]
fn archive_entries_pair_digests_with_names() {
    let known = vec![(digest(1), 11i64), (digest(2), 12)];
    let names = vec!["/data/a".to_string(), "/data/b".to_string(), "/data/c".to_string()];
    let rows = vp_archive_entries(&vec![digest(2), digest(1)], &names, &known, 40).unwrap();
    assert_eq!(
        rows,
        vec![
            ArchiveEntry { file_id: 12, file_path: "/data/a".to_string(), archive_id: 40, archive_type: Archive::VP },
            ArchiveEntry { file_id: 11, file_path: "/data/b".to_string(), archive_id: 40, archive_type: Archive::VP },
        ]
    );
    assert_eq!(vp_archive_entries(&vec![digest(2), digest(5)], &names, &known, 40), Err(digest(5)));
}

#[test]
fn indexing_a_file_records_its_digest_and_a_source() {
    let mut catalog = Catalog::new();
    let done = index_file(&mut catalog, "/t/foo.txt", Some("txt"), b"hello\n", SourceLocation::Temp).unwrap();
    assert_eq!(done.blob, 1);
    assert!(done.entries.is_empty());
    assert_eq!(
        done.source,
        Source {
            location: SourceLocation::Temp,
            path: "/t/foo.txt".to_string(),
            h_id: 1,
            size: 6,
            format: SourceFormat::Raw
        }
    );
    assert_eq!(catalog.get_id_from_hash(&hash_bytes(b"hello\n")), Some(1));
    assert_eq!(catalog.get_sources_from_ids(&vec![1]), vec![done.source]);
}

#[test]
fn indexing_a_vp_records_the_files_inside() {
    let mut catalog = Catalog::new();
    let bytes = small_vp();
    let done = index_file(&mut catalog, "/t/small.vp", Some("vp"), &bytes, SourceLocation::Local).unwrap();
    assert_eq!(done.blob, 1);
    assert_eq!(done.source.format, SourceFormat::VP);
    assert_eq!(done.source.size, bytes.len() as i64);
    assert_eq!(
        done.entries,
        vec![
            ArchiveEntry { file_id: 2, file_path: "/data/x.tbl".to_string(), archive_id: 1, archive_type: Archive::VP },
            ArchiveEntry { file_id: 3, file_path: "/data/y.tbl".to_string(), archive_id: 1, archive_type: Archive::VP },
        ]
    );
    assert_eq!(catalog.get_id_from_hash(&hash_bytes(&bytes)), Some(1));
    assert_eq!(catalog.get_id_from_hash(&hash_bytes(b"hello")), Some(2));
    assert_eq!(catalog.get_id_from_hash(&hash_bytes(b"abc")), Some(3));
    assert_eq!(catalog.get_parents_from_ids(&vec![2, 3]), done.entries);
}

#[test]
fn indexing_a_file_again_changes_nothing() {
    let mut catalog = Catalog::new();
    let bytes = small_vp();
    let first = index_file(&mut catalog, "/t/small.vp", Some("vp"), &bytes, SourceLocation::Local).unwrap();
    let sources = catalog.get_sources_from_ids(&vec![1, 2, 3]);
    let parents = catalog.get_parents_from_ids(&vec![1, 2, 3]);
    let again = index_file(&mut catalog, "/t/small.vp", Some("vp"), &bytes, SourceLocation::Local).unwrap();
    assert_eq!(again.blob, first.blob);
    assert_eq!(again.entries, first.entries);
    assert_eq!(catalog.get_sources_from_ids(&vec![1, 2, 3, 4, 5]), sources);
    assert_eq!(catalog.get_parents_from_ids(&vec![1, 2, 3, 4, 5]), parents);
    assert_eq!(catalog.get_hash_from_id(4), None);
    let elsewhere = index_file(&mut catalog, "/u/copy.vp", Some("vp"), &bytes, SourceLocation::Local).unwrap();
    assert_eq!(elsewhere.blob, first.blob);
    assert_eq!(catalog.get_sources_from_ids(&vec![1]).len(), 2);
    assert_eq!(catalog.get_parents_from_ids(&vec![1, 2, 3]), parents);
}

#[test]
fn indexing_what_is_no_vp_as_a_vp_fails_and_records_nothing() {
    let mut catalog = Catalog::new();
    assert!(matches!(
        index_file(&mut catalog, "/t/bad.vp", Some("vp"), b"not a container", SourceLocation::Temp),
        Err(IndexError::MalformedContainer)
    ));
    let mut beyond = small_vp();
    beyond[24 + 44 + 4] = 0xff;
    assert!(matches!(
        index_file(&mut catalog, "/t/beyond.vp", Some("vp"), &beyond, SourceLocation::Temp),
        Err(IndexError::MalformedContainer)
    ));
    assert!(matches!(
        index_file(&mut catalog, "/t/x.vpc", Some("vpc"), b"anything", SourceLocation::Temp),
        Err(IndexError::Unsupported)
    ));
    assert_eq!(catalog.get_hash_from_id(1), None);
    assert!(catalog.get_sources_from_ids(&vec![1]).is_empty());
}

#[test]
fn index_errors_map_to_acquisition_errors() {
    assert!(matches!(
        acquisition_error(IndexError::MalformedContainer),
        FileAcquisitionError::MalformedContainer
    ));
    match acquisition_error(IndexError::IOError("disk".to_string())) {
        FileAcquisitionError::IOFailure(why) => assert_eq!(why, "disk"),
        other => panic!("expected IOFailure, got {:?}", other),
    }
    match acquisition_error(IndexError::SqlxError("busy".to_string())) {
        FileAcquisitionError::CatalogFailure(why) => assert_eq!(why, "busy"),
        other => panic!("expected CatalogFailure, got {:?}", other),
    }
    assert!(matches!(acquisition_error(IndexError::Unsupported), FileAcquisitionError::IOFailure(_)));
}

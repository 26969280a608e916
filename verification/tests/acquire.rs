use sol_gate::catalog::Catalog;
use sol_gate::common::{Source, SourceFormat};
use sol_gate::db::SourceLocation;
use sol_gate::files::acquire::{after_round, FetchOutcome};
use sol_gate::files::hash::hash_bytes;
use sol_gate::files::indexer::{index_file, payload_slice, vp_payload_digests, IndexError};
use sol_gate::files::plan::{plan_install, Plan};
use sol_gate::files::FileAcquisitionError;
use sol_gate::vp::parser::{write_header, write_indices};
use sol_gate::vp::types::{VPError, VPFile, VPHeader, VPIndex};

fn remote(url: &str, h_id: i64, size: i64) -> Source {
    Source {
        location: SourceLocation::FSN,
        path: url.to_string(),
        h_id,
        size,
        format: SourceFormat::Raw,
    }
}

fn entry_record(name: &str, fileoffset: u32, size: u32) -> VPIndex {
    let mut field = [0u8; 32];
    field[..name.len()].copy_from_slice(name.as_bytes());
    VPIndex { fileoffset, size, name: field, timestamp: 0 }
}

fn one_file_vp() -> Vec<u8> {
    let records = vec![entry_record("x.tbl", 16, 6)];
    let mut bytes = write_header(&VPHeader { version: 2, offset: 22, entries: 1 });
    bytes.extend_from_slice(b"hello\n");
    bytes.extend_from_slice(&write_indices(&records));
    bytes
}

#[test]
fn round_without_a_broken_fetch_leaves_out_what_was_fetched() {
    let mut excluded = vec![remote("https://r/old", 1, 1)];
    let fetched = vec![remote("https://r/a", 2, 5), remote("https://r/b", 3, 7)];
    let outcomes = vec![FetchOutcome::Indexed, FetchOutcome::Unreachable];
    assert!(after_round(&mut excluded, fetched, outcomes).is_ok());
    let paths: Vec<&str> = excluded.iter().map(|s| s.path.as_str()).collect();
    assert_eq!(paths, vec!["https://r/old", "https://r/a", "https://r/b"]);
}

#[test]
fn first_broken_fetch_ends_the_acquisition() {
    let mut excluded: Vec<Source> = Vec::new();
    let fetched = vec![remote("https://r/a", 2, 5), remote("https://r/b", 3, 7), remote("https://r/c", 4, 1)];
    let outcomes = vec![
        FetchOutcome::Indexed,
        FetchOutcome::Broken(FileAcquisitionError::IOFailure("disk full".to_string())),
        FetchOutcome::Broken(FileAcquisitionError::MalformedContainer),
    ];
    match after_round(&mut excluded, fetched, outcomes) {
        Err(FileAcquisitionError::IOFailure(why)) => assert_eq!(why, "disk full"),
        other => panic!("unexpected answer {:?}", other),
    }
    assert!(excluded.is_empty());
}

#[test]
fn acquisition_that_gets_nothing_ends_exhausted() {
    let mut catalog = Catalog::new();
    let wanted = hash_bytes(b"hello\n");
    let ids = catalog.upsert_digests(&vec![wanted.clone()]).unwrap();
    catalog
        .insert_sources(&vec![remote("https://r/a", ids[0], 6), remote("https://r/b", ids[0], 6)])
        .unwrap();
    let mut excluded: Vec<Source> = Vec::new();
    let mut rounds = 0;
    let end = loop {
        match plan_install(&catalog, &vec![wanted.clone()], &excluded) {
            Ok(Plan::Fetch { missing, sources }) => {
                assert_eq!(missing, vec![ids[0]]);
                assert!(!sources.is_empty());
                let outcomes = sources.iter().map(|_| FetchOutcome::Indexed).collect();
                after_round(&mut excluded, sources, outcomes).unwrap();
                rounds += 1;
            }
            other => break other,
        }
    };
    assert_eq!(rounds, 2);
    match end {
        Err(FileAcquisitionError::NetworkFailure(why)) => assert_eq!(why, "Exhausted"),
        other => panic!("unexpected end {:?}", other),
    }
}

#[test]
fn raw_file_with_a_known_digest_gains_one_temp_source() {
    let mut catalog = Catalog::new();
    let wanted = hash_bytes(b"hello\n");
    let ids = catalog.upsert_digests(&vec![wanted.clone()]).unwrap();
    catalog.insert_sources(&vec![remote("https://r/a", ids[0], 6)]).unwrap();
    let done = index_file(&mut catalog, "/t/p", None, b"hello\n", SourceLocation::Temp).unwrap();
    assert_eq!(done.blob, ids[0]);
    assert_eq!(catalog.row_counts(), (1, 2, 0));
    let sources = catalog.get_sources_from_hash(&wanted);
    assert_eq!(
        sources[1],
        Source {
            location: SourceLocation::Temp,
            path: "/t/p".to_string(),
            h_id: ids[0],
            size: 6,
            format: SourceFormat::Raw,
        }
    );
}

#[test]
fn file_with_another_digest_gets_a_blob_of_its_own() {
    let mut catalog = Catalog::new();
    let wanted = hash_bytes(b"hello\n");
    let ids = catalog.upsert_digests(&vec![wanted.clone()]).unwrap();
    catalog.insert_sources(&vec![remote("https://r/a", ids[0], 6)]).unwrap();
    let done = index_file(&mut catalog, "/t/p", None, b"jello\n", SourceLocation::Temp).unwrap();
    assert_ne!(done.blob, ids[0]);
    assert_eq!(catalog.get_id_from_hash(&hash_bytes(b"jello\n")), Some(done.blob));
    assert_eq!(done.source.h_id, done.blob);
    assert_eq!(catalog.get_sources_from_hash(&wanted).len(), 1);
    assert!(matches!(
        plan_install(&catalog, &vec![wanted], &vec![]),
        Ok(Plan::Fetch { .. })
    ));
}

#[test]
fn compressed_vp_is_not_indexed() {
    let mut catalog = Catalog::new();
    assert!(matches!(
        index_file(&mut catalog, "/t/a.vpc", Some("vpc"), b"x", SourceLocation::Temp),
        Err(IndexError::Unsupported)
    ));
    assert_eq!(catalog.row_counts(), (0, 0, 0));
}

#[test]
fn payloads_of_a_vp_are_hashed_in_index_order() {
    let bytes = one_file_vp();
    let (files, digests) = vp_payload_digests(&bytes).unwrap();
    assert_eq!(files.len(), 1);
    assert_eq!(files[0].name, "/x.tbl");
    assert_eq!(digests, vec![hash_bytes(b"hello\n")]);
    assert_eq!(vp_payload_digests(b"no container"), Err(VPError::MalformedContainer));
}

#[test]
fn payload_must_lie_inside_the_container() {
    let bytes = one_file_vp();
    let inside = VPFile { fileoffset: 16, size: 6, name: "x".to_string(), timestamp: 0 };
    assert_eq!(payload_slice(&bytes, &inside), Some(&b"hello\n"[..]));
    let whole = VPFile { fileoffset: 0, size: bytes.len() as u64, name: "x".to_string(), timestamp: 0 };
    assert_eq!(payload_slice(&bytes, &whole), Some(&bytes[..]));
    let beyond = VPFile { fileoffset: 16, size: bytes.len() as u64, name: "x".to_string(), timestamp: 0 };
    assert_eq!(payload_slice(&bytes, &beyond), None);
    let far = VPFile { fileoffset: u64::MAX, size: 1, name: "x".to_string(), timestamp: 0 };
    assert_eq!(payload_slice(&bytes, &far), None);
}

#[test]
fn vp_whose_index_points_beyond_its_end_is_malformed() {
    let records = vec![entry_record("x.tbl", 16, 600)];
    let mut bytes = write_header(&VPHeader { version: 2, offset: 22, entries: 1 });
    bytes.extend_from_slice(b"hello\n");
    bytes.extend_from_slice(&write_indices(&records));
    assert_eq!(vp_payload_digests(&bytes), Err(VPError::MalformedContainer));
    let mut catalog = Catalog::new();
    assert!(matches!(
        index_file(&mut catalog, "/t/a.vp", Some("vp"), &bytes, SourceLocation::Temp),
        Err(IndexError::MalformedContainer)
    ));
}

use sol_gate::common::{Archive, ArchiveEntry, SHA256Checksum, Source, SourceFormat};
use sol_gate::db::SourceLocation;
use sol_gate::files::readers::{
    archive_path, best_local, direct_path, route_vp_request, route_with, ReadProgress, ReaderError,
    VPRoute, BUFSIZE, IDLE_TIMEOUT_MS, INBOX_BOUND,
};
use sol_gate::files::DataPath;

fn source(location: SourceLocation, path: &str, h_id: i64) -> Source {
    Source { location, path: path.to_string(), h_id, size: 1, format: SourceFormat::Raw }
}

fn entry(child: i64, archive: i64, path: &str, kind: Archive) -> ArchiveEntry {
    ArchiveEntry { file_id: child, file_path: path.to_string(), archive_id: archive, archive_type: kind }
}

#[test]
fn pool_constants() {
    assert_eq!(BUFSIZE, 4096);
    assert_eq!(INBOX_BOUND, 8);
    assert_eq!(IDLE_TIMEOUT_MS, 500);
}

#[test]
fn best_local_source_prefers_temp_and_then_the_first() {
    let sources = vec![
        source(SourceLocation::FSN, "https://r/x", 1),
        source(SourceLocation::Unmanaged, "/u/x", 1),
        source(SourceLocation::Local, "/l/x", 1),
        source(SourceLocation::Temp, "/t/x", 1),
        source(SourceLocation::Temp, "/t/y", 1),
    ];
    assert_eq!(best_local(&sources), Some(3));
    assert_eq!(best_local(&sources[..3].to_vec()), Some(2));
    assert_eq!(best_local(&sources[..2].to_vec()), Some(1));
    assert_eq!(best_local(&sources[..1].to_vec()), None);
    assert_eq!(best_local(&vec![]), None);
}

#[test]
fn blob_with_a_local_source_is_read_from_its_file() {
    let sources = vec![
        source(SourceLocation::SolGate, "https://g/x", 1),
        source(SourceLocation::Local, "/l/x", 1),
        source(SourceLocation::Temp, "/t/x", 1),
    ];
    match direct_path(&sources) {
        Some(DataPath::Raw(file)) => assert_eq!(file, "/t/x"),
        other => panic!("expected a file, got {:?}", other),
    }
    assert!(direct_path(&sources[..1].to_vec()).is_none());
}

#[test]
fn blob_inside_a_local_vp_is_read_from_the_vp() {
    let sum = SHA256Checksum(vec![9; 32]);
    let parents = vec![
        entry(1, 20, "/data/x.tbl", Archive::VP),
        entry(1, 30, "/data/x.tbl", Archive::SevenZip),
        entry(1, 21, "/other/x.tbl", Archive::VP),
    ];
    let sources = vec![
        source(SourceLocation::Temp, "/t/z.7z", 30),
        source(SourceLocation::Local, "/l/v.vp", 20),
        source(SourceLocation::FSN, "https://r/w.vp", 21),
        source(SourceLocation::Temp, "/t/w.vp", 21),
    ];
    match archive_path(&sum, &parents, &sources).unwrap() {
        DataPath::VPEntry(file, inner) => {
            assert_eq!(file, "/t/w.vp");
            assert_eq!(inner, "/other/x.tbl");
        }
        other => panic!("expected an entry of a VP, got {:?}", other),
    }
    match archive_path(&sum, &parents, &sources[..2].to_vec()).unwrap() {
        DataPath::VPEntry(file, inner) => {
            assert_eq!(file, "/l/v.vp");
            assert_eq!(inner, "/data/x.tbl");
        }
        other => panic!("expected an entry of a VP, got {:?}", other),
    }
}

#[test]
fn blob_without_a_local_vp_cannot_be_located() {
    let sum = SHA256Checksum(vec![9; 32]);
    let parents = vec![entry(1, 30, "x", Archive::SevenZip), entry(1, 21, "x", Archive::VP)];
    let sources = vec![
        source(SourceLocation::Temp, "/t/z.7z", 30),
        source(SourceLocation::FSN, "https://r/w.vp", 21),
    ];
    match archive_path(&sum, &parents, &sources) {
        Err(ReaderError::LocateError(c)) => assert_eq!(c, sum),
        other => panic!("expected LocateError, got {:?}", other),
    }
    assert!(matches!(archive_path(&sum, &vec![], &vec![]), Err(ReaderError::LocateError(_))));
}

#[test]
fn request_that_queues_goes_to_an_open_reader() {
    assert_eq!(route_with(true, 3, 2), VPRoute::Existing(2));
    assert_eq!(route_with(false, 3, 2), VPRoute::Fresh);
    assert_eq!(route_with(true, 0, 0), VPRoute::Fresh);
    for _ in 0..50 {
        match route_vp_request(true, 4) {
            VPRoute::Existing(i) => assert!(i < 4),
            VPRoute::Fresh => panic!("expected an open reader"),
        }
    }
    assert_eq!(route_vp_request(true, 1), VPRoute::Existing(0));
    assert_eq!(route_vp_request(false, 4), VPRoute::Fresh);
    assert_eq!(route_vp_request(true, 0), VPRoute::Fresh);
}

#[test]
fn readers_are_picked_at_random() {
    let mut seen = [false; 4];
    for _ in 0..400 {
        if let VPRoute::Existing(i) = route_vp_request(true, 4) {
            seen[i] = true;
        }
    }
    assert!(seen.iter().filter(|s| **s).count() >= 2);
}

#[test]
fn payload_is_streamed_in_chunks() {
    let mut progress = ReadProgress::new(10_000);
    assert_eq!(progress.want(), 4096);
    assert!(progress.advance(4096));
    assert_eq!(progress.want(), 4096);
    assert!(progress.advance(1000));
    assert_eq!(progress.want(), 4096);
    assert!(progress.advance(4096));
    assert_eq!(progress.want(), 808);
    assert!(!progress.advance(808));
    assert_eq!(progress.want(), 0);
}

#[test]
fn empty_payload_and_short_file_end_the_stream() {
    let progress = ReadProgress::new(0);
    assert_eq!(progress.want(), 0);
    let mut short = ReadProgress::new(100);
    assert_eq!(short.want(), 100);
    assert!(!short.advance(0));
    assert_eq!(short.want(), 100);
}

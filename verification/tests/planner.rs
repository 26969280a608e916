use sol_gate::common::{Archive, ArchiveEntry, SHA256Checksum, Source, SourceFormat};
use sol_gate::db::SourceLocation;
use sol_gate::files::dag::HashDAG;
use sol_gate::files::{
    absorb_parents, calculate_fetches, calculate_missing, candidate_blobs, fetch_result,
    install_path, install_root, next_step, required_digests, resolve_blob_ids, start_dag, DagEdge,
    FetchResult, FileAcquisitionError, ManifEntry, ManifIdent, PlanStep, VPContents, VPEntry,
};

fn digest(tag: u8) -> SHA256Checksum {
    SHA256Checksum(vec![tag; 32])
}

fn source(location: SourceLocation, path: &str, h_id: i64, size: i64) -> Source {
    Source { location, path: path.to_string(), h_id, size, format: SourceFormat::Raw }
}

fn entry(child: i64, archive: i64, path: &str, kind: Archive) -> ArchiveEntry {
    ArchiveEntry { file_id: child, file_path: path.to_string(), archive_id: archive, archive_type: kind }
}

fn sorted(mut list: Vec<i64>) -> Vec<i64> {
    list.sort();
    list
}

/// 7-zip 30 holds VP 20, which holds blobs 10 and 11; blob 12 stands alone.
fn nested() -> HashDAG {
    let mut dag = start_dag(&vec![10, 11, 12]);
    let frontier = absorb_parents(
        &mut dag,
        &vec![entry(10, 20, "a.tbl", Archive::VP), entry(11, 20, "b.tbl", Archive::VP)],
    );
    assert_eq!(frontier, vec![20]);
    let frontier = absorb_parents(&mut dag, &vec![entry(20, 30, "v.vp", Archive::SevenZip)]);
    assert_eq!(frontier, vec![30]);
    let frontier = absorb_parents(&mut dag, &vec![]);
    assert!(frontier.is_empty());
    dag
}

#[test]
fn manifest_is_flattened_to_its_digests() {
    let manifest = vec![
        ManifEntry { path: "a.txt".to_string(), ident: ManifIdent::Raw(digest(1)) },
        ManifEntry { path: "b.vp".to_string(), ident: ManifIdent::VP(VPContents::Hash(digest(2))) },
        ManifEntry {
            path: "c.vp".to_string(),
            ident: ManifIdent::VP(VPContents::Contents(vec![
                VPEntry { path: "x".to_string(), hash: digest(3) },
                VPEntry { path: "y".to_string(), hash: digest(4) },
            ])),
        },
        ManifEntry {
            path: "d.vp".to_string(),
            ident: ManifIdent::VP(VPContents::Contents(vec![])),
        },
        ManifEntry { path: "e.txt".to_string(), ident: ManifIdent::Raw(digest(1)) },
    ];
    assert_eq!(
        required_digests(&manifest),
        vec![digest(1), digest(2), digest(3), digest(4), digest(1)]
    );
    assert!(required_digests(&vec![]).is_empty());
}

#[test]
fn digests_resolve_to_the_ids_of_the_catalog() {
    let known = vec![(digest(2), 20i64), (digest(1), 10), (digest(2), 99)];
    assert_eq!(
        resolve_blob_ids(&vec![digest(1), digest(2), digest(1)], &known).unwrap(),
        vec![10, 20, 10]
    );
    assert_eq!(resolve_blob_ids(&vec![], &known).unwrap(), Vec::<i64>::new());
}

#[test]
fn digest_that_the_catalog_lacks_is_unknown_content() {
    let known = vec![(digest(1), 10i64)];
    match resolve_blob_ids(&vec![digest(1), digest(7), digest(8)], &known) {
        Err(FileAcquisitionError::UnknownContent(d)) => assert_eq!(d, digest(7)),
        other => panic!("expected UnknownContent, got {:?}", other),
    }
}

#[test]
fn graph_starts_with_the_required_blobs() {
    let dag = start_dag(&vec![3, 1, 3]);
    let ids: Vec<i64> = dag.get_nodes().iter().map(|n| *n.data()).collect();
    assert_eq!(ids, vec![3, 1]);
    assert_eq!(dag.get_edge_data(&3, &1), None);
}

#[test]
fn parents_are_absorbed_with_their_labels() {
    let dag = nested();
    assert_eq!(dag.get_edge_data(&10, &20), Some(&DagEdge::VP("a.tbl".to_string())));
    assert_eq!(dag.get_edge_data(&20, &30), Some(&DagEdge::SZ("v.vp".to_string())));
    assert_eq!(sorted(dag.ancestors(&11).unwrap()), vec![20, 30]);
    assert_eq!(dag.ancestors(&12).unwrap(), Vec::<i64>::new());
}

#[test]
fn frontier_holds_new_archives_once() {
    let mut dag = start_dag(&vec![1, 2]);
    let frontier = absorb_parents(
        &mut dag,
        &vec![
            entry(1, 5, "a", Archive::VP),
            entry(2, 5, "b", Archive::VP),
            entry(1, 2, "c", Archive::VP),
            entry(2, 6, "d", Archive::SevenZip),
        ],
    );
    assert_eq!(frontier, vec![5, 6]);
}

#[test]
fn local_source_makes_a_blob_and_what_it_holds_available() {
    let dag = nested();
    let hids = vec![10, 11, 12];
    assert_eq!(calculate_missing(&hids, &dag, &vec![]), vec![10, 11, 12]);
    let remote_only = vec![source(SourceLocation::FSN, "https://r/z", 30, 5)];
    assert_eq!(calculate_missing(&hids, &dag, &remote_only), vec![10, 11, 12]);
    let vp_local = vec![source(SourceLocation::Temp, "/t/v.vp", 20, 5)];
    assert_eq!(calculate_missing(&hids, &dag, &vp_local), vec![12]);
    let zip_local = vec![source(SourceLocation::Unmanaged, "/t/z.7z", 30, 5)];
    assert_eq!(calculate_missing(&hids, &dag, &zip_local), vec![12]);
    let own = vec![
        source(SourceLocation::Local, "/t/b", 11, 5),
        source(SourceLocation::Local, "/t/c", 12, 5),
    ];
    assert_eq!(calculate_missing(&hids, &dag, &own), vec![10]);
    assert_eq!(calculate_missing(&vec![12, 10, 12, 10], &dag, &vec![]), vec![12, 10]);
    assert_eq!(next_step(&calculate_missing(&hids, &dag, &own)), PlanStep::Fetch);
}

#[test]
fn missing_blobs_and_their_archives_are_candidates() {
    let dag = nested();
    assert_eq!(sorted(candidate_blobs(&vec![10], &dag)), vec![10, 20, 30]);
    assert_eq!(sorted(candidate_blobs(&vec![10, 11], &dag)), vec![10, 11, 20, 30]);
    assert_eq!(candidate_blobs(&vec![12], &dag), vec![12]);
    assert_eq!(candidate_blobs(&vec![], &dag), Vec::<i64>::new());
}

#[test]
fn fetches_are_the_cheapest_sources_that_deliver_everything() {
    let dag = nested();
    let sources = vec![
        source(SourceLocation::FSN, "https://r/a", 10, 40),
        source(SourceLocation::FSN, "https://r/b", 11, 40),
        source(SourceLocation::FSN, "https://r/v", 20, 70),
        source(SourceLocation::SolGate, "https://g/z", 30, 100),
        source(SourceLocation::Local, "/t/never", 30, 1),
    ];
    let chosen = calculate_fetches(&vec![10, 11], &dag, &sources, &vec![]).unwrap();
    assert_eq!(chosen, vec![sources[2].clone()]);
    let chosen = calculate_fetches(&vec![10], &dag, &sources, &vec![]).unwrap();
    assert_eq!(chosen, vec![sources[0].clone()]);
    let chosen = calculate_fetches(&vec![], &dag, &sources, &vec![]).unwrap();
    assert!(chosen.is_empty());
}

#[test]
fn excluded_source_is_passed_over() {
    let dag = nested();
    let sources = vec![
        source(SourceLocation::FSN, "https://r/v", 20, 70),
        source(SourceLocation::SolGate, "https://g/z", 30, 100),
    ];
    let excluded = vec![source(SourceLocation::FSN, "https://r/v", 20, 0)];
    let chosen = calculate_fetches(&vec![10, 11], &dag, &sources, &excluded).unwrap();
    assert_eq!(chosen, vec![sources[1].clone()]);
}

#[test]
fn fetches_fail_as_exhausted_when_only_excluded_sources_deliver() {
    let dag = nested();
    let sources = vec![source(SourceLocation::FSN, "https://r/v", 20, 70)];
    match calculate_fetches(&vec![10], &dag, &sources, &sources) {
        Err(FileAcquisitionError::NetworkFailure(why)) => assert_eq!(why, "Exhausted"),
        other => panic!("expected NetworkFailure, got {:?}", other),
    }
}

#[test]
fn fetches_fail_as_unsatisfiable_when_nothing_delivers() {
    let dag = nested();
    let sources = vec![source(SourceLocation::FSN, "https://r/v", 20, 70)];
    assert!(matches!(
        calculate_fetches(&vec![12], &dag, &sources, &vec![]),
        Err(FileAcquisitionError::UnsatisfiableCoverage)
    ));
    assert!(matches!(
        calculate_fetches(&vec![12], &dag, &sources, &sources),
        Err(FileAcquisitionError::UnsatisfiableCoverage)
    ));
    let local_only = vec![source(SourceLocation::Temp, "/t/c", 12, 1)];
    assert!(matches!(
        calculate_fetches(&vec![12], &dag, &local_only, &vec![]),
        Err(FileAcquisitionError::UnsatisfiableCoverage)
    ));
}

#[test]
fn files_are_written_only_when_nothing_is_missing() {
    assert_eq!(next_step(&vec![]), PlanStep::Materialize);
    assert_eq!(next_step(&vec![4]), PlanStep::Fetch);
}

#[test]
fn release_is_installed_below_its_parent() {
    let parent = "FS2".to_string();
    assert_eq!(
        install_root("/games", Some(&parent), "MVPS", "4.6.1"),
        "/games/FS2/MVPS/MVPS-4.6.1"
    );
    assert_eq!(install_root("/games/", None, "blueplanet", "1.0"), "/games/blueplanet/blueplanet-1.0");
    assert_eq!(install_root("", None, "tc", "2"), "tc/tc-2");
    assert_eq!(
        install_path("/games/FS2/MVPS/MVPS-4.6.1", "data/tables/x.tbl"),
        "/games/FS2/MVPS/MVPS-4.6.1/data/tables/x.tbl"
    );
}

#[test]
fn seven_zip_is_extracted_beside_what_was_fetched() {
    let mut fetched = source(SourceLocation::FSN, "https://r/z", 30, 5);
    match fetch_result(&fetched, "/tmp/aa/bb/rest") {
        FetchResult::File(path) => assert_eq!(path, "/tmp/aa/bb/rest"),
        other => panic!("expected a file, got {:?}", other),
    }
    fetched.format = SourceFormat::VP;
    assert!(matches!(fetch_result(&fetched, "/t/x"), FetchResult::File(_)));
    fetched.format = SourceFormat::SevenZip;
    match fetch_result(&fetched, "/tmp/aa/bb/rest") {
        FetchResult::Directory(path) => assert_eq!(path, "/tmp/aa/bb/rest/extract"),
        other => panic!("expected a directory, got {:?}", other),
    }
}

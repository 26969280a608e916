use sol_gate::catalog::Catalog;
use sol_gate::common::{Archive, ArchiveEntry, SHA256Checksum, Source, SourceFormat};
use sol_gate::db::SourceLocation;
use sol_gate::files::hash::hash_bytes;
use sol_gate::files::indexer::index_file;
use sol_gate::files::plan::{generate_dag, plan_install, required_blobs, Plan};
use sol_gate::files::materialize::{materialize, LocalFile};
use sol_gate::files::util::get_cs_path;
use sol_gate::files::{
    fetch_result, install_root, required_digests, DagEdge, FetchResult,
    FileAcquisitionError, ManifEntry, ManifIdent,
};
use sol_gate::paths::join_path;
use sol_gate::vp::parser::{write_header, write_indices};
use sol_gate::vp::types::{VPHeader, VPIndex};
use std::collections::HashMap;

const TEMP: &str = "/tmp/sg";

/// Everything outside the library: what servers answer, what archives
/// hold, and the files on disk.
struct World {
    catalog: Catalog,
    servers: HashMap<String, Vec<u8>>,
    archives: HashMap<Vec<u8>, Vec<(String, Vec<u8>)>>,
    disk: HashMap<String, Vec<u8>>,
    gets: Vec<String>,
}

fn world() -> World {
    World {
        catalog: Catalog::new(),
        servers: HashMap::new(),
        archives: HashMap::new(),
        disk: HashMap::new(),
        gets: Vec::new(),
    }
}

fn record(name: &str, fileoffset: u32, size: u32) -> VPIndex {
    let mut field = [0u8; 32];
    field[..name.len()].copy_from_slice(name.as_bytes());
    VPIndex { fileoffset, size, name: field, timestamp: 7 }
}

/// A VP that holds the given files in the directory `data`.
fn vp_of(files: &[(&str, &[u8])]) -> Vec<u8> {
    let mut payload = Vec::new();
    let mut records = vec![record("data", 0, 0)];
    for (name, bytes) in files {
        records.push(record(name, (16 + payload.len()) as u32, bytes.len() as u32));
        payload.extend_from_slice(bytes);
    }
    records.push(record("..", 0, 0));
    let head = VPHeader {
        version: 2,
        offset: (16 + payload.len()) as u32,
        entries: records.len() as u32,
    };
    let mut bytes = write_header(&head);
    bytes.extend_from_slice(&payload);
    bytes.extend_from_slice(&write_indices(&records));
    bytes
}

fn remote(url: &str, h_id: i64, size: i64, format: SourceFormat) -> Source {
    Source { location: SourceLocation::FSN, path: url.to_string(), h_id, size, format }
}

fn edge(child: i64, archive: i64, path: &str, kind: Archive) -> ArchiveEntry {
    ArchiveEntry { file_id: child, file_path: path.to_string(), archive_id: archive, archive_type: kind }
}

fn extension(path: &str) -> Option<&str> {
    let name = path.rsplit('/').next().unwrap();
    match name.rfind('.') {
        Some(dot) if dot > 0 => Some(&name[dot + 1..]),
        _ => None,
    }
}

fn manifest(entries: &[(&str, &SHA256Checksum)]) -> Vec<ManifEntry> {
    entries
        .iter()
        .map(|(path, sum)| ManifEntry { path: path.to_string(), ident: ManifIdent::Raw((*sum).clone()) })
        .collect()
}

/// Fetches one source, saves it below the temp directory, and indexes what
/// it left. Says whether the blob that was asked for arrived.
fn fetch(world: &mut World, source: &Source) -> bool {
    world.gets.push(source.path.clone());
    let bytes = match world.servers.get(&source.path) {
        Some(bytes) => bytes.clone(),
        None => return false,
    };
    let asked = world.catalog.get_hash_from_id(source.h_id).unwrap().clone();
    let save_loc = get_cs_path(TEMP, &asked);
    world.disk.insert(save_loc.clone(), bytes.clone());
    let arrived = hash_bytes(&bytes) == asked;
    match fetch_result(source, &save_loc) {
        FetchResult::File(path) => {
            index_file(&mut world.catalog, &path, extension(&path), &bytes, SourceLocation::Temp)
                .unwrap();
        }
        FetchResult::Directory(dir) => {
            let inside = world.archives.get(&bytes).cloned().unwrap_or_default();
            for (name, content) in inside {
                let path = join_path(&dir, &name);
                world.disk.insert(path.clone(), content.clone());
                index_file(&mut world.catalog, &path, extension(&path), &content, SourceLocation::Temp)
                    .unwrap();
            }
        }
    }
    arrived
}

/// The files on disk, as the library takes them.
fn files_on_disk(world: &World) -> Vec<LocalFile> {
    let mut paths: Vec<&String> = world.disk.keys().collect();
    paths.sort();
    paths
        .into_iter()
        .map(|path| LocalFile { path: path.clone(), bytes: world.disk[path].clone() })
        .collect()
}

/// Installs a manifest: plans, fetches and indexes until nothing is
/// missing, then writes the files.
fn install(world: &mut World, entries: &Vec<ManifEntry>) -> Result<Vec<String>, FileAcquisitionError> {
    let digests = required_digests(entries);
    let mut excluded: Vec<Source> = Vec::new();
    loop {
        match plan_install(&world.catalog, &digests, &excluded)? {
            Plan::Materialize => break,
            Plan::Fetch { missing: _, sources } => {
                for source in sources {
                    if !fetch(world, &source) {
                        excluded.push(source);
                    }
                }
            }
        }
    }
    let root = install_root("/games", None, "mod", "1.0");
    let files = materialize(&world.catalog, &files_on_disk(world), entries, &root)?;
    let mut written = Vec::new();
    for file in files {
        world.disk.insert(file.path.clone(), file.bytes);
        written.push(file.path);
    }
    Ok(written)
}

#[test]
fn single_remote_fetch() {
    let mut w = world();
    let d = hash_bytes(b"hello\n");
    let url = "https://r/58/91/b5b522d5df086d0ff0b110fbd9d21bb4fc7163af34d08286a2e846f6be03";
    let ids = w.catalog.upsert_digests(&vec![d.clone()]).unwrap();
    w.catalog.insert_sources(&vec![remote(url, ids[0], 6, SourceFormat::Raw)]).unwrap();
    w.servers.insert(url.to_string(), b"hello\n".to_vec());

    let written = install(&mut w, &manifest(&[("foo.txt", &d)])).unwrap();

    assert_eq!(w.gets, vec![url.to_string()]);
    let temp_file = "/tmp/sg/58/91/b5b522d5df086d0ff0b110fbd9d21bb4fc7163af34d08286a2e846f6be03";
    assert_eq!(w.disk[temp_file], b"hello\n");
    let sources = w.catalog.get_sources_from_hash(&d);
    assert_eq!(sources.len(), 2);
    assert_eq!(sources[1].location, SourceLocation::Temp);
    assert_eq!(sources[1].path, temp_file);
    assert_eq!(sources[1].size, 6);
    assert_eq!(written, vec!["/games/mod/mod-1.0/foo.txt"]);
    assert_eq!(w.disk["/games/mod/mod-1.0/foo.txt"], b"hello\n");
}

#[test]
fn vp_containment_reuse() {
    let mut w = world();
    let container = vp_of(&[("x.tbl", b"table x"), ("y.tbl", b"table y")]);
    w.disk.insert("/tmp/sg/v.vp".to_string(), container.clone());
    let done =
        index_file(&mut w.catalog, "/tmp/sg/v.vp", Some("vp"), &container, SourceLocation::Temp)
            .unwrap();
    assert_eq!(done.entries[0].file_path, "/data/x.tbl");
    let d = hash_bytes(b"table x");

    let written = install(&mut w, &manifest(&[("data/x.tbl", &d)])).unwrap();

    assert!(w.gets.is_empty());
    assert_eq!(w.disk[&written[0]], b"table x");
    assert!(w.catalog.get_sources_from_hash(&d).is_empty());
}

#[test]
fn minimum_cover() {
    let mut w = world();
    let contents: [(&str, &[u8]); 3] = [("a", b"blob a"), ("b", b"blob b"), ("c", b"blob c")];
    let s1 = vp_of(&[contents[0], contents[1]]);
    let s2 = vp_of(&[contents[1], contents[2]]);
    let s3 = vp_of(&[contents[0], contents[2]]);
    let s4 = vp_of(&[contents[2]]);
    let blobs: Vec<SHA256Checksum> = contents.iter().map(|(_, bytes)| hash_bytes(bytes)).collect();
    let mut all = blobs.clone();
    for s in [&s1, &s2, &s3, &s4] {
        all.push(hash_bytes(s));
    }
    let ids = w.catalog.upsert_digests(&all).unwrap();
    let (a, b, c) = (ids[0], ids[1], ids[2]);
    let archives = [(ids[3], 50, s1), (ids[4], 100, s2), (ids[5], 25, s3), (ids[6], 10, s4)];
    let mut sources = Vec::new();
    for (n, (id, size, bytes)) in archives.iter().enumerate() {
        let url = format!("https://r/S{}", n + 1);
        sources.push(remote(&url, *id, *size, SourceFormat::Raw));
        w.servers.insert(url, bytes.clone());
    }
    w.catalog.insert_sources(&sources).unwrap();
    w.catalog
        .insert_archive_entries(&vec![
            edge(a, ids[3], "/data/a", Archive::VP),
            edge(b, ids[3], "/data/b", Archive::VP),
            edge(b, ids[4], "/data/b", Archive::VP),
            edge(c, ids[4], "/data/c", Archive::VP),
            edge(a, ids[5], "/data/a", Archive::VP),
            edge(c, ids[5], "/data/c", Archive::VP),
            edge(c, ids[6], "/data/c", Archive::VP),
        ])
        .unwrap();

    match plan_install(&w.catalog, &blobs, &vec![]).unwrap() {
        Plan::Fetch { missing, sources } => {
            assert_eq!(missing, vec![a, b, c]);
            let urls: Vec<&str> = sources.iter().map(|s| s.path.as_str()).collect();
            assert_eq!(urls, vec!["https://r/S1", "https://r/S4"]);
            assert_eq!(sources.iter().map(|s| s.size).sum::<i64>(), 60);
        }
        Plan::Materialize => panic!("expected fetches"),
    }

    let entries = manifest(&[("a", &blobs[0]), ("b", &blobs[1]), ("c", &blobs[2])]);
    let written = install(&mut w, &entries).unwrap();
    assert!(w.gets.len() <= 2);
    assert_eq!(w.gets, vec!["https://r/S1", "https://r/S4"]);
    assert_eq!(w.disk[&written[0]], b"blob a");
    assert_eq!(w.disk[&written[1]], b"blob b");
    assert_eq!(w.disk[&written[2]], b"blob c");
}

#[test]
fn seven_zip_carrying_a_vp() {
    let mut w = world();
    let v = vp_of(&[("x.tbl", b"table x")]);
    let z = b"7z archive bytes".to_vec();
    let d = hash_bytes(b"table x");
    let ids = w.catalog.upsert_digests(&vec![d.clone(), hash_bytes(&v), hash_bytes(&z)]).unwrap();
    let (d_id, v_id, z_id) = (ids[0], ids[1], ids[2]);
    w.catalog.insert_sources(&vec![remote("https://r/z.7z", z_id, 16, SourceFormat::SevenZip)]).unwrap();
    w.catalog
        .insert_archive_entries(&vec![
            edge(v_id, z_id, "v.vp", Archive::SevenZip),
            edge(d_id, v_id, "/data/x.tbl", Archive::VP),
        ])
        .unwrap();
    w.servers.insert("https://r/z.7z".to_string(), z.clone());
    w.archives.insert(z.clone(), vec![("v.vp".to_string(), v.clone())]);

    let written = install(&mut w, &manifest(&[("data/x.tbl", &d)])).unwrap();

    assert_eq!(w.gets, vec!["https://r/z.7z"]);
    let z_path = get_cs_path(TEMP, &hash_bytes(&z));
    let extracted = format!("{}/extract/v.vp", z_path);
    assert_eq!(w.disk[&extracted], v);
    let v_sources = w.catalog.get_sources_from_hash(&hash_bytes(&v));
    assert_eq!(v_sources.len(), 1);
    assert_eq!(v_sources[0].location, SourceLocation::Temp);
    assert_eq!(v_sources[0].path, extracted);
    assert_eq!(v_sources[0].format, SourceFormat::VP);
    assert!(w.catalog.get_sources_from_hash(&d).is_empty());
    assert_eq!(w.disk[&written[0]], b"table x");
}

#[test]
fn hash_mismatch_recovery() {
    let mut w = world();
    let d = hash_bytes(b"hello\n");
    let ids = w.catalog.upsert_digests(&vec![d.clone()]).unwrap();
    w.catalog
        .insert_sources(&vec![
            remote("https://bad/d", ids[0], 5, SourceFormat::Raw),
            remote("https://good/d", ids[0], 6, SourceFormat::Raw),
        ])
        .unwrap();
    w.servers.insert("https://bad/d".to_string(), b"wrong".to_vec());
    w.servers.insert("https://good/d".to_string(), b"hello\n".to_vec());

    let written = install(&mut w, &manifest(&[("foo.txt", &d)])).unwrap();

    assert_eq!(w.gets, vec!["https://bad/d", "https://good/d"]);
    let observed = w.catalog.get_id_from_hash(&hash_bytes(b"wrong")).unwrap();
    assert_ne!(observed, ids[0]);
    assert_eq!(w.disk[&written[0]], b"hello\n");
}

#[test]
fn hash_mismatch_without_an_alternative_is_exhausted() {
    let mut w = world();
    let d = hash_bytes(b"hello\n");
    let ids = w.catalog.upsert_digests(&vec![d.clone()]).unwrap();
    w.catalog.insert_sources(&vec![remote("https://bad/d", ids[0], 5, SourceFormat::Raw)]).unwrap();
    w.servers.insert("https://bad/d".to_string(), b"wrong".to_vec());

    match install(&mut w, &manifest(&[("foo.txt", &d)])) {
        Err(FileAcquisitionError::NetworkFailure(why)) => assert_eq!(why, "Exhausted"),
        other => panic!("expected NetworkFailure, got {:?}", other),
    }
    assert_eq!(w.gets, vec!["https://bad/d"]);
    assert!(w.catalog.get_id_from_hash(&hash_bytes(b"wrong")).is_some());
    assert!(!w.disk.contains_key("/games/mod/mod-1.0/foo.txt"));
}

#[test]
fn failed_install_leaves_the_install_tree_untouched() {
    let mut w = world();
    let d = hash_bytes(b"hello\n");
    let e = hash_bytes(b"nowhere");
    let ids = w.catalog.upsert_digests(&vec![d.clone(), e.clone()]).unwrap();
    w.catalog.insert_sources(&vec![remote("https://r/d", ids[0], 6, SourceFormat::Raw)]).unwrap();
    w.servers.insert("https://r/d".to_string(), b"hello\n".to_vec());

    let result = install(&mut w, &manifest(&[("foo.txt", &d), ("bar.txt", &e)]));
    assert!(matches!(result, Err(FileAcquisitionError::UnsatisfiableCoverage)));
    assert!(w.gets.is_empty());
    assert!(w.disk.keys().all(|path| !path.starts_with("/games")));

    let unknown = hash_bytes(b"never seen");
    match install(&mut w, &manifest(&[("foo.txt", &d), ("baz.txt", &unknown)])) {
        Err(FileAcquisitionError::UnknownContent(sum)) => assert_eq!(sum, unknown),
        other => panic!("expected UnknownContent, got {:?}", other),
    }
    assert!(w.disk.keys().all(|path| !path.starts_with("/games")));
}

#[test]
fn graph_is_built_from_the_catalog() {
    let mut catalog = Catalog::new();
    let sums: Vec<SHA256Checksum> = (1u8..=5).map(|t| SHA256Checksum(vec![t; 32])).collect();
    let ids = catalog.upsert_digests(&sums).unwrap();
    catalog
        .insert_archive_entries(&vec![
            edge(ids[0], ids[1], "a", Archive::VP),
            edge(ids[1], ids[2], "b", Archive::SevenZip),
            edge(ids[3], ids[2], "c", Archive::SevenZip),
            edge(ids[2], ids[4], "d", Archive::SevenZip),
        ])
        .unwrap();
    let hids = required_blobs(&catalog, &vec![sums[0].clone()]).unwrap();
    assert_eq!(hids, vec![ids[0]]);
    let dag = generate_dag(&catalog, &hids);
    let mut up = dag.ancestors(&ids[0]).unwrap();
    up.sort();
    assert_eq!(up, vec![ids[1], ids[2], ids[4]]);
    assert!(!dag.contains(&ids[3]));
    let nodes: Vec<i64> = dag.get_nodes().iter().map(|n| *n.data()).collect();
    assert_eq!(nodes, vec![ids[0], ids[1], ids[2], ids[4]]);
    assert_eq!(dag.get_edge_data(&ids[0], &ids[1]), Some(&DagEdge::VP("a".to_string())));
    assert_eq!(dag.get_edge_data(&ids[1], &ids[2]), Some(&DagEdge::SZ("b".to_string())));
    assert_eq!(dag.get_edge_data(&ids[2], &ids[4]), Some(&DagEdge::SZ("d".to_string())));
    assert_eq!(dag.get_edge_data(&ids[3], &ids[2]), None);
}

#[test]
fn graph_building_ends_on_a_cycle() {
    let mut catalog = Catalog::new();
    let sums: Vec<SHA256Checksum> = (1u8..=2).map(|t| SHA256Checksum(vec![t; 32])).collect();
    let ids = catalog.upsert_digests(&sums).unwrap();
    catalog
        .insert_archive_entries(&vec![
            edge(ids[0], ids[1], "a", Archive::VP),
            edge(ids[1], ids[0], "b", Archive::VP),
        ])
        .unwrap();
    let dag = generate_dag(&catalog, &vec![ids[0]]);
    assert!(dag.contains(&ids[1]));
    assert!(dag.ancestors(&ids[0]).unwrap().contains(&ids[0]));
}

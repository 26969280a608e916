use sol_gate::catalog::Catalog;
use sol_gate::common::{
    Archive, DependencyRow, File, PackageRow, Release, SHA256Checksum, SourceFormat,
};
use sol_gate::files::plan::release_manifest;
use sol_gate::files::{FileAcquisitionError, ManifIdent};
use sol_gate::fsnebula::commit::{commit_mods, mod_update};
use sol_gate::db::{DepType, Rel, RelType, SourceLocation};
use sol_gate::fsnebula::db::{
    collect_hashes, dependency_places, detail_places, flatten_places, new_mods, package_places,
    package_rows, release_names,
};
use sol_gate::fsnebula::structs::{
    package_folder, package_status, parse_checksum, release_type, ChecksumError, FSNChecksum,
    FSNDependency, FSNMod, FSNModFile, FSNPackage, FSNRelType, FSNZipFile,
};
use sol_gate::fsnebula::{manifest_source, on_answer, FSNPaths, ManifestFrom, RepoAnswer, RepoStep};

fn digest(tag: u8) -> SHA256Checksum {
    SHA256Checksum(vec![tag; 32])
}

fn dependency(id: &str, packages: &[&str]) -> FSNDependency {
    FSNDependency {
        id: id.to_string(),
        version: None,
        packages: packages.iter().map(|p| p.to_string()).collect(),
    }
}

fn package(name: &str) -> FSNPackage {
    FSNPackage {
        name: name.to_string(),
        notes: String::new(),
        status: "required".to_string(),
        dependencies: vec![],
        environment: None,
        folder: None,
        is_vp: false,
        executables: vec![],
        files: vec![],
        filelist: vec![],
    }
}

fn release(id: &str, version: &str) -> FSNMod {
    FSNMod {
        id: id.to_string(),
        title: id.to_uppercase(),
        version: version.to_string(),
        private: false,
        stability: None,
        parent: None,
        description: String::new(),
        logo: None,
        tile: None,
        banner: None,
        screenshots: vec![],
        attachments: vec![],
        release_thread: None,
        videos: vec![],
        notes: String::new(),
        first_release: "2020-01-01".to_string(),
        last_update: "2021-02-03".to_string(),
        cmdline: String::new(),
        mod_flag: vec![],
        mod_type: FSNRelType::Mod,
        packages: vec![],
    }
}

fn archive(name: &str, sum: u8, size: i64, urls: &[&str]) -> FSNZipFile {
    FSNZipFile {
        filename: name.to_string(),
        dest: String::new(),
        checksum: digest(sum),
        filesize: size,
        urls: urls.iter().map(|u| u.to_string()).collect(),
    }
}

fn file(name: &str, archive: &str, orig: &str, sum: u8) -> FSNModFile {
    FSNModFile {
        filename: name.to_string(),
        archive: archive.to_string(),
        orig_name: orig.to_string(),
        checksum: digest(sum),
    }
}

#[test]
fn checksum_is_read_from_hexadecimal() {
    let sum = parse_checksum("sha256", "00ff10Ab").unwrap();
    assert_eq!(sum, SHA256Checksum(vec![0x00, 0xff, 0x10, 0xab]));
    assert_eq!(parse_checksum("sha256", "").unwrap(), SHA256Checksum(vec![]));
    let hello = "5891b5b522d5df086d0ff0b110fbd9d21bb4fc7163af34d08286a2e846f6be03";
    assert_eq!(parse_checksum("sha256", hello).unwrap().0.len(), 32);
    assert_eq!(parse_checksum("sha256", hello).unwrap().0[0], 0x58);
}

#[test]
fn checksum_that_is_not_hexadecimal_is_refused() {
    assert!(matches!(parse_checksum("sha256", "abc"), Err(ChecksumError::BadHex)));
    assert!(matches!(parse_checksum("sha256", "zz"), Err(ChecksumError::BadHex)));
    assert!(matches!(parse_checksum("sha256", "0g"), Err(ChecksumError::BadHex)));
}

#[test]
fn checksum_of_another_kind_is_not_recognised() {
    match parse_checksum("md5", "00") {
        Err(ChecksumError::NotRecognised(kind)) => assert_eq!(kind, "md5"),
        other => panic!("expected NotRecognised, got {:?}", other),
    }
    assert_eq!(FSNChecksum::parse("sha256", "ab").unwrap(), FSNChecksum::SHA256("ab".to_string()));
    assert_eq!(FSNChecksum::parse("sha512", "cd").unwrap(), FSNChecksum::SHA512("cd".to_string()));
    assert!(matches!(FSNChecksum::parse("crc", "cd"), Err(ChecksumError::NotRecognised(_))));
}

#[test]
fn engine_is_recorded_as_a_build() {
    assert_eq!(release_type(FSNRelType::Engine), RelType::Build);
    assert_eq!(release_type(FSNRelType::Mod), RelType::Mod);
    assert_eq!(release_type(FSNRelType::TC), RelType::TC);
}

#[test]
fn package_status_words() {
    assert_eq!(package_status("required"), Some(DepType::Required));
    assert_eq!(package_status("recommended"), Some(DepType::Recommended));
    assert_eq!(package_status("optional"), Some(DepType::Optional));
    assert_eq!(package_status("Required"), None);
    assert_eq!(package_status(""), None);
}

#[test]
fn package_without_folder_installs_at_the_release_root() {
    assert_eq!(package_folder(&None), "");
    assert_eq!(package_folder(&Some(String::new())), "");
    assert_eq!(package_folder(&Some("data".to_string())), "data");
}

#[test]
fn public_repository_addresses() {
    let paths = FSNPaths::new();
    assert_eq!(paths.web, "https://fsnebula.org/");
    assert_eq!(paths.api, "https://api.fsnebula.org/api/1/");
    assert_eq!(
        paths.repos,
        vec![
            "https://cf.fsnebula.org/storage/repo.json",
            "https://fsnebula.org/storage/repo.json",
            "https://porphyrion.feralhosting.com/datacorder/nebula/repo.json",
        ]
    );
}

#[test]
fn answers_decide_where_the_manifest_comes_from() {
    assert_eq!(on_answer(RepoAnswer::Failed), RepoStep::TryNext);
    assert_eq!(on_answer(RepoAnswer::Status(200)), RepoStep::UseBody);
    assert_eq!(on_answer(RepoAnswer::Status(304)), RepoStep::UseCache);
    assert_eq!(on_answer(RepoAnswer::Status(404)), RepoStep::TryNext);
    assert_eq!(on_answer(RepoAnswer::Status(500)), RepoStep::TryNext);
    let answers = vec![RepoAnswer::Failed, RepoAnswer::Status(503), RepoAnswer::Status(200)];
    assert_eq!(manifest_source(&answers), ManifestFrom::Body(2));
    let answers = vec![RepoAnswer::Status(304), RepoAnswer::Status(200)];
    assert_eq!(manifest_source(&answers), ManifestFrom::Cache);
    let answers = vec![RepoAnswer::Failed, RepoAnswer::Status(404)];
    assert_eq!(manifest_source(&answers), ManifestFrom::Cache);
    assert_eq!(manifest_source(&vec![]), ManifestFrom::Cache);
}

#[test]
fn only_releases_that_the_catalog_lacks_are_new() {
    let mods = vec![release("a", "1.0"), release("b", "1.0"), release("a", "2.0")];
    let existing = vec![
        Rel { name: "a".to_string(), version: "1.0".to_string() },
        Rel { name: "b".to_string(), version: "9.9".to_string() },
    ];
    assert_eq!(new_mods(&mods, &existing), vec![1, 2]);
    assert_eq!(new_mods(&mods, &vec![]), vec![0, 1, 2]);
}

#[test]
fn second_import_finds_nothing_new() {
    let mods = vec![release("a", "1.0"), release("b", "1.0"), release("a", "2.0")];
    let mut existing: Vec<Rel> = vec![];
    for place in new_mods(&mods, &existing) {
        existing.push(Rel { name: mods[place].id.clone(), version: mods[place].version.clone() });
    }
    assert_eq!(existing.len(), 3);
    assert_eq!(new_mods(&mods, &existing), Vec::<usize>::new());
}

#[test]
fn release_names_are_collected_once() {
    let mut a = release("a", "1.0");
    a.parent = Some("fs2".to_string());
    a.mod_flag = vec!["a".to_string(), "mvps".to_string()];
    let mut b = release("b", "1.0");
    b.parent = Some("fs2".to_string());
    b.mod_flag = vec!["b".to_string(), "a".to_string()];
    assert_eq!(release_names(&vec![a, b]), vec!["a", "fs2", "mvps", "b"]);
    assert!(release_names(&vec![]).is_empty());
}

#[test]
fn children_are_laid_out_under_the_numbers_of_their_parents() {
    assert_eq!(
        flatten_places(&vec![7, 8, 9], &vec![2, 0, 1]),
        vec![(7, 0, 0), (7, 0, 1), (9, 2, 0)]
    );
    assert_eq!(flatten_places(&vec![7], &vec![1, 5]), vec![(7, 0, 0)]);
    assert_eq!(flatten_places(&vec![7, 8], &vec![1]), vec![(7, 0, 0)]);
    assert!(flatten_places(&vec![], &vec![]).is_empty());
}

#[test]
fn packages_dependencies_and_details_are_laid_out() {
    let mut a = release("a", "1.0");
    let mut core = package("core");
    core.dependencies = vec![dependency("fs2", &["root", "music"]), dependency("mvps", &[])];
    let mut extra = package("extra");
    extra.dependencies = vec![dependency("a", &["core"])];
    a.packages = vec![core, extra];
    let mut b = release("b", "1.0");
    b.packages = vec![package("only")];
    let mods = vec![a, b];
    let packages = package_places(&vec![100, 200], &mods);
    assert_eq!(packages, vec![(100, 0, 0), (100, 0, 1), (200, 1, 0)]);
    let dependencies = dependency_places(&vec![11, 12, 13], &mods, &packages);
    assert_eq!(dependencies, vec![(11, 0, 0), (11, 0, 1), (12, 1, 0)]);
    let details = detail_places(&vec![51, 52, 53], &mods, &packages, &dependencies);
    assert_eq!(details, vec![(51, 0, 0), (51, 0, 1), (53, 2, 0)]);
}

#[test]
fn digests_of_a_manifest_are_collected_once() {
    let mut a = release("a", "1.0");
    let mut core = package("core");
    core.files = vec![archive("core.7z", 9, 100, &["https://r/core.7z"])];
    core.filelist = vec![file("x.tbl", "core.7z", "data/x.tbl", 1), file("y.tbl", "core.7z", "y", 2)];
    let mut extra = package("extra");
    extra.files = vec![archive("extra.7z", 8, 100, &[])];
    extra.filelist = vec![file("x2.tbl", "extra.7z", "x", 1)];
    a.packages = vec![core, extra];
    assert_eq!(collect_hashes(&vec![a]), vec![digest(1), digest(2), digest(9), digest(8)]);
}

#[test]
fn package_becomes_files_sources_and_edges() {
    let mut core = package("core");
    core.files = vec![
        archive("core.7z", 9, 100, &["https://one/core.7z", "https://two/core.7z"]),
        archive("more.7z", 8, 50, &["https://one/more.7z"]),
    ];
    core.filelist = vec![
        file("data/x.tbl", "core.7z", "x.tbl", 1),
        file("data/y.tbl", "more.7z", "sub/y.tbl", 2),
        file("data/z.tbl", "lost.7z", "z.tbl", 3),
    ];
    let known = vec![(digest(1), 11i64), (digest(2), 12), (digest(3), 13), (digest(8), 18), (digest(9), 19)];
    let rows = package_rows(5, &core, &known).unwrap();
    let sources: Vec<(String, i64, i64)> =
        rows.sources.iter().map(|s| (s.path.clone(), s.h_id, s.size)).collect();
    assert_eq!(
        sources,
        vec![
            ("https://one/core.7z".to_string(), 19, 100),
            ("https://two/core.7z".to_string(), 19, 100),
            ("https://one/more.7z".to_string(), 18, 50),
        ]
    );
    assert!(rows.sources.iter().all(|s| s.location == SourceLocation::FSN));
    assert!(rows.sources.iter().all(|s| s.format == SourceFormat::SevenZip));
    let files: Vec<(i64, i64, String)> =
        rows.files.iter().map(|f| (f.p_id, f.h_id, f.filepath.clone())).collect();
    assert_eq!(
        files,
        vec![
            (5, 11, "data/x.tbl".to_string()),
            (5, 12, "data/y.tbl".to_string()),
            (5, 13, "data/z.tbl".to_string()),
        ]
    );
    let entries: Vec<(i64, i64, String)> =
        rows.entries.iter().map(|e| (e.file_id, e.archive_id, e.file_path.clone())).collect();
    assert_eq!(
        entries,
        vec![(11, 19, "x.tbl".to_string()), (12, 18, "sub/y.tbl".to_string())]
    );
    assert!(rows.entries.iter().all(|e| e.archive_type == Archive::SevenZip));
}

#[test]
fn package_with_an_unknown_digest_gives_no_rows() {
    let mut core = package("core");
    core.files = vec![archive("core.7z", 9, 100, &["https://one/core.7z"])];
    core.filelist = vec![file("data/x.tbl", "core.7z", "x.tbl", 1)];
    assert_eq!(package_rows(5, &core, &vec![(digest(1), 11)]).unwrap_err(), digest(9));
    assert_eq!(package_rows(5, &core, &vec![(digest(9), 19)]).unwrap_err(), digest(1));
}

fn small_manifest() -> Vec<FSNMod> {
    let mut a = release("a", "1.0");
    let mut core = package("core");
    core.files = vec![
        archive("core.7z", 9, 100, &["https://one/core.7z", "https://two/core.7z"]),
        archive("more.7z", 8, 50, &["https://one/more.7z"]),
    ];
    core.filelist = vec![
        file("data/x.tbl", "core.7z", "x.tbl", 1),
        file("data/y.tbl", "more.7z", "sub/y.tbl", 2),
        file("data/z.tbl", "lost.7z", "z.tbl", 3),
    ];
    a.packages = vec![core];
    let mut b = release("b", "2.0");
    let mut only = package("only");
    only.files = vec![archive("b.7z", 7, 10, &["https://one/b.7z"])];
    only.filelist = vec![file("x.tbl", "b.7z", "x.tbl", 1)];
    b.packages = vec![only, package("bare")];
    vec![a, b]
}

#[test]
fn manifest_is_recorded_in_the_catalog() {
    let mut catalog = Catalog::new();
    let mods = small_manifest();
    assert_eq!(mod_update(&mut catalog, &mods).unwrap(), 2);
    assert_eq!(
        catalog.get_releases(),
        vec![
            Rel { name: "a".to_string(), version: "1.0".to_string() },
            Rel { name: "b".to_string(), version: "2.0".to_string() },
        ]
    );
    assert_eq!(catalog.row_counts(), (6, 4, 3));
    assert_eq!(catalog.get_id_from_hash(&digest(1)), Some(1));
    assert_eq!(catalog.get_id_from_hash(&digest(9)), Some(4));
    assert_eq!(catalog.get_id_from_hash(&digest(7)), Some(6));
    let core = catalog.get_sources_from_hash(&digest(9));
    assert_eq!(core.len(), 2);
    assert_eq!(core[0].path, "https://one/core.7z");
    assert_eq!(core[0].size, 100);
    assert_eq!(core[0].location, SourceLocation::FSN);
    assert_eq!(core[0].format, SourceFormat::SevenZip);
    let parents = catalog.get_parents_from_ids(&vec![1]);
    let edges: Vec<(i64, String)> = parents.iter().map(|e| (e.archive_id, e.file_path.clone())).collect();
    assert_eq!(edges, vec![(4, "x.tbl".to_string()), (6, "x.tbl".to_string())]);
}

#[test]
fn releases_packages_dependencies_and_files_are_recorded() {
    let mut catalog = Catalog::new();
    let mut mods = small_manifest();
    mods[0].mod_type = FSNRelType::Engine;
    mods[0].private = true;
    mods[0].packages[0].folder = Some("core".to_string());
    mods[0].packages[0].dependencies = vec![dependency("FSO", &["Windows"])];
    mods[1].packages[1].dependencies = vec![
        FSNDependency { id: "a".to_string(), version: Some(">=1.0".to_string()), packages: vec![] },
        dependency("MVPS", &[]),
    ];
    assert_eq!(mod_update(&mut catalog, &mods).unwrap(), 2);
    assert_eq!(catalog.release_counts(), (2, 3, 3, 4));
    let (releases, packages, dependencies, files) = catalog.release_tables();
    assert_eq!(
        releases[0],
        Release {
            rel_id: 1,
            name: "a".to_string(),
            version: "1.0".to_string(),
            rel_type: RelType::Build,
            date: mods[0].last_update.clone(),
            private: true,
        }
    );
    assert_eq!(releases[1].rel_id, 2);
    assert_eq!(releases[1].rel_type, RelType::Mod);
    assert_eq!(
        packages[0],
        PackageRow {
            p_id: 1,
            rel_id: 1,
            name: "core".to_string(),
            notes: String::new(),
            status: "required".to_string(),
            environment: None,
            folder: Some("core".to_string()),
            is_vp: false,
        }
    );
    let placed: Vec<(i64, i64, &str)> =
        packages.iter().map(|p| (p.p_id, p.rel_id, p.name.as_str())).collect();
    assert_eq!(placed, vec![(1, 1, "core"), (2, 2, "only"), (3, 2, "bare")]);
    assert_eq!(
        dependencies,
        &vec![
            DependencyRow { id: 1, p_id: 1, modname: "FSO".to_string(), version: None },
            DependencyRow {
                id: 2,
                p_id: 3,
                modname: "a".to_string(),
                version: Some(">=1.0".to_string()),
            },
            DependencyRow { id: 3, p_id: 3, modname: "MVPS".to_string(), version: None },
        ]
    );
    assert_eq!(
        files,
        &vec![
            File { p_id: 1, h_id: 1, filepath: "data/x.tbl".to_string() },
            File { p_id: 1, h_id: 2, filepath: "data/y.tbl".to_string() },
            File { p_id: 1, h_id: 3, filepath: "data/z.tbl".to_string() },
            File { p_id: 2, h_id: 1, filepath: "x.tbl".to_string() },
        ]
    );
}

#[test]
fn idempotent_repo_ingest() {
    let mut catalog = Catalog::new();
    let mods = small_manifest();
    assert_eq!(mod_update(&mut catalog, &mods).unwrap(), 2);
    let counts = catalog.row_counts();
    let rows = catalog.release_counts();
    let known = catalog.get_releases();
    assert_eq!(mod_update(&mut catalog, &mods).unwrap(), 0);
    assert_eq!(catalog.row_counts(), counts);
    assert_eq!(catalog.release_counts(), rows);
    assert_eq!(catalog.get_releases(), known);
}

#[test]
fn ingest_records_only_what_is_new() {
    let mut catalog = Catalog::new();
    let first = catalog.insert_release(
        "a".to_string(),
        "1.0".to_string(),
        RelType::Mod,
        "2020-01-01".to_string(),
        false,
    );
    assert_eq!(first, 1);
    let mods = small_manifest();
    assert_eq!(mod_update(&mut catalog, &mods).unwrap(), 1);
    let releases = catalog.get_releases();
    assert_eq!(releases.len(), 2);
    assert_eq!(releases[1].name, "b");
    assert_eq!(catalog.row_counts(), (2, 1, 1));
    assert_eq!(catalog.release_counts(), (2, 2, 0, 1));
    assert_eq!(catalog.release_tables().1[0].rel_id, 2);
}

#[test]
fn ingest_with_a_negative_size_records_nothing() {
    let mut catalog = Catalog::new();
    let mut mods = small_manifest();
    mods[1].packages[0].files[0].filesize = -1;
    assert!(matches!(
        mod_update(&mut catalog, &mods),
        Err(FileAcquisitionError::CatalogFailure(_))
    ));
    assert_eq!(catalog.row_counts(), (0, 0, 0));
    assert_eq!(catalog.release_counts(), (0, 0, 0, 0));
    assert!(catalog.get_releases().is_empty());
    assert!(commit_mods(&mut catalog, &mods, &vec![0]).is_ok());
    assert_eq!(catalog.get_releases().len(), 1);
    assert_eq!(catalog.row_counts(), (5, 3, 2));
    assert_eq!(catalog.release_counts(), (1, 1, 0, 3));
}

#[test]
fn manifest_of_a_release_lists_its_files_below_their_folders() {
    let mut catalog = Catalog::new();
    let mut mods = small_manifest();
    mods[0].packages[0].folder = Some("core".to_string());
    assert_eq!(mod_update(&mut catalog, &mods).unwrap(), 2);
    let a = release_manifest(&catalog, "a", "1.0").unwrap();
    let listed: Vec<(String, SHA256Checksum)> = a
        .iter()
        .map(|e| match &e.ident {
            ManifIdent::Raw(sum) => (e.path.clone(), sum.clone()),
            other => panic!("unexpected entry {:?}", other),
        })
        .collect();
    assert_eq!(
        listed,
        vec![
            ("core/data/x.tbl".to_string(), digest(1)),
            ("core/data/y.tbl".to_string(), digest(2)),
            ("core/data/z.tbl".to_string(), digest(3)),
        ]
    );
    let b = release_manifest(&catalog, "b", "2.0").unwrap();
    assert_eq!(b.len(), 1);
    assert_eq!(b[0].path, "x.tbl");
    assert!(release_manifest(&catalog, "a", "2.0").is_none());
    assert!(release_manifest(&catalog, "c", "1.0").is_none());
}

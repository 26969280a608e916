use sol_gate::common::{Archive, SHA256Checksum, SourceFormat, Stability};
use sol_gate::config::{Config, FSNPaths, Gate};
use sol_gate::db::{chunk_bounds, DepType, LinkType, RelType, SourceLocation, BIND_LIMIT};
use sol_gate::files::hash::{check_digest, hash_bytes, hash_chunks, verify_content};
use sol_gate::files::util::{get_cs_path, get_urls, split_hash, UrlError};
use sol_gate::files::FileAcquisitionError;
use sol_gate::paths::join_path;

fn hello_digest() -> Vec<u8> {
    vec![
        0x58, 0x91, 0xb5, 0xb5, 0x22, 0xd5, 0xdf, 0x08, 0x6d, 0x0f, 0xf0, 0xb1, 0x10, 0xfb, 0xd9,
        0xd2, 0x1b, 0xb4, 0xfc, 0x71, 0x63, 0xaf, 0x34, 0xd0, 0x82, 0x86, 0xa2, 0xe8, 0x46, 0xf6,
        0xbe, 0x03,
    ]
}

fn gate(url: &str) -> Gate {
    Gate { name: "g".to_string(), url: url.to_string(), user: None, pass: None }
}

#[test]
fn local_locations_are_local() {
    assert!(SourceLocation::Temp.is_local());
    assert!(SourceLocation::Local.is_local());
    assert!(SourceLocation::Unmanaged.is_local());
    assert!(!SourceLocation::SolGate.is_local());
    assert!(!SourceLocation::FSN.is_local());
    assert_eq!(SourceLocation::Temp.preference(), 0);
    assert_eq!(SourceLocation::FSN.preference(), 4);
}

#[test]
fn paths_are_joined_by_one_slash() {
    assert_eq!(join_path("/a", "b"), "/a/b");
    assert_eq!(join_path("/a/", "b"), "/a/b");
    assert_eq!(join_path("", "b"), "b");
    assert_eq!(join_path("/", "b"), "/b");
}

#[test]
fn digest_is_split_into_two_directories_and_a_name() {
    let sum = SHA256Checksum(hello_digest());
    assert_eq!(
        split_hash(&sum),
        "58/91/b5b522d5df086d0ff0b110fbd9d21bb4fc7163af34d08286a2e846f6be03"
    );
    let mut low = vec![0u8; 32];
    low[0] = 0x0a;
    low[1] = 0x00;
    low[31] = 0xff;
    assert_eq!(
        split_hash(&SHA256Checksum(low)),
        "0a/00/0000000000000000000000000000000000000000000000000000000000ff"
    );
    assert_eq!(split_hash(&SHA256Checksum(vec![0xab, 0xcd])), "ab/cd/");
}

#[test]
fn fetched_blob_lies_below_the_temp_directory() {
    let sum = SHA256Checksum(hello_digest());
    assert_eq!(
        get_cs_path("/var/tmp", &sum),
        "/var/tmp/58/91/b5b522d5df086d0ff0b110fbd9d21bb4fc7163af34d08286a2e846f6be03"
    );
}

#[test]
fn local_sources_have_no_urls() {
    let config = Config::new("/app");
    let sum = SHA256Checksum(hello_digest());
    for location in [SourceLocation::Local, SourceLocation::Temp, SourceLocation::Unmanaged] {
        match get_urls(&config, &location, &sum) {
            Err(UrlError::LocationError(msg)) => assert_eq!(msg, "Local sources don't need URLs!"),
            other => panic!("expected LocationError, got {:?}", other),
        }
    }
}

#[test]
fn urls_are_the_repositories_followed_by_the_blob_path() {
    let mut config = Config::new("/app");
    config.fsnebula.repos = vec!["https://one/".to_string(), "https://two/x/".to_string()];
    config.gates = vec![gate("https://gate/")];
    let sum = SHA256Checksum(hello_digest());
    let tail = "58/91/b5b522d5df086d0ff0b110fbd9d21bb4fc7163af34d08286a2e846f6be03";
    assert_eq!(
        get_urls(&config, &SourceLocation::FSN, &sum).unwrap(),
        vec![format!("https://one/{}", tail), format!("https://two/x/{}", tail)]
    );
    assert_eq!(
        get_urls(&config, &SourceLocation::SolGate, &sum).unwrap(),
        vec![format!("https://gate/{}", tail)]
    );
}

#[test]
fn missing_repositories_are_a_source_error() {
    let mut config = Config::new("/app");
    let sum = SHA256Checksum(hello_digest());
    match get_urls(&config, &SourceLocation::SolGate, &sum) {
        Err(UrlError::SourceError(msg)) => assert_eq!(msg, "No sol-gate repositories specified."),
        other => panic!("expected SourceError, got {:?}", other),
    }
    config.fsnebula.repos.clear();
    match get_urls(&config, &SourceLocation::FSN, &sum) {
        Err(UrlError::SourceError(msg)) => assert_eq!(msg, "No FSNebula repositories specified."),
        other => panic!("expected SourceError, got {:?}", other),
    }
}

#[test]
fn fresh_configuration_names_the_public_repository() {
    let paths = FSNPaths::new("/home/u/.config/sol-gate");
    assert_eq!(paths.web, "https://fsnebula.org/");
    assert_eq!(paths.api, "https://api.fsnebula.org/api/1/");
    assert_eq!(
        paths.repos,
        vec![
            "https://cf.fsnebula.org/storage/repo.json",
            "https://fsnebula.org/storage/repo.json",
            "https://discovery.aigaion.feralhosting.com/nebula/repo.json",
        ]
    );
    assert_eq!(paths.cache, "/home/u/.config/sol-gate/fsnebula");
    let config = Config::new("/app");
    assert!(config.gates.is_empty());
    assert!(config.joystick.is_empty());
    assert_eq!(config.local_settings.install_dir, "");
    assert!(!config.local_settings.hdd_mode);
}

#[test]
fn sha256_of_hello() {
    assert_eq!(hash_bytes(b"hello\n"), SHA256Checksum(hello_digest()));
    assert_ne!(hash_bytes(b"hello"), SHA256Checksum(hello_digest()));
    assert_eq!(hash_bytes(b"").0.len(), 32);
}

#[test]
fn chunks_hash_like_their_bytes_joined() {
    let chunks = vec![b"hel".to_vec(), Vec::new(), b"lo".to_vec(), b"\n".to_vec()];
    assert_eq!(hash_chunks(&chunks), SHA256Checksum(hello_digest()));
    assert_eq!(hash_chunks(&vec![]), hash_bytes(b""));
}

#[test]
fn content_is_checked_against_its_digest() {
    let expected = SHA256Checksum(hello_digest());
    assert!(verify_content(&expected, b"hello\n").is_ok());
    match verify_content(&expected, b"other") {
        Err(FileAcquisitionError::ContentHashMismatch(observed)) => {
            assert_eq!(observed, hash_bytes(b"other"))
        }
        other => panic!("expected ContentHashMismatch, got {:?}", other),
    }
    assert!(check_digest(&expected, SHA256Checksum(hello_digest())).is_ok());
    assert!(check_digest(&expected, SHA256Checksum(vec![0; 32])).is_err());
}

#[test]
fn batch_is_cut_at_the_bind_limit() {
    assert_eq!(BIND_LIMIT, 32766);
    assert_eq!(chunk_bounds(0, 5), vec![]);
    assert_eq!(chunk_bounds(10, 5), vec![(0, 10)]);
    assert_eq!(chunk_bounds(6553, 5), vec![(0, 6553)]);
    assert_eq!(chunk_bounds(6554, 5), vec![(0, 6553), (6553, 6554)]);
    assert_eq!(chunk_bounds(40000, 2), vec![(0, 16383), (16383, 32766), (32766, 40000)]);
    assert_eq!(chunk_bounds(3, 32766), vec![(0, 1), (1, 2), (2, 3)]);
    assert_eq!(chunk_bounds(32767, 1), vec![(0, 32766), (32766, 32767)]);
}

#[test]
fn catalog_words_read_back() {
    for x in [SourceLocation::Temp, SourceLocation::Local, SourceLocation::Unmanaged, SourceLocation::SolGate, SourceLocation::FSN] {
        assert_eq!(SourceLocation::from_text(x.to_text()), Some(x));
    }
    for x in [SourceFormat::Raw, SourceFormat::SevenZip, SourceFormat::VP] {
        assert_eq!(SourceFormat::from_text(x.to_text()), Some(x));
    }
    for x in [Archive::VP, Archive::SevenZip] {
        assert_eq!(Archive::from_text(x.to_text()), Some(x));
    }
    for x in [RelType::Build, RelType::Mod, RelType::TC, RelType::Tool] {
        assert_eq!(RelType::from_text(x.to_text()), Some(x));
    }
    for x in [LinkType::Screenshot, LinkType::Attachment, LinkType::ReleaseThread, LinkType::Video] {
        assert_eq!(LinkType::from_text(x.to_text()), Some(x));
    }
    for x in [DepType::Required, DepType::Recommended, DepType::Optional] {
        assert_eq!(DepType::from_text(x.to_text()), Some(x));
    }
    for x in [Stability::Stable, Stability::RC, Stability::Nightly, Stability::Experimental] {
        assert_eq!(Stability::from_text(x.to_text()), Some(x));
    }
    assert_eq!(SourceLocation::Temp.to_text(), "temp");
    assert_eq!(SourceLocation::FSN.to_text(), "fsn");
    assert_eq!(SourceFormat::SevenZip.to_text(), "sevenzip");
    assert_eq!(Archive::VP.to_text(), "vp");
    assert_eq!(SourceLocation::from_text("Temp"), None);
    assert_eq!(RelType::from_text(""), None);
}

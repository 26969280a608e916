use serde_json::Value;
use sol_gate::common::{SHA256Checksum, Stability};
use sol_gate::fsnebula::json::{Json, Member};
use sol_gate::fsnebula::manifest::{
    release_from_json, release_to_json, repo_from_json, repo_to_json,
};
use sol_gate::fsnebula::structs::{
    FSNDependency, FSNExecutable, FSNMod, FSNModFile, FSNPackage, FSNRelType, FSNZipFile, Repo,
};

fn to_json(value: Value) -> Json {
    match value {
        Value::Null => Json::Null,
        Value::Bool(b) => Json::Bool(b),
        Value::Number(n) => match n.as_i64() {
            Some(i) => Json::Int(i),
            None => Json::Decimal(n.to_string()),
        },
        Value::String(s) => Json::Text(s),
        Value::Array(items) => Json::List(items.into_iter().map(to_json).collect()),
        Value::Object(members) => Json::Object(
            members.into_iter().map(|(key, value)| Member { key, value: to_json(value) }).collect(),
        ),
    }
}

fn to_value(json: Json) -> Value {
    match json {
        Json::Null => Value::Null,
        Json::Bool(b) => Value::Bool(b),
        Json::Int(i) => Value::from(i),
        Json::Decimal(d) => Value::Number(d.parse().unwrap()),
        Json::Text(s) => Value::String(s),
        Json::List(items) => Value::Array(items.into_iter().map(to_value).collect()),
        Json::Object(members) => {
            Value::Object(members.into_iter().map(|m| (m.key, to_value(m.value))).collect())
        }
    }
}

fn parse(text: &str) -> Json {
    to_json(serde_json::from_str(text).unwrap())
}

fn strings(words: &[&str]) -> Vec<String> {
    words.iter().map(|w| w.to_string()).collect()
}

fn sum(byte: u8) -> SHA256Checksum {
    SHA256Checksum(vec![byte; 32])
}

fn hex_of(byte: u8) -> String {
    format!("{:02x}", byte).repeat(32)
}

fn sample_package() -> FSNPackage {
    FSNPackage {
        name: "Core".to_string(),
        notes: "".to_string(),
        status: "required".to_string(),
        dependencies: vec![
            FSNDependency {
                id: "FSO".to_string(),
                version: Some(">=21.0.0".to_string()),
                packages: vec![],
            },
            FSNDependency { id: "MVPS".to_string(), version: None, packages: strings(&["Assets"]) },
        ],
        environment: None,
        folder: Some("core".to_string()),
        is_vp: true,
        executables: vec![
            FSNExecutable { file: "fs2_open".to_string(), label: None },
            FSNExecutable { file: "fred2".to_string(), label: Some("FRED".to_string()) },
        ],
        files: vec![FSNZipFile {
            filename: "core.7z".to_string(),
            dest: "".to_string(),
            checksum: sum(0xab),
            filesize: 123_456_789_012,
            urls: strings(&["https://a/core.7z", "https://b/core.7z"]),
        }],
        filelist: vec![FSNModFile {
            filename: "data/tables/ships.tbl".to_string(),
            archive: "core.7z".to_string(),
            orig_name: "ships.tbl".to_string(),
            checksum: sum(0x01),
        }],
    }
}

fn sample_release() -> FSNMod {
    FSNMod {
        id: "blue".to_string(),
        title: "Blue Planet".to_string(),
        version: "1.2.3".to_string(),
        private: false,
        stability: Some(Stability::RC),
        parent: Some("FS2".to_string()),
        description: "A \"campaign\"\nin two parts".to_string(),
        logo: None,
        tile: Some("tile.png".to_string()),
        banner: None,
        screenshots: strings(&["one.png", "two.png"]),
        attachments: vec![],
        release_thread: None,
        videos: strings(&["https://v/1"]),
        notes: "".to_string(),
        first_release: "2012-08-25".to_string(),
        last_update: "2020-01-31".to_string(),
        cmdline: "-3dshockwave".to_string(),
        mod_flag: strings(&["blue", "MVPS"]),
        mod_type: FSNRelType::Mod,
        packages: vec![sample_package()],
    }
}

fn engine() -> FSNMod {
    FSNMod {
        id: "FSO".to_string(),
        title: "FreeSpace Open".to_string(),
        version: "21.0.0".to_string(),
        private: true,
        stability: None,
        parent: None,
        description: "".to_string(),
        logo: None,
        tile: None,
        banner: None,
        screenshots: vec![],
        attachments: vec![],
        release_thread: None,
        videos: vec![],
        notes: "".to_string(),
        first_release: "2021-01-01".to_string(),
        last_update: "2021-01-01".to_string(),
        cmdline: "".to_string(),
        mod_flag: vec![],
        mod_type: FSNRelType::Engine,
        packages: vec![],
    }
}

fn member(key: &str, value: Json) -> Member {
    Member { key: key.to_string(), value }
}

fn text(t: &str) -> Json {
    Json::Text(t.to_string())
}

#[test]
fn manifest_written_as_json_reads_back() {
    let repo = Repo { mods: vec![sample_release(), engine()] };
    let json = repo_to_json(&repo);
    assert_eq!(repo_from_json(&json), Some(repo));
    assert_eq!(repo_from_json(&repo_to_json(&Repo { mods: vec![] })), Some(Repo { mods: vec![] }));
}

#[test]
fn manifest_survives_its_text() {
    let repo = Repo { mods: vec![sample_release(), engine()] };
    let written = to_value(repo_to_json(&repo)).to_string();
    assert_eq!(repo_from_json(&parse(&written)), Some(repo));
}

#[test]
fn dependency_is_written_member_by_member() {
    let release = FSNMod {
        packages: vec![FSNPackage {
            dependencies: vec![FSNDependency {
                id: "FSO".to_string(),
                version: None,
                packages: strings(&["Windows"]),
            }],
            executables: vec![],
            files: vec![],
            filelist: vec![],
            ..sample_package()
        }],
        ..engine()
    };
    let json = release_to_json(&release);
    let packages = json.get("packages").unwrap().as_list().unwrap();
    assert_eq!(
        packages[0].get("dependencies"),
        Some(&Json::List(vec![Json::Object(vec![
            member("id", text("FSO")),
            member("version", Json::Null),
            member("packages", Json::List(vec![text("Windows")])),
        ])]))
    );
    assert_eq!(json.get("type"), Some(&text("engine")));
    assert_eq!(json.get("private"), Some(&Json::Bool(true)));
    assert_eq!(json.get("stability"), Some(&Json::Null));
}

#[test]
fn checksum_is_written_as_algorithm_and_hex() {
    let json = release_to_json(&sample_release());
    let package = &json.get("packages").unwrap().as_list().unwrap()[0];
    let archive = &package.get("files").unwrap().as_list().unwrap()[0];
    assert_eq!(
        archive.get("checksum"),
        Some(&Json::List(vec![text("sha256"), text(&hex_of(0xab))]))
    );
    assert_eq!(archive.get("filesize"), Some(&Json::Int(123_456_789_012)));
}

fn release_text(extra: &str, checksum: &str) -> String {
    format!(
        r#"{{
            "packages": [{{
                "filelist": [{{"checksum": {checksum}, "orig_name": "a.tbl",
                               "archive": "core.7z", "filename": "data/a.tbl"}}],
                "files": [{{"urls": ["https://a/core.7z"], "filesize": 10, "dest": "",
                            "checksum": ["sha256", "{zip}"], "filename": "core.7z"}}],
                "executables": [], "is_vp": false, "folder": null,
                "dependencies": [{{"id": "FSO", "packages": []}}],
                "status": "optional", "notes": "", "name": "Core", "check_notes": ""
            }}],
            "type": "tc", "mod_flag": ["x"], "cmdline": "", "last_update": "2020-01-02",
            "first_release": "2020-01-01", "notes": "", "videos": [], "attachments": [],
            "screenshots": [], "description": "", "private": false, "version": "1.0.0",
            "title": "X", "id": "x", "rating": 4.5 {extra}
        }}"#,
        checksum = checksum,
        zip = hex_of(0x10),
        extra = extra,
    )
}

fn good_checksum() -> String {
    format!(r#"["sha256", "{}"]"#, "AB".repeat(32))
}

#[test]
fn release_is_read_whatever_the_order_of_its_members() {
    let release = release_from_json(&parse(&release_text("", &good_checksum()))).unwrap();
    assert_eq!(release.id, "x");
    assert_eq!(release.mod_type, FSNRelType::TC);
    assert_eq!(release.stability, None);
    assert_eq!(release.parent, None);
    assert_eq!(release.logo, None);
    assert_eq!(release.mod_flag, strings(&["x"]));
    let package = &release.packages[0];
    assert_eq!(package.folder, None);
    assert_eq!(package.environment, None);
    assert_eq!(package.dependencies[0].version, None);
    assert_eq!(package.files[0].checksum, sum(0x10));
    assert_eq!(package.files[0].filesize, 10);
    assert_eq!(package.filelist[0].checksum, sum(0xab));
    assert_eq!(package.filelist[0].orig_name, "a.tbl");

    let again = release_from_json(&release_to_json(&release)).unwrap();
    assert_eq!(again, release);
}

#[test]
fn optional_members_are_read_where_they_are_given() {
    let extra = r#", "stability": "nightly", "parent": "FS2", "logo": "l.png",
                   "release_thread": "https://t""#;
    let release = release_from_json(&parse(&release_text(extra, &good_checksum()))).unwrap();
    assert_eq!(release.stability, Some(Stability::Nightly));
    assert_eq!(release.parent, Some("FS2".to_string()));
    assert_eq!(release.logo, Some("l.png".to_string()));
    assert_eq!(release.release_thread, Some("https://t".to_string()));
}

#[test]
fn last_of_two_members_of_a_name_counts() {
    let mut json = release_to_json(&engine());
    if let Json::Object(members) = &mut json {
        members.push(member("title", text("Renamed")));
    }
    assert_eq!(release_from_json(&json).unwrap().title, "Renamed");
}

#[test]
fn checksum_that_is_no_sha256_in_hex_is_refused() {
    let read = |checksum: &str| release_from_json(&parse(&release_text("", checksum)));
    assert!(read(&good_checksum()).is_some());
    assert!(read(&format!(r#"["sha512", "{}"]"#, "ab".repeat(32))).is_none());
    assert!(read(r#"["sha256", "xyz"]"#).is_none());
    assert!(read(r#"["sha256", "abc"]"#).is_none());
    assert!(read(r#"["sha256"]"#).is_none());
    assert!(read(&format!(r#"["sha256", "{}", "more"]"#, "ab".repeat(32))).is_none());
    assert!(read(&format!(r#""{}""#, "ab".repeat(32))).is_none());
}

#[test]
fn member_that_is_missing_or_of_another_kind_is_refused() {
    let good = release_to_json(&sample_release());
    assert!(release_from_json(&good).is_some());
    let without = |key: &str| match release_to_json(&sample_release()) {
        Json::Object(members) => {
            Json::Object(members.into_iter().filter(|m| m.key != key).collect())
        }
        other => other,
    };
    let with = |key: &str, value: Json| match release_to_json(&sample_release()) {
        Json::Object(mut members) => {
            members.push(member(key, value));
            Json::Object(members)
        }
        other => other,
    };
    for key in ["id", "title", "version", "private", "description", "screenshots", "type", "packages"] {
        assert!(release_from_json(&without(key)).is_none(), "{}", key);
    }
    for key in ["stability", "parent", "logo", "tile", "banner", "release_thread"] {
        assert!(release_from_json(&without(key)).is_some(), "{}", key);
    }
    assert!(release_from_json(&with("private", text("no"))).is_none());
    assert!(release_from_json(&with("title", Json::Null)).is_none());
    assert!(release_from_json(&with("parent", Json::Int(3))).is_none());
    assert!(release_from_json(&with("stability", text("shaky"))).is_none());
    assert!(release_from_json(&with("type", text("Engine"))).is_none());
    assert!(release_from_json(&with("mod_flag", Json::List(vec![Json::Int(1)]))).is_none());
    assert!(release_from_json(&with("packages", Json::List(vec![Json::Null]))).is_none());
    assert!(release_from_json(&Json::List(vec![])).is_none());
}

#[test]
fn size_that_is_no_whole_number_is_refused() {
    let written = release_text("", &good_checksum()).replace(r#""filesize": 10"#, r#""filesize": 10.5"#);
    assert!(release_from_json(&parse(&written)).is_none());
}

#[test]
fn manifest_is_an_object_with_its_releases() {
    let text = format!(r#"{{"mods": [{}]}}"#, release_text("", &good_checksum()));
    let repo = repo_from_json(&parse(&text)).unwrap();
    assert_eq!(repo.mods.len(), 1);
    assert_eq!(repo.mods[0].title, "X");
    assert!(repo_from_json(&parse("{}")).is_none());
    assert!(repo_from_json(&parse("[]")).is_none());
    assert!(repo_from_json(&parse(r#"{"mods": {}}"#)).is_none());
}

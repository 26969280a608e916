//! The repository manifest: mods, their packages, and the files and
//! archives that packages are made of.

use vstd::prelude::*;
use vstd::string::StringSliceAdditionalSpecFns;
use vstd::utf8::{encode_utf8, is_ascii_chars_encode_utf8};
use crate::common::{SHA256Checksum, Stability};
use crate::db::{DepType, RelType};
use crate::fsnebula::db::texts;
use crate::paths::same_text;
use crate::hexcode::{
    ascii_bytes, hex_bytes, hex_decode, hex_encode, hex_text, is_hex, lemma_digit_round_trip,
    lemma_hex_round_trip,
};

verus! {

/// A repository manifest.
#[derive(Debug, PartialEq, Eq)]
pub struct Repo {
    pub mods: Vec<FSNMod>,
}

/// Kind of a mod, as the manifest names it.
#[derive(Debug, Clone, Copy, PartialEq, Eq, Structural)]
pub enum FSNRelType {
    Engine,
    Mod,
    TC,
}

/// A release of the manifest. Dates are ISO calendar dates.
#[derive(Debug, Clone, PartialEq, Eq)]
pub struct FSNMod {
    pub id: String,
    pub title: String,
    pub version: String,
    pub private: bool,
    pub stability: Option<Stability>,
    pub parent: Option<String>,
    pub description: String,
    pub logo: Option<String>,
    pub tile: Option<String>,
    pub banner: Option<String>,
    pub screenshots: Vec<String>,
    pub attachments: Vec<String>,
    pub release_thread: Option<String>,
    pub videos: Vec<String>,
    pub notes: String,
    pub first_release: String,
    pub last_update: String,
    pub cmdline: String,
    pub mod_flag: Vec<String>,
    pub mod_type: FSNRelType,
    pub packages: Vec<FSNPackage>,
}

/// A package of a release.
#[derive(Debug, Clone, PartialEq, Eq)]
pub struct FSNPackage {
    pub name: String,
    pub notes: String,
    pub status: String,
    pub dependencies: Vec<FSNDependency>,
    pub environment: Option<String>,
    pub folder: Option<String>,
    pub is_vp: bool,
    pub executables: Vec<FSNExecutable>,
    pub files: Vec<FSNZipFile>,
    pub filelist: Vec<FSNModFile>,
}

/// A package's dependency on packages of another release.
#[derive(Debug, Clone, PartialEq, Eq)]
pub struct FSNDependency {
    pub id: String,
    pub version: Option<String>,
    pub packages: Vec<String>,
}

/// An executable of an engine build.
#[derive(Debug, Clone, PartialEq, Eq)]
pub struct FSNExecutable {
    pub file: String,
    pub label: Option<String>,
}

/// An archive that a package is delivered in.
#[derive(Debug, Clone, PartialEq, Eq)]
pub struct FSNZipFile {
    pub filename: String,
    pub dest: String,
    pub checksum: SHA256Checksum,
    pub filesize: i64,
    pub urls: Vec<String>,
}

/// A file of a package, and the archive that delivers it.
#[derive(Debug, Clone, PartialEq, Eq)]
pub struct FSNModFile {
    pub filename: String,
    pub archive: String,
    pub orig_name: String,
    pub checksum: SHA256Checksum,
}

/// A checksum as the manifest writes it: the algorithm and the digest in
/// hexadecimal.
#[derive(Debug, Clone, PartialEq, Eq, Hash)]
pub enum FSNChecksum {
    SHA256(String),
    SHA512(String),
}

/// Why a checksum of the manifest could not be read.
#[derive(Debug)]
pub enum ChecksumError {
    /// The algorithm is not one that the manifest may name.
    NotRecognised(String),
    /// The digest is not hexadecimal.
    BadHex,
}

/// Reads a checksum of the manifest: the pair of an algorithm and a digest
/// in hexadecimal.
///
/// Fails with `NotRecognised` for any algorithm but `sha256`, and with
/// `BadHex` where the digest is not made of pairs of hexadecimal digits.
pub fn parse_checksum(kind: &str, digest: &str) -> (res: Result<SHA256Checksum, ChecksumError>)
    ensures
        res is Ok <==> kind@ == "sha256"@ && is_hex(digest.spec_bytes()),
        res matches Ok(sum) ==> sum@ == hex_bytes(digest.spec_bytes()),
        res matches Err(e) ==> if kind@ == "sha256"@ {
            e is BadHex
        } else {
            e matches ChecksumError::NotRecognised(k) && k@ == kind@
        },
{
    let wanted = "sha256".to_owned();
    let given = kind.to_owned();
    if given != wanted {
        return Err(ChecksumError::NotRecognised(given));
    }
    match hex_decode(digest.as_bytes()) {
        Some(bytes) => Ok(SHA256Checksum(bytes)),
        None => Err(ChecksumError::BadHex),
    }
}

/// The digest in hexadecimal, as the manifest writes it.
pub fn checksum_hex(sum: &SHA256Checksum) -> (text: String)
    ensures
        text@ == hex_text(sum@),
{
    hex_encode(sum.0.as_slice())
}

/// A digest that is written in hexadecimal reads back as the same digest.
pub proof fn lemma_hex_text_reads_back(digest: Seq<u8>)
    ensures
        is_hex(encode_utf8(hex_text(digest))),
        hex_bytes(encode_utf8(hex_text(digest))) == digest,
{
    let text = hex_text(digest);
    assert forall|i: int| 0 <= i < text.len() implies '\0' <= #[trigger] text[i] <= '\u{7f}' by {
        let b = digest[i / 2] as int;
        if i % 2 == 0 {
            lemma_digit_round_trip(b / 16);
        } else {
            lemma_digit_round_trip(b % 16);
        }
    }
    is_ascii_chars_encode_utf8(text);
    assert(encode_utf8(text) =~= ascii_bytes(text));
    lemma_hex_round_trip(digest);
}

/// A digest that is written in hexadecimal reads back as the same digest.
pub proof fn lemma_checksum_round_trip(text: &str, digest: Seq<u8>)
    requires
        text@ == hex_text(digest),
    ensures
        is_hex(text.spec_bytes()),
        hex_bytes(text.spec_bytes()) == digest,
{
    lemma_hex_text_reads_back(digest);
}

impl FSNChecksum {
    /// Reads a checksum whose digest is kept as text.
    ///
    /// Fails with `NotRecognised` for any algorithm but `sha256` and
    /// `sha512`.
    pub fn parse(kind: &str, digest: &str) -> (res: Result<FSNChecksum, ChecksumError>)
        ensures
            kind@ == "sha256"@ ==> (res matches Ok(FSNChecksum::SHA256(d)) && d@ == digest@),
            kind@ != "sha256"@ && kind@ == "sha512"@ ==> (res matches Ok(FSNChecksum::SHA512(d))
                && d@ == digest@),
            kind@ != "sha256"@ && kind@ != "sha512"@ ==> (
            res matches Err(ChecksumError::NotRecognised(k)) && k@ == kind@),
    {
        let given = kind.to_owned();
        if given == "sha256".to_owned() {
            Ok(FSNChecksum::SHA256(digest.to_owned()))
        } else if given == "sha512".to_owned() {
            Ok(FSNChecksum::SHA512(digest.to_owned()))
        } else {
            Err(ChecksumError::NotRecognised(given))
        }
    }
}

/// The kind of release that a kind of mod is recorded as: an engine is a
/// build.
pub fn release_type(mod_type: FSNRelType) -> (rel_type: RelType)
    ensures
        rel_type == match mod_type {
            FSNRelType::Engine => RelType::Build,
            FSNRelType::Mod => RelType::Mod,
            FSNRelType::TC => RelType::TC,
        },
{
    match mod_type {
        FSNRelType::Engine => RelType::Build,
        FSNRelType::Mod => RelType::Mod,
        FSNRelType::TC => RelType::TC,
    }
}

/// How strongly a package is wanted: `required`, `recommended` or
/// `optional`, as the manifest words it. `None` for any other word.
pub fn package_status(status: &str) -> (res: Option<DepType>)
    ensures
        res == DepType::spec_from_text(status@),
{
    DepType::from_text(status)
}

/// The directory below the release's root that a package installs to: the
/// folder that the manifest names, and the root itself where it names
/// none.
pub fn package_folder(folder: &Option<String>) -> (dir: String)
    ensures
        dir@ == match folder {
            Some(f) => f@,
            None => Seq::<char>::empty(),
        },
{
    match folder {
        Some(f) => f.clone(),
        None => String::new(),
    }
}

/// The text of an optional text.
pub open spec fn optional(text: Option<String>) -> Option<Seq<char>> {
    match text {
        Some(t) => Some(t@),
        None => None,
    }
}

/// What a dependency holds.
pub struct DependencyView {
    pub id: Seq<char>,
    pub version: Option<Seq<char>>,
    pub packages: Seq<Seq<char>>,
}

impl View for FSNDependency {
    type V = DependencyView;

    open spec fn view(&self) -> DependencyView {
        DependencyView {
            id: self.id@,
            version: optional(self.version),
            packages: texts(self.packages@),
        }
    }
}

/// What the dependencies of a list hold, in order.
pub open spec fn dependency_views(values: Seq<FSNDependency>) -> Seq<DependencyView> {
    Seq::new(values.len(), |i: int| values[i]@)
}

/// What an executable holds.
pub struct ExecutableView {
    pub file: Seq<char>,
    pub label: Option<Seq<char>>,
}

impl View for FSNExecutable {
    type V = ExecutableView;

    open spec fn view(&self) -> ExecutableView {
        ExecutableView { file: self.file@, label: optional(self.label) }
    }
}

/// What the executables of a list hold, in order.
pub open spec fn executable_views(values: Seq<FSNExecutable>) -> Seq<ExecutableView> {
    Seq::new(values.len(), |i: int| values[i]@)
}

/// What an archive of a package holds.
pub struct ZipFileView {
    pub filename: Seq<char>,
    pub dest: Seq<char>,
    pub checksum: Seq<u8>,
    pub filesize: i64,
    pub urls: Seq<Seq<char>>,
}

impl View for FSNZipFile {
    type V = ZipFileView;

    open spec fn view(&self) -> ZipFileView {
        ZipFileView {
            filename: self.filename@,
            dest: self.dest@,
            checksum: self.checksum@,
            filesize: self.filesize,
            urls: texts(self.urls@),
        }
    }
}

/// What the archives of a list hold, in order.
pub open spec fn zip_file_views(values: Seq<FSNZipFile>) -> Seq<ZipFileView> {
    Seq::new(values.len(), |i: int| values[i]@)
}

/// What a file of a package holds.
pub struct ModFileView {
    pub filename: Seq<char>,
    pub archive: Seq<char>,
    pub orig_name: Seq<char>,
    pub checksum: Seq<u8>,
}

impl View for FSNModFile {
    type V = ModFileView;

    open spec fn view(&self) -> ModFileView {
        ModFileView {
            filename: self.filename@,
            archive: self.archive@,
            orig_name: self.orig_name@,
            checksum: self.checksum@,
        }
    }
}

/// What the files of a list hold, in order.
pub open spec fn mod_file_views(values: Seq<FSNModFile>) -> Seq<ModFileView> {
    Seq::new(values.len(), |i: int| values[i]@)
}

/// What a package holds.
pub struct PackageView {
    pub name: Seq<char>,
    pub notes: Seq<char>,
    pub status: Seq<char>,
    pub dependencies: Seq<DependencyView>,
    pub environment: Option<Seq<char>>,
    pub folder: Option<Seq<char>>,
    pub is_vp: bool,
    pub executables: Seq<ExecutableView>,
    pub files: Seq<ZipFileView>,
    pub filelist: Seq<ModFileView>,
}

impl View for FSNPackage {
    type V = PackageView;

    open spec fn view(&self) -> PackageView {
        PackageView {
            name: self.name@,
            notes: self.notes@,
            status: self.status@,
            dependencies: dependency_views(self.dependencies@),
            environment: optional(self.environment),
            folder: optional(self.folder),
            is_vp: self.is_vp,
            executables: executable_views(self.executables@),
            files: zip_file_views(self.files@),
            filelist: mod_file_views(self.filelist@),
        }
    }
}

/// What the packages of a list hold, in order.
pub open spec fn package_views(values: Seq<FSNPackage>) -> Seq<PackageView> {
    Seq::new(values.len(), |i: int| values[i]@)
}

/// What a release of the manifest holds.
pub struct ModView {
    pub id: Seq<char>,
    pub title: Seq<char>,
    pub version: Seq<char>,
    pub private: bool,
    pub stability: Option<Stability>,
    pub parent: Option<Seq<char>>,
    pub description: Seq<char>,
    pub logo: Option<Seq<char>>,
    pub tile: Option<Seq<char>>,
    pub banner: Option<Seq<char>>,
    pub screenshots: Seq<Seq<char>>,
    pub attachments: Seq<Seq<char>>,
    pub release_thread: Option<Seq<char>>,
    pub videos: Seq<Seq<char>>,
    pub notes: Seq<char>,
    pub first_release: Seq<char>,
    pub last_update: Seq<char>,
    pub cmdline: Seq<char>,
    pub mod_flag: Seq<Seq<char>>,
    pub mod_type: FSNRelType,
    pub packages: Seq<PackageView>,
}

impl View for FSNMod {
    type V = ModView;

    open spec fn view(&self) -> ModView {
        ModView {
            id: self.id@,
            title: self.title@,
            version: self.version@,
            private: self.private,
            stability: self.stability,
            parent: optional(self.parent),
            description: self.description@,
            logo: optional(self.logo),
            tile: optional(self.tile),
            banner: optional(self.banner),
            screenshots: texts(self.screenshots@),
            attachments: texts(self.attachments@),
            release_thread: optional(self.release_thread),
            videos: texts(self.videos@),
            notes: self.notes@,
            first_release: self.first_release@,
            last_update: self.last_update@,
            cmdline: self.cmdline@,
            mod_flag: texts(self.mod_flag@),
            mod_type: self.mod_type,
            packages: package_views(self.packages@),
        }
    }
}

/// What the releases of a list hold, in order.
pub open spec fn release_views(values: Seq<FSNMod>) -> Seq<ModView> {
    Seq::new(values.len(), |i: int| values[i]@)
}

/// What a manifest holds.
pub struct RepoView {
    pub mods: Seq<ModView>,
}

impl View for Repo {
    type V = RepoView;

    open spec fn view(&self) -> RepoView {
        RepoView { mods: release_views(self.mods@) }
    }
}

impl FSNRelType {
    /// The word that the manifest writes for this kind of mod.
    pub open spec fn spec_word(self) -> Seq<char> {
        match self {
            FSNRelType::Engine => "engine"@,
            FSNRelType::Mod => "mod"@,
            FSNRelType::TC => "tc"@,
        }
    }

    /// The kind of mod that the manifest writes as `word`, if there is
    /// one.
    pub open spec fn spec_from_word(word: Seq<char>) -> Option<FSNRelType> {
        if word == "engine"@ {
            Some(FSNRelType::Engine)
        } else if word == "mod"@ {
            Some(FSNRelType::Mod)
        } else if word == "tc"@ {
            Some(FSNRelType::TC)
        } else {
            None
        }
    }

    /// The word that the manifest writes for this kind of mod.
    pub fn word(&self) -> (word: &'static str)
        ensures
            word@ == self.spec_word(),
    {
        match self {
            FSNRelType::Engine => "engine",
            FSNRelType::Mod => "mod",
            FSNRelType::TC => "tc",
        }
    }

    /// The kind of mod that the manifest writes as `word`. `None` for a
    /// word that names none.
    pub fn from_word(word: &str) -> (res: Option<FSNRelType>)
        ensures
            res == FSNRelType::spec_from_word(word@),
    {
        if same_text(word, "engine") {
            Some(FSNRelType::Engine)
        } else if same_text(word, "mod") {
            Some(FSNRelType::Mod)
        } else if same_text(word, "tc") {
            Some(FSNRelType::TC)
        } else {
            None
        }
    }
}

/// Every word that the manifest writes for a kind of mod reads back as
/// that kind.
pub proof fn lemma_rel_word_round_trip(x: FSNRelType)
    ensures
        FSNRelType::spec_from_word(x.spec_word()) == Some(x),
{
    reveal_strlit("engine");
    assert("engine"@.len() == 6);
    reveal_strlit("mod");
    assert("mod"@.len() == 3);
    reveal_strlit("tc");
    assert("tc"@.len() == 2);
}

} // verus!

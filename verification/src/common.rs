//! Rows of the catalog: releases, packages, files, digests, sources and
//! archive entries.

use vstd::prelude::*;
use crate::db::{DepType, RelType, SourceLocation};
use crate::paths::same_text;

verus! {

/// How settled a build is.
#[derive(Debug, Clone, Copy, PartialEq, Eq, Structural)]
pub enum Stability {
    Stable,
    RC,
    Nightly,
    Experimental,
}

/// Kind of container that an archive entry sits in. `VP` is preferred.
#[derive(Debug, Clone, Copy, PartialEq, Eq, Structural, Hash)]
pub enum Archive {
    VP,
    SevenZip,
}

/// Format of the bytes that a source delivers.
#[derive(Debug, Clone, Copy, PartialEq, Eq, Structural, Hash)]
pub enum SourceFormat {
    Raw,
    SevenZip,
    VP,
}

impl Stability {
    /// The word that the catalog writes for this stability.
    pub open spec fn spec_text(self) -> Seq<char> {
        match self {
            Stability::Stable => "stable"@,
            Stability::RC => "rc"@,
            Stability::Nightly => "nightly"@,
            Stability::Experimental => "experimental"@,
        }
    }

    /// This stability that the catalog writes as `text`, if there is one.
    pub open spec fn spec_from_text(text: Seq<char>) -> Option<Stability> {
        if text == "stable"@ {
            Some(Stability::Stable)
        } else if text == "rc"@ {
            Some(Stability::RC)
        } else if text == "nightly"@ {
            Some(Stability::Nightly)
        } else if text == "experimental"@ {
            Some(Stability::Experimental)
        } else {
            None
        }
    }

    /// The word that the catalog writes for this stability.
    pub fn to_text(&self) -> (text: &'static str)
        ensures
            text@ == self.spec_text(),
    {
        match self {
            Stability::Stable => "stable",
            Stability::RC => "rc",
            Stability::Nightly => "nightly",
            Stability::Experimental => "experimental",
        }
    }

    /// This stability that the catalog writes as `text`. `None` for a word
    /// that the catalog does not write.
    pub fn from_text(text: &str) -> (res: Option<Stability>)
        ensures
            res == Stability::spec_from_text(text@),
    {
        if same_text(text, "stable") {
            Some(Stability::Stable)
        } else if same_text(text, "rc") {
            Some(Stability::RC)
        } else if same_text(text, "nightly") {
            Some(Stability::Nightly)
        } else if same_text(text, "experimental") {
            Some(Stability::Experimental)
        } else {
            None
        }
    }
}

impl Archive {
    /// The word that the catalog writes for this kind of archive.
    pub open spec fn spec_text(self) -> Seq<char> {
        match self {
            Archive::VP => "vp"@,
            Archive::SevenZip => "sevenzip"@,
        }
    }

    /// This kind of archive that the catalog writes as `text`, if there is one.
    pub open spec fn spec_from_text(text: Seq<char>) -> Option<Archive> {
        if text == "vp"@ {
            Some(Archive::VP)
        } else if text == "sevenzip"@ {
            Some(Archive::SevenZip)
        } else {
            None
        }
    }

    /// The word that the catalog writes for this kind of archive.
    pub fn to_text(&self) -> (text: &'static str)
        ensures
            text@ == self.spec_text(),
    {
        match self {
            Archive::VP => "vp",
            Archive::SevenZip => "sevenzip",
        }
    }

    /// This kind of archive that the catalog writes as `text`. `None` for a word
    /// that the catalog does not write.
    pub fn from_text(text: &str) -> (res: Option<Archive>)
        ensures
            res == Archive::spec_from_text(text@),
    {
        if same_text(text, "vp") {
            Some(Archive::VP)
        } else if same_text(text, "sevenzip") {
            Some(Archive::SevenZip)
        } else {
            None
        }
    }
}

impl SourceFormat {
    /// The word that the catalog writes for this format.
    pub open spec fn spec_text(self) -> Seq<char> {
        match self {
            SourceFormat::Raw => "raw"@,
            SourceFormat::SevenZip => "sevenzip"@,
            SourceFormat::VP => "vp"@,
        }
    }

    /// This format that the catalog writes as `text`, if there is one.
    pub open spec fn spec_from_text(text: Seq<char>) -> Option<SourceFormat> {
        if text == "raw"@ {
            Some(SourceFormat::Raw)
        } else if text == "sevenzip"@ {
            Some(SourceFormat::SevenZip)
        } else if text == "vp"@ {
            Some(SourceFormat::VP)
        } else {
            None
        }
    }

    /// The word that the catalog writes for this format.
    pub fn to_text(&self) -> (text: &'static str)
        ensures
            text@ == self.spec_text(),
    {
        match self {
            SourceFormat::Raw => "raw",
            SourceFormat::SevenZip => "sevenzip",
            SourceFormat::VP => "vp",
        }
    }

    /// This format that the catalog writes as `text`. `None` for a word
    /// that the catalog does not write.
    pub fn from_text(text: &str) -> (res: Option<SourceFormat>)
        ensures
            res == SourceFormat::spec_from_text(text@),
    {
        if same_text(text, "raw") {
            Some(SourceFormat::Raw)
        } else if same_text(text, "sevenzip") {
            Some(SourceFormat::SevenZip)
        } else if same_text(text, "vp") {
            Some(SourceFormat::VP)
        } else {
            None
        }
    }
}

/// Every word that the catalog writes reads back as what it was written
/// for.
pub proof fn lemma_stability_round_trip(x: Stability)
    ensures
        Stability::spec_from_text(x.spec_text()) == Some(x),
{
    reveal_strlit("stable");
    assert("stable"@.len() == 6);
    reveal_strlit("rc");
    assert("rc"@.len() == 2);
    reveal_strlit("nightly");
    assert("nightly"@.len() == 7);
    reveal_strlit("experimental");
    assert("experimental"@.len() == 12);
}

/// Every word that the catalog writes reads back as what it was written
/// for.
pub proof fn lemma_archive_round_trip(x: Archive)
    ensures
        Archive::spec_from_text(x.spec_text()) == Some(x),
{
    reveal_strlit("vp");
    assert("vp"@.len() == 2);
    reveal_strlit("sevenzip");
    assert("sevenzip"@.len() == 8);
}

/// Every word that the catalog writes reads back as what it was written
/// for.
pub proof fn lemma_sourceformat_round_trip(x: SourceFormat)
    ensures
        SourceFormat::spec_from_text(x.spec_text()) == Some(x),
{
    reveal_strlit("raw");
    assert("raw"@.len() == 3);
    reveal_strlit("sevenzip");
    assert("sevenzip"@.len() == 8);
    reveal_strlit("vp");
    assert("vp"@.len() == 2);
}

/// A named, versioned release. `date` is an ISO calendar date.
#[derive(Debug, Clone, PartialEq)]
pub struct Release {
    pub rel_id: i64,
    pub name: String,
    pub version: String,
    pub rel_type: RelType,
    pub date: String,
    pub private: bool,
}

/// A mod or total conversion, joined with its release.
#[derive(Debug, Clone, PartialEq)]
pub struct Mod {
    pub name: String,
    pub version: String,
    pub title: String,
    pub date: String,
    pub private: bool,
    pub parent: Option<String>,
    pub description: Option<String>,
    pub logo: Option<String>,
    pub tile: Option<String>,
    pub banner: Option<String>,
    pub notes: Option<String>,
    pub cmdline: String,
    pub installed: bool,
}

/// An engine build, joined with its release.
#[derive(Debug, Clone, PartialEq)]
pub struct Build {
    pub name: String,
    pub version: String,
    pub title: String,
    pub date: String,
    pub private: bool,
    pub stability: Stability,
    pub description: Option<String>,
    pub notes: Option<String>,
}

/// A subunit of a release.
#[derive(Debug, Clone, PartialEq)]
pub struct Package {
    pub p_id: i64,
    pub rel_id: i64,
    pub name: String,
    pub notes: String,
    pub status: DepType,
    pub environment: Option<String>,
    pub folder: String,
    pub is_vp: bool,
}

/// A package as the catalog records it. Without a `folder` the package
/// installs to the root of its release.
#[derive(Debug, PartialEq, Eq)]
pub struct PackageRow {
    pub p_id: i64,
    pub rel_id: i64,
    pub name: String,
    pub notes: String,
    pub status: String,
    pub environment: Option<String>,
    pub folder: Option<String>,
    pub is_vp: bool,
}

/// A dependency of a package as the catalog records it: the release that
/// the package needs, and the versions of it that will do, if that is
/// restricted.
#[derive(Debug, PartialEq, Eq)]
pub struct DependencyRow {
    pub id: i64,
    pub p_id: i64,
    pub modname: String,
    pub version: Option<String>,
}

/// A package's dependency on another release.
#[derive(Debug, Clone, PartialEq)]
pub struct PackageDependency {
    pub key: i64,
    pub p_id: i64,
    pub modname: String,
    pub modver: String,
}

/// One package named by a dependency.
#[derive(Debug, Clone, PartialEq)]
pub struct DependencyDetail {
    pub id: i64,
    pub dep_id: i64,
    pub name: String,
}

/// A SHA-256 digest, the content address of a blob.
#[derive(Debug, PartialEq, Eq, Hash)]
pub struct SHA256Checksum(pub Vec<u8>);

impl View for SHA256Checksum {
    type V = Seq<u8>;

    open spec fn view(&self) -> Seq<u8> {
        self.0@
    }
}

impl Clone for SHA256Checksum {
    fn clone(&self) -> (res: Self)
        ensures
            res@ == self@,
    {
        let mut bytes: Vec<u8> = Vec::with_capacity(self.0.len());
        let mut i: usize = 0;
        while i < self.0.len()
            invariant
                i <= self.0.len(),
                bytes@ == self.0@.take(i as int),
            decreases self.0.len() - i,
        {
            bytes.push(self.0[i]);
            i = i + 1;
        }
        SHA256Checksum(bytes)
    }
}

impl SHA256Checksum {
    /// A digest is well formed when it holds the 32 bytes of a SHA-256 value.
    pub open spec fn well_formed(&self) -> bool {
        self@.len() == 32
    }

    /// Whether two digests hold the same bytes.
    pub fn same_as(&self, other: &SHA256Checksum) -> (same: bool)
        ensures
            same == (self@ == other@),
    {
        if self.0.len() != other.0.len() {
            return false;
        }
        let mut i: usize = 0;
        while i < self.0.len()
            invariant
                i <= self.0.len(),
                self.0.len() == other.0.len(),
                self@.take(i as int) == other@.take(i as int),
            decreases self.0.len() - i,
        {
            if self.0[i] != other.0[i] {
                return false;
            }
            assert(self@.take(i + 1) == self@.take(i as int).push(self@[i as int]));
            assert(other@.take(i + 1) == other@.take(i as int).push(other@[i as int]));
            i = i + 1;
        }
        assert(self@ == self@.take(self@.len() as int));
        assert(other@ == other@.take(other@.len() as int));
        true
    }
}

/// A digest with the blob ID that the catalog gave it.
#[derive(Debug, Clone, PartialEq)]
pub struct Hash {
    pub id: i64,
    pub val: SHA256Checksum,
}

/// Where a blob must land when its package is installed.
#[derive(Debug, Clone, PartialEq)]
pub struct File {
    pub p_id: i64,
    pub h_id: i64,
    pub filepath: String,
}

/// A place from which the bytes of one blob can be obtained.
#[derive(Debug, PartialEq, Eq, Hash)]
pub struct Source {
    pub location: SourceLocation,
    pub path: String,
    pub h_id: i64,
    pub size: i64,
    pub format: SourceFormat,
}

impl Clone for Source {
    fn clone(&self) -> (res: Self)
        ensures
            res == *self,
    {
        Source {
            location: self.location,
            path: self.path.clone(),
            h_id: self.h_id,
            size: self.size,
            format: self.format,
        }
    }
}

impl Source {
    /// Whether two sources name the same place for the same blob: the key
    /// on which the catalog keeps sources apart.
    pub open spec fn same_key(&self, other: &Source) -> bool {
        &&& self.location == other.location
        &&& self.path@ == other.path@
        &&& self.h_id == other.h_id
    }
}

/// A source together with its row number.
#[derive(Debug, Clone, PartialEq)]
pub struct SourceWithID {
    pub id: i64,
    pub location: SourceLocation,
    pub path: String,
    pub h_id: i64,
    pub size: i64,
}

/// An edge of the containment relation: the blob `file_id` can be read out
/// of the archive `archive_id` at `file_path`.
#[derive(Debug, PartialEq)]
pub struct ArchiveEntry {
    pub file_id: i64,
    pub file_path: String,
    pub archive_id: i64,
    pub archive_type: Archive,
}

impl Clone for ArchiveEntry {
    fn clone(&self) -> (res: Self)
        ensures
            res == *self,
    {
        ArchiveEntry {
            file_id: self.file_id,
            file_path: self.file_path.clone(),
            archive_id: self.archive_id,
            archive_type: self.archive_type,
        }
    }
}

} // verus!

//! Enumerations and small row types shared by every table of the catalog.

use vstd::prelude::*;
use crate::paths::same_text;

verus! {

/// Upper bound on the number of bound parameters in one statement of the
/// embedded relational engine.
pub const BIND_LIMIT: usize = 32766;

/// How many connections to the catalog are kept open at most. Writers do
/// not block readers, so many readers can work at once.
pub const MAX_CONNECTIONS: u32 = 64;

/// Kind of a release.
#[derive(Debug, Clone, Copy, PartialEq, Eq, Structural)]
pub enum RelType {
    Build,
    Mod,
    TC,
    Tool,
}

/// Kind of a link attached to a release.
#[derive(Debug, Clone, Copy, PartialEq, Eq, Structural)]
pub enum LinkType {
    Screenshot,
    Attachment,
    ReleaseThread,
    Video,
}

/// How strongly a package is wanted by its release.
#[derive(Debug, Clone, Copy, PartialEq, Eq, Structural)]
pub enum DepType {
    Required,
    Recommended,
    Optional,
}

/// Where a source lives. The variants are listed in order of preference:
/// the first three are on this machine, the others are remote.
#[derive(Debug, Clone, Copy, PartialEq, Eq, Structural, Hash)]
pub enum SourceLocation {
    Temp,
    Local,
    Unmanaged,
    SolGate,
    FSN,
}

impl SourceLocation {
    /// Position in the order of preference, `Temp` first.
    pub open spec fn rank(self) -> int {
        match self {
            SourceLocation::Temp => 0,
            SourceLocation::Local => 1,
            SourceLocation::Unmanaged => 2,
            SourceLocation::SolGate => 3,
            SourceLocation::FSN => 4,
        }
    }

    /// A location is local when reading from it needs no network.
    pub open spec fn spec_is_local(self) -> bool {
        self.rank() <= 2
    }

    /// Whether reading from this location needs no network.
    pub fn is_local(&self) -> (local: bool)
        ensures
            local == self.spec_is_local(),
    {
        match self {
            SourceLocation::Temp => true,
            SourceLocation::Local => true,
            SourceLocation::Unmanaged => true,
            SourceLocation::SolGate => false,
            SourceLocation::FSN => false,
        }
    }

    /// Position in the order of preference as a number, `Temp` first.
    pub fn preference(&self) -> (r: u8)
        ensures
            r == self.rank(),
    {
        match self {
            SourceLocation::Temp => 0,
            SourceLocation::Local => 1,
            SourceLocation::Unmanaged => 2,
            SourceLocation::SolGate => 3,
            SourceLocation::FSN => 4,
        }
    }
}

impl RelType {
    /// The word that the catalog writes for this kind of release.
    pub open spec fn spec_text(self) -> Seq<char> {
        match self {
            RelType::Build => "build"@,
            RelType::Mod => "mod"@,
            RelType::TC => "tc"@,
            RelType::Tool => "tool"@,
        }
    }

    /// This kind of release that the catalog writes as `text`, if there is one.
    pub open spec fn spec_from_text(text: Seq<char>) -> Option<RelType> {
        if text == "build"@ {
            Some(RelType::Build)
        } else if text == "mod"@ {
            Some(RelType::Mod)
        } else if text == "tc"@ {
            Some(RelType::TC)
        } else if text == "tool"@ {
            Some(RelType::Tool)
        } else {
            None
        }
    }

    /// The word that the catalog writes for this kind of release.
    pub fn to_text(&self) -> (text: &'static str)
        ensures
            text@ == self.spec_text(),
    {
        match self {
            RelType::Build => "build",
            RelType::Mod => "mod",
            RelType::TC => "tc",
            RelType::Tool => "tool",
        }
    }

    /// This kind of release that the catalog writes as `text`. `None` for a word
    /// that the catalog does not write.
    pub fn from_text(text: &str) -> (res: Option<RelType>)
        ensures
            res == RelType::spec_from_text(text@),
    {
        if same_text(text, "build") {
            Some(RelType::Build)
        } else if same_text(text, "mod") {
            Some(RelType::Mod)
        } else if same_text(text, "tc") {
            Some(RelType::TC)
        } else if same_text(text, "tool") {
            Some(RelType::Tool)
        } else {
            None
        }
    }
}

impl LinkType {
    /// The word that the catalog writes for this kind of link.
    pub open spec fn spec_text(self) -> Seq<char> {
        match self {
            LinkType::Screenshot => "screenshot"@,
            LinkType::Attachment => "attachment"@,
            LinkType::ReleaseThread => "releasethread"@,
            LinkType::Video => "video"@,
        }
    }

    /// This kind of link that the catalog writes as `text`, if there is one.
    pub open spec fn spec_from_text(text: Seq<char>) -> Option<LinkType> {
        if text == "screenshot"@ {
            Some(LinkType::Screenshot)
        } else if text == "attachment"@ {
            Some(LinkType::Attachment)
        } else if text == "releasethread"@ {
            Some(LinkType::ReleaseThread)
        } else if text == "video"@ {
            Some(LinkType::Video)
        } else {
            None
        }
    }

    /// The word that the catalog writes for this kind of link.
    pub fn to_text(&self) -> (text: &'static str)
        ensures
            text@ == self.spec_text(),
    {
        match self {
            LinkType::Screenshot => "screenshot",
            LinkType::Attachment => "attachment",
            LinkType::ReleaseThread => "releasethread",
            LinkType::Video => "video",
        }
    }

    /// This kind of link that the catalog writes as `text`. `None` for a word
    /// that the catalog does not write.
    pub fn from_text(text: &str) -> (res: Option<LinkType>)
        ensures
            res == LinkType::spec_from_text(text@),
    {
        if same_text(text, "screenshot") {
            Some(LinkType::Screenshot)
        } else if same_text(text, "attachment") {
            Some(LinkType::Attachment)
        } else if same_text(text, "releasethread") {
            Some(LinkType::ReleaseThread)
        } else if same_text(text, "video") {
            Some(LinkType::Video)
        } else {
            None
        }
    }
}

impl DepType {
    /// The word that the catalog writes for this strength of a dependency.
    pub open spec fn spec_text(self) -> Seq<char> {
        match self {
            DepType::Required => "required"@,
            DepType::Recommended => "recommended"@,
            DepType::Optional => "optional"@,
        }
    }

    /// This strength of a dependency that the catalog writes as `text`, if there is one.
    pub open spec fn spec_from_text(text: Seq<char>) -> Option<DepType> {
        if text == "required"@ {
            Some(DepType::Required)
        } else if text == "recommended"@ {
            Some(DepType::Recommended)
        } else if text == "optional"@ {
            Some(DepType::Optional)
        } else {
            None
        }
    }

    /// The word that the catalog writes for this strength of a dependency.
    pub fn to_text(&self) -> (text: &'static str)
        ensures
            text@ == self.spec_text(),
    {
        match self {
            DepType::Required => "required",
            DepType::Recommended => "recommended",
            DepType::Optional => "optional",
        }
    }

    /// This strength of a dependency that the catalog writes as `text`. `None` for a word
    /// that the catalog does not write.
    pub fn from_text(text: &str) -> (res: Option<DepType>)
        ensures
            res == DepType::spec_from_text(text@),
    {
        if same_text(text, "required") {
            Some(DepType::Required)
        } else if same_text(text, "recommended") {
            Some(DepType::Recommended)
        } else if same_text(text, "optional") {
            Some(DepType::Optional)
        } else {
            None
        }
    }
}

impl SourceLocation {
    /// The word that the catalog writes for this location.
    pub open spec fn spec_text(self) -> Seq<char> {
        match self {
            SourceLocation::Temp => "temp"@,
            SourceLocation::Local => "local"@,
            SourceLocation::Unmanaged => "unmanaged"@,
            SourceLocation::SolGate => "solgate"@,
            SourceLocation::FSN => "fsn"@,
        }
    }

    /// This location that the catalog writes as `text`, if there is one.
    pub open spec fn spec_from_text(text: Seq<char>) -> Option<SourceLocation> {
        if text == "temp"@ {
            Some(SourceLocation::Temp)
        } else if text == "local"@ {
            Some(SourceLocation::Local)
        } else if text == "unmanaged"@ {
            Some(SourceLocation::Unmanaged)
        } else if text == "solgate"@ {
            Some(SourceLocation::SolGate)
        } else if text == "fsn"@ {
            Some(SourceLocation::FSN)
        } else {
            None
        }
    }

    /// The word that the catalog writes for this location.
    pub fn to_text(&self) -> (text: &'static str)
        ensures
            text@ == self.spec_text(),
    {
        match self {
            SourceLocation::Temp => "temp",
            SourceLocation::Local => "local",
            SourceLocation::Unmanaged => "unmanaged",
            SourceLocation::SolGate => "solgate",
            SourceLocation::FSN => "fsn",
        }
    }

    /// This location that the catalog writes as `text`. `None` for a word
    /// that the catalog does not write.
    pub fn from_text(text: &str) -> (res: Option<SourceLocation>)
        ensures
            res == SourceLocation::spec_from_text(text@),
    {
        if same_text(text, "temp") {
            Some(SourceLocation::Temp)
        } else if same_text(text, "local") {
            Some(SourceLocation::Local)
        } else if same_text(text, "unmanaged") {
            Some(SourceLocation::Unmanaged)
        } else if same_text(text, "solgate") {
            Some(SourceLocation::SolGate)
        } else if same_text(text, "fsn") {
            Some(SourceLocation::FSN)
        } else {
            None
        }
    }
}

/// Every word that the catalog writes reads back as what it was written
/// for.
pub proof fn lemma_reltype_round_trip(x: RelType)
    ensures
        RelType::spec_from_text(x.spec_text()) == Some(x),
{
    reveal_strlit("build");
    assert("build"@.len() == 5);
    reveal_strlit("mod");
    assert("mod"@.len() == 3);
    reveal_strlit("tc");
    assert("tc"@.len() == 2);
    reveal_strlit("tool");
    assert("tool"@.len() == 4);
}

/// Every word that the catalog writes reads back as what it was written
/// for.
pub proof fn lemma_linktype_round_trip(x: LinkType)
    ensures
        LinkType::spec_from_text(x.spec_text()) == Some(x),
{
    reveal_strlit("screenshot");
    assert("screenshot"@.len() == 10);
    reveal_strlit("attachment");
    assert("attachment"@.len() == 10);
    reveal_strlit("releasethread");
    assert("releasethread"@.len() == 13);
    reveal_strlit("video");
    assert("video"@.len() == 5);
    assert("screenshot"@[0] != "attachment"@[0]);
}

/// Every word that the catalog writes reads back as what it was written
/// for.
pub proof fn lemma_deptype_round_trip(x: DepType)
    ensures
        DepType::spec_from_text(x.spec_text()) == Some(x),
{
    reveal_strlit("required");
    assert("required"@.len() == 8);
    reveal_strlit("recommended");
    assert("recommended"@.len() == 11);
    reveal_strlit("optional");
    assert("optional"@.len() == 8);
    assert("required"@[0] != "optional"@[0]);
}

/// Every word that the catalog writes reads back as what it was written
/// for.
pub proof fn lemma_sourcelocation_round_trip(x: SourceLocation)
    ensures
        SourceLocation::spec_from_text(x.spec_text()) == Some(x),
{
    reveal_strlit("temp");
    assert("temp"@.len() == 4);
    reveal_strlit("local");
    assert("local"@.len() == 5);
    reveal_strlit("unmanaged");
    assert("unmanaged"@.len() == 9);
    reveal_strlit("solgate");
    assert("solgate"@.len() == 7);
    reveal_strlit("fsn");
    assert("fsn"@.len() == 3);
}

/// The rows `from..to` of a batch.
pub type Chunk = (usize, usize);

/// How many rows of `binds_per_row` bound parameters fit one statement.
pub open spec fn rows_per_chunk(binds_per_row: usize) -> int {
    BIND_LIMIT as int / binds_per_row as int
}

/// `chunks` cut the rows `0..rows` into runs that follow one another
/// without a gap: each holds at least one row and at most `per`, and each
/// but the last holds `per`.
pub open spec fn is_chunking(chunks: Seq<Chunk>, rows: int, per: int) -> bool {
    &&& rows == 0 ==> chunks.len() == 0
    &&& rows > 0 ==> chunks.len() > 0 && chunks[0].0 == 0 && chunks[chunks.len() - 1].1 == rows
    &&& forall|k: int| 0 <= k < chunks.len() ==> 0 < (#[trigger] chunks[k]).1 - chunks[k].0 <= per
    &&& forall|k: int| 0 <= k < chunks.len() - 1 ==> (#[trigger] chunks[k]).1 - chunks[k].0 == per
    &&& forall|k: int| 0 <= k < chunks.len() - 1 ==> (#[trigger] chunks[k]).1 == chunks[k + 1].0
}

/// Cuts a batch of `rows` rows into the runs that are written with one
/// statement each, so that no statement binds more than `BIND_LIMIT`
/// parameters.
pub fn chunk_bounds(rows: usize, binds_per_row: usize) -> (chunks: Vec<Chunk>)
    requires
        0 < binds_per_row <= BIND_LIMIT,
    ensures
        is_chunking(chunks@, rows as int, rows_per_chunk(binds_per_row)),
        forall|k: int|
            0 <= k < chunks@.len() ==> ((#[trigger] chunks@[k]).1 - chunks@[k].0) * binds_per_row
                <= BIND_LIMIT,
{
    let per = BIND_LIMIT / binds_per_row;
    assert(per >= 1 && per * binds_per_row <= BIND_LIMIT) by (nonlinear_arith)
        requires
            0 < binds_per_row <= BIND_LIMIT,
            per == BIND_LIMIT as int / binds_per_row as int,
    ;
    let mut chunks: Vec<Chunk> = Vec::new();
    let mut start: usize = 0;
    while start < rows
        invariant
            start <= rows,
            per >= 1,
            per * binds_per_row <= BIND_LIMIT,
            per == rows_per_chunk(binds_per_row),
            start == 0 <==> chunks@.len() == 0,
            chunks@.len() > 0 ==> chunks@[0].0 == 0 && chunks@[chunks@.len() - 1].1 == start,
            forall|k: int| 0 <= k < chunks@.len() ==> 0 < (#[trigger] chunks@[k]).1 - chunks@[k].0 <= per,
            forall|k: int|
                0 <= k < chunks@.len() && k < chunks@.len() ==> (#[trigger] chunks@[k]).1
                    - chunks@[k].0 == per || (k == chunks@.len() - 1 && start == rows),
            forall|k: int| 0 <= k < chunks@.len() - 1 ==> (#[trigger] chunks@[k]).1 == chunks@[k + 1].0,
        decreases rows - start,
    {
        let end = if rows - start < per {
            rows
        } else {
            start + per
        };
        chunks.push((start, end));
        start = end;
    }
    proof {
        assert forall|k: int| 0 <= k < chunks@.len() implies ((#[trigger] chunks@[k]).1
            - chunks@[k].0) * binds_per_row <= BIND_LIMIT by {
            let len = chunks@[k].1 - chunks@[k].0;
            assert(len * binds_per_row <= per * binds_per_row) by (nonlinear_arith)
                requires
                    0 < len <= per,
                    binds_per_row > 0,
            ;
        }
    }
    chunks
}

/// Name and version of a release, as used to tell known releases from new
/// ones.
#[derive(Debug, Clone, PartialEq, Eq, Hash)]
pub struct Rel {
    pub name: String,
    pub version: String,
}

/// What dependency resolution needs of a mod.
#[derive(Debug, Clone, PartialEq)]
pub struct ModSmall {
    pub name: String,
    pub version: String,
    pub parent: Option<String>,
}

/// A link attached to a release.
#[derive(Debug, Clone, PartialEq)]
pub struct ModLink {
    pub name: String,
    pub version: String,
    pub link_type: LinkType,
    pub link: String,
}

/// A release that another release flags as a dependency.
#[derive(Debug, Clone, Copy, PartialEq)]
pub struct ModFlags {
    pub key: i64,
    pub rel_id: i64,
    pub dep_id: i64,
}

} // verus!

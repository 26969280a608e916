//! Where a blob lies once fetched, and the addresses it is fetched from.

use vstd::prelude::*;
use vstd::string::StringExecFns;
use crate::common::SHA256Checksum;
use crate::config::Config;
use crate::db::SourceLocation;
use crate::hexcode::{hex_encode, hex_text};
use crate::paths::{join_path, spec_join};

verus! {

/// Why no address could be given for a blob.
#[derive(Debug)]
pub enum UrlError {
    /// The location is on this machine.
    LocationError(String),
    /// No repository of the kind asked for is configured.
    SourceError(String),
}

/// The path of a blob below the temp area: the first two bytes of its
/// digest as directories, the rest as the file's name, all in hexadecimal.
pub open spec fn spec_split_hash(digest: Seq<u8>) -> Seq<char> {
    hex_text(digest.take(1)) + seq!['/'] + hex_text(digest.subrange(1, 2)) + seq!['/'] + hex_text(
        digest.skip(2),
    )
}

/// The path of a blob below the temp area.
pub fn split_hash(checksum: &SHA256Checksum) -> (path: String)
    requires
        checksum@.len() >= 2,
    ensures
        path@ == spec_split_hash(checksum@),
{
    let data = checksum.0.as_slice();
    let n = data.len();
    let mut path = hex_encode(vstd::slice::slice_subrange(data, 0, 1));
    proof {
        reveal_strlit("/");
        assert("/"@ =~= seq!['/']);
        assert(data@.subrange(0, 1) == data@.take(1));
        assert(data@.subrange(2, n as int) == data@.skip(2));
    }
    path.append("/");
    path.append(hex_encode(vstd::slice::slice_subrange(data, 1, 2)).as_str());
    path.append("/");
    path.append(hex_encode(vstd::slice::slice_subrange(data, 2, n)).as_str());
    path
}

/// Where the blob with digest `checksum` lies once fetched, below
/// `temp_dir`.
pub fn get_cs_path(temp_dir: &str, checksum: &SHA256Checksum) -> (path: String)
    requires
        checksum@.len() >= 2,
    ensures
        path@ == spec_join(temp_dir@, spec_split_hash(checksum@)),
{
    let cs_filename = split_hash(checksum);
    join_path(temp_dir, cs_filename.as_str())
}

/// Each of `bases` followed by `tail`.
fn with_tail(bases: &Vec<String>, tail: &String) -> (urls: Vec<String>)
    ensures
        urls@.len() == bases@.len(),
        forall|i: int| 0 <= i < urls@.len() ==> (#[trigger] urls@[i])@ == bases@[i]@ + tail@,
{
    let mut urls: Vec<String> = Vec::new();
    let mut i: usize = 0;
    while i < bases.len()
        invariant
            i <= bases@.len(),
            urls@.len() == i,
            forall|k: int| 0 <= k < i ==> (#[trigger] urls@[k])@ == bases@[k]@ + tail@,
        decreases bases.len() - i,
    {
        let mut url = bases[i].clone();
        url.append(tail.as_str());
        urls.push(url);
        i = i + 1;
    }
    urls
}

/// The addresses from which the blob with digest `checksum` can be fetched
/// at a remote location: each configured repository of that kind, followed
/// by the blob's path.
///
/// Fails with `LocationError` for a local location, and with `SourceError`
/// where no repository of the kind is configured.
pub fn get_urls(config: &Config, source_location: &SourceLocation, checksum: &SHA256Checksum) -> (res:
    Result<Vec<String>, UrlError>)
    requires
        !source_location.spec_is_local() ==> checksum@.len() >= 2,
    ensures
        source_location.spec_is_local() ==> (res matches Err(UrlError::LocationError(msg)) && msg@
            == "Local sources don't need URLs!"@),
        *source_location == SourceLocation::FSN && config.fsnebula.repos@.len() == 0 ==> (
        res matches Err(UrlError::SourceError(msg)) && msg@
            == "No FSNebula repositories specified."@),
        *source_location == SourceLocation::SolGate && config.gates@.len() == 0 ==> (
        res matches Err(UrlError::SourceError(msg)) && msg@
            == "No sol-gate repositories specified."@),
        *source_location == SourceLocation::FSN && config.fsnebula.repos@.len() > 0 ==> (
        res matches Ok(urls) && urls@.len() == config.fsnebula.repos@.len() && forall|i: int|
            0 <= i < urls@.len() ==> (#[trigger] urls@[i])@ == config.fsnebula.repos@[i]@
                + spec_split_hash(checksum@)),
        *source_location == SourceLocation::SolGate && config.gates@.len() > 0 ==> (
        res matches Ok(urls) && urls@.len() == config.gates@.len() && forall|i: int|
            0 <= i < urls@.len() ==> (#[trigger] urls@[i])@ == config.gates@[i].url@
                + spec_split_hash(checksum@)),
{
    match source_location {
        SourceLocation::Local => Err(
            UrlError::LocationError("Local sources don't need URLs!".to_owned()),
        ),
        SourceLocation::Temp => Err(
            UrlError::LocationError("Local sources don't need URLs!".to_owned()),
        ),
        SourceLocation::Unmanaged => Err(
            UrlError::LocationError("Local sources don't need URLs!".to_owned()),
        ),
        SourceLocation::FSN => {
            let hashpath = split_hash(checksum);
            let repos = &config.fsnebula.repos;
            if repos.len() == 0 {
                Err(UrlError::SourceError("No FSNebula repositories specified.".to_owned()))
            } else {
                Ok(with_tail(repos, &hashpath))
            }
        },
        SourceLocation::SolGate => {
            let hashpath = split_hash(checksum);
            let gates = &config.gates;
            if gates.len() == 0 {
                Err(UrlError::SourceError("No sol-gate repositories specified.".to_owned()))
            } else {
                let mut bases: Vec<String> = Vec::new();
                let mut i: usize = 0;
                while i < gates.len()
                    invariant
                        i <= gates@.len(),
                        bases@.len() == i,
                        forall|k: int| 0 <= k < i ==> (#[trigger] bases@[k])@ == gates@[k].url@,
                    decreases gates.len() - i,
                {
                    bases.push(gates[i].url.clone());
                    i = i + 1;
                }
                Ok(with_tail(&bases, &hashpath))
            }
        },
    }
}

} // verus!

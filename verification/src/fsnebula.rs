//! The public mod repository: where its manifest is fetched from, and how a
//! fetch with a cached copy proceeds.

use vstd::prelude::*;

pub mod commit;
pub mod db;
pub mod json;
pub mod manifest;
pub mod structs;

verus! {

/// Addresses of the public mod repository.
#[derive(Debug, Clone)]
pub struct FSNPaths {
    pub web: String,
    pub api: String,
    pub repos: Vec<String>,
}

impl FSNPaths {
    /// The addresses of the public repository: its web site, its API, and
    /// the three places that serve its manifest, in the order in which
    /// they are tried.
    pub fn new() -> (paths: FSNPaths)
        ensures
            paths.web@ == "https://fsnebula.org/"@,
            paths.api@ == "https://api.fsnebula.org/api/1/"@,
            paths.repos@.len() == 3,
            paths.repos@[0]@ == "https://cf.fsnebula.org/storage/repo.json"@,
            paths.repos@[1]@ == "https://fsnebula.org/storage/repo.json"@,
            paths.repos@[2]@ == "https://porphyrion.feralhosting.com/datacorder/nebula/repo.json"@,
    {
        let mut repos: Vec<String> = Vec::new();
        repos.push("https://cf.fsnebula.org/storage/repo.json".to_owned());
        repos.push("https://fsnebula.org/storage/repo.json".to_owned());
        repos.push("https://porphyrion.feralhosting.com/datacorder/nebula/repo.json".to_owned());
        FSNPaths {
            web: "https://fsnebula.org/".to_owned(),
            api: "https://api.fsnebula.org/api/1/".to_owned(),
            repos,
        }
    }
}

impl Default for FSNPaths {
    fn default() -> (paths: FSNPaths)
        ensures
            paths.web@ == "https://fsnebula.org/"@,
            paths.api@ == "https://api.fsnebula.org/api/1/"@,
            paths.repos@.len() == 3,
            paths.repos@[0]@ == "https://cf.fsnebula.org/storage/repo.json"@,
            paths.repos@[1]@ == "https://fsnebula.org/storage/repo.json"@,
            paths.repos@[2]@ == "https://porphyrion.feralhosting.com/datacorder/nebula/repo.json"@,
    {
        FSNPaths::new()
    }
}

/// The repository as it was last fetched.
#[derive(Debug)]
pub struct FSNebula {
    pub repo: structs::Repo,
    pub urls: FSNPaths,
    pub cache: String,
}

/// What came of asking one address for the manifest.
#[derive(Debug, Clone, Copy, PartialEq, Eq, Structural)]
pub enum RepoAnswer {
    /// The request failed.
    Failed,
    /// The server answered with this status.
    Status(u16),
}

/// What to do after one address has answered.
#[derive(Debug, Clone, Copy, PartialEq, Eq, Structural)]
pub enum RepoStep {
    /// Take the body of the answer as the manifest, and cache it with the
    /// answer's entity tag.
    UseBody,
    /// The cached manifest is current: use it.
    UseCache,
    /// Ask the next address.
    TryNext,
}

/// Where the manifest comes from once the addresses have been asked.
#[derive(Debug, Clone, Copy, PartialEq, Eq, Structural)]
pub enum ManifestFrom {
    /// From the body that the address at this place answered with.
    Body(usize),
    /// From the cache.
    Cache,
}

/// What to do after an address has answered: a 200 delivers the manifest,
/// a 304 says that the cached one is current, and after anything else the
/// next address is asked.
pub fn on_answer(answer: RepoAnswer) -> (step: RepoStep)
    ensures
        step == spec_on_answer(answer),
{
    match answer {
        RepoAnswer::Failed => RepoStep::TryNext,
        RepoAnswer::Status(code) => {
            if code == 200 {
                RepoStep::UseBody
            } else if code == 304 {
                RepoStep::UseCache
            } else {
                RepoStep::TryNext
            }
        },
    }
}

/// What to do after an address has answered.
pub open spec fn spec_on_answer(answer: RepoAnswer) -> RepoStep {
    match answer {
        RepoAnswer::Failed => RepoStep::TryNext,
        RepoAnswer::Status(code) => if code == 200 {
            RepoStep::UseBody
        } else if code == 304 {
            RepoStep::UseCache
        } else {
            RepoStep::TryNext
        },
    }
}

/// The place of the first answer at or after `from` that ends the asking,
/// or the number of answers where none does.
pub open spec fn first_decisive(answers: Seq<RepoAnswer>, from: int) -> int
    decreases answers.len() - from,
{
    if from < 0 || from >= answers.len() {
        answers.len() as int
    } else if spec_on_answer(answers[from]) != RepoStep::TryNext {
        from
    } else {
        first_decisive(answers, from + 1)
    }
}

/// Where the manifest comes from, given what the addresses answered in the
/// order in which they were asked: from the first 200, unless a 304 came
/// before it; from the cache otherwise.
pub fn manifest_source(answers: &Vec<RepoAnswer>) -> (from: ManifestFrom)
    ensures
        ({
            let k = first_decisive(answers@, 0);
            from == if k < answers@.len() && spec_on_answer(answers@[k]) == RepoStep::UseBody {
                ManifestFrom::Body(k as usize)
            } else {
                ManifestFrom::Cache
            }
        }),
{
    let mut k: usize = 0;
    while k < answers.len()
        invariant
            k <= answers@.len(),
            first_decisive(answers@, 0) == first_decisive(answers@, k as int),
        decreases answers.len() - k,
    {
        match on_answer(answers[k]) {
            RepoStep::UseBody => {
                return ManifestFrom::Body(k);
            },
            RepoStep::UseCache => {
                return ManifestFrom::Cache;
            },
            RepoStep::TryNext => {},
        }
        k = k + 1;
    }
    ManifestFrom::Cache
}

} // verus!

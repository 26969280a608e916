//! The rows that a repository manifest is recorded as.
//!
//! The catalog numbers releases, packages and dependencies as it stores
//! them. Each stage here takes the numbers that the stage before was given
//! and lays out the rows of the next.

use vstd::prelude::*;
use crate::catalog::{with_digest, with_digests};
use crate::common::{Archive, ArchiveEntry, File, SHA256Checksum, Source, SourceFormat};
use crate::db::{Rel, SourceLocation};
use crate::files::{id_of, is_known, lookup};
use crate::fsnebula::structs::{FSNMod, FSNModFile, FSNPackage, FSNZipFile};

verus! {

/// The catalog holds a release with the name and version of `m`.
pub open spec fn is_existing(existing: Seq<Rel>, m: FSNMod) -> bool {
    exists|k: int|
        0 <= k < existing.len() && (#[trigger] existing[k]).name@ == m.id@ && existing[k].version@
            == m.version@
}

/// Whether the catalog holds a release with the name and version of `m`.
fn existing_holds(existing: &Vec<Rel>, m: &FSNMod) -> (found: bool)
    ensures
        found == is_existing(existing@, *m),
{
    let mut k: usize = 0;
    while k < existing.len()
        invariant
            k <= existing@.len(),
            forall|j: int|
                0 <= j < k ==> !((#[trigger] existing@[j]).name@ == m.id@ && existing@[j].version@
                    == m.version@),
        decreases existing.len() - k,
    {
        if existing[k].name == m.id && existing[k].version == m.version {
            return true;
        }
        k = k + 1;
    }
    false
}

/// The places of the releases among the first `n` of a manifest that the
/// catalog does not hold yet, in order.
pub open spec fn new_places(mods: Seq<FSNMod>, existing: Seq<Rel>, n: int) -> Seq<usize>
    decreases n,
{
    if n <= 0 {
        Seq::empty()
    } else if is_existing(existing, mods[n - 1]) {
        new_places(mods, existing, n - 1)
    } else {
        new_places(mods, existing, n - 1).push((n - 1) as usize)
    }
}

/// The places of the releases of a manifest that the catalog does not
/// hold yet: those whose name and version match none of `existing`.
/// Importing a manifest records these and no others.
pub fn new_mods(mods: &Vec<FSNMod>, existing: &Vec<Rel>) -> (places: Vec<usize>)
    ensures
        places@ == new_places(mods@, existing@, mods@.len() as int),
        (forall|i: int| 0 <= i < mods@.len() ==> is_existing(existing@, #[trigger] mods@[i]))
            ==> places@.len() == 0,
{
    proof {
        if forall|i: int| 0 <= i < mods@.len() ==> is_existing(existing@, #[trigger] mods@[i]) {
            lemma_second_import_records_nothing(mods@, existing@, mods@.len() as int);
        }
    }
    let mut places: Vec<usize> = Vec::new();
    let mut i: usize = 0;
    while i < mods.len()
        invariant
            i <= mods@.len(),
            places@ == new_places(mods@, existing@, i as int),
        decreases mods.len() - i,
    {
        if !existing_holds(existing, &mods[i]) {
            places.push(i);
        }
        i = i + 1;
    }
    places
}

/// Where the catalog holds every release of a manifest, as it does once
/// the manifest has been imported, importing the manifest again finds
/// nothing to record.
pub proof fn lemma_second_import_records_nothing(mods: Seq<FSNMod>, after: Seq<Rel>, n: int)
    requires
        0 <= n <= mods.len(),
        forall|i: int| 0 <= i < mods.len() ==> is_existing(after, #[trigger] mods[i]),
    ensures
        new_places(mods, after, n).len() == 0,
    decreases n,
{
    if n > 0 {
        lemma_second_import_records_nothing(mods, after, n - 1);
    }
}

/// After `x` is pushed where `push` holds, the list holds what it held
/// before, and `x` where it was pushed.
proof fn lemma_pushed_text(before: Seq<Seq<char>>, after: Seq<Seq<char>>, x: Seq<char>, push: bool)
    requires
        push ==> after == before.push(x),
        !push ==> after == before,
    ensures
        forall|y: Seq<char>| after.contains(y) <==> before.contains(y) || (push && y == x),
        before.no_duplicates() && !before.contains(x) ==> after.no_duplicates(),
{
    assert forall|y: Seq<char>| after.contains(y) <==> before.contains(y) || (push && y == x) by {
        if push {
            if before.contains(y) {
                let j = choose|j: int| 0 <= j < before.len() && before[j] == y;
                assert(after[j] == y);
            }
            if y == x {
                assert(after[before.len() as int] == x);
            }
        }
    }
}

/// The text of each name of a list, in order.
pub open spec fn texts(names: Seq<String>) -> Seq<Seq<char>> {
    Seq::new(names.len(), |i: int| names[i]@)
}

/// `t` is a name that release `m` uses: its own, that of its parent, or
/// one that it flags.
pub open spec fn names_release(m: FSNMod, t: Seq<char>) -> bool {
    ||| m.id@ == t
    ||| (m.parent matches Some(p) && p@ == t)
    ||| texts(m.mod_flag@).contains(t)
}

/// `t` is a name that one of the first `n` releases uses.
pub open spec fn is_release_name(mods: Seq<FSNMod>, n: int, t: Seq<char>) -> bool {
    exists|i: int| 0 <= i < n && names_release(#[trigger] mods[i], t)
}

/// `names` with `name` put behind it, unless it is there already.
pub open spec fn with_name(names: Seq<Seq<char>>, name: Seq<char>) -> Seq<Seq<char>> {
    if names.contains(name) {
        names
    } else {
        names.push(name)
    }
}

/// `acc` with the first `n` of `names` put behind it, each unless it is
/// there already.
pub open spec fn with_names(acc: Seq<Seq<char>>, names: Seq<Seq<char>>, n: int) -> Seq<Seq<char>>
    decreases n,
{
    if n <= 0 {
        acc
    } else {
        with_name(with_names(acc, names, n - 1), names[n - 1])
    }
}

/// `acc` with the names that a release uses put behind it, each unless it
/// is there already: its own, that of its parent, and those that it flags.
pub open spec fn release_names_into(acc: Seq<Seq<char>>, m: FSNMod) -> Seq<Seq<char>> {
    let own = with_name(acc, m.id@);
    let parent = match m.parent {
        Some(p) => with_name(own, p@),
        None => own,
    };
    with_names(parent, texts(m.mod_flag@), m.mod_flag@.len() as int)
}

/// `acc` with the names that the first `n` releases use put behind it.
pub open spec fn manifest_names_into(acc: Seq<Seq<char>>, mods: Seq<FSNMod>, n: int) -> Seq<Seq<char>>
    decreases n,
{
    if n <= 0 {
        acc
    } else {
        release_names_into(manifest_names_into(acc, mods, n - 1), mods[n - 1])
    }
}

/// Whether `names` holds the text of `name`.
fn holds_text(names: &Vec<String>, name: &String) -> (found: bool)
    ensures
        found == texts(names@).contains(name@),
{
    let mut k: usize = 0;
    while k < names.len()
        invariant
            k <= names@.len(),
            forall|j: int| 0 <= j < k ==> texts(names@)[j] != name@,
        decreases names.len() - k,
    {
        if names[k] == *name {
            assert(texts(names@)[k as int] == name@);
            return true;
        }
        k = k + 1;
    }
    false
}

/// Puts `name` at the end of `names` unless its text is there already.
fn push_new(names: &mut Vec<String>, name: &String)
    requires
        texts(old(names)@).no_duplicates(),
    ensures
        texts(final(names)@) == with_name(texts(old(names)@), name@),
        texts(final(names)@).no_duplicates(),
        forall|t: Seq<char>|
            texts(final(names)@).contains(t) <==> texts(old(names)@).contains(t) || t == name@,
{
    let ghost before = texts(names@);
    let wanted = !holds_text(names, name);
    if wanted {
        names.push(name.clone());
        assert(texts(names@) =~= before.push(name@));
    }
    proof {
        lemma_pushed_text(before, texts(names@), name@, wanted);
    }
}

/// The release names that a manifest uses, each once: the names of its
/// releases, of their parents, and those that they flag.
pub fn release_names(mods: &Vec<FSNMod>) -> (names: Vec<String>)
    ensures
        texts(names@) == manifest_names_into(Seq::empty(), mods@, mods@.len() as int),
        texts(names@).no_duplicates(),
        forall|t: Seq<char>|
            #![trigger texts(names@).contains(t)]
            texts(names@).contains(t) <==> is_release_name(mods@, mods@.len() as int, t),
{
    let mut names: Vec<String> = Vec::new();
    assert(texts(names@) == Seq::<Seq<char>>::empty());
    let mut i: usize = 0;
    while i < mods.len()
        invariant
            i <= mods@.len(),
            texts(names@) == manifest_names_into(Seq::empty(), mods@, i as int),
            texts(names@).no_duplicates(),
            forall|t: Seq<char>|
                #![trigger texts(names@).contains(t)]
                #![trigger is_release_name(mods@, i as int, t)]
                texts(names@).contains(t) <==> is_release_name(mods@, i as int, t),
        decreases mods.len() - i,
    {
        let m = &mods[i];
        let ghost names0 = texts(names@);
        push_new(&mut names, &m.id);
        let ghost names1 = texts(names@);
        match &m.parent {
            Some(p) => {
                push_new(&mut names, p);
            },
            None => {},
        }
        let ghost names2 = texts(names@);
        let mut k: usize = 0;
        while k < m.mod_flag.len()
            invariant
                k <= m.mod_flag@.len(),
                texts(names@) == with_names(names2, texts(m.mod_flag@), k as int),
                texts(names@).no_duplicates(),
                forall|t: Seq<char>|
                    #![trigger texts(names@).contains(t)]
                    texts(names@).contains(t) <==> names2.contains(t) || texts(m.mod_flag@).take(
                        k as int,
                    ).contains(t),
            decreases m.mod_flag.len() - k,
        {
            let ghost names3 = texts(names@);
            push_new(&mut names, &m.mod_flag[k]);
            proof {
                let flags = texts(m.mod_flag@);
                assert(flags.take(k + 1) =~= flags.take(k as int).push(m.mod_flag@[k as int]@));
                lemma_pushed_text(
                    flags.take(k as int),
                    flags.take(k + 1),
                    m.mod_flag@[k as int]@,
                    true,
                );
            }
            k = k + 1;
        }
        proof {
            let flags = texts(m.mod_flag@);
            assert(flags.take(m.mod_flag@.len() as int) == flags);
            assert forall|t: Seq<char>|
                #![trigger texts(names@).contains(t)]
                #![trigger is_release_name(mods@, i + 1, t)]
                texts(names@).contains(t) <==> is_release_name(mods@, i + 1, t) by {
                assert(texts(names@).contains(t) <==> names2.contains(t) || flags.contains(t));
                assert(names1.contains(t) <==> names0.contains(t) || t == m.id@);
                assert(names0.contains(t) <==> is_release_name(mods@, i as int, t));
                if is_release_name(mods@, i as int, t) {
                    let j = choose|j: int| 0 <= j < i && names_release(#[trigger] mods@[j], t);
                    assert(0 <= j < i + 1);
                }
                if is_release_name(mods@, i + 1, t) {
                    let j = choose|j: int| 0 <= j < i + 1 && names_release(#[trigger] mods@[j], t);
                    if j < i {
                        assert(is_release_name(mods@, i as int, t));
                    }
                }
                if names_release(*m, t) {
                    assert(names_release(mods@[i as int], t));
                }
            }
        }
        i = i + 1;
    }
    names
}

/// One child of a numbered parent: the parent's number, its place in the
/// list of parents, and the child's place among the parent's children.
pub type Place = (i64, usize, usize);

/// The children of the first `n` parents, in order: those of the first
/// parent first. `ids[i]` is the number of parent `i`, `counts[i]` the
/// number of its children.
pub open spec fn places_of(ids: Seq<i64>, counts: Seq<usize>, n: int) -> Seq<Place>
    decreases n,
{
    if n <= 0 {
        Seq::empty()
    } else {
        places_of(ids, counts, n - 1) + Seq::new(
            counts[n - 1] as nat,
            |j: int| (ids[n - 1], (n - 1) as usize, j as usize),
        )
    }
}

/// The smaller of two lengths.
pub open spec fn both(a: nat, b: nat) -> int {
    if a <= b {
        a as int
    } else {
        b as int
    }
}

/// Lays out the children of numbered parents as one list. A parent that
/// has no number, or a number that has no parent, contributes nothing.
pub fn flatten_places(ids: &Vec<i64>, counts: &Vec<usize>) -> (places: Vec<Place>)
    ensures
        places@ == places_of(ids@, counts@, both(ids@.len(), counts@.len())),
{
    let n = if ids.len() <= counts.len() {
        ids.len()
    } else {
        counts.len()
    };
    let mut places: Vec<Place> = Vec::new();
    let mut i: usize = 0;
    while i < n
        invariant
            i <= n,
            n == both(ids@.len(), counts@.len()),
            places@ == places_of(ids@, counts@, i as int),
        decreases n - i,
    {
        let ghost done = places@;
        let count = counts[i];
        let mut j: usize = 0;
        while j < count
            invariant
                i < n,
                n == both(ids@.len(), counts@.len()),
                j <= count,
                count == counts@[i as int],
                places@ == done + Seq::new(j as nat, |k: int| (ids@[i as int], i, k as usize)),
            decreases count - j,
        {
            places.push((ids[i], i, j));
            assert(Seq::new((j + 1) as nat, |k: int| (ids@[i as int], i, k as usize)) =~= Seq::new(
                j as nat,
                |k: int| (ids@[i as int], i, k as usize),
            ).push((ids@[i as int], i, j)));
            j = j + 1;
        }
        i = i + 1;
    }
    places
}

/// How many packages each release has.
pub open spec fn package_counts(mods: Seq<FSNMod>) -> Seq<usize> {
    Seq::new(mods.len(), |i: int| mods[i].packages@.len() as usize)
}

/// The packages of a manifest as one list: for each release that was
/// given a number, its packages in order, each with the number of its
/// release, the place of the release and its own place in it.
pub fn package_places(rel_ids: &Vec<i64>, mods: &Vec<FSNMod>) -> (places: Vec<Place>)
    ensures
        places@ == places_of(
            rel_ids@,
            package_counts(mods@),
            both(rel_ids@.len(), mods@.len()),
        ),
{
    let mut counts: Vec<usize> = Vec::new();
    let mut i: usize = 0;
    while i < mods.len()
        invariant
            i <= mods@.len(),
            counts@ == package_counts(mods@).take(i as int),
        decreases mods.len() - i,
    {
        counts.push(mods[i].packages.len());
        assert(package_counts(mods@).take(i + 1) =~= package_counts(mods@).take(i as int).push(
            mods@[i as int].packages@.len() as usize,
        ));
        i = i + 1;
    }
    assert(package_counts(mods@).take(mods@.len() as int) == package_counts(mods@));
    flatten_places(rel_ids, &counts)
}

/// How many dependencies each of `packages` has, where `packages` name
/// packages of `mods` by the place of the release and the place in it.
pub open spec fn dependency_counts(mods: Seq<FSNMod>, packages: Seq<Place>) -> Seq<usize> {
    Seq::new(
        packages.len(),
        |i: int|
            mods[packages[i].1 as int].packages@[packages[i].2 as int].dependencies@.len() as usize,
    )
}

/// The places in `packages` name packages of `mods`.
pub open spec fn places_in(mods: Seq<FSNMod>, packages: Seq<Place>) -> bool {
    forall|i: int|
        0 <= i < packages.len() ==> (#[trigger] packages[i]).1 < mods.len()
            && packages[i].2 < mods[packages[i].1 as int].packages@.len()
}

/// The dependencies of a manifest as one list: for each package that was
/// given a number, its dependencies in order, each with the number of its
/// package, the place of the package in `packages` and its own place in
/// the package.
pub fn dependency_places(pak_ids: &Vec<i64>, mods: &Vec<FSNMod>, packages: &Vec<Place>) -> (places:
    Vec<Place>)
    requires
        places_in(mods@, packages@),
    ensures
        places@ == places_of(
            pak_ids@,
            dependency_counts(mods@, packages@),
            both(pak_ids@.len(), packages@.len()),
        ),
{
    let mut counts: Vec<usize> = Vec::new();
    let mut i: usize = 0;
    while i < packages.len()
        invariant
            i <= packages@.len(),
            places_in(mods@, packages@),
            counts@ == dependency_counts(mods@, packages@).take(i as int),
        decreases packages.len() - i,
    {
        let place = packages[i];
        let count = mods[place.1].packages[place.2].dependencies.len();
        counts.push(count);
        assert(dependency_counts(mods@, packages@).take(i + 1) =~= dependency_counts(
            mods@,
            packages@,
        ).take(i as int).push(count));
        i = i + 1;
    }
    assert(dependency_counts(mods@, packages@).take(packages@.len() as int) == dependency_counts(
        mods@,
        packages@,
    ));
    flatten_places(pak_ids, &counts)
}

/// How many packages each of `dependencies` names, where `dependencies`
/// name dependencies by the place of their package in `packages` and the
/// place in it.
pub open spec fn detail_counts(mods: Seq<FSNMod>, packages: Seq<Place>, dependencies: Seq<Place>) -> Seq<
    usize,
> {
    Seq::new(
        dependencies.len(),
        |i: int|
            {
                let package = packages[dependencies[i].1 as int];
                mods[package.1 as int].packages@[package.2 as int].dependencies@[dependencies[i].2 as int].packages@.len() as usize
            },
    )
}

/// The places in `dependencies` name dependencies of `packages`.
pub open spec fn dependencies_in(mods: Seq<FSNMod>, packages: Seq<Place>, dependencies: Seq<Place>) -> bool {
    forall|i: int|
        0 <= i < dependencies.len() ==> (#[trigger] dependencies[i]).1 < packages.len()
            && dependencies[i].2 < mods[packages[dependencies[i].1 as int].1 as int].packages@[packages[dependencies[i].1 as int].2 as int].dependencies@.len()
}

/// The packages that the dependencies of a manifest name, as one list:
/// for each dependency that was given a number, the names in order, each
/// with the number of its dependency, the place of the dependency in
/// `dependencies` and its own place in the dependency.
pub fn detail_places(
    dep_ids: &Vec<i64>,
    mods: &Vec<FSNMod>,
    packages: &Vec<Place>,
    dependencies: &Vec<Place>,
) -> (places: Vec<Place>)
    requires
        places_in(mods@, packages@),
        dependencies_in(mods@, packages@, dependencies@),
    ensures
        places@ == places_of(
            dep_ids@,
            detail_counts(mods@, packages@, dependencies@),
            both(dep_ids@.len(), dependencies@.len()),
        ),
{
    let ghost all = detail_counts(mods@, packages@, dependencies@);
    let mut counts: Vec<usize> = Vec::new();
    let mut i: usize = 0;
    while i < dependencies.len()
        invariant
            i <= dependencies@.len(),
            places_in(mods@, packages@),
            dependencies_in(mods@, packages@, dependencies@),
            all == detail_counts(mods@, packages@, dependencies@),
            counts@ == all.take(i as int),
        decreases dependencies.len() - i,
    {
        let dep = dependencies[i];
        let package = packages[dep.1];
        let count = mods[package.1].packages[package.2].dependencies[dep.2].packages.len();
        counts.push(count);
        assert(all.take(i + 1) =~= all.take(i as int).push(count));
        i = i + 1;
    }
    assert(all.take(dependencies@.len() as int) == all);
    flatten_places(dep_ids, &counts)
}

/// After `x` is pushed where `push` holds, the list holds what it held
/// before, and `x` where it was pushed.
proof fn lemma_pushed_bytes(before: Seq<Seq<u8>>, after: Seq<Seq<u8>>, x: Seq<u8>, push: bool)
    requires
        push ==> after == before.push(x),
        !push ==> after == before,
    ensures
        forall|y: Seq<u8>| after.contains(y) <==> before.contains(y) || (push && y == x),
        before.no_duplicates() && !before.contains(x) ==> after.no_duplicates(),
{
    assert forall|y: Seq<u8>| after.contains(y) <==> before.contains(y) || (push && y == x) by {
        if push {
            if before.contains(y) {
                let j = choose|j: int| 0 <= j < before.len() && before[j] == y;
                assert(after[j] == y);
            }
            if y == x {
                assert(after[before.len() as int] == x);
            }
        }
    }
}

/// The bytes of each digest of a list, in order.
pub open spec fn digest_bytes(digests: Seq<SHA256Checksum>) -> Seq<Seq<u8>> {
    Seq::new(digests.len(), |i: int| digests[i]@)
}

/// `d` is the digest of one of the first `n` files of a package's file
/// list.
pub open spec fn is_file_digest(package: FSNPackage, n: int, d: Seq<u8>) -> bool {
    exists|k: int| 0 <= k < n && (#[trigger] package.filelist@[k]).checksum@ == d
}

/// `d` is the digest of one of the first `n` archives of a package.
pub open spec fn is_archive_digest(package: FSNPackage, n: int, d: Seq<u8>) -> bool {
    exists|k: int| 0 <= k < n && (#[trigger] package.files@[k]).checksum@ == d
}

/// `d` is the digest of a file or of an archive of the package.
pub open spec fn is_package_digest(package: FSNPackage, d: Seq<u8>) -> bool {
    is_file_digest(package, package.filelist@.len() as int, d) || is_archive_digest(
        package,
        package.files@.len() as int,
        d,
    )
}

/// `d` is the digest of a file or of an archive of one of the first `n`
/// packages of a release.
pub open spec fn is_release_digest(m: FSNMod, n: int, d: Seq<u8>) -> bool {
    exists|k: int| 0 <= k < n && is_package_digest(#[trigger] m.packages@[k], d)
}

/// `d` is the digest of a file or of an archive of one of the first `n`
/// releases.
pub open spec fn is_manifest_digest(mods: Seq<FSNMod>, n: int, d: Seq<u8>) -> bool {
    exists|i: int|
        0 <= i < n && is_release_digest(#[trigger] mods[i], mods[i].packages@.len() as int, d)
}

/// The digests of the files of a package, in order.
pub open spec fn file_sums(package: FSNPackage) -> Seq<Seq<u8>> {
    Seq::new(package.filelist@.len(), |k: int| package.filelist@[k].checksum@)
}

/// The digests of the archives of a package, in order.
pub open spec fn archive_sums(package: FSNPackage) -> Seq<Seq<u8>> {
    Seq::new(package.files@.len(), |k: int| package.files@[k].checksum@)
}

/// `acc` with the digests of a package put behind it, each unless it is
/// there already: those of its files, then those of its archives.
pub open spec fn package_sums_into(acc: Seq<Seq<u8>>, package: FSNPackage) -> Seq<Seq<u8>> {
    let files = with_digests(acc, file_sums(package), file_sums(package).len() as int);
    with_digests(files, archive_sums(package), archive_sums(package).len() as int)
}

/// `acc` with the digests of the first `n` packages of a release put
/// behind it.
pub open spec fn release_sums_into(acc: Seq<Seq<u8>>, m: FSNMod, n: int) -> Seq<Seq<u8>>
    decreases n,
{
    if n <= 0 {
        acc
    } else {
        package_sums_into(release_sums_into(acc, m, n - 1), m.packages@[n - 1])
    }
}

/// `acc` with the digests of the first `n` releases put behind it.
pub open spec fn manifest_sums_into(acc: Seq<Seq<u8>>, mods: Seq<FSNMod>, n: int) -> Seq<Seq<u8>>
    decreases n,
{
    if n <= 0 {
        acc
    } else {
        release_sums_into(
            manifest_sums_into(acc, mods, n - 1),
            mods[n - 1],
            mods[n - 1].packages@.len() as int,
        )
    }
}

/// Whether `digests` holds the bytes of `digest`.
fn holds_digest(digests: &Vec<SHA256Checksum>, digest: &SHA256Checksum) -> (found: bool)
    ensures
        found == digest_bytes(digests@).contains(digest@),
{
    let mut k: usize = 0;
    while k < digests.len()
        invariant
            k <= digests@.len(),
            forall|j: int| 0 <= j < k ==> digest_bytes(digests@)[j] != digest@,
        decreases digests.len() - k,
    {
        if digests[k].same_as(digest) {
            assert(digest_bytes(digests@)[k as int] == digest@);
            return true;
        }
        k = k + 1;
    }
    false
}

/// Puts `digest` at the end of `digests` unless its bytes are there
/// already.
fn push_new_digest(digests: &mut Vec<SHA256Checksum>, digest: &SHA256Checksum)
    requires
        digest_bytes(old(digests)@).no_duplicates(),
    ensures
        digest_bytes(final(digests)@) == with_digest(digest_bytes(old(digests)@), digest@),
        digest_bytes(final(digests)@).no_duplicates(),
        forall|d: Seq<u8>|
            digest_bytes(final(digests)@).contains(d) <==> digest_bytes(old(digests)@).contains(d)
                || d == digest@,
{
    let ghost before = digest_bytes(digests@);
    let wanted = !holds_digest(digests, digest);
    if wanted {
        digests.push(digest.clone());
        assert(digest_bytes(digests@) =~= before.push(digest@));
    }
    proof {
        lemma_pushed_bytes(before, digest_bytes(digests@), digest@, wanted);
    }
}

/// Adds the digests of the files and of the archives of one package.
pub fn add_package_digests(digests: &mut Vec<SHA256Checksum>, package: &FSNPackage)
    requires
        digest_bytes(old(digests)@).no_duplicates(),
    ensures
        digest_bytes(final(digests)@) == package_sums_into(digest_bytes(old(digests)@), *package),
        digest_bytes(final(digests)@).no_duplicates(),
        forall|d: Seq<u8>|
            #![trigger digest_bytes(final(digests)@).contains(d)]
            digest_bytes(final(digests)@).contains(d) <==> digest_bytes(old(digests)@).contains(d)
                || is_package_digest(*package, d),
{
    let ghost start = digest_bytes(digests@);
    let mut k: usize = 0;
    while k < package.filelist.len()
        invariant
            k <= package.filelist@.len(),
            digest_bytes(digests@) == with_digests(start, file_sums(*package), k as int),
            digest_bytes(digests@).no_duplicates(),
            forall|d: Seq<u8>|
                #![trigger digest_bytes(digests@).contains(d)]
                #![trigger is_file_digest(*package, k as int, d)]
                digest_bytes(digests@).contains(d) <==> start.contains(d) || is_file_digest(
                    *package,
                    k as int,
                    d,
                ),
        decreases package.filelist.len() - k,
    {
        let ghost before = digest_bytes(digests@);
        push_new_digest(digests, &package.filelist[k].checksum);
        proof {
            let x = package.filelist@[k as int].checksum@;
            assert forall|d: Seq<u8>|
                #![trigger digest_bytes(digests@).contains(d)]
                #![trigger is_file_digest(*package, k + 1, d)]
                digest_bytes(digests@).contains(d) <==> start.contains(d) || is_file_digest(
                    *package,
                    k + 1,
                    d,
                ) by {
                assert(before.contains(d) <==> start.contains(d) || is_file_digest(
                    *package,
                    k as int,
                    d,
                ));
                if is_file_digest(*package, k as int, d) {
                    let j = choose|j: int|
                        0 <= j < k && (#[trigger] package.filelist@[j]).checksum@ == d;
                    assert(0 <= j < k + 1);
                }
                if is_file_digest(*package, k + 1, d) {
                    let j = choose|j: int|
                        0 <= j < k + 1 && (#[trigger] package.filelist@[j]).checksum@ == d;
                    if j < k {
                        assert(is_file_digest(*package, k as int, d));
                    }
                }
                if d == x {
                    assert(package.filelist@[k as int].checksum@ == d);
                }
            }
        }
        k = k + 1;
    }
    let ghost middle = digest_bytes(digests@);
    let mut k: usize = 0;
    while k < package.files.len()
        invariant
            k <= package.files@.len(),
            middle == with_digests(start, file_sums(*package), file_sums(*package).len() as int),
            digest_bytes(digests@) == with_digests(middle, archive_sums(*package), k as int),
            digest_bytes(digests@).no_duplicates(),
            forall|d: Seq<u8>|
                #![trigger digest_bytes(digests@).contains(d)]
                #![trigger is_archive_digest(*package, k as int, d)]
                digest_bytes(digests@).contains(d) <==> middle.contains(d) || is_archive_digest(
                    *package,
                    k as int,
                    d,
                ),
        decreases package.files.len() - k,
    {
        let ghost before = digest_bytes(digests@);
        push_new_digest(digests, &package.files[k].checksum);
        proof {
            let x = package.files@[k as int].checksum@;
            assert forall|d: Seq<u8>|
                #![trigger digest_bytes(digests@).contains(d)]
                #![trigger is_archive_digest(*package, k + 1, d)]
                digest_bytes(digests@).contains(d) <==> middle.contains(d) || is_archive_digest(
                    *package,
                    k + 1,
                    d,
                ) by {
                assert(before.contains(d) <==> middle.contains(d) || is_archive_digest(
                    *package,
                    k as int,
                    d,
                ));
                if is_archive_digest(*package, k as int, d) {
                    let j = choose|j: int|
                        0 <= j < k && (#[trigger] package.files@[j]).checksum@ == d;
                    assert(0 <= j < k + 1);
                }
                if is_archive_digest(*package, k + 1, d) {
                    let j = choose|j: int|
                        0 <= j < k + 1 && (#[trigger] package.files@[j]).checksum@ == d;
                    if j < k {
                        assert(is_archive_digest(*package, k as int, d));
                    }
                }
                if d == x {
                    assert(package.files@[k as int].checksum@ == d);
                }
            }
        }
        k = k + 1;
    }
    proof {
        assert forall|d: Seq<u8>|
            #![trigger digest_bytes(digests@).contains(d)]
            digest_bytes(digests@).contains(d) <==> start.contains(d) || is_package_digest(
                *package,
                d,
            ) by {
            assert(middle.contains(d) <==> start.contains(d) || is_file_digest(
                *package,
                package.filelist@.len() as int,
                d,
            ));
            assert(digest_bytes(digests@).contains(d) <==> middle.contains(d) || is_archive_digest(
                *package,
                package.files@.len() as int,
                d,
            ));
        }
    }
}

/// The digests that a manifest names, each once: those of the files and of
/// the archives of every package.
pub fn collect_hashes(mods: &Vec<FSNMod>) -> (digests: Vec<SHA256Checksum>)
    ensures
        digest_bytes(digests@) == manifest_sums_into(Seq::empty(), mods@, mods@.len() as int),
        digest_bytes(digests@).no_duplicates(),
        forall|d: Seq<u8>|
            #![trigger digest_bytes(digests@).contains(d)]
            digest_bytes(digests@).contains(d) <==> is_manifest_digest(
                mods@,
                mods@.len() as int,
                d,
            ),
{
    let mut digests: Vec<SHA256Checksum> = Vec::new();
    assert(digest_bytes(digests@) == Seq::<Seq<u8>>::empty());
    let mut i: usize = 0;
    while i < mods.len()
        invariant
            i <= mods@.len(),
            digest_bytes(digests@) == manifest_sums_into(Seq::empty(), mods@, i as int),
            digest_bytes(digests@).no_duplicates(),
            forall|d: Seq<u8>|
                #![trigger digest_bytes(digests@).contains(d)]
                #![trigger is_manifest_digest(mods@, i as int, d)]
                digest_bytes(digests@).contains(d) <==> is_manifest_digest(mods@, i as int, d),
        decreases mods.len() - i,
    {
        let m = &mods[i];
        let ghost start = digest_bytes(digests@);
        let mut k: usize = 0;
        while k < m.packages.len()
            invariant
                k <= m.packages@.len(),
                digest_bytes(digests@) == release_sums_into(start, *m, k as int),
                digest_bytes(digests@).no_duplicates(),
                forall|d: Seq<u8>|
                    #![trigger digest_bytes(digests@).contains(d)]
                    #![trigger is_release_digest(*m, k as int, d)]
                    digest_bytes(digests@).contains(d) <==> start.contains(d) || is_release_digest(
                        *m,
                        k as int,
                        d,
                    ),
            decreases m.packages.len() - k,
        {
            let ghost before = digest_bytes(digests@);
            add_package_digests(&mut digests, &m.packages[k]);
            proof {
                let p = m.packages@[k as int];
                assert forall|d: Seq<u8>|
                    #![trigger digest_bytes(digests@).contains(d)]
                    #![trigger is_release_digest(*m, k + 1, d)]
                    digest_bytes(digests@).contains(d) <==> start.contains(d) || is_release_digest(
                        *m,
                        k + 1,
                        d,
                    ) by {
                    assert(digest_bytes(digests@).contains(d) <==> before.contains(d)
                        || is_package_digest(p, d));
                    assert(before.contains(d) <==> start.contains(d) || is_release_digest(
                        *m,
                        k as int,
                        d,
                    ));
                    if is_release_digest(*m, k as int, d) {
                        let j = choose|j: int|
                            0 <= j < k && is_package_digest(#[trigger] m.packages@[j], d);
                        assert(0 <= j < k + 1);
                    }
                    if is_release_digest(*m, k + 1, d) {
                        let j = choose|j: int|
                            0 <= j < k + 1 && is_package_digest(#[trigger] m.packages@[j], d);
                        if j < k {
                            assert(is_release_digest(*m, k as int, d));
                        }
                    }
                    if is_package_digest(p, d) {
                        assert(is_package_digest(m.packages@[k as int], d));
                    }
                }
            }
            k = k + 1;
        }
        proof {
            assert forall|d: Seq<u8>|
                #![trigger digest_bytes(digests@).contains(d)]
                #![trigger is_manifest_digest(mods@, i + 1, d)]
                digest_bytes(digests@).contains(d) <==> is_manifest_digest(mods@, i + 1, d) by {
                assert(digest_bytes(digests@).contains(d) <==> start.contains(d)
                    || is_release_digest(*m, m.packages@.len() as int, d));
                assert(start.contains(d) <==> is_manifest_digest(mods@, i as int, d));
                if is_manifest_digest(mods@, i as int, d) {
                    let j = choose|j: int|
                        0 <= j < i && is_release_digest(
                            #[trigger] mods@[j],
                            mods@[j].packages@.len() as int,
                            d,
                        );
                    assert(0 <= j < i + 1);
                }
                if is_manifest_digest(mods@, i + 1, d) {
                    let j = choose|j: int|
                        0 <= j < i + 1 && is_release_digest(
                            #[trigger] mods@[j],
                            mods@[j].packages@.len() as int,
                            d,
                        );
                    if j < i {
                        assert(is_manifest_digest(mods@, i as int, d));
                    }
                }
                if is_release_digest(*m, m.packages@.len() as int, d) {
                    assert(is_release_digest(mods@[i as int], mods@[i as int].packages@.len() as int, d));
                }
            }
        }
        i = i + 1;
    }
    digests
}

/// The rows that one package adds to the catalog.
#[derive(Debug)]
pub struct PackageRows {
    /// Where each file of the package lands.
    pub files: Vec<File>,
    /// Where each archive of the package can be fetched from.
    pub sources: Vec<Source>,
    /// Which archive holds each file, and at what path.
    pub entries: Vec<ArchiveEntry>,
}

/// The catalog knows the digest of every file and archive of the package.
pub open spec fn digests_known(package: FSNPackage, known: Seq<(SHA256Checksum, i64)>) -> bool {
    &&& forall|k: int|
        0 <= k < package.files@.len() ==> is_known(known, (#[trigger] package.files@[k]).checksum@)
    &&& forall|k: int|
        0 <= k < package.filelist@.len() ==> is_known(
            known,
            (#[trigger] package.filelist@[k]).checksum@,
        )
}

/// The blob IDs that `known` gives, by digest.
pub open spec fn known_ids(known: Seq<(SHA256Checksum, i64)>) -> Map<Seq<u8>, i64> {
    Map::new(|d: Seq<u8>| is_known(known, d), |d: Seq<u8>| id_of(known, d))
}

/// The remote source that the address at place `k` of an archive gives:
/// the archive is fetched whole, as a 7-zip archive of the size declared.
pub open spec fn source_row(archive: FSNZipFile, ids: Map<Seq<u8>, i64>, k: int) -> Source {
    Source {
        location: SourceLocation::FSN,
        path: archive.urls@[k],
        h_id: ids[archive.checksum@],
        size: archive.filesize,
        format: SourceFormat::SevenZip,
    }
}

/// The sources of the first `n` archives of a package, in order: one for
/// each address of each archive.
pub open spec fn source_rows(package: FSNPackage, ids: Map<Seq<u8>, i64>, n: int) -> Seq<Source>
    decreases n,
{
    if n <= 0 {
        Seq::empty()
    } else {
        source_rows(package, ids, n - 1) + Seq::new(
            package.files@[n - 1].urls@.len(),
            |k: int| source_row(package.files@[n - 1], ids, k),
        )
    }
}

/// Where the file at place `k` of the file list lands.
pub open spec fn file_row(p_id: i64, file: FSNModFile, ids: Map<Seq<u8>, i64>) -> File {
    File { p_id, h_id: ids[file.checksum@], filepath: file.filename }
}

/// Where each of the first `n` files of a package lands.
pub open spec fn file_rows(p_id: i64, package: FSNPackage, ids: Map<Seq<u8>, i64>, n: int) -> Seq<File> {
    Seq::new(n as nat, |k: int| file_row(p_id, package.filelist@[k], ids))
}

/// The place of the last archive among the first `upto` that is called
/// `name`, or -1 where none is.
pub open spec fn archive_place(archives: Seq<FSNZipFile>, name: Seq<char>, upto: int) -> int
    decreases upto,
{
    if upto <= 0 {
        -1
    } else if archives[upto - 1].filename@ == name {
        upto - 1
    } else {
        archive_place(archives, name, upto - 1)
    }
}

/// The edge that puts a file of the file list into the archive at place
/// `at`.
pub open spec fn entry_row(package: FSNPackage, ids: Map<Seq<u8>, i64>, file: FSNModFile, at: int) -> ArchiveEntry {
    ArchiveEntry {
        file_id: ids[file.checksum@],
        file_path: file.orig_name,
        archive_id: ids[package.files@[at].checksum@],
        archive_type: Archive::SevenZip,
    }
}

/// The containment edges of the first `n` files of a package, in order:
/// one for each file whose archive the package names.
pub open spec fn entry_rows(package: FSNPackage, ids: Map<Seq<u8>, i64>, n: int) -> Seq<ArchiveEntry>
    decreases n,
{
    if n <= 0 {
        Seq::empty()
    } else {
        let file = package.filelist@[n - 1];
        let at = archive_place(package.files@, file.archive@, package.files@.len() as int);
        if at >= 0 {
            entry_rows(package, ids, n - 1).push(entry_row(package, ids, file, at))
        } else {
            entry_rows(package, ids, n - 1)
        }
    }
}

/// The place of the last archive called `name`.
fn find_archive(archives: &Vec<FSNZipFile>, name: &String) -> (place: Option<usize>)
    ensures
        place is Some <==> archive_place(archives@, name@, archives@.len() as int) >= 0,
        place matches Some(k) ==> k == archive_place(archives@, name@, archives@.len() as int) && k
            < archives@.len(),
{
    let mut upto: usize = archives.len();
    while upto > 0
        invariant
            upto <= archives@.len(),
            archive_place(archives@, name@, archives@.len() as int) == archive_place(
                archives@,
                name@,
                upto as int,
            ),
        decreases upto,
    {
        if archives[upto - 1].filename == *name {
            return Some(upto - 1);
        }
        upto = upto - 1;
    }
    None
}

/// The rows that the package numbered `p_id` adds to the catalog, given
/// the blob IDs that the catalog has for the digests of the manifest.
///
/// Every address of every archive becomes a remote source of the archive's
/// blob. Every file of the file list lands at its name, and sits in the
/// archive that it names at the name it has there. Fails with the first digest
/// that `known` lacks, archives first.
pub fn package_rows(p_id: i64, package: &FSNPackage, known: &Vec<(SHA256Checksum, i64)>) -> (res:
    Result<PackageRows, SHA256Checksum>)
    ensures
        res is Ok <==> digests_known(*package, known@),
        res matches Ok(rows) ==> {
            &&& rows.sources@ == source_rows(
                *package,
                known_ids(known@),
                package.files@.len() as int,
            )
            &&& rows.files@ == file_rows(
                p_id,
                *package,
                known_ids(known@),
                package.filelist@.len() as int,
            )
            &&& rows.entries@ == entry_rows(
                *package,
                known_ids(known@),
                package.filelist@.len() as int,
            )
        },
        res matches Err(d) ==> !is_known(known@, d@) && is_package_digest(*package, d@),
{
    let mut sources: Vec<Source> = Vec::new();
    let mut n: usize = 0;
    while n < package.files.len()
        invariant
            n <= package.files@.len(),
            forall|k: int|
                0 <= k < n ==> is_known(known@, (#[trigger] package.files@[k]).checksum@),
            sources@ == source_rows(*package, known_ids(known@), n as int),
        decreases package.files.len() - n,
    {
        let archive = &package.files[n];
        let h_id = match lookup(known, &archive.checksum) {
            Some(id) => id,
            None => {
                assert(is_archive_digest(*package, package.files@.len() as int, archive.checksum@));
                return Err(archive.checksum.clone());
            },
        };
        let ghost done = sources@;
        assert(known_ids(known@)[archive.checksum@] == h_id);
        let mut k: usize = 0;
        while k < archive.urls.len()
            invariant
                k <= archive.urls@.len(),
                h_id == known_ids(known@)[archive.checksum@],
                sources@ == done + Seq::new(
                    k as nat,
                    |j: int| source_row(*archive, known_ids(known@), j),
                ),
            decreases archive.urls.len() - k,
        {
            sources.push(
                Source {
                    location: SourceLocation::FSN,
                    path: archive.urls[k].clone(),
                    h_id,
                    size: archive.filesize,
                    format: SourceFormat::SevenZip,
                },
            );
            assert(Seq::new(
                (k + 1) as nat,
                |j: int| source_row(*archive, known_ids(known@), j),
            ) =~= Seq::new(k as nat, |j: int| source_row(*archive, known_ids(known@), j)).push(
                source_row(*archive, known_ids(known@), k as int),
            ));
            k = k + 1;
        }
        n = n + 1;
    }
    let mut files: Vec<File> = Vec::new();
    let mut entries: Vec<ArchiveEntry> = Vec::new();
    let mut n: usize = 0;
    while n < package.filelist.len()
        invariant
            n <= package.filelist@.len(),
            forall|k: int|
                0 <= k < package.files@.len() ==> is_known(
                    known@,
                    (#[trigger] package.files@[k]).checksum@,
                ),
            forall|k: int|
                0 <= k < n ==> is_known(known@, (#[trigger] package.filelist@[k]).checksum@),
            files@ == file_rows(p_id, *package, known_ids(known@), n as int),
            entries@ == entry_rows(*package, known_ids(known@), n as int),
        decreases package.filelist.len() - n,
    {
        let file = &package.filelist[n];
        let h_id = match lookup(known, &file.checksum) {
            Some(id) => id,
            None => {
                assert(is_file_digest(*package, package.filelist@.len() as int, file.checksum@));
                return Err(file.checksum.clone());
            },
        };
        assert(known_ids(known@)[file.checksum@] == h_id);
        files.push(File { p_id, h_id, filepath: file.filename.clone() });
        assert(files@ =~= file_rows(p_id, *package, known_ids(known@), n + 1));
        match find_archive(&package.files, &file.archive) {
            Some(at) => {
                let archive_id = match lookup(known, &package.files[at].checksum) {
                    Some(id) => id,
                    None => {
                        proof {
                            assert(is_known(known@, package.files@[at as int].checksum@));
                        }
                        return Err(file.checksum.clone());
                    },
                };
                assert(known_ids(known@)[package.files@[at as int].checksum@] == archive_id);
                entries.push(
                    ArchiveEntry {
                        file_id: h_id,
                        file_path: file.orig_name.clone(),
                        archive_id,
                        archive_type: Archive::SevenZip,
                    },
                );
            },
            None => {},
        }
        n = n + 1;
    }
    Ok(PackageRows { files, sources, entries })
}

} // verus!

//! Recording the releases of a manifest in the catalog.

use vstd::prelude::*;
use crate::catalog::{
    Catalog, CatalogView, digest_place, lemma_digest_place, release_list, with_all_entries,
    with_digests, with_sources,
};
use crate::common::{
    ArchiveEntry, DependencyRow, File, PackageRow, Release, SHA256Checksum, Source,
};
use crate::db::{Rel, RelType};
use crate::files::{FileAcquisitionError, is_known, known_at};
use crate::fsnebula::db::{
    add_package_digests, digest_bytes, digests_known, entry_rows, file_rows, is_archive_digest,
    is_existing, is_file_digest, is_package_digest, known_ids, manifest_sums_into, new_mods,
    new_places, package_rows, release_sums_into, source_rows,
};
use crate::fsnebula::structs::{FSNDependency, FSNMod, FSNPackage, FSNRelType, release_type};

verus! {

/// The releases that stand at `places` in a manifest, in that order.
pub open spec fn selected(mods: Seq<FSNMod>, places: Seq<usize>) -> Seq<FSNMod> {
    Seq::new(places.len(), |k: int| mods[places[k] as int])
}

/// Every place is the place of a release of the manifest.
pub open spec fn places_valid(mods: Seq<FSNMod>, places: Seq<usize>) -> bool {
    forall|k: int| 0 <= k < places.len() ==> (#[trigger] places[k]) < mods.len()
}

/// The blob IDs of a list of digests, by digest: the digest at place `i`
/// has the blob ID `i + 1`.
pub open spec fn digest_ids(digests: Seq<Seq<u8>>) -> Map<Seq<u8>, i64> {
    Map::new(
        |d: Seq<u8>| digests.contains(d),
        |d: Seq<u8>| (digest_place(digests, d, 0) + 1) as i64,
    )
}

/// `acc` with the sources of a package recorded.
pub open spec fn package_sources_into(acc: Seq<Source>, package: FSNPackage, ids: Map<Seq<u8>, i64>) -> Seq<
    Source,
> {
    let rows = source_rows(package, ids, package.files@.len() as int);
    with_sources(acc, rows, rows.len() as int)
}

/// `acc` with the sources of the first `n` packages of a release recorded.
pub open spec fn release_sources_into(acc: Seq<Source>, m: FSNMod, ids: Map<Seq<u8>, i64>, n: int) -> Seq<
    Source,
>
    decreases n,
{
    if n <= 0 {
        acc
    } else {
        package_sources_into(release_sources_into(acc, m, ids, n - 1), m.packages@[n - 1], ids)
    }
}

/// `acc` with the sources of the first `n` releases recorded.
pub open spec fn manifest_sources_into(
    acc: Seq<Source>,
    mods: Seq<FSNMod>,
    ids: Map<Seq<u8>, i64>,
    n: int,
) -> Seq<Source>
    decreases n,
{
    if n <= 0 {
        acc
    } else {
        release_sources_into(
            manifest_sources_into(acc, mods, ids, n - 1),
            mods[n - 1],
            ids,
            mods[n - 1].packages@.len() as int,
        )
    }
}

/// `acc` with the containment edges of a package recorded.
pub open spec fn package_entries_into(
    acc: Seq<ArchiveEntry>,
    package: FSNPackage,
    ids: Map<Seq<u8>, i64>,
) -> Seq<ArchiveEntry> {
    let rows = entry_rows(package, ids, package.filelist@.len() as int);
    with_all_entries(acc, rows, rows.len() as int)
}

/// `acc` with the containment edges of the first `n` packages of a release
/// recorded.
pub open spec fn release_entries_into(
    acc: Seq<ArchiveEntry>,
    m: FSNMod,
    ids: Map<Seq<u8>, i64>,
    n: int,
) -> Seq<ArchiveEntry>
    decreases n,
{
    if n <= 0 {
        acc
    } else {
        package_entries_into(release_entries_into(acc, m, ids, n - 1), m.packages@[n - 1], ids)
    }
}

/// `acc` with the containment edges of the first `n` releases recorded.
pub open spec fn manifest_entries_into(
    acc: Seq<ArchiveEntry>,
    mods: Seq<FSNMod>,
    ids: Map<Seq<u8>, i64>,
    n: int,
) -> Seq<ArchiveEntry>
    decreases n,
{
    if n <= 0 {
        acc
    } else {
        release_entries_into(
            manifest_entries_into(acc, mods, ids, n - 1),
            mods[n - 1],
            ids,
            mods[n - 1].packages@.len() as int,
        )
    }
}

/// No archive of the package declares a negative size.
pub open spec fn package_sizes_declared(package: FSNPackage) -> bool {
    forall|a: int| 0 <= a < package.files@.len() ==> (#[trigger] package.files@[a]).filesize >= 0
}

/// No archive of the releases declares a negative size.
pub open spec fn sizes_declared(mods: Seq<FSNMod>) -> bool {
    forall|i: int, p: int|
        0 <= i < mods.len() && 0 <= p < mods[i].packages@.len() ==> package_sizes_declared(
            #[trigger] mods[i].packages@[p],
        )
}

/// The kind of release that a kind of mod is recorded as.
pub open spec fn spec_release_type(mod_type: FSNRelType) -> RelType {
    match mod_type {
        FSNRelType::Engine => RelType::Build,
        FSNRelType::Mod => RelType::Mod,
        FSNRelType::TC => RelType::TC,
    }
}

/// The row that records a release under the number `rel_id`.
pub open spec fn release_row(rel_id: i64, m: FSNMod) -> Release {
    Release {
        rel_id,
        name: m.id,
        version: m.version,
        rel_type: spec_release_type(m.mod_type),
        date: m.last_update,
        private: m.private,
    }
}

/// The rows that record a list of releases, the first under the number
/// `first + 1`.
pub open spec fn release_rows(first: int, mods: Seq<FSNMod>) -> Seq<Release> {
    Seq::new(mods.len(), |k: int| release_row((first + k + 1) as i64, mods[k]))
}

/// The row that records a package of the release `rel_id` under the
/// number `p_id`.
pub open spec fn package_row(p_id: i64, rel_id: i64, package: FSNPackage) -> PackageRow {
    PackageRow {
        p_id,
        rel_id,
        name: package.name,
        notes: package.notes,
        status: package.status,
        environment: package.environment,
        folder: package.folder,
        is_vp: package.is_vp,
    }
}

/// The rows that record the packages of a release, the first under the
/// number `first + 1`.
pub open spec fn release_packages(first: int, rel_id: i64, m: FSNMod) -> Seq<PackageRow> {
    Seq::new(
        m.packages@.len(),
        |j: int| package_row((first + j + 1) as i64, rel_id, m.packages@[j]),
    )
}

/// `acc` with the packages of the first `n` releases recorded. The
/// releases are numbered from `first_rel + 1`, and each package gets the
/// number of its place in the table.
pub open spec fn manifest_packages_into(acc: Seq<PackageRow>, first_rel: int, mods: Seq<FSNMod>, n: int) -> Seq<
    PackageRow,
>
    decreases n,
{
    if n <= 0 {
        acc
    } else {
        let before = manifest_packages_into(acc, first_rel, mods, n - 1);
        before + release_packages(before.len() as int, (first_rel + n) as i64, mods[n - 1])
    }
}

/// The row that records a dependency of the package `p_id` under the
/// number `id`.
pub open spec fn dependency_row(id: i64, p_id: i64, d: FSNDependency) -> DependencyRow {
    DependencyRow { id, p_id, modname: d.id, version: d.version }
}

/// The rows that record the dependencies of a package, the first under
/// the number `first + 1`.
pub open spec fn package_dependencies(first: int, p_id: i64, package: FSNPackage) -> Seq<DependencyRow> {
    Seq::new(
        package.dependencies@.len(),
        |j: int| dependency_row((first + j + 1) as i64, p_id, package.dependencies@[j]),
    )
}

/// `acc` with the dependencies of the first `n` packages of a release
/// recorded. The packages are numbered from `first_pak + 1`.
pub open spec fn release_dependencies_into(acc: Seq<DependencyRow>, first_pak: int, m: FSNMod, n: int) -> Seq<
    DependencyRow,
>
    decreases n,
{
    if n <= 0 {
        acc
    } else {
        let before = release_dependencies_into(acc, first_pak, m, n - 1);
        before + package_dependencies(
            before.len() as int,
            (first_pak + n) as i64,
            m.packages@[n - 1],
        )
    }
}

/// How many packages the first `n` releases have.
pub open spec fn package_total(mods: Seq<FSNMod>, n: int) -> int
    decreases n,
{
    if n <= 0 {
        0
    } else {
        package_total(mods, n - 1) + mods[n - 1].packages@.len()
    }
}

/// How many dependencies the first `n` packages of a release have.
pub open spec fn release_dependency_total(m: FSNMod, n: int) -> int
    decreases n,
{
    if n <= 0 {
        0
    } else {
        release_dependency_total(m, n - 1) + m.packages@[n - 1].dependencies@.len()
    }
}

/// How many dependencies the packages of the first `n` releases have.
pub open spec fn dependency_total(mods: Seq<FSNMod>, n: int) -> int
    decreases n,
{
    if n <= 0 {
        0
    } else {
        dependency_total(mods, n - 1) + release_dependency_total(
            mods[n - 1],
            mods[n - 1].packages@.len() as int,
        )
    }
}

/// `acc` with the dependencies of the first `n` releases recorded. The
/// packages of the releases are numbered from `first_pak + 1`.
pub open spec fn manifest_dependencies_into(
    acc: Seq<DependencyRow>,
    first_pak: int,
    mods: Seq<FSNMod>,
    n: int,
) -> Seq<DependencyRow>
    decreases n,
{
    if n <= 0 {
        acc
    } else {
        release_dependencies_into(
            manifest_dependencies_into(acc, first_pak, mods, n - 1),
            first_pak + package_total(mods, n - 1),
            mods[n - 1],
            mods[n - 1].packages@.len() as int,
        )
    }
}

/// `acc` with the places where the files of the first `n` packages of a
/// release land. The packages are numbered from `first_pak + 1`.
pub open spec fn release_files_into(acc: Seq<File>, first_pak: int, m: FSNMod, ids: Map<Seq<u8>, i64>, n: int) -> Seq<
    File,
>
    decreases n,
{
    if n <= 0 {
        acc
    } else {
        release_files_into(acc, first_pak, m, ids, n - 1) + file_rows(
            (first_pak + n) as i64,
            m.packages@[n - 1],
            ids,
            m.packages@[n - 1].filelist@.len() as int,
        )
    }
}

/// `acc` with the places where the files of the first `n` releases land.
/// The packages of the releases are numbered from `first_pak + 1`.
pub open spec fn manifest_files_into(
    acc: Seq<File>,
    first_pak: int,
    mods: Seq<FSNMod>,
    ids: Map<Seq<u8>, i64>,
    n: int,
) -> Seq<File>
    decreases n,
{
    if n <= 0 {
        acc
    } else {
        release_files_into(
            manifest_files_into(acc, first_pak, mods, ids, n - 1),
            first_pak + package_total(mods, n - 1),
            mods[n - 1],
            ids,
            mods[n - 1].packages@.len() as int,
        )
    }
}

/// The tables of releases have room for the releases `mods`, their
/// packages and the dependencies of those: each can be numbered.
pub open spec fn has_room_for(view: CatalogView, mods: Seq<FSNMod>) -> bool {
    &&& view.releases.len() + mods.len() <= 0x7fff_ffff_ffff_ffff
    &&& view.packages.len() + package_total(mods, mods.len() as int) <= 0x7fff_ffff_ffff_ffff
    &&& view.dependencies.len() + dependency_total(mods, mods.len() as int)
        <= 0x7fff_ffff_ffff_ffff
}

/// The tables of releases after the releases `mods` have been recorded,
/// with the blob IDs `ids` for the digests of their files.
pub open spec fn with_releases(view: CatalogView, mods: Seq<FSNMod>, ids: Map<Seq<u8>, i64>) -> CatalogView {
    CatalogView {
        releases: view.releases + release_rows(view.releases.len() as int, mods),
        packages: manifest_packages_into(
            view.packages,
            view.releases.len() as int,
            mods,
            mods.len() as int,
        ),
        dependencies: manifest_dependencies_into(
            view.dependencies,
            view.packages.len() as int,
            mods,
            mods.len() as int,
        ),
        files: manifest_files_into(
            view.files,
            view.packages.len() as int,
            mods,
            ids,
            mods.len() as int,
        ),
        ..view
    }
}

/// The counts of packages and dependencies grow with the releases that
/// are counted.
proof fn lemma_totals_grow(mods: Seq<FSNMod>, k: int, n: int)
    requires
        0 <= k <= n,
    ensures
        0 <= package_total(mods, k) <= package_total(mods, n),
        0 <= dependency_total(mods, k) <= dependency_total(mods, n),
    decreases n,
{
    if k < n {
        lemma_totals_grow(mods, k, n - 1);
        lemma_release_total_grows(mods[n - 1], 0, mods[n - 1].packages@.len() as int);
    } else if n > 0 {
        lemma_totals_grow(mods, k - 1, n - 1);
        lemma_release_total_grows(mods[n - 1], 0, mods[n - 1].packages@.len() as int);
    }
}

/// The count of dependencies grows with the packages that are counted.
proof fn lemma_release_total_grows(m: FSNMod, p: int, n: int)
    requires
        0 <= p <= n,
    ensures
        0 <= release_dependency_total(m, p) <= release_dependency_total(m, n),
    decreases n,
{
    if p < n {
        lemma_release_total_grows(m, p, n - 1);
    } else if n > 0 {
        lemma_release_total_grows(m, p - 1, n - 1);
    }
}

/// A table of packages grows by one row for each package.
proof fn lemma_packages_len(acc: Seq<PackageRow>, first_rel: int, mods: Seq<FSNMod>, n: int)
    requires
        0 <= n,
    ensures
        manifest_packages_into(acc, first_rel, mods, n).len() == acc.len() + package_total(mods, n),
    decreases n,
{
    if n > 0 {
        lemma_packages_len(acc, first_rel, mods, n - 1);
    }
}

/// A table of dependencies grows by one row for each dependency.
proof fn lemma_release_dependencies_len(acc: Seq<DependencyRow>, first_pak: int, m: FSNMod, n: int)
    requires
        0 <= n,
    ensures
        release_dependencies_into(acc, first_pak, m, n).len() == acc.len()
            + release_dependency_total(m, n),
    decreases n,
{
    if n > 0 {
        lemma_release_dependencies_len(acc, first_pak, m, n - 1);
    }
}

/// A table of dependencies grows by one row for each dependency.
proof fn lemma_dependencies_len(acc: Seq<DependencyRow>, first_pak: int, mods: Seq<FSNMod>, n: int)
    requires
        0 <= n,
    ensures
        manifest_dependencies_into(acc, first_pak, mods, n).len() == acc.len() + dependency_total(
            mods,
            n,
        ),
    decreases n,
{
    if n > 0 {
        lemma_dependencies_len(acc, first_pak, mods, n - 1);
        lemma_release_dependencies_len(
            manifest_dependencies_into(acc, first_pak, mods, n - 1),
            first_pak + package_total(mods, n - 1),
            mods[n - 1],
            mods[n - 1].packages@.len() as int,
        );
    }
}

/// Where the files of a package land is the same with two tables of blob
/// IDs that agree on the digests of the package.
proof fn lemma_files_agree(p_id: i64, package: FSNPackage, a: Map<Seq<u8>, i64>, b: Map<Seq<u8>, i64>)
    requires
        forall|d: Seq<u8>| is_package_digest(package, d) ==> a[d] == b[d],
    ensures
        file_rows(p_id, package, a, package.filelist@.len() as int) == file_rows(
            p_id,
            package,
            b,
            package.filelist@.len() as int,
        ),
{
    let n = package.filelist@.len() as int;
    assert forall|k: int| 0 <= k < n implies a[package.filelist@[k].checksum@]
        == b[package.filelist@[k].checksum@] by {
        assert(is_file_digest(package, n, package.filelist@[k].checksum@));
    }
    assert(file_rows(p_id, package, a, n) =~= file_rows(p_id, package, b, n));
}

/// Whether no archive of the releases at `places` declares a negative
/// size.
fn sizes_ok(mods: &Vec<FSNMod>, places: &Vec<usize>) -> (ok: bool)
    requires
        places_valid(mods@, places@),
    ensures
        ok == sizes_declared(selected(mods@, places@)),
{
    let ghost sel = selected(mods@, places@);
    let mut k: usize = 0;
    while k < places.len()
        invariant
            k <= places@.len(),
            places_valid(mods@, places@),
            sel == selected(mods@, places@),
            forall|i: int, p: int|
                0 <= i < k && 0 <= p < sel[i].packages@.len() ==> package_sizes_declared(
                    #[trigger] sel[i].packages@[p],
                ),
        decreases places.len() - k,
    {
        let m = &mods[places[k]];
        assert(sel[k as int] == *m);
        let mut p: usize = 0;
        while p < m.packages.len()
            invariant
                p <= m.packages@.len(),
                k < places@.len(),
                sel == selected(mods@, places@),
                sel[k as int] == *m,
                forall|q: int| 0 <= q < p ==> package_sizes_declared(#[trigger] m.packages@[q]),
            decreases m.packages.len() - p,
        {
            let package = &m.packages[p];
            let mut a: usize = 0;
            while a < package.files.len()
                invariant
                    a <= package.files@.len(),
                    p < m.packages@.len(),
                    k < places@.len(),
                    sel == selected(mods@, places@),
                    sel[k as int] == *m,
                    *package == m.packages@[p as int],
                    forall|b: int| 0 <= b < a ==> (#[trigger] package.files@[b]).filesize >= 0,
                decreases package.files.len() - a,
            {
                if package.files[a].filesize < 0 {
                    assert(!package_sizes_declared(sel[k as int].packages@[p as int]));
                    return false;
                }
                a = a + 1;
            }
            p = p + 1;
        }
        k = k + 1;
    }
    true
}

/// The digests that the releases at `places` name, each once, with the
/// digests of each package among them.
fn collect_hashes_at(mods: &Vec<FSNMod>, places: &Vec<usize>) -> (digests: Vec<SHA256Checksum>)
    requires
        places_valid(mods@, places@),
    ensures
        digest_bytes(digests@) == manifest_sums_into(
            Seq::empty(),
            selected(mods@, places@),
            places@.len() as int,
        ),
        digest_bytes(digests@).no_duplicates(),
        forall|i: int, p: int, d: Seq<u8>|
            0 <= i < places@.len() && 0 <= p < selected(mods@, places@)[i].packages@.len()
                && is_package_digest(
                #[trigger] selected(mods@, places@)[i].packages@[p],
                d,
            ) ==> #[trigger] digest_bytes(digests@).contains(d),
{
    let ghost sel = selected(mods@, places@);
    let mut digests: Vec<SHA256Checksum> = Vec::new();
    assert(digest_bytes(digests@) == Seq::<Seq<u8>>::empty());
    let mut k: usize = 0;
    while k < places.len()
        invariant
            k <= places@.len(),
            places_valid(mods@, places@),
            sel == selected(mods@, places@),
            digest_bytes(digests@) == manifest_sums_into(Seq::empty(), sel, k as int),
            digest_bytes(digests@).no_duplicates(),
            forall|i: int, p: int, d: Seq<u8>|
                0 <= i < k && 0 <= p < sel[i].packages@.len() && is_package_digest(
                    #[trigger] sel[i].packages@[p],
                    d,
                ) ==> #[trigger] digest_bytes(digests@).contains(d),
        decreases places.len() - k,
    {
        let m = &mods[places[k]];
        assert(sel[k as int] == *m);
        let ghost start = digest_bytes(digests@);
        let mut p: usize = 0;
        while p < m.packages.len()
            invariant
                p <= m.packages@.len(),
                k < places@.len(),
                sel == selected(mods@, places@),
                sel[k as int] == *m,
                digest_bytes(digests@) == release_sums_into(start, *m, p as int),
                digest_bytes(digests@).no_duplicates(),
                forall|d: Seq<u8>| start.contains(d) ==> #[trigger] digest_bytes(digests@).contains(d),
                forall|q: int, d: Seq<u8>|
                    0 <= q < p && is_package_digest(#[trigger] m.packages@[q], d)
                        ==> #[trigger] digest_bytes(digests@).contains(d),
            decreases m.packages.len() - p,
        {
            add_package_digests(&mut digests, &m.packages[p]);
            p = p + 1;
        }
        k = k + 1;
    }
    digests
}

/// Each digest of a list with the blob ID that stands at its place.
fn pair_up(hashes: &Vec<SHA256Checksum>, ids: &Vec<i64>) -> (known: Vec<(SHA256Checksum, i64)>)
    requires
        hashes@.len() == ids@.len(),
    ensures
        known@.len() == hashes@.len(),
        forall|k: int|
            0 <= k < known@.len() ==> (#[trigger] known@[k]).0@ == hashes@[k]@ && known@[k].1
                == ids@[k],
{
    let mut known: Vec<(SHA256Checksum, i64)> = Vec::new();
    let mut k: usize = 0;
    while k < hashes.len()
        invariant
            k <= hashes@.len(),
            hashes@.len() == ids@.len(),
            known@.len() == k,
            forall|j: int|
                0 <= j < k ==> (#[trigger] known@[j]).0@ == hashes@[j]@ && known@[j].1 == ids@[j],
        decreases hashes.len() - k,
    {
        known.push((hashes[k].clone(), ids[k]));
        k = k + 1;
    }
    known
}

/// The place at which a digest is found among pairs is the first place
/// where it stands.
proof fn lemma_known_at(known: Seq<(SHA256Checksum, i64)>, digest: Seq<u8>, from: int)
    requires
        0 <= from <= known.len(),
    ensures
        from <= known_at(known, digest, from) <= known.len(),
        known_at(known, digest, from) < known.len() ==> known[known_at(known, digest, from)].0@
            == digest,
        forall|k: int| from <= k < known_at(known, digest, from) ==> known[k].0@ != digest,
    decreases known.len() - from,
{
    if from < known.len() && known[from].0@ != digest {
        lemma_known_at(known, digest, from + 1);
    }
}

/// Pairs that give each of their digests its blob ID give the blob IDs of
/// the catalog.
proof fn lemma_known_ids(known: Seq<(SHA256Checksum, i64)>, digests: Seq<Seq<u8>>, d: Seq<u8>)
    requires
        forall|k: int|
            0 <= k < known.len() ==> digests.contains((#[trigger] known[k]).0@) && known[k].1
                == digest_ids(digests)[known[k].0@],
        exists|k: int| 0 <= k < known.len() && (#[trigger] known[k]).0@ == d,
    ensures
        is_known(known, d),
        known_ids(known).contains_key(d),
        known_ids(known)[d] == digest_ids(digests)[d],
        digests.contains(d),
{
    lemma_known_at(known, d, 0);
    let k = choose|k: int| 0 <= k < known.len() && (#[trigger] known[k]).0@ == d;
    let at = known_at(known, d, 0);
    assert(at <= k);
    assert(known[at].0@ == d);
}

/// Rows laid out with two tables of blob IDs are the same where the tables
/// agree on the digests of the package.
proof fn lemma_rows_agree(package: FSNPackage, a: Map<Seq<u8>, i64>, b: Map<Seq<u8>, i64>, n: int, m: int)
    requires
        0 <= n <= package.files@.len(),
        0 <= m <= package.filelist@.len(),
        forall|d: Seq<u8>| is_package_digest(package, d) ==> a[d] == b[d],
    ensures
        source_rows(package, a, n) == source_rows(package, b, n),
        entry_rows(package, a, m) == entry_rows(package, b, m),
    decreases n + m,
{
    if n > 0 {
        lemma_rows_agree(package, a, b, n - 1, 0);
        let archive = package.files@[n - 1];
        assert(is_archive_digest(package, package.files@.len() as int, archive.checksum@));
        assert(Seq::new(archive.urls@.len(), |k: int| crate::fsnebula::db::source_row(archive, a, k))
            =~= Seq::new(archive.urls@.len(), |k: int| crate::fsnebula::db::source_row(archive, b, k)));
    }
    if m > 0 {
        lemma_rows_agree(package, a, b, 0, m - 1);
        let file = package.filelist@[m - 1];
        assert(is_file_digest(package, package.filelist@.len() as int, file.checksum@));
        let at = crate::fsnebula::db::archive_place(
            package.files@,
            file.archive@,
            package.files@.len() as int,
        );
        if at >= 0 {
            lemma_archive_place(package, file.archive@, package.files@.len() as int);
            assert(is_archive_digest(
                package,
                package.files@.len() as int,
                package.files@[at].checksum@,
            ));
        }
    }
}

/// The place of an archive is a place of the package.
proof fn lemma_archive_place(package: FSNPackage, name: Seq<char>, upto: int)
    requires
        0 <= upto <= package.files@.len(),
    ensures
        crate::fsnebula::db::archive_place(package.files@, name, upto) < upto,
        crate::fsnebula::db::archive_place(package.files@, name, upto) >= -1,
    decreases upto,
{
    if upto > 0 && package.files@[upto - 1].filename@ != name {
        lemma_archive_place(package, name, upto - 1);
    }
}

/// The places that `new_places` lists are places of the manifest, and
/// every release that the catalog lacks stands at one of them.
proof fn lemma_new_places(mods: Seq<FSNMod>, existing: Seq<Rel>, n: int)
    requires
        0 <= n <= mods.len(),
        mods.len() <= usize::MAX,
    ensures
        forall|k: int|
            0 <= k < new_places(mods, existing, n).len() ==> (#[trigger] new_places(
                mods,
                existing,
                n,
            )[k]) < n,
        forall|i: int|
            0 <= i < n && !is_existing(existing, #[trigger] mods[i]) ==> new_places(
                mods,
                existing,
                n,
            ).contains(i as usize),
    decreases n,
{
    if n > 0 {
        lemma_new_places(mods, existing, n - 1);
        let before = new_places(mods, existing, n - 1);
        let after = new_places(mods, existing, n);
        assert forall|i: int|
            0 <= i < n && !is_existing(existing, #[trigger] mods[i]) implies after.contains(
            i as usize,
        ) by {
            if i < n - 1 {
                assert(before.contains(i as usize));
                let j = choose|j: int| 0 <= j < before.len() && before[j] == i as usize;
                assert(after[j] == i as usize);
            } else {
                assert(after[before.len() as int] == i as usize);
            }
        }
    }
}

/// The catalog knows the digests of a package, under the blob IDs of
/// `table`.
pub open spec fn package_known(
    package: FSNPackage,
    known: Seq<(SHA256Checksum, i64)>,
    table: Map<Seq<u8>, i64>,
) -> bool {
    &&& digests_known(package, known)
    &&& forall|d: Seq<u8>| is_package_digest(package, d) ==> known_ids(known)[d] == table[d]
}

/// The catalog knows the digests of every package of the releases.
pub open spec fn rows_known(
    mods: Seq<FSNMod>,
    known: Seq<(SHA256Checksum, i64)>,
    table: Map<Seq<u8>, i64>,
) -> bool {
    forall|i: int, p: int|
        0 <= i < mods.len() && 0 <= p < mods[i].packages@.len() ==> package_known(
            #[trigger] mods[i].packages@[p],
            known,
            table,
        )
}

/// A copy of an optional text.
fn copy_optional(text: &Option<String>) -> (copy: Option<String>)
    ensures
        copy == *text,
{
    match text {
        Some(t) => Some(t.clone()),
        None => None,
    }
}

/// Whether the tables of releases have room for the releases at `places`.
fn room_for(catalog: &Catalog, mods: &Vec<FSNMod>, places: &Vec<usize>) -> (ok: bool)
    requires
        catalog@.releases_valid(),
        places_valid(mods@, places@),
    ensures
        ok == has_room_for(catalog@, selected(mods@, places@)),
{
    let ghost fresh = selected(mods@, places@);
    let ghost count = places@.len() as int;
    let counts = catalog.release_counts();
    let limit: u64 = 0x7fff_ffff_ffff_ffff;
    if places.len() as u64 > limit - counts.0 as u64 {
        return false;
    }
    let mut paks: u64 = counts.1 as u64;
    let mut deps: u64 = counts.2 as u64;
    let mut k: usize = 0;
    while k < places.len()
        invariant
            k <= places@.len(),
            count == places@.len(),
            limit == 0x7fff_ffff_ffff_ffff,
            places_valid(mods@, places@),
            fresh == selected(mods@, places@),
            paks == catalog@.packages.len() + package_total(fresh, k as int),
            deps == catalog@.dependencies.len() + dependency_total(fresh, k as int),
            paks <= limit,
            deps <= limit,
        decreases places.len() - k,
    {
        let m = &mods[places[k]];
        assert(fresh[k as int] == *m);
        proof {
            lemma_totals_grow(fresh, k + 1, count);
            lemma_totals_grow(fresh, k as int, k + 1);
        }
        let n = m.packages.len() as u64;
        if n > limit - paks {
            return false;
        }
        paks = paks + n;
        let ghost deps0 = deps;
        let mut p: usize = 0;
        while p < m.packages.len()
            invariant
                p <= m.packages@.len(),
                k < places@.len(),
                count == places@.len(),
                limit == 0x7fff_ffff_ffff_ffff,
                fresh == selected(mods@, places@),
                fresh[k as int] == *m,
                deps0 == catalog@.dependencies.len() + dependency_total(fresh, k as int),
                deps == deps0 + release_dependency_total(*m, p as int),
                deps <= limit,
                dependency_total(fresh, k + 1) <= dependency_total(fresh, count),
            decreases m.packages.len() - p,
        {
            proof {
                lemma_release_total_grows(*m, p + 1, m.packages@.len() as int);
            }
            let d = m.packages[p].dependencies.len() as u64;
            if d > limit - deps {
                return false;
            }
            deps = deps + d;
            p = p + 1;
        }
        k = k + 1;
    }
    true
}

/// Records the releases at `places`, their packages, the dependencies of
/// those, and where their files land.
fn record_releases(
    catalog: &mut Catalog,
    mods: &Vec<FSNMod>,
    places: &Vec<usize>,
    known: &Vec<(SHA256Checksum, i64)>,
)
    requires
        old(catalog)@.releases_valid(),
        places_valid(mods@, places@),
        has_room_for(old(catalog)@, selected(mods@, places@)),
        rows_known(selected(mods@, places@), known@, digest_ids(old(catalog)@.digests)),
    ensures
        final(catalog)@.releases_valid(),
        final(catalog)@.digests == old(catalog)@.digests,
        final(catalog)@.sources == old(catalog)@.sources,
        final(catalog)@.entries == old(catalog)@.entries,
        final(catalog)@ == with_releases(
            old(catalog)@,
            selected(mods@, places@),
            digest_ids(old(catalog)@.digests),
        ),
{
    let ghost fresh = selected(mods@, places@);
    let ghost count = places@.len() as int;
    let ghost start = catalog@;
    let ghost table = digest_ids(start.digests);
    let ghost first_rel = start.releases.len() as int;
    let ghost first_pak = start.packages.len() as int;
    let ghost first_dep = start.dependencies.len() as int;
    assert(release_rows(first_rel, fresh).take(0) =~= Seq::<Release>::empty());
    assert(start.releases + Seq::<Release>::empty() =~= start.releases);
    let mut k: usize = 0;
    while k < places.len()
        invariant
            k <= places@.len(),
            count == places@.len(),
            places_valid(mods@, places@),
            fresh == selected(mods@, places@),
            table == digest_ids(start.digests),
            first_rel == start.releases.len(),
            first_pak == start.packages.len(),
            first_dep == start.dependencies.len(),
            has_room_for(start, fresh),
            rows_known(fresh, known@, table),
            catalog@.releases_valid(),
            catalog@.digests == start.digests,
            catalog@.sources == start.sources,
            catalog@.entries == start.entries,
            catalog@.releases == start.releases + release_rows(first_rel, fresh).take(k as int),
            catalog@.packages == manifest_packages_into(start.packages, first_rel, fresh, k as int),
            catalog@.dependencies == manifest_dependencies_into(
                start.dependencies,
                first_pak,
                fresh,
                k as int,
            ),
            catalog@.files == manifest_files_into(start.files, first_pak, fresh, table, k as int),
        decreases places.len() - k,
    {
        let m = &mods[places[k]];
        assert(fresh[k as int] == *m);
        proof {
            lemma_totals_grow(fresh, k + 1, count);
            lemma_totals_grow(fresh, k as int, k + 1);
            lemma_packages_len(start.packages, first_rel, fresh, k as int);
            lemma_dependencies_len(start.dependencies, first_pak, fresh, k as int);
        }
        let ghost held = catalog@;
        let rel_id = catalog.insert_release(
            m.id.clone(),
            m.version.clone(),
            release_type(m.mod_type),
            m.last_update.clone(),
            m.private,
        );
        proof {
            assert(rel_id == (first_rel + k + 1) as i64);
            assert(release_rows(first_rel, fresh).take(k + 1) =~= release_rows(first_rel, fresh).take(
                k as int,
            ).push(release_row(rel_id, *m)));
            assert(catalog@.releases =~= start.releases + release_rows(first_rel, fresh).take(k + 1));
        }
        let ghost pak_k = first_pak + package_total(fresh, k as int);
        let ghost dep_k = first_dep + dependency_total(fresh, k as int);
        assert(release_packages(pak_k, rel_id, *m).take(0) =~= Seq::<PackageRow>::empty());
        assert(held.packages + Seq::<PackageRow>::empty() =~= held.packages);
        let mut p: usize = 0;
        while p < m.packages.len()
            invariant
                p <= m.packages@.len(),
                k < places@.len(),
                count == places@.len(),
                fresh == selected(mods@, places@),
                fresh[k as int] == *m,
                table == digest_ids(start.digests),
                rows_known(fresh, known@, table),
                pak_k == first_pak + package_total(fresh, k as int),
                dep_k == first_dep + dependency_total(fresh, k as int),
                pak_k == held.packages.len(),
                dep_k == held.dependencies.len(),
                pak_k + m.packages@.len() <= 0x7fff_ffff_ffff_ffff,
                dep_k + release_dependency_total(*m, m.packages@.len() as int)
                    <= 0x7fff_ffff_ffff_ffff,
                1 <= rel_id <= catalog@.releases.len(),
                catalog@.releases_valid(),
                catalog@.digests == start.digests,
                catalog@.sources == start.sources,
                catalog@.entries == start.entries,
                catalog@.releases == start.releases + release_rows(first_rel, fresh).take(k + 1),
                catalog@.packages == held.packages + release_packages(pak_k, rel_id, *m).take(
                    p as int,
                ),
                catalog@.dependencies == release_dependencies_into(
                    held.dependencies,
                    pak_k,
                    *m,
                    p as int,
                ),
                catalog@.files == release_files_into(held.files, pak_k, *m, table, p as int),
            decreases m.packages.len() - p,
        {
            let package = &m.packages[p];
            assert(fresh[k as int].packages@[p as int] == *package);
            assert(package_known(*package, known@, table));
            proof {
                lemma_release_total_grows(*m, p + 1, m.packages@.len() as int);
                lemma_release_total_grows(*m, p as int, p + 1);
                lemma_release_dependencies_len(held.dependencies, pak_k, *m, p as int);
                lemma_files_agree((pak_k + p + 1) as i64, *package, known_ids(known@), table);
            }
            let ghost rows_p = catalog@.packages;
            let ghost deps_p = catalog@.dependencies;
            let p_id = catalog.insert_package(
                rel_id,
                package.name.clone(),
                package.notes.clone(),
                package.status.clone(),
                copy_optional(&package.environment),
                copy_optional(&package.folder),
                package.is_vp,
            );
            proof {
                assert(p_id == (pak_k + p + 1) as i64);
                assert(release_packages(pak_k, rel_id, *m).take(p + 1) =~= release_packages(
                    pak_k,
                    rel_id,
                    *m,
                ).take(p as int).push(package_row(p_id, rel_id, *package)));
                assert(catalog@.packages =~= held.packages + release_packages(
                    pak_k,
                    rel_id,
                    *m,
                ).take(p + 1));
                assert(package_dependencies(deps_p.len() as int, p_id, *package).take(0)
                    =~= Seq::<DependencyRow>::empty());
                assert(deps_p + Seq::<DependencyRow>::empty() =~= deps_p);
            }
            let mut d: usize = 0;
            while d < package.dependencies.len()
                invariant
                    d <= package.dependencies@.len(),
                    deps_p.len() + package.dependencies@.len() <= 0x7fff_ffff_ffff_ffff,
                    1 <= p_id <= catalog@.packages.len(),
                    catalog@.releases_valid(),
                    catalog@.digests == start.digests,
                    catalog@.sources == start.sources,
                    catalog@.entries == start.entries,
                    catalog@.releases == start.releases + release_rows(first_rel, fresh).take(k + 1),
                    catalog@.packages == held.packages + release_packages(pak_k, rel_id, *m).take(
                        p + 1,
                    ),
                    catalog@.files == release_files_into(held.files, pak_k, *m, table, p as int),
                    catalog@.dependencies == deps_p + package_dependencies(
                        deps_p.len() as int,
                        p_id,
                        *package,
                    ).take(d as int),
                decreases package.dependencies.len() - d,
            {
                let dependency = &package.dependencies[d];
                let id = catalog.insert_dependency(
                    p_id,
                    dependency.id.clone(),
                    copy_optional(&dependency.version),
                );
                proof {
                    let all = package_dependencies(deps_p.len() as int, p_id, *package);
                    assert(all.take(d + 1) =~= all.take(d as int).push(
                        dependency_row(id, p_id, *dependency),
                    ));
                    assert(catalog@.dependencies =~= deps_p + all.take(d + 1));
                }
                d = d + 1;
            }
            proof {
                let all = package_dependencies(deps_p.len() as int, p_id, *package);
                assert(all.take(package.dependencies@.len() as int) =~= all);
            }
            let files = match package_rows(p_id, package, known) {
                Ok(rows) => rows.files,
                Err(_) => {
                    proof {
                        assert(false);
                    }
                    Vec::new()
                },
            };
            catalog.insert_files(files);
            p = p + 1;
        }
        proof {
            let all = release_packages(pak_k, rel_id, *m);
            assert(all.take(m.packages@.len() as int) =~= all);
        }
        k = k + 1;
    }
    proof {
        assert(release_rows(first_rel, fresh).take(count) =~= release_rows(first_rel, fresh));
        assert(catalog@ =~= with_releases(start, fresh, table));
    }
}

/// Records the releases that stand at `places` in a manifest: a row for
/// each release, for each of its packages and for each dependency of
/// those, the digests that they name, a remote source for each address of
/// each archive, an edge for each file that sits in an archive of its
/// package, and where each file lands.
///
/// Either everything is recorded or nothing. Fails with `CatalogFailure`
/// exactly when an archive declares a negative size, or the catalog cannot
/// number that many releases, packages, dependencies or blobs.
pub fn commit_mods(catalog: &mut Catalog, mods: &Vec<FSNMod>, places: &Vec<usize>) -> (res: Result<
    (),
    FileAcquisitionError,
>)
    requires
        old(catalog)@.valid(),
        old(catalog)@.releases_valid(),
        places_valid(mods@, places@),
    ensures
        final(catalog)@.valid(),
        final(catalog)@.releases_valid(),
        res is Err ==> final(catalog)@ == old(catalog)@,
        res matches Err(e) ==> e is CatalogFailure,
        ({
            let fresh = selected(mods@, places@);
            let sums = manifest_sums_into(Seq::empty(), fresh, fresh.len() as int);
            let ids = digest_ids(final(catalog)@.digests);
            &&& res is Ok <==> sizes_declared(fresh) && has_room_for(old(catalog)@, fresh) && old(
                catalog,
            )@.digests.len() + sums.len() <= 0x7fff_ffff_ffff_ffff
            &&& res is Ok ==> {
                &&& final(catalog)@.digests == with_digests(
                    old(catalog)@.digests,
                    sums,
                    sums.len() as int,
                )
                &&& final(catalog)@.sources == manifest_sources_into(
                    old(catalog)@.sources,
                    fresh,
                    ids,
                    fresh.len() as int,
                )
                &&& final(catalog)@.entries == manifest_entries_into(
                    old(catalog)@.entries,
                    fresh,
                    ids,
                    fresh.len() as int,
                )
                &&& final(catalog)@.same_releases(with_releases(old(catalog)@, fresh, ids))
            }
        }),
{
    let ghost fresh = selected(mods@, places@);
    if !sizes_ok(mods, places) {
        return Err(FileAcquisitionError::CatalogFailure("negative size".to_owned()));
    }
    if !room_for(catalog, mods, places) {
        return Err(FileAcquisitionError::CatalogFailure("too many releases".to_owned()));
    }
    let hashes = collect_hashes_at(mods, places);
    let ghost sums = digest_bytes(hashes@);
    assert(sums == crate::catalog::bytes_of(hashes@));
    let ids = match catalog.upsert_digests(&hashes) {
        Ok(ids) => ids,
        Err(e) => {
            return Err(e);
        },
    };
    let known = pair_up(&hashes, &ids);
    let ghost numbered = catalog@;
    let ghost table = digest_ids(numbered.digests);
    proof {
        assert forall|k: int| 0 <= k < known@.len() implies numbered.digests.contains(
            (#[trigger] known@[k]).0@,
        ) && known@[k].1 == table[known@[k].0@] by {
            assert(numbered.digests[ids@[k] - 1] == hashes@[k]@);
        }
    }
    proof {
        assert forall|i: int, p: int|
            0 <= i < fresh.len() && 0 <= p < fresh[i].packages@.len() implies package_known(
            #[trigger] fresh[i].packages@[p],
            known@,
            table,
        ) by {
            let package = fresh[i].packages@[p];
            assert forall|d: Seq<u8>| is_package_digest(package, d) implies is_known(known@, d)
                && known_ids(known@)[d] == table[d] by {
                assert(sums.contains(d));
                let j = choose|j: int| 0 <= j < sums.len() && sums[j] == d;
                assert(known@[j].0@ == d);
                lemma_known_ids(known@, numbered.digests, d);
            }
            assert forall|a: int| 0 <= a < package.files@.len() implies is_known(
                known@,
                (#[trigger] package.files@[a]).checksum@,
            ) by {
                assert(is_archive_digest(
                    package,
                    package.files@.len() as int,
                    package.files@[a].checksum@,
                ));
                assert(is_package_digest(package, package.files@[a].checksum@));
            }
            assert forall|f: int| 0 <= f < package.filelist@.len() implies is_known(
                known@,
                (#[trigger] package.filelist@[f]).checksum@,
            ) by {
                assert(is_file_digest(
                    package,
                    package.filelist@.len() as int,
                    package.filelist@[f].checksum@,
                ));
                assert(is_package_digest(package, package.filelist@[f].checksum@));
            }
        }
        assert(rows_known(fresh, known@, table));
    }
    let mut k: usize = 0;
    while k < places.len()
        invariant
            k <= places@.len(),
            places_valid(mods@, places@),
            fresh == selected(mods@, places@),
            sizes_declared(fresh),
            catalog@.valid(),
            catalog@.same_releases(old(catalog)@),
            catalog@.digests == numbered.digests,
            table == digest_ids(numbered.digests),
            sums == digest_bytes(hashes@),
            known@.len() == hashes@.len(),
            forall|j: int| 0 <= j < known@.len() ==> (#[trigger] known@[j]).0@ == hashes@[j]@,
            forall|j: int|
                0 <= j < known@.len() ==> numbered.digests.contains((#[trigger] known@[j]).0@)
                    && known@[j].1 == table[known@[j].0@],
            forall|i: int, p: int, d: Seq<u8>|
                0 <= i < places@.len() && 0 <= p < fresh[i].packages@.len() && is_package_digest(
                    #[trigger] fresh[i].packages@[p],
                    d,
                ) ==> #[trigger] sums.contains(d),
            catalog@.sources == manifest_sources_into(old(catalog)@.sources, fresh, table, k as int),
            catalog@.entries == manifest_entries_into(old(catalog)@.entries, fresh, table, k as int),
        decreases places.len() - k,
    {
        let m = &mods[places[k]];
        assert(fresh[k as int] == *m);
        let ghost sources0 = catalog@.sources;
        let ghost entries0 = catalog@.entries;
        let mut p: usize = 0;
        while p < m.packages.len()
            invariant
                p <= m.packages@.len(),
                k < places@.len(),
                fresh == selected(mods@, places@),
                fresh[k as int] == *m,
                sizes_declared(fresh),
                catalog@.valid(),
                catalog@.same_releases(old(catalog)@),
                catalog@.digests == numbered.digests,
                table == digest_ids(numbered.digests),
                sums == digest_bytes(hashes@),
                known@.len() == hashes@.len(),
                forall|j: int| 0 <= j < known@.len() ==> (#[trigger] known@[j]).0@ == hashes@[j]@,
                forall|j: int|
                    0 <= j < known@.len() ==> numbered.digests.contains((#[trigger] known@[j]).0@)
                        && known@[j].1 == table[known@[j].0@],
                forall|i: int, q: int, d: Seq<u8>|
                    0 <= i < places@.len() && 0 <= q < fresh[i].packages@.len()
                        && is_package_digest(#[trigger] fresh[i].packages@[q], d)
                        ==> #[trigger] sums.contains(d),
                catalog@.sources == release_sources_into(sources0, *m, table, p as int),
                catalog@.entries == release_entries_into(entries0, *m, table, p as int),
            decreases m.packages.len() - p,
        {
            let package = &m.packages[p];
            assert(fresh[k as int].packages@[p as int] == *package);
            proof {
                assert forall|d: Seq<u8>| is_package_digest(*package, d) implies is_known(known@, d)
                    && known_ids(known@)[d] == table[d] && numbered.digests.contains(d) by {
                    assert(sums.contains(d));
                    let j = choose|j: int| 0 <= j < sums.len() && sums[j] == d;
                    assert(known@[j].0@ == d);
                    lemma_known_ids(known@, numbered.digests, d);
                }
                assert(crate::fsnebula::db::digests_known(*package, known@)) by {
                    assert forall|a: int| 0 <= a < package.files@.len() implies is_known(
                        known@,
                        (#[trigger] package.files@[a]).checksum@,
                    ) by {
                        assert(is_archive_digest(
                            *package,
                            package.files@.len() as int,
                            package.files@[a].checksum@,
                        ));
                        assert(is_package_digest(*package, package.files@[a].checksum@));
                    }
                    assert forall|f: int| 0 <= f < package.filelist@.len() implies is_known(
                        known@,
                        (#[trigger] package.filelist@[f]).checksum@,
                    ) by {
                        assert(is_file_digest(
                            *package,
                            package.filelist@.len() as int,
                            package.filelist@[f].checksum@,
                        ));
                        assert(is_package_digest(*package, package.filelist@[f].checksum@));
                    }
                }
                lemma_rows_agree(
                    *package,
                    known_ids(known@),
                    table,
                    package.files@.len() as int,
                    package.filelist@.len() as int,
                );
            }
            let rows = match package_rows(0, package, &known) {
                Ok(rows) => rows,
                Err(_) => {
                    proof {
                        assert(false);
                    }
                    return Err(FileAcquisitionError::CatalogFailure("digest without id".to_owned()));
                },
            };
            proof {
                assert(package_sizes_declared(*package));
                lemma_source_rows(*package, table, package.files@.len() as int);
                lemma_entry_rows(*package, table, package.filelist@.len() as int);
                assert forall|j: int| 0 <= j < rows.sources@.len() implies catalog@.has_blob(
                    (#[trigger] rows.sources@[j]).h_id,
                ) && rows.sources@[j].size >= 0 by {
                    let d = choose|d: Seq<u8>|
                        is_package_digest(*package, d) && rows.sources@[j].h_id == table[d];
                    lemma_digest_place(numbered.digests, d, 0);
                }
                assert forall|j: int| 0 <= j < rows.entries@.len() implies catalog@.has_blob(
                    (#[trigger] rows.entries@[j]).file_id,
                ) && catalog@.has_blob(rows.entries@[j].archive_id) by {
                    let (c, a) = choose|c: Seq<u8>, a: Seq<u8>|
                        is_package_digest(*package, c) && is_package_digest(*package, a)
                            && rows.entries@[j].file_id == table[c] && rows.entries@[j].archive_id
                            == table[a];
                    lemma_digest_place(numbered.digests, c, 0);
                    lemma_digest_place(numbered.digests, a, 0);
                }
            }
            match catalog.insert_sources(&rows.sources) {
                Ok(()) => {},
                Err(e) => {
                    proof {
                        assert(false);
                    }
                    return Err(e);
                },
            }
            match catalog.insert_archive_entries(&rows.entries) {
                Ok(()) => {},
                Err(e) => {
                    proof {
                        assert(false);
                    }
                    return Err(e);
                },
            }
            p = p + 1;
        }
        k = k + 1;
    }
    let ghost filled = catalog@;
    record_releases(catalog, mods, places, &known);
    proof {
        assert(with_releases(filled, fresh, table).same_releases(
            with_releases(old(catalog)@, fresh, table),
        ));
    }
    Ok(())
}

/// Every source of a package names the blob of one of the package's
/// digests, and declares the size of its archive.
proof fn lemma_source_rows(package: FSNPackage, ids: Map<Seq<u8>, i64>, n: int)
    requires
        0 <= n <= package.files@.len(),
        package_sizes_declared(package),
    ensures
        forall|j: int|
            0 <= j < source_rows(package, ids, n).len() ==> (#[trigger] source_rows(
                package,
                ids,
                n,
            )[j]).size >= 0 && exists|d: Seq<u8>|
                is_package_digest(package, d) && source_rows(package, ids, n)[j].h_id == ids[d],
    decreases n,
{
    if n > 0 {
        lemma_source_rows(package, ids, n - 1);
        let before = source_rows(package, ids, n - 1);
        let after = source_rows(package, ids, n);
        let archive = package.files@[n - 1];
        assert(is_archive_digest(package, package.files@.len() as int, archive.checksum@));
        assert forall|j: int| 0 <= j < after.len() implies (#[trigger] after[j]).size >= 0
            && exists|d: Seq<u8>| is_package_digest(package, d) && after[j].h_id == ids[d] by {
            if j < before.len() {
                assert(after[j] == before[j]);
            } else {
                assert(after[j].h_id == ids[archive.checksum@]);
                assert(is_package_digest(package, archive.checksum@));
            }
        }
    }
}

/// Every edge of a package joins the blobs of two of the package's
/// digests.
proof fn lemma_entry_rows(package: FSNPackage, ids: Map<Seq<u8>, i64>, n: int)
    requires
        0 <= n <= package.filelist@.len(),
    ensures
        forall|j: int|
            0 <= j < entry_rows(package, ids, n).len() ==> exists|c: Seq<u8>, a: Seq<u8>|
                is_package_digest(package, c) && is_package_digest(package, a) && (
                #[trigger] entry_rows(package, ids, n)[j]).file_id == ids[c] && entry_rows(
                    package,
                    ids,
                    n,
                )[j].archive_id == ids[a],
    decreases n,
{
    if n > 0 {
        lemma_entry_rows(package, ids, n - 1);
        let before = entry_rows(package, ids, n - 1);
        let after = entry_rows(package, ids, n);
        let file = package.filelist@[n - 1];
        let at = crate::fsnebula::db::archive_place(
            package.files@,
            file.archive@,
            package.files@.len() as int,
        );
        assert(is_file_digest(package, package.filelist@.len() as int, file.checksum@));
        assert forall|j: int| 0 <= j < after.len() implies exists|c: Seq<u8>, a: Seq<u8>|
            is_package_digest(package, c) && is_package_digest(package, a) && (
            #[trigger] after[j]).file_id == ids[c] && after[j].archive_id == ids[a] by {
            if j < before.len() {
                assert(after[j] == before[j]);
            } else {
                lemma_archive_place(package, file.archive@, package.files@.len() as int);
                let arch = package.files@[at].checksum@;
                assert(is_archive_digest(package, package.files@.len() as int, arch));
                assert(is_package_digest(package, file.checksum@) && is_package_digest(
                    package,
                    arch,
                ) && after[j].file_id == ids[file.checksum@] && after[j].archive_id == ids[arch]);
            }
        }
    }
}

/// The catalog holds a release with the name and version of `m`.
pub open spec fn holds_release(view: CatalogView, m: FSNMod) -> bool {
    is_existing(release_list(view.releases), m)
}

/// The releases of a manifest that the catalog does not hold yet, in the
/// order of the manifest.
pub open spec fn new_releases(view: CatalogView, mods: Seq<FSNMod>) -> Seq<FSNMod> {
    selected(mods, new_places(mods, release_list(view.releases), mods.len() as int))
}

/// Imports a manifest: records the releases that the catalog does not
/// hold yet, as `commit_mods` records them, and says how many they were.
/// Afterwards the catalog holds every release of the manifest, so that
/// importing the manifest again records nothing.
///
/// Either every new release is recorded or nothing is. Fails with
/// `CatalogFailure` exactly when an archive of a new release declares a
/// negative size, or the catalog cannot number that many releases,
/// packages, dependencies or blobs.
pub fn mod_update(catalog: &mut Catalog, mods: &Vec<FSNMod>) -> (res: Result<
    usize,
    FileAcquisitionError,
>)
    requires
        old(catalog)@.valid(),
        old(catalog)@.releases_valid(),
    ensures
        final(catalog)@.valid(),
        final(catalog)@.releases_valid(),
        res is Err ==> final(catalog)@ == old(catalog)@,
        res matches Err(e) ==> e is CatalogFailure,
        ({
            let fresh = new_releases(old(catalog)@, mods@);
            let sums = manifest_sums_into(Seq::empty(), fresh, fresh.len() as int);
            let ids = digest_ids(final(catalog)@.digests);
            &&& res is Ok <==> sizes_declared(fresh) && has_room_for(old(catalog)@, fresh) && old(
                catalog,
            )@.digests.len() + sums.len() <= 0x7fff_ffff_ffff_ffff
            &&& res matches Ok(count) ==> {
                &&& count == fresh.len()
                &&& final(catalog)@.digests == with_digests(
                    old(catalog)@.digests,
                    sums,
                    sums.len() as int,
                )
                &&& final(catalog)@.sources == manifest_sources_into(
                    old(catalog)@.sources,
                    fresh,
                    ids,
                    fresh.len() as int,
                )
                &&& final(catalog)@.entries == manifest_entries_into(
                    old(catalog)@.entries,
                    fresh,
                    ids,
                    fresh.len() as int,
                )
                &&& final(catalog)@.same_releases(with_releases(old(catalog)@, fresh, ids))
                &&& forall|i: int|
                    0 <= i < mods@.len() ==> holds_release(final(catalog)@, #[trigger] mods@[i])
            }
        }),
        (forall|i: int| 0 <= i < mods@.len() ==> holds_release(old(catalog)@, #[trigger] mods@[i]))
            ==> res == Ok::<usize, FileAcquisitionError>(0) && final(catalog)@ == old(catalog)@,
{
    let existing = catalog.get_releases();
    let places = new_mods(mods, &existing);
    let count = mods.len();
    proof {
        lemma_new_places(mods@, existing@, count as int);
    }
    let ghost before = existing@;
    let ghost fresh = selected(mods@, places@);
    let ghost start = catalog@;
    match commit_mods(catalog, mods, &places) {
        Ok(()) => {},
        Err(e) => {
            proof {
                if forall|i: int| 0 <= i < mods@.len() ==> is_existing(before, #[trigger] mods@[i]) {
                    assert(places@.len() == 0);
                    assert(sizes_declared(fresh));
                    assert(package_total(fresh, 0) == 0);
                    assert(dependency_total(fresh, 0) == 0);
                    assert(has_room_for(start, fresh));
                    assert(false);
                }
            }
            return Err(e);
        },
    }
    proof {
        let after = release_list(catalog@.releases);
        let rows = release_rows(start.releases.len() as int, fresh);
        assert(catalog@.releases == start.releases + rows);
        assert forall|i: int| 0 <= i < mods@.len() implies holds_release(
            catalog@,
            #[trigger] mods@[i],
        ) by {
            if is_existing(before, mods@[i]) {
                let k = choose|k: int|
                    0 <= k < before.len() && (#[trigger] before[k]).name@ == mods@[i].id@
                        && before[k].version@ == mods@[i].version@;
                assert(catalog@.releases[k] == start.releases[k]);
                assert(after[k].name@ == mods@[i].id@ && after[k].version@ == mods@[i].version@);
            } else {
                assert(places@.contains(i as usize));
                let j = choose|j: int| 0 <= j < places@.len() && places@[j] == i as usize;
                assert(fresh[j] == mods@[i]);
                let at = start.releases.len() + j;
                assert(catalog@.releases[at] == rows[j]);
                assert(after[at].name@ == mods@[i].id@ && after[at].version@ == mods@[i].version@);
            }
        }
        if places@.len() == 0 {
            assert(catalog@.digests == start.digests);
            assert(start.releases + rows =~= start.releases);
            assert(catalog@ =~= start);
        }
    }
    Ok(places.len())
}

} // verus!

//! The coverage solver: which remote sources to fetch so that every
//! required blob arrives and as few bytes as possible are transferred.
//!
//! This is weighted set cover. The search is a depth-first branch and bound
//! over the candidates in the order given. A branch is cut as soon as the
//! bytes already committed reach the best complete cover found so far, and
//! as soon as the candidates still open can no longer deliver everything.

use vstd::prelude::*;
use crate::common::Source;
use crate::files::FileAcquisitionError;

verus! {

/// A candidate source together with the blobs that fetching it delivers.
pub type Candidate = (Source, Vec<i64>);

/// What the solver weighs of a candidate: the bytes that fetching it
/// transfers, and the blobs that it delivers.
pub struct Offer {
    pub size: int,
    pub covers: Set<i64>,
}

/// What the solver weighs of one candidate.
pub open spec fn offer_of(cand: Candidate) -> Offer {
    Offer { size: cand.0.size as int, covers: cand.1@.to_set() }
}

/// What the solver weighs of each candidate, in order.
pub open spec fn offers_of(cands: Seq<Candidate>) -> Seq<Offer> {
    Seq::new(cands.len(), |i: int| offer_of(cands[i]))
}

/// The sources of the candidates, in order.
pub open spec fn sources_of(cands: Seq<Candidate>) -> Seq<Source> {
    Seq::new(cands.len(), |i: int| cands[i].0)
}

/// Every candidate declares a size that is not negative.
pub open spec fn sizes_declared(cands: Seq<Offer>) -> bool {
    forall|i: int| 0 <= i < cands.len() ==> (#[trigger] cands[i]).size >= 0
}

/// Blob `r` is delivered by one of the selected candidates.
pub open spec fn blob_covered(cands: Seq<Offer>, sel: Seq<bool>, r: i64) -> bool {
    exists|i: int| 0 <= i < cands.len() && sel[i] && (#[trigger] cands[i]).covers.contains(r)
}

/// `sel` marks, candidate by candidate, a subset of the candidates that
/// delivers every required blob.
pub open spec fn is_cover(cands: Seq<Offer>, required: Seq<i64>, sel: Seq<bool>) -> bool {
    &&& sel.len() == cands.len()
    &&& forall|k: int| 0 <= k < required.len() ==> blob_covered(cands, sel, #[trigger] required[k])
}

/// Bytes transferred by the selected candidates among the first `n`.
pub open spec fn total_size(cands: Seq<Offer>, sel: Seq<bool>, n: int) -> int
    decreases n,
{
    if n <= 0 {
        0
    } else {
        total_size(cands, sel, n - 1) + if sel[n - 1] {
            cands[n - 1].size
        } else {
            0
        }
    }
}

/// Bytes transferred by a selection.
pub open spec fn cost(cands: Seq<Offer>, sel: Seq<bool>) -> int {
    total_size(cands, sel, cands.len() as int)
}

/// `sel` is a cover, and no cover transfers fewer bytes.
pub open spec fn is_minimum_cover(cands: Seq<Offer>, required: Seq<i64>, sel: Seq<bool>) -> bool {
    &&& is_cover(cands, required, sel)
    &&& forall|other: Seq<bool>| #[trigger]
        is_cover(cands, required, other) ==> cost(cands, sel) <= cost(cands, other)
}

/// The selected sources among the first `n`, in the order given.
pub open spec fn picked(sources: Seq<Source>, sel: Seq<bool>, n: int) -> Seq<Source>
    decreases n,
{
    if n <= 0 {
        Seq::empty()
    } else if sel[n - 1] {
        picked(sources, sel, n - 1).push(sources[n - 1])
    } else {
        picked(sources, sel, n - 1)
    }
}

/// Sum of the declared sizes of a list of sources.
pub open spec fn sum_sizes(sources: Seq<Source>) -> int
    decreases sources.len(),
{
    if sources.len() == 0 {
        0
    } else {
        sum_sizes(sources.drop_last()) + sources.last().size
    }
}

/// Blob `r` is delivered by at least one candidate.
pub open spec fn blob_offered(cands: Seq<Offer>, r: i64) -> bool {
    exists|i: int| 0 <= i < cands.len() && (#[trigger] cands[i]).covers.contains(r)
}

/// Every required blob is delivered by at least one candidate.
pub open spec fn coverable(cands: Seq<Offer>, required: Seq<i64>) -> bool {
    forall|k: int| 0 <= k < required.len() ==> blob_offered(cands, #[trigger] required[k])
}

/// Candidate `i` alone delivers every required blob.
pub open spec fn covers_alone(cands: Seq<Offer>, required: Seq<i64>, i: int) -> bool {
    &&& 0 <= i < cands.len()
    &&& forall|k: int| 0 <= k < required.len() ==> cands[i].covers.contains(#[trigger] required[k])
}

/// The selection that holds candidate `i` and nothing else.
pub open spec fn only(n: nat, i: int) -> Seq<bool> {
    Seq::new(n, |j: int| j == i)
}

/// `s` and `t` select the same candidates among the first `i`.
pub open spec fn agree(s: Seq<bool>, t: Seq<bool>, i: int) -> bool {
    &&& s.len() == t.len()
    &&& forall|j: int| 0 <= j < i ==> s[j] == t[j]
}

/// Selections that agree on the first `i` candidates transfer the same
/// bytes among them.
proof fn lemma_total_size_agree(cands: Seq<Offer>, s: Seq<bool>, t: Seq<bool>, i: int)
    requires
        agree(s, t, i),
    ensures
        total_size(cands, s, i) == total_size(cands, t, i),
    decreases i,
{
    if i > 0 {
        lemma_total_size_agree(cands, s, t, i - 1);
    }
}

/// The bytes transferred do not fall when more candidates are counted.
proof fn lemma_total_size_grows(cands: Seq<Offer>, s: Seq<bool>, i: int, j: int)
    requires
        sizes_declared(cands),
        0 <= i <= j <= cands.len(),
    ensures
        0 <= total_size(cands, s, i) <= total_size(cands, s, j),
    decreases j,
{
    if j > 0 {
        if i < j {
            lemma_total_size_grows(cands, s, i, j - 1);
        } else {
            lemma_total_size_grows(cands, s, i - 1, j - 1);
        }
        assert(cands[j - 1].size >= 0);
    }
}

/// The bytes transferred by `j` candidates are at most `j` times the
/// largest size that can be declared.
proof fn lemma_total_size_fits(cands: Seq<Candidate>, s: Seq<bool>, j: int)
    requires
        0 <= j <= cands.len(),
    ensures
        total_size(offers_of(cands), s, j) <= j * 0x7fff_ffff_ffff_ffff,
    decreases j,
{
    if j > 0 {
        lemma_total_size_fits(cands, s, j - 1);
        assert(offers_of(cands)[j - 1].size <= 0x7fff_ffff_ffff_ffff);
        assert(j * 0x7fff_ffff_ffff_ffff == (j - 1) * 0x7fff_ffff_ffff_ffff + 0x7fff_ffff_ffff_ffff)
            by (nonlinear_arith);
    }
}

/// Candidates that are not selected transfer nothing.
proof fn lemma_total_size_rest_unselected(cands: Seq<Offer>, s: Seq<bool>, i: int, j: int)
    requires
        0 <= i <= j <= s.len(),
        forall|k: int| i <= k < j ==> !s[k],
    ensures
        total_size(cands, s, j) == total_size(cands, s, i),
    decreases j,
{
    if i < j {
        lemma_total_size_rest_unselected(cands, s, i, j - 1);
    }
}

/// A minimum cover transfers no more than any single candidate that
/// delivers every required blob by itself.
pub proof fn lemma_minimum_cover_beats_single_source(
    cands: Seq<Offer>,
    required: Seq<i64>,
    sel: Seq<bool>,
    i: int,
)
    requires
        is_minimum_cover(cands, required, sel),
        covers_alone(cands, required, i),
    ensures
        cost(cands, sel) <= cands[i].size,
{
    let one = only(cands.len(), i);
    assert forall|k: int| 0 <= k < required.len() implies blob_covered(
        cands,
        one,
        #[trigger] required[k],
    ) by {
        assert(one[i] && cands[i].covers.contains(required[k]));
    }
    assert(is_cover(cands, required, one));
    lemma_cost_of_single(cands, i, cands.len() as int);
}

/// The selection of one candidate transfers the size of that candidate.
proof fn lemma_cost_of_single(cands: Seq<Offer>, i: int, n: int)
    requires
        0 <= i < cands.len(),
        0 <= n <= cands.len(),
    ensures
        total_size(cands, only(cands.len(), i), n) == if i < n {
            cands[i].size
        } else {
            0
        },
    decreases n,
{
    if n > 0 {
        lemma_cost_of_single(cands, i, n - 1);
    }
}

/// The bytes that a selection transfers are the sum of the sizes of the
/// sources picked by it.
pub proof fn lemma_cost_is_sum_of_picked(cands: Seq<Candidate>, sel: Seq<bool>, n: int)
    requires
        0 <= n <= cands.len(),
        sel.len() == cands.len(),
    ensures
        total_size(offers_of(cands), sel, n) == sum_sizes(picked(sources_of(cands), sel, n)),
    decreases n,
{
    if n > 0 {
        lemma_cost_is_sum_of_picked(cands, sel, n - 1);
        if sel[n - 1] {
            let p = picked(sources_of(cands), sel, n - 1);
            assert(p.push(cands[n - 1].0).drop_last() == p);
        }
    }
}

/// A cover exists exactly when every required blob is delivered by some
/// candidate: selecting everything is then a cover.
pub proof fn lemma_cover_exists_iff_coverable(cands: Seq<Offer>, required: Seq<i64>)
    ensures
        coverable(cands, required) <==> exists|sel: Seq<bool>| is_cover(cands, required, sel),
        coverable(cands, required) ==> is_cover(
            cands,
            required,
            Seq::new(cands.len(), |j: int| true),
        ),
{
    let all = Seq::new(cands.len(), |j: int| true);
    if coverable(cands, required) {
        assert forall|k: int| 0 <= k < required.len() implies blob_covered(
            cands,
            all,
            #[trigger] required[k],
        ) by {
            let i = choose|i: int|
                0 <= i < cands.len() && (#[trigger] cands[i]).covers.contains(required[k]);
            assert(all[i] && cands[i].covers.contains(required[k]));
        }
        assert(is_cover(cands, required, all));
    }
    if exists|sel: Seq<bool>| is_cover(cands, required, sel) {
        let sel = choose|sel: Seq<bool>| is_cover(cands, required, sel);
        assert forall|k: int| 0 <= k < required.len() implies blob_offered(
            cands,
            #[trigger] required[k],
        ) by {
            assert(blob_covered(cands, sel, required[k]));
        }
    }
}

/// Whether `blobs` holds `r`.
pub fn holds(blobs: &Vec<i64>, r: i64) -> (found: bool)
    ensures
        found == blobs@.contains(r),
{
    let mut j: usize = 0;
    while j < blobs.len()
        invariant
            j <= blobs.len(),
            forall|k: int| 0 <= k < j ==> blobs@[k] != r,
        decreases blobs.len() - j,
    {
        if blobs[j] == r {
            return true;
        }
        j = j + 1;
    }
    false
}

/// Whether blob `r` is delivered by a selected candidate.
fn delivered(cands: &Vec<Candidate>, chosen: &Vec<bool>, r: i64) -> (found: bool)
    requires
        chosen.len() == cands.len(),
    ensures
        found == blob_covered(offers_of(cands@), chosen@, r),
{
    let ghost offers = offers_of(cands@);
    let mut i: usize = 0;
    while i < cands.len()
        invariant
            i <= cands.len(),
            chosen.len() == cands.len(),
            offers == offers_of(cands@),
            forall|k: int| 0 <= k < i ==> !(chosen@[k] && (#[trigger] offers[k]).covers.contains(r)),
        decreases cands.len() - i,
    {
        if chosen[i] && holds(&cands[i].1, r) {
            assert(offers[i as int].covers.contains(r));
            return true;
        }
        i = i + 1;
    }
    false
}

/// Whether the selected candidates deliver every required blob.
fn delivers_all(cands: &Vec<Candidate>, required: &Vec<i64>, chosen: &Vec<bool>) -> (all: bool)
    requires
        chosen.len() == cands.len(),
    ensures
        all == is_cover(offers_of(cands@), required@, chosen@),
{
    let mut k: usize = 0;
    while k < required.len()
        invariant
            k <= required.len(),
            chosen.len() == cands.len(),
            forall|j: int|
                0 <= j < k ==> blob_covered(offers_of(cands@), chosen@, #[trigger] required@[j]),
        decreases required.len() - k,
    {
        if !delivered(cands, chosen, required[k]) {
            return false;
        }
        k = k + 1;
    }
    true
}

/// `sel` with every candidate from place `from` onward selected as well.
pub open spec fn with_rest(sel: Seq<bool>, from: int) -> Seq<bool> {
    Seq::new(sel.len(), |j: int| j >= from || sel[j])
}

/// A cover stays a cover when more candidates are selected.
proof fn lemma_cover_grows(cands: Seq<Offer>, required: Seq<i64>, s: Seq<bool>, t: Seq<bool>)
    requires
        is_cover(cands, required, s),
        t.len() == s.len(),
        forall|j: int| 0 <= j < s.len() && s[j] ==> t[j],
    ensures
        is_cover(cands, required, t),
{
    assert forall|k: int| 0 <= k < required.len() implies blob_covered(
        cands,
        t,
        #[trigger] required[k],
    ) by {
        assert(blob_covered(cands, s, required[k]));
        let i = choose|i: int|
            0 <= i < cands.len() && s[i] && (#[trigger] cands[i]).covers.contains(required[k]);
        assert(t[i] && cands[i].covers.contains(required[k]));
    }
}

/// Whether the selected candidates, together with every candidate from
/// place `from` onward, deliver every required blob.
fn can_deliver_all(cands: &Vec<Candidate>, required: &Vec<i64>, chosen: &Vec<bool>, from: usize) -> (all:
    bool)
    requires
        chosen.len() == cands.len(),
        from <= cands.len(),
    ensures
        all == is_cover(offers_of(cands@), required@, with_rest(chosen@, from as int)),
{
    let ghost offers = offers_of(cands@);
    let ghost sel = with_rest(chosen@, from as int);
    let mut k: usize = 0;
    while k < required.len()
        invariant
            k <= required.len(),
            chosen.len() == cands.len(),
            from <= cands.len(),
            offers == offers_of(cands@),
            sel == with_rest(chosen@, from as int),
            forall|j: int| 0 <= j < k ==> blob_covered(offers, sel, #[trigger] required@[j]),
        decreases required.len() - k,
    {
        let r = required[k];
        let mut found = false;
        let mut i: usize = 0;
        while i < cands.len() && !found
            invariant
                i <= cands.len(),
                chosen.len() == cands.len(),
                from <= cands.len(),
                offers == offers_of(cands@),
                sel == with_rest(chosen@, from as int),
                found ==> blob_covered(offers, sel, r),
                !found ==> forall|j: int|
                    0 <= j < i ==> !(sel[j] && (#[trigger] offers[j]).covers.contains(r)),
            decreases cands.len() - i, (if found { 0int } else { 1int }),
        {
            if (i >= from || chosen[i]) && holds(&cands[i].1, r) {
                assert(sel[i as int] && offers[i as int].covers.contains(r));
                found = true;
            } else {
                i = i + 1;
            }
        }
        if !found {
            return false;
        }
        k = k + 1;
    }
    true
}

/// Whether every required blob is delivered by at least one candidate.
pub fn is_coverable(cands: &Vec<Candidate>, required: &Vec<i64>) -> (yes: bool)
    ensures
        yes == coverable(offers_of(cands@), required@),
{
    let mut everything: Vec<bool> = Vec::new();
    let mut i: usize = 0;
    while i < cands.len()
        invariant
            i <= cands.len(),
            everything@ == Seq::new(i as nat, |j: int| true),
        decreases cands.len() - i,
    {
        everything.push(true);
        i = i + 1;
    }
    proof {
        lemma_cover_exists_iff_coverable(offers_of(cands@), required@);
    }
    delivers_all(cands, required, &everything)
}

/// The best cover found so far, with the bytes it transfers.
struct Incumbent {
    sel: Vec<bool>,
    bytes: u128,
}

/// What is held as the best cover is a cover, with the bytes it transfers.
spec fn incumbent_ok(cands: Seq<Offer>, required: Seq<i64>, best: Option<Incumbent>) -> bool {
    best matches Some(b) ==> is_cover(cands, required, b.sel@) && b.bytes == cost(cands, b.sel@)
}

/// A cover is held, and it transfers at most `bound` bytes.
spec fn within(best: Option<Incumbent>, bound: int) -> bool {
    best matches Some(b) && b.bytes <= bound
}

/// If `before` held a cover, `after` holds one that is at least as cheap.
spec fn no_worse(after: Option<Incumbent>, before: Option<Incumbent>) -> bool {
    before matches Some(b) ==> within(after, b.bytes as int)
}

/// Explores every selection that agrees with `chosen` on the first `i`
/// candidates, and leaves in `best` a cover that is at least as cheap as
/// each cover among them and as the one it held before.
fn search(
    cands: &Vec<Candidate>,
    required: &Vec<i64>,
    i: usize,
    chosen: &mut Vec<bool>,
    bytes: u128,
    best: &mut Option<Incumbent>,
)
    requires
        sizes_declared(offers_of(cands@)),
        i <= cands.len(),
        old(chosen).len() == cands.len(),
        forall|j: int| i <= j < cands.len() ==> !old(chosen)@[j],
        bytes == total_size(offers_of(cands@), old(chosen)@, i as int),
        incumbent_ok(offers_of(cands@), required@, *old(best)),
    ensures
        final(chosen)@ == old(chosen)@,
        incumbent_ok(offers_of(cands@), required@, *final(best)),
        no_worse(*final(best), *old(best)),
        forall|s: Seq<bool>|
            #![trigger is_cover(offers_of(cands@), required@, s)]
            is_cover(offers_of(cands@), required@, s) && agree(s, old(chosen)@, i as int) ==> within(
                *final(best),
                cost(offers_of(cands@), s),
            ),
    decreases cands.len() - i,
{
    let ghost start = chosen@;
    proof {
        assert forall|s: Seq<bool>| agree(s, start, i as int) implies bytes <= cost(offers_of(cands@), s) by {
            lemma_total_size_agree(offers_of(cands@), s, start, i as int);
            lemma_total_size_grows(offers_of(cands@), s, i as int, cands@.len() as int);
        }
        lemma_total_size_rest_unselected(offers_of(cands@), start, i as int, cands@.len() as int);
    }
    match best {
        Some(b) => {
            if bytes >= b.bytes {
                return ;
            }
        },
        None => {},
    }
    if delivers_all(cands, required, chosen) {
        let sel = chosen.clone();
        assert(sel@ == chosen@);
        *best = Some(Incumbent { sel, bytes });
        return ;
    }
    if i == cands.len() {
        assert forall|s: Seq<bool>| agree(s, start, i as int) implies !is_cover(
            offers_of(cands@),
            required@,
            s,
        ) by {
            assert(s == start);
        }
        return ;
    }
    if !can_deliver_all(cands, required, chosen, i) {
        assert forall|s: Seq<bool>| agree(s, start, i as int) implies !is_cover(
            offers_of(cands@),
            required@,
            s,
        ) by {
            if is_cover(offers_of(cands@), required@, s) {
                lemma_cover_grows(offers_of(cands@), required@, s, with_rest(start, i as int));
            }
        }
        return ;
    }
    let size = cands[i].0.size;
    proof {
        lemma_total_size_fits(cands@, start, i as int);
        assert(offers_of(cands@)[i as int].size >= 0);
        assert(i * 0x7fff_ffff_ffff_ffff <= 0xffff_ffff_ffff_ffff * 0x7fff_ffff_ffff_ffff)
            by (nonlinear_arith)
            requires
                i <= 0xffff_ffff_ffff_ffff,
        ;
    }
    chosen.set(i, true);
    proof {
        lemma_total_size_agree(offers_of(cands@), chosen@, start, i as int);
    }
    search(cands, required, i + 1, chosen, bytes + (size as u128), best);
    let ghost with_i = chosen@;
    let ghost mid = *best;
    chosen.set(i, false);
    assert(chosen@ == start);
    search(cands, required, i + 1, chosen, bytes, best);
    proof {
        assert forall|s: Seq<bool>|
            #![trigger is_cover(offers_of(cands@), required@, s)]
            is_cover(offers_of(cands@), required@, s) && agree(s, start, i as int) implies within(
            *best,
            cost(offers_of(cands@), s),
        ) by {
            if s[i as int] {
                assert(agree(s, with_i, i + 1));
                assert(within(mid, cost(offers_of(cands@), s)));
            } else {
                assert(agree(s, start, i + 1));
            }
        }
    }
}

/// Chooses, among the candidate remote sources, a set that delivers every
/// required blob and transfers the fewest bytes.
///
/// Fails with `UnsatisfiableCoverage` exactly when some required blob is
/// delivered by no candidate. With nothing required, nothing is chosen.
pub fn solve_files(cands: &Vec<Candidate>, required: &Vec<i64>) -> (res: Result<
    Vec<Source>,
    FileAcquisitionError,
>)
    requires
        sizes_declared(offers_of(cands@)),
    ensures
        res is Ok <==> coverable(offers_of(cands@), required@),
        res matches Ok(chosen) ==> exists|sel: Seq<bool>|
            #![trigger is_minimum_cover(offers_of(cands@), required@, sel)]
            is_minimum_cover(offers_of(cands@), required@, sel) && chosen@ == picked(
                sources_of(cands@),
                sel,
                cands@.len() as int,
            ) && sum_sizes(chosen@) == cost(offers_of(cands@), sel),
        res matches Ok(chosen) ==> forall|i: int|
            covers_alone(offers_of(cands@), required@, i) ==> sum_sizes(chosen@) <= (
            #[trigger] cands@[i]).0.size,
        res matches Ok(chosen) ==> (required@.len() == 0 ==> chosen@.len() == 0),
        res matches Err(e) ==> e is UnsatisfiableCoverage,
{
    proof {
        lemma_cover_exists_iff_coverable(offers_of(cands@), required@);
    }
    let n = cands.len();
    let mut everything: Vec<bool> = Vec::new();
    let mut nothing: Vec<bool> = Vec::new();
    let mut i: usize = 0;
    while i < n
        invariant
            i <= n,
            everything@ == Seq::new(i as nat, |j: int| true),
            nothing@ == Seq::new(i as nat, |j: int| false),
        decreases n - i,
    {
        everything.push(true);
        nothing.push(false);
        i = i + 1;
    }
    if required.len() == 0 {
        proof {
            assert(is_cover(offers_of(cands@), required@, nothing@));
            lemma_total_size_rest_unselected(offers_of(cands@), nothing@, 0, n as int);
            lemma_nothing_picked(sources_of(cands@), nothing@, n as int);
            assert forall|other: Seq<bool>| #[trigger]
                is_cover(offers_of(cands@), required@, other) implies cost(offers_of(cands@), nothing@) <= cost(
                offers_of(cands@),
                other,
            ) by {
                lemma_total_size_grows(offers_of(cands@), other, 0, n as int);
            }
            assert(is_minimum_cover(offers_of(cands@), required@, nothing@));
            assert(picked(sources_of(cands@), nothing@, n as int) == Seq::<Source>::empty());
            assert forall|i: int| covers_alone(offers_of(cands@), required@, i) implies 0 <= (
            #[trigger] cands@[i]).0.size by {
                assert(offers_of(cands@)[i].size >= 0);
            }
        }
        return Ok(Vec::new());
    }
    if !delivers_all(cands, required, &everything) {
        return Err(FileAcquisitionError::UnsatisfiableCoverage);
    }
    let mut best: Option<Incumbent> = None;
    search(cands, required, 0, &mut nothing, 0, &mut best);
    assert(agree(everything@, nothing@, 0));
    let found = match best {
        Some(b) => b,
        None => {
            proof {
                assert(false);
            }
            return Err(FileAcquisitionError::UnsatisfiableCoverage);
        },
    };
    let ghost sel = found.sel@;
    proof {
        assert forall|other: Seq<bool>| #[trigger]
            is_cover(offers_of(cands@), required@, other) implies cost(offers_of(cands@), sel) <= cost(
            offers_of(cands@),
            other,
        ) by {
            assert(agree(other, nothing@, 0));
        }
        assert(is_minimum_cover(offers_of(cands@), required@, sel));
    }
    let mut chosen: Vec<Source> = Vec::new();
    let mut i: usize = 0;
    while i < n
        invariant
            i <= n,
            n == cands.len(),
            found.sel@ == sel,
            sel.len() == n,
            chosen@ == picked(sources_of(cands@), sel, i as int),
        decreases n - i,
    {
        if found.sel[i] {
            chosen.push(cands[i].0.clone());
        }
        i = i + 1;
    }
    proof {
        lemma_cost_is_sum_of_picked(cands@, sel, n as int);
        assert forall|i: int| covers_alone(offers_of(cands@), required@, i) implies sum_sizes(
            chosen@,
        ) <= (#[trigger] cands@[i]).0.size by {
            lemma_minimum_cover_beats_single_source(offers_of(cands@), required@, sel, i);
        }
    }
    Ok(chosen)
}

/// Nothing is picked where no candidate among the first `n` is selected.
proof fn lemma_nothing_picked(cands: Seq<Source>, sel: Seq<bool>, n: int)
    requires
        0 <= n <= cands.len(),
        sel.len() == cands.len(),
        forall|j: int| 0 <= j < n ==> !sel[j],
    ensures
        picked(cands, sel, n).len() == 0,
    decreases n,
{
    if n > 0 {
        lemma_nothing_picked(cands, sel, n - 1);
    }
}

} // verus!

//! Choosing among paths: the first occurrence of each path, and the paths that
//! exist. Both keep the order of the paths.

use crate::bytes::{to_vec, views};
use crate::component::{is_same_path, same_path};
use vstd::prelude::*;

verus! {

/// Whether `at` shows `sub` to be a subsequence of `full`: `sub[k]` is
/// `full[at[k]]`, and `at` is strictly increasing.
pub open spec fn embeds(sub: Seq<Seq<u8>>, full: Seq<Seq<u8>>, at: Seq<int>) -> bool {
    &&& at.len() == sub.len()
    &&& forall|k: int|
        0 <= k < sub.len() ==> 0 <= #[trigger] at[k] < full.len() && full[at[k]] == sub[k]
    &&& forall|k: int, l: int| 0 <= k < l < sub.len() ==> #[trigger] at[k] < #[trigger] at[l]
}

/// Whether `sub` is a subsequence of `full`: it holds some of the items of
/// `full`, in the order that they have there.
pub open spec fn is_subsequence(sub: Seq<Seq<u8>>, full: Seq<Seq<u8>>) -> bool {
    exists|at: Seq<int>| embeds(sub, full, at)
}

/// Whether no two items of `paths` are the same path.
pub open spec fn all_distinct(paths: Seq<Seq<u8>>) -> bool {
    forall|k: int, l: int|
        0 <= k < l < paths.len() ==> !same_path(#[trigger] paths[k], #[trigger] paths[l])
}

/// Whether a path before `paths[i]` is the same path as `paths[i]`.
pub open spec fn seen_before(paths: Seq<Seq<u8>>, i: int) -> bool {
    exists|j: int| 0 <= j < i && same_path(#[trigger] paths[j], paths[i])
}

/// The paths of `paths` that no earlier path equals, in order.
pub open spec fn first_occurrences(paths: Seq<Seq<u8>>) -> Seq<Seq<u8>>
    decreases paths.len(),
{
    if paths.len() == 0 {
        Seq::<Seq<u8>>::empty()
    } else {
        let earlier = first_occurrences(paths.drop_last());
        if seen_before(paths, paths.len() - 1) {
            earlier
        } else {
            earlier.push(paths.last())
        }
    }
}

/// The paths of `paths` whose answer is `true`, in order: `answers[i]` says
/// whether `paths[i]` exists. A path without an answer is not kept.
pub open spec fn retain(paths: Seq<Seq<u8>>, answers: Seq<bool>) -> Seq<Seq<u8>>
    decreases paths.len(),
{
    if paths.len() == 0 {
        Seq::<Seq<u8>>::empty()
    } else {
        let earlier = retain(paths.drop_last(), answers);
        if paths.len() <= answers.len() && answers[paths.len() - 1] {
            earlier.push(paths.last())
        } else {
            earlier
        }
    }
}

/// A subsequence of a subsequence is a subsequence.
pub proof fn lemma_subsequence_transitive(a: Seq<Seq<u8>>, b: Seq<Seq<u8>>, c: Seq<Seq<u8>>)
    requires
        is_subsequence(a, b),
        is_subsequence(b, c),
    ensures
        is_subsequence(a, c),
{
    let inner = choose|at: Seq<int>| embeds(a, b, at);
    let outer = choose|at: Seq<int>| embeds(b, c, at);
    let both = Seq::new(a.len(), |k: int| outer[inner[k]]);
    assert(embeds(a, c, both));
}

/// A subsequence of paths of which no two are the same holds no two that are
/// the same.
pub proof fn lemma_subsequence_distinct(sub: Seq<Seq<u8>>, full: Seq<Seq<u8>>)
    requires
        is_subsequence(sub, full),
        all_distinct(full),
    ensures
        all_distinct(sub),
{
    let at = choose|at: Seq<int>| embeds(sub, full, at);
    assert forall|k: int, l: int| 0 <= k < l < sub.len() implies !same_path(
        #[trigger] sub[k],
        #[trigger] sub[l],
    ) by {
        assert(at[k] < at[l]);
        assert(!same_path(full[at[k]], full[at[l]]));
    }
}

/// Where the first occurrences of `paths` stand in `paths`.
pub proof fn lemma_first_occurrences_embed(paths: Seq<Seq<u8>>) -> (at: Seq<int>)
    ensures
        embeds(first_occurrences(paths), paths, at),
        forall|k: int| 0 <= k < at.len() ==> !seen_before(paths, #[trigger] at[k]),
    decreases paths.len(),
{
    if paths.len() == 0 {
        Seq::<int>::empty()
    } else {
        let shorter = paths.drop_last();
        let earlier = lemma_first_occurrences_embed(shorter);
        let last = paths.len() - 1;
        assert forall|k: int| 0 <= k < earlier.len() implies !seen_before(
            paths,
            #[trigger] earlier[k],
        ) by {
            let i = earlier[k];
            if seen_before(paths, i) {
                let j = choose|j: int| 0 <= j < i && same_path(#[trigger] paths[j], paths[i]);
                assert(same_path(shorter[j], shorter[i]));
            }
        }
        if seen_before(paths, last) {
            assert(embeds(first_occurrences(paths), paths, earlier));
            earlier
        } else {
            let at = earlier.push(last);
            assert(embeds(first_occurrences(paths), paths, at));
            at
        }
    }
}

/// The first occurrences of `paths` are a subsequence of `paths`, and no two
/// of them are the same path.
pub proof fn lemma_first_occurrences(paths: Seq<Seq<u8>>)
    ensures
        is_subsequence(first_occurrences(paths), paths),
        all_distinct(first_occurrences(paths)),
{
    let at = lemma_first_occurrences_embed(paths);
    let firsts = first_occurrences(paths);
    assert forall|k: int, l: int| 0 <= k < l < firsts.len() implies !same_path(
        #[trigger] firsts[k],
        #[trigger] firsts[l],
    ) by {
        assert(at[k] < at[l]);
        assert(!seen_before(paths, at[l]));
        assert(firsts[k] == paths[at[k]]);
    }
}

/// A path that no earlier path equals is among the first occurrences.
pub proof fn lemma_first_occurrences_hold(paths: Seq<Seq<u8>>, i: int)
    requires
        0 <= i < paths.len(),
        !seen_before(paths, i),
    ensures
        first_occurrences(paths).contains(paths[i]),
    decreases paths.len(),
{
    let shorter = paths.drop_last();
    let earlier = first_occurrences(shorter);
    let firsts = first_occurrences(paths);
    if i == paths.len() - 1 {
        assert(firsts == earlier.push(paths[i]));
        assert(firsts[earlier.len() as int] == paths[i]);
    } else {
        assert(!seen_before(shorter, i)) by {
            if seen_before(shorter, i) {
                let j = choose|j: int| 0 <= j < i && same_path(#[trigger] shorter[j], shorter[i]);
                assert(same_path(paths[j], paths[i]));
            }
        }
        lemma_first_occurrences_hold(shorter, i);
        let k = choose|k: int| 0 <= k < earlier.len() && earlier[k] == shorter[i];
        assert(firsts[k] == paths[i]);
    }
}

/// Paths of which no two are the same are all first occurrences.
pub proof fn lemma_first_occurrences_of_distinct(paths: Seq<Seq<u8>>)
    requires
        all_distinct(paths),
    ensures
        first_occurrences(paths) == paths,
    decreases paths.len(),
{
    if paths.len() > 0 {
        let shorter = paths.drop_last();
        assert forall|k: int, l: int| 0 <= k < l < shorter.len() implies !same_path(
            #[trigger] shorter[k],
            #[trigger] shorter[l],
        ) by {
            assert(shorter[k] == paths[k] && shorter[l] == paths[l]);
        }
        lemma_first_occurrences_of_distinct(shorter);
        assert(!seen_before(paths, paths.len() - 1));
        assert(shorter.push(paths.last()) == paths);
    }
}

/// Where the paths that `retain` keeps stand in `paths`.
pub proof fn lemma_retain_embed(paths: Seq<Seq<u8>>, answers: Seq<bool>) -> (at: Seq<int>)
    ensures
        embeds(retain(paths, answers), paths, at),
        forall|k: int| 0 <= k < at.len() ==> #[trigger] at[k] < answers.len() && answers[at[k]],
    decreases paths.len(),
{
    if paths.len() == 0 {
        Seq::<int>::empty()
    } else {
        let earlier = lemma_retain_embed(paths.drop_last(), answers);
        let last = paths.len() - 1;
        if paths.len() <= answers.len() && answers[last] {
            let at = earlier.push(last);
            assert(embeds(retain(paths, answers), paths, at));
            at
        } else {
            assert(embeds(retain(paths, answers), paths, earlier));
            earlier
        }
    }
}

/// A path that was answered with `true` is among those that `retain` keeps.
pub proof fn lemma_retain_holds(paths: Seq<Seq<u8>>, answers: Seq<bool>, i: int)
    requires
        0 <= i < paths.len(),
        i < answers.len(),
        answers[i],
    ensures
        retain(paths, answers).contains(paths[i]),
    decreases paths.len(),
{
    let shorter = paths.drop_last();
    let earlier = retain(shorter, answers);
    let kept = retain(paths, answers);
    if i == paths.len() - 1 {
        assert(kept == earlier.push(paths[i]));
        assert(kept[earlier.len() as int] == paths[i]);
    } else {
        lemma_retain_holds(shorter, answers, i);
        let k = choose|k: int| 0 <= k < earlier.len() && earlier[k] == shorter[i];
        assert(kept[k] == paths[i]);
    }
}

/// Paths that were all answered with `true` are all kept.
pub proof fn lemma_retain_all(paths: Seq<Seq<u8>>, answers: Seq<bool>)
    requires
        paths.len() <= answers.len(),
        forall|k: int| 0 <= k < paths.len() ==> #[trigger] answers[k],
    ensures
        retain(paths, answers) == paths,
    decreases paths.len(),
{
    if paths.len() > 0 {
        lemma_retain_all(paths.drop_last(), answers);
        assert(answers[paths.len() - 1]);
        assert(paths.drop_last().push(paths.last()) == paths);
    }
}

/// Of the first occurrences of `paths`, those that were answered with `true`
/// stand in the order in which they stand in `paths`, no two of them are the
/// same path, and each of them is a first occurrence that was answered with
/// `true`.
pub proof fn lemma_kept_paths(paths: Seq<Seq<u8>>, answers: Seq<bool>)
    ensures
        is_subsequence(retain(first_occurrences(paths), answers), paths),
        all_distinct(retain(first_occurrences(paths), answers)),
        forall|k: int|
            0 <= k < retain(first_occurrences(paths), answers).len() ==> exists|i: int|
                0 <= i < first_occurrences(paths).len() && i < answers.len() && answers[i]
                    && first_occurrences(paths)[i] == #[trigger] retain(
                    first_occurrences(paths),
                    answers,
                )[k],
{
    let firsts = first_occurrences(paths);
    let kept = retain(firsts, answers);
    lemma_first_occurrences(paths);
    let at = lemma_retain_embed(firsts, answers);
    assert(is_subsequence(kept, firsts));
    lemma_subsequence_transitive(kept, firsts, paths);
    lemma_subsequence_distinct(kept, firsts);
    assert forall|k: int| 0 <= k < kept.len() implies exists|i: int|
        0 <= i < firsts.len() && i < answers.len() && answers[i] && firsts[i] == #[trigger] kept[k] by {
        let i = at[k];
        assert(0 <= i < firsts.len() && i < answers.len() && answers[i] && firsts[i] == kept[k]);
    }
}

/// Whether `paths` has an item `i`, and a path before it is the same path.
pub fn is_seen_before(paths: &Vec<Vec<u8>>, i: usize) -> (seen: bool)
    ensures
        seen == (i < paths.len() && seen_before(views(paths@), i as int)),
{
    if i >= paths.len() {
        return false;
    }
    let mut j: usize = 0;
    while j < i
        invariant
            j <= i < paths.len(),
            forall|k: int|
                0 <= k < j ==> !same_path(#[trigger] views(paths@)[k], views(paths@)[i as int]),
        decreases i - j,
    {
        if is_same_path(paths[j].as_slice(), paths[i].as_slice()) {
            assert(same_path(views(paths@)[j as int], views(paths@)[i as int]));
            return true;
        }
        j += 1;
    }
    false
}

/// Keeps each path only where it first occurs. Each path is compared with
/// every path before it.
pub fn keep_first_occurrences(paths: &Vec<Vec<u8>>) -> (firsts: Vec<Vec<u8>>)
    ensures
        views(firsts@) == first_occurrences(views(paths@)),
        is_subsequence(views(firsts@), views(paths@)),
        all_distinct(views(firsts@)),
{
    proof {
        lemma_first_occurrences(views(paths@));
    }
    let mut firsts: Vec<Vec<u8>> = Vec::new();
    let mut i: usize = 0;
    while i < paths.len()
        invariant
            i <= paths.len(),
            views(firsts@) == first_occurrences(views(paths@).take(i as int)),
        decreases paths.len() - i,
    {
        let ghost all = views(paths@);
        let ghost upto = all.take(i + 1);
        proof {
            assert(upto.drop_last() == all.take(i as int));
            assert(upto.last() == paths@[i as int]@);
            assert(seen_before(upto, i as int) == seen_before(all, i as int)) by {
                assert(forall|j: int| 0 <= j <= i ==> upto[j] == all[j]);
            }
        }
        let ghost before = views(firsts@);
        if !is_seen_before(paths, i) {
            firsts.push(to_vec(paths[i].as_slice()));
            assert(views(firsts@) == before.push(paths@[i as int]@));
        }
        i += 1;
    }
    assert(views(paths@).take(i as int) == views(paths@));
    firsts
}

/// Keeps the paths that were found to exist: `found[i]` is the answer for
/// `paths[i]`. A path without an answer is not kept.
pub fn retain_existing(paths: &Vec<Vec<u8>>, found: &[bool]) -> (kept: Vec<Vec<u8>>)
    ensures
        views(kept@) == retain(views(paths@), found@),
{
    let mut kept: Vec<Vec<u8>> = Vec::new();
    let mut i: usize = 0;
    while i < paths.len()
        invariant
            i <= paths.len(),
            views(kept@) == retain(views(paths@).take(i as int), found@),
        decreases paths.len() - i,
    {
        proof {
            let upto = views(paths@).take(i + 1);
            assert(upto.drop_last() == views(paths@).take(i as int));
            assert(upto.last() == paths@[i as int]@);
        }
        let ghost before = views(kept@);
        if i < found.len() && found[i] {
            kept.push(to_vec(paths[i].as_slice()));
            assert(views(kept@) == before.push(paths@[i as int]@));
        }
        i += 1;
    }
    assert(views(paths@).take(i as int) == views(paths@));
    kept
}

} // verus!

//! Cleaning a path list: every entry is expanded, each expansion is kept only
//! where it first occurs, and of those the ones that exist are kept.

use crate::bytes::views;
use crate::environment::{Environment, SpecEnvironment};
use crate::expand::{expand, expand_path};
use crate::list::{
    is_joined, join_list, join_paths, split, split_paths, JoinPathsError, LIST_DELIMITER,
};
use crate::select::{
    all_distinct, first_occurrences, is_subsequence, keep_first_occurrences, lemma_kept_paths,
    retain, retain_existing,
};
use vstd::prelude::*;

verus! {

/// The expansions of `entries`, in order. An entry that cannot be expanded
/// leaves no trace.
pub open spec fn expand_all(entries: Seq<Seq<u8>>, env: SpecEnvironment) -> Seq<Seq<u8>>
    decreases entries.len(),
{
    if entries.len() == 0 {
        Seq::<Seq<u8>>::empty()
    } else {
        let earlier = expand_all(entries.drop_last(), env);
        match expand(entries.last(), env) {
            Some(path) => earlier.push(path),
            None => earlier,
        }
    }
}

/// The paths of the list `input` whose existence decides what the cleaned list
/// holds: the expansions of its entries, each only where it first occurs.
pub open spec fn candidates(input: Seq<u8>, env: SpecEnvironment) -> Seq<Seq<u8>> {
    first_occurrences(expand_all(split(input, LIST_DELIMITER), env))
}

/// The answers that `oracle` gives for `paths`.
pub open spec fn answers_of(paths: Seq<Seq<u8>>, oracle: spec_fn(Seq<u8>) -> bool) -> Seq<bool> {
    Seq::new(paths.len(), |i: int| oracle(paths[i]))
}

/// The entries of the cleaned list, where `oracle` says which paths exist.
pub open spec fn cleaned(
    input: Seq<u8>,
    env: SpecEnvironment,
    oracle: spec_fn(Seq<u8>) -> bool,
) -> Seq<Seq<u8>> {
    retain(candidates(input, env), answers_of(candidates(input, env), oracle))
}

/// The cleaned list, where `oracle` says which paths exist. There is none if
/// an entry that is kept holds the list delimiter.
pub open spec fn clean(
    input: Seq<u8>,
    env: SpecEnvironment,
    oracle: spec_fn(Seq<u8>) -> bool,
) -> Option<Seq<u8>> {
    join_list(cleaned(input, env, oracle))
}

/// Whether `answer` is something that `probe` may return for `path`.
pub open spec fn may_answer<F: Fn(&[u8]) -> bool>(probe: F, path: Seq<u8>, answer: bool) -> bool {
    exists|p: &[u8]| p@ == path && #[trigger] probe.ensures((p,), answer)
}

/// Whether `answers` holds, for each of `paths` in turn, something that
/// `probe` may return for it.
pub open spec fn probed<F: Fn(&[u8]) -> bool>(
    probe: F,
    paths: Seq<Seq<u8>>,
    answers: Seq<bool>,
) -> bool {
    &&& answers.len() == paths.len()
    &&& forall|i: int| 0 <= i < paths.len() ==> may_answer(probe, paths[i], #[trigger] answers[i])
}

/// Whether `probe` answers as `oracle` does: whatever it returns for a path is
/// what `oracle` says of that path.
pub open spec fn answers_as<F: Fn(&[u8]) -> bool>(
    probe: F,
    oracle: spec_fn(Seq<u8>) -> bool,
) -> bool {
    forall|p: &[u8], answer: bool| #[trigger] probe.ensures((p,), answer) ==> answer == oracle(p@)
}

/// Whether `probe` may be called with each of `paths`.
pub open spec fn accepts<F: Fn(&[u8]) -> bool>(probe: F, paths: Seq<Seq<u8>>) -> bool {
    forall|p: &[u8]| paths.contains(p@) ==> #[trigger] probe.requires((p,))
}

/// Whether `from` says which entry each of the expansions comes from:
/// `expand_all(entries, env)[i]` is what `entries[from[i]]` expands to, the
/// expansions stand in the order of their entries, and every entry that can
/// be expanded has its expansion among them.
pub open spec fn traces(entries: Seq<Seq<u8>>, env: SpecEnvironment, from: Seq<int>) -> bool {
    &&& from.len() == expand_all(entries, env).len()
    &&& forall|i: int|
        0 <= i < from.len() ==> 0 <= #[trigger] from[i] < entries.len() && expand(
            entries[from[i]],
            env,
        ) == Some(expand_all(entries, env)[i])
    &&& forall|i: int, k: int| 0 <= i < k < from.len() ==> #[trigger] from[i] < #[trigger] from[k]
    &&& forall|j: int|
        0 <= j < entries.len() && (#[trigger] expand(entries[j], env)) is Some ==> exists|i: int|
            0 <= i < from.len() && #[trigger] from[i] == j
}

/// Which entry each of the expansions comes from.
pub proof fn lemma_expand_all_traced(entries: Seq<Seq<u8>>, env: SpecEnvironment) -> (from:
    Seq<int>)
    ensures
        traces(entries, env, from),
    decreases entries.len(),
{
    if entries.len() == 0 {
        Seq::<int>::empty()
    } else {
        let shorter = entries.drop_last();
        let earlier = lemma_expand_all_traced(shorter, env);
        let last = entries.len() - 1;
        assert(entries.last() == entries[last]);
        assert forall|i: int| 0 <= i < earlier.len() implies entries[#[trigger] earlier[i]]
            == shorter[earlier[i]] by {}
        let from = if expand(entries[last], env) is Some {
            earlier.push(last)
        } else {
            earlier
        };
        assert forall|j: int|
            0 <= j < entries.len() && (#[trigger] expand(entries[j], env)) is Some implies (exists|
            i: int|
            0 <= i < from.len() && #[trigger] from[i] == j) by {
            if j < last {
                assert(shorter[j] == entries[j]);
                assert(expand(shorter[j], env) is Some);
                let i = choose|i: int| 0 <= i < earlier.len() && #[trigger] earlier[i] == j;
                assert(from[i] == j);
            } else {
                assert(from[earlier.len() as int] == j);
            }
        }
        from
    }
}

/// Paths that expand to themselves are left as they are by `expand_all`.
pub proof fn lemma_expand_all_fixed(paths: Seq<Seq<u8>>, env: SpecEnvironment)
    requires
        forall|k: int| 0 <= k < paths.len() ==> expand(#[trigger] paths[k], env) == Some(paths[k]),
    ensures
        expand_all(paths, env) == paths,
    decreases paths.len(),
{
    if paths.len() > 0 {
        let shorter = paths.drop_last();
        assert forall|k: int| 0 <= k < shorter.len() implies expand(#[trigger] shorter[k], env)
            == Some(shorter[k]) by {
            assert(shorter[k] == paths[k]);
        }
        lemma_expand_all_fixed(shorter, env);
        assert(paths.last() == paths[paths.len() - 1]);
        assert(shorter.push(paths.last()) == paths);
    }
}

/// Whatever the answers, the entries that are kept stand in the order in which
/// the expansions of the list's entries stand, no two of them are the same
/// path, and each of them was answered with `true`.
pub proof fn lemma_kept_entries(input: Seq<u8>, env: SpecEnvironment, answers: Seq<bool>)
    ensures
        is_subsequence(
            retain(candidates(input, env), answers),
            expand_all(split(input, LIST_DELIMITER), env),
        ),
        all_distinct(retain(candidates(input, env), answers)),
        forall|k: int|
            0 <= k < retain(candidates(input, env), answers).len() ==> exists|i: int|
                0 <= i < candidates(input, env).len() && i < answers.len() && answers[i]
                    && candidates(input, env)[i] == #[trigger] retain(
                    candidates(input, env),
                    answers,
                )[k],
{
    lemma_kept_paths(expand_all(split(input, LIST_DELIMITER), env), answers);
}

/// The answers of a probe that answers as `oracle` does are those of `oracle`.
pub proof fn lemma_probed_as_oracle<F: Fn(&[u8]) -> bool>(
    probe: F,
    oracle: spec_fn(Seq<u8>) -> bool,
    paths: Seq<Seq<u8>>,
    answers: Seq<bool>,
)
    requires
        answers_as(probe, oracle),
        probed(probe, paths, answers),
    ensures
        answers == answers_of(paths, oracle),
{
    assert forall|i: int| 0 <= i < paths.len() implies answers[i] == oracle(paths[i]) by {
        assert(may_answer(probe, paths[i], answers[i]));
    }
    assert(answers =~= answers_of(paths, oracle));
}

/// Expands each of `entries`, and drops those that cannot be expanded.
pub fn expand_paths(entries: &Vec<Vec<u8>>, env: &Environment) -> (paths: Vec<Vec<u8>>)
    ensures
        views(paths@) == expand_all(views(entries@), env@),
{
    let mut paths: Vec<Vec<u8>> = Vec::new();
    let mut i: usize = 0;
    while i < entries.len()
        invariant
            i <= entries.len(),
            views(paths@) == expand_all(views(entries@).take(i as int), env@),
        decreases entries.len() - i,
    {
        proof {
            let upto = views(entries@).take(i + 1);
            assert(upto.drop_last() == views(entries@).take(i as int));
            assert(upto.last() == entries@[i as int]@);
        }
        let ghost before = views(paths@);
        match expand_path(entries[i].as_slice(), env) {
            Some(path) => {
                paths.push(path);
                assert(views(paths@) == before.push(path@));
            },
            None => {},
        }
        i += 1;
    }
    assert(views(entries@).take(i as int) == views(entries@));
    paths
}

/// The paths of the list `input` whose existence decides what the cleaned list
/// holds, in the order in which they are to be looked up: the expansions of the
/// entries, each only where it first occurs.
pub fn candidate_paths(input: &[u8], env: &Environment) -> (paths: Vec<Vec<u8>>)
    ensures
        views(paths@) == candidates(input@, env@),
{
    let entries = split_paths(input);
    let expanded = expand_paths(&entries, env);
    keep_first_occurrences(&expanded)
}

/// The cleaned list for `input`, given the answers to the existence of its
/// candidates: `found[i]` says whether `candidates(input, env)[i]` exists.
///
/// Fails exactly when a path that is kept holds the list delimiter.
pub fn clean_path_given(input: &[u8], env: &Environment, found: &[bool]) -> (r: Result<
    Vec<u8>,
    JoinPathsError,
>)
    ensures
        is_joined(r, retain(candidates(input@, env@), found@)),
{
    let paths = candidate_paths(input, env);
    let kept = retain_existing(&paths, found);
    join_paths(&kept)
}

/// Asks `probe` of each of `paths`, in order.
pub fn ask_each<F: Fn(&[u8]) -> bool>(paths: &Vec<Vec<u8>>, probe: &F) -> (found: Vec<bool>)
    requires
        accepts(*probe, views(paths@)),
    ensures
        probed(*probe, views(paths@), found@),
{
    let mut found: Vec<bool> = Vec::new();
    let mut i: usize = 0;
    while i < paths.len()
        invariant
            i <= paths.len(),
            accepts(*probe, views(paths@)),
            probed(*probe, views(paths@).take(i as int), found@),
        decreases paths.len() - i,
    {
        let path = paths[i].as_slice();
        assert(views(paths@).contains(path@)) by {
            assert(views(paths@)[i as int] == path@);
        }
        let answer = probe(path);
        assert(may_answer(*probe, views(paths@)[i as int], answer)) by {
            assert(probe.ensures((path,), answer));
        }
        found.push(answer);
        i += 1;
    }
    assert(views(paths@).take(i as int) == views(paths@));
    found
}

/// The entries of the cleaned list for `input`: its entries are expanded, each
/// expansion is kept only where it first occurs, and of those the ones for
/// which `probe` returns `true`. `probe` is asked once for each candidate, in
/// order.
pub fn clean_entries<F: Fn(&[u8]) -> bool>(input: &[u8], env: &Environment, probe: F) -> (kept:
    Vec<Vec<u8>>)
    requires
        accepts(probe, candidates(input@, env@)),
    ensures
        exists|answers: Seq<bool>|
            #[trigger] probed(probe, candidates(input@, env@), answers) && views(kept@) == retain(
                candidates(input@, env@),
                answers,
            ),
        forall|oracle: spec_fn(Seq<u8>) -> bool| #[trigger]
            answers_as(probe, oracle) ==> views(kept@) == cleaned(input@, env@, oracle),
        is_subsequence(views(kept@), expand_all(split(input@, LIST_DELIMITER), env@)),
        all_distinct(views(kept@)),
        forall|k: int| 0 <= k < kept.len() ==> may_answer(probe, #[trigger] views(kept@)[k], true),
{
    let paths = candidate_paths(input, env);
    let found = ask_each(&paths, &probe);
    let kept = retain_existing(&paths, found.as_slice());
    proof {
        let answers = found@;
        assert(probed(probe, candidates(input@, env@), answers));
        lemma_kept_entries(input@, env@, answers);
        assert forall|k: int| 0 <= k < kept.len() implies may_answer(
            probe,
            #[trigger] views(kept@)[k],
            true,
        ) by {
            let i = choose|i: int|
                0 <= i < candidates(input@, env@).len() && i < answers.len() && answers[i]
                    && candidates(input@, env@)[i] == retain(candidates(input@, env@), answers)[k];
            assert(may_answer(probe, candidates(input@, env@)[i], answers[i]));
        }
        assert forall|oracle: spec_fn(Seq<u8>) -> bool| #[trigger]
            answers_as(probe, oracle) implies views(kept@) == cleaned(input@, env@, oracle) by {
            lemma_probed_as_oracle(probe, oracle, candidates(input@, env@), answers);
        }
    }
    kept
}

/// Cleans the path list `input`: its entries are expanded, each expansion is
/// kept only where it first occurs, of those the ones for which `probe`
/// returns `true` are kept, and these are joined into a list again.
///
/// Fails exactly when a path that is kept holds the list delimiter.
pub fn clean_path<F: Fn(&[u8]) -> bool>(input: &[u8], env: &Environment, probe: F) -> (r: Result<
    Vec<u8>,
    JoinPathsError,
>)
    requires
        accepts(probe, candidates(input@, env@)),
    ensures
        exists|answers: Seq<bool>|
            #[trigger] probed(probe, candidates(input@, env@), answers) && is_joined(
                r,
                retain(candidates(input@, env@), answers),
            ),
        forall|oracle: spec_fn(Seq<u8>) -> bool| #[trigger]
            answers_as(probe, oracle) ==> is_joined(r, cleaned(input@, env@, oracle)),
{
    let kept = clean_entries(input, env, probe);
    join_paths(&kept)
}

} // verus!

//! What holds of every cleaned list.

use crate::bytes::has_byte;
use crate::clean::{
    answers_of, candidates, clean, cleaned, expand_all, lemma_expand_all_fixed,
    lemma_expand_all_traced, lemma_kept_entries,
};
use crate::component::same_path;
use crate::component::{
    is_home_marker, lemma_path_components_valid, path_components, valid_component, SpecComponent,
};
use crate::environment::SpecEnvironment;
use crate::expand::{
    expand, expand_components, lemma_empty_path_components,
    lemma_push_all_components, lemma_push_all_concat, lemma_written_components, push_all,
};
use crate::list::{all_free, join, lemma_split_join, split, LIST_DELIMITER};
use crate::select::{
    all_distinct, embeds, first_occurrences, is_subsequence, lemma_first_occurrences_hold,
    lemma_first_occurrences_of_distinct, lemma_retain_all, lemma_retain_holds, retain,
    seen_before,
};
use vstd::prelude::*;

verus! {

/// No two entries of a cleaned list are the same path.
pub proof fn lemma_cleaned_distinct(
    input: Seq<u8>,
    env: SpecEnvironment,
    oracle: spec_fn(Seq<u8>) -> bool,
)
    ensures
        all_distinct(cleaned(input, env, oracle)),
{
    lemma_kept_entries(input, env, answers_of(candidates(input, env), oracle));
}

/// The entries of a cleaned list stand in the order in which the expansions of
/// the entries of the input stand: they are a subsequence of them.
pub proof fn lemma_cleaned_in_order(
    input: Seq<u8>,
    env: SpecEnvironment,
    oracle: spec_fn(Seq<u8>) -> bool,
)
    ensures
        is_subsequence(cleaned(input, env, oracle), expand_all(split(input, LIST_DELIMITER), env)),
{
    lemma_kept_entries(input, env, answers_of(candidates(input, env), oracle));
}

/// Every entry of a cleaned list exists.
pub proof fn lemma_cleaned_exist(
    input: Seq<u8>,
    env: SpecEnvironment,
    oracle: spec_fn(Seq<u8>) -> bool,
)
    ensures
        forall|k: int|
            0 <= k < cleaned(input, env, oracle).len() ==> oracle(
                #[trigger] cleaned(input, env, oracle)[k],
            ),
{
    let firsts = candidates(input, env);
    let answers = answers_of(firsts, oracle);
    let kept = cleaned(input, env, oracle);
    lemma_kept_entries(input, env, answers);
    assert forall|k: int| 0 <= k < kept.len() implies oracle(#[trigger] kept[k]) by {
        let i = choose|i: int|
            0 <= i < firsts.len() && i < answers.len() && answers[i] && firsts[i] == kept[k];
        assert(answers[i] == oracle(firsts[i]));
    }
}

/// Nothing is dropped without a reason: what an entry of the input expands
/// to is an entry of the cleaned list if it exists and no entry before it
/// expands to the same path.
pub proof fn lemma_cleaned_holds(
    input: Seq<u8>,
    env: SpecEnvironment,
    oracle: spec_fn(Seq<u8>) -> bool,
    j: int,
)
    requires
        0 <= j < split(input, LIST_DELIMITER).len(),
        expand(split(input, LIST_DELIMITER)[j], env) is Some,
        oracle(expand(split(input, LIST_DELIMITER)[j], env)->Some_0),
        forall|k: int|
            0 <= k < j ==> match #[trigger] expand(split(input, LIST_DELIMITER)[k], env) {
                Some(earlier) => !same_path(
                    earlier,
                    expand(split(input, LIST_DELIMITER)[j], env)->Some_0,
                ),
                None => true,
            },
    ensures
        cleaned(input, env, oracle).contains(expand(split(input, LIST_DELIMITER)[j], env)->Some_0),
{
    let entries = split(input, LIST_DELIMITER);
    let expanded = expand_all(entries, env);
    let firsts = candidates(input, env);
    let path = expand(entries[j], env)->Some_0;
    let from = lemma_expand_all_traced(entries, env);
    let i = choose|i: int| 0 <= i < from.len() && #[trigger] from[i] == j;
    assert(!seen_before(expanded, i)) by {
        if seen_before(expanded, i) {
            let h = choose|h: int| 0 <= h < i && same_path(#[trigger] expanded[h], expanded[i]);
            assert(from[h] < from[i]);
            assert(expand(entries[from[h]], env) == Some(expanded[h]));
        }
    }
    lemma_first_occurrences_hold(expanded, i);
    let f = choose|f: int| 0 <= f < firsts.len() && firsts[f] == expanded[i];
    lemma_retain_holds(firsts, answers_of(firsts, oracle), f);
}

/// The entries of a cleaned list are the entries that were kept. The one
/// exception is the list with no entry: it is empty, and the empty list reads
/// as one empty entry.
pub proof fn lemma_entries_of_cleaned_list(
    input: Seq<u8>,
    env: SpecEnvironment,
    oracle: spec_fn(Seq<u8>) -> bool,
)
    requires
        clean(input, env, oracle) is Some,
    ensures
        cleaned(input, env, oracle).len() > 0 ==> split(
            clean(input, env, oracle).unwrap(),
            LIST_DELIMITER,
        ) == cleaned(input, env, oracle),
        cleaned(input, env, oracle).len() == 0 ==> clean(input, env, oracle).unwrap().len() == 0,
{
    let kept = cleaned(input, env, oracle);
    if kept.len() > 0 {
        lemma_split_join(kept, LIST_DELIMITER);
    }
}

/// Expansion touches the first component only: the expansion of a path
/// that starts with `.` or `~` has the components of the current or the home
/// directory, and then the components that followed the first; the expansion
/// of any other path has the components of the path.
pub proof fn lemma_expanded_components(path: Seq<u8>, env: SpecEnvironment)
    ensures
        expand(path, env) matches Some(expanded) ==> path_components(expanded) == {
            let cs = path_components(path);
            if cs.len() > 0 && cs[0] is CurDir {
                path_components(env.cwd->Some_0) + cs.skip(1)
            } else if cs.len() > 0 && is_home_marker(cs[0]) {
                path_components(env.home->Some_0) + cs.skip(1)
            } else {
                cs
            }
        },
{
    let cs = path_components(path);
    lemma_path_components_valid(path);
    if expand(path, env) is Some {
        if cs.len() > 0 && (cs[0] is CurDir || is_home_marker(cs[0])) {
            let dir = if cs[0] is CurDir {
                env.cwd->Some_0
            } else {
                env.home->Some_0
            };
            let rest = cs.skip(1);
            assert forall|i: int| 0 <= i < rest.len() implies valid_component(#[trigger] rest[i])
                && !(rest[i] is RootDir) by {
                assert(rest[i] == cs[i + 1]);
            }
            lemma_push_all_components(dir, rest);
        } else {
            lemma_written_components(cs);
        }
    }
}

/// The empty list is cleaned to the empty list, whether or not the empty path
/// exists.
pub proof fn lemma_clean_of_empty(env: SpecEnvironment, oracle: spec_fn(Seq<u8>) -> bool)
    ensures
        clean(Seq::<u8>::empty(), env, oracle) == Some(Seq::<u8>::empty()),
{
    let nothing = Seq::<u8>::empty();
    let entries = split(nothing, LIST_DELIMITER);
    assert(entries == seq![nothing]);
    lemma_empty_path_components();
    assert(seq![nothing].drop_last() == Seq::<Seq<u8>>::empty());
    assert(expand(nothing, env) == Some(nothing));
    assert(expand_all(seq![nothing], env) == seq![nothing]) by {
        assert(expand_all(Seq::<Seq<u8>>::empty(), env) == Seq::<Seq<u8>>::empty());
        assert(Seq::<Seq<u8>>::empty().push(nothing) == seq![nothing]);
    }
    assert(first_occurrences(seq![nothing]) == seq![nothing]) by {
        assert(first_occurrences(Seq::<Seq<u8>>::empty()) == Seq::<Seq<u8>>::empty());
        assert(!seen_before(seq![nothing], 0));
        assert(Seq::<Seq<u8>>::empty().push(nothing) == seq![nothing]);
    }
    let firsts = candidates(nothing, env);
    assert(firsts == seq![nothing]);
    let kept = cleaned(nothing, env, oracle);
    assert(retain(Seq::<Seq<u8>>::empty(), answers_of(firsts, oracle)) == Seq::<Seq<u8>>::empty());
    if oracle(nothing) {
        assert(kept == seq![nothing]) by {
            assert(Seq::<Seq<u8>>::empty().push(nothing) == seq![nothing]);
        }
        assert(!has_byte(nothing, LIST_DELIMITER));
        assert(all_free(kept, LIST_DELIMITER));
        assert(join(kept, LIST_DELIMITER) == nothing);
    } else {
        assert(kept == Seq::<Seq<u8>>::empty());
        assert(all_free(kept, LIST_DELIMITER));
        assert(join(kept, LIST_DELIMITER) == nothing);
    }
}

/// Cleaning is idempotent: a cleaned list is left as it is when it is cleaned
/// again, provided that each of its entries still exists and expands to
/// itself. (An entry does not expand to itself if it was made from a home or
/// current directory that is not written the way expansion writes a path:
/// from the home directory `/home/u/`, `~` expands to `/home/u/`, and that to
/// `/home/u`.)
pub proof fn lemma_clean_idempotent(
    input: Seq<u8>,
    env: SpecEnvironment,
    first: spec_fn(Seq<u8>) -> bool,
    second: spec_fn(Seq<u8>) -> bool,
)
    requires
        clean(input, env, first) is Some,
        forall|k: int|
            0 <= k < cleaned(input, env, first).len() ==> second(
                #[trigger] cleaned(input, env, first)[k],
            ),
        forall|k: int|
            0 <= k < cleaned(input, env, first).len() ==> expand(
                #[trigger] cleaned(input, env, first)[k],
                env,
            ) == Some(cleaned(input, env, first)[k]),
    ensures
        clean(clean(input, env, first).unwrap(), env, second) == clean(input, env, first),
{
    let kept = cleaned(input, env, first);
    let once = join(kept, LIST_DELIMITER);
    assert(clean(input, env, first) == Some(once));
    if kept.len() == 0 {
        lemma_clean_of_empty(env, second);
    } else {
        lemma_split_join(kept, LIST_DELIMITER);
        lemma_expand_all_fixed(kept, env);
        lemma_kept_entries(input, env, answers_of(candidates(input, env), first));
        lemma_first_occurrences_of_distinct(kept);
        assert(candidates(once, env) == kept);
        lemma_retain_all(kept, answers_of(kept, second));
        assert(cleaned(once, env, second) == kept);
    }
}

/// Whether `dir`, if there is one, is a directory that expansion leaves as it
/// is: it has a component, and it expands to itself.
pub open spec fn is_stable_directory(dir: Option<Seq<u8>>, env: SpecEnvironment) -> bool {
    dir matches Some(d) ==> path_components(d).len() > 0 && expand(d, env) == Some(d)
}

/// Whether expansion leaves the directories of `env` as they are.
pub open spec fn is_stable(env: SpecEnvironment) -> bool {
    is_stable_directory(env.home, env) && is_stable_directory(env.cwd, env)
}

/// Whether `dir` is an absolute path that is written the way expansion writes
/// a path: it starts at the root, with one separator between two components
/// and none at the end.
pub open spec fn is_absolute_and_normal(dir: Seq<u8>) -> bool {
    path_components(dir).len() > 0 && path_components(dir)[0] is RootDir && push_all(
        Seq::<u8>::empty(),
        path_components(dir),
    ) == dir
}

/// Expansion leaves an absolute path in normal form as it is, in every
/// environment.
pub proof fn lemma_absolute_and_normal_is_stable(dir: Seq<u8>, env: SpecEnvironment)
    requires
        is_absolute_and_normal(dir),
    ensures
        is_stable_directory(Some(dir), env),
{
}

/// A path that starts with the components of a stable directory expands to
/// that directory, extended by the components that follow.
proof fn lemma_expand_from_stable_directory(
    dir: Seq<u8>,
    rest: Seq<SpecComponent>,
    env: SpecEnvironment,
)
    requires
        is_stable_directory(Some(dir), env),
    ensures
        expand_components(path_components(dir) + rest, env) == Some(push_all(dir, rest)),
{
    let own = path_components(dir);
    let all = own + rest;
    assert(all[0] == own[0]);
    assert(all.skip(1) == own.skip(1) + rest);
    if own[0] is CurDir {
        let cwd = env.cwd->Some_0;
        lemma_push_all_concat(cwd, own.skip(1), rest);
    } else if is_home_marker(own[0]) {
        let home = env.home->Some_0;
        lemma_push_all_concat(home, own.skip(1), rest);
    } else {
        lemma_push_all_concat(Seq::<u8>::empty(), own, rest);
    }
}

/// Expansion settles at once: in an environment whose directories expansion
/// leaves as they are, what a path expands to expands to itself.
pub proof fn lemma_expansion_settles(path: Seq<u8>, env: SpecEnvironment)
    requires
        is_stable(env),
    ensures
        expand(path, env) matches Some(expanded) ==> expand(expanded, env) == Some(expanded),
{
    let cs = path_components(path);
    lemma_expanded_components(path, env);
    if expand(path, env) is Some {
        if cs.len() > 0 && cs[0] is CurDir {
            lemma_expand_from_stable_directory(env.cwd->Some_0, cs.skip(1), env);
        } else if cs.len() > 0 && is_home_marker(cs[0]) {
            lemma_expand_from_stable_directory(env.home->Some_0, cs.skip(1), env);
        }
    }
}

/// Cleaning is idempotent where expansion leaves the home directory and the
/// current directory as they are: a cleaned list whose entries all still
/// exist is left as it is when it is cleaned again.
pub proof fn lemma_clean_idempotent_in_stable_environment(
    input: Seq<u8>,
    env: SpecEnvironment,
    first: spec_fn(Seq<u8>) -> bool,
    second: spec_fn(Seq<u8>) -> bool,
)
    requires
        is_stable(env),
        clean(input, env, first) is Some,
        forall|k: int|
            0 <= k < cleaned(input, env, first).len() ==> second(
                #[trigger] cleaned(input, env, first)[k],
            ),
    ensures
        clean(clean(input, env, first).unwrap(), env, second) == clean(input, env, first),
{
    let kept = cleaned(input, env, first);
    let entries = split(input, LIST_DELIMITER);
    let expanded = expand_all(entries, env);
    lemma_kept_entries(input, env, answers_of(candidates(input, env), first));
    let from = lemma_expand_all_traced(entries, env);
    let at = choose|at: Seq<int>| embeds(kept, expanded, at);
    assert forall|k: int| 0 <= k < kept.len() implies expand(#[trigger] kept[k], env) == Some(
        kept[k],
    ) by {
        let i = at[k];
        assert(expanded[i] == kept[k]);
        lemma_expansion_settles(entries[from[i]], env);
    }
    lemma_clean_idempotent(input, env, first, second);
}

} // verus!

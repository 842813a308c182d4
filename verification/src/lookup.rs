//! Cleaning a path list with directories that are looked up when an entry
//! needs them: the home directory for an entry that starts with `~`, the
//! current directory for one that starts with `.`.

use crate::bytes::{option_view, views};
use crate::clean::{
    answers_as, ask_each, cleaned, expand_all, lemma_probed_as_oracle, probed,
};
use crate::environment::{finds, found_as, home_dir, may_find, SpecEnvironment};
use crate::expand::{expand, expand_path_with, looked_up, starts_at_cwd, starts_at_home};
use crate::list::{is_joined, join_paths, split, split_paths, JoinPathsError, LIST_DELIMITER};
use crate::select::{first_occurrences, keep_first_occurrences, retain, retain_existing};
use vstd::prelude::*;

verus! {

/// The expansions of `entries`, in order, where `entries[i]` is expanded with
/// the directories `envs[i]`. An entry that cannot be expanded leaves no
/// trace.
pub open spec fn expand_each(entries: Seq<Seq<u8>>, envs: Seq<SpecEnvironment>) -> Seq<Seq<u8>>
    decreases entries.len(),
{
    if entries.len() == 0 {
        Seq::<Seq<u8>>::empty()
    } else {
        let earlier = expand_each(entries.drop_last(), envs);
        match expand(entries.last(), envs[entries.len() - 1]) {
            Some(path) => earlier.push(path),
            None => earlier,
        }
    }
}

/// Whether `home` and `cwd` may be asked for the directories that `entries`
/// need.
pub open spec fn may_ask<H: Fn() -> Option<Vec<u8>>, C: Fn() -> Option<Vec<u8>>>(
    home: H,
    cwd: C,
    entries: Seq<Seq<u8>>,
) -> bool {
    forall|i: int|
        0 <= i < entries.len() ==> {
            &&& starts_at_home(#[trigger] entries[i]) ==> home.requires(())
            &&& starts_at_cwd(entries[i]) ==> cwd.requires(())
        }
}

/// Whether `envs[i]` holds, for each `i`, what `home` and `cwd` may find of
/// the directories that `entries[i]` needs.
pub open spec fn all_looked_up<H: Fn() -> Option<Vec<u8>>, C: Fn() -> Option<Vec<u8>>>(
    home: H,
    cwd: C,
    entries: Seq<Seq<u8>>,
    envs: Seq<SpecEnvironment>,
) -> bool {
    &&& envs.len() == entries.len()
    &&& forall|i: int|
        0 <= i < entries.len() ==> looked_up(home, cwd, entries[i], #[trigger] envs[i])
}

/// Whether `r` is a cleaned list for `input`, for the directories `envs` that
/// the lookups gave for its entries and the `answers` that the probe gave for
/// its candidates.
pub open spec fn is_cleaned_with<
    H: Fn() -> Option<Vec<u8>>,
    C: Fn() -> Option<Vec<u8>>,
    P: Fn(&[u8]) -> bool,
>(
    home: H,
    cwd: C,
    probe: P,
    input: Seq<u8>,
    envs: Seq<SpecEnvironment>,
    answers: Seq<bool>,
    r: Result<Vec<u8>, JoinPathsError>,
) -> bool {
    let entries = split(input, LIST_DELIMITER);
    let firsts = first_occurrences(expand_each(entries, envs));
    &&& all_looked_up(home, cwd, entries, envs)
    &&& probed(probe, firsts, answers)
    &&& is_joined(r, retain(firsts, answers))
}

/// Whether `r` is a cleaned list for `input`, for some home directories, the
/// current directories in `envs` that the lookup gave for its entries, and
/// the `answers` that the probe gave for its candidates.
pub open spec fn is_cleaned_for_user<C: Fn() -> Option<Vec<u8>>, P: Fn(&[u8]) -> bool>(
    cwd: C,
    probe: P,
    input: Seq<u8>,
    envs: Seq<SpecEnvironment>,
    answers: Seq<bool>,
    r: Result<Vec<u8>, JoinPathsError>,
) -> bool {
    let entries = split(input, LIST_DELIMITER);
    let firsts = first_occurrences(expand_each(entries, envs));
    &&& envs.len() == entries.len()
    &&& forall|i: int|
        0 <= i < entries.len() && starts_at_cwd(entries[i]) ==> may_find(
            cwd,
            (#[trigger] envs[i]).cwd,
        )
    &&& probed(probe, firsts, answers)
    &&& is_joined(r, retain(firsts, answers))
}

/// Whether no entry of the list `input` starts with `~`.
pub open spec fn needs_no_home(input: Seq<u8>) -> bool {
    forall|i: int|
        0 <= i < split(input, LIST_DELIMITER).len() ==> !starts_at_home(
            #[trigger] split(input, LIST_DELIMITER)[i],
        )
}

/// Entries that expand alike with two sequences of directories have the same
/// expansions with both.
pub proof fn lemma_expand_each_alike(
    entries: Seq<Seq<u8>>,
    a: Seq<SpecEnvironment>,
    b: Seq<SpecEnvironment>,
)
    requires
        forall|i: int|
            0 <= i < entries.len() ==> expand(#[trigger] entries[i], a[i]) == expand(
                entries[i],
                b[i],
            ),
    ensures
        expand_each(entries, a) == expand_each(entries, b),
    decreases entries.len(),
{
    if entries.len() > 0 {
        let shorter = entries.drop_last();
        assert forall|i: int| 0 <= i < shorter.len() implies expand(#[trigger] shorter[i], a[i])
            == expand(shorter[i], b[i]) by {
            assert(shorter[i] == entries[i]);
        }
        lemma_expand_each_alike(shorter, a, b);
        assert(entries.last() == entries[entries.len() - 1]);
    }
}

/// Entries that each expand with their own directories as they do with `env`
/// have the expansions that they have with `env`.
pub proof fn lemma_expand_each_same(
    entries: Seq<Seq<u8>>,
    envs: Seq<SpecEnvironment>,
    env: SpecEnvironment,
)
    requires
        forall|i: int|
            0 <= i < entries.len() ==> expand(#[trigger] entries[i], envs[i]) == expand(
                entries[i],
                env,
            ),
    ensures
        expand_each(entries, envs) == expand_all(entries, env),
    decreases entries.len(),
{
    if entries.len() > 0 {
        let shorter = entries.drop_last();
        assert forall|i: int| 0 <= i < shorter.len() implies expand(
            #[trigger] shorter[i],
            envs[i],
        ) == expand(shorter[i], env) by {
            assert(shorter[i] == entries[i]);
        }
        lemma_expand_each_same(shorter, envs, env);
        assert(entries.last() == entries[entries.len() - 1]);
    }
}

/// Expands each of `entries` with the directory that `home` or `cwd` finds
/// for it, and drops those that cannot be expanded. A lookup is asked once for
/// each entry that needs it, in order.
pub fn expand_paths_with<H: Fn() -> Option<Vec<u8>>, C: Fn() -> Option<Vec<u8>>>(
    entries: &Vec<Vec<u8>>,
    home: &H,
    cwd: &C,
) -> (paths: Vec<Vec<u8>>)
    requires
        may_ask(*home, *cwd, views(entries@)),
    ensures
        exists|envs: Seq<SpecEnvironment>| #[trigger]
            all_looked_up(*home, *cwd, views(entries@), envs) && views(paths@) == expand_each(
                views(entries@),
                envs,
            ),
        forall|env: SpecEnvironment| #[trigger]
            found_as(*home, *cwd, env) ==> views(paths@) == expand_all(views(entries@), env),
{
    let mut paths: Vec<Vec<u8>> = Vec::new();
    let ghost mut envs: Seq<SpecEnvironment> = Seq::empty();
    let mut i: usize = 0;
    while i < entries.len()
        invariant
            i <= entries.len(),
            may_ask(*home, *cwd, views(entries@)),
            envs.len() == i,
            forall|j: int|
                0 <= j < i ==> looked_up(*home, *cwd, views(entries@)[j], #[trigger] envs[j]),
            views(paths@) == expand_each(views(entries@).take(i as int), envs),
            forall|env: SpecEnvironment| #[trigger]
                found_as(*home, *cwd, env) ==> views(paths@) == expand_all(
                    views(entries@).take(i as int),
                    env,
                ),
        decreases entries.len() - i,
    {
        let entry = entries[i].as_slice();
        assert(views(entries@)[i as int] == entry@);
        let expanded = expand_path_with(entry, home, cwd);
        let ghost before = views(paths@);
        proof {
            let env = choose|env: SpecEnvironment| #[trigger]
                looked_up(*home, *cwd, entry@, env) && option_view(expanded) == expand(
                    entry@,
                    env,
                );
            let upto = views(entries@).take(i + 1);
            assert(upto.drop_last() == views(entries@).take(i as int));
            assert(upto.last() == entry@);
            lemma_expand_each_alike(views(entries@).take(i as int), envs, envs.push(env));
            envs = envs.push(env);
        }
        match expanded {
            Some(path) => {
                paths.push(path);
                assert(views(paths@) == before.push(path@));
            },
            None => {},
        }
        i += 1;
    }
    assert(views(entries@).take(i as int) == views(entries@));
    assert(all_looked_up(*home, *cwd, views(entries@), envs));
    paths
}

/// Cleans the path list `input`: its entries are expanded, each with the
/// directory that `home` or `cwd` finds for it, each expansion is kept only
/// where it first occurs, of those the ones for which `probe` returns `true`
/// are kept, and these are joined into a list again.
///
/// Fails exactly when a path that is kept holds the list delimiter.
pub fn clean_path_with<
    H: Fn() -> Option<Vec<u8>>,
    C: Fn() -> Option<Vec<u8>>,
    P: Fn(&[u8]) -> bool,
>(input: &[u8], home: H, cwd: C, probe: P) -> (r: Result<Vec<u8>, JoinPathsError>)
    requires
        may_ask(home, cwd, split(input@, LIST_DELIMITER)),
        forall|p: &[u8]| probe.requires((p,)),
    ensures
        exists|envs: Seq<SpecEnvironment>, answers: Seq<bool>| #[trigger]
            is_cleaned_with(home, cwd, probe, input@, envs, answers, r),
        forall|env: SpecEnvironment, oracle: spec_fn(Seq<u8>) -> bool|
            #![trigger found_as(home, cwd, env), answers_as(probe, oracle)]
            found_as(home, cwd, env) && answers_as(probe, oracle) ==> is_joined(
                r,
                cleaned(input@, env, oracle),
            ),
{
    let entries = split_paths(input);
    let expanded = expand_paths_with(&entries, &home, &cwd);
    let firsts = keep_first_occurrences(&expanded);
    let found = ask_each(&firsts, &probe);
    let kept = retain_existing(&firsts, found.as_slice());
    let r = join_paths(&kept);
    proof {
        let envs = choose|envs: Seq<SpecEnvironment>| #[trigger]
            all_looked_up(home, cwd, views(entries@), envs) && views(expanded@) == expand_each(
                views(entries@),
                envs,
            );
        assert(is_cleaned_with(home, cwd, probe, input@, envs, found@, r));
        assert forall|env: SpecEnvironment, oracle: spec_fn(Seq<u8>) -> bool|
            #![trigger found_as(home, cwd, env), answers_as(probe, oracle)]
            found_as(home, cwd, env) && answers_as(probe, oracle) implies is_joined(
            r,
            cleaned(input@, env, oracle),
        ) by {
            lemma_probed_as_oracle(probe, oracle, views(firsts@), found@);
        }
    }
    r
}

/// Cleans the path list `input` as `clean_path_with` does, with the home
/// directory that is found for the user.
///
/// Fails exactly when a path that is kept holds the list delimiter.
pub fn clean_path_for_user<C: Fn() -> Option<Vec<u8>>, P: Fn(&[u8]) -> bool>(
    input: &[u8],
    cwd: C,
    probe: P,
) -> (r: Result<Vec<u8>, JoinPathsError>)
    requires
        forall|i: int|
            0 <= i < split(input@, LIST_DELIMITER).len() && starts_at_cwd(
                #[trigger] split(input@, LIST_DELIMITER)[i],
            ) ==> cwd.requires(()),
        forall|p: &[u8]| probe.requires((p,)),
    ensures
        exists|envs: Seq<SpecEnvironment>, answers: Seq<bool>| #[trigger]
            is_cleaned_for_user(cwd, probe, input@, envs, answers, r),
        forall|env: SpecEnvironment, oracle: spec_fn(Seq<u8>) -> bool|
            #![trigger finds(cwd, env.cwd), answers_as(probe, oracle)]
            needs_no_home(input@) && finds(cwd, env.cwd) && answers_as(probe, oracle)
                ==> is_joined(r, cleaned(input@, env, oracle)),
{
    let r = clean_path_with(input, home_dir, cwd, probe);
    proof {
        let entries = split(input@, LIST_DELIMITER);
        let (envs, answers) = choose|envs: Seq<SpecEnvironment>, answers: Seq<bool>| #[trigger]
            is_cleaned_with(home_dir, cwd, probe, input@, envs, answers, r);
        assert(is_cleaned_for_user(cwd, probe, input@, envs, answers, r));
        assert forall|env: SpecEnvironment, oracle: spec_fn(Seq<u8>) -> bool|
            #![trigger finds(cwd, env.cwd), answers_as(probe, oracle)]
            needs_no_home(input@) && finds(cwd, env.cwd) && answers_as(probe, oracle) implies is_joined(
            r,
            cleaned(input@, env, oracle),
        ) by {
            assert forall|i: int| 0 <= i < entries.len() implies expand(
                #[trigger] entries[i],
                envs[i],
            ) == expand(entries[i], env) by {
                assert(looked_up(home_dir, cwd, entries[i], envs[i]));
            }
            lemma_expand_each_same(entries, envs, env);
            lemma_probed_as_oracle(
                probe,
                oracle,
                first_occurrences(expand_all(entries, env)),
                answers,
            );
        }
    }
    r
}

} // verus!

//! Expansion of a path: a leading `.` becomes the current directory, a leading
//! `~` the home directory, and the path is written out again component by
//! component. A `.` or `~` further on in the path is written out as it is.

use crate::bytes::{append, has_byte, option_view, to_vec};
use crate::component::{
    component_bytes, component_views, components, is_home_marker, is_rooted, path_components,
    piece_component, pieces_components, valid_component, valid_components, Component,
    SpecComponent, DOT, SEPARATOR,
};
use crate::environment::{found_as, may_find, Environment, SpecEnvironment};
use crate::list::{lemma_split_append_free, lemma_split_free, split};
use vstd::prelude::*;

verus! {

/// The path `buf` extended by `part`.
///
/// A `part` that starts with a separator replaces `buf`. Otherwise `part` is
/// appended, after a separator unless `buf` is empty or ends with one.
pub open spec fn pushed(buf: Seq<u8>, part: Seq<u8>) -> Seq<u8> {
    if is_rooted(part) {
        part
    } else if buf.len() > 0 && buf.last() != SEPARATOR {
        buf.push(SEPARATOR) + part
    } else {
        buf + part
    }
}

/// The path `buf` extended by each of the components `cs` in turn.
pub open spec fn push_all(buf: Seq<u8>, cs: Seq<SpecComponent>) -> Seq<u8>
    decreases cs.len(),
{
    if cs.len() == 0 {
        buf
    } else {
        pushed(push_all(buf, cs.drop_last()), component_bytes(cs.last()))
    }
}

/// What the components `cs` expand to.
///
/// Only the first component is ever replaced: `.` by the current directory, `~`
/// by the home directory. The components after it are appended as they are. If
/// the directory that is needed is not known, there is no expansion.
pub open spec fn expand_components(cs: Seq<SpecComponent>, env: SpecEnvironment) -> Option<
    Seq<u8>,
> {
    if cs.len() > 0 && cs[0] is CurDir {
        match env.cwd {
            Some(dir) => Some(push_all(dir, cs.skip(1))),
            None => None,
        }
    } else if cs.len() > 0 && is_home_marker(cs[0]) {
        match env.home {
            Some(dir) => Some(push_all(dir, cs.skip(1))),
            None => None,
        }
    } else {
        Some(push_all(Seq::<u8>::empty(), cs))
    }
}

/// What `path` expands to: the expansion of its components.
pub open spec fn expand(path: Seq<u8>, env: SpecEnvironment) -> Option<Seq<u8>> {
    expand_components(path_components(path), env)
}

/// Whether `path` starts with `.`, so that its expansion needs the current
/// directory.
pub open spec fn starts_at_cwd(path: Seq<u8>) -> bool {
    path_components(path).len() > 0 && path_components(path)[0] is CurDir
}

/// Whether `path` starts with `~`, so that its expansion needs the home
/// directory.
pub open spec fn starts_at_home(path: Seq<u8>) -> bool {
    path_components(path).len() > 0 && is_home_marker(path_components(path)[0])
}

/// Whether `env` holds, of the directories that the expansion of `path` needs,
/// what `home` and `cwd` may find.
pub open spec fn looked_up<H: Fn() -> Option<Vec<u8>>, C: Fn() -> Option<Vec<u8>>>(
    home: H,
    cwd: C,
    path: Seq<u8>,
    env: SpecEnvironment,
) -> bool {
    &&& starts_at_home(path) ==> may_find(home, env.home)
    &&& starts_at_cwd(path) ==> may_find(cwd, env.cwd)
}

/// The empty path has no components.
pub proof fn lemma_empty_path_components()
    ensures
        path_components(Seq::<u8>::empty()) == Seq::<SpecComponent>::empty(),
{
    let nothing = Seq::<u8>::empty();
    assert(split(nothing, SEPARATOR) == seq![nothing]);
    assert(seq![nothing].drop_last() == Seq::<Seq<u8>>::empty());
    assert(pieces_components(Seq::<Seq<u8>>::empty()) == Seq::<SpecComponent>::empty());
    assert(pieces_components(seq![nothing]) == Seq::<SpecComponent>::empty());
}

/// A path that is extended by a component has that component as its new
/// last one, and the others as before. The root can only be put on the empty
/// path.
pub proof fn lemma_pushed_components(buf: Seq<u8>, c: SpecComponent)
    requires
        valid_component(c),
        buf.len() > 0 ==> !(c is RootDir),
    ensures
        path_components(pushed(buf, component_bytes(c))) == path_components(buf).push(c),
{
    let part = component_bytes(c);
    let longer = pushed(buf, part);
    let none = Seq::<SpecComponent>::empty();
    assert(pieces_components(Seq::<Seq<u8>>::empty()) == none);
    if c is RootDir {
        let nothing = Seq::<u8>::empty();
        assert(longer == part);
        lemma_empty_path_components();
        assert(part.drop_last() == nothing);
        assert(split(nothing, SEPARATOR) == seq![nothing]);
        assert(split(part, SEPARATOR) == seq![nothing, nothing]);
        assert(seq![nothing, nothing].drop_last() == seq![nothing]);
        assert(seq![nothing].drop_last() == Seq::<Seq<u8>>::empty());
        assert(pieces_components(seq![nothing]) == none);
        assert(pieces_components(seq![nothing, nothing]) == none);
        assert(path_components(part) =~= none.push(c));
    } else {
        assert(!has_byte(part, SEPARATOR)) by {
            if !(c is Normal) && has_byte(part, SEPARATOR) {
                let i = choose|i: int| 0 <= i < part.len() && part[i] == SEPARATOR;
                assert(part[i] == DOT);
            }
        }
        assert(part.len() > 0);
        assert(!is_rooted(part)) by {
            if is_rooted(part) {
                assert(part[0] == SEPARATOR);
            }
        }
        assert(piece_component(part) == Some(c));
        if buf.len() == 0 {
            assert(longer == part);
            lemma_empty_path_components();
            lemma_split_free(part, SEPARATOR);
            assert(seq![part].drop_last() == Seq::<Seq<u8>>::empty());
            assert(pieces_components(seq![part]) == none.push(c));
        } else if buf.last() != SEPARATOR {
            assert(longer == buf.push(SEPARATOR) + part);
            lemma_split_append_free(buf, part, SEPARATOR);
            let pieces = split(buf, SEPARATOR);
            assert(pieces.push(part).drop_last() == pieces);
            assert(pieces_components(pieces.push(part)) == pieces_components(pieces).push(c));
            assert(longer[0] == buf[0]);
            assert(path_components(longer) =~= path_components(buf).push(c));
        } else {
            let shorter = buf.drop_last();
            assert(buf == shorter.push(SEPARATOR));
            assert(longer == shorter.push(SEPARATOR) + part);
            lemma_split_append_free(shorter, part, SEPARATOR);
            let pieces = split(shorter, SEPARATOR);
            let closed = pieces.push(Seq::<u8>::empty());
            assert(split(buf, SEPARATOR) == closed);
            assert(closed.drop_last() == pieces);
            assert(pieces_components(closed) == pieces_components(pieces));
            assert(pieces.push(part).drop_last() == pieces);
            assert(pieces_components(pieces.push(part)) == pieces_components(pieces).push(c));
            assert(longer[0] == buf[0]);
            assert(path_components(longer) =~= path_components(buf).push(c));
        }
    }
}

/// A path that is extended by components other than the root has them as its
/// new last components, and the others as before.
pub proof fn lemma_push_all_components(base: Seq<u8>, cs: Seq<SpecComponent>)
    requires
        forall|i: int|
            0 <= i < cs.len() ==> valid_component(#[trigger] cs[i]) && !(cs[i] is RootDir),
    ensures
        path_components(push_all(base, cs)) == path_components(base) + cs,
    decreases cs.len(),
{
    if cs.len() == 0 {
        assert(path_components(base) + cs == path_components(base));
    } else {
        let earlier = cs.drop_last();
        assert forall|i: int| 0 <= i < earlier.len() implies valid_component(#[trigger] earlier[i])
            && !(earlier[i] is RootDir) by {
            assert(earlier[i] == cs[i]);
        }
        lemma_push_all_components(base, earlier);
        assert(cs.last() == cs[cs.len() - 1]);
        lemma_pushed_components(push_all(base, earlier), cs.last());
        assert((path_components(base) + earlier).push(cs.last()) == path_components(base) + cs);
    }
}

/// Writing valid components out, one after the other, gives a path that has
/// just these components.
pub proof fn lemma_written_components(cs: Seq<SpecComponent>)
    requires
        valid_components(cs),
    ensures
        path_components(push_all(Seq::<u8>::empty(), cs)) == cs,
    decreases cs.len(),
{
    if cs.len() == 0 {
        lemma_empty_path_components();
    } else {
        let earlier = cs.drop_last();
        assert(valid_components(earlier)) by {
            assert forall|i: int| 0 <= i < earlier.len() implies valid_component(
                #[trigger] earlier[i],
            ) by {
                assert(earlier[i] == cs[i]);
            }
            assert forall|i: int| 0 < i < earlier.len() implies !((#[trigger] earlier[i]) is RootDir) by {
                assert(earlier[i] == cs[i]);
            }
        }
        lemma_written_components(earlier);
        assert(cs.last() == cs[cs.len() - 1]);
        lemma_pushed_components(push_all(Seq::<u8>::empty(), earlier), cs.last());
        assert(earlier.push(cs.last()) == cs);
    }
}

/// Extending a path by components in two steps is extending it by all of
/// them.
pub proof fn lemma_push_all_concat(buf: Seq<u8>, a: Seq<SpecComponent>, b: Seq<SpecComponent>)
    ensures
        push_all(buf, a + b) == push_all(push_all(buf, a), b),
    decreases b.len(),
{
    if b.len() == 0 {
        assert(a + b == a);
    } else {
        lemma_push_all_concat(buf, a, b.drop_last());
        assert((a + b).drop_last() == a + b.drop_last());
        assert((a + b).last() == b.last());
    }
}

/// Extends the path in `buf` by `part`.
pub fn push(buf: &mut Vec<u8>, part: &[u8])
    ensures
        final(buf)@ == pushed(old(buf)@, part@),
{
    if part.len() > 0 && part[0] == SEPARATOR {
        buf.clear();
        assert(buf@ + part@ == part@);
    } else if buf.len() > 0 && buf[buf.len() - 1] != SEPARATOR {
        buf.push(SEPARATOR);
    }
    append(buf, part);
}

/// Writes out what the components `cs` expand to.
///
/// Returns `None` exactly when the first component is `.` or `~` and `env`
/// does not hold the directory for it.
pub fn expand_from_components(cs: &Vec<Component>, env: &Environment) -> (r: Option<Vec<u8>>)
    ensures
        option_view(r) == expand_components(component_views(cs@), env@),
{
    let ghost all = component_views(cs@);
    let mut buf: Vec<u8> = Vec::new();
    let mut start: usize = 0;
    if cs.len() > 0 {
        assert(all[0] == cs@[0]@);
        match &cs[0] {
            Component::CurDir => {
                match &env.cwd {
                    Some(dir) => {
                        buf = to_vec(dir.as_slice());
                        start = 1;
                    },
                    None => {
                        return None;
                    },
                }
            },
            other => {
                if other.is_home_marker() {
                    match &env.home {
                        Some(dir) => {
                            buf = to_vec(dir.as_slice());
                            start = 1;
                        },
                        None => {
                            return None;
                        },
                    }
                }
            },
        }
    }
    let ghost base = buf@;
    let mut i: usize = start;
    assert(all.subrange(start as int, i as int) == Seq::<SpecComponent>::empty());
    while i < cs.len()
        invariant
            start <= i <= cs.len(),
            all == component_views(cs@),
            buf@ == push_all(base, all.subrange(start as int, i as int)),
        decreases cs.len() - i,
    {
        let part = cs[i].bytes();
        proof {
            let upto = all.subrange(start as int, i + 1);
            assert(upto.drop_last() == all.subrange(start as int, i as int));
            assert(upto.last() == cs@[i as int]@);
        }
        push(&mut buf, part.as_slice());
        i += 1;
    }
    proof {
        if start == 1 {
            assert(all.subrange(1, i as int) == all.skip(1));
        } else {
            assert(all.subrange(0, i as int) == all);
        }
    }
    Some(buf)
}

/// Expands `path`: puts the current directory in the place of a leading `.`,
/// the home directory in the place of a leading `~`, and leaves every other
/// component as it is, a later `.` or `~` too.
///
/// Returns `None` exactly when the path starts with `.` or `~` and `env` does
/// not hold the directory for it.
pub fn expand_path(path: &[u8], env: &Environment) -> (r: Option<Vec<u8>>)
    ensures
        option_view(r) == expand(path@, env@),
{
    let cs = components(path);
    expand_from_components(&cs, env)
}

/// Expands `path` as `expand_path` does, with the directory that `home` or
/// `cwd` finds. `cwd` is asked if the path starts with `.`, `home` if it
/// starts with `~`, and neither is asked otherwise.
///
/// Returns `None` exactly when the lookup that was asked found no directory.
pub fn expand_path_with<H: Fn() -> Option<Vec<u8>>, C: Fn() -> Option<Vec<u8>>>(
    path: &[u8],
    home: &H,
    cwd: &C,
) -> (r: Option<Vec<u8>>)
    requires
        starts_at_home(path@) ==> home.requires(()),
        starts_at_cwd(path@) ==> cwd.requires(()),
    ensures
        exists|env: SpecEnvironment| #[trigger]
            looked_up(*home, *cwd, path@, env) && option_view(r) == expand(path@, env),
        forall|env: SpecEnvironment| #[trigger]
            found_as(*home, *cwd, env) ==> option_view(r) == expand(path@, env),
{
    let cs = components(path);
    let mut env = Environment { home: None, cwd: None };
    if cs.len() > 0 {
        assert(component_views(cs@)[0] == cs@[0]@);
        match &cs[0] {
            Component::CurDir => {
                let found = cwd();
                assert(cwd.ensures((), found));
                env.cwd = found;
            },
            other => {
                if other.is_home_marker() {
                    let found = home();
                    assert(home.ensures((), found));
                    env.home = found;
                }
            },
        }
    }
    assert(looked_up(*home, *cwd, path@, env@));
    expand_from_components(&cs, &env)
}

} // verus!

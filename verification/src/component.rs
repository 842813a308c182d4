//! The components of a path: how a byte string is read as a path, and when
//! two byte strings are the same path.
//!
//! A path is read piece by piece, the pieces being what stands between its
//! separators. Every piece that is not empty is a component, `.` and `..`
//! too, wherever they stand: nothing is taken out of a path but separators
//! that are repeated or stand at its end.

use crate::bytes::{append, has_byte, same_bytes, to_vec, views};
use crate::list::{lemma_split_pieces_free, split, split_bytes};
use vstd::prelude::*;

verus! {

/// The byte that separates the components of a path, `/`.
pub const SEPARATOR: u8 = 47;

/// The byte `.`, which alone names the current directory and doubled the
/// parent directory.
pub const DOT: u8 = 46;

/// The byte `~`, which alone as the first component names the home directory.
pub const TILDE: u8 = 126;

/// One component of a path.
#[derive(Debug, PartialEq, Eq)]
pub enum Component {
    /// The root directory: the path starts with a separator.
    RootDir,
    /// The current directory, `.`.
    CurDir,
    /// The parent directory, `..`.
    ParentDir,
    /// Any other name.
    Normal(Vec<u8>),
}

/// A component as a mathematical value.
pub enum SpecComponent {
    /// The root directory.
    RootDir,
    /// The current directory.
    CurDir,
    /// The parent directory.
    ParentDir,
    /// Any other name.
    Normal(Seq<u8>),
}

impl View for Component {
    type V = SpecComponent;

    open spec fn view(&self) -> SpecComponent {
        match self {
            Component::RootDir => SpecComponent::RootDir,
            Component::CurDir => SpecComponent::CurDir,
            Component::ParentDir => SpecComponent::ParentDir,
            Component::Normal(name) => SpecComponent::Normal(name@),
        }
    }
}

/// The views of the components held in `v`.
pub open spec fn component_views(v: Seq<Component>) -> Seq<SpecComponent> {
    Seq::new(v.len(), |i: int| v[i]@)
}

/// The bytes that a component is written with.
pub open spec fn component_bytes(c: SpecComponent) -> Seq<u8> {
    match c {
        SpecComponent::RootDir => seq![SEPARATOR],
        SpecComponent::CurDir => seq![DOT],
        SpecComponent::ParentDir => seq![DOT, DOT],
        SpecComponent::Normal(name) => name,
    }
}

/// Whether `c` is the name `~`.
pub open spec fn is_home_marker(c: SpecComponent) -> bool {
    c matches SpecComponent::Normal(name) && name.len() == 1 && name[0] == TILDE
}

/// Whether `path` starts with a separator.
pub open spec fn is_rooted(path: Seq<u8>) -> bool {
    path.len() > 0 && path[0] == SEPARATOR
}

/// Whether `piece` is `.`.
pub open spec fn is_dot(piece: Seq<u8>) -> bool {
    piece.len() == 1 && piece[0] == DOT
}

/// Whether `piece` is `..`.
pub open spec fn is_dot_dot(piece: Seq<u8>) -> bool {
    piece.len() == 2 && piece[0] == DOT && piece[1] == DOT
}

/// The component that a piece between two separators stands for, if any.
///
/// An empty piece stands for none: repeated separators and a trailing one do
/// not count. Every other piece is a component, wherever it stands in the
/// path: `.` is the current directory, `..` the parent directory, and
/// anything else a name.
pub open spec fn piece_component(piece: Seq<u8>) -> Option<SpecComponent> {
    if piece.len() == 0 {
        None
    } else if is_dot(piece) {
        Some(SpecComponent::CurDir)
    } else if is_dot_dot(piece) {
        Some(SpecComponent::ParentDir)
    } else {
        Some(SpecComponent::Normal(piece))
    }
}

/// The components that the pieces of a path stand for, in order.
pub open spec fn pieces_components(pieces: Seq<Seq<u8>>) -> Seq<SpecComponent>
    decreases pieces.len(),
{
    if pieces.len() == 0 {
        Seq::<SpecComponent>::empty()
    } else {
        let earlier = pieces_components(pieces.drop_last());
        match piece_component(pieces.last()) {
            Some(c) => earlier.push(c),
            None => earlier,
        }
    }
}

/// The components of `path`: the root directory if the path starts with a
/// separator, then what the pieces between its separators stand for.
pub open spec fn path_components(path: Seq<u8>) -> Seq<SpecComponent> {
    let body = pieces_components(split(path, SEPARATOR));
    if is_rooted(path) {
        seq![SpecComponent::RootDir] + body
    } else {
        body
    }
}

/// Whether `name` can be the name of a component: it is not empty, holds no
/// separator, and is neither `.` nor `..`.
pub open spec fn is_name(name: Seq<u8>) -> bool {
    name.len() > 0 && !has_byte(name, SEPARATOR) && !is_dot(name) && !is_dot_dot(name)
}

/// Whether `c` is a component that a path can have.
pub open spec fn valid_component(c: SpecComponent) -> bool {
    c matches SpecComponent::Normal(name) ==> is_name(name)
}

/// Whether `cs` can be the components of a path: each of them is valid, and
/// only the first can be the root.
pub open spec fn valid_components(cs: Seq<SpecComponent>) -> bool {
    &&& forall|i: int| 0 <= i < cs.len() ==> valid_component(#[trigger] cs[i])
    &&& forall|i: int| 0 < i < cs.len() ==> !((#[trigger] cs[i]) is RootDir)
}

/// What the pieces of a path stand for: valid components, none of them the
/// root.
pub proof fn lemma_pieces_components_valid(pieces: Seq<Seq<u8>>)
    requires
        forall|k: int| 0 <= k < pieces.len() ==> !has_byte(#[trigger] pieces[k], SEPARATOR),
    ensures
        forall|i: int|
            0 <= i < pieces_components(pieces).len() ==> {
                let c = #[trigger] pieces_components(pieces)[i];
                valid_component(c) && !(c is RootDir)
            },
    decreases pieces.len(),
{
    if pieces.len() > 0 {
        let shorter = pieces.drop_last();
        assert forall|k: int| 0 <= k < shorter.len() implies !has_byte(
            #[trigger] shorter[k],
            SEPARATOR,
        ) by {
            assert(shorter[k] == pieces[k]);
        }
        lemma_pieces_components_valid(shorter);
        let earlier = pieces_components(shorter);
        assert(pieces.last() == pieces[pieces.len() - 1]);
        assert forall|i: int| 0 <= i < pieces_components(pieces).len() implies {
            let c = #[trigger] pieces_components(pieces)[i];
            valid_component(c) && !(c is RootDir)
        } by {
            if i < earlier.len() {
                assert(pieces_components(pieces)[i] == earlier[i]);
            }
        }
    }
}

/// The components of any path are valid.
pub proof fn lemma_path_components_valid(path: Seq<u8>)
    ensures
        valid_components(path_components(path)),
{
    let pieces = split(path, SEPARATOR);
    lemma_split_pieces_free(path, SEPARATOR);
    lemma_pieces_components_valid(pieces);
    let body = pieces_components(pieces);
    let cs = path_components(path);
    if is_rooted(path) {
        assert forall|i: int| 0 <= i < cs.len() implies valid_component(#[trigger] cs[i]) by {
            if i > 0 {
                assert(cs[i] == body[i - 1]);
            }
        }
        assert forall|i: int| 0 < i < cs.len() implies !((#[trigger] cs[i]) is RootDir) by {
            assert(cs[i] == body[i - 1]);
        }
    }
}

/// Whether `a` and `b` are the same path: they have the same components.
/// Nothing is looked up on a file system.
pub open spec fn same_path(a: Seq<u8>, b: Seq<u8>) -> bool {
    path_components(a) == path_components(b)
}

/// The components of `path`.
pub fn components(path: &[u8]) -> (r: Vec<Component>)
    ensures
        component_views(r@) == path_components(path@),
        valid_components(component_views(r@)),
{
    proof {
        lemma_path_components_valid(path@);
    }
    let pieces = split_bytes(path, SEPARATOR);
    let mut r: Vec<Component> = Vec::new();
    if path.len() > 0 && path[0] == SEPARATOR {
        r.push(Component::RootDir);
    }
    let ghost root = component_views(r@);
    assert(root == if is_rooted(path@) {
        seq![SpecComponent::RootDir]
    } else {
        Seq::<SpecComponent>::empty()
    });
    let mut k: usize = 0;
    while k < pieces.len()
        invariant
            k <= pieces.len(),
            component_views(r@) == root + pieces_components(views(pieces@).take(k as int)),
        decreases pieces.len() - k,
    {
        let piece = pieces[k].as_slice();
        proof {
            let upto = views(pieces@).take(k + 1);
            assert(upto.drop_last() == views(pieces@).take(k as int));
            assert(upto.last() == piece@);
        }
        let ghost before = component_views(r@);
        if piece.len() == 0 {
        } else if piece.len() == 1 && piece[0] == DOT {
            r.push(Component::CurDir);
            assert(component_views(r@) == before.push(SpecComponent::CurDir));
        } else if piece.len() == 2 && piece[0] == DOT && piece[1] == DOT {
            r.push(Component::ParentDir);
            assert(component_views(r@) == before.push(SpecComponent::ParentDir));
        } else {
            r.push(Component::Normal(to_vec(piece)));
            assert(component_views(r@) == before.push(SpecComponent::Normal(piece@)));
        }
        k += 1;
    }
    assert(views(pieces@).take(k as int) == views(pieces@));
    r
}

impl Component {
    /// The bytes that this component is written with.
    pub fn bytes(&self) -> (r: Vec<u8>)
        ensures
            r@ == component_bytes(self@),
    {
        let mut r: Vec<u8> = Vec::new();
        match self {
            Component::RootDir => {
                r.push(SEPARATOR);
            },
            Component::CurDir => {
                r.push(DOT);
            },
            Component::ParentDir => {
                r.push(DOT);
                r.push(DOT);
            },
            Component::Normal(name) => {
                append(&mut r, name.as_slice());
            },
        }
        assert(r@ =~= component_bytes(self@));
        r
    }

    /// Whether this component is the name `~`.
    pub fn is_home_marker(&self) -> (r: bool)
        ensures
            r == is_home_marker(self@),
    {
        match self {
            Component::Normal(name) => name.len() == 1 && name[0] == TILDE,
            _ => false,
        }
    }
}

/// Whether `a` and `b` are the same component.
pub fn same_component(a: &Component, b: &Component) -> (same: bool)
    ensures
        same == (a@ == b@),
{
    match (a, b) {
        (Component::RootDir, Component::RootDir) => true,
        (Component::CurDir, Component::CurDir) => true,
        (Component::ParentDir, Component::ParentDir) => true,
        (Component::Normal(x), Component::Normal(y)) => same_bytes(x.as_slice(), y.as_slice()),
        _ => false,
    }
}

/// Whether `a` and `b` are the same path.
pub fn is_same_path(a: &[u8], b: &[u8]) -> (same: bool)
    ensures
        same == same_path(a@, b@),
{
    let ca = components(a);
    let cb = components(b);
    if ca.len() != cb.len() {
        assert(component_views(ca@).len() != component_views(cb@).len());
        return false;
    }
    let mut i: usize = 0;
    while i < ca.len()
        invariant
            i <= ca.len(),
            ca.len() == cb.len(),
            component_views(ca@) == path_components(a@),
            component_views(cb@) == path_components(b@),
            forall|k: int| 0 <= k < i ==> ca@[k]@ == cb@[k]@,
        decreases ca.len() - i,
    {
        if !same_component(&ca[i], &cb[i]) {
            assert(component_views(ca@)[i as int] == ca@[i as int]@);
            assert(component_views(cb@)[i as int] == cb@[i as int]@);
            return false;
        }
        i += 1;
    }
    assert(component_views(ca@) =~= component_views(cb@));
    true
}

} // verus!

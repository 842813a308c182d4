//! The syntax of a path list: entries separated by a delimiter byte.

use crate::bytes::{append, contains_byte, has_byte, to_vec, views};
use vstd::prelude::*;

verus! {

/// The byte that separates the entries of a path list, `:`.
pub const LIST_DELIMITER: u8 = 58;

/// The pieces of `s` that lie between the occurrences of `d`, in order.
///
/// Read from the left, every occurrence of `d` closes the current piece and
/// opens a new, empty one; any other byte is added to the current piece. There
/// is always at least one piece, and a piece may be empty.
pub open spec fn split(s: Seq<u8>, d: u8) -> Seq<Seq<u8>>
    decreases s.len(),
{
    if s.len() == 0 {
        seq![Seq::<u8>::empty()]
    } else {
        let before = split(s.drop_last(), d);
        if s.last() == d {
            before.push(Seq::<u8>::empty())
        } else {
            before.update(before.len() - 1, before.last().push(s.last()))
        }
    }
}

/// The pieces in `parts`, with one `d` between each two neighbours.
pub open spec fn join(parts: Seq<Seq<u8>>, d: u8) -> Seq<u8>
    decreases parts.len(),
{
    if parts.len() == 0 {
        Seq::<u8>::empty()
    } else if parts.len() == 1 {
        parts[0]
    } else {
        join(parts.drop_last(), d).push(d) + parts.last()
    }
}

/// `split` yields at least one piece.
pub proof fn lemma_split_nonempty(s: Seq<u8>, d: u8)
    ensures
        split(s, d).len() >= 1,
    decreases s.len(),
{
    if s.len() > 0 {
        lemma_split_nonempty(s.drop_last(), d);
    }
}

/// No piece of `split(s, d)` holds the byte `d`.
pub proof fn lemma_split_pieces_free(s: Seq<u8>, d: u8)
    ensures
        forall|k: int| 0 <= k < split(s, d).len() ==> !has_byte(#[trigger] split(s, d)[k], d),
    decreases s.len(),
{
    if s.len() > 0 {
        lemma_split_pieces_free(s.drop_last(), d);
        lemma_split_nonempty(s.drop_last(), d);
        let before = split(s.drop_last(), d);
        assert forall|k: int| 0 <= k < split(s, d).len() implies !has_byte(
            #[trigger] split(s, d)[k],
            d,
        ) by {
            if k < before.len() - 1 {
                assert(split(s, d)[k] == before[k]);
            } else if s.last() != d {
                let grown = before.last().push(s.last());
                assert(split(s, d)[k] == grown);
                if has_byte(grown, d) {
                    let i = choose|i: int| 0 <= i < grown.len() && grown[i] == d;
                    assert(before.last()[i] == d);
                }
            } else if k == before.len() - 1 {
                assert(split(s, d)[k] == before[k]);
            }
        }
    }
}

/// Joining the pieces of `s` with `d` gives `s` back.
pub proof fn lemma_join_split(s: Seq<u8>, d: u8)
    ensures
        join(split(s, d), d) == s,
    decreases s.len(),
{
    if s.len() > 0 {
        lemma_join_split(s.drop_last(), d);
        lemma_split_nonempty(s.drop_last(), d);
        let before = split(s.drop_last(), d);
        let pieces = split(s, d);
        if s.last() == d {
            assert(pieces.drop_last() == before);
            assert(join(pieces, d) == s.drop_last().push(d) + Seq::<u8>::empty());
        } else if before.len() == 1 {
            assert(join(pieces, d) == before[0].push(s.last()));
        } else {
            assert(pieces.drop_last() == before.drop_last());
            assert(join(pieces, d) == (join(before.drop_last(), d).push(d) + before.last()).push(
                s.last(),
            ));
        }
        assert(s == s.drop_last().push(s.last()));
    }
}

/// A byte string without `d` is its own single piece.
pub proof fn lemma_split_free(piece: Seq<u8>, d: u8)
    requires
        !has_byte(piece, d),
    ensures
        split(piece, d) == seq![piece],
    decreases piece.len(),
{
    if piece.len() > 0 {
        let shorter = piece.drop_last();
        assert(!has_byte(shorter, d)) by {
            if has_byte(shorter, d) {
                let i = choose|i: int| 0 <= i < shorter.len() && shorter[i] == d;
                assert(piece[i] == d);
            }
        }
        lemma_split_free(shorter, d);
        assert(piece.last() != d) by {
            assert(piece[piece.len() - 1] == piece.last());
        }
        assert(shorter.push(piece.last()) == piece);
        assert(split(piece, d) =~= seq![piece]);
    } else {
        assert(piece == Seq::<u8>::empty());
    }
}

/// A piece without `d` that follows a `d` is split off whole.
pub proof fn lemma_split_append_free(head: Seq<u8>, piece: Seq<u8>, d: u8)
    requires
        !has_byte(piece, d),
    ensures
        split(head.push(d) + piece, d) == split(head, d).push(piece),
    decreases piece.len(),
{
    let whole = head.push(d) + piece;
    if piece.len() == 0 {
        assert(whole.drop_last() == head);
        assert(piece == Seq::<u8>::empty());
    } else {
        let shorter = piece.drop_last();
        assert(!has_byte(shorter, d)) by {
            if has_byte(shorter, d) {
                let i = choose|i: int| 0 <= i < shorter.len() && shorter[i] == d;
                assert(piece[i] == d);
            }
        }
        lemma_split_append_free(head, shorter, d);
        assert(whole.drop_last() == head.push(d) + shorter);
        assert(whole.last() != d) by {
            assert(piece[piece.len() - 1] == whole.last());
        }
        assert(shorter.push(piece.last()) == piece);
        assert(split(whole, d) =~= split(head, d).push(piece));
    }
}

/// Splitting what `join` made of pieces without `d` gives the pieces back,
/// provided there is at least one.
pub proof fn lemma_split_join(parts: Seq<Seq<u8>>, d: u8)
    requires
        parts.len() >= 1,
        forall|k: int| 0 <= k < parts.len() ==> !has_byte(#[trigger] parts[k], d),
    ensures
        split(join(parts, d), d) == parts,
    decreases parts.len(),
{
    if parts.len() == 1 {
        lemma_split_free(parts[0], d);
    } else {
        let earlier = parts.drop_last();
        assert forall|k: int| 0 <= k < earlier.len() implies !has_byte(#[trigger] earlier[k], d) by {
            assert(earlier[k] == parts[k]);
        }
        lemma_split_join(earlier, d);
        assert(!has_byte(parts.last(), d)) by {
            assert(parts[parts.len() - 1] == parts.last());
        }
        lemma_split_append_free(join(earlier, d), parts.last(), d);
        assert(earlier.push(parts.last()) == parts);
    }
}

/// Splits `s` at every occurrence of `d`.
pub fn split_bytes(s: &[u8], d: u8) -> (pieces: Vec<Vec<u8>>)
    ensures
        views(pieces@) == split(s@, d),
{
    let mut pieces: Vec<Vec<u8>> = Vec::new();
    let mut current: Vec<u8> = Vec::new();
    let mut i: usize = 0;
    while i < s.len()
        invariant
            i <= s.len(),
            views(pieces@).push(current@) == split(s@.take(i as int), d),
        decreases s.len() - i,
    {
        proof {
            let upto = s@.take(i + 1);
            assert(upto.drop_last() == s@.take(i as int));
            assert(upto.last() == s@[i as int]);
            lemma_split_nonempty(s@.take(i as int), d);
        }
        let ghost before = views(pieces@).push(current@);
        if s[i] == d {
            pieces.push(current);
            current = Vec::new();
            assert(views(pieces@) == before);
            assert(views(pieces@).push(current@) == before.push(Seq::<u8>::empty()));
        } else {
            current.push(s[i]);
            assert(views(pieces@).push(current@) == before.update(
                before.len() - 1,
                before.last().push(s@[i as int]),
            ));
        }
        i += 1;
    }
    assert(s@.take(i as int) == s@);
    pieces.push(current);
    pieces
}

/// The entries of the path list `input`, in order. The empty list has one
/// entry, the empty path.
pub fn split_paths(input: &[u8]) -> (entries: Vec<Vec<u8>>)
    ensures
        views(entries@) == split(input@, LIST_DELIMITER),
{
    split_bytes(input, LIST_DELIMITER)
}

/// Whether no piece in `parts` holds the byte `d`.
pub open spec fn all_free(parts: Seq<Seq<u8>>, d: u8) -> bool {
    forall|k: int| 0 <= k < parts.len() ==> !has_byte(#[trigger] parts[k], d)
}

/// Whether `parts[i]` is the first piece that holds the byte `d`.
pub open spec fn first_with_byte(parts: Seq<Seq<u8>>, d: u8, i: int) -> bool {
    &&& 0 <= i < parts.len()
    &&& has_byte(parts[i], d)
    &&& forall|k: int| 0 <= k < i ==> !has_byte(#[trigger] parts[k], d)
}

/// The path list that holds the entries `parts`: they are joined by the list
/// delimiter. There is none if an entry holds the delimiter itself, since it
/// would read back as two entries.
pub open spec fn join_list(parts: Seq<Seq<u8>>) -> Option<Seq<u8>> {
    if all_free(parts, LIST_DELIMITER) {
        Some(join(parts, LIST_DELIMITER))
    } else {
        None
    }
}

/// Why a sequence of paths could not be written as a path list: one of them
/// holds the list delimiter.
#[derive(Debug, PartialEq, Eq)]
pub struct JoinPathsError {
    /// The position of the first such path in the sequence.
    pub position: usize,
    /// That path.
    pub path: Vec<u8>,
}

/// Whether `r` is what writing `parts` as a path list gives: the list, or the
/// first of `parts` that holds the list delimiter.
pub open spec fn is_joined(r: Result<Vec<u8>, JoinPathsError>, parts: Seq<Seq<u8>>) -> bool {
    match r {
        Ok(joined) => join_list(parts) == Some(joined@),
        Err(e) => {
            &&& first_with_byte(parts, LIST_DELIMITER, e.position as int)
            &&& e.path@ == parts[e.position as int]
        },
    }
}

/// Writes `paths` as one path list.
///
/// Fails exactly when a path holds the list delimiter, and then names the
/// first one that does.
pub fn join_paths(paths: &Vec<Vec<u8>>) -> (r: Result<Vec<u8>, JoinPathsError>)
    ensures
        is_joined(r, views(paths@)),
{
    let ghost parts = views(paths@);
    let mut joined: Vec<u8> = Vec::new();
    let mut i: usize = 0;
    while i < paths.len()
        invariant
            i <= paths.len(),
            parts == views(paths@),
            forall|k: int| 0 <= k < i ==> !has_byte(#[trigger] parts[k], LIST_DELIMITER),
            joined@ == join(parts.take(i as int), LIST_DELIMITER),
        decreases paths.len() - i,
    {
        let path = paths[i].as_slice();
        if contains_byte(path, LIST_DELIMITER) {
            return Err(JoinPathsError { position: i, path: to_vec(path) });
        }
        if i > 0 {
            joined.push(LIST_DELIMITER);
        }
        append(&mut joined, path);
        proof {
            let upto = parts.take(i + 1);
            assert(upto.drop_last() == parts.take(i as int));
            assert(upto.last() == path@);
            if i == 0 {
                assert(joined@ == path@);
            }
        }
        i += 1;
    }
    assert(parts.take(i as int) == parts);
    Ok(joined)
}

} // verus!

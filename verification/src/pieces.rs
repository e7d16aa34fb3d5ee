//! Byte strings cut into pieces at a separator byte, and put together again.

use vstd::prelude::*;

verus! {

/// The pieces of `bytes` between the occurrences of `sep`, in order.
///
/// It is the one non-empty list of pieces free of `sep` that joins back to
/// `bytes`: see [`lemma_join_split`], [`lemma_split_pieces`] and
/// [`lemma_split_join`].
pub open spec fn split(bytes: Seq<u8>, sep: u8) -> Seq<Seq<u8>>
    decreases bytes.len(),
{
    if bytes.len() == 0 {
        seq![Seq::<u8>::empty()]
    } else {
        let before = split(bytes.drop_last(), sep);
        if bytes.last() == sep {
            before.push(Seq::<u8>::empty())
        } else {
            before.update(before.len() - 1, before.last().push(bytes.last()))
        }
    }
}

/// The pieces written one after another with `sep` between neighbours.
pub open spec fn join(pieces: Seq<Seq<u8>>, sep: u8) -> Seq<u8>
    decreases pieces.len(),
{
    if pieces.len() == 0 {
        Seq::<u8>::empty()
    } else if pieces.len() == 1 {
        pieces[0]
    } else {
        join(pieces.drop_last(), sep) + seq![sep] + pieces.last()
    }
}

/// Whether no piece holds `sep`.
pub open spec fn all_free(pieces: Seq<Seq<u8>>, sep: u8) -> bool {
    forall|i: int| 0 <= i < pieces.len() ==> !(#[trigger] pieces[i]).contains(sep)
}

/// Splitting yields at least one piece, and no piece holds the separator.
pub proof fn lemma_split_pieces(bytes: Seq<u8>, sep: u8)
    ensures
        split(bytes, sep).len() >= 1,
        all_free(split(bytes, sep), sep),
    decreases bytes.len(),
{
    if bytes.len() > 0 {
        lemma_split_pieces(bytes.drop_last(), sep);
        let before = split(bytes.drop_last(), sep);
        if bytes.last() != sep {
            let grown = before.last().push(bytes.last());
            assert forall|j: int| 0 <= j < grown.len() implies grown[j] != sep by {
                if j < before.last().len() {
                    assert(before.last()[j] == grown[j]);
                }
            }
        }
    }
}

/// Joining the pieces of a split gives the bytes back.
pub proof fn lemma_join_split(bytes: Seq<u8>, sep: u8)
    ensures
        join(split(bytes, sep), sep) == bytes,
    decreases bytes.len(),
{
    if bytes.len() > 0 {
        let shorter = bytes.drop_last();
        lemma_join_split(shorter, sep);
        lemma_split_pieces(shorter, sep);
        let before = split(shorter, sep);
        if bytes.last() == sep {
            let pieces = before.push(Seq::<u8>::empty());
            assert(pieces.drop_last() == before);
            assert(shorter + seq![sep] + Seq::<u8>::empty() == bytes);
        } else {
            let grown = before.last().push(bytes.last());
            let pieces = before.update(before.len() - 1, grown);
            if before.len() == 1 {
                assert(shorter == before[0]);
                assert(grown == bytes);
            } else {
                assert(pieces.drop_last() == before.drop_last());
                assert(join(before.drop_last(), sep) + seq![sep] + grown == (join(
                    before.drop_last(),
                    sep,
                ) + seq![sep] + before.last()).push(bytes.last()));
                assert(shorter.push(bytes.last()) == bytes);
            }
        }
    }
}

/// A byte string free of the separator is one piece.
pub proof fn lemma_split_free(bytes: Seq<u8>, sep: u8)
    requires
        !bytes.contains(sep),
    ensures
        split(bytes, sep) == seq![bytes],
    decreases bytes.len(),
{
    if bytes.len() > 0 {
        let shorter = bytes.drop_last();
        assert forall|j: int| 0 <= j < shorter.len() implies shorter[j] != sep by {
            assert(bytes[j] == shorter[j]);
        }
        assert(bytes[bytes.len() - 1] != sep);
        lemma_split_free(shorter, sep);
        assert(shorter.push(bytes.last()) == bytes);
        assert(seq![shorter].update(0, bytes) == seq![bytes]);
    } else {
        assert(bytes == Seq::<u8>::empty());
    }
}

/// Splitting distributes over a separator: the pieces of `left`, then the
/// pieces of `right`.
pub proof fn lemma_split_around(left: Seq<u8>, right: Seq<u8>, sep: u8)
    ensures
        split(left + seq![sep] + right, sep) == split(left, sep) + split(right, sep),
    decreases right.len(),
{
    let whole = left + seq![sep] + right;
    if right.len() == 0 {
        assert(whole.drop_last() == left);
        assert(split(left, sep).push(Seq::<u8>::empty()) == split(left, sep) + split(right, sep));
    } else {
        let shorter = right.drop_last();
        lemma_split_around(left, shorter, sep);
        lemma_split_pieces(shorter, sep);
        assert(whole.drop_last() == left + seq![sep] + shorter);
        assert(whole.last() == right.last());
        let a = split(left, sep);
        let b = split(shorter, sep);
        if right.last() == sep {
            assert((a + b).push(Seq::<u8>::empty()) == a + b.push(Seq::<u8>::empty()));
        } else {
            let grown = b.last().push(right.last());
            assert((a + b).last() == b.last());
            assert((a + b).update((a + b).len() - 1, grown) == a + b.update(b.len() - 1, grown));
        }
    }
}

/// Splitting undoes joining, for a non-empty list of pieces free of the
/// separator.
pub proof fn lemma_split_join(pieces: Seq<Seq<u8>>, sep: u8)
    requires
        pieces.len() >= 1,
        all_free(pieces, sep),
    ensures
        split(join(pieces, sep), sep) == pieces,
    decreases pieces.len(),
{
    if pieces.len() == 1 {
        lemma_split_free(pieces[0], sep);
        assert(seq![pieces[0]] == pieces);
    } else {
        let front = pieces.drop_last();
        assert forall|i: int| 0 <= i < front.len() implies !(#[trigger] front[i]).contains(
            sep,
        ) by {
            assert(front[i] == pieces[i]);
        }
        lemma_split_join(front, sep);
        lemma_split_around(join(front, sep), pieces.last(), sep);
        lemma_split_free(pieces.last(), sep);
        assert(front + seq![pieces.last()] == pieces);
    }
}

/// Joining with one more piece in front puts that piece and a separator
/// before the rest.
pub proof fn lemma_join_front(first: Seq<u8>, rest: Seq<Seq<u8>>, sep: u8)
    requires
        rest.len() >= 1,
    ensures
        join(seq![first] + rest, sep) == first + seq![sep] + join(rest, sep),
    decreases rest.len(),
{
    let all = seq![first] + rest;
    if rest.len() == 1 {
        assert(all.drop_last() == seq![first]);
        assert(all.last() == rest[0]);
        assert(join(seq![first], sep) == first);
    } else {
        lemma_join_front(first, rest.drop_last(), sep);
        assert(all.drop_last() == seq![first] + rest.drop_last());
        assert(all.last() == rest.last());
        assert(first + seq![sep] + join(rest.drop_last(), sep) + seq![sep] + rest.last() == first
            + seq![sep] + (join(rest.drop_last(), sep) + seq![sep] + rest.last()));
    }
}

/// One more separator at the end adds an empty last piece and changes no
/// other.
pub proof fn lemma_split_trailing(bytes: Seq<u8>, sep: u8)
    ensures
        split(bytes.push(sep), sep) == split(bytes, sep).push(Seq::<u8>::empty()),
{
    assert(bytes.push(sep).drop_last() == bytes);
}

/// The deep view of a byte vector is its view.
pub proof fn lemma_bytes_deep_view(bytes: Vec<u8>)
    ensures
        bytes.deep_view() == bytes@,
{
    assert(bytes.deep_view() =~= bytes@);
}

/// Pushing a byte vector pushes its view onto the deep view.
pub proof fn lemma_deep_view_push(before: Vec<Vec<u8>>, after: Vec<Vec<u8>>, piece: Vec<u8>)
    requires
        after@ == before@.push(piece),
    ensures
        after.deep_view() == before.deep_view().push(piece@),
{
    lemma_bytes_deep_view(piece);
    assert forall|i: int| 0 <= i < after@.len() implies after.deep_view()[i]
        == before.deep_view().push(piece@)[i] by {
        if i < before@.len() {
            assert(after@[i] == before@[i]);
        }
    }
    assert(after.deep_view() =~= before.deep_view().push(piece@));
}

/// Removing a byte vector removes its view from the deep view.
pub proof fn lemma_deep_view_remove(before: Vec<Vec<u8>>, after: Vec<Vec<u8>>, i: int)
    requires
        0 <= i < before@.len(),
        after@ == before@.remove(i),
    ensures
        after.deep_view() == before.deep_view().remove(i),
{
    assert forall|j: int| 0 <= j < after@.len() implies after.deep_view()[j]
        == before.deep_view().remove(i)[j] by {
        if j < i {
            assert(after@[j] == before@[j]);
        } else {
            assert(after@[j] == before@[j + 1]);
        }
    }
    assert(after.deep_view() =~= before.deep_view().remove(i));
}

/// Whether `bytes` holds the byte `b`.
pub fn contains_byte(bytes: &[u8], b: u8) -> (found: bool)
    ensures
        found == bytes@.contains(b),
{
    let mut i: usize = 0;
    while i < bytes.len()
        invariant
            i <= bytes.len(),
            forall|j: int| 0 <= j < i ==> bytes@[j] != b,
        decreases bytes.len() - i,
    {
        if bytes[i] == b {
            return true;
        }
        i += 1;
    }
    false
}

/// Cuts `bytes` at every occurrence of `sep`.
pub fn split_on(bytes: &[u8], sep: u8) -> (pieces: Vec<Vec<u8>>)
    ensures
        pieces.deep_view() == split(bytes@, sep),
{
    let mut done: Vec<Vec<u8>> = Vec::new();
    let mut current: Vec<u8> = Vec::new();
    let mut i: usize = 0;
    while i < bytes.len()
        invariant
            i <= bytes.len(),
            done.deep_view().push(current@) == split(bytes@.take(i as int), sep),
        decreases bytes.len() - i,
    {
        let ghost before = split(bytes@.take(i as int), sep);
        let ghost old_done = done;
        proof {
            assert(bytes@.take(i + 1).drop_last() == bytes@.take(i as int));
            assert(bytes@.take(i + 1).last() == bytes@[i as int]);
        }
        if bytes[i] == sep {
            let ghost piece = current;
            done.push(current);
            current = Vec::new();
            proof {
                lemma_deep_view_push(old_done, done, piece);
                assert(done.deep_view().push(current@) == before.push(Seq::<u8>::empty()));
            }
        } else {
            current.push(bytes[i]);
            proof {
                assert(done.deep_view().push(current@) == before.update(
                    before.len() - 1,
                    before.last().push(bytes@[i as int]),
                ));
            }
        }
        i += 1;
    }
    let ghost old_done = done;
    let ghost piece = current;
    done.push(current);
    proof {
        assert(bytes@.take(i as int) == bytes@);
        lemma_deep_view_push(old_done, done, piece);
    }
    done
}

/// Writes the pieces one after another with `sep` between neighbours.
pub fn join_on(pieces: &Vec<Vec<u8>>, sep: u8) -> (bytes: Vec<u8>)
    ensures
        bytes@ == join(pieces.deep_view(), sep),
{
    let ghost all = pieces.deep_view();
    let mut out: Vec<u8> = Vec::new();
    let mut i: usize = 0;
    while i < pieces.len()
        invariant
            i <= pieces.len(),
            all == pieces.deep_view(),
            out@ == join(all.take(i as int), sep),
        decreases pieces.len() - i,
    {
        let piece = &pieces[i];
        if i > 0 {
            out.push(sep);
        }
        let ghost before = out@;
        out.extend_from_slice(piece.as_slice());
        proof {
            assert(all[i as int] == piece@);
            assert(out@ == before + piece@);
            assert(all.take(i + 1).drop_last() == all.take(i as int));
            assert(all.take(i + 1).last() == piece@);
        }
        i += 1;
    }
    proof {
        assert(all.take(i as int) == all);
    }
    out
}

/// Whether no piece holds `sep`.
pub fn pieces_free(pieces: &Vec<Vec<u8>>, sep: u8) -> (free: bool)
    ensures
        free == all_free(pieces.deep_view(), sep),
{
    let mut i: usize = 0;
    while i < pieces.len()
        invariant
            i <= pieces.len(),
            forall|j: int| 0 <= j < i ==> !(#[trigger] pieces.deep_view()[j]).contains(sep),
        decreases pieces.len() - i,
    {
        let piece = &pieces[i];
        assert(pieces.deep_view()[i as int] == piece@);
        if contains_byte(piece.as_slice(), sep) {
            return false;
        }
        i += 1;
    }
    true
}

/// Whether two byte strings are equal.
pub fn bytes_equal(a: &[u8], b: &[u8]) -> (equal: bool)
    ensures
        equal == (a@ == b@),
{
    if a.len() != b.len() {
        return false;
    }
    let mut i: usize = 0;
    while i < a.len()
        invariant
            i <= a.len(),
            a.len() == b.len(),
            forall|j: int| 0 <= j < i ==> a@[j] == b@[j],
        decreases a.len() - i,
    {
        if a[i] != b[i] {
            return false;
        }
        i += 1;
    }
    assert(a@ =~= b@);
    true
}

/// Whether two lists of byte strings are equal, piece by piece.
pub fn lists_equal(a: &Vec<Vec<u8>>, b: &Vec<Vec<u8>>) -> (equal: bool)
    ensures
        equal == (a.deep_view() == b.deep_view()),
{
    if a.len() != b.len() {
        assert(a.deep_view().len() != b.deep_view().len());
        return false;
    }
    let mut i: usize = 0;
    while i < a.len()
        invariant
            i <= a.len(),
            a.len() == b.len(),
            forall|j: int| 0 <= j < i ==> a.deep_view()[j] == b.deep_view()[j],
        decreases a.len() - i,
    {
        let x = &a[i];
        let y = &b[i];
        proof {
            assert(a.deep_view()[i as int] == x@);
            assert(b.deep_view()[i as int] == y@);
        }
        if !bytes_equal(x.as_slice(), y.as_slice()) {
            return false;
        }
        i += 1;
    }
    assert(a.deep_view() =~= b.deep_view());
    true
}

} // verus!

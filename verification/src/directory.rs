//! When two paths name the same directory.
//!
//! A path is read as its components: a root mark where it starts with a
//! slash, a current-directory mark where it starts with a lone dot, then the
//! names between slashes. Empty stretches and lone dots between slashes are
//! no names, so a doubled or trailing slash changes nothing. Two paths are the
//! same directory when their components agree.
//!
//! This is the whole answer for paths in which every link has been followed.
//! Nothing here looks at the file system, so the paths that are compared
//! where an entry of the search path is taken out are resolved paths, which
//! the caller hands in beside the entries as they are spelled.

use crate::pieces::{
    lemma_deep_view_push, lemma_split_pieces, lemma_split_trailing, lists_equal, split, split_on,
};
use vstd::prelude::*;
use vstd::slice::slice_to_vec;

verus! {

/// The byte between the names of a path: a slash.
pub const SLASH: u8 = 47;

/// The byte that, alone between slashes, stands for the directory itself: a
/// dot.
pub const DOT: u8 = 46;

/// Whether a stretch between slashes is a name.
pub open spec fn is_name(segment: Seq<u8>) -> bool {
    segment.len() > 0 && segment != seq![DOT]
}

/// [`is_name`] as a predicate to filter by.
pub open spec fn names() -> spec_fn(Seq<u8>) -> bool {
    |segment: Seq<u8>| is_name(segment)
}

/// The mark that opens the components of `path`, if it has one: a slash for a
/// path from the root, a dot for one that starts with a lone dot.
pub open spec fn lead(path: Seq<u8>) -> Seq<Seq<u8>> {
    if path.len() > 0 && path[0] == SLASH {
        seq![seq![SLASH]]
    } else if split(path, SLASH)[0] == seq![DOT] {
        seq![seq![DOT]]
    } else {
        Seq::<Seq<u8>>::empty()
    }
}

/// The components of `path`.
pub open spec fn components(path: Seq<u8>) -> Seq<Seq<u8>> {
    lead(path) + split(path, SLASH).filter(names())
}

/// Whether `a` and `b` spell the same directory.
pub open spec fn same_directory(a: Seq<u8>, b: Seq<u8>) -> bool {
    components(a) == components(b)
}

/// The empty path has no components.
pub proof fn lemma_components_of_empty()
    ensures
        components(Seq::<u8>::empty()) == Seq::<Seq<u8>>::empty(),
{
    let lone = seq![Seq::<u8>::empty()];
    reveal_with_fuel(Seq::filter, 2);
    assert(split(Seq::<u8>::empty(), SLASH) == lone);
    assert(lone[0] != seq![DOT]) by {
        assert(seq![DOT].len() == 1);
    }
    assert(lone.drop_last() == Seq::<Seq<u8>>::empty());
    assert(!names()(lone.last()));
    assert(lone.filter(names()) == Seq::<Seq<u8>>::empty());
    assert(lead(Seq::<u8>::empty()) == Seq::<Seq<u8>>::empty());
}

/// A slash more at the end of a path that is not empty spells the same
/// directory.
pub proof fn lemma_trailing_slash(path: Seq<u8>)
    requires
        path.len() > 0,
    ensures
        same_directory(path.push(SLASH), path),
{
    let longer = path.push(SLASH);
    lemma_split_trailing(path, SLASH);
    lemma_split_pieces(path, SLASH);
    let segments = split(path, SLASH);
    segments.lemma_filter_push(Seq::<u8>::empty(), names());
    assert(!names()(Seq::<u8>::empty()));
    assert(longer[0] == path[0]);
    assert(segments.push(Seq::<u8>::empty())[0] == segments[0]);
}

/// Spelling the same directory is an equivalence: every path spells the
/// directory it spells, in either order, and two paths that spell the same
/// directory as a third spell the same.
pub proof fn lemma_same_directory_equivalence(a: Seq<u8>, b: Seq<u8>, c: Seq<u8>)
    ensures
        same_directory(a, a),
        same_directory(a, b) == same_directory(b, a),
        same_directory(a, b) && same_directory(b, c) ==> same_directory(a, c),
        a == b ==> same_directory(a, b),
{
}

/// Whether a stretch between slashes is a name.
pub fn segment_is_name(segment: &[u8]) -> (named: bool)
    ensures
        named == is_name(segment@),
{
    if segment.len() == 0 {
        false
    } else if segment.len() == 1 && segment[0] == DOT {
        assert(segment@ =~= seq![DOT]);
        false
    } else {
        assert(segment@ != seq![DOT]) by {
            if segment@.len() == 1 {
                assert(seq![DOT][0] == DOT);
            } else {
                assert(seq![DOT].len() == 1);
            }
        }
        true
    }
}

/// The components of `path`, in order.
pub fn path_components(path: &[u8]) -> (parts: Vec<Vec<u8>>)
    ensures
        parts.deep_view() == components(path@),
{
    let segments = split_on(path, SLASH);
    let ghost all = segments.deep_view();
    proof {
        lemma_split_pieces(path@, SLASH);
    }
    let mut parts: Vec<Vec<u8>> = Vec::new();
    assert(parts.deep_view() == Seq::<Seq<u8>>::empty());
    if path.len() > 0 && path[0] == SLASH {
        let ghost before = parts;
        let mark: Vec<u8> = vec![SLASH];
        parts.push(mark);
        proof {
            lemma_deep_view_push(before, parts, mark);
            assert(mark@ == seq![SLASH]);
            assert(parts.deep_view() == lead(path@));
        }
    } else {
        let first = &segments[0];
        assert(all[0] == first@);
        if first.len() == 1 && first[0] == DOT {
            let ghost before = parts;
            let mark: Vec<u8> = vec![DOT];
            parts.push(mark);
            proof {
                lemma_deep_view_push(before, parts, mark);
                assert(first@ =~= seq![DOT]);
                assert(mark@ == seq![DOT]);
                assert(parts.deep_view() == lead(path@));
            }
        } else {
            proof {
                if first@ == seq![DOT] {
                    assert(seq![DOT].len() == 1);
                    assert(seq![DOT][0] == DOT);
                }
                assert(parts.deep_view() == lead(path@));
            }
        }
    }
    let mut i: usize = 0;
    proof {
        assert(all.take(0) == Seq::<Seq<u8>>::empty());
        assert(all.take(0).filter(names()) == Seq::<Seq<u8>>::empty()) by {
            reveal(Seq::filter);
        }
        assert(lead(path@) + Seq::<Seq<u8>>::empty() == lead(path@));
    }
    while i < segments.len()
        invariant
            i <= segments.len(),
            all == segments.deep_view(),
            parts.deep_view() == lead(path@) + all.take(i as int).filter(names()),
        decreases segments.len() - i,
    {
        let segment = &segments[i];
        proof {
            assert(all[i as int] == segment@);
            assert(all.take(i + 1) == all.take(i as int).push(segment@));
            all.take(i as int).lemma_filter_push(segment@, names());
        }
        if segment_is_name(segment.as_slice()) {
            let ghost before = parts;
            let copy = slice_to_vec(segment.as_slice());
            parts.push(copy);
            proof {
                lemma_deep_view_push(before, parts, copy);
                assert(lead(path@) + all.take(i as int).filter(names()).push(segment@) == (lead(
                    path@,
                ) + all.take(i as int).filter(names())).push(segment@));
            }
        }
        i += 1;
    }
    proof {
        assert(all.take(i as int) == all);
    }
    parts
}

/// Whether `a` and `b` spell the same directory.
pub fn is_same_directory(a: &[u8], b: &[u8]) -> (same: bool)
    ensures
        same == same_directory(a@, b@),
{
    let left = path_components(a);
    let right = path_components(b);
    lists_equal(&left, &right)
}

} // verus!

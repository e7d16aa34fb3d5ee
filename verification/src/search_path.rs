//! The command search path: an ordered list of directories held in one
//! variable, the entries joined by a separator byte.
//!
//! A value of the variable is a byte string. Its entries are the stretches
//! between separators, so every value has at least one entry and the empty
//! value has exactly one, the empty entry.
//!
//! An entry may reach a directory through a link, so what an entry names is
//! not decided by its spelling. Whoever takes a directory out hands in, for
//! each entry, the path that it resolves to, and the resolved path of the
//! directory: the entry as spelled where it cannot be resolved. Entries are
//! compared by their resolved paths and kept as they are spelled.

use crate::directory::{components, path_components, same_directory};
use crate::pieces::{
    all_free, join, join_on, lemma_bytes_deep_view, lemma_deep_view_push,
    lemma_deep_view_remove, lemma_join_front, lemma_join_split, lemma_split_join,
    lemma_split_pieces, lists_equal, pieces_free, split, split_on,
};
use vstd::prelude::*;
use vstd::slice::slice_to_vec;

verus! {

/// The name of the search path variable.
pub const PATH_KEY: &'static str = "PATH";

/// The byte that separates the entries of the search path variable: a colon.
pub const SEPARATOR: u8 = 58;

/// The entries of a value of the search path variable.
pub open spec fn entries(value: Seq<u8>) -> Seq<Seq<u8>> {
    split(value, SEPARATOR)
}

/// Whether `dir` can be an entry: it holds no separator.
pub open spec fn joinable(dir: Seq<u8>) -> bool {
    !dir.contains(SEPARATOR)
}

/// The value with `dir` as a new first entry before those of `value`.
pub open spec fn prepended(value: Seq<u8>, dir: Seq<u8>) -> Seq<u8> {
    join(seq![dir] + entries(value), SEPARATOR)
}

/// The entries, as spelled, whose resolved path names another directory than
/// `dir`, in their order. `resolved` holds the resolved path of each entry.
pub open spec fn kept_resolved(
    spelled: Seq<Seq<u8>>,
    resolved: Seq<Seq<u8>>,
    dir: Seq<u8>,
) -> Seq<Seq<u8>>
    recommends
        spelled.len() == resolved.len(),
    decreases spelled.len(),
{
    if spelled.len() == 0 || resolved.len() == 0 {
        Seq::<Seq<u8>>::empty()
    } else {
        let before = kept_resolved(spelled.drop_last(), resolved.drop_last(), dir);
        if same_directory(resolved.last(), dir) {
            before
        } else {
            before.push(spelled.last())
        }
    }
}

/// The value without the entries that name `dir`, all of them.
pub open spec fn removed(value: Seq<u8>, resolved: Seq<Seq<u8>>, dir: Seq<u8>) -> Seq<u8> {
    join(kept_resolved(entries(value), resolved, dir), SEPARATOR)
}

/// Whether the resolved path at `i` names `dir` and none before it does.
pub open spec fn names_first(resolved: Seq<Seq<u8>>, dir: Seq<u8>, i: int) -> bool {
    &&& 0 <= i < resolved.len()
    &&& same_directory(resolved[i], dir)
    &&& forall|j: int| 0 <= j < i ==> !same_directory(#[trigger] resolved[j], dir)
}

/// The entries, as spelled, without the first one whose resolved path names
/// `dir`; all of them where none does.
pub open spec fn without_first(
    spelled: Seq<Seq<u8>>,
    resolved: Seq<Seq<u8>>,
    dir: Seq<u8>,
) -> Seq<Seq<u8>>
    recommends
        spelled.len() == resolved.len(),
{
    if exists|i: int| names_first(resolved, dir, i) {
        spelled.remove(choose|i: int| names_first(resolved, dir, i))
    } else {
        spelled
    }
}

/// The value without its first entry that names `dir`: what releasing one
/// registration of `dir` leaves.
pub open spec fn released(value: Seq<u8>, resolved: Seq<Seq<u8>>, dir: Seq<u8>) -> Seq<u8> {
    join(without_first(entries(value), resolved, dir), SEPARATOR)
}

/// The resolved paths of the entries, where every path resolves as `resolve`
/// says: the file system as it stands at one moment.
pub open spec fn resolved_by(
    pieces: Seq<Seq<u8>>,
    resolve: spec_fn(Seq<u8>) -> Seq<u8>,
) -> Seq<Seq<u8>> {
    pieces.map_values(resolve)
}

/// The entries of a value of the search path variable, in order.
pub fn split_paths(value: &[u8]) -> (dirs: Vec<Vec<u8>>)
    ensures
        dirs.deep_view() == entries(value@),
        dirs.len() >= 1,
{
    proof {
        lemma_split_pieces(value@, SEPARATOR);
    }
    split_on(value, SEPARATOR)
}

/// The value of the search path variable that has the given entries.
///
/// There is none where an entry holds the separator: such an entry would read
/// back as two.
pub fn join_paths(dirs: &Vec<Vec<u8>>) -> (value: Option<Vec<u8>>)
    ensures
        value is Some <==> all_free(dirs.deep_view(), SEPARATOR),
        value matches Some(v) ==> v@ == join(dirs.deep_view(), SEPARATOR),
{
    if pieces_free(dirs, SEPARATOR) {
        Some(join_on(dirs, SEPARATOR))
    } else {
        None
    }
}

/// The value with `dir` as a new first entry before those of `value`, if
/// `dir` can be an entry.
pub fn prepend(value: &[u8], dir: &[u8]) -> (new_value: Option<Vec<u8>>)
    ensures
        new_value is Some <==> joinable(dir@),
        new_value matches Some(v) ==> v@ == prepended(value@, dir@),
{
    let mut dirs = split_paths(value);
    let first = slice_to_vec(dir);
    let ghost old_dirs = dirs;
    let ghost rest = dirs.deep_view();
    dirs.insert(0, first);
    proof {
        lemma_split_pieces(value@, SEPARATOR);
        lemma_bytes_deep_view(first);
        let all = dirs.deep_view();
        assert forall|i: int| 0 <= i < all.len() implies all[i] == (seq![dir@] + rest)[i] by {
            if i > 0 {
                assert(dirs@[i] == old_dirs@[i - 1]);
            }
        }
        assert(all =~= seq![dir@] + rest);
        if joinable(dir@) {
            assert forall|i: int| 0 <= i < all.len() implies !(#[trigger] all[i]).contains(
                SEPARATOR,
            ) by {
                if i > 0 {
                    assert(all[i] == rest[i - 1]);
                }
            }
        } else {
            assert(all[0] == dir@);
        }
    }
    join_paths(&dirs)
}

/// The value without the entries that name the directory, all of them; the
/// other entries stay as they are spelled, in their order.
///
/// `resolved` holds the resolved path of each entry of `value`, in order, and
/// `resolved_dir` that of the directory. There is no result where `resolved`
/// is not one path for each entry.
pub fn remove_resolved(value: &[u8], resolved: &Vec<Vec<u8>>, resolved_dir: &[u8]) -> (new_value:
    Option<Vec<u8>>)
    ensures
        new_value is Some <==> resolved.len() == entries(value@).len(),
        new_value matches Some(v) ==> v@ == removed(
            value@,
            resolved.deep_view(),
            resolved_dir@,
        ),
{
    let dirs = split_paths(value);
    if resolved.len() != dirs.len() {
        return None;
    }
    let target = path_components(resolved_dir);
    let ghost all = dirs.deep_view();
    let ghost places = resolved.deep_view();
    let mut kept: Vec<Vec<u8>> = Vec::new();
    let mut i: usize = 0;
    assert(kept.deep_view() == Seq::<Seq<u8>>::empty());
    while i < dirs.len()
        invariant
            i <= dirs.len(),
            dirs.len() == resolved.len(),
            all == dirs.deep_view(),
            places == resolved.deep_view(),
            target.deep_view() == components(resolved_dir@),
            kept.deep_view() == kept_resolved(
                all.take(i as int),
                places.take(i as int),
                resolved_dir@,
            ),
        decreases dirs.len() - i,
    {
        let entry = &dirs[i];
        let place = &resolved[i];
        proof {
            assert(all[i as int] == entry@);
            assert(places[i as int] == place@);
            assert(all.take(i + 1).drop_last() == all.take(i as int));
            assert(places.take(i + 1).drop_last() == places.take(i as int));
            assert(all.take(i + 1).last() == entry@);
            assert(places.take(i + 1).last() == place@);
        }
        let named = path_components(place.as_slice());
        if !lists_equal(&named, &target) {
            let ghost before = kept;
            let copy = slice_to_vec(entry.as_slice());
            kept.push(copy);
            proof {
                lemma_deep_view_push(before, kept, copy);
            }
        }
        i += 1;
    }
    proof {
        assert(all.take(i as int) == all);
        assert(places.take(i as int) == places);
    }
    Some(join_on(&kept, SEPARATOR))
}

/// The value without its first entry that names the directory; the value as
/// it is where no entry does.
///
/// `resolved` holds the resolved path of each entry of `value`, in order, and
/// `resolved_dir` that of the directory. There is no result where `resolved`
/// is not one path for each entry.
pub fn release_resolved(value: &[u8], resolved: &Vec<Vec<u8>>, resolved_dir: &[u8]) -> (new_value:
    Option<Vec<u8>>)
    ensures
        new_value is Some <==> resolved.len() == entries(value@).len(),
        new_value matches Some(v) ==> v@ == released(
            value@,
            resolved.deep_view(),
            resolved_dir@,
        ),
{
    let mut dirs = split_paths(value);
    if resolved.len() != dirs.len() {
        return None;
    }
    let target = path_components(resolved_dir);
    let ghost all = dirs.deep_view();
    let ghost places = resolved.deep_view();
    let mut i: usize = 0;
    while i < resolved.len()
        invariant
            i <= resolved.len(),
            dirs.len() == resolved.len(),
            all == dirs.deep_view(),
            all == entries(value@),
            places == resolved.deep_view(),
            target.deep_view() == components(resolved_dir@),
            forall|j: int| 0 <= j < i ==> !same_directory(#[trigger] places[j], resolved_dir@),
        decreases resolved.len() - i,
    {
        let place = &resolved[i];
        assert(places[i as int] == place@);
        let named = path_components(place.as_slice());
        if lists_equal(&named, &target) {
            let ghost before = dirs;
            dirs.remove(i);
            proof {
                lemma_deep_view_remove(before, dirs, i as int);
                lemma_first_naming(all, places, resolved_dir@, i as int);
            }
            return Some(join_on(&dirs, SEPARATOR));
        }
        i += 1;
    }
    proof {
        lemma_no_naming(all, places, resolved_dir@);
        lemma_join_split(value@, SEPARATOR);
    }
    Some(slice_to_vec(value))
}

/// Where the resolved path at `i` is the first that names the directory, the
/// entry at `i` is the one taken out.
pub proof fn lemma_first_naming(
    spelled: Seq<Seq<u8>>,
    resolved: Seq<Seq<u8>>,
    dir: Seq<u8>,
    i: int,
)
    requires
        names_first(resolved, dir, i),
    ensures
        without_first(spelled, resolved, dir) == spelled.remove(i),
{
    let k = choose|k: int| names_first(resolved, dir, k);
    if k < i {
        assert(!same_directory(resolved[k], dir));
    }
    if i < k {
        assert(!same_directory(resolved[i], dir));
    }
}

/// Where no resolved path names the directory, no entry is taken out.
pub proof fn lemma_no_naming(spelled: Seq<Seq<u8>>, resolved: Seq<Seq<u8>>, dir: Seq<u8>)
    requires
        forall|j: int| 0 <= j < resolved.len() ==> !same_directory(#[trigger] resolved[j], dir),
    ensures
        without_first(spelled, resolved, dir) == spelled,
{
    if exists|i: int| names_first(resolved, dir, i) {
        let i = choose|i: int| names_first(resolved, dir, i);
        assert(!same_directory(resolved[i], dir));
    }
}

/// Where some resolved path names the directory, one of them is the first.
pub proof fn lemma_some_naming(resolved: Seq<Seq<u8>>, dir: Seq<u8>, j: int) -> (i: int)
    requires
        0 <= j < resolved.len(),
        same_directory(resolved[j], dir),
    ensures
        names_first(resolved, dir, i),
        i <= j,
    decreases j,
{
    if exists|k: int| 0 <= k < j && same_directory(#[trigger] resolved[k], dir) {
        let k = choose|k: int| 0 <= k < j && same_directory(#[trigger] resolved[k], dir);
        lemma_some_naming(resolved, dir, k)
    } else {
        j
    }
}

/// Taking out the first entry that names the directory, entry by entry: the
/// first entry goes if it names the directory, else the search goes on
/// behind it.
pub proof fn lemma_without_first_step(
    first: Seq<u8>,
    first_resolved: Seq<u8>,
    rest: Seq<Seq<u8>>,
    rest_resolved: Seq<Seq<u8>>,
    dir: Seq<u8>,
)
    requires
        rest.len() == rest_resolved.len(),
    ensures
        without_first(seq![first] + rest, seq![first_resolved] + rest_resolved, dir)
            == if same_directory(first_resolved, dir) {
            rest
        } else {
            seq![first] + without_first(rest, rest_resolved, dir)
        },
{
    let all = seq![first] + rest;
    let places = seq![first_resolved] + rest_resolved;
    if same_directory(first_resolved, dir) {
        assert(names_first(places, dir, 0));
        lemma_first_naming(all, places, dir, 0);
        assert(all.remove(0) == rest);
    } else if exists|j: int|
        0 <= j < rest_resolved.len() && same_directory(#[trigger] rest_resolved[j], dir) {
        let j = choose|j: int|
            0 <= j < rest_resolved.len() && same_directory(#[trigger] rest_resolved[j], dir);
        let i = lemma_some_naming(rest_resolved, dir, j);
        assert forall|k: int| 0 <= k < i + 1 implies !same_directory(
            #[trigger] places[k],
            dir,
        ) by {
            if k > 0 {
                assert(places[k] == rest_resolved[k - 1]);
            }
        }
        assert(places[i + 1] == rest_resolved[i]);
        lemma_first_naming(rest, rest_resolved, dir, i);
        lemma_first_naming(all, places, dir, i + 1);
        assert(all.remove(i + 1) == seq![first] + rest.remove(i));
    } else {
        assert forall|k: int| 0 <= k < places.len() implies !same_directory(
            #[trigger] places[k],
            dir,
        ) by {
            if k > 0 {
                assert(places[k] == rest_resolved[k - 1]);
            }
        }
        lemma_no_naming(rest, rest_resolved, dir);
        lemma_no_naming(all, places, dir);
    }
}

/// Where an entry of `front` names the directory, the entries after `front`
/// are not looked at.
pub proof fn lemma_without_first_front(
    front: Seq<Seq<u8>>,
    front_resolved: Seq<Seq<u8>>,
    back: Seq<Seq<u8>>,
    back_resolved: Seq<Seq<u8>>,
    dir: Seq<u8>,
    j: int,
)
    requires
        front.len() == front_resolved.len(),
        0 <= j < front.len(),
        same_directory(front_resolved[j], dir),
    ensures
        without_first(front + back, front_resolved + back_resolved, dir) == without_first(
            front,
            front_resolved,
            dir,
        ) + back,
{
    let i = lemma_some_naming(front_resolved, dir, j);
    let all = front + back;
    let places = front_resolved + back_resolved;
    assert forall|k: int| 0 <= k < i implies !same_directory(#[trigger] places[k], dir) by {
        assert(places[k] == front_resolved[k]);
    }
    assert(places[i] == front_resolved[i]);
    lemma_first_naming(front, front_resolved, dir, i);
    lemma_first_naming(all, places, dir, i);
    assert(all.remove(i) == front.remove(i) + back);
}

/// A new first entry goes before the old value with one separator between
/// them: the directory is the first entry of the new value, and the entries
/// of the old value follow it unchanged and in order.
pub proof fn lemma_prepended_first(value: Seq<u8>, dir: Seq<u8>)
    requires
        joinable(dir),
    ensures
        prepended(value, dir) == dir + seq![SEPARATOR] + value,
        entries(prepended(value, dir)) == seq![dir] + entries(value),
        entries(prepended(value, dir))[0] == dir,
{
    let old_entries = entries(value);
    let all = seq![dir] + old_entries;
    lemma_split_pieces(value, SEPARATOR);
    lemma_join_split(value, SEPARATOR);
    lemma_join_front(dir, old_entries, SEPARATOR);
    assert forall|i: int| 0 <= i < all.len() implies !(#[trigger] all[i]).contains(SEPARATOR) by {
        if i > 0 {
            assert(all[i] == old_entries[i - 1]);
        }
    }
    lemma_split_join(all, SEPARATOR);
}

/// What is kept of the entries: as many entries as of their resolved paths,
/// and of the resolved paths none that names the directory. So the resolved
/// paths of the kept entries are `kept_resolved(resolved, resolved, dir)`.
pub proof fn lemma_kept_resolved(spelled: Seq<Seq<u8>>, resolved: Seq<Seq<u8>>, dir: Seq<u8>)
    requires
        spelled.len() == resolved.len(),
    ensures
        kept_resolved(spelled, resolved, dir).len() == kept_resolved(
            resolved,
            resolved,
            dir,
        ).len(),
        kept_resolved(spelled, resolved, dir).len() <= spelled.len(),
        forall|k: int|
            0 <= k < kept_resolved(resolved, resolved, dir).len() ==> !same_directory(
                #[trigger] kept_resolved(resolved, resolved, dir)[k],
                dir,
            ),
    decreases spelled.len(),
{
    if spelled.len() > 0 {
        lemma_kept_resolved(spelled.drop_last(), resolved.drop_last(), dir);
        let before = kept_resolved(resolved.drop_last(), resolved.drop_last(), dir);
        let after = kept_resolved(resolved, resolved, dir);
        assert forall|k: int| 0 <= k < after.len() implies !same_directory(
            #[trigger] after[k],
            dir,
        ) by {
            if k < before.len() {
                assert(after[k] == before[k]);
            }
        }
    }
}

/// Every kept entry is free of the separator where every entry is.
pub proof fn lemma_kept_free(
    spelled: Seq<Seq<u8>>,
    resolved: Seq<Seq<u8>>,
    dir: Seq<u8>,
    sep: u8,
)
    requires
        spelled.len() == resolved.len(),
        all_free(spelled, sep),
    ensures
        all_free(kept_resolved(spelled, resolved, dir), sep),
    decreases spelled.len(),
{
    if spelled.len() > 0 {
        let front = spelled.drop_last();
        assert forall|i: int| 0 <= i < front.len() implies !(#[trigger] front[i]).contains(
            sep,
        ) by {
            assert(front[i] == spelled[i]);
        }
        lemma_kept_free(front, resolved.drop_last(), dir, sep);
        let before = kept_resolved(front, resolved.drop_last(), dir);
        let after = kept_resolved(spelled, resolved, dir);
        assert(!spelled[spelled.len() - 1].contains(sep));
        assert forall|k: int| 0 <= k < after.len() implies !(#[trigger] after[k]).contains(
            sep,
        ) by {
            if k < before.len() {
                assert(after[k] == before[k]);
            }
        }
    }
}

/// Every entry is kept where no resolved path names the directory.
pub proof fn lemma_kept_all(spelled: Seq<Seq<u8>>, resolved: Seq<Seq<u8>>, dir: Seq<u8>)
    requires
        spelled.len() == resolved.len(),
        forall|i: int| 0 <= i < resolved.len() ==> !same_directory(#[trigger] resolved[i], dir),
    ensures
        kept_resolved(spelled, resolved, dir) == spelled,
    decreases spelled.len(),
{
    if spelled.len() > 0 {
        let places = resolved.drop_last();
        assert forall|i: int| 0 <= i < places.len() implies !same_directory(
            #[trigger] places[i],
            dir,
        ) by {
            assert(places[i] == resolved[i]);
        }
        lemma_kept_all(spelled.drop_last(), places, dir);
        assert(!same_directory(resolved[resolved.len() - 1], dir));
        assert(spelled.drop_last().push(spelled.last()) == spelled);
    }
}

/// Just the entry at `i` goes where its resolved path is the only one that
/// names the directory.
pub proof fn lemma_kept_but_one(
    spelled: Seq<Seq<u8>>,
    resolved: Seq<Seq<u8>>,
    dir: Seq<u8>,
    i: int,
)
    requires
        spelled.len() == resolved.len(),
        0 <= i < resolved.len(),
        forall|j: int|
            0 <= j < resolved.len() && j != i ==> !same_directory(#[trigger] resolved[j], dir),
        same_directory(resolved[i], dir),
    ensures
        kept_resolved(spelled, resolved, dir) == spelled.remove(i),
    decreases spelled.len(),
{
    let front = spelled.drop_last();
    let places = resolved.drop_last();
    if i == spelled.len() - 1 {
        assert forall|j: int| 0 <= j < places.len() implies !same_directory(
            #[trigger] places[j],
            dir,
        ) by {
            assert(places[j] == resolved[j]);
        }
        lemma_kept_all(front, places, dir);
        assert(spelled.remove(i) == front);
    } else {
        assert forall|j: int| 0 <= j < places.len() && j != i implies !same_directory(
            #[trigger] places[j],
            dir,
        ) by {
            assert(places[j] == resolved[j]);
        }
        assert(places[i] == resolved[i]);
        lemma_kept_but_one(front, places, dir, i);
        assert(!same_directory(resolved[resolved.len() - 1], dir));
        assert(front.remove(i).push(spelled.last()) == spelled.remove(i));
    }
}

/// The resolved paths of the kept entries are the kept resolved paths, where
/// every path resolves as `resolve` says.
pub proof fn lemma_kept_resolved_by(
    spelled: Seq<Seq<u8>>,
    resolve: spec_fn(Seq<u8>) -> Seq<u8>,
    dir: Seq<u8>,
)
    ensures
        resolved_by(kept_resolved(spelled, resolved_by(spelled, resolve), dir), resolve)
            == kept_resolved(
            resolved_by(spelled, resolve),
            resolved_by(spelled, resolve),
            dir,
        ),
    decreases spelled.len(),
{
    if spelled.len() > 0 {
        let front = spelled.drop_last();
        lemma_kept_resolved_by(front, resolve, dir);
        assert(resolved_by(spelled, resolve).drop_last() == resolved_by(front, resolve));
        assert(resolved_by(spelled, resolve).last() == resolve(spelled.last()));
        let before = kept_resolved(front, resolved_by(front, resolve), dir);
        if !same_directory(resolve(spelled.last()), dir) {
            assert(resolved_by(before.push(spelled.last()), resolve) == resolved_by(
                before,
                resolve,
            ).push(resolve(spelled.last())));
        }
    } else {
        assert(resolved_by(Seq::<Seq<u8>>::empty(), resolve) == Seq::<Seq<u8>>::empty());
    }
}

/// The entries after a removal are the entries that were kept; where none was
/// kept the new value is empty, and an empty value has the empty entry.
pub proof fn lemma_removed_entries(value: Seq<u8>, resolved: Seq<Seq<u8>>, dir: Seq<u8>)
    requires
        resolved.len() == entries(value).len(),
    ensures
        entries(removed(value, resolved, dir)) == if kept_resolved(
            entries(value),
            resolved,
            dir,
        ).len() == 0 {
            seq![Seq::<u8>::empty()]
        } else {
            kept_resolved(entries(value), resolved, dir)
        },
{
    let kept = kept_resolved(entries(value), resolved, dir);
    lemma_split_pieces(value, SEPARATOR);
    lemma_kept_free(entries(value), resolved, dir, SEPARATOR);
    if kept.len() > 0 {
        lemma_split_join(kept, SEPARATOR);
    }
}

/// After a removal no entry names the directory any more, however it is
/// spelled: the entries of the new value are the kept entries, and of their
/// resolved paths none names the directory.
///
/// One case is left out. Where no entry is kept the new value is empty, and
/// the one entry of an empty value is the empty path, of which no resolved
/// path was handed in.
pub proof fn lemma_removed_not_listed(value: Seq<u8>, resolved: Seq<Seq<u8>>, dir: Seq<u8>)
    requires
        resolved.len() == entries(value).len(),
        kept_resolved(entries(value), resolved, dir).len() > 0,
    ensures
        entries(removed(value, resolved, dir)) == kept_resolved(entries(value), resolved, dir),
        entries(removed(value, resolved, dir)).len() == kept_resolved(
            resolved,
            resolved,
            dir,
        ).len(),
        forall|k: int|
            0 <= k < kept_resolved(resolved, resolved, dir).len() ==> !same_directory(
                #[trigger] kept_resolved(resolved, resolved, dir)[k],
                dir,
            ),
{
    lemma_removed_entries(value, resolved, dir);
    lemma_kept_resolved(entries(value), resolved, dir);
}

/// After a removal, follow the links of any entry of the new value: it leads
/// to another directory. Every entry that led to the directory is gone, a
/// link to it as much as another spelling of it.
///
/// The case in which no entry is kept is left out, as in
/// [`lemma_removed_not_listed`].
pub proof fn lemma_removed_leads_elsewhere(
    value: Seq<u8>,
    resolve: spec_fn(Seq<u8>) -> Seq<u8>,
    dir: Seq<u8>,
)
    requires
        kept_resolved(entries(value), resolved_by(entries(value), resolve), dir).len() > 0,
    ensures
        forall|k: int|
            0 <= k < entries(removed(value, resolved_by(entries(value), resolve), dir)).len()
                ==> !same_directory(
                resolve(
                    #[trigger] entries(
                        removed(value, resolved_by(entries(value), resolve), dir),
                    )[k],
                ),
                dir,
            ),
{
    let resolved = resolved_by(entries(value), resolve);
    let kept = kept_resolved(entries(value), resolved, dir);
    let places = kept_resolved(resolved, resolved, dir);
    lemma_removed_not_listed(value, resolved, dir);
    lemma_kept_resolved_by(entries(value), resolve, dir);
    assert forall|k: int| 0 <= k < kept.len() implies !same_directory(
        resolve(#[trigger] kept[k]),
        dir,
    ) by {
        assert(resolved_by(kept, resolve)[k] == resolve(kept[k]));
        assert(!same_directory(places[k], dir));
    }
}

/// Removing a directory that no entry names changes nothing.
pub proof fn lemma_removed_absent(value: Seq<u8>, resolved: Seq<Seq<u8>>, dir: Seq<u8>)
    requires
        resolved.len() == entries(value).len(),
        forall|i: int| 0 <= i < resolved.len() ==> !same_directory(#[trigger] resolved[i], dir),
    ensures
        removed(value, resolved, dir) == value,
{
    lemma_kept_all(entries(value), resolved, dir);
    lemma_join_split(value, SEPARATOR);
}

/// Removing a directory a second time changes nothing, where every path
/// resolves at the second time as it did at the first.
pub proof fn lemma_removed_twice(
    value: Seq<u8>,
    resolve: spec_fn(Seq<u8>) -> Seq<u8>,
    dir: Seq<u8>,
)
    ensures
        removed(
            removed(value, resolved_by(entries(value), resolve), dir),
            resolved_by(entries(removed(value, resolved_by(entries(value), resolve), dir)), resolve),
            dir,
        ) == removed(value, resolved_by(entries(value), resolve), dir),
{
    let resolved = resolved_by(entries(value), resolve);
    let once = removed(value, resolved, dir);
    let kept = kept_resolved(entries(value), resolved, dir);
    lemma_removed_entries(value, resolved, dir);
    if kept.len() > 0 {
        lemma_kept_resolved_by(entries(value), resolve, dir);
        lemma_kept_resolved(entries(value), resolved, dir);
        lemma_removed_absent(once, resolved_by(kept, resolve), dir);
    } else {
        let lone = seq![Seq::<u8>::empty()];
        let place = resolved_by(lone, resolve);
        assert(lone.drop_last() == Seq::<Seq<u8>>::empty());
        assert(place.drop_last() == Seq::<Seq<u8>>::empty());
        assert(kept_resolved(lone.drop_last(), place.drop_last(), dir)
            == Seq::<Seq<u8>>::empty());
        if !same_directory(place.last(), dir) {
            assert(Seq::<Seq<u8>>::empty().push(lone.last()) == lone);
        }
    }
}

/// Putting a directory in front and removing it again gives what removing it
/// from the old value gives.
pub proof fn lemma_prepended_removed(
    value: Seq<u8>,
    dir: Seq<u8>,
    resolved: Seq<Seq<u8>>,
    resolved_dir: Seq<u8>,
)
    requires
        joinable(dir),
        resolved.len() == entries(value).len(),
    ensures
        removed(prepended(value, dir), seq![resolved_dir] + resolved, resolved_dir) == removed(
            value,
            resolved,
            resolved_dir,
        ),
{
    lemma_prepended_first(value, dir);
    lemma_kept_front(dir, resolved_dir, entries(value), resolved, resolved_dir);
}

/// What is kept of a list with one more entry in front.
pub proof fn lemma_kept_front(
    first: Seq<u8>,
    first_resolved: Seq<u8>,
    rest: Seq<Seq<u8>>,
    rest_resolved: Seq<Seq<u8>>,
    dir: Seq<u8>,
)
    requires
        rest.len() == rest_resolved.len(),
    ensures
        kept_resolved(seq![first] + rest, seq![first_resolved] + rest_resolved, dir)
            == if same_directory(first_resolved, dir) {
            kept_resolved(rest, rest_resolved, dir)
        } else {
            seq![first] + kept_resolved(rest, rest_resolved, dir)
        },
    decreases rest.len(),
{
    let all = seq![first] + rest;
    let places = seq![first_resolved] + rest_resolved;
    if rest.len() == 0 {
        assert(all.drop_last() == Seq::<Seq<u8>>::empty());
        assert(places.drop_last() == Seq::<Seq<u8>>::empty());
        assert(all.last() == first);
        assert(places.last() == first_resolved);
        assert(kept_resolved(rest, rest_resolved, dir) == Seq::<Seq<u8>>::empty());
        assert(kept_resolved(all.drop_last(), places.drop_last(), dir)
            == Seq::<Seq<u8>>::empty());
        assert(Seq::<Seq<u8>>::empty().push(first) == seq![first] + Seq::<Seq<u8>>::empty());
    } else {
        lemma_kept_front(first, first_resolved, rest.drop_last(), rest_resolved.drop_last(), dir);
        assert(all.drop_last() == seq![first] + rest.drop_last());
        assert(places.drop_last() == seq![first_resolved] + rest_resolved.drop_last());
        assert(all.last() == rest.last());
        assert(places.last() == rest_resolved.last());
        let inner = kept_resolved(rest.drop_last(), rest_resolved.drop_last(), dir);
        assert((seq![first] + inner).push(rest.last()) == seq![first] + inner.push(rest.last()));
    }
}

/// The entries after a release are the entries that were left; where none
/// was left the new value is empty, and an empty value has the empty entry.
pub proof fn lemma_released_entries(value: Seq<u8>, resolved: Seq<Seq<u8>>, dir: Seq<u8>)
    requires
        resolved.len() == entries(value).len(),
    ensures
        entries(released(value, resolved, dir)) == if without_first(
            entries(value),
            resolved,
            dir,
        ).len() == 0 {
            seq![Seq::<u8>::empty()]
        } else {
            without_first(entries(value), resolved, dir)
        },
{
    let all = entries(value);
    let left = without_first(all, resolved, dir);
    lemma_split_pieces(value, SEPARATOR);
    assert forall|k: int| 0 <= k < left.len() implies !(#[trigger] left[k]).contains(
        SEPARATOR,
    ) by {
        if exists|i: int| names_first(resolved, dir, i) {
            let i = choose|i: int| names_first(resolved, dir, i);
            if k < i {
                assert(left[k] == all[k]);
            } else {
                assert(left[k] == all[k + 1]);
            }
        }
    }
    if left.len() > 0 {
        lemma_split_join(left, SEPARATOR);
    }
}

/// Releasing a directory that no entry names changes nothing.
pub proof fn lemma_released_absent(value: Seq<u8>, resolved: Seq<Seq<u8>>, dir: Seq<u8>)
    requires
        forall|i: int| 0 <= i < resolved.len() ==> !same_directory(#[trigger] resolved[i], dir),
    ensures
        released(value, resolved, dir) == value,
{
    lemma_no_naming(entries(value), resolved, dir);
    lemma_join_split(value, SEPARATOR);
}

/// Putting a directory in front and releasing it gives the old value back,
/// whatever the old value holds and however its entries resolve.
pub proof fn lemma_prepended_released(
    value: Seq<u8>,
    dir: Seq<u8>,
    resolved: Seq<Seq<u8>>,
    resolved_dir: Seq<u8>,
)
    requires
        joinable(dir),
    ensures
        released(prepended(value, dir), seq![resolved_dir] + resolved, resolved_dir) == value,
{
    lemma_prepended_first(value, dir);
    let all = seq![dir] + entries(value);
    let places = seq![resolved_dir] + resolved;
    assert(names_first(places, resolved_dir, 0));
    lemma_first_naming(all, places, resolved_dir, 0);
    assert(all.remove(0) == entries(value));
    lemma_join_split(value, SEPARATOR);
}

/// After a release the first entry does not name the directory: the entries
/// of the new value are the entries that were left, their resolved paths are
/// the resolved paths that were left, and the first of these names another
/// directory.
///
/// Two cases are left out. In one the first two entries both named the
/// directory: the second is now the first. In the other nothing is left: the
/// new value is empty, and its one entry is the empty path, of which no
/// resolved path was handed in.
pub proof fn lemma_released_not_first(value: Seq<u8>, resolved: Seq<Seq<u8>>, dir: Seq<u8>)
    requires
        resolved.len() == entries(value).len(),
        !(resolved.len() >= 2 && same_directory(resolved[0], dir) && same_directory(
            resolved[1],
            dir,
        )),
        without_first(entries(value), resolved, dir).len() > 0,
    ensures
        entries(released(value, resolved, dir)) == without_first(entries(value), resolved, dir),
        without_first(resolved, resolved, dir).len() == without_first(
            entries(value),
            resolved,
            dir,
        ).len(),
        !same_directory(without_first(resolved, resolved, dir)[0], dir),
{
    let all = entries(value);
    lemma_split_pieces(value, SEPARATOR);
    lemma_released_entries(value, resolved, dir);
    if exists|j: int| 0 <= j < resolved.len() && same_directory(#[trigger] resolved[j], dir) {
        let j = choose|j: int|
            0 <= j < resolved.len() && same_directory(#[trigger] resolved[j], dir);
        let i = lemma_some_naming(resolved, dir, j);
        lemma_first_naming(all, resolved, dir, i);
        lemma_first_naming(resolved, resolved, dir, i);
        let left = resolved.remove(i);
        if i == 0 {
            assert(left[0] == resolved[1]);
        } else {
            assert(left[0] == resolved[0]);
        }
    } else {
        lemma_no_naming(all, resolved, dir);
        lemma_no_naming(resolved, resolved, dir);
    }
}

/// After a release, follow the links of the first entry of the new value: it
/// leads to another directory, with the two cases of
/// [`lemma_released_not_first`] left out.
pub proof fn lemma_released_leads_elsewhere(
    value: Seq<u8>,
    resolve: spec_fn(Seq<u8>) -> Seq<u8>,
    dir: Seq<u8>,
)
    requires
        !(entries(value).len() >= 2 && same_directory(resolve(entries(value)[0]), dir)
            && same_directory(resolve(entries(value)[1]), dir)),
        without_first(entries(value), resolved_by(entries(value), resolve), dir).len() > 0,
    ensures
        !same_directory(
            resolve(entries(released(value, resolved_by(entries(value), resolve), dir))[0]),
            dir,
        ),
{
    let all = entries(value);
    let resolved = resolved_by(all, resolve);
    lemma_split_pieces(value, SEPARATOR);
    assert(resolved[0] == resolve(all[0]));
    if all.len() >= 2 {
        assert(resolved[1] == resolve(all[1]));
    }
    lemma_released_not_first(value, resolved, dir);
    if exists|j: int| 0 <= j < resolved.len() && same_directory(#[trigger] resolved[j], dir) {
        let j = choose|j: int|
            0 <= j < resolved.len() && same_directory(#[trigger] resolved[j], dir);
        let i = lemma_some_naming(resolved, dir, j);
        lemma_first_naming(all, resolved, dir, i);
        lemma_first_naming(resolved, resolved, dir, i);
        if i == 0 {
            assert(all.remove(i)[0] == all[1]);
            assert(resolved.remove(i)[0] == resolved[1]);
        } else {
            assert(all.remove(i)[0] == all[0]);
            assert(resolved.remove(i)[0] == resolved[0]);
        }
    } else {
        lemma_no_naming(all, resolved, dir);
        lemma_no_naming(resolved, resolved, dir);
    }
}

/// Where at most one entry names the directory, to take out the first such
/// entry is to take out all: the release leaves no entry that names it, and
/// the other entries keep their places.
pub proof fn lemma_released_is_removed(value: Seq<u8>, resolved: Seq<Seq<u8>>, dir: Seq<u8>)
    requires
        resolved.len() == entries(value).len(),
        forall|j: int, k: int|
            0 <= j < k < resolved.len() ==> !(same_directory(#[trigger] resolved[j], dir)
                && same_directory(#[trigger] resolved[k], dir)),
    ensures
        released(value, resolved, dir) == removed(value, resolved, dir),
{
    let all = entries(value);
    if exists|j: int| 0 <= j < resolved.len() && same_directory(#[trigger] resolved[j], dir) {
        let j = choose|j: int|
            0 <= j < resolved.len() && same_directory(#[trigger] resolved[j], dir);
        let i = lemma_some_naming(resolved, dir, j);
        lemma_first_naming(all, resolved, dir, i);
        assert forall|k: int| 0 <= k < resolved.len() && k != i implies !same_directory(
            #[trigger] resolved[k],
            dir,
        ) by {
            if k > i {
                assert(!(same_directory(resolved[i], dir) && same_directory(resolved[k], dir)));
            }
        }
        lemma_kept_but_one(all, resolved, dir, i);
    } else {
        lemma_no_naming(all, resolved, dir);
        lemma_kept_all(all, resolved, dir);
    }
}

} // verus!

//! What a run of registrations and releases leaves in the search path.
//!
//! Mocks may be set up and released by several threads. Each change of the
//! variable is made under one lock, so the changes happen one after another
//! in some order. This module speaks of every such order. What a path
//! resolves to is taken to stay the same from the first change to the last:
//! it is a function `resolve`, and every statement holds for every such
//! function.

use crate::directory::same_directory;
use crate::pieces::{all_free, join, lemma_join_split, lemma_split_join, lemma_split_pieces};
use crate::search_path::{
    entries, joinable, lemma_first_naming, lemma_no_naming, lemma_prepended_first,
    lemma_some_naming, lemma_without_first_front, lemma_without_first_step, prepended, released,
    resolved_by, without_first, SEPARATOR,
};
use vstd::prelude::*;

verus! {

/// One change of the search path variable.
pub enum Change {
    /// A mock is set up and puts its directory in front: the value that
    /// [`BinaryMock::new`](crate::mock::BinaryMock::new) gives to write.
    Register(Seq<u8>),
    /// A mock is released and takes its directory out: the value that its
    /// first [`BinaryMock::release`](crate::mock::BinaryMock::release) gives
    /// to write.
    Release(Seq<u8>),
}

/// The value after one change, where every path resolves as `resolve` says.
pub open spec fn apply(
    value: Seq<u8>,
    change: Change,
    resolve: spec_fn(Seq<u8>) -> Seq<u8>,
) -> Seq<u8> {
    match change {
        Change::Register(dir) => prepended(value, dir),
        Change::Release(dir) => released(
            value,
            resolved_by(entries(value), resolve),
            resolve(dir),
        ),
    }
}

/// The value after the changes, made in order.
pub open spec fn run(
    value: Seq<u8>,
    changes: Seq<Change>,
    resolve: spec_fn(Seq<u8>) -> Seq<u8>,
) -> Seq<u8>
    decreases changes.len(),
{
    if changes.len() == 0 {
        value
    } else {
        apply(run(value, changes.drop_last(), resolve), changes.last(), resolve)
    }
}

/// The directories of the mocks that are live after the changes, the latest
/// first: those registered and not yet released.
pub open spec fn live(changes: Seq<Change>, resolve: spec_fn(Seq<u8>) -> Seq<u8>) -> Seq<Seq<u8>>
    decreases changes.len(),
{
    if changes.len() == 0 {
        Seq::<Seq<u8>>::empty()
    } else {
        let before = live(changes.drop_last(), resolve);
        match changes.last() {
            Change::Register(dir) => seq![dir] + before,
            Change::Release(dir) => without_first(
                before,
                resolved_by(before, resolve),
                resolve(dir),
            ),
        }
    }
}

/// Whether `change` can follow the changes `before`: a registration is of a
/// directory that can be an entry, and a release is of a directory that a
/// live mock registered.
pub open spec fn allowed(
    before: Seq<Change>,
    change: Change,
    resolve: spec_fn(Seq<u8>) -> Seq<u8>,
) -> bool {
    match change {
        Change::Register(dir) => joinable(dir),
        Change::Release(dir) => exists|j: int|
            0 <= j < live(before, resolve).len() && same_directory(
                resolve(#[trigger] live(before, resolve)[j]),
                resolve(dir),
            ),
    }
}

/// Whether every change can follow those before it.
pub open spec fn orderly(changes: Seq<Change>, resolve: spec_fn(Seq<u8>) -> Seq<u8>) -> bool {
    forall|k: int|
        0 <= k < changes.len() ==> allowed(#[trigger] changes.take(k), changes[k], resolve)
}

/// Orderly changes stay orderly without the last.
pub proof fn lemma_orderly_before(changes: Seq<Change>, resolve: spec_fn(Seq<u8>) -> Seq<u8>)
    requires
        orderly(changes, resolve),
        changes.len() > 0,
    ensures
        orderly(changes.drop_last(), resolve),
        allowed(changes.drop_last(), changes.last(), resolve),
{
    let before = changes.drop_last();
    assert forall|k: int| 0 <= k < before.len() implies allowed(
        #[trigger] before.take(k),
        before[k],
        resolve,
    ) by {
        assert(before.take(k) == changes.take(k));
        assert(before[k] == changes[k]);
    }
    assert(changes.take(changes.len() - 1) == before);
}

/// Orderly changes stay orderly with one more change that can follow them.
pub proof fn lemma_orderly_push(
    before: Seq<Change>,
    change: Change,
    resolve: spec_fn(Seq<u8>) -> Seq<u8>,
)
    requires
        orderly(before, resolve),
        allowed(before, change, resolve),
    ensures
        orderly(before.push(change), resolve),
{
    let changes = before.push(change);
    assert forall|k: int| 0 <= k < changes.len() implies allowed(
        #[trigger] changes.take(k),
        changes[k],
        resolve,
    ) by {
        if k < before.len() {
            assert(changes.take(k) == before.take(k));
            assert(changes[k] == before[k]);
        } else {
            assert(changes.take(k) == before);
        }
    }
}

/// At every moment the search path holds the directories of the live mocks,
/// the latest first, and behind them the entries it had at the start,
/// unchanged and in their order. So the command of the latest mock is found
/// first, and no entry from before is lost or moved, whatever the entries
/// from before resolve to.
pub proof fn lemma_live_in_front(
    value: Seq<u8>,
    changes: Seq<Change>,
    resolve: spec_fn(Seq<u8>) -> Seq<u8>,
)
    requires
        orderly(changes, resolve),
    ensures
        entries(run(value, changes, resolve)) == live(changes, resolve) + entries(value),
        run(value, changes, resolve) == join(
            live(changes, resolve) + entries(value),
            SEPARATOR,
        ),
        all_free(live(changes, resolve), SEPARATOR),
    decreases changes.len(),
{
    let old_entries = entries(value);
    lemma_split_pieces(value, SEPARATOR);
    lemma_join_split(value, SEPARATOR);
    if changes.len() == 0 {
        assert(live(changes, resolve) + old_entries == old_entries);
    } else {
        let before = changes.drop_last();
        lemma_orderly_before(changes, resolve);
        lemma_live_in_front(value, before, resolve);
        let current = run(value, before, resolve);
        let front = live(before, resolve);
        let now = live(changes, resolve);
        match changes.last() {
            Change::Register(dir) => {
                lemma_prepended_first(current, dir);
                assert(seq![dir] + (front + old_entries) == (seq![dir] + front) + old_entries);
                assert forall|k: int| 0 <= k < now.len() implies !(#[trigger] now[k]).contains(
                    SEPARATOR,
                ) by {
                    if k > 0 {
                        assert(now[k] == front[k - 1]);
                    }
                }
            },
            Change::Release(dir) => {
                let places = resolved_by(front, resolve);
                let j = choose|j: int|
                    0 <= j < front.len() && same_directory(
                        resolve(#[trigger] front[j]),
                        resolve(dir),
                    );
                assert(places[j] == resolve(front[j]));
                assert(resolved_by(front + old_entries, resolve) == places + resolved_by(
                    old_entries,
                    resolve,
                ));
                lemma_without_first_front(
                    front,
                    places,
                    old_entries,
                    resolved_by(old_entries, resolve),
                    resolve(dir),
                    j,
                );
                let i = lemma_some_naming(places, resolve(dir), j);
                lemma_first_naming(front, places, resolve(dir), i);
                let left = front.remove(i);
                assert forall|k: int| 0 <= k < left.len() implies !(#[trigger] left[k]).contains(
                    SEPARATOR,
                ) by {
                    if k < i {
                        assert(left[k] == front[k]);
                    } else {
                        assert(left[k] == front[k + 1]);
                    }
                }
                let all = left + old_entries;
                assert forall|k: int| 0 <= k < all.len() implies !(#[trigger] all[k]).contains(
                    SEPARATOR,
                ) by {
                    if k < left.len() {
                        assert(all[k] == left[k]);
                    } else {
                        assert(all[k] == old_entries[k - left.len()]);
                    }
                }
                lemma_split_join(all, SEPARATOR);
            },
        }
    }
}

/// Once every mock that was set up has been released, the search path is
/// what it was at the start, in whatever order the mocks were set up and
/// released, and whatever its entries resolve to.
pub proof fn lemma_all_released(
    value: Seq<u8>,
    changes: Seq<Change>,
    resolve: spec_fn(Seq<u8>) -> Seq<u8>,
)
    requires
        orderly(changes, resolve),
        live(changes, resolve).len() == 0,
    ensures
        run(value, changes, resolve) == value,
{
    lemma_live_in_front(value, changes, resolve);
    lemma_join_split(value, SEPARATOR);
    assert(live(changes, resolve) + entries(value) == entries(value));
}

/// Whether the changes are those of two mocks, with the directories `a` and
/// `b`, each set up and later released, in one of the six orders that this
/// allows.
pub open spec fn two_mocks(changes: Seq<Change>, a: Seq<u8>, b: Seq<u8>) -> bool {
    ||| one_after_the_other(changes, a, b)
    ||| overlapping(changes, a, b)
    ||| one_within_the_other(changes, a, b)
    ||| one_after_the_other(changes, b, a)
    ||| overlapping(changes, b, a)
    ||| one_within_the_other(changes, b, a)
}

/// The first mock is released before the second is set up.
pub open spec fn one_after_the_other(changes: Seq<Change>, first: Seq<u8>, second: Seq<u8>) -> bool {
    changes == seq![
        Change::Register(first),
        Change::Release(first),
        Change::Register(second),
        Change::Release(second),
    ]
}

/// The second mock is set up while the first is live, and outlives it.
pub open spec fn overlapping(changes: Seq<Change>, first: Seq<u8>, second: Seq<u8>) -> bool {
    changes == seq![
        Change::Register(first),
        Change::Register(second),
        Change::Release(first),
        Change::Release(second),
    ]
}

/// The second mock is set up and released while the first is live.
pub open spec fn one_within_the_other(changes: Seq<Change>, first: Seq<u8>, second: Seq<u8>) -> bool {
    changes == seq![
        Change::Register(first),
        Change::Register(second),
        Change::Release(second),
        Change::Release(first),
    ]
}

/// The live mocks after one more change.
proof fn lemma_live_push(before: Seq<Change>, change: Change, resolve: spec_fn(Seq<u8>) -> Seq<u8>)
    ensures
        live(before.push(change), resolve) == match change {
            Change::Register(dir) => seq![dir] + live(before, resolve),
            Change::Release(dir) => without_first(
                live(before, resolve),
                resolved_by(live(before, resolve), resolve),
                resolve(dir),
            ),
        },
{
    assert(before.push(change).drop_last() == before);
}

/// Taking a directory out of the live mocks, the latest mock first.
proof fn lemma_live_step(
    first: Seq<u8>,
    rest: Seq<Seq<u8>>,
    dir: Seq<u8>,
    resolve: spec_fn(Seq<u8>) -> Seq<u8>,
)
    ensures
        without_first(seq![first] + rest, resolved_by(seq![first] + rest, resolve), resolve(dir))
            == if same_directory(resolve(first), resolve(dir)) {
            rest
        } else {
            seq![first] + without_first(rest, resolved_by(rest, resolve), resolve(dir))
        },
{
    assert(resolved_by(seq![first] + rest, resolve) == seq![resolve(first)] + resolved_by(
        rest,
        resolve,
    ));
    lemma_without_first_step(first, resolve(first), rest, resolved_by(rest, resolve), resolve(dir));
}

/// Four changes that set up two mocks and release both: they are orderly and
/// leave no mock live.
proof fn lemma_four_changes(
    changes: Seq<Change>,
    first: Seq<u8>,
    second: Seq<u8>,
    resolve: spec_fn(Seq<u8>) -> Seq<u8>,
)
    requires
        joinable(first),
        joinable(second),
        one_after_the_other(changes, first, second) || overlapping(changes, first, second)
            || one_within_the_other(changes, first, second),
    ensures
        orderly(changes, resolve),
        live(changes, resolve).len() == 0,
{
    let none = Seq::<Change>::empty();
    let empty = Seq::<Seq<u8>>::empty();
    let one = none.push(changes[0]);
    let two = one.push(changes[1]);
    let three = two.push(changes[2]);
    let four = three.push(changes[3]);
    assert(four == changes);
    assert(orderly(none, resolve));
    assert(live(none, resolve) == empty);
    // The first change registers the first mock.
    lemma_live_push(none, changes[0], resolve);
    lemma_orderly_push(none, changes[0], resolve);
    assert(seq![first] + empty == seq![first]);
    assert(seq![second] + empty == seq![second]);
    assert(live(one, resolve) == seq![first]);
    assert(live(one, resolve)[0] == first);
    assert(resolved_by(empty, resolve) == empty);
    lemma_no_naming(empty, empty, resolve(first));
    lemma_no_naming(empty, empty, resolve(second));
    lemma_live_step(first, empty, first, resolve);
    lemma_live_step(second, empty, second, resolve);
    lemma_live_step(first, empty, second, resolve);
    lemma_live_step(second, empty, first, resolve);
    lemma_live_push(one, changes[1], resolve);
    if one_after_the_other(changes, first, second) {
        lemma_orderly_push(one, changes[1], resolve);
        assert(live(two, resolve) == empty);
        lemma_live_push(two, changes[2], resolve);
        lemma_orderly_push(two, changes[2], resolve);
        assert(live(three, resolve) == seq![second]);
        assert(live(three, resolve)[0] == second);
        lemma_live_push(three, changes[3], resolve);
        lemma_orderly_push(three, changes[3], resolve);
    } else {
        lemma_orderly_push(one, changes[1], resolve);
        assert(live(two, resolve) == seq![second] + seq![first]);
        assert(live(two, resolve)[0] == second);
        assert(live(two, resolve)[1] == first);
        lemma_live_step(second, seq![first], first, resolve);
        lemma_live_step(second, seq![first], second, resolve);
        lemma_live_push(two, changes[2], resolve);
        lemma_orderly_push(two, changes[2], resolve);
        // One mock is left, whichever of the two was taken out.
        let left = live(three, resolve);
        assert(left == seq![first] || left == seq![second]);
        assert(left.len() == 1);
        assert(left[0] == first || left[0] == second);
        lemma_live_push(three, changes[3], resolve);
        if overlapping(changes, first, second) {
            // The first mock was released; what is left names the second
            // directory, or the two directories are one.
            assert(same_directory(resolve(left[0]), resolve(second)));
        } else {
            assert(same_directory(resolve(left[0]), resolve(first)));
        }
        lemma_orderly_push(three, changes[3], resolve);
    }
}

/// Two mocks, set up and released in any order, leave the search path as it
/// was: neither directory is left, and no other entry is lost or moved.
pub proof fn lemma_two_mocks(
    value: Seq<u8>,
    a: Seq<u8>,
    b: Seq<u8>,
    changes: Seq<Change>,
    resolve: spec_fn(Seq<u8>) -> Seq<u8>,
)
    requires
        joinable(a),
        joinable(b),
        two_mocks(changes, a, b),
    ensures
        run(value, changes, resolve) == value,
{
    if one_after_the_other(changes, a, b) || overlapping(changes, a, b) || one_within_the_other(
        changes,
        a,
        b,
    ) {
        lemma_four_changes(changes, a, b, resolve);
    } else {
        lemma_four_changes(changes, b, a, resolve);
    }
    lemma_all_released(value, changes, resolve);
}

} // verus!

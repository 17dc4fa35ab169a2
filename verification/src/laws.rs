//! Laws of the room resolver and the view state, stated over the same
//! spec functions that the executable functions' contracts use.
use vstd::prelude::*;

use crate::commands::bumped_offset;
use crate::data::{EntryV, RoomV};
use crate::messaging::{find_matching_room, lemma_find_matching_room, participant_set, with_entry};

verus! {

/// The room list after one inbound delivery for the participant set
/// `parts`: the first matching room takes the entry, or the new room
/// `nr` is appended.
pub open spec fn delivered(rooms: Seq<RoomV>, parts: Set<Seq<u8>>, e: EntryV, nr: RoomV) -> Seq<
    RoomV,
> {
    let f = find_matching_room(rooms, parts);
    if f != -1 {
        rooms.update(f, with_entry(rooms[f], e))
    } else {
        rooms.push(nr)
    }
}

/// The index of the room that one delivery for `parts` lands in.
pub open spec fn landing_index(rooms: Seq<RoomV>, parts: Set<Seq<u8>>) -> int {
    let f = find_matching_room(rooms, parts);
    if f != -1 {
        f
    } else {
        rooms.len() as int
    }
}

/// The participant set does not depend on the order or multiplicity in
/// which the co-recipients are listed.
pub proof fn lemma_participants_order_irrelevant(
    sender: Seq<u8>,
    others1: Seq<Seq<u8>>,
    others2: Seq<Seq<u8>>,
)
    requires
        others1.to_set() == others2.to_set(),
    ensures
        participant_set(sender, others1) == participant_set(sender, others2),
{
}

/// Resolver idempotence: once a message for a participant set has landed
/// (in a matching room or a freshly created one), every later message
/// with the same set lands in that very room, and no further room is
/// created for that set.
pub proof fn lemma_resolver_idempotence(
    rooms: Seq<RoomV>,
    parts: Set<Seq<u8>>,
    e: EntryV,
    nr: RoomV,
)
    requires
        nr.members.to_set() == parts,
    ensures
        find_matching_room(delivered(rooms, parts, e, nr), parts) == landing_index(rooms, parts),
{
    let f = find_matching_room(rooms, parts);
    lemma_find_matching_room(rooms, parts);
    let rooms1 = delivered(rooms, parts, e, nr);
    lemma_find_matching_room(rooms1, parts);
    if f != -1 {
        assert(rooms1[f].members.to_set() == parts);
        assert forall|j: int| 0 <= j < f implies (#[trigger] rooms1[j]).members.to_set()
            != parts by {
            assert(rooms1[j] == rooms[j]);
        }
        let f1 = find_matching_room(rooms1, parts);
        assert(f1 != -1);
        if f1 < f {
            assert(rooms1[f1] == rooms[f1]);
        }
    } else {
        assert(rooms1[rooms.len() as int].members.to_set() == parts);
        let f1 = find_matching_room(rooms1, parts);
        assert(f1 != -1);
        if f1 < rooms.len() {
            assert(rooms1[f1] == rooms[f1]);
        }
    }
}

/// A message whose participant set differs never lands in the room that
/// took the first set's messages: it matches some other room or opens a
/// new one.
pub proof fn lemma_resolver_separates(
    rooms: Seq<RoomV>,
    parts1: Set<Seq<u8>>,
    parts2: Set<Seq<u8>>,
    e: EntryV,
    nr: RoomV,
)
    requires
        parts1 != parts2,
        nr.members.to_set() == parts1,
    ensures
        landing_index(delivered(rooms, parts1, e, nr), parts2) != landing_index(rooms, parts1),
{
    let rooms1 = delivered(rooms, parts1, e, nr);
    let i1 = landing_index(rooms, parts1);
    lemma_find_matching_room(rooms, parts1);
    lemma_find_matching_room(rooms1, parts2);
    assert(rooms1[i1].members.to_set() == parts1);
    let f2 = find_matching_room(rooms1, parts2);
    if f2 != -1 {
        assert(rooms1[f2].members.to_set() == parts2);
    } else {
        assert(rooms1.len() > i1);
    }
}

/// No two rooms ever answer to the same participant set once the
/// resolver alone creates rooms: a delivery preserves the uniqueness of
/// member sets across the room list.
pub proof fn lemma_resolver_keeps_sets_unique(
    rooms: Seq<RoomV>,
    parts: Set<Seq<u8>>,
    e: EntryV,
    nr: RoomV,
)
    requires
        nr.members.to_set() == parts,
        forall|i: int, j: int|
            0 <= i < j < rooms.len() ==> (#[trigger] rooms[i]).members.to_set() != (
            #[trigger] rooms[j]).members.to_set(),
    ensures
        ({
            let rooms1 = delivered(rooms, parts, e, nr);
            forall|i: int, j: int|
                0 <= i < j < rooms1.len() ==> (#[trigger] rooms1[i]).members.to_set() != (
                #[trigger] rooms1[j]).members.to_set()
        }),
{
    let f = find_matching_room(rooms, parts);
    lemma_find_matching_room(rooms, parts);
    let rooms1 = delivered(rooms, parts, e, nr);
    if f != -1 {
        assert forall|i: int, j: int| 0 <= i < j < rooms1.len() implies (
        #[trigger] rooms1[i]).members.to_set() != (#[trigger] rooms1[j]).members.to_set() by {
            assert(rooms1[i].members == rooms[i].members);
            assert(rooms1[j].members == rooms[j].members);
        }
    } else {
        assert forall|i: int, j: int| 0 <= i < j < rooms1.len() implies (
        #[trigger] rooms1[i]).members.to_set() != (#[trigger] rooms1[j]).members.to_set() by {
            if j < rooms.len() {
                assert(rooms1[i] == rooms[i] && rooms1[j] == rooms[j]);
            } else {
                assert(rooms1[i] == rooms[i]);
                assert(rooms1[j] == nr);
            }
        }
    }
}

/// Append-only history: a delivery never shortens, reorders or rewrites
/// any room's history; each existing room's history stays a prefix of
/// its history afterwards, and the room list never shrinks.
pub proof fn lemma_resolver_append_only(
    rooms: Seq<RoomV>,
    parts: Set<Seq<u8>>,
    e: EntryV,
    nr: RoomV,
)
    ensures
        ({
            let rooms1 = delivered(rooms, parts, e, nr);
            &&& rooms1.len() >= rooms.len()
            &&& forall|j: int|
                0 <= j < rooms.len() ==> (#[trigger] rooms[j]).history.is_prefix_of(
                    rooms1[j].history,
                )
        }),
{
    let f = find_matching_room(rooms, parts);
    lemma_find_matching_room(rooms, parts);
    let rooms1 = delivered(rooms, parts, e, nr);
    assert forall|j: int| 0 <= j < rooms.len() implies (#[trigger] rooms[j]).history.is_prefix_of(
        rooms1[j].history,
    ) by {
        if f != -1 && j == f {
            assert(rooms1[j].history == rooms[j].history.push(e));
            assert(rooms[j].history =~= rooms1[j].history.take(rooms[j].history.len() as int));
        } else {
            assert(rooms1[j] == rooms[j]);
            assert(rooms[j].history =~= rooms1[j].history.take(rooms[j].history.len() as int));
        }
    }
}

/// Scroll floor: however a scroll offset is moved, the stored offset
/// never goes below zero, and a downward move never overshoots past
/// zero.
pub proof fn lemma_scroll_floor(off: u32, amount: i16)
    ensures
        bumped_offset(off, amount) >= 0,
        (off as int + amount as int) >= 0 ==> bumped_offset(off, amount) == ({
            let t = off as int + amount as int;
            if t > u32::MAX as int {
                u32::MAX as int
            } else {
                t
            }
        }),
        (off as int + amount as int) < 0 ==> bumped_offset(off, amount) == 0,
{
}

} // verus!

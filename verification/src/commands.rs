//! User commands over the account and view state: input buffer editing,
//! sidebar navigation, scrolling, and room/member/contact management.
//! Every command keeps the selection within the active list and the
//! scroll offsets in step with the room list.
use vstd::prelude::*;

use crate::data::{active_list_len, find_first, find_room, lemma_find_first,
    lemma_find_room_same_ids, lemma_room_id_set_filter, lemma_room_id_set_push,
    lemma_room_id_set_update, lemma_scroll_map_char, lemma_scroll_map_push,
    lemma_scroll_map_remove, lemma_scroll_map_update, repaired, room_id_set, rooms_views,
    scroll_map, sel_in_bounds, wf, Account, AccountV, Addr, Contact, ContactV, Mode, Room, RoomId,
    RoomV, State, StateV,
};
use crate::room_id_from_bytes;
use crate::util::{pop_char, push_char, random_byte_pair};

verus! {

/// The first index of a room with the given id, as `find_room` names it.
pub fn find_room_idx(rooms: &Vec<Room>, id: RoomId) -> (r: Option<usize>)
    ensures
        match r {
            Some(i) => 0 <= i < rooms@.len() && find_room(rooms_views(rooms@), id) == i,
            None => find_room(rooms_views(rooms@), id) == -1,
        },
{
    let ghost rs = rooms_views(rooms@);
    let ghost p = (|r: RoomV| r.id == id);
    let n = rooms.len();
    let mut i: usize = 0;
    while i < n
        invariant
            n == rs.len(),
            rs == rooms_views(rooms@),
            p == (|r: RoomV| r.id == id),
            0 <= i <= n,
            forall|j: int| 0 <= j < i ==> !p(#[trigger] rs[j]),
        decreases n - i,
    {
        if rooms[i].id == id {
            proof {
                assert(p(rs[i as int]));
                lemma_find_first(rs, p);
            }
            return Some(i);
        }
        i = i + 1;
    }
    proof {
        lemma_find_first(rs, p);
    }
    None
}

/// The index in the scroll list at which the given room id is stored.
fn scroll_idx(scroll: &Vec<(RoomId, u32)>, id: RoomId) -> (r: Option<usize>)
    ensures
        match r {
            Some(i) => 0 <= i < scroll@.len() && scroll@[i as int].0 == id,
            None => forall|j: int| 0 <= j < scroll@.len() ==> (#[trigger] scroll@[j]).0 != id,
        },
{
    let n = scroll.len();
    let mut i: usize = 0;
    while i < n
        invariant
            n == scroll@.len(),
            0 <= i <= n,
            forall|j: int| 0 <= j < i ==> (#[trigger] scroll@[j]).0 != id,
        decreases n - i,
    {
        if scroll[i].0 == id {
            return Some(i);
        }
        i = i + 1;
    }
    None
}

/// Record a scroll offset for a room id, overwriting any offset the id
/// already has.
pub fn set_scroll(state: &mut State, id: RoomId, off: u32)
    requires
        old(state).scroll_keys_unique(),
    ensures
        final(state).scroll_keys_unique(),
        final(state)@ == (StateV { scroll: old(state)@.scroll.insert(id, off), ..old(state)@ }),
{
    let found = scroll_idx(&state.scroll, id);
    match found {
        Some(i) => {
            proof {
                lemma_scroll_map_update(state.scroll@, i as int, off);
            }
            state.scroll[i] = (id, off);
        },
        None => {
            proof {
                lemma_scroll_map_push(state.scroll@, id, off);
                let s2 = state.scroll@.push((id, off));
                assert forall|a: int, b: int| 0 <= a < b < s2.len() implies (#[trigger] s2[a]).0
                    != (#[trigger] s2[b]).0 by {
                    if b < s2.len() - 1 {
                        assert(s2[a] == state.scroll@[a] && s2[b] == state.scroll@[b]);
                    } else {
                        assert(s2[a] == state.scroll@[a]);
                    }
                }
            }
            state.scroll.push((id, off));
        },
    }
}

/// Empty the input buffer.
pub fn clear_input(state: &mut State)
    ensures
        final(state)@ == (StateV { msg_buf: Seq::<char>::empty(), ..old(state)@ }),
        final(state).scroll@ == old(state).scroll@,
{
    state.msg_buf = String::new();
}

/// Remove the last character of the input buffer, if any.
pub fn backspace(state: &mut State)
    ensures
        old(state)@.msg_buf.len() == 0 ==> final(state)@ == old(state)@,
        old(state)@.msg_buf.len() != 0 ==> final(state)@ == (StateV {
            msg_buf: old(state)@.msg_buf.drop_last(),
            ..old(state)@
        }),
        final(state).scroll@ == old(state).scroll@,
{
    let _ = pop_char(&mut state.msg_buf);
}

/// Append one typed character to the input buffer.
pub fn input_char(state: &mut State, c: char)
    ensures
        final(state)@ == (StateV { msg_buf: old(state)@.msg_buf + seq![c], ..old(state)@ }),
        final(state).scroll@ == old(state).scroll@,
{
    push_char(&mut state.msg_buf, c);
}

/// Show the room list in the sidebar and reset the selection.
pub fn show_rooms(account: &Account, state: &mut State)
    requires
        wf(account, old(state)),
    ensures
        wf(account, final(state)),
        final(state)@ == (StateV { mode: Mode::Rooms, selected_index: 0, ..old(state)@ }),
{
    state.mode = Mode::Rooms;
    state.selected_index = 0;
}

/// Show the active room's member list in the sidebar and reset the
/// selection.
pub fn show_members(account: &Account, state: &mut State)
    requires
        wf(account, old(state)),
    ensures
        wf(account, final(state)),
        final(state)@ == (StateV { mode: Mode::Members, selected_index: 0, ..old(state)@ }),
{
    state.mode = Mode::Members;
    state.selected_index = 0;
}

/// Show the contact list in the sidebar and reset the selection.
pub fn show_contacts(account: &Account, state: &mut State)
    requires
        wf(account, old(state)),
    ensures
        wf(account, final(state)),
        final(state)@ == (StateV { mode: Mode::Contacts, selected_index: 0, ..old(state)@ }),
{
    state.mode = Mode::Contacts;
    state.selected_index = 0;
}

/// The scroll offset that results from moving `off` by `amount` with a
/// floor of zero (and, at the far top, the largest storable offset).
pub open spec fn bumped_offset(off: u32, amount: i16) -> u32 {
    let t = off as int + amount as int;
    if t < 0 {
        0u32
    } else if t > u32::MAX as int {
        u32::MAX
    } else {
        t as u32
    }
}

/// Move the active room's scroll offset by `amount`, never below zero.
/// A room the view keeps no offset for is left untouched.
pub fn scroll(state: &mut State, amount: i16)
    requires
        old(state).scroll_keys_unique(),
    ensures
        final(state).scroll_keys_unique(),
        old(state)@.scroll.dom().contains(old(state)@.room_id) ==> final(state)@ == (StateV {
            scroll: old(state)@.scroll.insert(
                old(state)@.room_id,
                bumped_offset(old(state)@.scroll[old(state)@.room_id], amount),
            ),
            ..old(state)@
        }),
        !old(state)@.scroll.dom().contains(old(state)@.room_id) ==> final(state)@ == old(state)@,
{
    proof {
        lemma_scroll_map_char(state.scroll@);
    }
    let found = scroll_idx(&state.scroll, state.room_id);
    match found {
        Some(i) => {
            let off = state.scroll[i].1;
            proof {
                assert(scroll_map(state.scroll@)[state.room_id] == off);
            }
            let t: i64 = off as i64 + amount as i64;
            let newoff: u32 = if t < 0 {
                0
            } else if t > u32::MAX as i64 {
                u32::MAX
            } else {
                t as u32
            };
            let id = state.room_id;
            set_scroll(state, id, newoff);
        },
        None => {
            proof {
                assert(!scroll_map(state.scroll@).dom().contains(state.room_id));
            }
        },
    }
}

/// The selection that results from moving `cur` by `change` within a
/// list of length `len`, clamped to the ends.
pub open spec fn moved_selection(cur: int, change: int, len: nat) -> int {
    let t = cur + change;
    if t < 0 {
        0
    } else if t > len - 1 {
        len - 1
    } else {
        t
    }
}

/// Move the sidebar selection by `change`, clamped to the active list;
/// in rooms mode the active room follows the selection. With an empty
/// active list nothing changes.
pub fn sidebar_select_relative(account: &Account, state: &mut State, change: i8)
    requires
        wf(account, old(state)),
    ensures
        wf(account, final(state)),
        ({
            let len = active_list_len(account@, old(state)@);
            let newsel = moved_selection(old(state)@.selected_index as int, change as int, len);
            if len == 0 {
                final(state)@ == old(state)@
            } else if old(state)@.mode == Mode::Rooms {
                final(state)@ == (StateV {
                    selected_index: newsel as usize,
                    room_id: account@.rooms[newsel].id,
                    ..old(state)@
                })
            } else {
                final(state)@ == (StateV { selected_index: newsel as usize, ..old(state)@ })
            }
        }),
{
    let len: usize = match state.mode {
        Mode::Rooms => account.rooms.len(),
        Mode::Members => {
            match find_room_idx(&account.rooms, state.room_id) {
                Some(i) => account.rooms[i].members.len(),
                None => 0,
            }
        },
        Mode::Contacts => account.contacts.len(),
    };
    proof {
        assert(len == active_list_len(account@, old(state)@));
    }
    if len == 0 {
        return ;
    }
    let t: i128 = state.selected_index as i128 + change as i128;
    let newsel: usize = if t < 0 {
        0
    } else if t > len as i128 - 1 {
        len - 1
    } else {
        t as usize
    };
    state.selected_index = newsel;
    match state.mode {
        Mode::Rooms => {
            state.room_id = account.rooms[newsel].id;
        },
        _ => {},
    }
}

impl State {
    /// The view state a freshly loaded account starts with: the first
    /// room active, a zero scroll offset for every room, rooms mode, an
    /// empty input buffer, and the given viewport size.
    pub fn new(account: &Account, width: u16, height: u16) -> (s: State)
        ensures
            wf(account, &s),
            s@.mode == Mode::Rooms,
            s@.selected_index == 0,
            s@.msg_buf == Seq::<char>::empty(),
            s@.width == width,
            s@.height == height,
            s@.room_id == (if account@.rooms.len() > 0 {
                account@.rooms[0].id
            } else {
                0u16
            }),
            forall|k: RoomId| s@.scroll.dom().contains(k) ==> s@.scroll[k] == 0,
    {
        let mut st = State {
            room_id: 0,
            scroll: Vec::new(),
            msg_buf: String::new(),
            width,
            height,
            mode: Mode::Rooms,
            selected_index: 0,
        };
        let ghost rs = account@.rooms;
        let n = account.rooms.len();
        let mut i: usize = 0;
        proof {
            assert(st@.scroll.dom() =~= room_id_set(rs.take(0)));
        }
        while i < n
            invariant
                rs == account@.rooms,
                n == rs.len(),
                0 <= i <= n,
                st.scroll_keys_unique(),
                st@.scroll.dom() =~= room_id_set(rs.take(i as int)),
                forall|k: RoomId| st@.scroll.dom().contains(k) ==> st@.scroll[k] == 0,
                st@.mode == Mode::Rooms,
                st@.room_id == 0,
                st@.selected_index == 0,
                st@.msg_buf == Seq::<char>::empty(),
                st@.width == width,
                st@.height == height,
            decreases n - i,
        {
            let id = account.rooms[i].id;
            set_scroll(&mut st, id, 0);
            proof {
                crate::data::lemma_room_id_set_push(rs.take(i as int), rs[i as int]);
                assert(rs.take(i + 1) =~= rs.take(i as int).push(rs[i as int]));
                assert(st@.scroll.dom() =~= room_id_set(rs.take(i + 1)));
            }
            i = i + 1;
        }
        proof {
            assert(rs.take(n as int) =~= rs);
        }
        if account.rooms.len() > 0 {
            st.room_id = account.rooms[0].id;
        }
        st
    }
}

/// Clamp the selection back into the active list after that list may
/// have shrunk or the active room changed.
pub fn repair_selection(account: &Account, state: &mut State)
    ensures
        final(state)@ == (StateV {
            selected_index: repaired(
                active_list_len(account@, old(state)@),
                old(state)@.selected_index as int,
            ) as usize,
            ..old(state)@
        }),
        sel_in_bounds(active_list_len(account@, final(state)@), final(state)@.selected_index),
        final(state).scroll@ == old(state).scroll@,
{
    let len: usize = match state.mode {
        Mode::Rooms => account.rooms.len(),
        Mode::Members => {
            match find_room_idx(&account.rooms, state.room_id) {
                Some(i) => account.rooms[i].members.len(),
                None => 0,
            }
        },
        Mode::Contacts => account.contacts.len(),
    };
    proof {
        assert(len == active_list_len(account@, old(state)@));
    }
    if len == 0 {
        state.selected_index = 0;
    } else if state.selected_index >= len {
        state.selected_index = len - 1;
    }
    proof {
        assert(active_list_len(account@, state@) == active_list_len(account@, old(state)@));
    }
}

/// Create a fresh empty room under a random id, make it the active room,
/// and give it a zero scroll offset.
pub fn add_room(account: &mut Account, state: &mut State)
    requires
        wf(old(account), old(state)),
    ensures
        wf(final(account), final(state)),
        ({
            let id = final(state)@.room_id;
            let nr = RoomV {
                id,
                name: "New room"@,
                members: Seq::empty(),
                history: Seq::empty(),
                unseen: 0,
            };
            &&& final(account)@ == (AccountV {
                rooms: old(account)@.rooms.push(nr),
                ..old(account)@
            })
            &&& final(state)@ == (StateV {
                room_id: id,
                scroll: old(state)@.scroll.insert(id, 0),
                selected_index: repaired(
                    active_list_len(final(account)@, final(state)@),
                    old(state)@.selected_index as int,
                ) as usize,
                ..old(state)@
            })
        }),
{
    let (hi, lo) = random_byte_pair();
    let id = room_id_from_bytes(hi, lo);
    let new_room = Room {
        id,
        name: "New room".to_owned(),
        members: Vec::new(),
        history: Vec::new(),
        unseen: 0,
    };
    let ghost nr = new_room@;
    proof {
        assert(nr.members =~= Seq::<Seq<u8>>::empty());
        assert(nr.history =~= Seq::<crate::data::EntryV>::empty());
    }
    set_scroll(state, id, 0);
    state.room_id = id;
    proof {
        lemma_room_id_set_push(account@.rooms, nr);
    }
    let ghost rooms0 = account@.rooms;
    account.rooms.push(new_room);
    proof {
        assert(account@.rooms =~= rooms0.push(nr));
    }
    repair_selection(account, state);
}

/// Rename the active room to the text in the input buffer; without an
/// active room nothing changes.
pub fn rename_room(account: &mut Account, state: &mut State)
    requires
        wf(old(account), old(state)),
    ensures
        wf(final(account), final(state)),
        ({
            let ri = find_room(old(account)@.rooms, old(state)@.room_id);
            if ri == -1 {
                final(account)@ == old(account)@ && final(state)@ == old(state)@
            } else {
                let r0 = old(account)@.rooms[ri];
                &&& final(account)@ == (AccountV {
                    rooms: old(account)@.rooms.update(
                        ri,
                        RoomV { name: old(state)@.msg_buf, ..r0 },
                    ),
                    ..old(account)@
                })
                &&& final(state)@ == (StateV {
                    msg_buf: Seq::<char>::empty(),
                    ..old(state)@
                })
            }
        }),
{
    let found = find_room_idx(&account.rooms, state.room_id);
    match found {
        Some(ri) => {
            let ghost rooms0 = account@.rooms;
            let mut room = account.rooms.remove(ri);
            room.name = state.msg_buf.clone();
            account.rooms.insert(ri, room);
            proof {
                assert(account@.rooms =~= rooms0.update(
                    ri as int,
                    RoomV { name: state@.msg_buf, ..rooms0[ri as int] },
                ));
                lemma_room_id_set_update(
                    rooms0,
                    ri as int,
                    RoomV { name: state@.msg_buf, ..rooms0[ri as int] },
                );
                lemma_find_room_same_ids(account@.rooms, rooms0, state.room_id);
            }
            clear_input(state);
            proof {
                assert(active_list_len(account@, state@) == active_list_len(
                    old(account)@,
                    old(state)@,
                ));
            }
        },
        None => {},
    }
}

/// Remove every room carrying the active id, drop its scroll offset,
/// fall back to the first remaining room, and clamp the selection.
pub fn remove_room(account: &mut Account, state: &mut State)
    requires
        wf(old(account), old(state)),
    ensures
        wf(final(account), final(state)),
        ({
            let id = old(state)@.room_id;
            let kept = old(account)@.rooms.filter(|r: RoomV| r.id != id);
            &&& final(account)@ == (AccountV { rooms: kept, ..old(account)@ })
            &&& final(state)@ == (StateV {
                room_id: if kept.len() > 0 {
                    kept[0].id
                } else {
                    0u16
                },
                scroll: old(state)@.scroll.remove(id),
                selected_index: repaired(
                    active_list_len(final(account)@, final(state)@),
                    old(state)@.selected_index as int,
                ) as usize,
                ..old(state)@
            })
        }),
{
    let id = state.room_id;
    let ghost rs0 = account@.rooms;
    let ghost a0 = account@;
    let ghost keep = (|r: RoomV| r.id != id);
    let mut i: usize = 0;
    let ghost mut k: int = 0;
    proof {
        reveal(Seq::filter);
        assert(rs0.subrange(0, 0).filter(keep) =~= Seq::<RoomV>::empty());
        assert(account@.rooms =~= rs0.subrange(0, 0).filter(keep) + rs0.subrange(
            0,
            rs0.len() as int,
        ));
    }
    while i < account.rooms.len()
        invariant
            account@.account == a0.account,
            account@.contacts == a0.contacts,
            account@.eph_pub == a0.eph_pub,
            account@.eph_sec == a0.eph_sec,
            a0.rooms == rs0,
            keep == (|r: RoomV| r.id != id),
            0 <= k <= rs0.len(),
            i == rs0.subrange(0, k).filter(keep).len(),
            account@.rooms == rs0.subrange(0, k).filter(keep) + rs0.subrange(
                k,
                rs0.len() as int,
            ),
        decreases rs0.len() - k,
    {
        let ghost pref = rs0.subrange(0, k).filter(keep);
        let ghost cur = account@.rooms;
        proof {
            reveal(Seq::filter);
            assert(cur.len() == pref.len() + (rs0.len() - k));
            assert(k < rs0.len());
            assert(cur[i as int] == rs0[k]);
            assert(rs0.subrange(0, k + 1).drop_last() =~= rs0.subrange(0, k));
            assert(rs0.subrange(0, k + 1).last() == rs0[k]);
        }
        if account.rooms[i].id == id {
            proof {
                assert(!keep(rs0[k]));
                assert(rs0.subrange(0, k + 1).filter(keep) =~= pref);
            }
            let _ = account.rooms.remove(i);
            proof {
                assert(account@.rooms =~= cur.remove(i as int));
                assert(cur.remove(i as int) =~= rs0.subrange(0, k + 1).filter(keep)
                    + rs0.subrange(k + 1, rs0.len() as int));
            }
        } else {
            proof {
                assert(keep(rs0[k]));
                assert(rs0.subrange(0, k + 1).filter(keep) =~= pref.push(rs0[k]));
                assert(account@.rooms =~= rs0.subrange(0, k + 1).filter(keep) + rs0.subrange(
                    k + 1,
                    rs0.len() as int,
                ));
            }
            i = i + 1;
        }
        proof {
            k = k + 1;
        }
    }
    proof {
        assert(k == rs0.len());
        assert(rs0.subrange(0, rs0.len() as int) =~= rs0);
        assert(rs0.subrange(rs0.len() as int, rs0.len() as int) =~= Seq::<RoomV>::empty());
        assert(account@.rooms =~= rs0.filter(keep));
        lemma_room_id_set_filter(rs0, id);
    }
    let found = scroll_idx(&state.scroll, id);
    match found {
        Some(si) => {
            proof {
                lemma_scroll_map_remove(state.scroll@, si as int);
            }
            let _ = state.scroll.remove(si);
        },
        None => {
            proof {
                lemma_scroll_map_char(state.scroll@);
                assert(scroll_map(state.scroll@) =~= scroll_map(state.scroll@).remove(id));
            }
        },
    }
    if account.rooms.len() > 0 {
        state.room_id = account.rooms[0].id;
    } else {
        state.room_id = 0;
    }
    repair_selection(account, state);
}

/// Remove the selected member from the active room and clamp the
/// selection; without an active room or a valid selection nothing
/// changes.
pub fn remove_member(account: &mut Account, state: &mut State)
    requires
        wf(old(account), old(state)),
    ensures
        wf(final(account), final(state)),
        ({
            let ri = find_room(old(account)@.rooms, old(state)@.room_id);
            if ri == -1 || old(state)@.selected_index >= old(account)@.rooms[ri].members.len() {
                final(account)@ == old(account)@ && final(state)@ == old(state)@
            } else {
                let r0 = old(account)@.rooms[ri];
                &&& final(account)@ == (AccountV {
                    rooms: old(account)@.rooms.update(
                        ri,
                        RoomV {
                            members: r0.members.remove(old(state)@.selected_index as int),
                            ..r0
                        },
                    ),
                    ..old(account)@
                })
                &&& final(state)@ == (StateV {
                    msg_buf: Seq::<char>::empty(),
                    selected_index: repaired(
                        active_list_len(final(account)@, final(state)@),
                        old(state)@.selected_index as int,
                    ) as usize,
                    ..old(state)@
                })
            }
        }),
{
    let found = find_room_idx(&account.rooms, state.room_id);
    match found {
        Some(ri) => {
            if state.selected_index < account.rooms[ri].members.len() {
                let ghost rooms0 = account@.rooms;
                let sel = state.selected_index;
                let mut room = account.rooms.remove(ri);
                let _ = room.members.remove(sel);
                let ghost r2 = RoomV {
                    members: rooms0[ri as int].members.remove(sel as int),
                    ..rooms0[ri as int]
                };
                proof {
                    assert(room@.members =~= r2.members);
                    assert(room@ == r2);
                }
                account.rooms.insert(ri, room);
                proof {
                    assert(account@.rooms =~= rooms0.update(ri as int, r2));
                    lemma_room_id_set_update(rooms0, ri as int, r2);
                    lemma_find_room_same_ids(account@.rooms, rooms0, state.room_id);
                }
                clear_input(state);
                repair_selection(account, state);
            }
        },
        None => {},
    }
}

/// Add the address the input buffer resolves to as a member of the
/// active room; with no resolvable address or no active room nothing
/// changes.
pub fn add_member(account: &mut Account, state: &mut State)
    requires
        wf(old(account), old(state)),
    ensures
        wf(final(account), final(state)),
        ({
            match crate::util::resolve_spec(old(account)@, old(state)@.msg_buf) {
                None => final(account)@ == old(account)@ && final(state)@ == old(state)@,
                Some(ab) => {
                    let ri = find_room(old(account)@.rooms, old(state)@.room_id);
                    if ri == -1 {
                        final(account)@ == old(account)@ && final(state)@ == old(state)@
                    } else {
                        let r0 = old(account)@.rooms[ri];
                        &&& final(account)@ == (AccountV {
                            rooms: old(account)@.rooms.update(
                                ri,
                                RoomV { members: r0.members.push(ab), ..r0 },
                            ),
                            ..old(account)@
                        })
                        &&& final(state)@ == (StateV {
                            msg_buf: Seq::<char>::empty(),
                            ..old(state)@
                        })
                    }
                },
            }
        }),
{
    let addr = match crate::util::parse_addr_or_name(account, state.msg_buf.as_str()) {
        Some(a) => a,
        None => {
            return ;
        },
    };
    let found = find_room_idx(&account.rooms, state.room_id);
    match found {
        Some(ri) => {
            let ghost rooms0 = account@.rooms;
            let mut room = account.rooms.remove(ri);
            room.members.push(addr);
            let ghost r2 = RoomV {
                members: rooms0[ri as int].members.push(addr@),
                ..rooms0[ri as int]
            };
            proof {
                assert(room@.members =~= r2.members);
                assert(room@ == r2);
            }
            account.rooms.insert(ri, room);
            proof {
                assert(account@.rooms =~= rooms0.update(ri as int, r2));
                lemma_room_id_set_update(rooms0, ri as int, r2);
                lemma_find_room_same_ids(account@.rooms, rooms0, state.room_id);
            }
            clear_input(state);
            proof {
                if state@.mode == Mode::Members {
                    assert(active_list_len(account@, state@) >= active_list_len(
                        old(account)@,
                        old(state)@,
                    ));
                }
            }
        },
        None => {},
    }
}

/// Record `name` for `addr` in the contact directory: rename the first
/// contact with that address, or add a new contact.
pub fn upsert_contact(account: &mut Account, addr: Addr, name: String)
    ensures
        final(account)@ == (AccountV {
            contacts: crate::util::upserted_contacts(old(account)@.contacts, addr@, name@),
            ..old(account)@
        }),
        final(account)@.contacts.len() >= old(account)@.contacts.len(),
{
    let ghost cs = account@.contacts;
    let ghost av = addr@;
    let ghost nv = name@;
    let ghost p = (|c: ContactV| c.addr == av);
    let n = account.contacts.len();
    let mut i: usize = 0;
    while i < n
        invariant
            account@ == old(account)@,
            n == cs.len(),
            cs == account@.contacts,
            p == (|c: ContactV| c.addr == av),
            av == addr@,
            nv == name@,
            0 <= i <= n,
            forall|j: int| 0 <= j < i ==> !p(#[trigger] cs[j]),
        decreases n - i,
    {
        if crate::util::addr_eq(&account.contacts[i].addr, &addr) {
            proof {
                assert(p(cs[i as int]));
                lemma_find_first(cs, p);
                assert(crate::util::find_contact_by_addr(cs, av) == i as int);
            }
            let mut c = account.contacts.remove(i);
            c.name = name;
            c.addr = addr;
            proof {
                assert(c@ == (ContactV { addr: av, name: nv }));
            }
            account.contacts.insert(i, c);
            proof {
                assert(account@.contacts =~= cs.update(
                    i as int,
                    ContactV { addr: av, name: nv },
                ));
            }
            return ;
        }
        i = i + 1;
    }
    proof {
        lemma_find_first(cs, p);
        assert(crate::util::find_contact_by_addr(cs, av) == -1);
    }
    account.contacts.push(Contact { addr, name });
    proof {
        assert(account@.contacts =~= cs.push(ContactV { addr: av, name: nv }));
    }
}

/// Read "address name" from the input buffer and record that contact;
/// without a space or with an unparseable address nothing changes.
pub fn add_contact(account: &mut Account, state: &mut State)
    requires
        wf(old(account), old(state)),
    ensures
        wf(final(account), final(state)),
        ({
            let s = old(state)@.msg_buf;
            let sp = find_first(s, |c: char| c == ' ');
            if sp == -1 {
                final(account)@ == old(account)@ && final(state)@ == old(state)@
            } else {
                match crate::util::parsed_addr_text(s.take(sp)) {
                    None => final(account)@ == old(account)@ && final(state)@ == old(state)@,
                    Some(ab) => {
                        &&& final(account)@ == (AccountV {
                            contacts: crate::util::upserted_contacts(
                                old(account)@.contacts,
                                ab,
                                s.skip(sp + 1),
                            ),
                            ..old(account)@
                        })
                        &&& final(state)@ == (StateV {
                            msg_buf: Seq::<char>::empty(),
                            ..old(state)@
                        })
                    },
                }
            }
        }),
{
    let parts = match crate::util::split_first_space(&state.msg_buf) {
        Some(parts) => parts,
        None => {
            return ;
        },
    };
    let addr = match crate::util::parse_addr(parts.0.as_str()) {
        Some(a) => a,
        None => {
            return ;
        },
    };
    upsert_contact(account, addr, parts.1);
    clear_input(state);
}

/// Record the name in the input buffer for the selected member of the
/// active room; without an active room or a valid selection nothing
/// changes.
pub fn rename_member(account: &mut Account, state: &mut State)
    requires
        wf(old(account), old(state)),
    ensures
        wf(final(account), final(state)),
        ({
            let ri = find_room(old(account)@.rooms, old(state)@.room_id);
            if ri == -1 || old(state)@.selected_index >= old(account)@.rooms[ri].members.len() {
                final(account)@ == old(account)@ && final(state)@ == old(state)@
            } else {
                &&& final(account)@ == (AccountV {
                    contacts: crate::util::upserted_contacts(
                        old(account)@.contacts,
                        old(account)@.rooms[ri].members[old(state)@.selected_index as int],
                        old(state)@.msg_buf,
                    ),
                    ..old(account)@
                })
                &&& final(state)@ == (StateV { msg_buf: Seq::<char>::empty(), ..old(state)@ })
            }
        }),
{
    let found = find_room_idx(&account.rooms, state.room_id);
    match found {
        Some(ri) => {
            if state.selected_index < account.rooms[ri].members.len() {
                let member = account.rooms[ri].members[state.selected_index].clone();
                let name = state.msg_buf.clone();
                upsert_contact(account, member, name);
                clear_input(state);
            }
        },
        None => {},
    }
}

/// Rename the selected contact to the text in the input buffer; without
/// a valid selection nothing changes.
pub fn rename_contact(account: &mut Account, state: &mut State)
    requires
        wf(old(account), old(state)),
    ensures
        wf(final(account), final(state)),
        ({
            let sel = old(state)@.selected_index as int;
            if sel >= old(account)@.contacts.len() {
                final(account)@ == old(account)@ && final(state)@ == old(state)@
            } else {
                &&& final(account)@ == (AccountV {
                    contacts: old(account)@.contacts.update(
                        sel,
                        ContactV {
                            addr: old(account)@.contacts[sel].addr,
                            name: old(state)@.msg_buf,
                        },
                    ),
                    ..old(account)@
                })
                &&& final(state)@ == (StateV { msg_buf: Seq::<char>::empty(), ..old(state)@ })
            }
        }),
{
    if state.selected_index < account.contacts.len() {
        let ghost cs = account@.contacts;
        let sel = state.selected_index;
        let mut c = account.contacts.remove(sel);
        c.name = state.msg_buf.clone();
        account.contacts.insert(sel, c);
        proof {
            assert(account@.contacts =~= cs.update(
                sel as int,
                ContactV { addr: cs[sel as int].addr, name: state@.msg_buf },
            ));
        }
        clear_input(state);
    }
}

/// Remove the selected contact and clamp the selection; without a valid
/// selection nothing changes.
pub fn remove_contact(account: &mut Account, state: &mut State)
    requires
        wf(old(account), old(state)),
    ensures
        wf(final(account), final(state)),
        ({
            let sel = old(state)@.selected_index as int;
            if sel >= old(account)@.contacts.len() {
                final(account)@ == old(account)@ && final(state)@ == old(state)@
            } else {
                &&& final(account)@ == (AccountV {
                    contacts: old(account)@.contacts.remove(sel),
                    ..old(account)@
                })
                &&& final(state)@ == (StateV {
                    msg_buf: Seq::<char>::empty(),
                    selected_index: repaired(
                        active_list_len(final(account)@, final(state)@),
                        old(state)@.selected_index as int,
                    ) as usize,
                    ..old(state)@
                })
            }
        }),
{
    if state.selected_index < account.contacts.len() {
        let ghost cs = account@.contacts;
        let sel = state.selected_index;
        let _ = account.contacts.remove(sel);
        proof {
            assert(account@.contacts =~= cs.remove(sel as int));
        }
        repair_selection(account, state);
        clear_input(state);
    }
}

} // verus!

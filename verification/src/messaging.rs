//! The room resolver for inbound messages, the per-recipient outbound
//! send plan, message submission, and ephemeral key rotation.
use vstd::prelude::*;

use crate::commands::{clear_input, find_room_idx, set_scroll};
use crate::data::{active_list_len, addr_views, find_first, find_room, lemma_find_first,
    lemma_find_room_same_ids, lemma_room_id_set_push, lemma_room_id_set_update, lemma_to_set_push,
    wf, Account, AccountV, Addr, ContentV, EntryV, HistoryEntry, Message, MessageContent, Mode,
    Room, RoomV, State, StateV,
};
use crate::room_id_from_bytes;
use crate::util::{addr_eq, contains_addr, random_byte_pair, same_member_set};

verus! {

/// The set of identities an inbound message concerns: its co-recipients
/// and its sender.
pub open spec fn participant_set(sender: Seq<u8>, others: Seq<Seq<u8>>) -> Set<Seq<u8>> {
    others.to_set().insert(sender)
}

/// The index of the first room whose member set equals `parts`, or -1.
pub open spec fn find_matching_room(rooms: Seq<RoomV>, parts: Set<Seq<u8>>) -> int
    decreases rooms.len(),
{
    if rooms.len() == 0 {
        -1
    } else if rooms[0].members.to_set() == parts {
        0
    } else if find_matching_room(rooms.skip(1), parts) == -1 {
        -1
    } else {
        find_matching_room(rooms.skip(1), parts) + 1
    }
}

/// `find_matching_room` returns -1 exactly when no room matches, and
/// otherwise the least matching index.
pub proof fn lemma_find_matching_room(rooms: Seq<RoomV>, parts: Set<Seq<u8>>)
    ensures
        (find_matching_room(rooms, parts) == -1) <==> (forall|i: int|
            0 <= i < rooms.len() ==> (#[trigger] rooms[i]).members.to_set() != parts),
        find_matching_room(rooms, parts) != -1 ==> {
            &&& 0 <= find_matching_room(rooms, parts) < rooms.len()
            &&& rooms[find_matching_room(rooms, parts)].members.to_set() == parts
            &&& forall|i: int|
                0 <= i < find_matching_room(rooms, parts) ==> (
                #[trigger] rooms[i]).members.to_set() != parts
        },
    decreases rooms.len(),
{
    if rooms.len() != 0 {
        lemma_find_matching_room(rooms.skip(1), parts);
        assert forall|i: int| 0 < i < rooms.len() implies rooms[i] == rooms.skip(1)[i - 1] by {}
    }
}

/// A room with one more history entry.
pub open spec fn with_entry(r: RoomV, e: EntryV) -> RoomV {
    RoomV { history: r.history.push(e), ..r }
}

/// Deliver an inbound message: append it to the history of the first
/// room whose member set equals the message's participant set, or create
/// a room holding exactly that participant set, one history entry, one
/// unseen message, and a zero scroll offset.
pub fn message_callback(account: &mut Account, state: &mut State, from: Addr, timestamp: u64,
    msg: Message)
    requires
        wf(old(account), old(state)),
    ensures
        wf(final(account), final(state)),
        ({
            let parts = participant_set(from@, msg@.other_recipients);
            let e = EntryV { sender: from@, timestamp, msg: msg@.content };
            let mi = find_matching_room(old(account)@.rooms, parts);
            if mi != -1 {
                &&& final(account)@ == (AccountV {
                    rooms: old(account)@.rooms.update(
                        mi,
                        with_entry(old(account)@.rooms[mi], e),
                    ),
                    ..old(account)@
                })
                &&& final(state)@ == old(state)@
            } else {
                let nr = final(account)@.rooms.last();
                &&& final(account)@ == (AccountV {
                    rooms: old(account)@.rooms.push(nr),
                    ..old(account)@
                })
                &&& nr.members.to_set() == parts
                &&& nr.members.no_duplicates()
                &&& nr.history == seq![e]
                &&& nr.name == "New room"@
                &&& nr.unseen == 1
                &&& final(state)@ == (StateV {
                    scroll: old(state)@.scroll.insert(nr.id, 0),
                    ..old(state)@
                })
            }
        }),
{
    let ghost fv = from@;
    let ghost others = msg@.other_recipients;
    let ghost parts = participant_set(fv, others);

    // Gather the participant set as a duplicate-free list.
    let mut plist: Vec<Addr> = Vec::new();
    let n = msg.other_recipients.len();
    let mut i: usize = 0;
    while i < n
        invariant
            n == others.len(),
            others == addr_views(msg.other_recipients@),
            0 <= i <= n,
            addr_views(plist@).to_set() =~= others.take(i as int).to_set(),
            addr_views(plist@).no_duplicates(),
        decreases n - i,
    {
        let ghost pl0 = addr_views(plist@);
        let in_list = contains_addr(&plist, &msg.other_recipients[i]);
        if !in_list {
            plist.push(msg.other_recipients[i].clone());
            proof {
                assert(addr_views(plist@) =~= pl0.push(others[i as int]));
                assert(addr_views(plist@).no_duplicates());
            }
        }
        proof {
            lemma_to_set_push(pl0, others[i as int]);
            lemma_to_set_push(others.take(i as int), others[i as int]);
            assert(others.take(i + 1) =~= others.take(i as int).push(others[i as int]));
            if in_list {
                assert(pl0.to_set().contains(others[i as int]));
                assert(pl0.to_set().insert(others[i as int]) =~= pl0.to_set());
            }
            assert(addr_views(plist@).to_set() =~= others.take(i + 1).to_set());
        }
        i = i + 1;
    }
    proof {
        assert(others.take(n as int) =~= others);
    }
    let ghost plo = addr_views(plist@);
    let from_in = contains_addr(&plist, &from);
    if !from_in {
        plist.push(from.clone());
        proof {
            assert(addr_views(plist@) =~= plo.push(fv));
            assert(addr_views(plist@).no_duplicates());
        }
    }
    proof {
        lemma_to_set_push(plo, fv);
        if from_in {
            assert(plo.to_set().contains(fv));
            assert(plo.to_set().insert(fv) =~= plo.to_set());
        }
        assert(addr_views(plist@).to_set() =~= parts);
    }

    // Look for the first room whose member set matches.
    let ghost rs0 = account@.rooms;
    let ghost pm = (|r: RoomV| r.members.to_set() == parts);
    let nrooms = account.rooms.len();
    let mut ri: usize = 0;
    let mut found: bool = false;
    while ri < nrooms && !found
        invariant
            account@ == old(account)@,
            rs0 == account@.rooms,
            nrooms == rs0.len(),
            pm == (|r: RoomV| r.members.to_set() == parts),
            addr_views(plist@).to_set() == parts,
            addr_views(plist@).no_duplicates(),
            0 <= ri <= nrooms,
            forall|j: int| 0 <= j < ri ==> !pm(#[trigger] rs0[j]),
            found ==> ri < nrooms && pm(rs0[ri as int]) && (forall|j: int|
                0 <= j < ri ==> !pm(#[trigger] rs0[j])),
        decreases nrooms - ri + (if found { 0int } else { 1int }),
    {
        if same_member_set(&account.rooms[ri].members, &plist) {
            proof {
                assert(pm(rs0[ri as int]));
            }
            found = true;
        } else {
            ri = ri + 1;
        }
    }
    let entry = HistoryEntry { sender: from, timestamp, msg: msg.content };
    let ghost e = EntryV { sender: fv, timestamp, msg: msg@.content };
    proof {
        assert(entry@ == e);
    }
    if found {
        proof {
            lemma_find_matching_room(rs0, parts);
            assert(find_matching_room(rs0, parts) == ri as int);
        }
        let mut room = account.rooms.remove(ri);
        room.history.push(entry);
        let ghost r2 = with_entry(rs0[ri as int], e);
        proof {
            assert(room@.history =~= r2.history);
            assert(room@ == r2);
        }
        account.rooms.insert(ri, room);
        proof {
            assert(account@.rooms =~= rs0.update(ri as int, r2));
            lemma_room_id_set_update(rs0, ri as int, r2);
            lemma_find_room_same_ids(account@.rooms, rs0, state.room_id);
            assert(r2.members == rs0[ri as int].members);
            lemma_find_first(account@.rooms, |r: RoomV| r.id == state@.room_id);
            let f = find_room(account@.rooms, state@.room_id);
            if f != -1 {
                assert(account@.rooms[f].members == rs0[f].members);
            }
            assert(active_list_len(account@, state@) == active_list_len(old(account)@, old(state)@));
        }
    } else {
        proof {
            lemma_find_matching_room(rs0, parts);
            assert(find_matching_room(rs0, parts) == -1);
        }
        let (hi, lo) = random_byte_pair();
        let id = room_id_from_bytes(hi, lo);
        let mut history: Vec<HistoryEntry> = Vec::new();
        history.push(entry);
        let new_room = Room {
            id,
            name: "New room".to_owned(),
            members: plist,
            history,
            unseen: 1,
        };
        let ghost nr = new_room@;
        proof {
            assert(nr.history =~= seq![e]);
        }
        set_scroll(state, id, 0);
        let ghost rooms_before = account@.rooms;
        account.rooms.push(new_room);
        proof {
            assert(account@.rooms =~= rooms_before.push(nr));
            lemma_room_id_set_push(rooms_before, nr);
            // The active list can only be affected in members mode, where
            // the new room is found only if no room carried the active id
            // before; its member list is never empty.
            if state@.mode == Mode::Members {
                let p_id = (|r: RoomV| r.id == state@.room_id);
                lemma_find_first(rooms_before, p_id);
                lemma_find_first(account@.rooms, p_id);
                let f0 = find_first(rooms_before, p_id);
                let f1 = find_first(account@.rooms, p_id);
                if f0 != -1 {
                    assert(account@.rooms[f0] == rooms_before[f0]);
                    assert(p_id(account@.rooms[f0]));
                    assert forall|j: int| 0 <= j < f0 implies !p_id(
                        #[trigger] account@.rooms[j]) by {
                        assert(account@.rooms[j] == rooms_before[j]);
                    }
                    assert(f1 == f0);
                } else {
                    if f1 != -1 {
                        assert(f1 == rooms_before.len());
                        assert(account@.rooms[f1].members.to_set() == parts);
                        assert(parts.contains(fv));
                        assert(account@.rooms[f1].members.len() > 0) by {
                            if account@.rooms[f1].members.len() == 0 {
                                assert(account@.rooms[f1].members.to_set() =~= Set::<Seq<
                                    u8>>::empty());
                            }
                        }
                    }
                }
            }
        }
    }
}

/// Whether `plan` sends `content` to each of `recipients` once, naming
/// for each recipient exactly the other recipients of the message.
pub open spec fn plan_ok(plan: Seq<(Addr, Message)>, recipients: Seq<Seq<u8>>, content: ContentV)
    -> bool {
    &&& plan.len() == recipients.len()
    &&& forall|i: int|
        0 <= i < plan.len() ==> {
            &&& (#[trigger] plan[i]).0@ == recipients[i]
            &&& plan[i].1@.content == content
            &&& plan[i].1@.other_recipients == recipients.filter(
                |x: Seq<u8>| x != recipients[i],
            )
        }
}

/// Lay out one outbound message per recipient; each message carries the
/// payload and the list of recipients other than its addressee.
pub fn send_message(recipients: &Vec<Addr>, content: &MessageContent) -> (plan: Vec<(Addr,
    Message)>)
    ensures
        plan_ok(plan@, addr_views(recipients@), content@),
{
    let ghost rv = addr_views(recipients@);
    let mut plan: Vec<(Addr, Message)> = Vec::new();
    let n = recipients.len();
    let mut i: usize = 0;
    while i < n
        invariant
            n == rv.len(),
            rv == addr_views(recipients@),
            0 <= i <= n,
            plan@.len() == i,
            forall|k: int|
                0 <= k < i ==> {
                    &&& (#[trigger] plan@[k]).0@ == rv[k]
                    &&& plan@[k].1@.content == content@
                    &&& plan@[k].1@.other_recipients == rv.filter(|x: Seq<u8>| x != rv[k])
                },
        decreases n - i,
    {
        let ghost pred = (|x: Seq<u8>| x != rv[i as int]);
        let mut others: Vec<Addr> = Vec::new();
        let mut j: usize = 0;
        proof {
            reveal(Seq::filter);
            assert(rv.take(0).filter(pred) =~= Seq::<Seq<u8>>::empty());
            assert(addr_views(others@) =~= rv.take(0).filter(pred));
        }
        while j < n
            invariant
                n == rv.len(),
                rv == addr_views(recipients@),
                0 <= i < n,
                0 <= j <= n,
                pred == (|x: Seq<u8>| x != rv[i as int]),
                addr_views(others@) == rv.take(j as int).filter(pred),
            decreases n - j,
        {
            proof {
                reveal(Seq::filter);
                assert(rv.take(j + 1).drop_last() =~= rv.take(j as int));
                assert(rv.take(j + 1).last() == rv[j as int]);
            }
            if !addr_eq(&recipients[j], &recipients[i]) {
                let ghost o0 = addr_views(others@);
                others.push(recipients[j].clone());
                proof {
                    assert(addr_views(others@) =~= o0.push(rv[j as int]));
                    assert(pred(rv[j as int]));
                    assert(addr_views(others@) =~= rv.take(j + 1).filter(pred));
                }
            } else {
                proof {
                    assert(!pred(rv[j as int]));
                    assert(addr_views(others@) =~= rv.take(j + 1).filter(pred));
                }
            }
            j = j + 1;
        }
        proof {
            assert(rv.take(n as int) =~= rv);
        }
        let message = Message { other_recipients: others, content: content.clone() };
        plan.push((recipients[i].clone(), message));
        i = i + 1;
    }
    plan
}

/// Append the input buffer as a message from the local identity to the
/// active room's history, clear the buffer, and hand back the send plan
/// for the room's members; without an active room nothing changes.
pub fn submit_message(account: &mut Account, state: &mut State, timestamp: u64) -> (r: Option<
    Vec<(Addr, Message)>>)
    requires
        wf(old(account), old(state)),
    ensures
        wf(final(account), final(state)),
        ({
            let ri = find_room(old(account)@.rooms, old(state)@.room_id);
            if ri == -1 {
                &&& r is None
                &&& final(account)@ == old(account)@
                &&& final(state)@ == old(state)@
            } else {
                let r0 = old(account)@.rooms[ri];
                let e = EntryV {
                    sender: old(account)@.account.addr,
                    timestamp,
                    msg: ContentV::Text(old(state)@.msg_buf),
                };
                &&& final(account)@ == (AccountV {
                    rooms: old(account)@.rooms.update(ri, with_entry(r0, e)),
                    ..old(account)@
                })
                &&& final(state)@ == (StateV { msg_buf: Seq::<char>::empty(), ..old(state)@ })
                &&& r matches Some(plan) && plan_ok(
                    plan@,
                    r0.members,
                    ContentV::Text(old(state)@.msg_buf),
                )
            }
        }),
{
    let found = find_room_idx(&account.rooms, state.room_id);
    match found {
        Some(ri) => {
            let ghost rs0 = account@.rooms;
            let content = MessageContent::Text(state.msg_buf.clone());
            let entry = HistoryEntry {
                sender: account.account.addr.clone(),
                timestamp,
                msg: content.clone(),
            };
            let ghost e = EntryV {
                sender: account@.account.addr,
                timestamp,
                msg: ContentV::Text(state@.msg_buf),
            };
            proof {
                assert(entry@ == e);
            }
            let mut room = account.rooms.remove(ri);
            room.history.push(entry);
            let plan = send_message(&room.members, &content);
            let ghost r2 = with_entry(rs0[ri as int], e);
            proof {
                assert(room@.history =~= r2.history);
                assert(room@ == r2);
            }
            account.rooms.insert(ri, room);
            proof {
                assert(account@.rooms =~= rs0.update(ri as int, r2));
                lemma_room_id_set_update(rs0, ri as int, r2);
                lemma_find_room_same_ids(account@.rooms, rs0, state.room_id);
            }
            clear_input(state);
            Some(plan)
        },
        None => None,
    }
}

/// Replace the ephemeral key pair after the transport rotates it; the
/// caller persists the account afterwards.
pub fn rotate_keys(account: &mut Account, new_pub: Vec<u8>, new_sec: Vec<u8>)
    ensures
        final(account)@ == (AccountV { eph_pub: new_pub@, eph_sec: new_sec@, ..old(account)@ }),
{
    account.eph_pub = new_pub;
    account.eph_sec = new_sec;
}

} // verus!

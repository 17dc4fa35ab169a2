use sufec_chat_core::commands::{add_contact, add_member, add_room, backspace, clear_input,
    input_char, remove_contact, remove_member, remove_room, rename_contact, rename_member,
    rename_room, scroll, show_contacts, show_members, show_rooms, sidebar_select_relative,
    upsert_contact};
use sufec_chat_core::data::{Account, Addr, Contact, Identity, Message, MessageContent, Mode,
    Room, State};
use sufec_chat_core::messaging::{message_callback, rotate_keys, send_message, submit_message};

fn addr(b: &[u8]) -> Addr {
    Addr { bytes: b.to_vec() }
}

fn test_account(rooms: Vec<Room>) -> Account {
    Account {
        account: Identity { addr: addr(&[9, 9]), secret: vec![1, 2, 3] },
        contacts: Vec::new(),
        eph_pub: vec![4, 4],
        eph_sec: vec![5, 5],
        rooms,
    }
}

fn room(id: u16, members: Vec<Addr>) -> Room {
    Room { id, name: String::from("room"), members, history: Vec::new(), unseen: 0 }
}

fn text(s: &str) -> MessageContent {
    MessageContent::Text(String::from(s))
}

fn content_text(c: &MessageContent) -> &str {
    match c {
        MessageContent::Text(s) => s.as_str(),
        MessageContent::Unknown => panic!("expected a text payload"),
    }
}

// Scenario: one room with members {A, B}; an inbound message from B with
// other_recipients {A} grows that room's history by one and creates no
// new room.
#[test]
fn inbound_lands_in_matching_room() {
    let a = addr(&[1]);
    let b = addr(&[2]);
    let r = room(7, vec![a.clone(), b.clone()]);
    let mut account = test_account(vec![r]);
    let mut state = State::new(&account, 80, 24);
    let msg = Message { other_recipients: vec![a.clone()], content: text("hi") };
    message_callback(&mut account, &mut state, b.clone(), 1000, msg);
    assert_eq!(account.rooms.len(), 1);
    assert_eq!(account.rooms[0].history.len(), 1);
    assert_eq!(account.rooms[0].history[0].timestamp, 1000);
    assert_eq!(account.rooms[0].history[0].sender.bytes, vec![2]);
    assert_eq!(content_text(&account.rooms[0].history[0].msg), "hi");
}

// Scenario: no rooms; an inbound message from C with other_recipients
// {D} creates exactly one room with members {C, D} and one entry.
#[test]
fn inbound_creates_room_with_full_participant_set() {
    let c = addr(&[3]);
    let d = addr(&[4]);
    let mut account = test_account(Vec::new());
    let mut state = State::new(&account, 80, 24);
    let msg = Message { other_recipients: vec![d.clone()], content: text("yo") };
    message_callback(&mut account, &mut state, c.clone(), 5, msg);
    assert_eq!(account.rooms.len(), 1);
    let nr = &account.rooms[0];
    assert_eq!(nr.history.len(), 1);
    assert_eq!(nr.unseen, 1);
    assert_eq!(nr.name, "New room");
    assert_eq!(nr.members.len(), 2);
    let mut member_bytes: Vec<Vec<u8>> = nr.members.iter().map(|m| m.bytes.clone()).collect();
    member_bytes.sort();
    assert_eq!(member_bytes, vec![vec![3], vec![4]]);
    // The new room gets a zero scroll offset.
    assert!(state.scroll.iter().any(|e| e.0 == nr.id && e.1 == 0));
}

// Resolver idempotence on concrete values: a second message with the
// same participants, listed in another order, lands in the same room.
#[test]
fn second_message_same_set_same_room() {
    let a = addr(&[1]);
    let b = addr(&[2]);
    let mut account = test_account(Vec::new());
    let mut state = State::new(&account, 80, 24);
    let m1 = Message { other_recipients: vec![b.clone()], content: text("one") };
    message_callback(&mut account, &mut state, a.clone(), 1, m1);
    let m2 = Message { other_recipients: vec![a.clone()], content: text("two") };
    message_callback(&mut account, &mut state, b.clone(), 2, m2);
    assert_eq!(account.rooms.len(), 1);
    assert_eq!(account.rooms[0].history.len(), 2);
    // A third message with a different set opens a second room.
    let e = addr(&[5]);
    let m3 = Message { other_recipients: vec![e.clone()], content: text("three") };
    message_callback(&mut account, &mut state, a.clone(), 3, m3);
    assert_eq!(account.rooms.len(), 2);
    assert_eq!(account.rooms[0].history.len(), 2);
    assert_eq!(account.rooms[1].history.len(), 1);
}

// Append-only history on concrete values: each delivery keeps the
// earlier timestamps as a prefix.
#[test]
fn history_timestamps_stay_a_prefix() {
    let a = addr(&[1]);
    let b = addr(&[2]);
    let r = room(7, vec![a.clone(), b.clone()]);
    let mut account = test_account(vec![r]);
    let mut state = State::new(&account, 80, 24);
    let mut seen: Vec<u64> = Vec::new();
    for ts in [10u64, 20, 30] {
        let msg = Message { other_recipients: vec![a.clone()], content: text("m") };
        message_callback(&mut account, &mut state, b.clone(), ts, msg);
        let now: Vec<u64> = account.rooms[0].history.iter().map(|e| e.timestamp).collect();
        assert_eq!(&now[..seen.len()], &seen[..]);
        seen = now;
    }
    assert_eq!(seen, vec![10, 20, 30]);
}

// Scenario: three rooms, the last one active and selected; removing it
// leaves the selection on the new last room.
#[test]
fn remove_last_room_repairs_selection() {
    let rooms = vec![
        room(1, vec![addr(&[1])]),
        room(2, vec![addr(&[2])]),
        room(3, vec![addr(&[3])]),
    ];
    let mut account = test_account(rooms);
    let mut state = State::new(&account, 80, 24);
    sidebar_select_relative(&account, &mut state, 2);
    assert_eq!(state.selected_index, 2);
    assert_eq!(state.room_id, 3);
    remove_room(&mut account, &mut state);
    assert_eq!(account.rooms.len(), 2);
    assert_eq!(state.selected_index, 1);
    assert_eq!(state.room_id, 1);
    assert_eq!(state.scroll.len(), 2);
}

// Scenario: submitting while the active room is gone is a silent no-op.
#[test]
fn submit_without_active_room_is_noop() {
    let mut account = test_account(Vec::new());
    let mut state = State::new(&account, 80, 24);
    input_char(&mut state, 'h');
    input_char(&mut state, 'i');
    let plan = submit_message(&mut account, &mut state, 123);
    assert!(plan.is_none());
    assert_eq!(account.rooms.len(), 0);
    assert_eq!(state.msg_buf, "hi");
}

// Submitting with an active room appends the entry, clears the buffer,
// and plans one send per member with the other members listed.
#[test]
fn submit_appends_and_plans_sends() {
    let a = addr(&[1]);
    let b = addr(&[2]);
    let r = room(7, vec![a.clone(), b.clone()]);
    let mut account = test_account(vec![r]);
    let mut state = State::new(&account, 80, 24);
    input_char(&mut state, 'o');
    input_char(&mut state, 'k');
    let plan = submit_message(&mut account, &mut state, 99).expect("a send plan");
    assert_eq!(state.msg_buf, "");
    assert_eq!(account.rooms[0].history.len(), 1);
    assert_eq!(account.rooms[0].history[0].timestamp, 99);
    assert_eq!(account.rooms[0].history[0].sender.bytes, vec![9, 9]);
    assert_eq!(content_text(&account.rooms[0].history[0].msg), "ok");
    assert_eq!(plan.len(), 2);
    assert_eq!(plan[0].0.bytes, vec![1]);
    assert_eq!(plan[0].1.other_recipients.len(), 1);
    assert_eq!(plan[0].1.other_recipients[0].bytes, vec![2]);
    assert_eq!(content_text(&plan[0].1.content), "ok");
    assert_eq!(plan[1].0.bytes, vec![2]);
    assert_eq!(plan[1].1.other_recipients[0].bytes, vec![1]);
}

// The send plan filters every occurrence of the addressee.
#[test]
fn send_plan_excludes_addressee() {
    let recipients = vec![addr(&[1]), addr(&[2]), addr(&[1])];
    let plan = send_message(&recipients, &text("x"));
    assert_eq!(plan.len(), 3);
    assert_eq!(plan[0].1.other_recipients.len(), 1);
    assert_eq!(plan[0].1.other_recipients[0].bytes, vec![2]);
    assert_eq!(plan[1].1.other_recipients.len(), 2);
}

// Scroll floor: repeated downward scrolls never drive an offset below
// zero.
#[test]
fn scroll_never_goes_below_zero() {
    let r = room(7, vec![addr(&[1])]);
    let account = test_account(vec![r]);
    let mut state = State::new(&account, 80, 24);
    scroll(&mut state, 3);
    assert_eq!(state.scroll[0].1, 3);
    scroll(&mut state, -1);
    scroll(&mut state, -1);
    scroll(&mut state, -1);
    scroll(&mut state, -1);
    scroll(&mut state, -1);
    assert_eq!(state.scroll[0].1, 0);
    scroll(&mut state, -5);
    assert_eq!(state.scroll[0].1, 0);
}

// A scroll for a room id the view keeps no offset for changes nothing.
#[test]
fn scroll_unknown_room_is_noop() {
    let account = test_account(Vec::new());
    let mut state = State::new(&account, 80, 24);
    scroll(&mut state, 5);
    assert!(state.scroll.is_empty());
}

// Selection bounds hold through mode switches and moves on every list,
// including empty ones.
#[test]
fn selection_stays_in_bounds() {
    let rooms = vec![room(1, vec![addr(&[1]), addr(&[2])]), room(2, Vec::new())];
    let mut account = test_account(rooms);
    let mut state = State::new(&account, 80, 24);
    sidebar_select_relative(&account, &mut state, 5);
    assert_eq!(state.selected_index, 1);
    sidebar_select_relative(&account, &mut state, -7);
    assert_eq!(state.selected_index, 0);
    assert_eq!(state.room_id, 1);
    show_members(&account, &mut state);
    assert_eq!(state.selected_index, 0);
    sidebar_select_relative(&account, &mut state, 3);
    assert_eq!(state.selected_index, 1);
    show_contacts(&account, &mut state);
    // The contact list is empty: moving is a no-op and the index stays 0.
    sidebar_select_relative(&account, &mut state, 4);
    assert_eq!(state.selected_index, 0);
    show_rooms(&account, &mut state);
    assert_eq!(state.selected_index, 0);
    assert_eq!(state.mode, Mode::Rooms);
}

#[test]
fn add_room_activates_new_empty_room() {
    let mut account = test_account(Vec::new());
    let mut state = State::new(&account, 80, 24);
    add_room(&mut account, &mut state);
    assert_eq!(account.rooms.len(), 1);
    assert_eq!(account.rooms[0].name, "New room");
    assert!(account.rooms[0].members.is_empty());
    assert!(account.rooms[0].history.is_empty());
    assert_eq!(state.room_id, account.rooms[0].id);
    assert!(state.scroll.iter().any(|e| e.0 == account.rooms[0].id && e.1 == 0));
}

#[test]
fn rename_room_takes_buffer_and_clears_it() {
    let mut account = test_account(vec![room(7, Vec::new())]);
    let mut state = State::new(&account, 80, 24);
    for c in "den".chars() {
        input_char(&mut state, c);
    }
    rename_room(&mut account, &mut state);
    assert_eq!(account.rooms[0].name, "den");
    assert_eq!(state.msg_buf, "");
}

#[test]
fn add_and_remove_member_by_name_and_raw_address() {
    let mut account = test_account(vec![room(7, Vec::new())]);
    account.contacts.push(Contact { addr: addr(&[0xab]), name: String::from("bob") });
    let mut state = State::new(&account, 80, 24);
    // By contact name.
    for c in "bob".chars() {
        input_char(&mut state, c);
    }
    add_member(&mut account, &mut state);
    assert_eq!(account.rooms[0].members.len(), 1);
    assert_eq!(account.rooms[0].members[0].bytes, vec![0xab]);
    // By raw canonical address.
    for c in "0f10".chars() {
        input_char(&mut state, c);
    }
    add_member(&mut account, &mut state);
    assert_eq!(account.rooms[0].members.len(), 2);
    assert_eq!(account.rooms[0].members[1].bytes, vec![0x0f, 0x10]);
    // An unresolvable name is a no-op.
    for c in "zz".chars() {
        input_char(&mut state, c);
    }
    add_member(&mut account, &mut state);
    assert_eq!(account.rooms[0].members.len(), 2);
    assert_eq!(state.msg_buf, "zz");
    clear_input(&mut state);
    // Remove the first member in members mode.
    show_members(&account, &mut state);
    remove_member(&mut account, &mut state);
    assert_eq!(account.rooms[0].members.len(), 1);
    assert_eq!(account.rooms[0].members[0].bytes, vec![0x0f, 0x10]);
    assert_eq!(state.selected_index, 0);
}

#[test]
fn add_contact_parses_address_and_name() {
    let mut account = test_account(Vec::new());
    let mut state = State::new(&account, 80, 24);
    for c in "0a1b alice".chars() {
        input_char(&mut state, c);
    }
    add_contact(&mut account, &mut state);
    assert_eq!(account.contacts.len(), 1);
    assert_eq!(account.contacts[0].addr.bytes, vec![0x0a, 0x1b]);
    assert_eq!(account.contacts[0].name, "alice");
    assert_eq!(state.msg_buf, "");
    // The same address again renames instead of duplicating.
    for c in "0a1b alba".chars() {
        input_char(&mut state, c);
    }
    add_contact(&mut account, &mut state);
    assert_eq!(account.contacts.len(), 1);
    assert_eq!(account.contacts[0].name, "alba");
    // No space: no-op.
    for c in "0a1b".chars() {
        input_char(&mut state, c);
    }
    add_contact(&mut account, &mut state);
    assert_eq!(account.contacts.len(), 1);
    assert_eq!(state.msg_buf, "0a1b");
    clear_input(&mut state);
    // Bad address: no-op.
    for c in "zz carl".chars() {
        input_char(&mut state, c);
    }
    add_contact(&mut account, &mut state);
    assert_eq!(account.contacts.len(), 1);
}

#[test]
fn rename_member_updates_directory() {
    let m = addr(&[0x42]);
    let mut account = test_account(vec![room(7, vec![m.clone()])]);
    let mut state = State::new(&account, 80, 24);
    for c in "dora".chars() {
        input_char(&mut state, c);
    }
    rename_member(&mut account, &mut state);
    assert_eq!(account.contacts.len(), 1);
    assert_eq!(account.contacts[0].addr.bytes, vec![0x42]);
    assert_eq!(account.contacts[0].name, "dora");
}

#[test]
fn rename_and_remove_contact_guarded_by_selection() {
    let mut account = test_account(Vec::new());
    let mut state = State::new(&account, 80, 24);
    // Empty directory: both are no-ops.
    rename_contact(&mut account, &mut state);
    remove_contact(&mut account, &mut state);
    assert_eq!(account.contacts.len(), 0);
    upsert_contact(&mut account, addr(&[1]), String::from("ann"));
    upsert_contact(&mut account, addr(&[2]), String::from("ben"));
    show_contacts(&account, &mut state);
    sidebar_select_relative(&account, &mut state, 1);
    for c in "bea".chars() {
        input_char(&mut state, c);
    }
    rename_contact(&mut account, &mut state);
    assert_eq!(account.contacts[1].name, "bea");
    remove_contact(&mut account, &mut state);
    assert_eq!(account.contacts.len(), 1);
    assert_eq!(account.contacts[0].name, "ann");
    assert_eq!(state.selected_index, 0);
}

#[test]
fn buffer_editing() {
    let account = test_account(Vec::new());
    let mut state = State::new(&account, 80, 24);
    backspace(&mut state);
    assert_eq!(state.msg_buf, "");
    input_char(&mut state, 'a');
    input_char(&mut state, 'b');
    backspace(&mut state);
    assert_eq!(state.msg_buf, "a");
    clear_input(&mut state);
    assert_eq!(state.msg_buf, "");
}

#[test]
fn rotate_keys_replaces_only_the_ephemeral_pair() {
    let mut account = test_account(Vec::new());
    rotate_keys(&mut account, vec![7, 7], vec![8, 8]);
    assert_eq!(account.eph_pub, vec![7, 7]);
    assert_eq!(account.eph_sec, vec![8, 8]);
    assert_eq!(account.account.secret, vec![1, 2, 3]);
}

#[test]
fn unknown_content_is_carried_not_fatal() {
    let b = addr(&[2]);
    let mut account = test_account(Vec::new());
    let mut state = State::new(&account, 80, 24);
    let msg = Message { other_recipients: Vec::new(), content: MessageContent::Unknown };
    message_callback(&mut account, &mut state, b, 1, msg);
    assert_eq!(account.rooms.len(), 1);
    assert!(matches!(account.rooms[0].history[0].msg, MessageContent::Unknown));
}

// Removing when no room carries the active id only resets the active
// room to the first of the list.
#[test]
fn remove_room_without_match() {
    let mut account = test_account(vec![room(1, Vec::new()), room(2, Vec::new())]);
    let mut state = State::new(&account, 80, 24);
    state.room_id = 99;
    remove_room(&mut account, &mut state);
    assert_eq!(account.rooms.len(), 2);
    assert_eq!(state.room_id, 1);
    assert_eq!(state.scroll.len(), 2);
}

// An inbound message that opens a room while the member list is showing
// leaves the selection at a valid index.
#[test]
fn inbound_in_members_mode_keeps_selection_valid() {
    let mut account = test_account(Vec::new());
    let mut state = State::new(&account, 80, 24);
    show_members(&account, &mut state);
    let msg = Message { other_recipients: Vec::new(), content: text("x") };
    message_callback(&mut account, &mut state, addr(&[8]), 1, msg);
    assert_eq!(account.rooms.len(), 1);
    assert_eq!(state.selected_index, 0);
}

// Two created rooms are distinct entries even before any members join.
#[test]
fn add_room_twice() {
    let mut account = test_account(Vec::new());
    let mut state = State::new(&account, 80, 24);
    add_room(&mut account, &mut state);
    add_room(&mut account, &mut state);
    assert_eq!(account.rooms.len(), 2);
    assert_eq!(state.room_id, account.rooms[1].id);
}

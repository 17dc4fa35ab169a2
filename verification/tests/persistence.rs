use sufec_chat_core::codec::{decode_account, encode_account};
use sufec_chat_core::data::{Account, Addr, Contact, HistoryEntry, Identity, MessageContent, Room};

fn addr(b: &[u8]) -> Addr {
    Addr { bytes: b.to_vec() }
}

fn sample_account() -> Account {
    let entry1 = HistoryEntry {
        sender: addr(&[1]),
        timestamp: 1_000_000,
        msg: MessageContent::Text(String::from("hello there")),
    };
    let entry2 = HistoryEntry {
        sender: addr(&[9, 9]),
        timestamp: 1_000_007,
        msg: MessageContent::Unknown,
    };
    let r1 = Room {
        id: 513,
        name: String::from("plans \u{1F600}"),
        members: vec![addr(&[1]), addr(&[2, 3])],
        history: vec![entry1, entry2],
        unseen: 2,
    };
    let r2 = Room {
        id: 0,
        name: String::new(),
        members: Vec::new(),
        history: Vec::new(),
        unseen: 0,
    };
    Account {
        account: Identity { addr: addr(&[9, 9]), secret: vec![0, 255, 128] },
        contacts: vec![
            Contact { addr: addr(&[1]), name: String::from("ann") },
            Contact { addr: addr(&[2, 3]), name: String::from("b\u{00e9}n") },
        ],
        eph_pub: vec![10; 32],
        eph_sec: vec![11; 32],
        rooms: vec![r1, r2],
    }
}

fn assert_accounts_equal(a: &Account, b: &Account) {
    assert_eq!(a.account.addr.bytes, b.account.addr.bytes);
    assert_eq!(a.account.secret, b.account.secret);
    assert_eq!(a.eph_pub, b.eph_pub);
    assert_eq!(a.eph_sec, b.eph_sec);
    assert_eq!(a.contacts.len(), b.contacts.len());
    for (ca, cb) in a.contacts.iter().zip(b.contacts.iter()) {
        assert_eq!(ca.addr.bytes, cb.addr.bytes);
        assert_eq!(ca.name, cb.name);
    }
    assert_eq!(a.rooms.len(), b.rooms.len());
    for (ra, rb) in a.rooms.iter().zip(b.rooms.iter()) {
        assert_eq!(ra.id, rb.id);
        assert_eq!(ra.name, rb.name);
        assert_eq!(ra.unseen, rb.unseen);
        assert_eq!(ra.members.len(), rb.members.len());
        for (ma, mb) in ra.members.iter().zip(rb.members.iter()) {
            assert_eq!(ma.bytes, mb.bytes);
        }
        assert_eq!(ra.history.len(), rb.history.len());
        for (ea, eb) in ra.history.iter().zip(rb.history.iter()) {
            assert_eq!(ea.sender.bytes, eb.sender.bytes);
            assert_eq!(ea.timestamp, eb.timestamp);
            match (&ea.msg, &eb.msg) {
                (MessageContent::Text(sa), MessageContent::Text(sb)) => assert_eq!(sa, sb),
                (MessageContent::Unknown, MessageContent::Unknown) => {},
                _ => panic!("payload variants differ"),
            }
        }
    }
}

// Saving and loading again yields an equal account: rooms, contacts,
// history and keys all preserved.
#[test]
fn encode_decode_round_trip() {
    let account = sample_account();
    let bytes = encode_account(&account);
    let back = decode_account(&bytes).expect("the encoding decodes");
    assert_accounts_equal(&account, &back);
}

#[test]
fn empty_account_round_trip() {
    let account = Account {
        account: Identity { addr: Addr { bytes: Vec::new() }, secret: Vec::new() },
        contacts: Vec::new(),
        eph_pub: Vec::new(),
        eph_sec: Vec::new(),
        rooms: Vec::new(),
    };
    let bytes = encode_account(&account);
    let back = decode_account(&bytes).expect("the encoding decodes");
    assert_accounts_equal(&account, &back);
}

// Any trailing garbage or truncation is rejected.
#[test]
fn decode_rejects_damaged_input() {
    let account = sample_account();
    let bytes = encode_account(&account);
    let mut longer = bytes.clone();
    longer.push(0);
    assert!(decode_account(&longer).is_none());
    let shorter = bytes[..bytes.len() - 1].to_vec();
    assert!(decode_account(&shorter).is_none());
    assert!(decode_account(&Vec::new()).is_none());
    assert!(decode_account(&vec![255; 4]).is_none());
}

// The encoding really transforms its input: the bytes are not the fields
// laid end to end unchanged, and texts travel through UTF-8.
#[test]
fn encoding_shape() {
    let account = Account {
        account: Identity { addr: addr(&[0xaa]), secret: Vec::new() },
        contacts: Vec::new(),
        eph_pub: Vec::new(),
        eph_sec: Vec::new(),
        rooms: Vec::new(),
    };
    let bytes = encode_account(&account);
    // addr: len 1 as u64 little-endian, then the byte; secret: len 0;
    // contacts count 0; eph keys len 0 each; rooms count 0.
    let expected: Vec<u8> = vec![
        1, 0, 0, 0, 0, 0, 0, 0, 0xaa, // addr
        0, 0, 0, 0, 0, 0, 0, 0, // secret
        0, 0, 0, 0, 0, 0, 0, 0, // contacts
        0, 0, 0, 0, 0, 0, 0, 0, // eph_pub
        0, 0, 0, 0, 0, 0, 0, 0, // eph_sec
        0, 0, 0, 0, 0, 0, 0, 0, // rooms
    ];
    assert_eq!(bytes, expected);
}

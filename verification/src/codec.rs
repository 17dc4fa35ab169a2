//! The durable form of an account: a length-prefixed little-endian byte
//! encoding, with a decoder that is proved to give back exactly what was
//! encoded.
use vstd::prelude::*;

use vstd::bytes::{lemma_auto_spec_u16_to_from_le_bytes, lemma_auto_spec_u64_to_from_le_bytes,
    spec_u16_from_le_bytes, spec_u16_to_le_bytes, spec_u64_from_le_bytes, spec_u64_to_le_bytes,
    u16_from_le_bytes, u16_to_le_bytes, u64_from_le_bytes, u64_to_le_bytes};
use vstd::utf8::{decode_utf8, encode_utf8, valid_utf8};

use vstd::slice::{slice_subrange, slice_to_vec};

use crate::data::{addr_views, contacts_views, entries_views, rooms_views, Account, AccountV,
    Addr, Contact, ContactV, ContentV, EntryV, HistoryEntry, Identity, IdentityV,
    MessageContent, Room, RoomV};

verus! {

broadcast use vstd::utf8::encode_utf8_valid_utf8, vstd::utf8::encode_utf8_decode_utf8;

/// A byte string prefixed by its length.
pub open spec fn enc_bytes(b: Seq<u8>) -> Seq<u8> {
    spec_u64_to_le_bytes(b.len() as u64) + b
}

/// A text as its length-prefixed UTF-8 bytes.
pub open spec fn enc_str(s: Seq<char>) -> Seq<u8> {
    enc_bytes(encode_utf8(s))
}

/// A message payload: a tag byte, then the text for the known variant.
pub open spec fn enc_content(c: ContentV) -> Seq<u8> {
    match c {
        ContentV::Text(s) => seq![0u8] + enc_str(s),
        ContentV::Unknown => seq![1u8],
    }
}

/// One history entry: sender, timestamp, payload.
pub open spec fn enc_entry(e: EntryV) -> Seq<u8> {
    enc_bytes(e.sender) + (spec_u64_to_le_bytes(e.timestamp) + enc_content(e.msg))
}

/// One contact: address, name.
pub open spec fn enc_contact(c: ContactV) -> Seq<u8> {
    enc_bytes(c.addr) + enc_str(c.name)
}

/// Member addresses, one after the other.
pub open spec fn enc_blobs(l: Seq<Seq<u8>>) -> Seq<u8>
    decreases l.len(),
{
    if l.len() == 0 {
        Seq::empty()
    } else {
        enc_bytes(l[0]) + enc_blobs(l.skip(1))
    }
}

/// History entries, one after the other.
pub open spec fn enc_entries(l: Seq<EntryV>) -> Seq<u8>
    decreases l.len(),
{
    if l.len() == 0 {
        Seq::empty()
    } else {
        enc_entry(l[0]) + enc_entries(l.skip(1))
    }
}

/// Contacts, one after the other.
pub open spec fn enc_contacts(l: Seq<ContactV>) -> Seq<u8>
    decreases l.len(),
{
    if l.len() == 0 {
        Seq::empty()
    } else {
        enc_contact(l[0]) + enc_contacts(l.skip(1))
    }
}

/// One room: id, name, counted members, counted history, unseen count.
pub open spec fn enc_room(r: RoomV) -> Seq<u8> {
    spec_u16_to_le_bytes(r.id) + (enc_str(r.name) + ((spec_u64_to_le_bytes(
        r.members.len() as u64,
    ) + enc_blobs(r.members)) + ((spec_u64_to_le_bytes(r.history.len() as u64) + enc_entries(
        r.history,
    )) + spec_u16_to_le_bytes(r.unseen))))
}

/// Rooms, one after the other.
pub open spec fn enc_rooms(l: Seq<RoomV>) -> Seq<u8>
    decreases l.len(),
{
    if l.len() == 0 {
        Seq::empty()
    } else {
        enc_room(l[0]) + enc_rooms(l.skip(1))
    }
}

/// The local identity: address, secret key material.
pub open spec fn enc_identity(idv: IdentityV) -> Seq<u8> {
    enc_bytes(idv.addr) + enc_bytes(idv.secret)
}

/// A whole account: identity, counted contacts, both ephemeral keys,
/// counted rooms.
pub open spec fn enc_account(a: AccountV) -> Seq<u8> {
    enc_identity(a.account) + ((spec_u64_to_le_bytes(a.contacts.len() as u64) + enc_contacts(
        a.contacts,
    )) + (enc_bytes(a.eph_pub) + (enc_bytes(a.eph_sec) + (spec_u64_to_le_bytes(
        a.rooms.len() as u64,
    ) + enc_rooms(a.rooms)))))
}

/// The u64 read at a position, with the position after it.
pub open spec fn dec_u64(b: Seq<u8>, pos: int) -> Option<(u64, int)> {
    if 0 <= pos && pos + 8 <= b.len() {
        Some((spec_u64_from_le_bytes(b.subrange(pos, pos + 8)), pos + 8))
    } else {
        None
    }
}

/// The u16 read at a position, with the position after it.
pub open spec fn dec_u16(b: Seq<u8>, pos: int) -> Option<(u16, int)> {
    if 0 <= pos && pos + 2 <= b.len() {
        Some((spec_u16_from_le_bytes(b.subrange(pos, pos + 2)), pos + 2))
    } else {
        None
    }
}

/// The length-prefixed byte string read at a position.
pub open spec fn dec_bytes(b: Seq<u8>, pos: int) -> Option<(Seq<u8>, int)> {
    match dec_u64(b, pos) {
        Some((n, p)) => if p + n <= b.len() {
            Some((b.subrange(p, p + n as int), p + n as int))
        } else {
            None
        },
        None => None,
    }
}

/// The length-prefixed text read at a position; its bytes must be valid
/// UTF-8.
pub open spec fn dec_str(b: Seq<u8>, pos: int) -> Option<(Seq<char>, int)> {
    match dec_bytes(b, pos) {
        Some((bs, p)) => if valid_utf8(bs) {
            Some((decode_utf8(bs), p))
        } else {
            None
        },
        None => None,
    }
}

/// The message payload read at a position.
pub open spec fn dec_content(b: Seq<u8>, pos: int) -> Option<(ContentV, int)> {
    if 0 <= pos && pos < b.len() {
        if b[pos] == 0u8 {
            match dec_str(b, pos + 1) {
                Some((s, p)) => Some((ContentV::Text(s), p)),
                None => None,
            }
        } else if b[pos] == 1u8 {
            Some((ContentV::Unknown, pos + 1))
        } else {
            None
        }
    } else {
        None
    }
}

/// The history entry read at a position.
pub open spec fn dec_entry(b: Seq<u8>, pos: int) -> Option<(EntryV, int)> {
    match dec_bytes(b, pos) {
        Some((sender, p1)) => match dec_u64(b, p1) {
            Some((timestamp, p2)) => match dec_content(b, p2) {
                Some((msg, p3)) => Some((EntryV { sender, timestamp, msg }, p3)),
                None => None,
            },
            None => None,
        },
        None => None,
    }
}

/// The contact read at a position.
pub open spec fn dec_contact(b: Seq<u8>, pos: int) -> Option<(ContactV, int)> {
    match dec_bytes(b, pos) {
        Some((addr, p1)) => match dec_str(b, p1) {
            Some((name, p2)) => Some((ContactV { addr, name }, p2)),
            None => None,
        },
        None => None,
    }
}

/// `n` member addresses read one after the other.
pub open spec fn dec_blobs(b: Seq<u8>, pos: int, n: nat) -> Option<(Seq<Seq<u8>>, int)>
    decreases n,
{
    if n == 0 {
        Some((Seq::empty(), pos))
    } else {
        match dec_bytes(b, pos) {
            Some((x, p)) => match dec_blobs(b, p, (n - 1) as nat) {
                Some((xs, e)) => Some((seq![x] + xs, e)),
                None => None,
            },
            None => None,
        }
    }
}

/// `n` history entries read one after the other.
pub open spec fn dec_entries(b: Seq<u8>, pos: int, n: nat) -> Option<(Seq<EntryV>, int)>
    decreases n,
{
    if n == 0 {
        Some((Seq::empty(), pos))
    } else {
        match dec_entry(b, pos) {
            Some((x, p)) => match dec_entries(b, p, (n - 1) as nat) {
                Some((xs, e)) => Some((seq![x] + xs, e)),
                None => None,
            },
            None => None,
        }
    }
}

/// `n` contacts read one after the other.
pub open spec fn dec_contacts(b: Seq<u8>, pos: int, n: nat) -> Option<(Seq<ContactV>, int)>
    decreases n,
{
    if n == 0 {
        Some((Seq::empty(), pos))
    } else {
        match dec_contact(b, pos) {
            Some((x, p)) => match dec_contacts(b, p, (n - 1) as nat) {
                Some((xs, e)) => Some((seq![x] + xs, e)),
                None => None,
            },
            None => None,
        }
    }
}

/// The room read at a position.
pub open spec fn dec_room(b: Seq<u8>, pos: int) -> Option<(RoomV, int)> {
    match dec_u16(b, pos) {
        Some((id, p1)) => match dec_str(b, p1) {
            Some((name, p2)) => match dec_u64(b, p2) {
                Some((nm, p3)) => match dec_blobs(b, p3, nm as nat) {
                    Some((members, p4)) => match dec_u64(b, p4) {
                        Some((nh, p5)) => match dec_entries(b, p5, nh as nat) {
                            Some((history, p6)) => match dec_u16(b, p6) {
                                Some((unseen, p7)) => Some(
                                    (RoomV { id, name, members, history, unseen }, p7),
                                ),
                                None => None,
                            },
                            None => None,
                        },
                        None => None,
                    },
                    None => None,
                },
                None => None,
            },
            None => None,
        },
        None => None,
    }
}

/// `n` rooms read one after the other.
pub open spec fn dec_rooms(b: Seq<u8>, pos: int, n: nat) -> Option<(Seq<RoomV>, int)>
    decreases n,
{
    if n == 0 {
        Some((Seq::empty(), pos))
    } else {
        match dec_room(b, pos) {
            Some((x, p)) => match dec_rooms(b, p, (n - 1) as nat) {
                Some((xs, e)) => Some((seq![x] + xs, e)),
                None => None,
            },
            None => None,
        }
    }
}

/// The local identity read at a position.
pub open spec fn dec_identity(b: Seq<u8>, pos: int) -> Option<(IdentityV, int)> {
    match dec_bytes(b, pos) {
        Some((addr, p1)) => match dec_bytes(b, p1) {
            Some((secret, p2)) => Some((IdentityV { addr, secret }, p2)),
            None => None,
        },
        None => None,
    }
}

/// The account a byte string denotes: every field read in order, with
/// nothing left over; None for any other byte string.
pub open spec fn dec_account(b: Seq<u8>) -> Option<AccountV> {
    match dec_identity(b, 0) {
        Some((identity, p1)) => match dec_u64(b, p1) {
            Some((nc, p2)) => match dec_contacts(b, p2, nc as nat) {
                Some((contacts, p3)) => match dec_bytes(b, p3) {
                    Some((eph_pub, p4)) => match dec_bytes(b, p4) {
                        Some((eph_sec, p5)) => match dec_u64(b, p5) {
                            Some((nr, p6)) => match dec_rooms(b, p6, nr as nat) {
                                Some((rooms, p7)) => if p7 == b.len() {
                                    Some(
                                        AccountV {
                                            account: identity,
                                            contacts,
                                            eph_pub,
                                            eph_sec,
                                            rooms,
                                        },
                                    )
                                } else {
                                    None
                                },
                                None => None,
                            },
                            None => None,
                        },
                        None => None,
                    },
                    None => None,
                },
                None => None,
            },
            None => None,
        },
        None => None,
    }
}

/// A concatenation standing at a position splits into its two parts.
pub proof fn lemma_subrange_split(b: Seq<u8>, pos: int, e1: Seq<u8>, e2: Seq<u8>)
    requires
        0 <= pos,
        pos + e1.len() + e2.len() <= b.len(),
        b.subrange(pos, pos + e1.len() + e2.len()) == e1 + e2,
    ensures
        b.subrange(pos, pos + e1.len() as int) == e1,
        b.subrange(pos + e1.len(), pos + e1.len() + e2.len()) == e2,
{
    let whole = b.subrange(pos, pos + e1.len() + e2.len());
    assert forall|i: int| 0 <= i < e1.len() implies b.subrange(pos, pos + e1.len() as int)[i]
        == e1[i] by {
        assert(whole[i] == (e1 + e2)[i]);
    }
    assert(b.subrange(pos, pos + e1.len() as int) =~= e1);
    assert forall|i: int| 0 <= i < e2.len() implies b.subrange(
        pos + e1.len(),
        pos + e1.len() + e2.len(),
    )[i] == e2[i] by {
        assert(whole[e1.len() + i] == (e1 + e2)[e1.len() + i]);
    }
    assert(b.subrange(pos + e1.len(), pos + e1.len() + e2.len()) =~= e2);
}

/// Reading a u64 where one was written gives it back.
pub proof fn lemma_dec_enc_u64(b: Seq<u8>, pos: int, x: u64)
    requires
        0 <= pos,
        pos + 8 <= b.len(),
        b.subrange(pos, pos + 8) == spec_u64_to_le_bytes(x),
    ensures
        dec_u64(b, pos) == Some((x, pos + 8)),
{
    lemma_auto_spec_u64_to_from_le_bytes();
    assert(spec_u64_to_le_bytes(x).len() == 8);
    assert(spec_u64_from_le_bytes(spec_u64_to_le_bytes(x)) == x);
}

/// Reading a u16 where one was written gives it back.
pub proof fn lemma_dec_enc_u16(b: Seq<u8>, pos: int, x: u16)
    requires
        0 <= pos,
        pos + 2 <= b.len(),
        b.subrange(pos, pos + 2) == spec_u16_to_le_bytes(x),
    ensures
        dec_u16(b, pos) == Some((x, pos + 2)),
{
    lemma_auto_spec_u16_to_from_le_bytes();
    assert(spec_u16_to_le_bytes(x).len() == 2);
    assert(spec_u16_from_le_bytes(spec_u16_to_le_bytes(x)) == x);
}

/// Reading a byte string where one was written gives it back.
pub proof fn lemma_dec_enc_bytes(b: Seq<u8>, pos: int, v: Seq<u8>)
    requires
        0 <= pos,
        v.len() <= u64::MAX,
        pos + enc_bytes(v).len() <= b.len(),
        b.subrange(pos, pos + enc_bytes(v).len()) == enc_bytes(v),
    ensures
        dec_bytes(b, pos) == Some((v, pos + enc_bytes(v).len())),
{
    lemma_auto_spec_u64_to_from_le_bytes();
    let lenb = spec_u64_to_le_bytes(v.len() as u64);
    lemma_subrange_split(b, pos, lenb, v);
    lemma_dec_enc_u64(b, pos, v.len() as u64);
}

/// Reading a text where one was written gives it back.
pub proof fn lemma_dec_enc_str(b: Seq<u8>, pos: int, s: Seq<char>)
    requires
        0 <= pos,
        encode_utf8(s).len() <= u64::MAX,
        pos + enc_str(s).len() <= b.len(),
        b.subrange(pos, pos + enc_str(s).len()) == enc_str(s),
    ensures
        dec_str(b, pos) == Some((s, pos + enc_str(s).len())),
{
    lemma_dec_enc_bytes(b, pos, encode_utf8(s));
    assert(valid_utf8(encode_utf8(s)));
    assert(decode_utf8(encode_utf8(s)) == s);
}

/// Whether a payload's text fits a length prefix.
pub open spec fn bounded_content(c: ContentV) -> bool {
    match c {
        ContentV::Text(s) => encode_utf8(s).len() <= u64::MAX,
        ContentV::Unknown => true,
    }
}

/// Reading a payload where one was written gives it back.
pub proof fn lemma_dec_enc_content(b: Seq<u8>, pos: int, c: ContentV)
    requires
        0 <= pos,
        bounded_content(c),
        pos + enc_content(c).len() <= b.len(),
        b.subrange(pos, pos + enc_content(c).len()) == enc_content(c),
    ensures
        dec_content(b, pos) == Some((c, pos + enc_content(c).len())),
{
    match c {
        ContentV::Text(s) => {
            let tag = seq![0u8];
            lemma_subrange_split(b, pos, tag, enc_str(s));
            assert(b[pos] == b.subrange(pos, pos + 1)[0]);
            assert(b[pos] == 0u8);
            lemma_dec_enc_str(b, pos + 1, s);
        },
        ContentV::Unknown => {
            assert(b[pos] == b.subrange(pos, pos + 1)[0]);
            assert(b[pos] == 1u8);
        },
    }
}

/// Whether an entry's fields fit their length prefixes.
pub open spec fn bounded_entry(e: EntryV) -> bool {
    e.sender.len() <= u64::MAX && bounded_content(e.msg)
}

/// Whether a contact's fields fit their length prefixes.
pub open spec fn bounded_contact(c: ContactV) -> bool {
    c.addr.len() <= u64::MAX && encode_utf8(c.name).len() <= u64::MAX
}

/// Whether a room's fields and lists fit their length prefixes.
pub open spec fn bounded_room(r: RoomV) -> bool {
    &&& encode_utf8(r.name).len() <= u64::MAX
    &&& r.members.len() <= u64::MAX
    &&& forall|i: int| 0 <= i < r.members.len() ==> (#[trigger] r.members[i]).len() <= u64::MAX
    &&& r.history.len() <= u64::MAX
    &&& forall|i: int| 0 <= i < r.history.len() ==> bounded_entry(#[trigger] r.history[i])
}

/// Whether an account's fields and lists fit their length prefixes.
pub open spec fn bounded_account(a: AccountV) -> bool {
    &&& a.account.addr.len() <= u64::MAX
    &&& a.account.secret.len() <= u64::MAX
    &&& a.contacts.len() <= u64::MAX
    &&& forall|i: int| 0 <= i < a.contacts.len() ==> bounded_contact(#[trigger] a.contacts[i])
    &&& a.eph_pub.len() <= u64::MAX
    &&& a.eph_sec.len() <= u64::MAX
    &&& a.rooms.len() <= u64::MAX
    &&& forall|i: int| 0 <= i < a.rooms.len() ==> bounded_room(#[trigger] a.rooms[i])
}

/// Reading an entry where one was written gives it back.
pub proof fn lemma_dec_enc_entry(b: Seq<u8>, pos: int, e: EntryV)
    requires
        0 <= pos,
        bounded_entry(e),
        pos + enc_entry(e).len() <= b.len(),
        b.subrange(pos, pos + enc_entry(e).len()) == enc_entry(e),
    ensures
        dec_entry(b, pos) == Some((e, pos + enc_entry(e).len())),
{
    lemma_auto_spec_u64_to_from_le_bytes();
    let e1 = enc_bytes(e.sender);
    let e2 = spec_u64_to_le_bytes(e.timestamp) + enc_content(e.msg);
    lemma_subrange_split(b, pos, e1, e2);
    lemma_dec_enc_bytes(b, pos, e.sender);
    let p1 = pos + e1.len();
    lemma_subrange_split(b, p1, spec_u64_to_le_bytes(e.timestamp), enc_content(e.msg));
    lemma_dec_enc_u64(b, p1, e.timestamp);
    lemma_dec_enc_content(b, p1 + 8, e.msg);
}

/// Reading a contact where one was written gives it back.
pub proof fn lemma_dec_enc_contact(b: Seq<u8>, pos: int, c: ContactV)
    requires
        0 <= pos,
        bounded_contact(c),
        pos + enc_contact(c).len() <= b.len(),
        b.subrange(pos, pos + enc_contact(c).len()) == enc_contact(c),
    ensures
        dec_contact(b, pos) == Some((c, pos + enc_contact(c).len())),
{
    let e1 = enc_bytes(c.addr);
    lemma_subrange_split(b, pos, e1, enc_str(c.name));
    lemma_dec_enc_bytes(b, pos, c.addr);
    lemma_dec_enc_str(b, pos + e1.len(), c.name);
}

/// Reading member addresses where they were written gives them back.
pub proof fn lemma_dec_enc_blobs(b: Seq<u8>, pos: int, l: Seq<Seq<u8>>)
    requires
        0 <= pos,
        forall|i: int| 0 <= i < l.len() ==> (#[trigger] l[i]).len() <= u64::MAX,
        pos + enc_blobs(l).len() <= b.len(),
        b.subrange(pos, pos + enc_blobs(l).len()) == enc_blobs(l),
    ensures
        dec_blobs(b, pos, l.len()) == Some((l, pos + enc_blobs(l).len())),
    decreases l.len(),
{
    if l.len() == 0 {
        assert(l =~= Seq::<Seq<u8>>::empty());
    } else {
        let e1 = enc_bytes(l[0]);
        let rest = l.skip(1);
        lemma_subrange_split(b, pos, e1, enc_blobs(rest));
        lemma_dec_enc_bytes(b, pos, l[0]);
        assert forall|i: int| 0 <= i < rest.len() implies (#[trigger] rest[i]).len()
            <= u64::MAX by {
            assert(rest[i] == l[i + 1]);
        }
        lemma_dec_enc_blobs(b, pos + e1.len(), rest);
        assert(seq![l[0]] + rest =~= l);
    }
}

/// Reading history entries where they were written gives them back.
pub proof fn lemma_dec_enc_entries(b: Seq<u8>, pos: int, l: Seq<EntryV>)
    requires
        0 <= pos,
        forall|i: int| 0 <= i < l.len() ==> bounded_entry(#[trigger] l[i]),
        pos + enc_entries(l).len() <= b.len(),
        b.subrange(pos, pos + enc_entries(l).len()) == enc_entries(l),
    ensures
        dec_entries(b, pos, l.len()) == Some((l, pos + enc_entries(l).len())),
    decreases l.len(),
{
    if l.len() == 0 {
        assert(l =~= Seq::<EntryV>::empty());
    } else {
        let e1 = enc_entry(l[0]);
        let rest = l.skip(1);
        lemma_subrange_split(b, pos, e1, enc_entries(rest));
        lemma_dec_enc_entry(b, pos, l[0]);
        assert forall|i: int| 0 <= i < rest.len() implies bounded_entry(#[trigger] rest[i]) by {
            assert(rest[i] == l[i + 1]);
        }
        lemma_dec_enc_entries(b, pos + e1.len(), rest);
        assert(seq![l[0]] + rest =~= l);
    }
}

/// Reading contacts where they were written gives them back.
pub proof fn lemma_dec_enc_contacts(b: Seq<u8>, pos: int, l: Seq<ContactV>)
    requires
        0 <= pos,
        forall|i: int| 0 <= i < l.len() ==> bounded_contact(#[trigger] l[i]),
        pos + enc_contacts(l).len() <= b.len(),
        b.subrange(pos, pos + enc_contacts(l).len()) == enc_contacts(l),
    ensures
        dec_contacts(b, pos, l.len()) == Some((l, pos + enc_contacts(l).len())),
    decreases l.len(),
{
    if l.len() == 0 {
        assert(l =~= Seq::<ContactV>::empty());
    } else {
        let e1 = enc_contact(l[0]);
        let rest = l.skip(1);
        lemma_subrange_split(b, pos, e1, enc_contacts(rest));
        lemma_dec_enc_contact(b, pos, l[0]);
        assert forall|i: int| 0 <= i < rest.len() implies bounded_contact(
            #[trigger] rest[i]) by {
            assert(rest[i] == l[i + 1]);
        }
        lemma_dec_enc_contacts(b, pos + e1.len(), rest);
        assert(seq![l[0]] + rest =~= l);
    }
}

/// Reading a room where one was written gives it back.
pub proof fn lemma_dec_enc_room(b: Seq<u8>, pos: int, r: RoomV)
    requires
        0 <= pos,
        bounded_room(r),
        pos + enc_room(r).len() <= b.len(),
        b.subrange(pos, pos + enc_room(r).len()) == enc_room(r),
    ensures
        dec_room(b, pos) == Some((r, pos + enc_room(r).len())),
{
    lemma_auto_spec_u16_to_from_le_bytes();
    lemma_auto_spec_u64_to_from_le_bytes();
    let a = spec_u16_to_le_bytes(r.id);
    let bn = enc_str(r.name);
    let cm = spec_u64_to_le_bytes(r.members.len() as u64) + enc_blobs(r.members);
    let dh = spec_u64_to_le_bytes(r.history.len() as u64) + enc_entries(r.history);
    let eu = spec_u16_to_le_bytes(r.unseen);
    lemma_subrange_split(b, pos, a, bn + (cm + (dh + eu)));
    lemma_dec_enc_u16(b, pos, r.id);
    let p1 = pos + a.len();
    lemma_subrange_split(b, p1, bn, cm + (dh + eu));
    lemma_dec_enc_str(b, p1, r.name);
    let p2 = p1 + bn.len();
    lemma_subrange_split(b, p2, cm, dh + eu);
    lemma_subrange_split(b, p2, spec_u64_to_le_bytes(r.members.len() as u64), enc_blobs(
        r.members));
    lemma_dec_enc_u64(b, p2, r.members.len() as u64);
    lemma_dec_enc_blobs(b, p2 + 8, r.members);
    let p4 = p2 + cm.len();
    lemma_subrange_split(b, p4, dh, eu);
    lemma_subrange_split(b, p4, spec_u64_to_le_bytes(r.history.len() as u64), enc_entries(
        r.history));
    lemma_dec_enc_u64(b, p4, r.history.len() as u64);
    lemma_dec_enc_entries(b, p4 + 8, r.history);
    let p6 = p4 + dh.len();
    lemma_dec_enc_u16(b, p6, r.unseen);
}

/// Reading rooms where they were written gives them back.
pub proof fn lemma_dec_enc_rooms(b: Seq<u8>, pos: int, l: Seq<RoomV>)
    requires
        0 <= pos,
        forall|i: int| 0 <= i < l.len() ==> bounded_room(#[trigger] l[i]),
        pos + enc_rooms(l).len() <= b.len(),
        b.subrange(pos, pos + enc_rooms(l).len()) == enc_rooms(l),
    ensures
        dec_rooms(b, pos, l.len()) == Some((l, pos + enc_rooms(l).len())),
    decreases l.len(),
{
    if l.len() == 0 {
        assert(l =~= Seq::<RoomV>::empty());
    } else {
        let e1 = enc_room(l[0]);
        let rest = l.skip(1);
        lemma_subrange_split(b, pos, e1, enc_rooms(rest));
        lemma_dec_enc_room(b, pos, l[0]);
        assert forall|i: int| 0 <= i < rest.len() implies bounded_room(#[trigger] rest[i]) by {
            assert(rest[i] == l[i + 1]);
        }
        lemma_dec_enc_rooms(b, pos + e1.len(), rest);
        assert(seq![l[0]] + rest =~= l);
    }
}

/// Decoding the encoding of any account gives that account back: what
/// is saved is exactly what a later load yields.
#[verifier::rlimit(60)]
pub proof fn lemma_account_round_trip(a: AccountV)
    requires
        bounded_account(a),
    ensures
        dec_account(enc_account(a)) == Some(a),
{
    lemma_auto_spec_u64_to_from_le_bytes();
    let b = enc_account(a);
    let eid = enc_identity(a.account);
    let ecs = spec_u64_to_le_bytes(a.contacts.len() as u64) + enc_contacts(a.contacts);
    let epk = enc_bytes(a.eph_pub);
    let esk = enc_bytes(a.eph_sec);
    let ers = spec_u64_to_le_bytes(a.rooms.len() as u64) + enc_rooms(a.rooms);
    assert(b.subrange(0, b.len() as int) =~= b);
    lemma_subrange_split(b, 0, eid, ecs + (epk + (esk + ers)));
    lemma_subrange_split(b, 0, enc_bytes(a.account.addr), enc_bytes(a.account.secret));
    lemma_dec_enc_bytes(b, 0, a.account.addr);
    lemma_dec_enc_bytes(b, 0 + enc_bytes(a.account.addr).len() as int, a.account.secret);
    let p1 = eid.len() as int;
    lemma_subrange_split(b, p1, ecs, epk + (esk + ers));
    lemma_subrange_split(b, p1, spec_u64_to_le_bytes(a.contacts.len() as u64), enc_contacts(
        a.contacts));
    lemma_dec_enc_u64(b, p1, a.contacts.len() as u64);
    lemma_dec_enc_contacts(b, p1 + 8, a.contacts);
    let p3 = p1 + ecs.len();
    lemma_subrange_split(b, p3, epk, esk + ers);
    lemma_dec_enc_bytes(b, p3, a.eph_pub);
    let p4 = p3 + epk.len();
    lemma_subrange_split(b, p4, esk, ers);
    lemma_dec_enc_bytes(b, p4, a.eph_sec);
    let p5 = p4 + esk.len();
    lemma_subrange_split(b, p5, spec_u64_to_le_bytes(a.rooms.len() as u64), enc_rooms(a.rooms));
    lemma_dec_enc_u64(b, p5, a.rooms.len() as u64);
    lemma_dec_enc_rooms(b, p5 + 8, a.rooms);
}

/// Appending an address to a member list appends its encoding.
proof fn lemma_enc_blobs_snoc(l: Seq<Seq<u8>>, x: Seq<u8>)
    ensures
        enc_blobs(l.push(x)) == enc_blobs(l) + enc_bytes(x),
    decreases l.len(),
{
    if l.len() == 0 {
        assert(l.push(x).skip(1) =~= Seq::<Seq<u8>>::empty());
        assert(enc_blobs(Seq::<Seq<u8>>::empty()) =~= Seq::<u8>::empty());
        assert(l =~= Seq::<Seq<u8>>::empty());
        assert(enc_blobs(l.push(x)) =~= enc_blobs(l) + enc_bytes(x));
    } else {
        assert(l.push(x).skip(1) =~= l.skip(1).push(x));
        lemma_enc_blobs_snoc(l.skip(1), x);
        assert(enc_blobs(l.push(x)) =~= enc_blobs(l) + enc_bytes(x));
    }
}

/// Appending an entry to a history appends its encoding.
proof fn lemma_enc_entries_snoc(l: Seq<EntryV>, x: EntryV)
    ensures
        enc_entries(l.push(x)) == enc_entries(l) + enc_entry(x),
    decreases l.len(),
{
    if l.len() == 0 {
        assert(l.push(x).skip(1) =~= Seq::<EntryV>::empty());
        assert(enc_entries(Seq::<EntryV>::empty()) =~= Seq::<u8>::empty());
        assert(l =~= Seq::<EntryV>::empty());
        assert(enc_entries(l.push(x)) =~= enc_entries(l) + enc_entry(x));
    } else {
        assert(l.push(x).skip(1) =~= l.skip(1).push(x));
        lemma_enc_entries_snoc(l.skip(1), x);
        assert(enc_entries(l.push(x)) =~= enc_entries(l) + enc_entry(x));
    }
}

/// Appending a contact to a directory appends its encoding.
proof fn lemma_enc_contacts_snoc(l: Seq<ContactV>, x: ContactV)
    ensures
        enc_contacts(l.push(x)) == enc_contacts(l) + enc_contact(x),
    decreases l.len(),
{
    if l.len() == 0 {
        assert(l.push(x).skip(1) =~= Seq::<ContactV>::empty());
        assert(enc_contacts(Seq::<ContactV>::empty()) =~= Seq::<u8>::empty());
        assert(l =~= Seq::<ContactV>::empty());
        assert(enc_contacts(l.push(x)) =~= enc_contacts(l) + enc_contact(x));
    } else {
        assert(l.push(x).skip(1) =~= l.skip(1).push(x));
        lemma_enc_contacts_snoc(l.skip(1), x);
        assert(enc_contacts(l.push(x)) =~= enc_contacts(l) + enc_contact(x));
    }
}

/// Appending a room to a room list appends its encoding.
proof fn lemma_enc_rooms_snoc(l: Seq<RoomV>, x: RoomV)
    ensures
        enc_rooms(l.push(x)) == enc_rooms(l) + enc_room(x),
    decreases l.len(),
{
    if l.len() == 0 {
        assert(l.push(x).skip(1) =~= Seq::<RoomV>::empty());
        assert(enc_rooms(Seq::<RoomV>::empty()) =~= Seq::<u8>::empty());
        assert(l =~= Seq::<RoomV>::empty());
        assert(enc_rooms(l.push(x)) =~= enc_rooms(l) + enc_room(x));
    } else {
        assert(l.push(x).skip(1) =~= l.skip(1).push(x));
        lemma_enc_rooms_snoc(l.skip(1), x);
        assert(enc_rooms(l.push(x)) =~= enc_rooms(l) + enc_room(x));
    }
}

/// Append a u64 in little-endian order.
fn write_u64(out: &mut Vec<u8>, x: u64)
    ensures
        final(out)@ == old(out)@ + spec_u64_to_le_bytes(x),
{
    let mut v = u64_to_le_bytes(x);
    out.append(&mut v);
}

/// Append a u16 in little-endian order.
fn write_u16(out: &mut Vec<u8>, x: u16)
    ensures
        final(out)@ == old(out)@ + spec_u16_to_le_bytes(x),
{
    let mut v = u16_to_le_bytes(x);
    out.append(&mut v);
}

/// Append a length-prefixed byte string.
fn write_bytes(out: &mut Vec<u8>, b: &Vec<u8>)
    ensures
        final(out)@ == old(out)@ + enc_bytes(b@),
{
    write_u64(out, b.len() as u64);
    out.extend_from_slice(b.as_slice());
    proof {
        assert(out@ =~= old(out)@ + enc_bytes(b@));
    }
}

/// Append a length-prefixed text in UTF-8.
fn write_str(out: &mut Vec<u8>, s: &String)
    ensures
        final(out)@ == old(out)@ + enc_str(s@),
{
    let bs = s.as_str().as_bytes_vec();
    write_u64(out, bs.len() as u64);
    out.extend_from_slice(bs.as_slice());
    proof {
        assert(out@ =~= old(out)@ + enc_str(s@));
    }
}

/// Append a tagged message payload.
fn write_content(out: &mut Vec<u8>, c: &MessageContent)
    ensures
        final(out)@ == old(out)@ + enc_content(c@),
{
    match c {
        MessageContent::Text(s) => {
            out.push(0u8);
            write_str(out, s);
            proof {
                assert(out@ =~= old(out)@ + enc_content(c@));
            }
        },
        MessageContent::Unknown => {
            out.push(1u8);
            proof {
                assert(out@ =~= old(out)@ + enc_content(c@));
            }
        },
    }
}

/// Append one history entry.
fn write_entry(out: &mut Vec<u8>, e: &HistoryEntry)
    ensures
        final(out)@ == old(out)@ + enc_entry(e@),
{
    write_bytes(out, &e.sender.bytes);
    write_u64(out, e.timestamp);
    write_content(out, &e.msg);
    proof {
        assert(out@ =~= old(out)@ + enc_entry(e@));
    }
}

/// Append one contact.
fn write_contact(out: &mut Vec<u8>, c: &Contact)
    ensures
        final(out)@ == old(out)@ + enc_contact(c@),
{
    write_bytes(out, &c.addr.bytes);
    write_str(out, &c.name);
    proof {
        assert(out@ =~= old(out)@ + enc_contact(c@));
    }
}

/// Append one room.
fn write_room(out: &mut Vec<u8>, r: &Room)
    ensures
        final(out)@ == old(out)@ + enc_room(r@),
{
    write_u16(out, r.id);
    write_str(out, &r.name);
    write_u64(out, r.members.len() as u64);
    let nm = r.members.len();
    let mut i: usize = 0;
    let ghost base_m = out@;
    proof {
        assert(enc_blobs(addr_views(r.members@).take(0)) =~= Seq::<u8>::empty());
        assert(out@ =~= base_m + enc_blobs(addr_views(r.members@).take(0)));
    }
    while i < nm
        invariant
            nm == r.members@.len(),
            0 <= i <= nm,
            out@ == base_m + enc_blobs(addr_views(r.members@).take(i as int)),
        decreases nm - i,
    {
        write_bytes(out, &r.members[i].bytes);
        proof {
            let mv = addr_views(r.members@);
            lemma_enc_blobs_snoc(mv.take(i as int), mv[i as int]);
            assert(mv.take(i + 1) =~= mv.take(i as int).push(mv[i as int]));
            assert(out@ =~= base_m + enc_blobs(mv.take(i + 1)));
        }
        i = i + 1;
    }
    proof {
        assert(addr_views(r.members@).take(nm as int) =~= addr_views(r.members@));
    }
    write_u64(out, r.history.len() as u64);
    let nh = r.history.len();
    let mut j: usize = 0;
    let ghost base_h = out@;
    proof {
        assert(enc_entries(entries_views(r.history@).take(0)) =~= Seq::<u8>::empty());
        assert(out@ =~= base_h + enc_entries(entries_views(r.history@).take(0)));
    }
    while j < nh
        invariant
            nh == r.history@.len(),
            0 <= j <= nh,
            out@ == base_h + enc_entries(entries_views(r.history@).take(j as int)),
        decreases nh - j,
    {
        write_entry(out, &r.history[j]);
        proof {
            let hv = entries_views(r.history@);
            lemma_enc_entries_snoc(hv.take(j as int), hv[j as int]);
            assert(hv.take(j + 1) =~= hv.take(j as int).push(hv[j as int]));
            assert(out@ =~= base_h + enc_entries(hv.take(j + 1)));
        }
        j = j + 1;
    }
    proof {
        assert(entries_views(r.history@).take(nh as int) =~= entries_views(r.history@));
    }
    write_u16(out, r.unseen);
    proof {
        assert(out@ =~= old(out)@ + enc_room(r@));
    }
}

/// Encode a whole account into the bytes that `decode_account` reads.
pub fn encode_account(account: &Account) -> (out: Vec<u8>)
    ensures
        out@ == enc_account(account@),
{
    let mut out: Vec<u8> = Vec::new();
    write_bytes(&mut out, &account.account.addr.bytes);
    write_bytes(&mut out, &account.account.secret);
    write_u64(&mut out, account.contacts.len() as u64);
    let nc = account.contacts.len();
    let mut i: usize = 0;
    let ghost base_c = out@;
    proof {
        assert(enc_contacts(contacts_views(account.contacts@).take(0)) =~= Seq::<u8>::empty());
        assert(out@ =~= base_c + enc_contacts(contacts_views(account.contacts@).take(0)));
    }
    while i < nc
        invariant
            nc == account.contacts@.len(),
            0 <= i <= nc,
            out@ == base_c + enc_contacts(contacts_views(account.contacts@).take(i as int)),
        decreases nc - i,
    {
        write_contact(&mut out, &account.contacts[i]);
        proof {
            let cv = contacts_views(account.contacts@);
            lemma_enc_contacts_snoc(cv.take(i as int), cv[i as int]);
            assert(cv.take(i + 1) =~= cv.take(i as int).push(cv[i as int]));
            assert(out@ =~= base_c + enc_contacts(cv.take(i + 1)));
        }
        i = i + 1;
    }
    proof {
        assert(contacts_views(account.contacts@).take(nc as int) =~= contacts_views(
            account.contacts@));
    }
    write_bytes(&mut out, &account.eph_pub);
    write_bytes(&mut out, &account.eph_sec);
    write_u64(&mut out, account.rooms.len() as u64);
    let nr = account.rooms.len();
    let mut j: usize = 0;
    let ghost base_r = out@;
    proof {
        assert(enc_rooms(rooms_views(account.rooms@).take(0)) =~= Seq::<u8>::empty());
        assert(out@ =~= base_r + enc_rooms(rooms_views(account.rooms@).take(0)));
    }
    while j < nr
        invariant
            nr == account.rooms@.len(),
            0 <= j <= nr,
            out@ == base_r + enc_rooms(rooms_views(account.rooms@).take(j as int)),
        decreases nr - j,
    {
        write_room(&mut out, &account.rooms[j]);
        proof {
            let rv = rooms_views(account.rooms@);
            lemma_enc_rooms_snoc(rv.take(j as int), rv[j as int]);
            assert(rv.take(j + 1) =~= rv.take(j as int).push(rv[j as int]));
            assert(out@ =~= base_r + enc_rooms(rv.take(j + 1)));
        }
        j = j + 1;
    }
    proof {
        assert(rooms_views(account.rooms@).take(nr as int) =~= rooms_views(account.rooms@));
        assert(out@ =~= enc_account(account@));
    }
    out
}

/// Relies on std's str::from_utf8: it accepts exactly the valid UTF-8
/// byte strings and decodes them to the characters that encode them.
#[verifier::external_body]
fn utf8_to_string(v: &Vec<u8>) -> (r: Option<String>)
    ensures
        r is Some <==> valid_utf8(v@),
        r matches Some(s) ==> s@ == decode_utf8(v@),
{
    match core::str::from_utf8(v.as_slice()) {
        Ok(s) => Some(s.to_string()),
        Err(_) => None,
    }
}

/// Read a u64, as `dec_u64` names it.
fn read_u64(b: &Vec<u8>, pos: usize) -> (r: Option<(u64, usize)>)
    ensures
        match r {
            Some(t) => dec_u64(b@, pos as int) == Some((t.0, t.1 as int)) && t.1 <= b@.len(),
            None => dec_u64(b@, pos as int) is None,
        },
{
    if b.len() >= 8 && pos <= b.len() - 8 {
        let s = slice_subrange(b.as_slice(), pos, pos + 8);
        let x = u64_from_le_bytes(s);
        Some((x, pos + 8))
    } else {
        None
    }
}

/// Read a u16, as `dec_u16` names it.
fn read_u16(b: &Vec<u8>, pos: usize) -> (r: Option<(u16, usize)>)
    ensures
        match r {
            Some(t) => dec_u16(b@, pos as int) == Some((t.0, t.1 as int)) && t.1 <= b@.len(),
            None => dec_u16(b@, pos as int) is None,
        },
{
    if b.len() >= 2 && pos <= b.len() - 2 {
        let s = slice_subrange(b.as_slice(), pos, pos + 2);
        let x = u16_from_le_bytes(s);
        Some((x, pos + 2))
    } else {
        None
    }
}

/// Read a length-prefixed byte string, as `dec_bytes` names it.
fn read_bytes(b: &Vec<u8>, pos: usize) -> (r: Option<(Vec<u8>, usize)>)
    ensures
        match r {
            Some(t) => dec_bytes(b@, pos as int) == Some((t.0@, t.1 as int)) && t.1 <= b@.len(),
            None => dec_bytes(b@, pos as int) is None,
        },
{
    match read_u64(b, pos) {
        Some((n, p)) => {
            if n <= (b.len() - p) as u64 {
                let m = n as usize;
                let s = slice_subrange(b.as_slice(), p, p + m);
                let v = slice_to_vec(s);
                Some((v, p + m))
            } else {
                None
            }
        },
        None => None,
    }
}

/// Read a length-prefixed text, as `dec_str` names it.
fn read_str(b: &Vec<u8>, pos: usize) -> (r: Option<(String, usize)>)
    ensures
        match r {
            Some(t) => dec_str(b@, pos as int) == Some((t.0@, t.1 as int)) && t.1 <= b@.len(),
            None => dec_str(b@, pos as int) is None,
        },
{
    match read_bytes(b, pos) {
        Some((bs, p)) => match utf8_to_string(&bs) {
            Some(s) => Some((s, p)),
            None => None,
        },
        None => None,
    }
}

/// Read a tagged message payload, as `dec_content` names it.
fn read_content(b: &Vec<u8>, pos: usize) -> (r: Option<(MessageContent, usize)>)
    ensures
        match r {
            Some(t) => dec_content(b@, pos as int) == Some((t.0@, t.1 as int)) && t.1
                <= b@.len(),
            None => dec_content(b@, pos as int) is None,
        },
{
    if pos < b.len() {
        let tag = b[pos];
        if tag == 0 {
            match read_str(b, pos + 1) {
                Some((s, p)) => Some((MessageContent::Text(s), p)),
                None => None,
            }
        } else if tag == 1 {
            Some((MessageContent::Unknown, pos + 1))
        } else {
            None
        }
    } else {
        None
    }
}

/// Read one history entry, as `dec_entry` names it.
fn read_entry(b: &Vec<u8>, pos: usize) -> (r: Option<(HistoryEntry, usize)>)
    ensures
        match r {
            Some(t) => dec_entry(b@, pos as int) == Some((t.0@, t.1 as int)) && t.1 <= b@.len(),
            None => dec_entry(b@, pos as int) is None,
        },
{
    match read_bytes(b, pos) {
        Some((sender, p1)) => match read_u64(b, p1) {
            Some((timestamp, p2)) => match read_content(b, p2) {
                Some((msg, p3)) => Some(
                    (HistoryEntry { sender: Addr { bytes: sender }, timestamp, msg }, p3),
                ),
                None => None,
            },
            None => None,
        },
        None => None,
    }
}

/// Read one contact, as `dec_contact` names it.
fn read_contact(b: &Vec<u8>, pos: usize) -> (r: Option<(Contact, usize)>)
    ensures
        match r {
            Some(t) => dec_contact(b@, pos as int) == Some((t.0@, t.1 as int)) && t.1
                <= b@.len(),
            None => dec_contact(b@, pos as int) is None,
        },
{
    match read_bytes(b, pos) {
        Some((addr, p1)) => match read_str(b, p1) {
            Some((name, p2)) => Some((Contact { addr: Addr { bytes: addr }, name }, p2)),
            None => None,
        },
        None => None,
    }
}

/// Read `n` member addresses, as `dec_blobs` names them.
fn read_blobs(b: &Vec<u8>, pos: usize, n: u64) -> (r: Option<(Vec<Addr>, usize)>)
    ensures
        match r {
            Some(t) => dec_blobs(b@, pos as int, n as nat) == Some(
                (addr_views(t.0@), t.1 as int),
            ),
            None => dec_blobs(b@, pos as int, n as nat) is None,
        },
{
    let mut acc: Vec<Addr> = Vec::new();
    let mut p = pos;
    let mut k: u64 = 0;
    proof {
        assert(addr_views(acc@) =~= Seq::<Seq<u8>>::empty());
    }
    while k < n
        invariant
            0 <= k <= n,
            k > 0 ==> p <= b@.len(),
            dec_blobs(b@, pos as int, n as nat) == (match dec_blobs(
                b@,
                p as int,
                (n - k) as nat,
            ) {
                Some(t2) => Some((addr_views(acc@) + t2.0, t2.1)),
                None => None::<(Seq<Seq<u8>>, int)>,
            }),
        decreases n - k,
    {
        match read_bytes(b, p) {
            Some((bytes, p2)) => {
                let ghost acc0 = addr_views(acc@);
                acc.push(Addr { bytes });
                proof {
                    assert(addr_views(acc@) =~= acc0.push(acc@.last()@));
                    assert forall|xs: Seq<Seq<u8>>| acc0.push(acc@.last()@) + xs =~= acc0 + (seq![
                        acc@.last()@,
                    ] + xs) by {}
                }
                p = p2;
                k = k + 1;
            },
            None => {
                return None;
            },
        }
    }
    proof {
        assert(addr_views(acc@) + Seq::<Seq<u8>>::empty() =~= addr_views(acc@));
    }
    Some((acc, p))
}

/// Read `n` history entries, as `dec_entries` names them.
fn read_entries(b: &Vec<u8>, pos: usize, n: u64) -> (r: Option<(Vec<HistoryEntry>, usize)>)
    ensures
        match r {
            Some(t) => dec_entries(b@, pos as int, n as nat) == Some(
                (entries_views(t.0@), t.1 as int),
            ),
            None => dec_entries(b@, pos as int, n as nat) is None,
        },
{
    let mut acc: Vec<HistoryEntry> = Vec::new();
    let mut p = pos;
    let mut k: u64 = 0;
    proof {
        assert(entries_views(acc@) =~= Seq::<EntryV>::empty());
    }
    while k < n
        invariant
            0 <= k <= n,
            k > 0 ==> p <= b@.len(),
            dec_entries(b@, pos as int, n as nat) == (match dec_entries(
                b@,
                p as int,
                (n - k) as nat,
            ) {
                Some(t2) => Some((entries_views(acc@) + t2.0, t2.1)),
                None => None::<(Seq<EntryV>, int)>,
            }),
        decreases n - k,
    {
        match read_entry(b, p) {
            Some((e, p2)) => {
                let ghost acc0 = entries_views(acc@);
                acc.push(e);
                proof {
                    assert(entries_views(acc@) =~= acc0.push(acc@.last()@));
                    assert forall|xs: Seq<EntryV>| acc0.push(acc@.last()@) + xs =~= acc0 + (seq![
                        acc@.last()@,
                    ] + xs) by {}
                }
                p = p2;
                k = k + 1;
            },
            None => {
                return None;
            },
        }
    }
    proof {
        assert(entries_views(acc@) + Seq::<EntryV>::empty() =~= entries_views(acc@));
    }
    Some((acc, p))
}

/// Read `n` contacts, as `dec_contacts` names them.
fn read_contacts(b: &Vec<u8>, pos: usize, n: u64) -> (r: Option<(Vec<Contact>, usize)>)
    ensures
        match r {
            Some(t) => dec_contacts(b@, pos as int, n as nat) == Some(
                (contacts_views(t.0@), t.1 as int),
            ),
            None => dec_contacts(b@, pos as int, n as nat) is None,
        },
{
    let mut acc: Vec<Contact> = Vec::new();
    let mut p = pos;
    let mut k: u64 = 0;
    proof {
        assert(contacts_views(acc@) =~= Seq::<ContactV>::empty());
    }
    while k < n
        invariant
            0 <= k <= n,
            k > 0 ==> p <= b@.len(),
            dec_contacts(b@, pos as int, n as nat) == (match dec_contacts(
                b@,
                p as int,
                (n - k) as nat,
            ) {
                Some(t2) => Some((contacts_views(acc@) + t2.0, t2.1)),
                None => None::<(Seq<ContactV>, int)>,
            }),
        decreases n - k,
    {
        match read_contact(b, p) {
            Some((c, p2)) => {
                let ghost acc0 = contacts_views(acc@);
                acc.push(c);
                proof {
                    assert(contacts_views(acc@) =~= acc0.push(acc@.last()@));
                    assert forall|xs: Seq<ContactV>| acc0.push(acc@.last()@) + xs =~= acc0 + (
                    seq![acc@.last()@] + xs) by {}
                }
                p = p2;
                k = k + 1;
            },
            None => {
                return None;
            },
        }
    }
    proof {
        assert(contacts_views(acc@) + Seq::<ContactV>::empty() =~= contacts_views(acc@));
    }
    Some((acc, p))
}

/// Read one room, as `dec_room` names it.
fn read_room(b: &Vec<u8>, pos: usize) -> (r: Option<(Room, usize)>)
    ensures
        match r {
            Some(t) => dec_room(b@, pos as int) == Some((t.0@, t.1 as int)) && t.1 <= b@.len(),
            None => dec_room(b@, pos as int) is None,
        },
{
    let (id, p1) = match read_u16(b, pos) {
        Some(t) => t,
        None => {
            return None;
        },
    };
    let (name, p2) = match read_str(b, p1) {
        Some(t) => t,
        None => {
            return None;
        },
    };
    let (nm, p3) = match read_u64(b, p2) {
        Some(t) => t,
        None => {
            return None;
        },
    };
    let (members, p4) = match read_blobs(b, p3, nm) {
        Some(t) => t,
        None => {
            return None;
        },
    };
    let (nh, p5) = match read_u64(b, p4) {
        Some(t) => t,
        None => {
            return None;
        },
    };
    let (history, p6) = match read_entries(b, p5, nh) {
        Some(t) => t,
        None => {
            return None;
        },
    };
    let (unseen, p7) = match read_u16(b, p6) {
        Some(t) => t,
        None => {
            return None;
        },
    };
    Some((Room { id, name, members, history, unseen }, p7))
}

/// Read `n` rooms, as `dec_rooms` names them.
fn read_rooms(b: &Vec<u8>, pos: usize, n: u64) -> (r: Option<(Vec<Room>, usize)>)
    ensures
        match r {
            Some(t) => dec_rooms(b@, pos as int, n as nat) == Some(
                (rooms_views(t.0@), t.1 as int),
            ),
            None => dec_rooms(b@, pos as int, n as nat) is None,
        },
{
    let mut acc: Vec<Room> = Vec::new();
    let mut p = pos;
    let mut k: u64 = 0;
    proof {
        assert(rooms_views(acc@) =~= Seq::<RoomV>::empty());
    }
    while k < n
        invariant
            0 <= k <= n,
            k > 0 ==> p <= b@.len(),
            dec_rooms(b@, pos as int, n as nat) == (match dec_rooms(
                b@,
                p as int,
                (n - k) as nat,
            ) {
                Some(t2) => Some((rooms_views(acc@) + t2.0, t2.1)),
                None => None::<(Seq<RoomV>, int)>,
            }),
        decreases n - k,
    {
        match read_room(b, p) {
            Some((room, p2)) => {
                let ghost acc0 = rooms_views(acc@);
                acc.push(room);
                proof {
                    assert(rooms_views(acc@) =~= acc0.push(acc@.last()@));
                    assert forall|xs: Seq<RoomV>| acc0.push(acc@.last()@) + xs =~= acc0 + (seq![
                        acc@.last()@,
                    ] + xs) by {}
                }
                p = p2;
                k = k + 1;
            },
            None => {
                return None;
            },
        }
    }
    proof {
        assert(rooms_views(acc@) + Seq::<RoomV>::empty() =~= rooms_views(acc@));
    }
    Some((acc, p))
}

/// Decode the bytes `encode_account` wrote back into an account; any
/// byte string that is not exactly such an encoding is rejected.
pub fn decode_account(bytes: &Vec<u8>) -> (r: Option<Account>)
    ensures
        match r {
            Some(a) => dec_account(bytes@) == Some(a@),
            None => dec_account(bytes@) is None,
        },
{
    let (addr, p0) = match read_bytes(bytes, 0) {
        Some(t) => t,
        None => {
            return None;
        },
    };
    let (secret, p1) = match read_bytes(bytes, p0) {
        Some(t) => t,
        None => {
            return None;
        },
    };
    let (nc, p2) = match read_u64(bytes, p1) {
        Some(t) => t,
        None => {
            return None;
        },
    };
    let (contacts, p3) = match read_contacts(bytes, p2, nc) {
        Some(t) => t,
        None => {
            return None;
        },
    };
    let (eph_pub, p4) = match read_bytes(bytes, p3) {
        Some(t) => t,
        None => {
            return None;
        },
    };
    let (eph_sec, p5) = match read_bytes(bytes, p4) {
        Some(t) => t,
        None => {
            return None;
        },
    };
    let (nr, p6) = match read_u64(bytes, p5) {
        Some(t) => t,
        None => {
            return None;
        },
    };
    let (rooms, p7) = match read_rooms(bytes, p6, nr) {
        Some(t) => t,
        None => {
            return None;
        },
    };
    if p7 != bytes.len() {
        return None;
    }
    Some(
        Account {
            account: Identity { addr: Addr { bytes: addr }, secret },
            contacts,
            eph_pub,
            eph_sec,
            rooms,
        },
    )
}

} // verus!

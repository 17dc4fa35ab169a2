//! Core data model: addresses, contacts, rooms, message history, the
//! account aggregate, and the transient view state.
use vstd::prelude::*;

verus! {

/// A short identifier for a room. It is drawn at random when the room is
/// created and is not guaranteed unique; rooms are matched by member set,
/// not by id.
pub type RoomId = u16;

/// An opaque network identity, compared by its byte representation.
pub struct Addr {
    pub bytes: Vec<u8>,
}

impl View for Addr {
    type V = Seq<u8>;

    open spec fn view(&self) -> Seq<u8> {
        self.bytes@
    }
}

impl Clone for Addr {
    fn clone(&self) -> (r: Self)
        ensures
            r@ == self@,
    {
        let r = Addr { bytes: self.bytes.clone() };
        proof {
            assert(r@ =~= self@);
        }
        r
    }
}

/// The payload of one message. The variant set is closed today, but an
/// inbound message of an unrecognised shape is carried as `Unknown` and
/// rendered as a placeholder rather than failing.
pub enum MessageContent {
    Text(String),
    Unknown,
}

/// Mathematical model of a message payload.
pub ghost enum ContentV {
    Text(Seq<char>),
    Unknown,
}

impl View for MessageContent {
    type V = ContentV;

    open spec fn view(&self) -> ContentV {
        match self {
            MessageContent::Text(s) => ContentV::Text(s@),
            MessageContent::Unknown => ContentV::Unknown,
        }
    }
}

impl Clone for MessageContent {
    fn clone(&self) -> (r: Self)
        ensures
            r@ == self@,
    {
        match self {
            MessageContent::Text(s) => MessageContent::Text(s.clone()),
            MessageContent::Unknown => MessageContent::Unknown,
        }
    }
}

/// An inbound or outbound message as the transport hands it over: the
/// recipients besides the one it was delivered to, and the payload.
pub struct Message {
    pub other_recipients: Vec<Addr>,
    pub content: MessageContent,
}

/// Mathematical model of a message.
pub ghost struct MessageV {
    pub other_recipients: Seq<Seq<u8>>,
    pub content: ContentV,
}

impl View for Message {
    type V = MessageV;

    open spec fn view(&self) -> MessageV {
        MessageV {
            other_recipients: addr_views(self.other_recipients@),
            content: self.content@,
        }
    }
}

/// One immutable record in a room's append-only history.
pub struct HistoryEntry {
    pub sender: Addr,
    pub timestamp: u64,
    pub msg: MessageContent,
}

/// Mathematical model of a history entry.
pub ghost struct EntryV {
    pub sender: Seq<u8>,
    pub timestamp: u64,
    pub msg: ContentV,
}

impl View for HistoryEntry {
    type V = EntryV;

    open spec fn view(&self) -> EntryV {
        EntryV { sender: self.sender@, timestamp: self.timestamp, msg: self.msg@ }
    }
}

/// A named network identity in the directory. The directory holds at most
/// one contact per address; names are not unique.
pub struct Contact {
    pub addr: Addr,
    pub name: String,
}

/// Mathematical model of a contact.
pub ghost struct ContactV {
    pub addr: Seq<u8>,
    pub name: Seq<char>,
}

impl View for Contact {
    type V = ContactV;

    open spec fn view(&self) -> ContactV {
        ContactV { addr: self.addr@, name: self.name@ }
    }
}

/// A multi-party conversation: identified for matching purposes by its
/// member set, with an append-only history.
pub struct Room {
    pub id: RoomId,
    pub name: String,
    pub members: Vec<Addr>,
    pub history: Vec<HistoryEntry>,
    pub unseen: u16,
}

/// Mathematical model of a room.
pub ghost struct RoomV {
    pub id: RoomId,
    pub name: Seq<char>,
    pub members: Seq<Seq<u8>>,
    pub history: Seq<EntryV>,
    pub unseen: u16,
}

impl View for Room {
    type V = RoomV;

    open spec fn view(&self) -> RoomV {
        RoomV {
            id: self.id,
            name: self.name@,
            members: addr_views(self.members@),
            history: entries_views(self.history@),
            unseen: self.unseen,
        }
    }
}

/// The local user's own transport identity: its address and the opaque
/// key material the transport needs, kept only to be persisted.
pub struct Identity {
    pub addr: Addr,
    pub secret: Vec<u8>,
}

/// Mathematical model of the local identity.
pub ghost struct IdentityV {
    pub addr: Seq<u8>,
    pub secret: Seq<u8>,
}

impl View for Identity {
    type V = IdentityV;

    open spec fn view(&self) -> IdentityV {
        IdentityV { addr: self.addr@, secret: self.secret@ }
    }
}

/// The top-level durable aggregate: the local identity, the contact
/// directory, the rotating ephemeral key pair, and every room.
pub struct Account {
    pub account: Identity,
    pub contacts: Vec<Contact>,
    pub eph_pub: Vec<u8>,
    pub eph_sec: Vec<u8>,
    pub rooms: Vec<Room>,
}

/// Mathematical model of an account.
pub ghost struct AccountV {
    pub account: IdentityV,
    pub contacts: Seq<ContactV>,
    pub eph_pub: Seq<u8>,
    pub eph_sec: Seq<u8>,
    pub rooms: Seq<RoomV>,
}

impl View for Account {
    type V = AccountV;

    open spec fn view(&self) -> AccountV {
        AccountV {
            account: self.account@,
            contacts: contacts_views(self.contacts@),
            eph_pub: self.eph_pub@,
            eph_sec: self.eph_sec@,
            rooms: rooms_views(self.rooms@),
        }
    }
}

/// Which list the sidebar currently shows and navigates.
#[derive(PartialEq, Eq, Structural, Clone, Copy, Debug)]
pub enum Mode {
    Rooms,
    Members,
    Contacts,
}

/// Transient navigation state. It is derived from the account at startup
/// and never persisted.
pub struct State {
    pub room_id: RoomId,
    pub scroll: Vec<(RoomId, u32)>,
    pub msg_buf: String,
    pub width: u16,
    pub height: u16,
    pub mode: Mode,
    pub selected_index: usize,
}

/// Mathematical model of the view state; the scroll list is seen as a map
/// from room id to offset.
pub ghost struct StateV {
    pub room_id: RoomId,
    pub scroll: Map<RoomId, u32>,
    pub msg_buf: Seq<char>,
    pub width: u16,
    pub height: u16,
    pub mode: Mode,
    pub selected_index: usize,
}

impl View for State {
    type V = StateV;

    open spec fn view(&self) -> StateV {
        StateV {
            room_id: self.room_id,
            scroll: scroll_map(self.scroll@),
            msg_buf: self.msg_buf@,
            width: self.width,
            height: self.height,
            mode: self.mode,
            selected_index: self.selected_index,
        }
    }
}

/// The byte views of a sequence of addresses.
pub open spec fn addr_views(s: Seq<Addr>) -> Seq<Seq<u8>> {
    s.map_values(|a: Addr| a@)
}

/// The models of a sequence of rooms.
pub open spec fn rooms_views(s: Seq<Room>) -> Seq<RoomV> {
    s.map_values(|r: Room| r@)
}

/// The models of a sequence of contacts.
pub open spec fn contacts_views(s: Seq<Contact>) -> Seq<ContactV> {
    s.map_values(|c: Contact| c@)
}

/// The models of a sequence of history entries.
pub open spec fn entries_views(s: Seq<HistoryEntry>) -> Seq<EntryV> {
    s.map_values(|e: HistoryEntry| e@)
}

/// The scroll association list read as a map; a later entry for a key
/// shadows an earlier one, though well-formed state has unique keys.
pub open spec fn scroll_map(s: Seq<(RoomId, u32)>) -> Map<RoomId, u32>
    decreases s.len(),
{
    if s.len() == 0 {
        Map::empty()
    } else {
        scroll_map(s.drop_last()).insert(s.last().0, s.last().1)
    }
}

/// The keys of the scroll association list, in order.
pub open spec fn scroll_keys(s: Seq<(RoomId, u32)>) -> Seq<RoomId> {
    s.map_values(|e: (RoomId, u32)| e.0)
}

/// Whether the scroll association list carries each room id at most once.
pub open spec fn keys_unique(s: Seq<(RoomId, u32)>) -> bool {
    forall|i: int, j: int|
        0 <= i < j < s.len() ==> (#[trigger] s[i]).0 != (#[trigger] s[j]).0
}

/// With unique keys, the map view of the scroll list holds exactly the
/// listed keys, each at its listed offset.
pub proof fn lemma_scroll_map_char(s: Seq<(RoomId, u32)>)
    requires
        keys_unique(s),
    ensures
        forall|k: RoomId|
            scroll_map(s).dom().contains(k) <==> (exists|i: int|
                0 <= i < s.len() && (#[trigger] s[i]).0 == k),
        forall|i: int|
            0 <= i < s.len() ==> scroll_map(s)[(#[trigger] s[i]).0] == s[i].1,
    decreases s.len(),
{
    if s.len() != 0 {
        let pre = s.drop_last();
        assert(keys_unique(pre)) by {
            assert forall|i: int, j: int| 0 <= i < j < pre.len() implies (#[trigger] pre[i]).0 != (
            #[trigger] pre[j]).0 by {
                assert(s[i] == pre[i] && s[j] == pre[j]);
            }
        }
        lemma_scroll_map_char(pre);
        assert forall|i: int| 0 <= i < s.len() implies scroll_map(s)[(#[trigger] s[i]).0] == s[i].1
        by {
            if i < s.len() - 1 {
                assert(pre[i] == s[i]);
                assert(s[i].0 != s.last().0);
            }
        }
        assert forall|k: RoomId| scroll_map(s).dom().contains(k) implies (exists|i: int|
            0 <= i < s.len() && (#[trigger] s[i]).0 == k) by {
            if k == s.last().0 {
                assert(s[s.len() - 1].0 == k);
            } else {
                assert(scroll_map(pre).dom().contains(k));
                let i = choose|i: int| 0 <= i < pre.len() && (#[trigger] pre[i]).0 == k;
                assert(pre[i] == s[i]);
                assert(s[i].0 == k);
            }
        }
        assert forall|k: RoomId| (exists|i: int| 0 <= i < s.len() && (#[trigger] s[i]).0 == k)
            implies scroll_map(s).dom().contains(k) by {
            let i = choose|i: int| 0 <= i < s.len() && (#[trigger] s[i]).0 == k;
            if i < s.len() - 1 {
                assert(pre[i].0 == k);
            }
        }
    }
}

/// Appending a fresh entry inserts its pair into the map view.
pub proof fn lemma_scroll_map_push(s: Seq<(RoomId, u32)>, k: RoomId, v: u32)
    ensures
        scroll_map(s.push((k, v))) == scroll_map(s).insert(k, v),
{
    assert(s.push((k, v)).drop_last() =~= s);
    assert(s.push((k, v)).last() == (k, v));
}

/// Overwriting the offset stored at index `i` updates exactly that key in
/// the map view.
pub proof fn lemma_scroll_map_update(s: Seq<(RoomId, u32)>, i: int, v: u32)
    requires
        keys_unique(s),
        0 <= i < s.len(),
    ensures
        keys_unique(s.update(i, (s[i].0, v))),
        scroll_map(s.update(i, (s[i].0, v))) =~= scroll_map(s).insert(s[i].0, v),
{
    let s2 = s.update(i, (s[i].0, v));
    assert forall|a: int, b: int| 0 <= a < b < s2.len() implies (#[trigger] s2[a]).0 != (
    #[trigger] s2[b]).0 by {
        assert(s2[a].0 == s[a].0 && s2[b].0 == s[b].0);
    }
    lemma_scroll_map_char(s);
    lemma_scroll_map_char(s2);
    assert forall|k: RoomId| scroll_map(s2).dom().contains(k) <==> scroll_map(s).insert(
        s[i].0,
        v,
    ).dom().contains(k) by {
        assert forall|j: int| 0 <= j < s.len() implies (#[trigger] s2[j]).0 == s[j].0 by {}
        if scroll_map(s2).dom().contains(k) {
            let j = choose|j: int| 0 <= j < s2.len() && (#[trigger] s2[j]).0 == k;
            assert(s[j].0 == k);
        }
        if scroll_map(s).dom().contains(k) {
            let j = choose|j: int| 0 <= j < s.len() && (#[trigger] s[j]).0 == k;
            assert(s2[j].0 == k);
        }
    }
    assert forall|k: RoomId| #[trigger]
        scroll_map(s2).dom().contains(k) implies scroll_map(s2)[k] == scroll_map(s).insert(
        s[i].0,
        v,
    )[k] by {
        let j = choose|j: int| 0 <= j < s2.len() && (#[trigger] s2[j]).0 == k;
        if k == s[i].0 {
            assert(j == i);
            assert(scroll_map(s2)[k] == v);
        } else {
            assert(j != i);
            assert(s[j] == s2[j]);
            assert(scroll_map(s2)[s2[j].0] == s2[j].1);
            assert(scroll_map(s)[s[j].0] == s[j].1);
        }
    }
}

/// Removing the entry at index `i` removes exactly its key from the map
/// view.
pub proof fn lemma_scroll_map_remove(s: Seq<(RoomId, u32)>, i: int)
    requires
        keys_unique(s),
        0 <= i < s.len(),
    ensures
        keys_unique(s.remove(i)),
        scroll_map(s.remove(i)) =~= scroll_map(s).remove(s[i].0),
{
    let s2 = s.remove(i);
    assert forall|a: int, b: int| 0 <= a < b < s2.len() implies (#[trigger] s2[a]).0 != (
    #[trigger] s2[b]).0 by {
        let a0: int = if a < i {
            a
        } else {
            a + 1
        };
        let b0: int = if b < i {
            b
        } else {
            b + 1
        };
        assert(s2[a] == s[a0] && s2[b] == s[b0]);
    }
    lemma_scroll_map_char(s);
    lemma_scroll_map_char(s2);
    assert forall|k: RoomId| scroll_map(s2).dom().contains(k) <==> scroll_map(s).remove(
        s[i].0,
    ).dom().contains(k) by {
        if scroll_map(s2).dom().contains(k) {
            let j = choose|j: int| 0 <= j < s2.len() && (#[trigger] s2[j]).0 == k;
            let j0: int = if j < i {
                j
            } else {
                j + 1
            };
            assert(s[j0].0 == k);
            assert(k != s[i].0);
        }
        if scroll_map(s).remove(s[i].0).dom().contains(k) {
            let j = choose|j: int| 0 <= j < s.len() && (#[trigger] s[j]).0 == k;
            assert(j != i);
            let j2: int = if j < i {
                j
            } else {
                j - 1
            };
            assert(s2[j2] == s[j]);
        }
    }
    assert forall|k: RoomId| #[trigger]
        scroll_map(s2).dom().contains(k) implies scroll_map(s2)[k] == scroll_map(s).remove(
        s[i].0,
    )[k] by {
        let j = choose|j: int| 0 <= j < s2.len() && (#[trigger] s2[j]).0 == k;
        let j0: int = if j < i {
            j
        } else {
            j + 1
        };
        assert(s2[j] == s[j0]);
        assert(scroll_map(s2)[s2[j].0] == s2[j].1);
        assert(scroll_map(s)[s[j0].0] == s[j0].1);
        assert(k != s[i].0);
    }
}

/// The set of ids of the given rooms.
pub open spec fn room_id_set(rooms: Seq<RoomV>) -> Set<RoomId> {
    rooms.map_values(|r: RoomV| r.id).to_set()
}

/// A room id belongs to the id set exactly when some room carries it.
pub proof fn lemma_room_id_set_char(s: Seq<RoomV>)
    ensures
        forall|k: RoomId|
            room_id_set(s).contains(k) <==> (exists|i: int|
                0 <= i < s.len() && (#[trigger] s[i]).id == k),
{
    let m = s.map_values(|r: RoomV| r.id);
    assert forall|k: RoomId| room_id_set(s).contains(k) implies (exists|i: int|
        0 <= i < s.len() && (#[trigger] s[i]).id == k) by {
        let i = choose|i: int| 0 <= i < m.len() && m[i] == k;
        assert(s[i].id == k);
    }
    assert forall|k: RoomId| (exists|i: int| 0 <= i < s.len() && (#[trigger] s[i]).id == k)
        implies room_id_set(s).contains(k) by {
        let i = choose|i: int| 0 <= i < s.len() && (#[trigger] s[i]).id == k;
        assert(m[i] == k);
        assert(m.contains(k));
    }
}

/// Appending a room adds exactly its id to the id set.
pub proof fn lemma_room_id_set_push(s: Seq<RoomV>, r: RoomV)
    ensures
        room_id_set(s.push(r)) =~= room_id_set(s).insert(r.id),
{
    lemma_room_id_set_char(s);
    lemma_room_id_set_char(s.push(r));
    assert forall|k: RoomId| room_id_set(s.push(r)).contains(k) implies room_id_set(s).insert(
        r.id,
    ).contains(k) by {
        let i = choose|i: int| 0 <= i < s.push(r).len() && (#[trigger] s.push(r)[i]).id == k;
        if i < s.len() {
            assert(s[i].id == k);
        }
    }
    assert forall|k: RoomId| room_id_set(s).insert(r.id).contains(k) implies room_id_set(
        s.push(r),
    ).contains(k) by {
        if k == r.id {
            assert(s.push(r)[s.len() as int].id == k);
        } else {
            let i = choose|i: int| 0 <= i < s.len() && (#[trigger] s[i]).id == k;
            assert(s.push(r)[i].id == k);
        }
    }
}

/// Replacing a room with one of the same id leaves the id set as it is.
pub proof fn lemma_room_id_set_update(s: Seq<RoomV>, i: int, r: RoomV)
    requires
        0 <= i < s.len(),
        r.id == s[i].id,
    ensures
        room_id_set(s.update(i, r)) =~= room_id_set(s),
{
    lemma_room_id_set_char(s);
    lemma_room_id_set_char(s.update(i, r));
    assert forall|k: RoomId| room_id_set(s.update(i, r)).contains(k) implies room_id_set(
        s,
    ).contains(k) by {
        let j = choose|j: int|
            0 <= j < s.update(i, r).len() && (#[trigger] s.update(i, r)[j]).id == k;
        assert(s[j].id == k);
    }
    assert forall|k: RoomId| room_id_set(s).contains(k) implies room_id_set(
        s.update(i, r),
    ).contains(k) by {
        let j = choose|j: int| 0 <= j < s.len() && (#[trigger] s[j]).id == k;
        assert(s.update(i, r)[j].id == k);
    }
}

/// Appending an element inserts it into the sequence's set of values.
pub proof fn lemma_to_set_push<A>(s: Seq<A>, x: A)
    ensures
        s.push(x).to_set() =~= s.to_set().insert(x),
{
    assert forall|y: A| s.push(x).to_set().contains(y) implies s.to_set().insert(x).contains(
        y,
    ) by {
        let i = choose|i: int| 0 <= i < s.push(x).len() && s.push(x)[i] == y;
        if i < s.len() {
            assert(s[i] == y);
        }
    }
    assert forall|y: A| s.to_set().insert(x).contains(y) implies s.push(x).to_set().contains(
        y,
    ) by {
        if y == x {
            assert(s.push(x)[s.len() as int] == y);
        } else {
            let i = choose|i: int| 0 <= i < s.len() && s[i] == y;
            assert(s.push(x)[i] == y);
        }
    }
}

/// A filtered sequence holds exactly the elements that pass the test.
pub proof fn lemma_filter_membership<A>(s: Seq<A>, pred: spec_fn(A) -> bool)
    ensures
        forall|x: A| #[trigger]
            s.filter(pred).contains(x) <==> s.contains(x) && pred(x),
    decreases s.len(),
{
    reveal(Seq::filter);
    if s.len() != 0 {
        let dl = s.drop_last();
        lemma_filter_membership(dl, pred);
        assert forall|x: A| #[trigger] s.filter(pred).contains(x) implies s.contains(x) && pred(
            x,
        ) by {
            if pred(s.last()) && x == s.last() {
                assert(s[s.len() - 1] == x);
            } else {
                if s.filter(pred).contains(x) {
                    if pred(s.last()) {
                        let f = dl.filter(pred).push(s.last());
                        let i = choose|i: int| 0 <= i < f.len() && f[i] == x;
                        if i < f.len() - 1 {
                            assert(dl.filter(pred).contains(x));
                        }
                    } else {
                        assert(dl.filter(pred).contains(x));
                    }
                    if dl.filter(pred).contains(x) {
                        assert(dl.contains(x) && pred(x));
                        let i = choose|i: int| 0 <= i < dl.len() && dl[i] == x;
                        assert(s[i] == x);
                    }
                }
            }
        }
        assert forall|x: A| s.contains(x) && pred(x) implies #[trigger]
            s.filter(pred).contains(x) by {
            let i = choose|i: int| 0 <= i < s.len() && s[i] == x;
            if i < s.len() - 1 {
                assert(dl[i] == x);
                assert(dl.contains(x));
                assert(dl.filter(pred).contains(x));
                if pred(s.last()) {
                    let f = dl.filter(pred);
                    let j = choose|j: int| 0 <= j < f.len() && f[j] == x;
                    assert(f.push(s.last())[j] == x);
                } else {
                    assert(s.filter(pred) == dl.filter(pred));
                }
            } else {
                if pred(s.last()) {
                    let f = dl.filter(pred);
                    assert(f.push(s.last())[f.len() as int] == x);
                }
            }
        }
    }
}

/// Dropping every room of a given id removes exactly that id from the id
/// set.
pub proof fn lemma_room_id_set_filter(s: Seq<RoomV>, x: RoomId)
    ensures
        room_id_set(s.filter(|r: RoomV| r.id != x)) =~= room_id_set(s).remove(x),
{
    let pred = (|r: RoomV| r.id != x);
    let f = s.filter(pred);
    lemma_filter_membership(s, pred);
    lemma_room_id_set_char(s);
    lemma_room_id_set_char(f);
    assert forall|k: RoomId| room_id_set(f).contains(k) implies room_id_set(s).remove(x).contains(
        k,
    ) by {
        let i = choose|i: int| 0 <= i < f.len() && (#[trigger] f[i]).id == k;
        assert(f.contains(f[i]));
        assert(s.contains(f[i]) && pred(f[i]));
        let j = choose|j: int| 0 <= j < s.len() && s[j] == f[i];
        assert(s[j].id == k);
    }
    assert forall|k: RoomId| room_id_set(s).remove(x).contains(k) implies room_id_set(f).contains(
        k,
    ) by {
        let i = choose|i: int| 0 <= i < s.len() && (#[trigger] s[i]).id == k;
        assert(s.contains(s[i]) && pred(s[i]));
        assert(f.contains(s[i]));
        let j = choose|j: int| 0 <= j < f.len() && f[j] == s[i];
        assert(f[j].id == k);
    }
}

/// The selection after an item leaves the active list: clamped to the
/// new end, or zero when the list emptied.
pub open spec fn repaired(len: nat, sel: int) -> int {
    if len == 0 {
        0
    } else if sel >= len {
        len - 1
    } else {
        sel
    }
}

/// The index of the first element satisfying `p`, or -1 if none does.
pub open spec fn find_first<T>(s: Seq<T>, p: spec_fn(T) -> bool) -> int
    decreases s.len(),
{
    if s.len() == 0 {
        -1
    } else if p(s[0]) {
        0
    } else {
        if find_first(s.skip(1), p) == -1 {
            -1
        } else {
            find_first(s.skip(1), p) + 1
        }
    }
}

/// `find_first` returns -1 exactly when nothing matches, and otherwise
/// the least matching index.
pub proof fn lemma_find_first<T>(s: Seq<T>, p: spec_fn(T) -> bool)
    ensures
        (find_first(s, p) == -1) <==> (forall|i: int| 0 <= i < s.len() ==> !p(s[i])),
        find_first(s, p) != -1 ==> {
            &&& 0 <= find_first(s, p) < s.len()
            &&& p(s[find_first(s, p)])
            &&& forall|i: int| 0 <= i < find_first(s, p) ==> !p(s[i])
        },
    decreases s.len(),
{
    if s.len() != 0 {
        lemma_find_first(s.skip(1), p);
        assert forall|i: int| 0 < i < s.len() implies s[i] == s.skip(1)[i - 1] by {}
    }
}

/// The first index among `rooms` whose id is `id`, or -1.
pub open spec fn find_room(rooms: Seq<RoomV>, id: RoomId) -> int {
    find_first(rooms, |r: RoomV| r.id == id)
}

/// Two room lists that agree on ids, position by position, agree on
/// where any id is first found.
pub proof fn lemma_find_room_same_ids(s1: Seq<RoomV>, s2: Seq<RoomV>, id: RoomId)
    requires
        s1.len() == s2.len(),
        forall|i: int| 0 <= i < s1.len() ==> (#[trigger] s1[i]).id == (#[trigger] s2[i]).id,
    ensures
        find_room(s1, id) == find_room(s2, id),
{
    let p1 = (|r: RoomV| r.id == id);
    lemma_find_first(s1, p1);
    lemma_find_first(s2, p1);
    let f1 = find_first(s1, p1);
    let f2 = find_first(s2, p1);
    if f1 == -1 && f2 != -1 {
        assert(p1(s2[f2]));
        assert(s1[f2].id == id);
        assert(p1(s1[f2]));
    } else if f2 == -1 && f1 != -1 {
        assert(p1(s1[f1]));
        assert(s2[f1].id == id);
        assert(p1(s2[f1]));
    } else if f1 != -1 && f2 != -1 {
        if f1 < f2 {
            assert(s2[f1].id == s1[f1].id);
            assert(p1(s2[f1]));
        } else if f2 < f1 {
            assert(s1[f2].id == s2[f2].id);
            assert(p1(s1[f2]));
        }
    }
}

/// The length of the list that the active sidebar mode navigates.
pub open spec fn active_list_len(a: AccountV, s: StateV) -> nat {
    match s.mode {
        Mode::Rooms => a.rooms.len(),
        Mode::Members => {
            let i = find_room(a.rooms, s.room_id);
            if i == -1 {
                0
            } else {
                a.rooms[i].members.len()
            }
        },
        Mode::Contacts => a.contacts.len(),
    }
}

/// The selection invariant: the index lies in the active list, or is 0
/// when that list is empty.
pub open spec fn sel_in_bounds(len: nat, sel: usize) -> bool {
    if len == 0 {
        sel == 0
    } else {
        sel < len
    }
}

impl State {
    /// The scroll association list carries each room id at most once.
    pub open spec fn scroll_keys_unique(&self) -> bool {
        forall|i: int, j: int|
            0 <= i < j < self.scroll@.len() ==> (#[trigger] self.scroll@[i]).0 != (
            #[trigger] self.scroll@[j]).0
    }
}

/// Well-formedness of the account and view-state pair: unique scroll
/// keys, scroll offsets kept exactly for the current rooms, and the
/// selection within the active list.
pub open spec fn wf(a: &Account, s: &State) -> bool {
    &&& s.scroll_keys_unique()
    &&& s@.scroll.dom() =~= room_id_set(a@.rooms)
    &&& sel_in_bounds(active_list_len(a@, s@), s@.selected_index)
}

} // verus!

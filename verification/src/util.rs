//! Address comparison, the canonical hexadecimal text form of an address,
//! and directory lookups by name or raw address.
use vstd::prelude::*;

use crate::data::{addr_views, find_first, lemma_find_first, Account, AccountV, Addr, Contact,
    ContactV};

verus! {

/// Whether two addresses are the same identity.
pub fn addr_eq(a: &Addr, b: &Addr) -> (r: bool)
    ensures
        r == (a@ == b@),
{
    let r = a.bytes == b.bytes;
    proof {
        if a@.len() == b@.len() && (forall|i: int| 0 <= i < a@.len() ==> a@[i] == b@[i]) {
            assert(a@ =~= b@);
        }
    }
    r
}

/// Whether `v` holds an address equal to `a`.
pub fn contains_addr(v: &Vec<Addr>, a: &Addr) -> (r: bool)
    ensures
        r == addr_views(v@).contains(a@),
{
    let n = v.len();
    let mut i: usize = 0;
    while i < n
        invariant
            n == v@.len(),
            0 <= i <= n,
            forall|j: int| 0 <= j < i ==> addr_views(v@)[j] != a@,
        decreases n - i,
    {
        if addr_eq(&v[i], a) {
            assert(addr_views(v@)[i as int] == a@);
            return true;
        }
        i = i + 1;
    }
    false
}

/// Whether the member lists `a` and `b` name the same set of addresses,
/// regardless of order and multiplicity.
pub fn same_member_set(a: &Vec<Addr>, b: &Vec<Addr>) -> (r: bool)
    ensures
        r == (addr_views(a@).to_set() == addr_views(b@).to_set()),
{
    let mut i: usize = 0;
    let na = a.len();
    while i < na
        invariant
            na == a@.len(),
            0 <= i <= na,
            forall|j: int| 0 <= j < i ==> addr_views(b@).contains(#[trigger] addr_views(a@)[j]),
        decreases na - i,
    {
        if !contains_addr(b, &a[i]) {
            proof {
                assert(addr_views(a@).to_set().contains(addr_views(a@)[i as int]));
                assert(!addr_views(b@).to_set().contains(addr_views(a@)[i as int]));
            }
            return false;
        }
        i = i + 1;
    }
    let mut k: usize = 0;
    let nb = b.len();
    while k < nb
        invariant
            na == a@.len(),
            nb == b@.len(),
            0 <= k <= nb,
            forall|j: int| 0 <= j < na ==> addr_views(b@).contains(#[trigger] addr_views(a@)[j]),
            forall|j: int| 0 <= j < k ==> addr_views(a@).contains(#[trigger] addr_views(b@)[j]),
        decreases nb - k,
    {
        if !contains_addr(a, &b[k]) {
            proof {
                assert(addr_views(b@).to_set().contains(addr_views(b@)[k as int]));
                assert(!addr_views(a@).to_set().contains(addr_views(b@)[k as int]));
            }
            return false;
        }
        k = k + 1;
    }
    proof {
        assert(addr_views(a@).to_set() =~= addr_views(b@).to_set());
    }
    true
}

/// The first index among `cs` of a contact with the given name, or -1.
pub open spec fn find_contact_by_name(cs: Seq<ContactV>, name: Seq<char>) -> int {
    find_first(cs, |c: ContactV| c.name == name)
}

/// The first index among `cs` of a contact with the given address, or -1.
pub open spec fn find_contact_by_addr(cs: Seq<ContactV>, addr: Seq<u8>) -> int {
    find_first(cs, |c: ContactV| c.addr == addr)
}

/// The lower-case hexadecimal digit for a value below 16.
pub open spec fn nibble_char(n: u8) -> char {
    if n == 0 {
        '0'
    } else if n == 1 {
        '1'
    } else if n == 2 {
        '2'
    } else if n == 3 {
        '3'
    } else if n == 4 {
        '4'
    } else if n == 5 {
        '5'
    } else if n == 6 {
        '6'
    } else if n == 7 {
        '7'
    } else if n == 8 {
        '8'
    } else if n == 9 {
        '9'
    } else if n == 10 {
        'a'
    } else if n == 11 {
        'b'
    } else if n == 12 {
        'c'
    } else if n == 13 {
        'd'
    } else if n == 14 {
        'e'
    } else {
        'f'
    }
}

/// The value of a lower-case hexadecimal digit, or None for any other
/// character.
pub open spec fn nibble_val(c: char) -> Option<u8> {
    if c == '0' {
        Some(0u8)
    } else if c == '1' {
        Some(1u8)
    } else if c == '2' {
        Some(2u8)
    } else if c == '3' {
        Some(3u8)
    } else if c == '4' {
        Some(4u8)
    } else if c == '5' {
        Some(5u8)
    } else if c == '6' {
        Some(6u8)
    } else if c == '7' {
        Some(7u8)
    } else if c == '8' {
        Some(8u8)
    } else if c == '9' {
        Some(9u8)
    } else if c == 'a' {
        Some(10u8)
    } else if c == 'b' {
        Some(11u8)
    } else if c == 'c' {
        Some(12u8)
    } else if c == 'd' {
        Some(13u8)
    } else if c == 'e' {
        Some(14u8)
    } else if c == 'f' {
        Some(15u8)
    } else {
        None
    }
}

/// The canonical text rendering of a byte string: two lower-case
/// hexadecimal digits per byte.
pub open spec fn hex_of(b: Seq<u8>) -> Seq<char>
    decreases b.len(),
{
    if b.len() == 0 {
        Seq::empty()
    } else {
        seq![nibble_char((b[0] / 16) as u8), nibble_char((b[0] % 16) as u8)] + hex_of(b.skip(1))
    }
}

/// Rendering distributes over concatenation of byte strings.
pub proof fn lemma_hex_of_add(x: Seq<u8>, y: Seq<u8>)
    ensures
        hex_of(x + y) == hex_of(x) + hex_of(y),
    decreases x.len(),
{
    if x.len() == 0 {
        assert(x + y =~= y);
        assert(hex_of(x) + hex_of(y) =~= hex_of(y));
    } else {
        lemma_hex_of_add(x.skip(1), y);
        assert((x + y).skip(1) =~= x.skip(1) + y);
        assert(hex_of(x + y) =~= hex_of(x) + hex_of(y));
    }
}

/// The bytes a text denotes in canonical hexadecimal form, or None if the
/// text is not an even run of lower-case hexadecimal digits.
pub open spec fn parse_hex(s: Seq<char>) -> Option<Seq<u8>>
    decreases s.len(),
{
    if s.len() == 0 {
        Some(Seq::empty())
    } else if s.len() == 1 {
        None
    } else {
        match (nibble_val(s[0]), nibble_val(s[1])) {
            (Some(hi), Some(lo)) => match parse_hex(s.skip(2)) {
                Some(rest) => Some(seq![(hi * 16 + lo) as u8] + rest),
                None => None,
            },
            _ => None,
        }
    }
}

/// Parsing the canonical rendering of a byte string gives the bytes back.
pub proof fn lemma_parse_hex_of(b: Seq<u8>)
    ensures
        parse_hex(hex_of(b)) == Some(b),
    decreases b.len(),
{
    if b.len() == 0 {
        assert(hex_of(b).len() == 0);
    } else {
        lemma_parse_hex_of(b.skip(1));
        let h = hex_of(b);
        let hi = (b[0] / 16) as u8;
        let lo = (b[0] % 16) as u8;
        assert(h[0] == nibble_char(hi) && h[1] == nibble_char(lo));
        assert(nibble_val(nibble_char(hi)) == Some(hi));
        assert(nibble_val(nibble_char(lo)) == Some(lo));
        assert(h.skip(2) =~= hex_of(b.skip(1)));
        assert(hi * 16 + lo == b[0]) by {
            vstd::arithmetic::div_mod::lemma_fundamental_div_mod(b[0] as int, 16);
        }
        assert(seq![(hi * 16 + lo) as u8] + b.skip(1) =~= b);
    }
}

/// The hexadecimal digit for a value below 16.
pub fn nibble_to_char(n: u8) -> (c: char)
    requires
        n < 16,
    ensures
        c == nibble_char(n),
{
    match n {
        0 => '0',
        1 => '1',
        2 => '2',
        3 => '3',
        4 => '4',
        5 => '5',
        6 => '6',
        7 => '7',
        8 => '8',
        9 => '9',
        10 => 'a',
        11 => 'b',
        12 => 'c',
        13 => 'd',
        14 => 'e',
        _ => 'f',
    }
}

/// The value of a hexadecimal digit character, if it is one.
pub fn char_to_nibble(c: char) -> (r: Option<u8>)
    ensures
        r == nibble_val(c),
{
    match c {
        '0' => Some(0),
        '1' => Some(1),
        '2' => Some(2),
        '3' => Some(3),
        '4' => Some(4),
        '5' => Some(5),
        '6' => Some(6),
        '7' => Some(7),
        '8' => Some(8),
        '9' => Some(9),
        'a' => Some(10),
        'b' => Some(11),
        'c' => Some(12),
        'd' => Some(13),
        'e' => Some(14),
        'f' => Some(15),
        _ => None,
    }
}

/// Relies on sodiumoxide's randombytes: it returns the requested number
/// of random bytes. Nothing is assumed of their values; every caller
/// states what holds whatever came back.
#[verifier::external_body]
pub fn random_byte_pair() -> (r: (u8, u8)) {
    let b = sodiumoxide::randombytes::randombytes(2);
    (b[0], b[1])
}

/// Relies on std's String::push: it appends the one character to the end
/// of the string.
#[verifier::external_body]
pub fn push_char(s: &mut String, c: char)
    ensures
        final(s)@ == old(s)@ + seq![c],
{
    s.push(c)
}

/// Relies on std's String::pop: it removes and returns the last
/// character, or returns None and leaves the empty string as it is.
#[verifier::external_body]
pub fn pop_char(s: &mut String) -> (r: Option<char>)
    ensures
        old(s)@.len() == 0 ==> final(s)@ == old(s)@ && r is None,
        old(s)@.len() != 0 ==> final(s)@ == old(s)@.drop_last() && r == Some(old(s)@.last()),
{
    s.pop()
}

/// The canonical text rendering of an address.
pub fn render_addr(a: &Addr) -> (r: String)
    ensures
        r@ == hex_of(a@),
{
    let mut out = String::new();
    let n = a.bytes.len();
    let mut i: usize = 0;
    while i < n
        invariant
            n == a@.len(),
            0 <= i <= n,
            out@ == hex_of(a@.take(i as int)),
        decreases n - i,
    {
        let b = a.bytes[i];
        push_char(&mut out, nibble_to_char(b / 16));
        push_char(&mut out, nibble_to_char(b % 16));
        proof {
            let pre = a@.take(i as int);
            let one = seq![a@[i as int]];
            lemma_hex_of_add(pre, one);
            assert(one.skip(1) =~= Seq::<u8>::empty());
            assert(hex_of(Seq::<u8>::empty()) =~= Seq::<char>::empty());
            assert(hex_of(one) =~= seq![
                nibble_char((a@[i as int] / 16) as u8),
                nibble_char((a@[i as int] % 16) as u8),
            ]);
            assert(a@.take(i + 1) =~= pre + one);
            assert(out@ =~= hex_of(a@.take(i + 1)));
        }
        i = i + 1;
    }
    proof {
        assert(a@.take(n as int) =~= a@);
    }
    out
}

/// Parse a text in the canonical hexadecimal form into an address.
pub fn parse_addr(s: &str) -> (r: Option<Addr>)
    ensures
        match r {
            Some(a) => parsed_addr_text(s@) == Some(a@),
            None => parsed_addr_text(s@) is None,
        },
{
    let n = s.unicode_len();
    if n == 0 {
        return None;
    }
    let mut bytes: Vec<u8> = Vec::new();
    let mut i: usize = 0;
    proof {
        assert(s@.skip(0) =~= s@);
        match parse_hex(s@) {
            Some(r2) => {
                assert(Seq::<u8>::empty() + r2 =~= r2);
            },
            None => {},
        }
    }
    while i + 1 < n
        invariant
            n == s@.len(),
            0 <= i <= n,
            i % 2 == 0,
            parse_hex(s@) == (match parse_hex(s@.skip(i as int)) {
                Some(r2) => Some(bytes@ + r2),
                None => None,
            }),
        decreases n - i,
    {
        let c_hi = s.get_char(i);
        let c_lo = s.get_char(i + 1);
        let hi = match char_to_nibble(c_hi) {
            Some(v) => v,
            None => {
                proof {
                    assert(s@.skip(i as int)[0] == c_hi);
                    assert(parse_hex(s@.skip(i as int)) is None);
                }
                return None;
            },
        };
        let lo = match char_to_nibble(c_lo) {
            Some(v) => v,
            None => {
                proof {
                    assert(s@.skip(i as int)[1] == c_lo);
                    assert(parse_hex(s@.skip(i as int)) is None);
                }
                return None;
            },
        };
        let ghost pre = bytes@;
        bytes.push(hi * 16 + lo);
        proof {
            let tail = s@.skip(i as int);
            assert(tail[0] == c_hi && tail[1] == c_lo);
            assert(tail.skip(2) =~= s@.skip(i + 2));
            match parse_hex(s@.skip(i + 2)) {
                Some(r2) => {
                    assert(parse_hex(tail) == Some(seq![(hi * 16 + lo) as u8] + r2));
                    assert(pre + (seq![(hi * 16 + lo) as u8] + r2) =~= bytes@ + r2);
                },
                None => {
                    assert(parse_hex(tail) is None);
                },
            }
        }
        i = i + 2;
    }
    if i < n {
        proof {
            assert(s@.skip(i as int).len() == 1);
            assert(parse_hex(s@) is None);
        }
        return None;
    }
    proof {
        assert(s@.skip(i as int) =~= Seq::<char>::empty());
        assert(parse_hex(s@.skip(i as int)) == Some(Seq::<u8>::empty()));
        assert(bytes@ + Seq::<u8>::empty() =~= bytes@);
    }
    Some(Addr { bytes })
}

/// The contact directory after recording `name` for `addr`: the first
/// contact with that address is renamed, or a new contact is appended.
pub open spec fn upserted_contacts(cs: Seq<ContactV>, addr: Seq<u8>, name: Seq<char>) -> Seq<
    ContactV,
> {
    let i = find_contact_by_addr(cs, addr);
    if i != -1 {
        cs.update(i, ContactV { addr, name })
    } else {
        cs.push(ContactV { addr, name })
    }
}

/// Split a string at its first space, handing back what stands before
/// and after it; None when it has no space.
pub fn split_first_space(s: &String) -> (r: Option<(String, String)>)
    ensures
        ({
            let i = find_first(s@, |c: char| c == ' ');
            match r {
                Some(parts) => i != -1 && parts.0@ == s@.take(i) && parts.1@ == s@.skip(i + 1),
                None => i == -1,
            }
        }),
{
    let n = s.as_str().unicode_len();
    let ghost p = (|c: char| c == ' ');
    let mut i: usize = 0;
    while i < n
        invariant
            n == s@.len(),
            p == (|c: char| c == ' '),
            0 <= i <= n,
            forall|j: int| 0 <= j < i ==> !p(#[trigger] s@[j]),
        decreases n - i,
    {
        if s.as_str().get_char(i) == ' ' {
            proof {
                assert(p(s@[i as int]));
                lemma_find_first(s@, p);
            }
            let a = s.as_str().substring_char(0, i).to_owned();
            let b = s.as_str().substring_char(i + 1, n).to_owned();
            proof {
                assert(s@.subrange(0, i as int) =~= s@.take(i as int));
                assert(s@.subrange(i + 1, n as int) =~= s@.skip(i + 1));
            }
            return Some((a, b));
        }
        i = i + 1;
    }
    proof {
        lemma_find_first(s@, p);
    }
    None
}

/// The address a text denotes when read as a raw canonical address: it
/// must be non-empty and an even run of lower-case hexadecimal digits.
pub open spec fn parsed_addr_text(s: Seq<char>) -> Option<Seq<u8>> {
    if s.len() == 0 {
        None
    } else {
        parse_hex(s)
    }
}

/// The address a user-entered string resolves to: the address of the
/// first contact bearing it as a name, else the address it denotes in
/// canonical text form, else nothing.
pub open spec fn resolve_spec(a: AccountV, s: Seq<char>) -> Option<Seq<u8>> {
    let i = find_contact_by_name(a.contacts, s);
    if i != -1 {
        Some(a.contacts[i].addr)
    } else {
        parsed_addr_text(s)
    }
}

/// Resolve a human-entered string to an address, through the contact
/// directory first and as a raw canonical address second.
pub fn parse_addr_or_name(account: &Account, s: &str) -> (r: Option<Addr>)
    ensures
        match r {
            Some(ad) => resolve_spec(account@, s@) == Some(ad@),
            None => resolve_spec(account@, s@) is None,
        },
{
    let owned = s.to_owned();
    let n = account.contacts.len();
    let ghost cs = account@.contacts;
    let ghost p = (|c: ContactV| c.name == s@);
    let mut i: usize = 0;
    while i < n
        invariant
            n == cs.len(),
            cs == account@.contacts,
            owned@ == s@,
            p == (|c: ContactV| c.name == s@),
            0 <= i <= n,
            forall|j: int| 0 <= j < i ==> !p(#[trigger] cs[j]),
        decreases n - i,
    {
        if account.contacts[i].name == owned {
            proof {
                assert(p(cs[i as int]));
                lemma_find_first(cs, p);
            }
            return Some(account.contacts[i].addr.clone());
        }
        i = i + 1;
    }
    proof {
        lemma_find_first(cs, p);
        assert(find_contact_by_name(cs, s@) == -1);
    }
    parse_addr(s)
}

/// What an address is shown as: "me" for the account's own address, the
/// name of the first contact holding it, else its canonical text form.
pub open spec fn display_spec(a: AccountV, addr: Seq<u8>) -> Seq<char> {
    if addr == a.account.addr {
        seq!['m', 'e']
    } else {
        let i = find_contact_by_addr(a.contacts, addr);
        if i != -1 {
            a.contacts[i].name
        } else {
            hex_of(addr)
        }
    }
}

/// Render an address for display, preferring "me" and contact names over
/// the raw canonical form.
pub fn display_addr_or_name(account: &Account, addr: &Addr) -> (r: String)
    ensures
        r@ == display_spec(account@, addr@),
{
    if addr_eq(addr, &account.account.addr) {
        let me = "me".to_owned();
        proof {
            reveal_strlit("me");
            assert(me@ =~= seq!['m', 'e']);
        }
        return me;
    }
    let n = account.contacts.len();
    let ghost cs = account@.contacts;
    let ghost p = (|c: ContactV| c.addr == addr@);
    let mut i: usize = 0;
    while i < n
        invariant
            n == cs.len(),
            cs == account@.contacts,
            p == (|c: ContactV| c.addr == addr@),
            addr@ != account@.account.addr,
            0 <= i <= n,
            forall|j: int| 0 <= j < i ==> !p(#[trigger] cs[j]),
        decreases n - i,
    {
        if addr_eq(&account.contacts[i].addr, addr) {
            proof {
                assert(p(cs[i as int]));
                lemma_find_first(cs, p);
                assert(find_contact_by_addr(cs, addr@) == i as int);
            }
            return account.contacts[i].name.clone();
        }
        i = i + 1;
    }
    proof {
        lemma_find_first(cs, p);
        assert(find_contact_by_addr(cs, addr@) == -1);
    }
    render_addr(addr)
}

} // verus!

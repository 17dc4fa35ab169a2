use sufec_chat_core::data::{Account, Addr, Contact, Identity};
use sufec_chat_core::ui::{visible_messages, wrapped_line_count};
use sufec_chat_core::util::{display_addr_or_name, parse_addr, parse_addr_or_name, render_addr};

fn addr(b: &[u8]) -> Addr {
    Addr { bytes: b.to_vec() }
}

fn directory_account() -> Account {
    Account {
        account: Identity { addr: addr(&[9, 9]), secret: Vec::new() },
        contacts: vec![
            Contact { addr: addr(&[1]), name: String::from("ann") },
            Contact { addr: addr(&[2]), name: String::from("ann") },
            Contact { addr: addr(&[3]), name: String::from("carl") },
        ],
        eph_pub: Vec::new(),
        eph_sec: Vec::new(),
        rooms: Vec::new(),
    }
}

#[test]
fn render_is_lowercase_hex() {
    assert_eq!(render_addr(&addr(&[])), "");
    assert_eq!(render_addr(&addr(&[0])), "00");
    assert_eq!(render_addr(&addr(&[0x0f, 0xa0, 0xff])), "0fa0ff");
}

#[test]
fn parse_inverts_render() {
    let a = addr(&[0, 1, 0x7f, 0xfe]);
    let text = render_addr(&a);
    let back = parse_addr(text.as_str()).expect("canonical text parses");
    assert_eq!(back.bytes, a.bytes);
}

#[test]
fn parse_rejects_bad_text() {
    assert!(parse_addr("0").is_none());
    assert!(parse_addr("0g").is_none());
    assert!(parse_addr("ABC1").is_none());
    assert!(parse_addr("").is_none());
    assert_eq!(parse_addr("00ff").expect("parses").bytes, vec![0, 255]);
}

#[test]
fn resolve_prefers_first_contact_of_a_name() {
    let account = directory_account();
    // Two contacts share the name: the first wins.
    let hit = parse_addr_or_name(&account, "ann").expect("resolves");
    assert_eq!(hit.bytes, vec![1]);
    // No such name: fall back to the raw address form.
    let raw = parse_addr_or_name(&account, "0405").expect("resolves");
    assert_eq!(raw.bytes, vec![4, 5]);
    // Neither a name nor an address.
    assert!(parse_addr_or_name(&account, "nobody").is_none());
}

#[test]
fn display_name_precedence() {
    let account = directory_account();
    assert_eq!(display_addr_or_name(&account, &addr(&[9, 9])), "me");
    assert_eq!(display_addr_or_name(&account, &addr(&[3])), "carl");
    assert_eq!(display_addr_or_name(&account, &addr(&[0xaa, 0xbb])), "aabb");
}

#[test]
fn wrapping_is_length_over_width_rounded_up() {
    assert_eq!(wrapped_line_count(0, 10), 0);
    assert_eq!(wrapped_line_count(1, 10), 1);
    assert_eq!(wrapped_line_count(10, 10), 1);
    assert_eq!(wrapped_line_count(11, 10), 2);
    assert_eq!(wrapped_line_count(20, 10), 2);
    assert_eq!(wrapped_line_count(21, 10), 3);
}

#[test]
fn visible_messages_fill_bottom_up() {
    // Five messages needing 1, 2, 1, 3 and 1 lines at width 10.
    let lens: Vec<usize> = vec![5, 15, 10, 25, 1];
    // No scrolling, tall pane: everything is visible, newest first.
    assert_eq!(visible_messages(&lens, 10, 24, 0), vec![4, 3, 2, 1, 0]);
    // A pane of 4 rows: the newest (1 line) and the next (3 lines) fill it.
    assert_eq!(visible_messages(&lens, 10, 4, 0), vec![4, 3]);
    // 5 rows: one more message starts at the top edge.
    assert_eq!(visible_messages(&lens, 10, 5, 0), vec![4, 3, 2]);
    // Scrolling by two hides the two newest.
    assert_eq!(visible_messages(&lens, 10, 24, 2), vec![2, 1, 0]);
    // Scrolling past the end shows nothing.
    assert_eq!(visible_messages(&lens, 10, 24, 9), Vec::<usize>::new());
}

use ircd_core::connection::{Connection, ReceiveError};
use ircd_core::reply::IrcResponse;

fn lines(responses: &[IrcResponse]) -> Vec<String> {
    responses.iter().map(|r| r.to_wire()).collect()
}

fn none() -> Vec<String> {
    Vec::new()
}

#[test]
fn new_connection_has_nothing_pending() {
    let connection = Connection::new("10.0.0.1".to_string());
    assert_eq!(connection.pending(), "");
    assert_eq!(connection.client().peer_address(), "10.0.0.1");
    assert!(!connection.client().is_registered());
}

#[test]
fn registration_in_one_read() {
    let mut connection = Connection::new("10.0.0.1".to_string());
    let responses =
        connection.receive(b"CAP LS 302\r\nNICK alice\r\nUSER al 0 * :Alice A\r\n").unwrap();
    assert_eq!(
        lines(&responses),
        [":blablaserver 001 alice :Welcome to the internet relay network alice!al@10.0.0.1\r\n"]
    );
    assert_eq!(connection.pending(), "");
    assert!(connection.client().is_registered());
}

#[test]
fn replies_come_in_the_order_of_the_lines() {
    let mut connection = Connection::new("h".to_string());
    let responses = connection
        .receive(b"FOO bar\r\nNICK a\r\nCAP FOO\r\nUSER u 0 * r\r\nNICK b\r\nUSER \r\nUSE")
        .unwrap();
    assert_eq!(
        lines(&responses),
        [
            ":blablaserver 421 FOO :Unknown command\r\n",
            ":blablaserver 410 * FOO :Invalid CAP command\r\n",
            ":blablaserver 001 a :Welcome to the internet relay network a!u@h\r\n",
            ":blablaserver 462 :Unauthorized command (already registered)\r\n",
            ":blablaserver 461 USER :Not enough parameters\r\n",
        ]
    );
    assert_eq!(connection.pending(), "USE");
}

#[test]
fn line_split_over_reads_is_handled_once() {
    let line = "USER al 0 * :Alice A\r\n";
    for cut in 0..=line.len() {
        let mut connection = Connection::new("10.0.0.1".to_string());
        assert_eq!(lines(&connection.receive(b"NICK alice\r\n").unwrap()), none());
        let (head, tail) = line.as_bytes().split_at(cut);
        let first = connection.receive(head).unwrap();
        assert_eq!(connection.pending(), &line[..cut % line.len()]);
        let mut all = lines(&first);
        if cut < line.len() {
            assert_eq!(all, none());
            all.extend(lines(&connection.receive(tail).unwrap()));
        }
        assert_eq!(
            all,
            [":blablaserver 001 alice :Welcome to the internet relay network alice!al@10.0.0.1\r\n"]
        );
        assert_eq!(connection.pending(), "");
    }
}

#[test]
fn line_fed_byte_by_byte() {
    let line = b"FOO bar\r\n";
    let mut connection = Connection::new("10.0.0.1".to_string());
    for (i, byte) in line.iter().enumerate() {
        let responses = connection.receive(&[*byte]).unwrap();
        if i + 1 < line.len() {
            assert_eq!(lines(&responses), none());
            assert_eq!(connection.pending().as_bytes(), &line[..i + 1]);
        } else {
            assert_eq!(lines(&responses), [":blablaserver 421 FOO :Unknown command\r\n"]);
            assert_eq!(connection.pending(), "");
        }
    }
}

#[test]
fn incomplete_line_stays_pending_untouched() {
    let mut connection = Connection::new("10.0.0.1".to_string());
    assert_eq!(lines(&connection.receive(b"NICK al").unwrap()), none());
    assert_eq!(connection.pending(), "NICK al");
    assert_eq!(lines(&connection.receive(b"").unwrap()), none());
    assert_eq!(connection.pending(), "NICK al");
    assert_eq!(connection.client().nickname(), None);
    assert_eq!(lines(&connection.receive(b"ice\r\n").unwrap()), none());
    assert_eq!(connection.pending(), "");
    assert_eq!(connection.client().nickname(), Some("alice"));
}

#[test]
fn malformed_bytes_take_the_rest_of_the_buffer_along() {
    let mut connection = Connection::new("10.0.0.1".to_string());
    let responses = connection.receive(b"!!! no command\r\nNICK alice\r\nFOO bar\r\n").unwrap();
    assert_eq!(lines(&responses), none());
    assert_eq!(connection.pending(), "");
    assert_eq!(connection.client().nickname(), None);
    let responses = connection.receive(b"NICK bob\r\nFOO bar\r\n").unwrap();
    assert_eq!(lines(&responses), [":blablaserver 421 FOO :Unknown command\r\n"]);
    assert_eq!(connection.client().nickname(), Some("bob"));
}

#[test]
fn lines_before_malformed_bytes_are_handled() {
    let mut connection = Connection::new("10.0.0.1".to_string());
    let responses = connection.receive(b"FOO bar\r\n\r\nNICK alice\r\n").unwrap();
    assert_eq!(lines(&responses), [":blablaserver 421 FOO :Unknown command\r\n"]);
    assert_eq!(connection.pending(), "");
    assert_eq!(connection.client().nickname(), None);
}

#[test]
fn malformed_pending_bytes_are_dropped_when_it_shows() {
    let mut connection = Connection::new("10.0.0.1".to_string());
    assert_eq!(lines(&connection.receive(b"NICK").unwrap()), none());
    assert_eq!(connection.pending(), "NICK");
    assert_eq!(lines(&connection.receive(b"!alice\r\nNICK bob\r\n").unwrap()), none());
    assert_eq!(connection.pending(), "");
    assert_eq!(connection.client().nickname(), None);
}

#[test]
fn bytes_that_are_not_text_are_refused() {
    let mut connection = Connection::new("10.0.0.1".to_string());
    assert_eq!(lines(&connection.receive(b"NICK al").unwrap()), none());
    assert_eq!(connection.receive(b"ice\xff\r\n").err(), Some(ReceiveError::InvalidText));
    assert_eq!(connection.pending(), "NICK al");
    assert_eq!(connection.client().nickname(), None);
    assert_eq!(connection.receive(&[0xc0, 0x80]).err(), Some(ReceiveError::InvalidText));
    assert_eq!(connection.receive(&[0xed, 0xa0, 0x80]).err(), Some(ReceiveError::InvalidText));
    assert_eq!(connection.receive(&[0xf4, 0x90, 0x80, 0x80]).err(), Some(ReceiveError::InvalidText));
}

#[test]
fn read_that_splits_a_character_is_refused() {
    let text = "NICK żółw\r\n".as_bytes();
    let mut connection = Connection::new("10.0.0.1".to_string());
    assert_eq!(connection.receive(&text[..6]).err(), Some(ReceiveError::InvalidText));
    assert_eq!(connection.pending(), "");
    assert_eq!(lines(&connection.receive(&text[..5]).unwrap()), none());
    assert_eq!(connection.receive(&text[5..6]).err(), Some(ReceiveError::InvalidText));
    assert_eq!(lines(&connection.receive(&text[5..]).unwrap()), none());
    assert_eq!(connection.client().nickname(), Some("żółw"));
}

#[test]
fn text_beyond_ascii_goes_through() {
    let mut connection = Connection::new("10.0.0.1".to_string());
    let responses =
        connection.receive("NICK żółw\r\nUSER gęś 0 * :Zażółć Gęślą\r\n".as_bytes()).unwrap();
    assert_eq!(
        lines(&responses),
        [":blablaserver 001 żółw :Welcome to the internet relay network żółw!gęś@10.0.0.1\r\n"]
    );
}

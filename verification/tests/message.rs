use rustorrent::message::{parser_message, Message};

fn parse(buf: &[u8], message: Message) {
    assert_eq!(parser_message(buf).unwrap().1, message);
}

#[test]
fn message_keepalive() {
    parse(&[0, 0, 0, 0], Message::KeepAlive);
}

#[test]
fn message_choke() {
    parse(&[0, 0, 0, 1, 0], Message::Choke);
}

#[test]
fn message_unchoke() {
    parse(&[0, 0, 0, 1, 1], Message::Unchoke);
}

#[test]
fn message_interested() {
    parse(&[0, 0, 0, 1, 2], Message::Interested);
}

#[test]
fn message_notinterested() {
    parse(&[0, 0, 0, 1, 3], Message::NotInterested);
}

#[test]
fn message_have() {
    parse(
        &[0, 0, 0, 5, 4, 0, 0, 0, 10],
        Message::Have { piece_index: 10 },
    );
}

#[test]
fn message_bitfield() {
    parse(&[0, 0, 0, 4, 5, 1, 2, 3], Message::Bitfield(vec![1, 2, 3]));
}

#[test]
fn message_request() {
    parse(
        &[0, 0, 0, 13, 6, 0, 0, 0, 1, 0, 0, 0, 2, 0, 0, 0, 3],
        Message::Request {
            index: 1,
            begin: 2,
            length: 3,
        },
    );
}

#[test]
fn message_piece() {
    parse(
        &[0, 0, 0, 14, 7, 0, 0, 0, 1, 0, 0, 0, 2, 1, 2, 3, 4, 5],
        Message::Piece {
            index: 1,
            begin: 2,
            block: vec![1, 2, 3, 4, 5],
        },
    );
}

#[test]
fn message_cancel() {
    parse(
        &[0, 0, 0, 13, 8, 0, 0, 0, 11, 0, 0, 0, 22, 0, 0, 0, 33],
        Message::Cancel {
            index: 11,
            begin: 22,
            length: 33,
        },
    );
}

#[test]
fn message_port() {
    parse(&[0, 0, 0, 3, 9, 0, 101], Message::Port(101));
}

#[test]
fn message_needs_all_its_bytes() {
    assert!(parser_message(&[0, 0, 0, 5, 4, 0, 0]).is_err());
    assert!(parser_message(&[0, 0, 0]).is_err());
    let (rest, message) = parser_message(&[0, 0, 0, 1, 1, 9, 9]).unwrap();
    assert_eq!(message, Message::Unchoke);
    assert_eq!(rest, &[9, 9]);
}

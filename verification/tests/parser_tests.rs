use gridgame::packet::Message;
use gridgame::packet::Packet::{self, Complete, Incomplete};
use gridgame::parser::PacketParser;

#[test]
fn test_parse() {
    let mut parser = PacketParser::new();

    parser.push(b"update\n");
    assert_eq!(parser.pop(), Some(Complete(Message::Update)));

    parser.push(b"remove\n");
    assert_eq!(parser.pop(), Some(Complete(Message::Remove)));

    parser.push(b"init 3 2 5 6\n");
    assert_eq!(parser.pop(), Some(Complete(Message::Unknown)));
}

#[test]
fn test_sliced_packet() {
    let mut parser = PacketParser::new();

    parser.push(b"upda");
    assert_eq!(parser.iter().last(), Some(&Incomplete(b"upda".to_vec())));
    assert_eq!(parser.pop(), None);

    parser.push(b"te\n");
    assert_eq!(parser.iter().last(), Some(&Complete(Message::Update)));
    assert_eq!(parser.pop(), Some(Complete(Message::Update)));

    parser.push(b"remove");
    assert_eq!(parser.iter().last(), Some(&Incomplete(b"remove".to_vec())));
    assert_eq!(parser.pop(), None);

    parser.push(b"\n");
    assert_eq!(parser.iter().last(), Some(&Complete(Message::Remove)));
    assert_eq!(parser.pop(), Some(Complete(Message::Remove)));

    parser.push(b"init 3 2 5 6\nupdate\nre");
    let quess = vec![
        Complete(Message::Unknown),
        Complete(Message::Update),
        Incomplete(b"re".to_vec()),
    ];
    let entries = parser.iter();
    for it in entries.iter().zip(quess.iter()) {
        assert_eq!(it.0, it.1);
    }

    parser.push(b"move\n");
    let quess = vec![
        Complete(Message::Unknown),
        Complete(Message::Update),
        Complete(Message::Remove),
    ];
    let entries = parser.iter();
    for it in entries.iter().zip(quess.iter()) {
        assert_eq!(it.0, it.1);
    }
}

#[test]
fn test_empty_packet() {
    let mut parser = PacketParser::new();

    parser.push(b"");
    assert_eq!(parser.len(), 0);

    parser.push(b"\n");
    assert_eq!(parser.len(), 1);
    assert_eq!(parser.pop(), Some(Complete(Message::Unknown)));
}

#[test]
fn test_incomplete_pop() {
    let mut parser = PacketParser::new();

    parser.push(b"upda");
    assert_eq!(parser.pop(), None);

    parser.push(b"te\n");
    assert_eq!(parser.pop(), Some(Complete(Message::Update)));
}

#[test]
fn test_merged_packet() {
    let mut parser = PacketParser::new();

    let packets =
        b"update\nupdate\nremove\ninit 3 2 5 6\nhello!\n\n\n \nupdate\nstart localhost:8080\nremove\n";
    parser.push(packets);
    assert_eq!(parser.len(), packets.iter().filter(|&&x| x == b'\n').count());

    let quess = vec![
        Complete(Message::Update),
        Complete(Message::Update),
        Complete(Message::Remove),
        Complete(Message::Unknown),
        Complete(Message::Unknown),
        Complete(Message::Unknown),
        Complete(Message::Unknown),
        Complete(Message::Unknown),
        Complete(Message::Update),
        Complete(Message::Unknown),
        Complete(Message::Remove),
    ];
    let entries = parser.iter();
    for it in entries.iter().zip(quess.iter()) {
        assert_eq!(it.0, it.1);
    }
}

#[test]
fn test_merged_and_sliced_packet() {
    let mut parser = PacketParser::new();

    let packets1: &[u8] = b"update\nupdate";
    let packets2: &[u8] = b"\nremove\ninit 3 2 5 ";
    let packets3: &[u8] = b"6\nhello!\n\n\n \nupdate\nstart localh";
    let packets4: &[u8] = b"ost:8080\nremove\n";
    parser.push(packets1);
    parser.push(packets2);
    parser.push(packets3);
    parser.push(packets4);
    assert_eq!(
        parser.len(),
        packets1.iter().filter(|&&x| x == b'\n').count()
            + packets2.iter().filter(|&&x| x == b'\n').count()
            + packets3.iter().filter(|&&x| x == b'\n').count()
            + packets4.iter().filter(|&&x| x == b'\n').count()
    );

    let quess = vec![
        Complete(Message::Update),
        Complete(Message::Update),
        Complete(Message::Remove),
        Complete(Message::Unknown),
        Complete(Message::Unknown),
        Complete(Message::Unknown),
        Complete(Message::Unknown),
        Complete(Message::Unknown),
        Complete(Message::Update),
        Complete(Message::Unknown),
        Complete(Message::Remove),
    ];
    let entries = parser.iter();
    for it in entries.iter().zip(quess.iter()) {
        assert_eq!(it.0, it.1);
    }
}

#[test]
fn delimiter_framing_three_frames_in_one_push() {
    let mut parser = PacketParser::new();
    parser.push(b"update\nremove\ninit 3 2 5 6\n");
    assert_eq!(parser.len(), 3);
    assert_eq!(parser.pop(), Some(Complete(Message::Update)));
    assert_eq!(parser.pop(), Some(Complete(Message::Remove)));
    assert_eq!(parser.pop(), Some(Complete(Message::Unknown)));
    assert_eq!(parser.pop(), None);
    assert!(parser.is_empty());
}

#[test]
fn split_push_equals_single_push() {
    let stream: &[u8] = b"update\nremove\nupdate\nping leftover";
    let mut one = PacketParser::new();
    one.push(stream);

    let mut two = PacketParser::new();
    for chunk in stream.chunks(3) {
        two.push(chunk);
    }

    let a = one.iter();
    let b = two.iter();
    assert_eq!(a.len(), b.len());
    for (x, y) in a.iter().zip(b.iter()) {
        assert_eq!(x, y);
    }
}

#[test]
fn front_back_and_clear() {
    let mut parser = PacketParser::new();
    parser.push(b"update\npartial");
    assert_eq!(parser.front(), Some(&Complete(Message::Update)));
    assert_eq!(parser.back(), Some(&Incomplete(b"partial".to_vec())));
    parser.clear();
    assert!(parser.is_empty());
    assert_eq!(parser.front(), None);
    assert_eq!(parser.back(), None);
    assert_eq!(parser.pop(), None);
}

#[test]
fn incomplete_packets_compare_by_bytes() {
    let a = Packet::Incomplete(vec![1, 2, 3]);
    let b = Packet::Incomplete(vec![1, 2, 3]);
    let c = Packet::Incomplete(vec![1, 2, 4]);
    assert_eq!(a, b);
    assert_ne!(a, c);
    assert_ne!(a, Packet::Complete(Message::Update));
    let d = a.clone();
    assert_eq!(a, d);
}

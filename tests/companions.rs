use resolve::file::{close_file, open_file, File, FileState};
use resolve::sats::{fetch_sat_ids, CubeSat, GroundStation, Mailbox, Message};

#[test]
fn mailbox_delivers_each_satellite_its_own_message() {
    let mut mailbox = Mailbox { messages: vec![] };
    let base = GroundStation;
    for id in fetch_sat_ids() {
        base.send(&mut mailbox, Message { to: id, content: String::from("hello") });
    }
    for id in fetch_sat_ids() {
        let sat = base.connect(id);
        let msg = sat.recv(&mut mailbox).unwrap();
        assert_eq!(msg.to, id);
        assert_eq!(msg.content, "hello");
    }
    assert!(mailbox.messages.is_empty());
}

#[test]
fn deliver_takes_the_first_matching_message_only() {
    let mut mailbox = Mailbox { messages: vec![] };
    mailbox.post(Message { to: 2, content: String::from("a") });
    mailbox.post(Message { to: 1, content: String::from("b") });
    mailbox.post(Message { to: 2, content: String::from("c") });
    let got = mailbox.deliver(&CubeSat { id: 2 }).unwrap();
    assert_eq!(got.content, "a");
    assert_eq!(mailbox.messages.len(), 2);
    assert_eq!(mailbox.messages[0].content, "b");
    assert_eq!(mailbox.messages[1].content, "c");
    assert!(mailbox.deliver(&CubeSat { id: 9 }).is_none());
    assert_eq!(mailbox.messages.len(), 2);
}

#[test]
fn fetch_sat_ids_lists_three() {
    assert_eq!(fetch_sat_ids(), vec![1, 2, 3]);
}

#[test]
fn closed_file_cannot_be_read() {
    let f = File::new_with_data("readme.md", &vec![114, 117, 115, 116, 33]);
    let mut buf = vec![1u8];
    assert_eq!(f.read(&mut buf).unwrap_err(), "File must be open for reading");
    assert_eq!(buf, vec![1u8]);
    assert_eq!(f.state.label(), "CLOSED");
}

#[test]
fn open_file_reads_its_data() {
    let mut f = File::new_with_data("readme.md", &vec![114, 117, 115, 116, 33]);
    f.state = FileState::Open;
    let mut buf = vec![7u8];
    assert_eq!(f.read(&mut buf).unwrap(), 5);
    assert_eq!(buf, vec![7, 114, 117, 115, 116, 33]);
    assert_eq!(f.state.label(), "OPEN");
}

#[test]
fn new_file_is_empty_and_closed() {
    let f = File::new("x");
    assert_eq!(f.name, "x");
    assert!(f.data.is_empty());
    assert_eq!(f.state, FileState::Closed);
}

#[test]
fn open_then_close_keeps_the_contents() {
    // An interruption is possible but rare; retry until the call goes through.
    let mut f = File::new_with_data("a", &vec![1, 2]);
    loop {
        match open_file(f) {
            Ok(g) => {
                f = g;
                break;
            }
            Err(e) => {
                assert_eq!(e, "Interrupted by signal!");
                f = File::new_with_data("a", &vec![1, 2]);
            }
        }
    }
    assert_eq!(f.state, FileState::Open);
    let f = loop {
        let copy = File { name: f.name.clone(), data: f.data.clone(), state: f.state };
        if let Ok(g) = close_file(copy) {
            break g;
        }
    };
    assert_eq!(f.state, FileState::Closed);
    assert_eq!(f.data, vec![1, 2]);
}


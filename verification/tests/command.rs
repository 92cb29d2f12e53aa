use bohime::command::{Command, CommandError, Mutation};
use bohime::session::RequestCtx;

fn put(key: &[u8], value: &[u8]) -> Command {
    Command::new(None, Mutation::Put { key: key.to_vec(), value: value.to_vec() })
}

#[test]
fn put_round_trips() {
    let cmd = put(b"k", b"v");
    assert_eq!(Command::decode(&cmd.encode()).unwrap(), Some(cmd));
}

#[test]
fn delete_round_trips() {
    let cmd = Command::new(None, Mutation::Delete { key: b"k".to_vec() });
    assert_eq!(Command::decode(&cmd.encode()).unwrap(), Some(cmd));
}

#[test]
fn cas_round_trips_including_the_absent_expectation() {
    let absent = Command::new(
        None,
        Mutation::Cas { key: b"k".to_vec(), expected: None, new_value: b"v".to_vec() },
    );
    let empty = Command::new(
        None,
        Mutation::Cas { key: b"k".to_vec(), expected: Some(Vec::new()), new_value: b"v".to_vec() },
    );
    assert_eq!(Command::decode(&absent.encode()).unwrap(), Some(absent.clone()));
    assert_eq!(Command::decode(&empty.encode()).unwrap(), Some(empty.clone()));
    assert_ne!(absent, empty, "'if absent' and 'if empty' must stay different operations");
}

#[test]
fn the_request_context_survives_the_log() {
    let cmd = Command::new(
        Some(RequestCtx { client_id: 9, sequence: 4 }),
        Mutation::Delete { key: b"k".to_vec() },
    );
    let back = Command::decode(&cmd.encode()).unwrap().unwrap();
    assert_eq!(back.ctx, Some(RequestCtx { client_id: 9, sequence: 4 }));
}

#[test]
fn the_leaders_no_op_decodes_as_nothing() {
    assert_eq!(Command::decode(&[]).unwrap(), None);
}

#[test]
fn no_real_command_encodes_to_nothing() {
    let empty_put = put(b"", b"");
    assert!(!empty_put.encode().is_empty(), "an empty put must not collide with the no-op");
    let empty_delete = Command::new(None, Mutation::Delete { key: Vec::new() });
    assert!(!empty_delete.encode().is_empty());
    assert_eq!(Command::decode(&empty_put.encode()).unwrap(), Some(empty_put));
}

#[test]
fn garbage_is_an_error_not_a_silent_no_op() {
    assert!(Command::decode(&[0xff, 0xff, 0xff, 0xff, 0xff]).is_err());
}

#[test]
fn no_real_command_collides_with_a_conf_entry() {
    let cmds = vec![
        put(b"k", b"v"),
        put(b"", b""),
        Command::new(None, Mutation::Delete { key: b"k".to_vec() }),
        Command::new(
            Some(RequestCtx { client_id: 7, sequence: 3 }),
            Mutation::Cas { key: b"k".to_vec(), expected: None, new_value: b"v".to_vec() },
        ),
    ];
    for cmd in &cmds {
        let bytes = cmd.encode();
        assert!(
            bytes.first().is_some_and(|b| *b == 0x00 || *b == 0x01),
            "first byte is the Option tag: {bytes:?}"
        );
        assert!(!bytes.starts_with(b"RCF9"), "command must not carry the conf magic");
    }
}

/// The layout, byte by byte: the context's tag, the operation's number, then
/// each field behind its length.
#[test]
fn a_put_has_this_stored_form() {
    let bytes = put(b"k", b"vw").encode();
    let mut want: Vec<u8> = vec![0];
    want.extend([0, 0, 0, 0]);
    want.extend([1, 0, 0, 0, 0, 0, 0, 0]);
    want.push(b'k');
    want.extend([2, 0, 0, 0, 0, 0, 0, 0]);
    want.extend(b"vw");
    assert_eq!(bytes, want);
}

#[test]
fn a_tracked_cas_has_this_stored_form() {
    let cmd = Command::new(
        Some(RequestCtx { client_id: 0x0102, sequence: 3 }),
        Mutation::Cas { key: vec![9], expected: Some(Vec::new()), new_value: vec![] },
    );
    let mut want: Vec<u8> = vec![1];
    want.extend([2, 1, 0, 0, 0, 0, 0, 0]);
    want.extend([3, 0, 0, 0, 0, 0, 0, 0]);
    want.extend([2, 0, 0, 0]);
    want.extend([1, 0, 0, 0, 0, 0, 0, 0]);
    want.push(9);
    want.push(1);
    want.extend([0; 8]);
    want.extend([0; 8]);
    assert_eq!(cmd.encode(), want);
    assert_eq!(Command::decode(&want), Ok(Some(cmd)));
}

#[test]
fn a_cut_command_is_refused() {
    let bytes = put(b"key", b"value").encode();
    for end in 1..bytes.len() {
        assert_eq!(Command::decode(&bytes[..end]), Err(CommandError::Encoding), "cut at {end}");
    }
}

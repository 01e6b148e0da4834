use kvs::{
    generate_response, get_response, handle_frame, parse_response, ping_response, scan_response,
    write_response, Cmd, DelVector, GetCmd, GetVector, KvStore, KvsError, PingCmd, RemoveCmd,
    ScanCmd, SetCmd, SetVector,
};

fn s(x: &str) -> String {
    x.to_string()
}

fn split_frame(frame: &[u8]) -> (u32, Vec<u8>) {
    let len = u32::from_be_bytes([frame[0], frame[1], frame[2], frame[3]]);
    (len, frame[4..].to_vec())
}

fn all_shapes() -> Vec<Cmd> {
    vec![
        Cmd::Get(GetCmd { key: s("k") }),
        Cmd::SetKey(SetCmd { key: s("key"), value: s("välue"), expire: 77 }),
        Cmd::Remove(RemoveCmd { key: s("gone") }),
        Cmd::Scan(ScanCmd { start: s("a"), end: s("z") }),
        Cmd::VGet(GetVector { key: s("v") }),
        Cmd::VSet(SetVector { key: s("v"), value: s("[1,2]"), expire: 0 }),
        Cmd::VDel(DelVector { key: s("v") }),
        Cmd::Ping(PingCmd { message: s("") }),
        Cmd::Ping(PingCmd { message: s("hi") }),
    ]
}

#[test]
fn frame_round_trip_every_shape() {
    for c in all_shapes() {
        let f = c.encode();
        let (len, payload) = split_frame(&f);
        assert_eq!(len as usize, payload.len());
        assert_eq!(Cmd::decode(len, payload), Ok(c));
    }
}

#[test]
fn encode_get_bytes() {
    let f = Cmd::Get(GetCmd { key: s("ab") }).encode();
    assert_eq!(f, vec![0, 0, 0, 7, 1, 0, 0, 0, 2, b'a', b'b']);
}

#[test]
fn encode_set_bytes() {
    let f = Cmd::SetKey(SetCmd { key: s("k"), value: s("v"), expire: 5 }).encode();
    assert_eq!(
        f,
        vec![0, 0, 0, 15, 2, 0, 0, 0, 1, b'k', 0, 0, 0, 1, b'v', 0, 0, 0, 5]
    );
}

#[test]
fn encode_scan_and_ping_opcodes() {
    let f = Cmd::Scan(ScanCmd { start: s("a"), end: s("b") }).encode();
    assert_eq!(f, vec![0, 0, 0, 11, 4, 0, 0, 0, 1, b'a', 0, 0, 0, 1, b'b']);
    let f = Cmd::Ping(PingCmd { message: s("") }).encode();
    assert_eq!(f, vec![0, 0, 0, 5, 8, 0, 0, 0, 0]);
}

#[test]
fn decode_rejects_malformed_payloads() {
    assert_eq!(Cmd::decode(0, vec![]), Err(KvsError::DecodeError));
    assert_eq!(Cmd::decode(1, vec![9]), Err(KvsError::InvalidCommand));
    assert_eq!(Cmd::decode(1, vec![0]), Err(KvsError::InvalidCommand));
    assert_eq!(Cmd::decode(0, vec![1]), Err(KvsError::DecodeError));
    assert_eq!(Cmd::decode(10, vec![1, 0, 0, 0, 1, b'a']), Err(KvsError::DecodeError));
    assert_eq!(Cmd::decode(6, vec![1, 0, 0, 0, 5, b'a']), Err(KvsError::DecodeError));
    assert_eq!(Cmd::decode(3, vec![1, 0, 0]), Err(KvsError::DecodeError));
    assert_eq!(Cmd::decode(6, vec![1, 0, 0, 0, 1, 0xff]), Err(KvsError::DecodeError));
    assert_eq!(
        Cmd::decode(11, vec![2, 0, 0, 0, 1, b'k', 0, 0, 0, 1, b'v']),
        Err(KvsError::DecodeError)
    );
}

#[test]
fn decode_reads_only_the_declared_length() {
    assert_eq!(Cmd::decode(1, vec![1, 0, 0, 0, 1, b'a']), Err(KvsError::DecodeError));
    assert_eq!(
        Cmd::decode(6, vec![1, 0, 0, 0, 1, b'a', 0, 0]),
        Ok(Cmd::Get(GetCmd { key: s("a") }))
    );
}

#[test]
fn decode_ignores_trailing_bytes() {
    assert_eq!(
        Cmd::decode(6, vec![3, 0, 0, 0, 1, b'x', 42, 42]),
        Ok(Cmd::Remove(RemoveCmd { key: s("x") }))
    );
}

#[test]
fn command_names() {
    let names: Vec<String> = all_shapes().iter().map(|c| c.to_string()).collect();
    assert_eq!(
        names,
        vec!["Get", "Set", "Remove", "Scan", "VGet", "VSet", "VDel", "Ping", "Ping"]
    );
}

fn serve(store: &mut KvStore, c: Cmd) -> Vec<u8> {
    let (len, payload) = split_frame(&c.encode());
    handle_frame(store, len, payload)
}

#[test]
fn wire_set_hello_world_answers_ok() {
    let mut store = KvStore::open(vec![]).unwrap();
    let frame = Cmd::SetKey(SetCmd { key: s("hello"), value: s("world"), expire: 0 }).encode();
    let (len, payload) = split_frame(&frame);
    assert_eq!(handle_frame(&mut store, len, payload), b"OK\n".to_vec());
    assert_eq!(store.get(s("hello")), Ok(Some(s("world"))));
}

#[test]
fn wire_ping_answers() {
    let mut store = KvStore::open(vec![]).unwrap();
    assert_eq!(serve(&mut store, Cmd::Ping(PingCmd { message: s("") })), b"OKPONG\n".to_vec());
    assert_eq!(serve(&mut store, Cmd::Ping(PingCmd { message: s("hi") })), b"OKhi\n".to_vec());
}

#[test]
fn wire_get_scan_remove() {
    let mut store = KvStore::open(vec![]).unwrap();
    assert_eq!(
        serve(&mut store, Cmd::Get(GetCmd { key: s("a") })),
        b"ErrorKey not found\n".to_vec()
    );
    serve(&mut store, Cmd::SetKey(SetCmd { key: s("a"), value: s("1"), expire: 0 }));
    serve(&mut store, Cmd::VSet(SetVector { key: s("b"), value: s("2"), expire: 9 }));
    assert_eq!(serve(&mut store, Cmd::VGet(GetVector { key: s("a") })), b"OK1\n".to_vec());
    assert_eq!(
        serve(&mut store, Cmd::Scan(ScanCmd { start: s("a"), end: s("b") })),
        b"OK1 2\n".to_vec()
    );
    assert_eq!(serve(&mut store, Cmd::Remove(RemoveCmd { key: s("a") })), b"OK\n".to_vec());
    assert_eq!(
        serve(&mut store, Cmd::VDel(DelVector { key: s("a") })),
        b"ErrorKey not found\n".to_vec()
    );
    assert_eq!(
        serve(&mut store, Cmd::Scan(ScanCmd { start: s("c"), end: s("d") })),
        b"OK\n".to_vec()
    );
}

#[test]
fn wire_malformed_frame_answers_error() {
    let mut store = KvStore::open(vec![]).unwrap();
    assert_eq!(handle_frame(&mut store, 1, vec![42]), b"ErrorInvalid command\n".to_vec());
    assert_eq!(handle_frame(&mut store, 3, vec![1, 0, 0]), b"Errordecode command error\n".to_vec());
}

#[test]
fn response_lines() {
    assert_eq!(generate_response(true, &s("v")), b"OKv\n".to_vec());
    assert_eq!(generate_response(false, &s("x")), b"Errorx\n".to_vec());
    assert_eq!(get_response(&Ok(None)), b"ErrorKey not found\n".to_vec());
    assert_eq!(
        get_response(&Err(KvsError::UnexpectedCommandType)),
        b"ErrorUnexpected command type\n".to_vec()
    );
    assert_eq!(write_response(&Ok(())), b"OK\n".to_vec());
    assert_eq!(write_response(&Err(KvsError::KeyNotFound)), b"ErrorKey not found\n".to_vec());
    assert_eq!(
        scan_response(&Ok(vec![s("a"), s("bb"), s("c")])),
        b"OKa bb c\n".to_vec()
    );
    assert_eq!(ping_response(&s("")), b"OKPONG\n".to_vec());
}

#[test]
fn parse_response_cases() {
    assert_eq!(parse_response(s("OKhi\n")), Ok(s("hi")));
    assert_eq!(parse_response(s("OKhi")), Ok(s("hi")));
    assert_eq!(parse_response(s("OK\n")), Ok(s("")));
    assert_eq!(parse_response(s("OK")), Ok(s("")));
    assert_eq!(parse_response(s("ErrorKey not found\n")), Err(KvsError::KeyNotFound));
    assert_eq!(parse_response(s("Errorboom\n")), Err(KvsError::StringError(s("boom"))));
    assert_eq!(parse_response(s("junk")), Err(KvsError::DecodeError));
}

#[test]
fn responses_parse_back() {
    let line = |b: Vec<u8>| String::from_utf8(b).unwrap();
    assert_eq!(parse_response(line(get_response(&Ok(Some(s("välue")))))), Ok(s("välue")));
    assert_eq!(parse_response(line(get_response(&Ok(None)))), Err(KvsError::KeyNotFound));
    assert_eq!(parse_response(line(write_response(&Ok(())))), Ok(s("")));
    assert_eq!(
        parse_response(line(scan_response(&Ok(vec![s("x"), s("y")])))),
        Ok(s("x y"))
    );
    assert_eq!(parse_response(line(ping_response(&s("")))), Ok(s("PONG")));
    assert_eq!(parse_response(line(ping_response(&s("yo")))), Ok(s("yo")));
    assert_eq!(
        parse_response(line(write_response(&Err(KvsError::StringError(s("bad")))))),
        Err(KvsError::StringError(s("bad")))
    );
}

#[test]
fn error_messages() {
    assert_eq!(KvsError::KeyNotFound.message(), s("Key not found"));
    assert_eq!(KvsError::DecodeError.message(), s("decode command error"));
    assert_eq!(KvsError::Io(s("disk")).message(), s("disk"));
    assert_eq!(KvsError::InvalidCommand.message(), s("Invalid command"));
}

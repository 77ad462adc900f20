use fuzzy_match::errors::{Error, ErrorKind};
use fuzzy_match::protocol::{needs_reindex, parse_request, Request, Stamp};

fn err_msg(r: Result<Request, Error>) -> String {
    match r {
        Err(e) => {
            assert_eq!(e.kind(), ErrorKind::Value);
            e.description().to_string()
        }
        Ok(r) => panic!("unexpected {:?}", r),
    }
}

#[test]
fn parses_each_request() {
    match parse_request("ADD TXT hello world\n") {
        Ok(Request::AddText(t)) => assert_eq!(t, " hello world"),
        other => panic!("{:?}", other),
    }
    match parse_request("ADD FIL /tmp/x.txt") {
        Ok(Request::AddFile(t)) => assert_eq!(t, " /tmp/x.txt"),
        other => panic!("{:?}", other),
    }
    match parse_request("BUF  foo \n") {
        Ok(Request::QueryBuffer(t)) => assert_eq!(t, "foo"),
        other => panic!("{:?}", other),
    }
    match parse_request("FIL /etc/\n") {
        Ok(Request::QueryFile(t)) => assert_eq!(t, "/etc/"),
        other => panic!("{:?}", other),
    }
}

#[test]
fn rejects_malformed_frames() {
    assert_eq!(err_msg(parse_request("AD")), "wrong frame format");
    assert_eq!(err_msg(parse_request("ADD TX")), "wrong frame format");
    assert_eq!(err_msg(parse_request("ADD BIN data")), "unknown add type");
    assert_eq!(err_msg(parse_request("GET x")), "unknown query type");
    assert_eq!(err_msg(parse_request("BUF   \n")), "empty query");
}

#[test]
fn error_constructors() {
    let e = Error::new("bad");
    assert_eq!(e.kind(), ErrorKind::Value);
    assert_eq!(e.description(), "bad");
    let e = Error::io("gone");
    assert_eq!(e.kind(), ErrorKind::Io);
    assert_eq!(e.description(), "gone");
}

#[test]
fn reindex_only_when_newer() {
    let t = Stamp { secs: 10, nanos: 5 };
    assert!(needs_reindex(None, t));
    assert!(needs_reindex(Some(Stamp { secs: 9, nanos: 999 }), t));
    assert!(needs_reindex(Some(Stamp { secs: 10, nanos: 4 }), t));
    assert!(!needs_reindex(Some(t), t));
    assert!(!needs_reindex(Some(Stamp { secs: 11, nanos: 0 }), t));
}

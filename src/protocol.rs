//! The request frames read from a client, one per line, and the rule that
//! decides when a file must be read again.
use vstd::prelude::*;
use vstd::string::StrSliceExecFns;
use crate::errors::{Error, ErrorKind};

verus! {

/// A request, decoded from one line:
/// `ADD TXT <text>`, `ADD FIL <path>`, `BUF <query>`, `FIL <path>`.
#[derive(Debug)]
pub enum Request {
    /// Add the tokens of a text.
    AddText(String),
    /// Add the tokens of a file's contents.
    AddFile(String),
    /// Search the tokens for a query.
    QueryBuffer(String),
    /// List the entries of a directory matching a typed path.
    QueryFile(String),
}

/// What a line decodes to, in terms of its characters.
pub enum Frame {
    AddText(Seq<char>),
    AddFile(Seq<char>),
    QueryBuffer(Seq<char>),
    QueryFile(Seq<char>),
    WrongFormat,
    UnknownQuery,
    UnknownAdd,
    EmptyQuery,
}

/// The text with leading and trailing white space removed, as `str::trim`
/// gives it.
pub uninterp spec fn trim_of(s: Seq<char>) -> Seq<char>;

/// Relies on `str::trim`: the text without leading and trailing white space.
#[verifier::external_body]
fn trim(s: &str) -> (r: &str)
    ensures
        r@ == trim_of(s@),
{
    s.trim()
}

/// Whether `s` begins with the three characters `a`, `b`, `c`.
pub open spec fn has_code(s: Seq<char>, a: char, b: char, c: char) -> bool {
    s.len() >= 3 && s[0] == a && s[1] == b && s[2] == c
}

/// The decoding of a line: a three-letter request code, then the trimmed
/// data; an addition's data starts with a three-letter kind.
pub open spec fn frame_spec(line: Seq<char>) -> Frame {
    if line.len() < 3 {
        Frame::WrongFormat
    } else {
        let data = trim_of(line.skip(3));
        if has_code(line, 'A', 'D', 'D') {
            if data.len() < 3 {
                Frame::WrongFormat
            } else if has_code(data, 'T', 'X', 'T') {
                Frame::AddText(data.skip(3))
            } else if has_code(data, 'F', 'I', 'L') {
                Frame::AddFile(data.skip(3))
            } else {
                Frame::UnknownAdd
            }
        } else if has_code(line, 'B', 'U', 'F') {
            if data.len() == 0 {
                Frame::EmptyQuery
            } else {
                Frame::QueryBuffer(data)
            }
        } else if has_code(line, 'F', 'I', 'L') {
            Frame::QueryFile(data)
        } else {
            Frame::UnknownQuery
        }
    }
}

/// Whether a parse result is the decoding `f`; errors are value errors with
/// the message that names the fault.
pub open spec fn parsed_as(r: Result<Request, Error>, f: Frame) -> bool {
    match f {
        Frame::AddText(t) => r matches Ok(Request::AddText(s)) && s@ == t,
        Frame::AddFile(t) => r matches Ok(Request::AddFile(s)) && s@ == t,
        Frame::QueryBuffer(t) => r matches Ok(Request::QueryBuffer(s)) && s@ == t,
        Frame::QueryFile(t) => r matches Ok(Request::QueryFile(s)) && s@ == t,
        Frame::WrongFormat => r matches Err(e) && e.kind == ErrorKind::Value && e.msg@
            == "wrong frame format"@,
        Frame::UnknownQuery => r matches Err(e) && e.kind == ErrorKind::Value && e.msg@
            == "unknown query type"@,
        Frame::UnknownAdd => r matches Err(e) && e.kind == ErrorKind::Value && e.msg@
            == "unknown add type"@,
        Frame::EmptyQuery => r matches Err(e) && e.kind == ErrorKind::Value && e.msg@
            == "empty query"@,
    }
}

/// Whether `s` begins with the three characters `a`, `b`, `c`.
fn starts_with_code(s: &str, n: usize, a: char, b: char, c: char) -> (r: bool)
    requires
        n == s@.len(),
        n >= 3,
    ensures
        r == has_code(s@, a, b, c),
{
    s.get_char(0) == a && s.get_char(1) == b && s.get_char(2) == c
}

/// Decodes one request line.
pub fn parse_request(line: &str) -> (r: Result<Request, Error>)
    ensures
        parsed_as(r, frame_spec(line@)),
{
    let n = line.unicode_len();
    if n < 3 {
        return Err(Error::new("wrong frame format"));
    }
    let data = trim(line.substring_char(3, n));
    assert(line@.subrange(3, n as int) =~= line@.skip(3));
    let m = data.unicode_len();
    if starts_with_code(line, n, 'A', 'D', 'D') {
        if m < 3 {
            return Err(Error::new("wrong frame format"));
        }
        let rest = data.substring_char(3, m);
        assert(data@.subrange(3, m as int) =~= data@.skip(3));
        if starts_with_code(data, m, 'T', 'X', 'T') {
            Ok(Request::AddText(rest.to_owned()))
        } else if starts_with_code(data, m, 'F', 'I', 'L') {
            Ok(Request::AddFile(rest.to_owned()))
        } else {
            Err(Error::new("unknown add type"))
        }
    } else if starts_with_code(line, n, 'B', 'U', 'F') {
        if m == 0 {
            Err(Error::new("empty query"))
        } else {
            Ok(Request::QueryBuffer(data.to_owned()))
        }
    } else if starts_with_code(line, n, 'F', 'I', 'L') {
        Ok(Request::QueryFile(data.to_owned()))
    } else {
        Err(Error::new("unknown query type"))
    }
}

/// A file's modification time: seconds and nanoseconds since the epoch.
#[derive(Clone, Copy, Debug, PartialEq, Eq, Structural)]
pub struct Stamp {
    pub secs: u64,
    pub nanos: u32,
}

/// Strictly earlier in time.
pub open spec fn stamp_lt(a: Stamp, b: Stamp) -> bool {
    a.secs < b.secs || (a.secs == b.secs && a.nanos < b.nanos)
}

/// Whether a file must be read: never read before, or changed since the
/// recorded time.
pub fn needs_reindex(recorded: Option<Stamp>, modified: Stamp) -> (r: bool)
    ensures
        r == match recorded {
            None => true,
            Some(t) => stamp_lt(t, modified),
        },
{
    match recorded {
        None => true,
        Some(t) => t.secs < modified.secs || (t.secs == modified.secs && t.nanos < modified.nanos),
    }
}

} // verus!

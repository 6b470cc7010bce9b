//! HTTP/3 header fields, and the checks that the server makes on a request's
//! headers to recognise an Extended CONNECT that opens a WebTransport session.
use vstd::prelude::*;
use vstd::string::StringSliceAdditionalSpecFns;
use vstd::utf8::{decode_utf8, valid_utf8};

verus! {

/// One header field: its name and value, as raw bytes.
#[derive(Clone, Debug, PartialEq, Eq)]
pub struct Header {
    pub name: Vec<u8>,
    pub value: Vec<u8>,
}

/// The bytes of a text, as UTF-8.
pub open spec fn text_bytes(s: &str) -> Seq<u8> {
    s.spec_bytes()
}

/// The text that `bytes` spell as UTF-8, or the empty text when they are not
/// valid UTF-8.
pub open spec fn utf8_or_empty(bytes: Seq<u8>) -> Seq<char> {
    if valid_utf8(bytes) {
        decode_utf8(bytes)
    } else {
        Seq::empty()
    }
}

/// True when `h` is the field `name: value`.
pub open spec fn header_is(h: Header, name: Seq<u8>, value: Seq<u8>) -> bool {
    h.name@ == name && h.value@ == value
}

/// True when some field of `hs` is `name: value`.
pub open spec fn has_header(hs: Seq<Header>, name: Seq<u8>, value: Seq<u8>) -> bool {
    exists|i: int| 0 <= i < hs.len() && header_is(#[trigger] hs[i], name, value)
}

/// True when `hs` is an Extended CONNECT request for the WebTransport protocol:
/// it has `:method: CONNECT` and `:protocol: webtransport` among its fields.
pub open spec fn is_wt_connect(hs: Seq<Header>) -> bool {
    has_header(hs, text_bytes(":method"), text_bytes("CONNECT")) && has_header(
        hs,
        text_bytes(":protocol"),
        text_bytes("webtransport"),
    )
}

/// The request path: the value of the first `:path` field read as UTF-8 (the
/// empty text when it is not UTF-8), or the empty text when there is no such field.
pub open spec fn path_of(hs: Seq<Header>) -> Seq<char>
    decreases hs.len(),
{
    if hs.len() == 0 {
        Seq::empty()
    } else if hs[0].name@ == text_bytes(":path") {
        utf8_or_empty(hs[0].value@)
    } else {
        path_of(hs.drop_first())
    }
}

/// Calls `std::str::from_utf8`, which succeeds exactly on valid UTF-8 and
/// then gives the text that the bytes encode.
#[verifier::external_body]
fn str_from_utf8(bytes: &[u8]) -> (res: Option<&str>)
    ensures
        res is Some <==> valid_utf8(bytes@),
        res matches Some(s) ==> s@ == decode_utf8(bytes@),
{
    std::str::from_utf8(bytes).ok()
}

/// Compares two byte strings.
pub fn bytes_eq(a: &[u8], b: &[u8]) -> (res: bool)
    ensures
        res == (a@ == b@),
{
    if a.len() != b.len() {
        return false;
    }
    let mut i: usize = 0;
    while i < a.len()
        invariant
            a@.len() == b@.len(),
            0 <= i <= a@.len(),
            forall|j: int| 0 <= j < i ==> a@[j] == b@[j],
        decreases a@.len() - i,
    {
        if a[i] != b[i] {
            return false;
        }
        i = i + 1;
    }
    assert(a@ =~= b@);
    true
}

/// A copy of a byte string.
fn bytes_to_vec(bytes: &[u8]) -> (v: Vec<u8>)
    ensures
        v@ == bytes@,
{
    let mut v: Vec<u8> = Vec::new();
    let mut i: usize = 0;
    while i < bytes.len()
        invariant
            0 <= i <= bytes@.len(),
            v@ == bytes@.take(i as int),
        decreases bytes@.len() - i,
    {
        v.push(bytes[i]);
        i = i + 1;
        assert(v@ =~= bytes@.take(i as int));
    }
    assert(bytes@.take(bytes@.len() as int) =~= bytes@);
    v
}

impl Header {
    /// The field `name: value`.
    pub fn new(name: &[u8], value: &[u8]) -> (h: Header)
        ensures
            h.name@ == name@,
            h.value@ == value@,
    {
        Header { name: bytes_to_vec(name), value: bytes_to_vec(value) }
    }

    /// The field's name.
    pub fn name(&self) -> (n: &[u8])
        ensures
            n@ == self.name@,
    {
        self.name.as_slice()
    }

    /// The field's value.
    pub fn value(&self) -> (v: &[u8])
        ensures
            v@ == self.value@,
    {
        self.value.as_slice()
    }
}

/// True when `h` is the field `name: value`, the text given as `&str`.
fn header_matches(h: &Header, name: &str, value: &str) -> (res: bool)
    ensures
        res == header_is(*h, text_bytes(name), text_bytes(value)),
{
    bytes_eq(h.name.as_slice(), name.as_bytes()) && bytes_eq(h.value.as_slice(), value.as_bytes())
}

/// True when `headers` ask for a WebTransport session by Extended CONNECT.
///
/// Names and values are compared as bytes. That is the same as reading them
/// as UTF-8 (taking invalid UTF-8 as the empty text) and comparing the texts:
/// the texts compared against are valid, non-empty UTF-8.
pub fn is_webtransport_connect(headers: &[Header]) -> (res: bool)
    ensures
        res == is_wt_connect(headers@),
{
    let mut is_connect = false;
    let mut has_protocol = false;
    let mut i: usize = 0;
    while i < headers.len()
        invariant
            0 <= i <= headers@.len(),
            is_connect == has_header(
                headers@.take(i as int),
                text_bytes(":method"),
                text_bytes("CONNECT"),
            ),
            has_protocol == has_header(
                headers@.take(i as int),
                text_bytes(":protocol"),
                text_bytes("webtransport"),
            ),
        decreases headers@.len() - i,
    {
        let h = &headers[i];
        let ghost before = headers@.take(i as int);
        let ghost after = headers@.take(i + 1);
        assert(after =~= before.push(*h));
        if header_matches(h, ":method", "CONNECT") {
            is_connect = true;
        }
        if header_matches(h, ":protocol", "webtransport") {
            has_protocol = true;
        }
        proof {
            lemma_has_header_push(before, *h, text_bytes(":method"), text_bytes("CONNECT"));
            lemma_has_header_push(
                before,
                *h,
                text_bytes(":protocol"),
                text_bytes("webtransport"),
            );
        }
        i = i + 1;
    }
    assert(headers@.take(headers@.len() as int) =~= headers@);
    is_connect && has_protocol
}

proof fn lemma_has_header_push(hs: Seq<Header>, h: Header, name: Seq<u8>, value: Seq<u8>)
    ensures
        has_header(hs.push(h), name, value) == (has_header(hs, name, value) || header_is(
            h,
            name,
            value,
        )),
{
    let hs2 = hs.push(h);
    if has_header(hs, name, value) {
        let i = choose|i: int| 0 <= i < hs.len() && header_is(#[trigger] hs[i], name, value);
        assert(hs2[i] == hs[i]);
    }
    if header_is(h, name, value) {
        assert(hs2[hs.len() as int] == h);
    }
    if has_header(hs2, name, value) {
        let i = choose|i: int| 0 <= i < hs2.len() && header_is(#[trigger] hs2[i], name, value);
        if i < hs.len() {
            assert(hs[i] == hs2[i]);
        }
    }
}

/// The request path of a CONNECT request (see `path_of`).
pub fn extract_path(headers: &[Header]) -> (path: String)
    ensures
        path@ == path_of(headers@),
{
    let mut i: usize = 0;
    assert(headers@.skip(0) =~= headers@);
    while i < headers.len()
        invariant
            0 <= i <= headers@.len(),
            path_of(headers@) == path_of(headers@.skip(i as int)),
        decreases headers@.len() - i,
    {
        let h = &headers[i];
        assert(headers@.skip(i as int).drop_first() =~= headers@.skip(i + 1));
        if bytes_eq(h.name.as_slice(), ":path".as_bytes()) {
            proof {
                broadcast use vstd::string::group_string_axioms;
            }
            return match str_from_utf8(h.value.as_slice()) {
                Some(s) => s.to_string(),
                None => String::new(),
            };
        }
        i = i + 1;
    }
    String::new()
}

/// The response fields that accept a WebTransport session:
/// `:status: 200` and `sec-webtransport-http3-draft: draft02`.
pub fn session_accept_headers() -> (hs: Vec<Header>)
    ensures
        hs@.len() == 2,
        header_is(hs@[0], text_bytes(":status"), text_bytes("200")),
        header_is(hs@[1], text_bytes("sec-webtransport-http3-draft"), text_bytes("draft02")),
{
    let mut hs: Vec<Header> = Vec::new();
    hs.push(Header::new(":status".as_bytes(), "200".as_bytes()));
    hs.push(Header::new("sec-webtransport-http3-draft".as_bytes(), "draft02".as_bytes()));
    hs
}

} // verus!

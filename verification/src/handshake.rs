//! The opening handshake: the headers of the upgrade request, the verdict on
//! what the HTTP tokenizer has seen, and the response that accepts the
//! upgrade.

use vstd::prelude::*;
use vstd::string::StringSliceAdditionalSpecFns;
use crate::bytes::{append_bytes, bytes_eq};

verus! {

/// One header as the tokenizer emitted it: name and value, byte for byte.
#[derive(Debug)]
struct Header {
    name: Vec<u8>,
    value: Vec<u8>,
}

/// The mapping that a run of headers builds up: each later header overwrites
/// an earlier one of the same name.
spec fn map_of(entries: Seq<Header>) -> Map<Seq<u8>, Seq<u8>>
    decreases entries.len(),
{
    if entries.len() == 0 {
        Map::empty()
    } else {
        map_of(entries.drop_last()).insert(entries.last().name@, entries.last().value@)
    }
}

/// Where no header from index `from` on has the name `name`, the mapping
/// holds at `name` what the headers before `from` put there.
proof fn lemma_map_of_tail(entries: Seq<Header>, from: int, name: Seq<u8>)
    requires
        0 <= from <= entries.len(),
        forall|j: int| from <= j < entries.len() ==> entries[j].name@ != name,
    ensures
        map_of(entries).contains_key(name) == map_of(entries.take(from)).contains_key(name),
        map_of(entries).contains_key(name) ==> map_of(entries)[name] == map_of(
            entries.take(from),
        )[name],
    decreases entries.len() - from,
{
    if from < entries.len() {
        lemma_map_of_tail(entries.drop_last(), from, name);
        assert(entries.drop_last().take(from) =~= entries.take(from));
    } else {
        assert(entries.take(from) =~= entries);
    }
}

/// The headers of a request, from name to value. Names are kept as received:
/// they differ where their bytes differ.
#[derive(Debug)]
pub struct HeaderMap {
    entries: Vec<Header>,
}

impl View for HeaderMap {
    type V = Map<Seq<u8>, Seq<u8>>;

    closed spec fn view(&self) -> Map<Seq<u8>, Seq<u8>> {
        map_of(self.entries@)
    }
}

impl HeaderMap {
    /// No headers.
    pub fn new() -> (headers: HeaderMap)
        ensures
            headers@ == Map::<Seq<u8>, Seq<u8>>::empty(),
    {
        HeaderMap { entries: Vec::new() }
    }

    /// Sets the value of `name`. The last value written is the one that stays.
    pub fn insert(&mut self, name: Vec<u8>, value: Vec<u8>)
        ensures
            final(self)@ == old(self)@.insert(name@, value@),
    {
        self.entries.push(Header { name, value });
        assert(self.entries@.drop_last() =~= old(self).entries@);
    }

    /// The value of `name`, if the request had such a header.
    pub fn get(&self, name: &[u8]) -> (value: Option<&Vec<u8>>)
        ensures
            match value {
                Some(v) => self@.contains_key(name@) && self@[name@] == v@,
                None => !self@.contains_key(name@),
            },
    {
        let mut i = self.entries.len();
        while i > 0
            invariant
                i <= self.entries@.len(),
                forall|j: int| i <= j < self.entries@.len() ==> self.entries@[j].name@ != name@,
            decreases i,
        {
            i = i - 1;
            if bytes_eq(self.entries[i].name.as_slice(), name) {
                proof {
                    lemma_map_of_tail(self.entries@, i + 1, name@);
                    assert(self.entries@.take(i + 1).drop_last() =~= self.entries@.take(i as int));
                }
                return Some(&self.entries[i].value);
            }
        }
        proof {
            lemma_map_of_tail(self.entries@, 0, name@);
        }
        None
    }
}

/// What the handler of the tokenizer's callbacks has gathered from a request
/// so far.
pub struct HttpParser {
    current_key: Option<Vec<u8>>,
    headers: HeaderMap,
    complete: bool,
}

/// The mathematical value of an [`HttpParser`].
pub struct HttpParserView {
    /// The header name most recently emitted, under which the next value goes.
    pub current_key: Option<Seq<u8>>,
    pub headers: Map<Seq<u8>, Seq<u8>>,
    /// Whether the tokenizer has reported the end of the headers.
    pub complete: bool,
}

impl View for HttpParser {
    type V = HttpParserView;

    closed spec fn view(&self) -> HttpParserView {
        HttpParserView {
            current_key: match self.current_key {
                Some(name) => Some(name@),
                None => None,
            },
            headers: self.headers@,
            complete: self.complete,
        }
    }
}

/// The verdict on a request after a chunk of it went through the tokenizer.
#[derive(Debug)]
pub enum FeedOutcome {
    /// The request is not at its end, or is no upgrade: go on reading.
    More,
    /// The headers are complete and ask for an upgrade. The headers gathered
    /// come along and pass to the connection.
    UpgradeReady(HeaderMap),
    /// The request is malformed. The connection must be closed; the same bytes
    /// are never parsed again.
    Error,
}

impl HttpParser {
    /// A handler for a request of which nothing was seen yet.
    pub fn new() -> (parser: HttpParser)
        ensures
            parser@ == (HttpParserView {
                current_key: None,
                headers: Map::empty(),
                complete: false,
            }),
    {
        HttpParser { current_key: None, headers: HeaderMap::new(), complete: false }
    }

    /// The tokenizer emitted a header name. Returns `true`: go on parsing.
    pub fn on_header_field(&mut self, s: &[u8]) -> (go_on: bool)
        ensures
            go_on,
            final(self)@ == (HttpParserView { current_key: Some(s@), ..old(self)@ }),
    {
        self.current_key = Some(vstd::slice::slice_to_vec(s));
        true
    }

    /// The tokenizer emitted a header value. It is recorded under the name
    /// emitted before it and overwrites an earlier value of that name; a value
    /// before any name is dropped. Returns `true`: go on parsing.
    pub fn on_header_value(&mut self, s: &[u8]) -> (go_on: bool)
        ensures
            go_on,
            final(self)@ == match old(self)@.current_key {
                Some(name) => HttpParserView {
                    headers: old(self)@.headers.insert(name, s@),
                    ..old(self)@
                },
                None => old(self)@,
            },
    {
        match &self.current_key {
            Some(name) => {
                let name = vstd::slice::slice_to_vec(name.as_slice());
                self.headers.insert(name, vstd::slice::slice_to_vec(s));
            },
            None => {},
        }
        true
    }

    /// The tokenizer reached the end of the headers. Returns `false`: stop
    /// there, an upgrade request has no body.
    pub fn on_headers_complete(&mut self) -> (go_on: bool)
        ensures
            !go_on,
            final(self)@ == (HttpParserView { complete: true, ..old(self)@ }),
    {
        self.complete = true;
        false
    }

    /// The verdict after a chunk was fed to the tokenizer, given what the
    /// tokenizer says of itself: whether it failed, and whether the request
    /// asks for an upgrade.
    pub fn outcome(&mut self, failed: bool, is_upgrade: bool) -> (outcome: FeedOutcome)
        ensures
            failed ==> outcome is Error && final(self)@ == old(self)@,
            !failed && old(self)@.complete && is_upgrade ==> outcome is UpgradeReady
                && outcome->UpgradeReady_0@ == old(self)@.headers && final(self)@ == (
            HttpParserView { headers: Map::empty(), ..old(self)@ }),
            !failed && !(old(self)@.complete && is_upgrade) ==> outcome is More && final(self)@
                == old(self)@,
    {
        if failed {
            FeedOutcome::Error
        } else if self.complete && is_upgrade {
            let mut headers = HeaderMap::new();
            core::mem::swap(&mut self.headers, &mut headers);
            FeedOutcome::UpgradeReady(headers)
        } else {
            FeedOutcome::More
        }
    }
}

/// The header that carries the client's nonce.
pub const SEC_WEBSOCKET_KEY: &'static str = "Sec-WebSocket-Key";

/// The fixed text that is hashed together with the client's nonce.
pub const WEBSOCKET_GUID: &'static str = "258EAFA5-E914-47DA-95CA-C5AB0DC85B11";

/// The response up to the accept value.
pub const RESPONSE_HEAD: &'static str =
    "HTTP/1.1 101 Switching Protocols\r\nConnection: Upgrade\r\nSec-WebSocket-Accept: ";

/// The response after the accept value.
pub const RESPONSE_TAIL: &'static str = "\r\nUpgrade: websocket\r\n\r\n";

/// The longest input that the hash takes: its bit counter has 64 bits.
pub const SHA1_MAX_INPUT: u64 = 0x1FFF_FFFF_FFFF_FFFF;

/// The longest nonce that can be hashed together with the fixed text.
pub const MAX_KEY_LEN: u64 = 0x1FFF_FFFF_FFFF_FFDB;

/// The SHA-1 digest of `data`, as `sha1::Sha1` computes it.
pub uninterp spec fn sha1_digest(data: Seq<u8>) -> Seq<u8>;

/// The base64 text of `data` in the standard alphabet, padded and without
/// line breaks, as `rustc_serialize` writes it.
pub uninterp spec fn base64_standard(data: Seq<u8>) -> Seq<u8>;

/// `sha1::Sha1`: a fresh hash object (`new`), fed `data` once (`update`), and
/// its result written out (`output`). Trusted: the result is the digest of
/// `data`, a function of `data` alone, and has 20 bytes. Inputs so long that
/// the crate's count of hashed bits would overflow are left out.
#[verifier::external_body]
fn sha1_of(data: &[u8]) -> (digest: Vec<u8>)
    requires
        data@.len() <= SHA1_MAX_INPUT,
    ensures
        digest@ == sha1_digest(data@),
        digest@.len() == 20,
{
    let mut hasher = sha1::Sha1::new();
    hasher.update(data);
    let mut digest: [u8; 20] = [0u8; 20];
    hasher.output(&mut digest);
    digest.to_vec()
}

/// `rustc_serialize::base64::ToBase64::to_base64` for `[u8]`, with the
/// configuration `STANDARD`. Trusted: the result is the base64 text of `data`,
/// a function of `data` alone. Inputs so long that the crate's computation of
/// the output length would overflow are left out.
#[verifier::external_body]
fn base64_of(data: &[u8]) -> (text: Vec<u8>)
    requires
        data@.len() <= 0x3FFF_FFFF,
    ensures
        text@ == base64_standard(data@),
{
    rustc_serialize::base64::ToBase64::to_base64(data, rustc_serialize::base64::STANDARD)
        .into_bytes()
}

/// The fixed text has 36 bytes.
pub proof fn lemma_guid_len()
    ensures
        WEBSOCKET_GUID.spec_bytes().len() == 36,
{
    reveal_strlit("258EAFA5-E914-47DA-95CA-C5AB0DC85B11");
    vstd::string::is_ascii_spec_bytes(WEBSOCKET_GUID);
    assert(WEBSOCKET_GUID@.len() == 36);
    assert(vstd::string::is_ascii(WEBSOCKET_GUID));
}

/// The accept value that answers the nonce `key`: the base64 text of the
/// SHA-1 digest of the nonce followed by the fixed text.
pub open spec fn accept_value(key: Seq<u8>) -> Seq<u8> {
    base64_standard(sha1_digest(key + WEBSOCKET_GUID.spec_bytes()))
}

/// Computes the accept value for the nonce of a `Sec-WebSocket-Key` header.
pub fn gen_key(key: &[u8]) -> (accept: Vec<u8>)
    requires
        key@.len() <= MAX_KEY_LEN,
    ensures
        accept@ == accept_value(key@),
{
    let mut input: Vec<u8> = Vec::new();
    append_bytes(&mut input, key);
    append_bytes(&mut input, WEBSOCKET_GUID.as_bytes());
    proof {
        lemma_guid_len();
        assert(input@ =~= key@ + WEBSOCKET_GUID.spec_bytes());
    }
    let digest = sha1_of(input.as_slice());
    base64_of(digest.as_slice())
}

/// The response that accepts an upgrade, byte for byte, around the accept
/// value `accept`.
pub open spec fn response_bytes(accept: Seq<u8>) -> Seq<u8> {
    RESPONSE_HEAD.spec_bytes() + accept + RESPONSE_TAIL.spec_bytes()
}

/// The response is never empty, whatever the accept value.
pub proof fn lemma_response_is_not_empty(accept: Seq<u8>)
    ensures
        response_bytes(accept).len() > 0,
{
    reveal_strlit("\r\nUpgrade: websocket\r\n\r\n");
    vstd::string::is_ascii_spec_bytes(RESPONSE_TAIL);
    assert(RESPONSE_TAIL@.len() == 24);
    assert(vstd::string::is_ascii(RESPONSE_TAIL));
}

/// Builds the response that accepts an upgrade with the accept value `accept`.
pub fn handshake_response(accept: &[u8]) -> (response: Vec<u8>)
    ensures
        response@ == response_bytes(accept@),
{
    let mut out: Vec<u8> = Vec::new();
    append_bytes(&mut out, RESPONSE_HEAD.as_bytes());
    append_bytes(&mut out, accept);
    append_bytes(&mut out, RESPONSE_TAIL.as_bytes());
    assert(out@ =~= response_bytes(accept@));
    out
}

} // verus!

//! A local stand-in for the Hub, for trying resumed downloads.
//!
//! The stand-in answers requests about one small repository itself and forwards
//! all others to a content store. This module decides what is answered, what is
//! kept of a request, how a payload is held back, and which content is served;
//! sockets and files are the business of the caller.

use crate::json;
use crate::json::{JsonObject, Members};
use crate::order;
use crate::path;
use crate::path::CachePath;
use crate::text;
use vstd::prelude::*;
#[allow(unused_imports)]
use vstd::string::*;
#[allow(unused_imports)]
use vstd::utf8::*;

verus! {

/// The commit that the stand-in serves.
pub const COMMIT: &'static str = "1111111111111111111111111111111111111111";

/// The token that the stand-in hands out and that clients present.
pub const TOKEN: &'static str = "fixture-only";

/// When the token expires, in seconds since the epoch.
pub const TOKEN_EXPIRY: u64 = 4102444800;

/// The status of the stand-in's own answers.
pub const STATUS_OK: u16 = 200;

/// How many bytes of a held payload go out at a time.
pub const CHUNK_LENGTH: usize = 16384;

/// How many bytes the served file has.
pub const DATA_LENGTH: usize = 8388608;

/// What a request asks for.
#[derive(Debug)]
pub struct Request {
    /// Path of the request, without the query.
    pub path: String,
    /// Whether only the head of the answer is wanted.
    pub head: bool,
    /// The `range` header, if there is one.
    pub range: Option<String>,
}

/// The content of an answer.
#[derive(Debug)]
pub enum Body {
    /// Nothing.
    Empty,
    /// A text as it stands.
    Text(String),
    /// A JSON object.
    Object(JsonObject),
    /// A JSON array.
    Array(Vec<JsonObject>),
}

/// An answer of the stand-in's own.
#[derive(Debug)]
pub struct Answer {
    pub status: u16,
    pub headers: Vec<(String, String)>,
    pub body: Body,
}

/// The content of an answer as contracts speak of it.
pub enum BodyModel {
    Empty,
    Text(Seq<char>),
    Object(Members),
    Array(Seq<Members>),
}

/// An answer as contracts speak of it.
pub struct AnswerModel {
    pub status: u16,
    pub headers: Seq<(Seq<char>, Seq<char>)>,
    pub body: BodyModel,
}

impl View for Body {
    type V = BodyModel;

    open spec fn view(&self) -> BodyModel {
        match *self {
            Body::Empty => BodyModel::Empty,
            Body::Text(text) => BodyModel::Text(text@),
            Body::Object(object) => BodyModel::Object(object@),
            Body::Array(objects) => BodyModel::Array(json::objects_of(objects@)),
        }
    }
}

impl View for Answer {
    type V = AnswerModel;

    open spec fn view(&self) -> AnswerModel {
        AnswerModel {
            status: self.status,
            headers: json::text_members(self.headers@),
            body: self.body@,
        }
    }
}

/// The text of a body.
pub open spec fn body_text(body: BodyModel) -> Seq<char> {
    match body {
        BodyModel::Empty => Seq::empty(),
        BodyModel::Text(text) => text,
        BodyModel::Object(object) => json::json_object_text(object.0, object.1),
        BodyModel::Array(objects) => json::json_array_text(objects),
    }
}

impl Body {
    /// The text of this body.
    pub fn text(&self) -> (text: String)
        ensures
            text@ == body_text(self@),
    {
        match self {
            Body::Empty => String::new(),
            Body::Text(text) => text.clone(),
            Body::Object(object) => json::write_object(object),
            Body::Array(objects) => json::write_array(objects),
        }
    }
}

/// What the stand-in knows.
#[derive(Debug)]
pub struct ServerState {
    /// Where other requests go.
    pub upstream: String,
    /// Where the stand-in listens.
    pub endpoint: String,
    /// Content hash of the served file.
    pub hash: String,
    /// Digest of the served file.
    pub etag: String,
    /// Length of the served file.
    pub size: u64,
    /// Whether the length is to be withheld.
    pub omit_size: bool,
    /// Whether payloads are to be held back.
    pub hold_payload: bool,
    /// The ranges that were asked for, in order.
    pub ranges: Vec<String>,
    /// How many payload bytes the content store has sent.
    pub payload_bytes: u64,
}

/// A listed file: kind, digest, length and path.
pub open spec fn entry(oid: Seq<char>, size: u64, name: Seq<char>) -> Members {
    (
        seq![("type"@, "file"@), ("oid"@, oid), ("path"@, name)],
        seq![("size"@, size)],
    )
}

/// Whether a path leads to the configuration file of the repository.
pub open spec fn asks_for_config(path: Seq<char>) -> bool {
    text::ends(path, "/config.json"@)
}

/// Whether a path leads to a description of how content is put together.
pub open spec fn asks_for_reconstruction(path: Seq<char>) -> bool {
    text::has_part(path, "/reconstructions/"@)
}

/// Whether a path leads into the content store's payload.
pub open spec fn asks_for_payload(path: Seq<char>) -> bool {
    text::has_part(path, "fetch_term"@)
}

impl ServerState {
    /// The length to announce.
    pub open spec fn announced_size(self) -> Seq<char> {
        if self.omit_size {
            "invalid"@
        } else {
            text::decimal(self.size as nat)
        }
    }

    /// The answer to a request, or `None` where it is forwarded. The first rule
    /// that fits the path decides.
    pub open spec fn answer(self, path: Seq<char>, head: bool) -> Option<AnswerModel> {
        if text::ends(path, "/telemetry"@) {
            Some(
                AnswerModel {
                    status: STATUS_OK,
                    headers: Seq::empty(),
                    body: BodyModel::Empty,
                },
            )
        } else if asks_for_config(path) {
            Some(
                AnswerModel {
                    status: STATUS_OK,
                    headers: seq![
                        ("etag"@, COMMIT@),
                        ("x-repo-commit"@, COMMIT@),
                        ("content-length"@, "2"@),
                    ],
                    body: if head {
                        BodyModel::Empty
                    } else {
                        BodyModel::Text("{}"@)
                    },
                },
            )
        } else if text::has_part(path, "/resolve/"@) {
            Some(
                AnswerModel {
                    status: STATUS_OK,
                    headers: seq![
                        ("etag"@, self.etag@),
                        ("x-repo-commit"@, COMMIT@),
                        ("x-xet-hash"@, self.hash@),
                        ("x-linked-size"@, self.announced_size()),
                    ],
                    body: BodyModel::Empty,
                },
            )
        } else if text::has_part(path, "xet-read-token"@) {
            Some(
                AnswerModel {
                    status: STATUS_OK,
                    headers: Seq::empty(),
                    body: BodyModel::Object(
                        (
                            seq![("accessToken"@, TOKEN@), ("casUrl"@, self.endpoint@)],
                            seq![("exp"@, TOKEN_EXPIRY)],
                        ),
                    ),
                },
            )
        } else if text::has_part(path, "/tree/"@) {
            Some(
                AnswerModel {
                    status: STATUS_OK,
                    headers: Seq::empty(),
                    body: BodyModel::Array(
                        seq![
                            entry(self.etag@, self.size, "model.bin"@),
                            entry(self.etag@, self.size, "alias.bin"@),
                            entry(COMMIT@, 2, "config.json"@),
                        ],
                    ),
                },
            )
        } else if text::starts(path, "/api/"@) {
            Some(
                AnswerModel {
                    status: STATUS_OK,
                    headers: Seq::empty(),
                    body: BodyModel::Object((seq![("sha"@, COMMIT@)], Seq::empty())),
                },
            )
        } else {
            None
        }
    }

    /// Whether the range of a request stays on record: the request is forwarded
    /// and asks for a reconstruction.
    pub open spec fn keeps_range(self, path: Seq<char>, head: bool) -> bool {
        self.answer(path, head) is None && asks_for_reconstruction(path)
    }

    /// What stays on record of a request: the range that a forwarded request
    /// for a reconstruction asks for, empty where it names none.
    pub open spec fn recorded(self, request: Request) -> Seq<Seq<char>> {
        if self.keeps_range(request.path@, request.head) {
            seq![
                match request.range {
                    Some(range) => range@,
                    None => Seq::empty(),
                },
            ]
        } else {
            Seq::empty()
        }
    }
}

/// A named text.
fn named(name: &str, value: &str) -> (member: (String, String))
    ensures
        member.0@ == name@,
        member.1@ == value@,
{
    (name.to_owned(), value.to_owned())
}

/// A listed file.
fn listed(oid: &str, size: u64, name: &str) -> (object: JsonObject)
    ensures
        object@ == entry(oid@, size, name@),
{
    let texts: Vec<(String, String)> = vec![
        named("type", "file"),
        named("oid", oid),
        named("path", name),
    ];
    let numbers: Vec<(String, u64)> = vec![("size".to_owned(), size)];
    let object = JsonObject { texts, numbers };
    proof {
        assert(object@.0 =~= entry(oid@, size, name@).0);
        assert(object@.1 =~= entry(oid@, size, name@).1);
    }
    object
}

impl ServerState {
    /// The answer to a request, or `None` where it is to be forwarded.
    pub fn route(&self, path: &str, head: bool) -> (answer: Option<Answer>)
        ensures
            match answer {
                Some(own) => self.answer(path@, head) == Some(own@),
                None => self.answer(path@, head) is None,
            },
    {
        if text::ends_with(path, "/telemetry") {
            let answer = Answer { status: STATUS_OK, headers: Vec::new(), body: Body::Empty };
            assert(answer@.headers =~= Seq::empty());
            return Some(answer);
        }
        if text::ends_with(path, "/config.json") {
            let headers: Vec<(String, String)> = vec![
                named("etag", COMMIT),
                named("x-repo-commit", COMMIT),
                named("content-length", "2"),
            ];
            let body: Body = if head {
                Body::Empty
            } else {
                Body::Text("{}".to_owned())
            };
            let answer = Answer { status: STATUS_OK, headers, body };
            assert(answer@.headers =~= self.answer(path@, head)->0.headers);
            return Some(answer);
        }
        if text::contains(path, "/resolve/") {
            let mut size: String = String::new();
            if self.omit_size {
                size.append("invalid");
            } else {
                text::push_decimal(&mut size, self.size);
            }
            assert(size@ =~= self.announced_size());
            let headers: Vec<(String, String)> = vec![
                named("etag", self.etag.as_str()),
                named("x-repo-commit", COMMIT),
                named("x-xet-hash", self.hash.as_str()),
                named("x-linked-size", size.as_str()),
            ];
            let answer = Answer { status: STATUS_OK, headers, body: Body::Empty };
            assert(answer@.headers =~= self.answer(path@, head)->0.headers);
            return Some(answer);
        }
        if text::contains(path, "xet-read-token") {
            let texts: Vec<(String, String)> = vec![
                named("accessToken", TOKEN),
                named("casUrl", self.endpoint.as_str()),
            ];
            let numbers: Vec<(String, u64)> = vec![("exp".to_owned(), TOKEN_EXPIRY)];
            let object = JsonObject { texts, numbers };
            let ghost members = object@;
            let body = Body::Object(object);
            let answer = Answer { status: STATUS_OK, headers: Vec::new(), body };
            proof {
                let own = self.answer(path@, head)->0;
                assert(answer@.headers =~= Seq::empty());
                assert(members.0 =~= own.body->Object_0.0);
                assert(members.1 =~= own.body->Object_0.1);
            }
            return Some(answer);
        }
        if text::contains(path, "/tree/") {
            let objects: Vec<JsonObject> = vec![
                listed(self.etag.as_str(), self.size, "model.bin"),
                listed(self.etag.as_str(), self.size, "alias.bin"),
                listed(COMMIT, 2, "config.json"),
            ];
            let ghost shown = json::objects_of(objects@);
            let body = Body::Array(objects);
            let answer = Answer { status: STATUS_OK, headers: Vec::new(), body };
            proof {
                let own = self.answer(path@, head)->0;
                assert(answer@.headers =~= Seq::empty());
                assert(shown =~= own.body->Array_0);
            }
            return Some(answer);
        }
        if text::starts_with(path, "/api/") {
            let texts: Vec<(String, String)> = vec![named("sha", COMMIT)];
            let object = JsonObject { texts, numbers: Vec::new() };
            let ghost members = object@;
            let body = Body::Object(object);
            let answer = Answer { status: STATUS_OK, headers: Vec::new(), body };
            proof {
                let own = self.answer(path@, head)->0;
                assert(answer@.headers =~= Seq::empty());
                assert(members.0 =~= own.body->Object_0.0);
                assert(members.1 =~= own.body->Object_0.1);
            }
            return Some(answer);
        }
        None
    }
}

/// An answer that is ready to be sent.
#[derive(Debug)]
pub struct Response {
    pub status: u16,
    pub headers: Vec<(String, String)>,
    pub body: String,
}

impl ServerState {
    /// Takes a request in: puts on record what is to be kept of it and returns
    /// the answer, or `None` where the request is to be forwarded.
    pub fn handle(&mut self, request: &Request) -> (response: Option<Response>)
        ensures
            match response {
                Some(sent) => {
                    &&& old(self).answer(request.path@, request.head) is Some
                    &&& sent.status == STATUS_OK
                    &&& json::text_members(sent.headers@) == old(self).answer(
                        request.path@,
                        request.head,
                    )->0.headers
                    &&& sent.body@ == body_text(
                        old(self).answer(request.path@, request.head)->0.body,
                    )
                },
                None => old(self).answer(request.path@, request.head) is None,
            },
            order::texts_of(final(self).ranges@) == order::texts_of(old(self).ranges@) + old(
                self,
            ).recorded(*request),
            *final(self) == (ServerState { ranges: final(self).ranges, ..*old(self) }),
    {
        let ghost before = order::texts_of(self.ranges@);
        match self.route(request.path.as_str(), request.head) {
            Some(answer) => {
                assert(before + Seq::empty() =~= before);
                let body: String = answer.body.text();
                Some(Response { status: answer.status, headers: answer.headers, body })
            },
            None => {
                if is_reconstruction(request.path.as_str()) {
                    let range: String = match &request.range {
                        Some(range) => range.clone(),
                        None => String::new(),
                    };
                    let ghost shown = range@;
                    self.ranges.push(range);
                    assert(order::texts_of(self.ranges@) =~= before + seq![shown]);
                } else {
                    assert(before + Seq::empty() =~= before);
                }
                None
            },
        }
    }

    /// Whether the range of a request will be put on record.
    pub fn wants_range(&self, path: &str, head: bool) -> (wanted: bool)
        ensures
            wanted == self.keeps_range(path@, head),
    {
        self.route(path, head).is_none() && is_reconstruction(path)
    }

    /// Where a forwarded request goes: the same path and query at the content
    /// store.
    pub fn forward_url(&self, uri: &str) -> (url: String)
        ensures
            url@ == self.upstream@ + uri@,
    {
        let mut url: String = self.upstream.clone();
        url.append(uri);
        url
    }

    /// Takes the content store's answer in: counts its body if it is payload,
    /// and says whether the body goes out whole or is held back. Status and
    /// headers go out as they came.
    pub fn received<H>(&mut self, path: &str, reply: Forwarded<H>) -> (relayed: Relayed<H>)
        requires
            asks_for_payload(path@) ==> old(self).payload_bytes + reply.body@.len() <= u64::MAX,
        ensures
            relayed.status == reply.status,
            relayed.headers == reply.headers,
            match relayed.delivery {
                Delivery::Whole(bytes) => !(asks_for_payload(path@) && old(self).hold_payload)
                    && bytes@ == reply.body@,
                Delivery::Held(held) => asks_for_payload(path@) && old(self).hold_payload
                    && held.remaining() == reply.body@ && held.fresh(),
            },
            *final(self) == (ServerState {
                payload_bytes: if asks_for_payload(path@) {
                    (old(self).payload_bytes + reply.body@.len()) as u64
                } else {
                    old(self).payload_bytes
                },
                ..*old(self)
            }),
    {
        let Forwarded { status, headers, body } = reply;
        if is_payload(path) {
            self.payload_bytes = self.payload_bytes + body.len() as u64;
            if self.hold_payload {
                let held = HeldBody { bytes: body, first: true };
                return Relayed { status, headers, delivery: Delivery::Held(held) };
            }
        }
        Relayed { status, headers, delivery: Delivery::Whole(body) }
    }
}

/// Decides [`asks_for_reconstruction`].
fn is_reconstruction(path: &str) -> (reconstruction: bool)
    ensures
        reconstruction == asks_for_reconstruction(path@),
{
    text::contains(path, "/reconstructions/")
}

/// Decides [`asks_for_payload`].
pub fn is_payload(path: &str) -> (payload: bool)
    ensures
        payload == asks_for_payload(path@),
{
    text::contains(path, "fetch_term")
}

/// An answer of the content store.
#[derive(Debug)]
pub struct Forwarded<H> {
    pub status: u16,
    pub headers: H,
    pub body: Vec<u8>,
}

/// An answer of the content store as it is passed on.
#[derive(Debug)]
pub struct Relayed<H> {
    pub status: u16,
    pub headers: H,
    pub delivery: Delivery,
}

/// How a forwarded answer goes out.
#[derive(Debug)]
pub enum Delivery {
    /// At once.
    Whole(Vec<u8>),
    /// Chunk by chunk.
    Held(HeldBody),
}

/// A payload that is held back: the first chunk goes out at once, every other
/// one when it is permitted.
#[derive(Debug)]
pub struct HeldBody {
    bytes: Vec<u8>,
    first: bool,
}

/// The length of the next chunk.
pub open spec fn chunk_length(remaining: Seq<u8>) -> int {
    if remaining.len() < CHUNK_LENGTH {
        remaining.len() as int
    } else {
        CHUNK_LENGTH as int
    }
}

/// The chunks in which a payload goes out.
pub open spec fn chunks(payload: Seq<u8>) -> Seq<Seq<u8>>
    decreases payload.len(),
{
    if payload.len() == 0 {
        Seq::empty()
    } else {
        seq![payload.take(chunk_length(payload))] + chunks(payload.skip(chunk_length(payload)))
    }
}

impl HeldBody {
    /// The bytes that have not gone out.
    pub closed spec fn remaining(self) -> Seq<u8> {
        self.bytes@
    }

    /// Whether nothing has gone out yet.
    pub closed spec fn fresh(self) -> bool {
        self.first
    }

    /// Whether the next chunk has to wait for a permit, or `None` if nothing is
    /// left to send.
    pub fn waits(&self) -> (wait: Option<bool>)
        ensures
            wait == if self.remaining().len() == 0 {
                None
            } else {
                Some(!self.fresh())
            },
    {
        if self.bytes.len() == 0 {
            None
        } else {
            Some(!self.first)
        }
    }

    /// Takes the next chunk off.
    pub fn next_chunk(self) -> (step: (Vec<u8>, HeldBody))
        ensures
            step.0@ == self.remaining().take(chunk_length(self.remaining())),
            step.1.remaining() == self.remaining().skip(chunk_length(self.remaining())),
            !step.1.fresh(),
    {
        let mut chunk: Vec<u8> = self.bytes;
        let length: usize = if chunk.len() < CHUNK_LENGTH {
            chunk.len()
        } else {
            CHUNK_LENGTH
        };
        let rest: Vec<u8> = chunk.split_off(length);
        proof {
            assert(chunk@ =~= self.remaining().take(chunk_length(self.remaining())));
            assert(rest@ =~= self.remaining().skip(chunk_length(self.remaining())));
        }
        (chunk, HeldBody { bytes: rest, first: false })
    }
}

/// A held payload arrives whole and in order; no chunk is empty, none is longer
/// than [`CHUNK_LENGTH`], and only the last may be shorter.
pub proof fn held_payloads_arrive_whole(payload: Seq<u8>)
    ensures
        chunks(payload).flatten() == payload,
        forall|i: int|
            0 <= i < chunks(payload).len() ==> 0 < (#[trigger] chunks(payload)[i]).len()
                <= CHUNK_LENGTH,
        forall|i: int|
            0 <= i < chunks(payload).len() - 1 ==> (#[trigger] chunks(payload)[i]).len()
                == CHUNK_LENGTH,
    decreases payload.len(),
{
    if payload.len() > 0 {
        let head = payload.take(chunk_length(payload));
        let rest = payload.skip(chunk_length(payload));
        held_payloads_arrive_whole(rest);
        let all = chunks(payload);
        assert(all.first() == head);
        assert(all.drop_first() =~= chunks(rest));
        assert(all.flatten() =~= head + chunks(rest).flatten());
        assert(head + rest =~= payload);
        assert forall|i: int| 0 <= i < all.len() implies 0 < (#[trigger] all[i]).len()
            <= CHUNK_LENGTH by {
            if i > 0 {
                assert(all[i] == chunks(rest)[i - 1]);
            }
        }
        assert forall|i: int| 0 <= i < all.len() - 1 implies (#[trigger] all[i]).len()
            == CHUNK_LENGTH by {
            if i > 0 {
                assert(all[i] == chunks(rest)[i - 1]);
            }
        }
    }
}

/// One step of the generator.
pub open spec fn xorshift(x: u64) -> u64 {
    let a = x ^ (x << 13);
    let b = a ^ (a >> 7);
    b ^ (b << 17)
}

/// The generator's state after `n` steps.
pub open spec fn xorshifted(seed: u64, n: nat) -> u64
    decreases n,
{
    if n == 0 {
        seed
    } else {
        xorshift(xorshifted(seed, (n - 1) as nat))
    }
}

/// The low bytes of the generator's states, from the first step on.
pub open spec fn content(seed: u64, length: nat) -> Seq<u8> {
    Seq::new(length, |i: int| xorshifted(seed, (i + 1) as nat) as u8)
}

/// `length` bytes that do not compress, see [`content`].
pub fn incompressible(seed: u64, length: usize) -> (data: Vec<u8>)
    ensures
        data@ == content(seed, length as nat),
{
    let mut data: Vec<u8> = Vec::new();
    let mut state: u64 = seed;
    let mut i: usize = 0;
    while i < length
        invariant
            i <= length,
            state == xorshifted(seed, i as nat),
            data@ == content(seed, i as nat),
        decreases length - i,
    {
        let ghost before = state;
        state = state ^ (state << 13);
        state = state ^ (state >> 7);
        state = state ^ (state << 17);
        assert(state == xorshift(before));
        data.push(
            #[verifier::truncate]
            (state as u8),
        );
        i += 1;
        assert(data@ =~= content(seed, i as nat));
    }
    data
}

/// The SHA-256 digest of `data`.
pub uninterp spec fn sha256(data: Seq<u8>) -> Seq<u8>;

/// `sha2::Sha256::digest`. The claim is that the digest depends on the data
/// alone and has 32 bytes.
#[verifier::external_body]
fn sha256_digest(data: &[u8]) -> (digest: Vec<u8>)
    ensures
        digest@ == sha256(data@),
        digest@.len() == 32,
{
    <sha2::Sha256 as sha2::Digest>::digest(data).to_vec()
}

/// The name under which the Hub knows this content: its SHA-256 digest in
/// hexadecimal, which has 64 digits.
pub fn etag_of(data: &[u8]) -> (etag: String)
    ensures
        etag@ == text::hex(sha256(data@)),
        etag@.len() == 64,
{
    let digest: Vec<u8> = sha256_digest(data);
    proof {
        text::hex_length(digest@);
    }
    text::to_hex(digest.as_slice())
}

impl ServerState {
    /// Whether this state is about `data`: it gives the digest of the data in 64
    /// hexadecimal digits, and the length of the data.
    pub open spec fn serves(self, data: Seq<u8>) -> bool {
        &&& self.etag@ == text::hex(sha256(data))
        &&& self.etag@.len() == 64
        &&& self.size == data.len()
    }

    /// The state of a stand-in that serves `data`, before any request.
    pub fn new(upstream: String, endpoint: String, hash: String, data: &[u8]) -> (state:
        ServerState)
        ensures
            state.serves(data@),
            state.etag@ == text::hex(sha256(data@)),
            state.size == data@.len(),
            state.upstream@ == upstream@,
            state.endpoint@ == endpoint@,
            state.hash@ == hash@,
            !state.omit_size,
            !state.hold_payload,
            state.ranges@.len() == 0,
            state.payload_bytes == 0,
    {
        let etag: String = etag_of(data);
        ServerState {
            upstream,
            endpoint,
            hash,
            etag,
            size: data.len() as u64,
            omit_size: false,
            hold_payload: false,
            ranges: Vec::new(),
            payload_bytes: 0,
        }
    }
}

/// What a stand-in serves is determined by its seed: stand-ins with equal seeds
/// serve equal bytes under equal digests and lengths, and a digest is written
/// in 64 lower-case hexadecimal digits.
pub proof fn equal_seeds_serve_equal_content(
    left_seed: u64,
    left: ServerState,
    right_seed: u64,
    right: ServerState,
    length: nat,
)
    requires
        left.serves(content(left_seed, length)),
        right.serves(content(right_seed, length)),
    ensures
        left.size == length,
        left.etag@ == text::hex(sha256(content(left_seed, length))),
        left.etag@.len() == 64,
        forall|i: int|
            0 <= i < 64 ==> '0' <= #[trigger] left.etag@[i] <= '9' || 'a' <= left.etag@[i] <= 'f',
        left_seed == right_seed ==> content(left_seed, length) == content(right_seed, length)
            && left.etag@ == right.etag@ && left.size == right.size,
{
    text::hex_is_plain(sha256(content(left_seed, length)));
}

/// Stand-ins give the same digest only if the digests of what they serve are
/// the same.
pub proof fn equal_etags_mean_equal_digests(
    left: ServerState,
    left_data: Seq<u8>,
    right: ServerState,
    right_data: Seq<u8>,
)
    requires
        left.serves(left_data),
        right.serves(right_data),
    ensures
        left.etag@ == right.etag@ <==> sha256(left_data) == sha256(right_data),
{
    if left.etag@ == right.etag@ {
        text::hex_tells_bytes_apart(sha256(left_data), sha256(right_data));
    }
}

/// The address of a local server.
pub fn loopback_url(port: u16) -> (url: String)
    ensures
        url@ == "http://127.0.0.1:"@ + text::decimal(port as nat),
{
    let mut url: String = "http://127.0.0.1:".to_owned();
    text::push_decimal(&mut url, port as u64);
    url
}

/// The directory of a client's cache below a temporary directory.
pub open spec fn hub_text(temp: Seq<u8>) -> Seq<u8> {
    path::joined(temp, encode_utf8("hub"@))
}

/// The directory in that cache where the blobs of the served repository go.
pub open spec fn blobs_text(temp: Seq<u8>) -> Seq<u8> {
    path::joined(temp, encode_utf8("hub/models--fixture--resume/blobs"@))
}

/// The file there that holds the unfinished content known as `etag`.
pub open spec fn partial_text(temp: Seq<u8>, etag: Seq<char>) -> Seq<u8> {
    path::joined(blobs_text(temp), encode_utf8(etag + ".incomplete"@))
}

/// The directory of a client's cache.
pub fn hub_directory(temp: &CachePath) -> (directory: CachePath)
    ensures
        directory@ == hub_text(temp@),
{
    temp.join("hub".as_bytes())
}

/// The directory where the blobs of the served repository go.
pub fn blobs_directory(temp: &CachePath) -> (directory: CachePath)
    ensures
        directory@ == blobs_text(temp@),
{
    temp.join("hub/models--fixture--resume/blobs".as_bytes())
}

/// The file that holds the unfinished content known as `etag`.
pub fn partial(temp: &CachePath, etag: &str) -> (file: CachePath)
    ensures
        file@ == partial_text(temp@, etag@),
{
    let mut name: String = etag.to_owned();
    name.append(".incomplete");
    blobs_directory(temp).join(name.as_str().as_bytes())
}

/// How a client of the stand-in is set up.
#[derive(Debug)]
pub struct ClientSettings {
    pub endpoint: String,
    pub token: String,
    pub cache_dir: CachePath,
}

/// The settings of a client that talks to `endpoint` and caches below `temp`.
pub fn client_settings(endpoint: &str, temp: &CachePath) -> (settings: ClientSettings)
    ensures
        settings.endpoint@ == endpoint@,
        settings.token@ == TOKEN@,
        settings.cache_dir@ == hub_text(temp@),
{
    ClientSettings {
        endpoint: endpoint.to_owned(),
        token: TOKEN.to_owned(),
        cache_dir: hub_directory(temp),
    }
}

/// The name of a partial file: plain ASCII, without a separator, and not `.`.
pub(crate) proof fn lemma_partial_name(digest: Seq<u8>)
    ensures
        ({
            let name = text::hex(digest) + ".incomplete"@;
            let bytes = encode_utf8(name);
            &&& bytes.len() == name.len() > 1
            &&& forall|i: int|
                0 <= i < bytes.len() ==> (#[trigger] bytes[i]) != path::SEPARATOR
        }),
{
    let name = text::hex(digest) + ".incomplete"@;
    reveal_strlit(".incomplete");
    text::hex_is_plain(digest);
    assert forall|i: int| 0 <= i < name.len() implies '.' <= #[trigger] name[i] <= 'z' && name[i]
        != '/' by {
        if i < text::hex(digest).len() {
            assert(name[i] == text::hex(digest)[i]);
        } else {
            assert(name[i] == ".incomplete"@[i - text::hex(digest).len()]);
        }
    }
    assert(is_ascii_chars(name));
    is_ascii_chars_encode_utf8(name);
    assert forall|i: int| 0 <= i < encode_utf8(name).len() implies (#[trigger] encode_utf8(
        name,
    )[i]) != path::SEPARATOR by {
        assert(name[i] as u8 == encode_utf8(name)[i]);
    }
}

/// Contents with different digests have different partial files, so that bytes
/// of one are never taken for the start of the other.
pub proof fn changed_content_uses_a_different_partial(
    temp: Seq<u8>,
    before: Seq<u8>,
    after: Seq<u8>,
)
    requires
        before != after,
    ensures
        path::path_key(partial_text(temp, text::hex(before))) != path::path_key(
            partial_text(temp, text::hex(after)),
        ),
{
    let a = text::hex(before) + ".incomplete"@;
    let b = text::hex(after) + ".incomplete"@;
    lemma_partial_name(before);
    lemma_partial_name(after);
    path::joining_a_name_adds_a_component(blobs_text(temp), encode_utf8(a));
    path::joining_a_name_adds_a_component(blobs_text(temp), encode_utf8(b));
    let left = path::path_key(partial_text(temp, text::hex(before))).names;
    let right = path::path_key(partial_text(temp, text::hex(after))).names;
    if left == right {
        assert(left.last() == encode_utf8(a));
        assert(right.last() == encode_utf8(b));
        encode_utf8_decode_utf8(a);
        encode_utf8_decode_utf8(b);
        assert(a.len() == b.len());
        assert(text::hex(before) =~= a.take(a.len() - ".incomplete"@.len()));
        assert(text::hex(after) =~= b.take(b.len() - ".incomplete"@.len()));
        text::hex_tells_bytes_apart(before, after);
    }
}

} // verus!

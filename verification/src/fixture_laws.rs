//! What holds of the stand-in's answers, payloads and files.

use crate::fixture;
use crate::fixture::{Answer, Body, BodyModel, Request, ServerState};
use crate::json;
use crate::json::JsonObject;
use crate::path;
use crate::path::PathKey;
use crate::text;
use vstd::prelude::*;
#[allow(unused_imports)]
use vstd::string::*;
#[allow(unused_imports)]
use vstd::utf8::*;

verus! {

/// A request is forwarded exactly if its path neither ends with `/telemetry` or
/// `/config.json`, nor holds `/resolve/`, `xet-read-token` or `/tree/`, nor
/// starts with `/api/`. Neither the method nor the state plays a part.
pub proof fn all_other_requests_are_forwarded(state: ServerState, path: Seq<char>, head: bool)
    ensures
        state.answer(path, head) is None <==> !text::ends(path, "/telemetry"@) && !text::ends(
            path,
            "/config.json"@,
        ) && !text::has_part(path, "/resolve/"@) && !text::has_part(path, "xet-read-token"@)
            && !text::has_part(path, "/tree/"@) && !text::starts(path, "/api/"@),
{
}

/// Whether only the head is asked for plays no part in an answer, save that the
/// configuration file is then left out of its own.
pub proof fn heads_are_answered_like_the_whole(state: ServerState, path: Seq<char>)
    ensures
        text::ends(path, "/telemetry"@) || !text::ends(path, "/config.json"@) ==> state.answer(
            path,
            true,
        ) == state.answer(path, false),
        !text::ends(path, "/telemetry"@) && text::ends(path, "/config.json"@) ==> state.answer(
            path,
            true,
        ) is Some && state.answer(path, false) is Some && state.answer(path, true)->0.status
            == state.answer(path, false)->0.status && state.answer(path, true)->0.headers
            == state.answer(path, false)->0.headers && state.answer(path, true)->0.body
            == BodyModel::Empty && state.answer(path, false)->0.body == BodyModel::Text("{}"@),
{
}

/// Every answer of the stand-in's own says that all went well.
pub proof fn own_answers_say_that_all_went_well(state: ServerState, path: Seq<char>, head: bool)
    ensures
        state.answer(path, head) matches Some(answer) ==> answer.status == 200,
{
}

/// Telemetry is taken in without a word.
pub proof fn telemetry_is_answered_with_nothing(state: ServerState, path: Seq<char>, head: bool)
    requires
        text::ends(path, "/telemetry"@),
    ensures
        state.answer(path, head) is Some,
        state.answer(path, head)->0.headers.len() == 0,
        state.answer(path, head)->0.body == BodyModel::Empty,
{
}

/// The configuration file is named after the commit and has two bytes.
pub proof fn config_is_answered_with_its_name_and_length(
    state: ServerState,
    path: Seq<char>,
    head: bool,
)
    requires
        !text::ends(path, "/telemetry"@),
        text::ends(path, "/config.json"@),
    ensures
        state.answer(path, head) is Some,
        state.answer(path, head)->0.headers.len() == 3,
        state.answer(path, head)->0.headers[0].0 == "etag"@,
        state.answer(path, head)->0.headers[1].0 == "x-repo-commit"@,
        state.answer(path, head)->0.headers[2].0 == "content-length"@,
        is_the_commit(state.answer(path, head)->0.headers[0].1),
        is_the_commit(state.answer(path, head)->0.headers[1].1),
        text::decimal_value(state.answer(path, head)->0.headers[2].1) == "{}"@.len(),
{
    lemma_commit();
    reveal_strlit("2");
    reveal_strlit("{}");
    let two = "2"@;
    assert(two.drop_last() =~= Seq::empty());
    assert(text::decimal_value(two.drop_last()) == 0);
    assert(two.last() == '2');
}

/// Whether `commit` is the one that is served: forty times the digit one.
pub open spec fn is_the_commit(commit: Seq<char>) -> bool {
    commit.len() == 40 && forall|i: int| 0 <= i < 40 ==> #[trigger] commit[i] == '1'
}

proof fn lemma_commit()
    ensures
        is_the_commit(fixture::COMMIT@),
{
    reveal_strlit("1111111111111111111111111111111111111111");
}

/// A request to resolve a file learns the digest, the commit, the content hash
/// and the length of the served file, in this order. The length is that of the
/// state in decimal exactly if it is not to be withheld; else it cannot be read
/// as a number.
pub proof fn resolving_tells_digest_commit_hash_and_length(
    state: ServerState,
    path: Seq<char>,
    head: bool,
)
    requires
        !text::ends(path, "/telemetry"@),
        !text::ends(path, "/config.json"@),
        text::has_part(path, "/resolve/"@),
    ensures
        state.answer(path, head) is Some,
        state.answer(path, head)->0.body == BodyModel::Empty,
        state.answer(path, head)->0.headers.len() == 4,
        state.answer(path, head)->0.headers[0] == ("etag"@, state.etag@),
        state.answer(path, head)->0.headers[1].0 == "x-repo-commit"@,
        is_the_commit(state.answer(path, head)->0.headers[1].1),
        state.answer(path, head)->0.headers[2] == ("x-xet-hash"@, state.hash@),
        state.answer(path, head)->0.headers[3].0 == "x-linked-size"@,
        state.answer(path, head)->0.headers[3].1 == text::decimal(state.size as nat) <==>
            !state.omit_size,
        !state.omit_size ==> text::decimal_value(state.answer(path, head)->0.headers[3].1)
            == state.size,
        state.omit_size ==> state.answer(path, head)->0.headers[3].1 == "invalid"@,
{
    lemma_commit();
    text::decimal_reads_back(state.size as nat);
    reveal_strlit("invalid");
    assert("invalid"@[0] == 'i');
}

/// A token is answered with where the content store is reached.
pub proof fn tokens_tell_the_endpoint(state: ServerState, path: Seq<char>, head: bool)
    requires
        !text::ends(path, "/telemetry"@),
        !text::ends(path, "/config.json"@),
        !text::has_part(path, "/resolve/"@),
        text::has_part(path, "xet-read-token"@),
    ensures
        state.answer(path, head) is Some,
        state.answer(path, head)->0.headers.len() == 0,
        state.answer(path, head)->0.body is Object,
        ({
            let (texts, numbers) = state.answer(path, head)->0.body->Object_0;
            &&& texts == seq![("accessToken"@, "fixture-only"@), ("casUrl"@, state.endpoint@)]
            &&& numbers == seq![("exp"@, 4102444800u64)]
        }),
{
}

/// The listing has the served file under two names, each with the digest and the
/// length of the state, and the configuration file with the commit.
pub proof fn listings_tell_digests_and_lengths(state: ServerState, path: Seq<char>, head: bool)
    requires
        !text::ends(path, "/telemetry"@),
        !text::ends(path, "/config.json"@),
        !text::has_part(path, "/resolve/"@),
        !text::has_part(path, "xet-read-token"@),
        text::has_part(path, "/tree/"@),
    ensures
        state.answer(path, head) is Some,
        state.answer(path, head)->0.headers.len() == 0,
        state.answer(path, head)->0.body is Array,
        state.answer(path, head)->0.body->Array_0.len() == 3,
        forall|i: int|
            0 <= i < 3 ==> {
                let file = #[trigger] state.answer(path, head)->0.body->Array_0[i];
                &&& file.0.len() == 3 && file.1.len() == 1
                &&& file.0[0] == ("type"@, "file"@)
                &&& file.0[1].0 == "oid"@ && file.0[2].0 == "path"@ && file.1[0].0 == "size"@
                &&& i < 2 ==> file.0[1].1 == state.etag@ && file.1[0].1 == state.size
                &&& i == 2 ==> is_the_commit(file.0[1].1) && file.1[0].1 == "{}"@.len()
                &&& file.0[2].1 == if i == 0 {
                    "model.bin"@
                } else if i == 1 {
                    "alias.bin"@
                } else {
                    "config.json"@
                }
            },
{
    lemma_commit();
    reveal_strlit("{}");
}

/// Any other question to the interface is answered with the commit.
pub proof fn the_interface_tells_the_commit(state: ServerState, path: Seq<char>, head: bool)
    requires
        !text::ends(path, "/telemetry"@),
        !text::ends(path, "/config.json"@),
        !text::has_part(path, "/resolve/"@),
        !text::has_part(path, "xet-read-token"@),
        !text::has_part(path, "/tree/"@),
        text::starts(path, "/api/"@),
    ensures
        state.answer(path, head) is Some,
        state.answer(path, head)->0.headers.len() == 0,
        state.answer(path, head)->0.body is Object,
        state.answer(path, head)->0.body->Object_0.0.len() == 1,
        state.answer(path, head)->0.body->Object_0.1.len() == 0,
        state.answer(path, head)->0.body->Object_0.0[0].0 == "sha"@,
        is_the_commit(state.answer(path, head)->0.body->Object_0.0[0].1),
{
    lemma_commit();
}

/// What an answer shows is what its fields hold, text by text and number by
/// number.
pub proof fn answers_show_their_fields(answer: Answer)
    ensures
        answer@.status == answer.status,
        answer@.headers.len() == answer.headers@.len(),
        forall|i: int|
            0 <= i < answer.headers@.len() ==> (#[trigger] answer@.headers[i]) == (
                answer.headers@[i].0@,
                answer.headers@[i].1@,
            ),
        answer@.body == answer.body@,
        answer.body is Empty <==> answer@.body is Empty,
        answer.body matches Body::Text(text) ==> answer@.body == BodyModel::Text(text@),
        answer.body matches Body::Object(object) ==> answer@.body == BodyModel::Object(object@),
        answer.body matches Body::Array(objects) ==> answer@.body is Array
            && answer@.body->Array_0.len() == objects@.len() && forall|i: int|
            0 <= i < objects@.len() ==> (#[trigger] answer@.body->Array_0[i]) == objects@[i]@,
{
}

/// The same of an object.
pub proof fn objects_show_their_members(object: JsonObject)
    ensures
        object@.0.len() == object.texts@.len(),
        object@.1.len() == object.numbers@.len(),
        forall|i: int|
            0 <= i < object.texts@.len() ==> (#[trigger] object@.0[i]) == (
                object.texts@[i].0@,
                object.texts@[i].1@,
            ),
        forall|i: int|
            0 <= i < object.numbers@.len() ==> (#[trigger] object@.1[i]) == (
                object.numbers@[i].0@,
                object.numbers@[i].1,
            ),
{
}

/// The text of a body is empty, the text itself, or what is written for the
/// whole object or array.
pub proof fn bodies_are_sent_whole(body: BodyModel)
    ensures
        body is Empty ==> fixture::body_text(body).len() == 0,
        body matches BodyModel::Text(text) ==> fixture::body_text(body) == text,
        body matches BodyModel::Object(object) ==> fixture::body_text(body)
            == json::json_object_text(object.0, object.1),
        body matches BodyModel::Array(objects) ==> fixture::body_text(body)
            == json::json_array_text(objects),
{
}

/// A forwarded request for a reconstruction leaves its range on record, or an
/// empty text if it names none; nothing else leaves anything.
pub proof fn ranges_of_forwarded_reconstructions_are_recorded(
    state: ServerState,
    request: Request,
)
    ensures
        ({
            let path = request.path@;
            let kept = state.answer(path, request.head) is None && text::has_part(
                path,
                "/reconstructions/"@,
            );
            &&& state.keeps_range(path, request.head) == kept
            &&& kept ==> state.recorded(request).len() == 1
            &&& !kept ==> state.recorded(request).len() == 0
            &&& kept && request.range is Some ==> state.recorded(request)[0] == request.range->0@
            &&& kept && request.range is None ==> state.recorded(request)[0].len() == 0
        }),
{
}

/// Payload is what is asked for under a path that holds `fetch_term`.
pub proof fn payload_is_asked_for_by_name(path: Seq<char>)
    ensures
        fixture::asks_for_payload(path) <==> text::has_part(path, "fetch_term"@),
{
}

/// The next chunk of a payload is all of it, or its first 16 KiB if it is
/// longer.
pub proof fn chunks_have_sixteen_kibibytes(remaining: Seq<u8>)
    ensures
        remaining.len() <= 16 * 1024 ==> fixture::chunk_length(remaining) == remaining.len(),
        remaining.len() > 16 * 1024 ==> fixture::chunk_length(remaining) == 16 * 1024,
{
}

/// Chunk `i` of a payload is what stands from `i` times 16 KiB on, and the
/// chunks reach to the end of the payload and no further.
pub proof fn chunks_cut_the_payload_evenly(payload: Seq<u8>, i: int)
    requires
        0 <= i < fixture::chunks(payload).len(),
    ensures
        16384 * (fixture::chunks(payload).len() - 1) < payload.len() <= 16384 * fixture::chunks(
            payload,
        ).len(),
        fixture::chunks(payload)[i] == payload.subrange(
            16384 * i,
            if 16384 * (i + 1) <= payload.len() {
                16384 * (i + 1)
            } else {
                payload.len() as int
            },
        ),
    decreases payload.len(),
{
    let n = fixture::chunk_length(payload);
    let rest = payload.skip(n);
    let all = fixture::chunks(payload);
    assert(all.len() == 1 + fixture::chunks(rest).len());
    if fixture::chunks(rest).len() > 0 {
        assert(rest.len() > 0);
        assert(n == 16384);
        let j: int = if i > 0 {
            i - 1
        } else {
            0
        };
        chunks_cut_the_payload_evenly(rest, j);
        if i > 0 {
            assert(all[i] == fixture::chunks(rest)[i - 1]);
            assert(all[i] =~= payload.subrange(
                16384 * i,
                if 16384 * (i + 1) <= payload.len() {
                    16384 * (i + 1)
                } else {
                    payload.len() as int
                },
            ));
        } else {
            assert(all[0] =~= payload.subrange(0, 16384));
        }
    } else {
        lemma_no_chunks(rest);
        assert(i == 0);
        assert(all[0] =~= payload.subrange(0, payload.len() as int));
    }
}

/// Only an empty payload has no chunks.
proof fn lemma_no_chunks(payload: Seq<u8>)
    ensures
        fixture::chunks(payload).len() == 0 <==> payload.len() == 0,
{
}

/// Served content is made by shifting and combining: with `states` starting at
/// the seed, and each state made of the one before by `x ^= x << 13`,
/// `x ^= x >> 7` and `x ^= x << 17`, byte `i` is the low byte of state `i + 1`.
pub proof fn content_is_the_low_bytes_of_the_states(seed: u64, states: Seq<u64>)
    requires
        states.len() > 0,
        states[0] == seed,
        forall|i: int|
            0 <= i && i + 1 < states.len() ==> states[i + 1] == {
                let x = #[trigger] states[i];
                let y = x ^ (x << 13u64);
                let z = y ^ (y >> 7u64);
                z ^ (z << 17u64)
            },
    ensures
        fixture::content(seed, (states.len() - 1) as nat) == Seq::new(
            (states.len() - 1) as nat,
            |i: int| states[i + 1] as u8,
        ),
{
    assert forall|n: int| 0 <= n < states.len() implies #[trigger] states[n] == fixture::xorshifted(
        seed,
        n as nat,
    ) by {
        lemma_state(seed, states, n);
    }
    assert(fixture::content(seed, (states.len() - 1) as nat) =~= Seq::new(
        (states.len() - 1) as nat,
        |i: int| states[i + 1] as u8,
    ));
}

proof fn lemma_state(seed: u64, states: Seq<u64>, n: int)
    requires
        0 <= n < states.len(),
        states[0] == seed,
        forall|i: int|
            0 <= i && i + 1 < states.len() ==> states[i + 1] == {
                let x = #[trigger] states[i];
                let y = x ^ (x << 13u64);
                let z = y ^ (y >> 7u64);
                z ^ (z << 17u64)
            },
    ensures
        states[n] == fixture::xorshifted(seed, n as nat),
    decreases n,
{
    if n > 0 {
        lemma_state(seed, states, n - 1);
        assert(states[n - 1 + 1] == fixture::xorshift(states[n - 1]));
    }
}

/// More content of the same seed only goes on.
pub proof fn longer_content_goes_on(seed: u64, length: nat, more: nat)
    requires
        length <= more,
    ensures
        fixture::content(seed, more).len() == more,
        fixture::content(seed, more).take(length as int) == fixture::content(seed, length),
{
    assert(fixture::content(seed, more).take(length as int) =~= fixture::content(seed, length));
}

/// A state is about some data exactly if it has the digest of the data in 64
/// hexadecimal digits and the length of the data.
pub proof fn serving_means_digest_and_length(state: ServerState, data: Seq<u8>)
    ensures
        state.serves(data) <==> state.etag@ == text::hex(fixture::sha256(data)) && state.etag@.len()
            == 64 && state.size == data.len(),
{
}

/// A client caches in `hub` below the temporary directory.
pub proof fn clients_cache_in_hub(temp: Seq<u8>)
    ensures
        path::path_key(fixture::hub_text(temp)) == (PathKey {
            rooted: path::path_key(temp).rooted,
            names: path::path_key(temp).names.push(encode_utf8("hub"@)),
        }),
{
    lemma_plain("hub"@);
    reveal_strlit("hub");
    path::joining_a_name_adds_a_component(temp, encode_utf8("hub"@));
}

/// ASCII texts are spelled by their characters.
proof fn lemma_plain(name: Seq<char>)
    ensures
        is_ascii_chars(name) ==> encode_utf8(name).len() == name.len() && forall|i: int|
            0 <= i < name.len() ==> (#[trigger] encode_utf8(name)[i]) == name[i] as u8,
{
    if is_ascii_chars(name) {
        is_ascii_chars_encode_utf8(name);
    }
}

/// The blobs of the served repository go to `hub/models--fixture--resume/blobs`
/// below the temporary directory.
pub proof fn blobs_stand_three_names_below(temp: Seq<u8>)
    ensures
        path::path_key(fixture::blobs_text(temp)) == (PathKey {
            rooted: path::path_key(temp).rooted,
            names: path::path_key(temp).names.push(encode_utf8("hub"@)).push(
                encode_utf8("models--fixture--resume"@),
            ).push(encode_utf8("blobs"@)),
        }),
{
    reveal_strlit("hub");
    reveal_strlit("models--fixture--resume");
    reveal_strlit("blobs");
    reveal_strlit("hub/models--fixture--resume/blobs");
    lemma_plain("hub"@);
    lemma_plain("models--fixture--resume"@);
    lemma_plain("blobs"@);
    lemma_plain("hub/models--fixture--resume/blobs"@);
    let a = encode_utf8("hub"@);
    let b = encode_utf8("models--fixture--resume"@);
    let c = encode_utf8("blobs"@);
    let slash = seq![path::SEPARATOR];
    let whole = encode_utf8("hub/models--fixture--resume/blobs"@);
    assert(whole =~= a + slash + b + slash + c);
    path::joining_a_name_adds_a_component(temp, a);
    let first = path::joined(temp, a);
    assert(first.last() == a.last());
    path::joining_a_name_adds_a_component(first, b);
    let second = path::joined(first, b);
    assert(second.last() == b.last());
    path::joining_a_name_adds_a_component(second, c);
    assert(path::joined(second, c) =~= path::joined(temp, whole));
}

/// The unfinished content of a digest stands there, in a file named after the
/// digest.
pub proof fn partial_files_are_named_after_the_digest(temp: Seq<u8>, digest: Seq<u8>)
    ensures
        path::path_key(fixture::partial_text(temp, text::hex(digest))) == (PathKey {
            rooted: path::path_key(temp).rooted,
            names: path::path_key(temp).names.push(encode_utf8("hub"@)).push(
                encode_utf8("models--fixture--resume"@),
            ).push(encode_utf8("blobs"@)).push(
                encode_utf8(text::hex(digest) + ".incomplete"@),
            ),
        }),
{
    blobs_stand_three_names_below(temp);
    fixture::lemma_partial_name(digest);
    path::joining_a_name_adds_a_component(
        fixture::blobs_text(temp),
        encode_utf8(text::hex(digest) + ".incomplete"@),
    );
}

/// Whatever the content is known as, its file stands in the directory of the
/// blobs and has that name with `.incomplete` behind it.
pub proof fn partial_files_stand_among_the_blobs(temp: Seq<u8>, etag: Seq<char>)
    ensures
        fixture::partial_text(temp, etag) == path::joined(
            path::joined(temp, encode_utf8("hub/models--fixture--resume/blobs"@)),
            encode_utf8(etag + ".incomplete"@),
        ),
{
}

} // verus!

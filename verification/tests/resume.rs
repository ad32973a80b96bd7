use hf_hub::fixture::{
    blobs_directory, client_settings, etag_of, incompressible, is_payload, loopback_url, partial, Body, Delivery,
    Forwarded, Request, ServerState, CHUNK_LENGTH, COMMIT, DATA_LENGTH,
};
use hf_hub::path::CachePath;
use hf_hub::progress::{
    reports_arrival, AbortAfterWrite, DownloadEvent, Events, ExitAfterWrite, FileProgress, FileStatus, ProgressEvent,
};

fn state() -> ServerState {
    ServerState {
        upstream: "http://127.0.0.1:1234".into(),
        endpoint: "http://127.0.0.1:4321".into(),
        hash: "xet\"hash".into(),
        etag: "e7a6".into(),
        size: 8388608,
        omit_size: false,
        hold_payload: false,
        ranges: Vec::new(),
        payload_bytes: 0,
    }
}

fn request(path: &str) -> Request {
    Request {
        path: path.into(),
        head: false,
        range: None,
    }
}

fn reply(body: &[u8]) -> Forwarded<Vec<(String, String)>> {
    Forwarded {
        status: 206,
        headers: vec![header("content-range", "bytes 0-1/2")],
        body: body.to_vec(),
    }
}

fn header(name: &str, value: &str) -> (String, String) {
    (name.to_string(), value.to_string())
}

#[test]
fn own_answers_succeed() {
    let mut state = state();
    for path in [
        "/v1/telemetry",
        "/fixture/resume/resolve/main/config.json",
        "/fixture/resume/resolve/main/model.bin",
        "/api/models/fixture/resume/xet-read-token/main",
        "/api/models/fixture/resume/tree/main",
        "/api/models/fixture/resume",
    ] {
        assert_eq!(state.handle(&request(path)).unwrap().status, 200);
    }
}

#[test]
fn forwarded_answers_keep_status_and_headers() {
    let mut state = state();
    for (hold_payload, path) in [(false, "/v1/shards"), (false, "/v1/fetch_term"), (true, "/v1/fetch_term")] {
        state.hold_payload = hold_payload;
        let relayed = state.received(path, reply(b"ab"));
        assert_eq!(relayed.status, 206);
        assert_eq!(relayed.headers, [header("content-range", "bytes 0-1/2")]);
        assert_eq!(matches!(relayed.delivery, Delivery::Held(_)), hold_payload);
    }
    assert_eq!(state.payload_bytes, 4);
    assert!(is_payload("/v1/fetch_term"));
    assert!(!is_payload("/v1/shards"));
}

#[test]
fn only_forwarded_reconstructions_want_a_range() {
    let state = state();
    assert!(state.wants_range("/v1/reconstructions/abc", false));
    assert!(!state.wants_range("/v1/xorbs/abc", false));
    assert!(!state.wants_range("/api/reconstructions/x", false));
}

#[test]
fn own_answers_match_their_routes() {
    let mut state = state();
    let sent = state.handle(&request("/v1/telemetry")).unwrap();
    assert!(sent.headers.is_empty() && sent.body.is_empty());

    let sent = state.handle(&request("/fixture/resume/resolve/main/config.json")).unwrap();
    let config = vec![header("etag", COMMIT), header("x-repo-commit", COMMIT), header("content-length", "2")];
    assert_eq!(sent.headers, config);
    assert_eq!(sent.body, "{}");
    let head = Request {
        head: true,
        ..request("/fixture/resume/resolve/main/config.json")
    };
    let sent = state.handle(&head).unwrap();
    assert_eq!(sent.headers, config);
    assert_eq!(sent.body, "");

    let sent = state.handle(&request("/fixture/resume/resolve/main/model.bin")).unwrap();
    assert_eq!(
        sent.headers,
        [
            header("etag", "e7a6"),
            header("x-repo-commit", COMMIT),
            header("x-xet-hash", "xet\"hash"),
            header("x-linked-size", "8388608"),
        ]
    );
    assert_eq!(sent.body, "");
    state.omit_size = true;
    let sent = state.handle(&request("/fixture/resume/resolve/main/model.bin")).unwrap();
    assert_eq!(sent.headers[3], header("x-linked-size", "invalid"));
}

#[test]
fn json_answers_are_written_out() {
    let mut state = state();
    let sent = state.handle(&request("/api/models/fixture/resume/xet-read-token/main")).unwrap();
    assert_eq!(
        sent.body,
        "{\"accessToken\":\"fixture-only\",\"casUrl\":\"http://127.0.0.1:4321\",\"exp\":4102444800}"
    );
    let sent = state.handle(&request("/api/models/fixture/resume/tree/main")).unwrap();
    assert_eq!(
        sent.body,
        format!(
            "[{{\"oid\":\"e7a6\",\"path\":\"model.bin\",\"size\":8388608,\"type\":\"file\"}},\
             {{\"oid\":\"e7a6\",\"path\":\"alias.bin\",\"size\":8388608,\"type\":\"file\"}},\
             {{\"oid\":\"{COMMIT}\",\"path\":\"config.json\",\"size\":2,\"type\":\"file\"}}]"
        )
    );
    let sent = state.handle(&request("/api/models/fixture/resume")).unwrap();
    assert_eq!(sent.body, format!("{{\"sha\":\"{COMMIT}\"}}"));
    // Texts are escaped.
    state.endpoint = "a\"b".into();
    let sent = state.handle(&request("/xet-read-token")).unwrap();
    assert!(sent.body.contains("\"casUrl\":\"a\\\"b\""));
    assert_eq!(Body::Text("plain".into()).text(), "plain");
}

#[test]
fn other_requests_are_forwarded_and_ranges_kept() {
    let mut state = state();
    assert!(state.handle(&request("/v1/reconstructions/abc")).is_none());
    let ranged = Request {
        range: Some("bytes=123-".into()),
        ..request("/v1/reconstructions/abc")
    };
    assert!(state.handle(&ranged).is_none());
    assert!(state.handle(&request("/v1/xorbs/abc")).is_none());
    // A request that is answered here leaves no range.
    assert!(state.handle(&request("/api/reconstructions/x")).is_some());
    assert_eq!(state.ranges, ["", "bytes=123-"]);
    assert_eq!(state.forward_url("/v1/xorbs/abc?x=1"), "http://127.0.0.1:1234/v1/xorbs/abc?x=1");
    assert!(state.route("/api", false).is_none());
}

#[test]
fn payload_is_counted_and_held_back() {
    let mut state = state();
    let payload: Vec<u8> = incompressible(7, 2 * CHUNK_LENGTH + 5);
    match state.received("/v1/fetch_term", reply(&payload)).delivery {
        Delivery::Whole(bytes) => assert_eq!(bytes, payload),
        Delivery::Held(_) => panic!("nothing asks to hold payloads back"),
    }
    assert_eq!(state.payload_bytes, payload.len() as u64);
    state.hold_payload = true;
    assert!(matches!(state.received("/v1/shards", reply(&payload)).delivery, Delivery::Whole(_)));
    assert_eq!(state.payload_bytes, payload.len() as u64);
    let mut held = match state.received("/v1/fetch_term", reply(&payload)).delivery {
        Delivery::Held(held) => held,
        Delivery::Whole(_) => panic!("payloads are to be held back"),
    };
    assert_eq!(state.payload_bytes, 2 * payload.len() as u64);
    let mut arrived = Vec::new();
    let mut waited = Vec::new();
    while let Some(wait) = held.waits() {
        waited.push(wait);
        let (chunk, rest) = held.next_chunk();
        assert!(!chunk.is_empty() && chunk.len() <= CHUNK_LENGTH);
        arrived.extend(chunk);
        held = rest;
    }
    assert_eq!(arrived, payload);
    assert_eq!(waited, [false, true, true]);
}

#[test]
fn generated_content_is_the_generator_stream() {
    let mut seed: u64 = 19;
    let expected: Vec<u8> = (0..1000)
        .map(|_| {
            seed ^= seed << 13;
            seed ^= seed >> 7;
            seed ^= seed << 17;
            seed as u8
        })
        .collect();
    assert_eq!(incompressible(19, 1000), expected);
    assert_ne!(incompressible(23, 1000), expected);
    assert!(incompressible(19, 0).is_empty());
}

#[test]
fn etags_are_sha256_in_hexadecimal() {
    assert_eq!(etag_of(b""), "e3b0c44298fc1c149afbf4c8996fb92427ae41e4649b934ca495991b7852b855");
    assert_eq!(etag_of(b"abc"), "ba7816bf8f01cfea414140de5dae2223b00361a396177a9cb410ff61f20015ad");
}

#[test]
fn new_states_describe_their_data() {
    let data = incompressible(19, DATA_LENGTH);
    assert_eq!(data.len(), 8388608);
    assert_eq!(data[0], 0xD3);
    let state = ServerState::new("u".into(), "e".into(), "h".into(), &data);
    assert_eq!(state.size, 8388608);
    assert_eq!(state.etag, etag_of(&data));
    assert_eq!((state.upstream.as_str(), state.endpoint.as_str(), state.hash.as_str()), ("u", "e", "h"));
    assert!(!state.omit_size && !state.hold_payload && state.ranges.is_empty());
    assert_eq!(state.payload_bytes, 0);
    // The seed decides what is served.
    let again = incompressible(19, DATA_LENGTH);
    assert_eq!(again, data);
    assert_eq!(ServerState::new("u".into(), "e".into(), "h".into(), &again).etag, state.etag);
    let other = incompressible(23, DATA_LENGTH);
    assert_ne!(other, data);
    assert_ne!(etag_of(&other), state.etag);
    assert!(state.etag.len() == 64 && state.etag.chars().all(|c| matches!(c, '0'..='9' | 'a'..='f')));
}

#[test]
fn changed_content_has_its_own_partial() {
    let temp = CachePath::new("/tmp/x");
    let old = partial(&temp, &etag_of(b"old"));
    let new = partial(&temp, &etag_of(b"new"));
    assert!(!old.same_path(&new));
    assert_eq!(
        String::from_utf8(partial(&temp, "e7").bytes).unwrap(),
        "/tmp/x/hub/models--fixture--resume/blobs/e7.incomplete"
    );
    assert_eq!(blobs_directory(&temp).bytes, b"/tmp/x/hub/models--fixture--resume/blobs");
}

#[test]
fn clients_and_addresses_are_set_up() {
    assert_eq!(loopback_url(0), "http://127.0.0.1:0");
    assert_eq!(loopback_url(65535), "http://127.0.0.1:65535");
    let settings = client_settings("http://e", &CachePath::new("/tmp/x"));
    assert_eq!(settings.endpoint, "http://e");
    assert_eq!(settings.token, "fixture-only");
    assert_eq!(settings.cache_dir.bytes, b"/tmp/x/hub");
}

fn report(status: FileStatus, bytes_completed: u64) -> ProgressEvent {
    ProgressEvent::Download(DownloadEvent::Progress {
        files: vec![FileProgress {
            filename: "model.bin".into(),
            bytes_completed,
            total_bytes: 10,
            status,
        }],
    })
}

#[test]
fn listeners_keep_every_report() {
    let mut events = Events::default();
    assert!(!events.on_progress(&ProgressEvent::Upload));
    assert!(!events.on_progress(&ProgressEvent::Download(DownloadEvent::Start { total_bytes: 12 })));
    assert_eq!(events.total, Some(12));
    assert!(events.initial.is_none());
    assert!(events.on_progress(&report(FileStatus::Started, 3)));
    assert!(events.on_progress(&report(FileStatus::InProgress, 7)));
    assert!(!events.on_progress(&ProgressEvent::Download(DownloadEvent::Complete)));
    let seen: Vec<u64> = events.files.iter().map(|f| f.bytes_completed).collect();
    assert_eq!(seen, [3, 7]);
    let initial = events.initial.unwrap();
    assert_eq!(initial.len(), 1);
    assert_eq!((initial[0].filename.as_str(), initial[0].bytes_completed), ("model.bin", 3));
    assert_eq!((initial[0].total_bytes, initial[0].status), (10, FileStatus::Started));
}

#[test]
fn interruptions_wait_for_written_bytes() {
    let arriving = report(FileStatus::InProgress, 1);
    assert!(reports_arrival(&arriving));
    assert!(!reports_arrival(&report(FileStatus::InProgress, 0)));
    assert!(!reports_arrival(&report(FileStatus::Complete, 10)));
    let exit = ExitAfterWrite {
        partial: CachePath::new("/p"),
        retained: 5,
    };
    assert_eq!(exit.on_progress(&arriving, Some(6)), Some(87));
    assert_eq!(exit.on_progress(&arriving, Some(5)), None);
    assert_eq!(exit.on_progress(&arriving, None), None);
    assert_eq!(exit.on_progress(&report(FileStatus::Started, 5), Some(6)), None);
    let abort = AbortAfterWrite {
        partial: CachePath::new("/p"),
    };
    assert!(abort.on_progress(&arriving, Some(1)));
    assert!(!abort.on_progress(&arriving, Some(0)));
    assert!(!abort.on_progress(&arriving, None));
    assert!(!abort.on_progress(&ProgressEvent::Upload, Some(1)));
}

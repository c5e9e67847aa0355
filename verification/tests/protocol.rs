use mxagent::codec::encode_request;
use mxagent::codec::encode_response;
use mxagent::discovery::discovery_candidates;
use mxagent::discovery::encode_discovery_request;
use mxagent::discovery::encode_discovery_response;
use mxagent::discovery::new_discovery_request;
use mxagent::discovery::parse_discovery_response;
use mxagent::discovery::retain_live;
use mxagent::discovery::DiscoveryError;
use mxagent::discovery::DiscoveryResponse;
use mxagent::messages::AgentResponse;
use mxagent::messages::AgentResponsePayload;
use mxagent::messages::CommandExecutionRequest;
use mxagent::messages::CommandExecutionResponse;
use mxagent::messages::ControllerRequest;
use mxagent::messages::ControllerRequestPayload;
use mxagent::messages::FileOperation;
use mxagent::messages::FileOperationRequest;
use mxagent::messages::FileOperationResponse;
use mxagent::messages::SENTINEL_ID;
use mxagent::parser::parse_request;

fn command_request(version: u32, id: u64, command: &str) -> ControllerRequest {
    ControllerRequest {
        version,
        id,
        payload: ControllerRequestPayload::CommandExecutionRequest(CommandExecutionRequest {
            command: command.to_string(),
        }),
    }
}

fn file_request(id: u64, url: &str, path: &str, operation: FileOperation) -> ControllerRequest {
    ControllerRequest {
        version: 1,
        id,
        payload: ControllerRequestPayload::FileOperationRequest(FileOperationRequest {
            url: url.to_string(),
            path: path.to_string(),
            operation,
        }),
    }
}

#[test]
fn encode_command_request_exact() {
    let req = command_request(1, 42, "echo hi");
    assert_eq!(
        encode_request(&req),
        "{\"version\":1,\"id\":42,\"payload\":{\"CommandExecutionRequest\":{\"command\":\"echo hi\"}}}"
    );
}

#[test]
fn encode_file_request_exact() {
    let req = file_request(7, "http://h/x", "/tmp/x", FileOperation::Download);
    assert_eq!(
        encode_request(&req),
        "{\"version\":1,\"id\":7,\"payload\":{\"FileOperationRequest\":{\"url\":\"http://h/x\",\"path\":\"/tmp/x\",\"operation\":\"Download\"}}}"
    );
}

#[test]
fn encode_response_sentinel_exact() {
    let r = AgentResponse {
        id: SENTINEL_ID,
        ok: false,
        payload: AgentResponsePayload::Empty,
    };
    assert_eq!(
        encode_response(&r),
        "{\"id\":18446744073709551615,\"ok\":false,\"payload\":\"None\"}"
    );
}

#[test]
fn encode_response_command_exact() {
    let r = AgentResponse {
        id: 3,
        ok: true,
        payload: AgentResponsePayload::CommandExecutionResponse(CommandExecutionResponse {
            code: -1,
            stdout: "a\"b".to_string(),
            stderr: "x\ny".to_string(),
        }),
    };
    assert_eq!(
        encode_response(&r),
        "{\"id\":3,\"ok\":true,\"payload\":{\"CommandExecutionResponse\":{\"code\":-1,\"stdout\":\"a\\\"b\",\"stderr\":\"x\\ny\"}}}"
    );
}

#[test]
fn encode_response_file_exact() {
    let r = AgentResponse {
        id: 9,
        ok: false,
        payload: AgentResponsePayload::FileOperationResponse(FileOperationResponse {
            success: false,
        }),
    };
    assert_eq!(
        encode_response(&r),
        "{\"id\":9,\"ok\":false,\"payload\":{\"FileOperationResponse\":{\"success\":false}}}"
    );
}

#[test]
fn request_round_trip_command() {
    let req = command_request(0, u64::MAX, "printf '%s' \"weird \\ chars\t\"");
    let text = encode_request(&req);
    let back = parse_request(&text).expect("round trip");
    assert_eq!(back, req);
}

#[test]
fn request_round_trip_file_with_escapes() {
    let req = file_request(1, "ws://host:8080/\u{1}", "/tmp/\"dir\"/\nfile", FileOperation::Upload);
    let text = encode_request(&req);
    let back = parse_request(&text).expect("round trip");
    assert_eq!(back, req);
}

#[test]
fn request_round_trip_empty_command() {
    let req = command_request(0, 0, "");
    let text = encode_request(&req);
    assert_eq!(
        text,
        "{\"version\":0,\"id\":0,\"payload\":{\"CommandExecutionRequest\":{\"command\":\"\"}}}"
    );
    assert_eq!(parse_request(&text).expect("round trip"), req);
}

#[test]
fn parse_concrete_frame() {
    let text = "{\"version\":1,\"id\":5,\"payload\":{\"CommandExecutionRequest\":{\"command\":\"ls\"}}}";
    let req = parse_request(text).expect("parses");
    assert_eq!(req.version, 1);
    assert_eq!(req.id, 5);
    match req.payload {
        ControllerRequestPayload::CommandExecutionRequest(c) => assert_eq!(c.command, "ls"),
        _ => panic!("wrong payload kind"),
    }
}

#[test]
fn parse_rejects_bad_frames() {
    assert!(parse_request("").is_none());
    assert!(parse_request("hello").is_none());
    assert!(parse_request("{\"foo\":1}").is_none());
    // leading zero in the id is not canonical
    assert!(parse_request(
        "{\"version\":1,\"id\":007,\"payload\":{\"CommandExecutionRequest\":{\"command\":\"ls\"}}}"
    )
    .is_none());
    // trailing garbage after the closing brace
    assert!(parse_request(
        "{\"version\":1,\"id\":5,\"payload\":{\"CommandExecutionRequest\":{\"command\":\"ls\"}}}x"
    )
    .is_none());
    // id too large for u64
    assert!(parse_request(
        "{\"version\":1,\"id\":99999999999999999999,\"payload\":{\"CommandExecutionRequest\":{\"command\":\"ls\"}}}"
    )
    .is_none());
    // version beyond u32
    assert!(parse_request(
        "{\"version\":4294967296,\"id\":1,\"payload\":{\"CommandExecutionRequest\":{\"command\":\"ls\"}}}"
    )
    .is_none());
    // unterminated string
    assert!(parse_request(
        "{\"version\":1,\"id\":5,\"payload\":{\"CommandExecutionRequest\":{\"command\":\"ls}}}"
    )
    .is_none());
}

#[test]
fn parse_accepts_only_the_canonical_form() {
    // the wire form is canonical: no whitespace, keys in declaration order
    let canonical =
        "{\"version\":1,\"id\":5,\"payload\":{\"CommandExecutionRequest\":{\"command\":\"ls\"}}}";
    assert!(parse_request(canonical).is_some());
    let with_space =
        "{ \"version\":1,\"id\":5,\"payload\":{\"CommandExecutionRequest\":{\"command\":\"ls\"}}}";
    assert!(parse_request(with_space).is_none());
    let reordered =
        "{\"id\":5,\"version\":1,\"payload\":{\"CommandExecutionRequest\":{\"command\":\"ls\"}}}";
    assert!(parse_request(reordered).is_none());
}

#[test]
fn discovery_request_exact() {
    let req = new_discovery_request("192.168.1.20:34567".to_string());
    assert_eq!(req.revision, 1);
    assert_eq!(
        encode_discovery_request(&req),
        "{\"magic\":\"MXA-DISCOVER\",\"addr\":\"192.168.1.20:34567\",\"revision\":1}"
    );
}

#[test]
fn discovery_response_round_trip() {
    let resp = DiscoveryResponse {
        magic: "MXA-RESPONSE".to_string(),
        ws: vec!["ws://a:1/ws".to_string(), "ws://b:2/ws".to_string()],
    };
    let text = encode_discovery_response(&resp);
    assert_eq!(
        text,
        "{\"magic\":\"MXA-RESPONSE\",\"ws\":[\"ws://a:1/ws\",\"ws://b:2/ws\"]}"
    );
    let back = parse_discovery_response(&text).expect("parses");
    assert_eq!(back.magic, "MXA-RESPONSE");
    assert_eq!(back.ws, vec!["ws://a:1/ws".to_string(), "ws://b:2/ws".to_string()]);
}

#[test]
fn discovery_response_empty_list() {
    let resp = DiscoveryResponse { magic: "MXA-RESPONSE".to_string(), ws: vec![] };
    let text = encode_discovery_response(&resp);
    assert_eq!(text, "{\"magic\":\"MXA-RESPONSE\",\"ws\":[]}");
    let urls = discovery_candidates(&text).expect("accepted");
    assert!(urls.is_empty());
}

#[test]
fn discovery_rejects_bad_magic() {
    let resp = DiscoveryResponse {
        magic: "MXA-SOMETHING".to_string(),
        ws: vec!["ws://a:1/ws".to_string()],
    };
    let text = encode_discovery_response(&resp);
    assert_eq!(discovery_candidates(&text), Err(DiscoveryError::InvalidMagic));
}

#[test]
fn discovery_rejects_malformed() {
    assert_eq!(discovery_candidates("not json"), Err(DiscoveryError::Malformed));
    assert_eq!(discovery_candidates("{\"magic\":1}"), Err(DiscoveryError::Malformed));
    assert_eq!(
        discovery_candidates("{\"magic\":\"MXA-RESPONSE\",\"ws\":[,\"x\"]}"),
        Err(DiscoveryError::Malformed)
    );
    assert_eq!(
        discovery_candidates("{\"magic\":\"MXA-RESPONSE\",\"ws\":[\"x\",]}"),
        Err(DiscoveryError::Malformed)
    );
}

#[test]
fn liveness_filter_keeps_exactly_the_live_two() {
    // one responder advertises three candidates; the middle one fails its probe
    let candidates = vec![
        "ws://a:1/ws".to_string(),
        "ws://dead:9/ws".to_string(),
        "ws://c:3/ws".to_string(),
    ];
    let probe_ok = vec![true, false, true];
    let kept = retain_live(candidates, &probe_ok);
    assert_eq!(kept, vec!["ws://a:1/ws".to_string(), "ws://c:3/ws".to_string()]);
}

use mxagent::channel::backoff_secs;
use mxagent::channel::channel_step;
use mxagent::channel::handle_frame;
use mxagent::channel::respond_frame;
use mxagent::channel::ChannelAction;
use mxagent::channel::ChannelEvent;
use mxagent::channel::ChannelState;
use mxagent::channel::Frame;
use mxagent::channel::FrameOutcome;
use mxagent::channel::OutboundLog;
use mxagent::codec::encode_request;
use mxagent::executor::execute_response;
use mxagent::executor::file_op_response;
use mxagent::executor::task_response;
use mxagent::executor::to_task;
use mxagent::executor::CommandOutcome;
use mxagent::executor::Task;
use mxagent::executor::TaskOutcome;
use mxagent::messages::AgentResponsePayload;
use mxagent::messages::CommandExecutionRequest;
use mxagent::messages::ControllerRequest;
use mxagent::messages::ControllerRequestPayload;
use mxagent::messages::FileOperation;
use mxagent::messages::FileOperationRequest;
use mxagent::messages::SENTINEL_ID;
use mxagent::utils::exit_code_or_default;
use mxagent::utils::machine_id_from_record;
use mxagent::utils::shell_invocation;

fn command_request(id: u64, command: &str) -> ControllerRequest {
    ControllerRequest {
        version: 1,
        id,
        payload: ControllerRequestPayload::CommandExecutionRequest(CommandExecutionRequest {
            command: command.to_string(),
        }),
    }
}

fn file_request(id: u64, operation: FileOperation) -> ControllerRequest {
    ControllerRequest {
        version: 1,
        id,
        payload: ControllerRequestPayload::FileOperationRequest(FileOperationRequest {
            url: "http://h/f".to_string(),
            path: "/tmp/f".to_string(),
            operation,
        }),
    }
}

#[test]
fn text_frame_with_request_is_dispatched() {
    let req = command_request(42, "echo hi");
    let text = encode_request(&req);
    match handle_frame(Frame::Text(text)) {
        FrameOutcome::Dispatch(parsed) => assert_eq!(parsed, req),
        _ => panic!("expected dispatch"),
    }
}

#[test]
fn bad_text_frame_gets_one_sentinel_reply() {
    match handle_frame(Frame::Text("not a request".to_string())) {
        FrameOutcome::Reply(r) => {
            assert_eq!(r.id, SENTINEL_ID);
            assert_eq!(r.id, u64::MAX);
            assert!(!r.ok);
            assert_eq!(r.payload, AgentResponsePayload::Empty);
        }
        _ => panic!("expected a reply"),
    }
}

#[test]
fn ping_is_answered_by_pong_with_same_payload() {
    let payload = vec![1u8, 2, 3, 255];
    match handle_frame(Frame::Ping(payload.clone())) {
        FrameOutcome::Pong(p) => assert_eq!(p, payload),
        _ => panic!("expected a pong"),
    }
}

#[test]
fn binary_and_pong_frames_are_ignored_close_terminates() {
    assert!(matches!(handle_frame(Frame::Binary(vec![0u8])), FrameOutcome::Ignore));
    assert!(matches!(handle_frame(Frame::Pong(vec![])), FrameOutcome::Ignore));
    assert!(matches!(handle_frame(Frame::Malformed), FrameOutcome::Ignore));
    assert!(matches!(handle_frame(Frame::Close), FrameOutcome::Terminate));
}

#[test]
fn backoff_schedule_matches_truncated_formula() {
    // 1.5^r * 3 + 5 truncated to whole seconds, attempts 0..=4
    assert_eq!(backoff_secs(0), 8);
    assert_eq!(backoff_secs(1), 9);
    assert_eq!(backoff_secs(2), 11);
    assert_eq!(backoff_secs(3), 15);
    assert_eq!(backoff_secs(4), 20);
}

#[test]
fn failed_attempts_walk_the_schedule_and_wrap() {
    let mut state = ChannelState::Connecting { attempt: 0 };
    let mut delays: Vec<u64> = Vec::new();
    for _ in 0..5 {
        let (next, action) = channel_step(state, ChannelEvent::ConnectFailed);
        match action {
            ChannelAction::SleepThenConnect(d) => delays.push(d),
            _ => panic!("expected a sleep"),
        }
        state = next;
    }
    assert_eq!(delays, vec![8, 9, 11, 15, 20]);
    // after five failures the attempt counter has wrapped to zero
    match state {
        ChannelState::Connecting { attempt } => assert_eq!(attempt, 0),
        _ => panic!("still connecting"),
    }
}

#[test]
fn connected_phase_ends_on_close_and_stream_end() {
    let (s1, a1) = channel_step(ChannelState::Connected, ChannelEvent::FrameIn(Frame::Close));
    assert!(matches!(s1, ChannelState::Connecting { attempt: 0 }));
    assert!(matches!(a1, ChannelAction::Connect));
    let (s2, a2) = channel_step(ChannelState::Connected, ChannelEvent::StreamEnded);
    assert!(matches!(s2, ChannelState::Connecting { attempt: 0 }));
    assert!(matches!(a2, ChannelAction::Connect));
    let (s3, a3) = channel_step(
        ChannelState::Connecting { attempt: 3 },
        ChannelEvent::ConnectOk,
    );
    assert!(matches!(s3, ChannelState::Connected));
    assert!(matches!(a3, ChannelAction::AwaitFrame));
}

#[test]
fn writes_append_whole_frames_in_order() {
    let mut log = OutboundLog::new();
    let first = respond_frame(1, true, AgentResponsePayload::Empty);
    let second = respond_frame(2, false, AgentResponsePayload::Empty);
    log.send(first.clone());
    log.send(second.clone());
    assert_eq!(log.frames().len(), 2);
    assert_eq!(log.frames()[0], first);
    assert_eq!(log.frames()[1], second);
    // the wire stream is the two whole frames, one after the other
    let stream: String = log.frames().concat();
    let mut expected = first.clone();
    expected.push_str(&second);
    assert_eq!(stream, expected);
}

#[test]
fn requests_map_to_their_tasks() {
    match to_task(&command_request(1, "ls -l")) {
        Task::Execute(e) => assert_eq!(e.cmd, "ls -l"),
        _ => panic!("expected execute"),
    }
    match to_task(&file_request(2, FileOperation::Download)) {
        Task::Download(d) => {
            assert_eq!(d.url, "http://h/f");
            assert_eq!(d.path, "/tmp/f");
        }
        _ => panic!("expected download"),
    }
    match to_task(&file_request(3, FileOperation::Upload)) {
        Task::Upload(u) => {
            assert_eq!(u.url, "http://h/f");
            assert_eq!(u.path, "/tmp/f");
        }
        _ => panic!("expected upload"),
    }
}

#[test]
fn echo_outcome_yields_code_zero_and_output() {
    // the outcome `sh -c "echo hi"` reports: exit 0, "hi" on stdout, nothing on stderr
    let r = execute_response(
        11,
        CommandOutcome::Finished {
            code: 0,
            stdout: "hi\n".to_string(),
            stderr: "".to_string(),
        },
    );
    assert_eq!(r.id, 11);
    assert!(r.ok);
    match r.payload {
        AgentResponsePayload::CommandExecutionResponse(c) => {
            assert_eq!(c.code, 0);
            assert!(c.stdout.contains("hi"));
            assert_eq!(c.stderr, "");
        }
        _ => panic!("wrong payload kind"),
    }
}

#[test]
fn spawn_failure_yields_code_minus_one() {
    let r = execute_response(12, CommandOutcome::SpawnFailed);
    assert_eq!(r.id, 12);
    assert!(!r.ok);
    match r.payload {
        AgentResponsePayload::CommandExecutionResponse(c) => {
            assert_eq!(c.code, -1);
            assert_eq!(c.stdout, "");
            assert_eq!(c.stderr, "");
        }
        _ => panic!("wrong payload kind"),
    }
}

#[test]
fn failed_download_yields_single_failure_response() {
    // a 404 download: one response, success false, nothing more
    let req = file_request(21, FileOperation::Download);
    let task = to_task(&req);
    let r = task_response(&req, task, TaskOutcome::FileTransfer { success: false });
    assert_eq!(r.id, 21);
    assert!(!r.ok);
    match r.payload {
        AgentResponsePayload::FileOperationResponse(f) => assert!(!f.success),
        _ => panic!("wrong payload kind"),
    }
}

#[test]
fn upload_outcomes_map_to_success_flag() {
    // HTTP 201 counts as success, HTTP 500 as failure
    let created = file_op_response(31, true);
    assert!(created.ok);
    match created.payload {
        AgentResponsePayload::FileOperationResponse(f) => assert!(f.success),
        _ => panic!("wrong payload kind"),
    }
    let failed = file_op_response(32, false);
    assert!(!failed.ok);
    match failed.payload {
        AgentResponsePayload::FileOperationResponse(f) => assert!(!f.success),
        _ => panic!("wrong payload kind"),
    }
}

#[test]
fn response_echoes_request_id() {
    let req = command_request(77, "true");
    let task = to_task(&req);
    let r = task_response(
        &req,
        task,
        TaskOutcome::Command(CommandOutcome::Finished {
            code: 0,
            stdout: String::new(),
            stderr: String::new(),
        }),
    );
    assert_eq!(r.id, 77);
    assert!(matches!(r.payload, AgentResponsePayload::CommandExecutionResponse(_)));
}

#[test]
fn machine_id_is_32_lowercase_hex_of_bytes_8_to_24() {
    let record: Vec<u8> = (0u8..24).collect();
    let id = machine_id_from_record(&record);
    assert_eq!(id.len(), 32);
    assert_eq!(id, "08090a0b0c0d0e0f1011121314151617");
    let high: Vec<u8> = vec![0xca; 24];
    assert_eq!(machine_id_from_record(&high), "cacacacacacacacacacacacacacacaca");
}

#[test]
fn shell_invocation_is_sh_dash_c() {
    let (program, args) = shell_invocation("echo hi");
    assert_eq!(program, "sh");
    assert_eq!(args, vec!["-c".to_string(), "echo hi".to_string()]);
}

#[test]
fn exit_code_defaults_to_minus_one() {
    assert_eq!(exit_code_or_default(Some(3)), 3);
    assert_eq!(exit_code_or_default(None), -1);
}

//! Protocol message model: the request and response shapes carried as JSON
//! text frames on the control channel. Pure data; the codec module defines
//! the wire encoding and the executor module the request-to-task mapping.

use vstd::prelude::*;

verus! {

/// Response id used when a frame could not be parsed and no request id is known.
pub const SENTINEL_ID: u64 = u64::MAX;

/// Ask the agent to run a shell command.
#[derive(Clone, Debug, PartialEq)]
pub struct CommandExecutionRequest {
    pub command: String,
}

/// Outcome of a command execution: exit code and captured output streams.
#[derive(Clone, Debug, PartialEq)]
pub struct CommandExecutionResponse {
    pub code: i32,
    pub stdout: String,
    pub stderr: String,
}

/// Direction of a file transfer.
#[derive(Clone, Copy, PartialEq, Eq, Structural, Debug)]
pub enum FileOperation {
    Download,
    Upload,
}

/// Ask the agent to move a file between a URL and a local path.
#[derive(Clone, Debug, PartialEq)]
pub struct FileOperationRequest {
    pub url: String,
    pub path: String,
    pub operation: FileOperation,
}

/// Outcome of a file transfer.
#[derive(Clone, Copy, PartialEq, Eq, Structural, Debug)]
pub struct FileOperationResponse {
    pub success: bool,
}

/// The closed union of request kinds a controller can send.
#[derive(Clone, Debug, PartialEq)]
pub enum ControllerRequestPayload {
    CommandExecutionRequest(CommandExecutionRequest),
    FileOperationRequest(FileOperationRequest),
}

/// One inbound request: protocol version, correlation id, and the payload.
#[derive(Clone, Debug, PartialEq)]
pub struct ControllerRequest {
    pub version: u32,
    pub id: u64,
    pub payload: ControllerRequestPayload,
}

/// The union of response kinds the agent can send back.
#[derive(Clone, Debug, PartialEq)]
pub enum AgentResponsePayload {
    Empty,
    CommandExecutionResponse(CommandExecutionResponse),
    FileOperationResponse(FileOperationResponse),
}

/// One outbound response: the echoed request id, an overall success flag,
/// and the payload whose shape is fixed by the request kind that produced it.
#[derive(Clone, Debug, PartialEq)]
pub struct AgentResponse {
    pub id: u64,
    pub ok: bool,
    pub payload: AgentResponsePayload,
}

/// Mathematical model of a request payload: strings as character sequences.
pub ghost enum RequestPayloadView {
    Command { command: Seq<char> },
    FileOp { url: Seq<char>, path: Seq<char>, operation: FileOperation },
}

/// Mathematical model of a request.
pub ghost struct ControllerRequestView {
    pub version: u32,
    pub id: u64,
    pub payload: RequestPayloadView,
}

/// Mathematical model of a response payload.
pub ghost enum ResponsePayloadView {
    Empty,
    Command { code: i32, stdout: Seq<char>, stderr: Seq<char> },
    FileOp { success: bool },
}

/// Mathematical model of a response.
pub ghost struct AgentResponseView {
    pub id: u64,
    pub ok: bool,
    pub payload: ResponsePayloadView,
}

impl View for ControllerRequestPayload {
    type V = RequestPayloadView;

    open spec fn view(&self) -> RequestPayloadView {
        match self {
            ControllerRequestPayload::CommandExecutionRequest(c) => RequestPayloadView::Command {
                command: c.command@,
            },
            ControllerRequestPayload::FileOperationRequest(f) => RequestPayloadView::FileOp {
                url: f.url@,
                path: f.path@,
                operation: f.operation,
            },
        }
    }
}

impl View for ControllerRequest {
    type V = ControllerRequestView;

    open spec fn view(&self) -> ControllerRequestView {
        ControllerRequestView { version: self.version, id: self.id, payload: self.payload@ }
    }
}

impl View for AgentResponsePayload {
    type V = ResponsePayloadView;

    open spec fn view(&self) -> ResponsePayloadView {
        match self {
            AgentResponsePayload::Empty => ResponsePayloadView::Empty,
            AgentResponsePayload::CommandExecutionResponse(c) => ResponsePayloadView::Command {
                code: c.code,
                stdout: c.stdout@,
                stderr: c.stderr@,
            },
            AgentResponsePayload::FileOperationResponse(f) => ResponsePayloadView::FileOp {
                success: f.success,
            },
        }
    }
}

impl View for AgentResponse {
    type V = AgentResponseView;

    open spec fn view(&self) -> AgentResponseView {
        AgentResponseView { id: self.id, ok: self.ok, payload: self.payload@ }
    }
}

impl AgentResponse {
    /// The response sent for a text frame that did not parse as a request:
    /// sentinel id, not ok, no payload.
    pub fn sentinel() -> (r: AgentResponse)
        ensures
            r.id == SENTINEL_ID,
            !r.ok,
            r.payload is Empty,
    {
        AgentResponse { id: SENTINEL_ID, ok: false, payload: AgentResponsePayload::Empty }
    }
}

} // verus!

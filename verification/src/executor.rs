//! Request dispatch and response construction: the mapping from a parsed
//! request to the task it names, and from a task's outcome to the single
//! response frame that answers it. The operations themselves (subprocess,
//! HTTP transfer) run outside; their results come back here as plain values.

use vstd::prelude::*;

use crate::messages::AgentResponse;
use crate::messages::AgentResponsePayload;
use crate::messages::CommandExecutionResponse;
use crate::messages::ControllerRequest;
use crate::messages::ControllerRequestPayload;
use crate::messages::FileOperation;
use crate::messages::FileOperationResponse;

verus! {

/// A file transfer between a URL and a local path.
pub struct FileDownloadUploadTask {
    pub url: String,
    pub path: String,
}

/// A shell command to run.
pub struct ExecuteTask {
    pub cmd: String,
}

/// One dispatched unit of work derived from a request.
pub enum Task {
    Download(FileDownloadUploadTask),
    Upload(FileDownloadUploadTask),
    Execute(ExecuteTask),
}

/// `t` is the task that `req` names: command requests become execute tasks,
/// file requests become a download or upload task carrying the same URL and
/// path.
pub open spec fn task_of(req: ControllerRequest, t: Task) -> bool {
    match req.payload {
        ControllerRequestPayload::CommandExecutionRequest(c) => t matches Task::Execute(e)
            && e.cmd@ == c.command@,
        ControllerRequestPayload::FileOperationRequest(f) => match f.operation {
            FileOperation::Download => t matches Task::Download(d) && d.url@ == f.url@ && d.path@
                == f.path@,
            FileOperation::Upload => t matches Task::Upload(u) && u.url@ == f.url@ && u.path@
                == f.path@,
        },
    }
}

/// Map a request to its task. The payload union is closed and every variant
/// names a task, so the mapping is total.
pub fn to_task(req: &ControllerRequest) -> (t: Task)
    ensures
        task_of(*req, t),
{
    match &req.payload {
        ControllerRequestPayload::CommandExecutionRequest(c) => Task::Execute(
            ExecuteTask { cmd: c.command.clone() },
        ),
        ControllerRequestPayload::FileOperationRequest(f) => {
            match f.operation {
                FileOperation::Download => Task::Download(
                    FileDownloadUploadTask { url: f.url.clone(), path: f.path.clone() },
                ),
                FileOperation::Upload => Task::Upload(
                    FileDownloadUploadTask { url: f.url.clone(), path: f.path.clone() },
                ),
            }
        },
    }
}

/// How a command execution ended: the process ran to completion with an exit
/// code and captured output, or it could not be spawned at all.
pub enum CommandOutcome {
    Finished { code: i32, stdout: String, stderr: String },
    SpawnFailed,
}

/// The outcome of one task, as plain values handed back by the runtime that
/// performed it.
pub enum TaskOutcome {
    Command(CommandOutcome),
    FileTransfer { success: bool },
}

/// `outcome` is an outcome of the right kind for `t`.
pub open spec fn outcome_fits(t: Task, outcome: TaskOutcome) -> bool {
    match t {
        Task::Execute(_) => outcome is Command,
        Task::Download(_) => outcome is FileTransfer,
        Task::Upload(_) => outcome is FileTransfer,
    }
}

/// The single response that answers a command execution: on completion the
/// captured code and output, on a spawn failure code `-1` with empty output.
pub fn execute_response(id: u64, outcome: CommandOutcome) -> (r: AgentResponse)
    ensures
        r.id == id,
        match outcome {
            CommandOutcome::Finished { code, stdout, stderr } => r.ok && (
            r.payload matches AgentResponsePayload::CommandExecutionResponse(c) && c.code == code
                && c.stdout@ == stdout@ && c.stderr@ == stderr@),
            CommandOutcome::SpawnFailed => !r.ok && (
            r.payload matches AgentResponsePayload::CommandExecutionResponse(c) && c.code == -1
                && c.stdout@ == Seq::<char>::empty() && c.stderr@ == Seq::<char>::empty()),
        },
{
    match outcome {
        CommandOutcome::Finished { code, stdout, stderr } => AgentResponse {
            id,
            ok: true,
            payload: AgentResponsePayload::CommandExecutionResponse(
                CommandExecutionResponse { code, stdout, stderr },
            ),
        },
        CommandOutcome::SpawnFailed => AgentResponse {
            id,
            ok: false,
            payload: AgentResponsePayload::CommandExecutionResponse(
                CommandExecutionResponse { code: -1, stdout: String::new(), stderr: String::new() },
            ),
        },
    }
}

/// The single response that answers a file transfer: its success flag is the
/// transfer's outcome, never followed by a second response.
pub fn file_op_response(id: u64, success: bool) -> (r: AgentResponse)
    ensures
        r.id == id,
        r.ok == success,
        r.payload matches AgentResponsePayload::FileOperationResponse(f) && f.success == success,
{
    AgentResponse {
        id,
        ok: success,
        payload: AgentResponsePayload::FileOperationResponse(FileOperationResponse { success }),
    }
}

/// The one response that answers `req` once its task's outcome is known: it
/// always echoes the request's id, and its payload shape is fixed by the
/// request's kind — command requests get command responses, file requests
/// file responses.
pub fn task_response(req: &ControllerRequest, t: Task, outcome: TaskOutcome) -> (r: AgentResponse)
    requires
        task_of(*req, t),
        outcome_fits(t, outcome),
    ensures
        r.id == req.id,
        req.payload is CommandExecutionRequest
            ==> r.payload is CommandExecutionResponse,
        req.payload is FileOperationRequest ==> r.payload is FileOperationResponse,
        outcome matches TaskOutcome::FileTransfer { success } ==> r.ok == success && (
        r.payload matches AgentResponsePayload::FileOperationResponse(f) && f.success == success),
        outcome matches TaskOutcome::Command(c) ==> match c {
            CommandOutcome::Finished { code, stdout, stderr } => r.ok && (
            r.payload matches AgentResponsePayload::CommandExecutionResponse(cr) && cr.code == code
                && cr.stdout@ == stdout@ && cr.stderr@ == stderr@),
            CommandOutcome::SpawnFailed => !r.ok && (
            r.payload matches AgentResponsePayload::CommandExecutionResponse(cr) && cr.code == -1
                && cr.stdout@ == Seq::<char>::empty() && cr.stderr@ == Seq::<char>::empty()),
        },
{
    match outcome {
        TaskOutcome::Command(c) => execute_response(req.id, c),
        TaskOutcome::FileTransfer { success } => file_op_response(req.id, success),
    }
}

} // verus!

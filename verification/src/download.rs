//! The decisions of a single file download. The caller performs each step
//! (creating the destination's directory, sending the request, reading the
//! body, creating and writing the file) and reports how it went; this module
//! says what to do next and with which message a download fails.
use vstd::prelude::*;

verus! {

/// A step of a download, performed by the caller.
#[derive(Clone, Copy, Debug, PartialEq, Eq, Structural)]
pub enum DownloadStep {
    CreateParentDir,
    SendRequest,
    ReadBody,
    CreateFile,
    WriteFile,
}

/// What the caller reports after starting or performing a step. Failures
/// carry the text of the underlying error.
#[derive(Debug)]
pub enum DownloadEvent {
    Started { has_parent: bool },
    DirCreated,
    DirFailed(String),
    /// The server answered with `status`; `status_text` is how the status prints (such as `404 Not Found`).
    Responded { status: u16, status_text: String },
    RequestFailed(String),
    BodyRead,
    BodyFailed(String),
    FileCreated,
    FileFailed(String),
    Written,
    WriteFailed(String),
}

/// What to do next.
#[derive(Debug)]
pub enum DownloadAction {
    Perform(DownloadStep),
    Succeed,
    Fail(String),
}

/// The status is a success status (2xx).
pub open spec fn status_ok(status: u16) -> bool {
    200 <= status <= 299
}

/// The action that follows an event, for a download of `url`.
pub open spec fn next_action_spec(event: DownloadEvent, url: Seq<char>) -> Result<Option<DownloadStep>, Seq<char>> {
    match event {
        DownloadEvent::Started { has_parent } => Ok(
            Some(
                if has_parent {
                    DownloadStep::CreateParentDir
                } else {
                    DownloadStep::SendRequest
                },
            ),
        ),
        DownloadEvent::DirCreated => Ok(Some(DownloadStep::SendRequest)),
        DownloadEvent::DirFailed(e) => Err("Failed to create directory: "@ + e@),
        DownloadEvent::Responded { status, status_text } => if status_ok(status) {
            Ok(Some(DownloadStep::ReadBody))
        } else {
            Err("HTTP "@ + status_text@ + ": "@ + url)
        },
        DownloadEvent::RequestFailed(e) => Err("Request failed: "@ + e@),
        DownloadEvent::BodyRead => Ok(Some(DownloadStep::CreateFile)),
        DownloadEvent::BodyFailed(e) => Err("Failed to read response: "@ + e@),
        DownloadEvent::FileCreated => Ok(Some(DownloadStep::WriteFile)),
        DownloadEvent::FileFailed(e) => Err("Failed to create file: "@ + e@),
        DownloadEvent::Written => Ok(None),
        DownloadEvent::WriteFailed(e) => Err("Failed to write file: "@ + e@),
    }
}

/// `action` is what `next_action_spec` prescribes: `Ok(Some(step))` performs
/// the step, `Ok(None)` succeeds, `Err(m)` fails with message `m`.
pub open spec fn action_is(action: DownloadAction, expected: Result<Option<DownloadStep>, Seq<char>>) -> bool {
    match expected {
        Ok(Some(step)) => action == DownloadAction::Perform(step),
        Ok(None) => action is Succeed,
        Err(m) => action matches DownloadAction::Fail(msg) && msg@ == m,
    }
}

fn prefixed(prefix: &str, detail: &str) -> (s: String)
    ensures
        s@ == prefix@ + detail@,
{
    let mut s = prefix.to_owned();
    s.append(detail);
    s
}

/// Decides what follows `event` in the download of `url`: the parent
/// directory is created first when the destination has one, then the request
/// is sent; a 2xx answer leads on to reading the body, creating the file and
/// writing it, after which the download succeeds. Any failure, and any other
/// status, ends the download with a message naming what failed.
pub fn next_action(event: DownloadEvent, url: &str) -> (action: DownloadAction)
    ensures
        action_is(action, next_action_spec(event, url@)),
{
    match event {
        DownloadEvent::Started { has_parent } => {
            if has_parent {
                DownloadAction::Perform(DownloadStep::CreateParentDir)
            } else {
                DownloadAction::Perform(DownloadStep::SendRequest)
            }
        },
        DownloadEvent::DirCreated => DownloadAction::Perform(DownloadStep::SendRequest),
        DownloadEvent::DirFailed(e) => DownloadAction::Fail(prefixed("Failed to create directory: ", e.as_str())),
        DownloadEvent::Responded { status, status_text } => {
            if 200 <= status && status <= 299 {
                DownloadAction::Perform(DownloadStep::ReadBody)
            } else {
                let mut m = prefixed("HTTP ", status_text.as_str());
                m.append(": ");
                m.append(url);
                DownloadAction::Fail(m)
            }
        },
        DownloadEvent::RequestFailed(e) => DownloadAction::Fail(prefixed("Request failed: ", e.as_str())),
        DownloadEvent::BodyRead => DownloadAction::Perform(DownloadStep::CreateFile),
        DownloadEvent::BodyFailed(e) => DownloadAction::Fail(prefixed("Failed to read response: ", e.as_str())),
        DownloadEvent::FileCreated => DownloadAction::Perform(DownloadStep::WriteFile),
        DownloadEvent::FileFailed(e) => DownloadAction::Fail(prefixed("Failed to create file: ", e.as_str())),
        DownloadEvent::Written => DownloadAction::Succeed,
        DownloadEvent::WriteFailed(e) => DownloadAction::Fail(prefixed("Failed to write file: ", e.as_str())),
    }
}

/// After the server answers, the body is read exactly for a 2xx status;
/// any other status ends the download with `HTTP `, the status as it
/// prints, `: ` and the URL.
pub proof fn lemma_response_rule(status: u16, status_text: String, url: Seq<char>)
    ensures
        (next_action_spec(DownloadEvent::Responded { status, status_text }, url) == Ok::<
            Option<DownloadStep>,
            Seq<char>,
        >(Some(DownloadStep::ReadBody))) <==> (200 <= status && status <= 299),
        !(200 <= status && status <= 299) ==> next_action_spec(DownloadEvent::Responded { status, status_text }, url)
            == Err::<Option<DownloadStep>, Seq<char>>("HTTP "@ + status_text@ + ": "@ + url),
{
}

/// A download whose every step succeeds goes through the steps in order:
/// the parent directory (when there is one), the request, reading the body
/// of a 2xx answer, creating the file and writing it, and then succeeds.
pub proof fn lemma_successful_download_order(has_parent: bool, status: u16, status_text: String, url: Seq<char>)
    requires
        200 <= status <= 299,
    ensures
        next_action_spec(DownloadEvent::Started { has_parent }, url) == Ok::<Option<DownloadStep>, Seq<char>>(
            Some(if has_parent { DownloadStep::CreateParentDir } else { DownloadStep::SendRequest }),
        ),
        next_action_spec(DownloadEvent::DirCreated, url) == Ok::<Option<DownloadStep>, Seq<char>>(
            Some(DownloadStep::SendRequest),
        ),
        next_action_spec(DownloadEvent::Responded { status, status_text }, url) == Ok::<
            Option<DownloadStep>,
            Seq<char>,
        >(Some(DownloadStep::ReadBody)),
        next_action_spec(DownloadEvent::BodyRead, url) == Ok::<Option<DownloadStep>, Seq<char>>(
            Some(DownloadStep::CreateFile),
        ),
        next_action_spec(DownloadEvent::FileCreated, url) == Ok::<Option<DownloadStep>, Seq<char>>(
            Some(DownloadStep::WriteFile),
        ),
        next_action_spec(DownloadEvent::Written, url) == Ok::<Option<DownloadStep>, Seq<char>>(None),
{
}

/// `m` is a message that ends with the error text `e`, after a non-empty prefix.
pub open spec fn ends_with_error(m: Seq<char>, e: Seq<char>) -> bool {
    m.len() > e.len() && m.subrange(m.len() - e.len(), m.len() as int) == e
}

/// Every failed step ends the download, with a message that ends with the
/// text of the error that step met.
pub proof fn lemma_failures_end_download(e: String, url: Seq<char>)
    ensures
        next_action_spec(DownloadEvent::DirFailed(e), url) matches Err(m) && ends_with_error(m, e@),
        next_action_spec(DownloadEvent::RequestFailed(e), url) matches Err(m) && ends_with_error(m, e@),
        next_action_spec(DownloadEvent::BodyFailed(e), url) matches Err(m) && ends_with_error(m, e@),
        next_action_spec(DownloadEvent::FileFailed(e), url) matches Err(m) && ends_with_error(m, e@),
        next_action_spec(DownloadEvent::WriteFailed(e), url) matches Err(m) && ends_with_error(m, e@),
{
    reveal_strlit("Failed to create directory: ");
    reveal_strlit("Request failed: ");
    reveal_strlit("Failed to read response: ");
    reveal_strlit("Failed to create file: ");
    reveal_strlit("Failed to write file: ");
    let p1 = "Failed to create directory: "@;
    let p2 = "Request failed: "@;
    let p3 = "Failed to read response: "@;
    let p4 = "Failed to create file: "@;
    let p5 = "Failed to write file: "@;
    assert((p1 + e@).subrange(p1.len() as int, (p1 + e@).len() as int) =~= e@);
    assert((p2 + e@).subrange(p2.len() as int, (p2 + e@).len() as int) =~= e@);
    assert((p3 + e@).subrange(p3.len() as int, (p3 + e@).len() as int) =~= e@);
    assert((p4 + e@).subrange(p4.len() as int, (p4 + e@).len() as int) =~= e@);
    assert((p5 + e@).subrange(p5.len() as int, (p5 + e@).len() as int) =~= e@);
}

} // verus!

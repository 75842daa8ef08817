//! What becomes of a request to the game's servers: which answers end it,
//! which are tried again, and after how long.

use crate::proto::{JobOutcome, JobResult};
use crate::text::{chars_of, decimal, parse_unsigned, parsed_unsigned, push_decimal, same_text};
use vstd::prelude::*;
use vstd::string::StringExecFns;

verus! {

/// A request is given up after this many attempts.
pub const WIRE_ATTEMPTS: u32 = 4;

/// A request with a refused key is given up after this many attempts, where
/// the key cannot be replaced.
pub const KEY_ATTEMPTS: u32 = 3;

/// How long to wait after a refused key, where it cannot be replaced.
pub const KEY_WAIT_SECS: u64 = 60;

/// How long to cool down if the server does not say.
pub const COOLDOWN_SECS: u64 = 10;

/// What came back for a request.
#[derive(Clone, Debug, PartialEq, Eq)]
pub enum Reply {
    /// Success, with a body.
    Body(String),
    /// Success, but the body could not be read.
    Unread(String),
    /// Any other status, with its text and two headers.
    Status {
        code: u16,
        status: String,
        retry_after: Option<String>,
        limit_type: Option<String>,
    },
    /// Nothing came back.
    Lost(String),
}

/// An optional text.
pub open spec fn text_in(t: Option<String>) -> Option<Seq<char>> {
    match t {
        Some(s) => Some(s@),
        None => None,
    }
}

#[verifier::ext_equal]
pub enum ReplyV {
    Body(Seq<char>),
    Unread(Seq<char>),
    Status {
        code: u16,
        status: Seq<char>,
        retry_after: Option<Seq<char>>,
        limit_type: Option<Seq<char>>,
    },
    Lost(Seq<char>),
}

impl View for Reply {
    type V = ReplyV;

    open spec fn view(&self) -> ReplyV {
        match self {
            Reply::Body(b) => ReplyV::Body(b@),
            Reply::Unread(e) => ReplyV::Unread(e@),
            Reply::Status { code, status, retry_after, limit_type } => ReplyV::Status {
                code: *code,
                status: status@,
                retry_after: text_in(*retry_after),
                limit_type: text_in(*limit_type),
            },
            Reply::Lost(e) => ReplyV::Lost(e@),
        }
    }
}

/// The result of a job.
#[verifier::ext_equal]
pub struct ResultV {
    pub id: u64,
    pub outcome: JobOutcome,
    pub body: Option<Seq<char>>,
    pub error: Option<Seq<char>>,
}

impl View for JobResult {
    type V = ResultV;

    open spec fn view(&self) -> ResultV {
        ResultV {
            id: self.id,
            outcome: self.outcome,
            body: text_in(self.body),
            error: text_in(self.error),
        }
    }
}

/// A result that says why a job failed.
pub open spec fn failed(id: u64, error: Seq<char>) -> ResultV {
    ResultV { id, outcome: JobOutcome::Failed, body: None, error: Some(error) }
}

/// For how long to let nothing through, and on which limiter: the endpoint's,
/// or the host's.
#[derive(Clone, Copy, Debug, PartialEq, Eq, Structural)]
pub struct Cooldown {
    pub on_method: bool,
    pub secs: u64,
}

/// What to do after a reply: cool a limiter down, note that the key is bad,
/// sleep, and then end with a result or try again.
pub struct Verdict {
    pub cooldown: Option<Cooldown>,
    pub key_bad: bool,
    pub sleep_secs: u64,
    pub result: Option<JobResult>,
}

#[verifier::ext_equal]
pub struct VerdictV {
    pub cooldown: Option<Cooldown>,
    pub key_bad: bool,
    pub sleep_secs: u64,
    pub result: Option<ResultV>,
}

impl View for Verdict {
    type V = VerdictV;

    open spec fn view(&self) -> VerdictV {
        VerdictV {
            cooldown: self.cooldown,
            key_bad: self.key_bad,
            sleep_secs: self.sleep_secs,
            result: match self.result {
                Some(r) => Some(r@),
                None => None,
            },
        }
    }
}

/// How long a server asks to wait.
pub open spec fn wait_asked(retry_after: Option<Seq<char>>) -> u64 {
    match retry_after {
        Some(t) => match parsed_unsigned(t, u64::MAX as int) {
            Some(v) => v as u64,
            None => COOLDOWN_SECS,
        },
        None => COOLDOWN_SECS,
    }
}

/// A verdict that ends a job.
pub open spec fn ends(result: ResultV) -> VerdictV {
    VerdictV { cooldown: None, key_bad: false, sleep_secs: 0, result: Some(result) }
}

/// What to do about a fault that may pass: wait longer each time, and fail
/// after the last attempt.
pub open spec fn retried(id: u64, attempts: u32, error: Seq<char>) -> VerdictV {
    VerdictV {
        cooldown: None,
        key_bad: false,
        sleep_secs: (5 * attempts) as u64,
        result: if attempts >= WIRE_ATTEMPTS {
            Some(failed(id, error))
        } else {
            None
        },
    }
}

/// The verdict on a reply.
pub open spec fn verdict(id: u64, attempts: u32, reply: ReplyV) -> VerdictV {
    match reply {
        ReplyV::Body(b) => ends(
            ResultV { id, outcome: JobOutcome::Done, body: Some(b), error: None },
        ),
        ReplyV::Unread(e) => ends(failed(id, "body read: "@ + e)),
        ReplyV::Lost(e) => retried(id, attempts, "request error: "@ + e),
        ReplyV::Status { code, status, retry_after, limit_type } => if code == 404 {
            ends(ResultV { id, outcome: JobOutcome::NotFound, body: None, error: None })
        } else if code == 429 {
            VerdictV {
                cooldown: Some(
                    Cooldown {
                        on_method: limit_type == Some("method"@),
                        secs: wait_asked(retry_after),
                    },
                ),
                key_bad: false,
                sleep_secs: 0,
                result: None,
            }
        } else if code == 401 || code == 403 {
            VerdictV {
                cooldown: None,
                key_bad: true,
                sleep_secs: 0,
                result: Some(
                    ResultV {
                        id,
                        outcome: JobOutcome::KeyRejected,
                        body: None,
                        error: Some("riot returned "@ + status),
                    },
                ),
            }
        } else if 500 <= code <= 599 {
            retried(id, attempts, status + " after "@ + decimal(attempts as int) + " attempts"@)
        } else {
            ends(failed(id, "unexpected status "@ + status))
        },
    }
}

/// Whether a reply counts as an attempt: a rate limit does not.
pub open spec fn is_limited(reply: ReplyV) -> bool {
    reply matches ReplyV::Status { code, .. } && code == 429
}

/// Where a request of a job goes.
pub open spec fn url_of(host: Seq<char>, path: Seq<char>) -> Seq<char> {
    "https://"@ + host + ".api.riotgames.com"@ + path
}

/// The address of a request.
pub fn request_url(host: &str, path: &str) -> (res: String)
    ensures
        res@ == url_of(host@, path@),
{
    let mut out = "https://".to_string();
    out.append(host);
    out.append(".api.riotgames.com");
    out.append(path);
    out
}

fn asked_wait(retry_after: &Option<String>) -> (res: u64)
    ensures
        res == wait_asked(text_in(*retry_after)),
{
    match retry_after {
        Some(t) => match parse_unsigned(&chars_of(t.as_str()), u64::MAX) {
            Some(v) => v,
            None => COOLDOWN_SECS,
        },
        None => COOLDOWN_SECS,
    }
}

fn is_method(limit_type: &Option<String>) -> (res: bool)
    ensures
        res == (text_in(*limit_type) == Some("method"@)),
{
    match limit_type {
        Some(t) => same_text(t.as_str(), "method"),
        None => false,
    }
}

fn fail(id: u64, error: String) -> (res: JobResult)
    ensures
        res@ == failed(id, error@),
{
    JobResult { id, outcome: JobOutcome::Failed, body: None, error: Some(error) }
}

fn retry(id: u64, attempts: u32, error: String) -> (res: Verdict)
    requires
        attempts <= WIRE_ATTEMPTS,
    ensures
        res@ == retried(id, attempts, error@),
{
    Verdict {
        cooldown: None,
        key_bad: false,
        sleep_secs: 5 * attempts as u64,
        result: if attempts >= WIRE_ATTEMPTS {
            Some(fail(id, error))
        } else {
            None
        },
    }
}

fn end(result: JobResult) -> (res: Verdict)
    ensures
        res@ == ends(result@),
{
    Verdict { cooldown: None, key_bad: false, sleep_secs: 0, result: Some(result) }
}

fn with_prefix(prefix: &str, text: &str) -> (res: String)
    ensures
        res@ == prefix@ + text@,
{
    let mut out = prefix.to_string();
    out.append(text);
    out
}

/// A job under way at a node.
pub struct Execution {
    id: u64,
    attempts: u32,
    announced: bool,
}

/// A job under way: its id, the attempts that counted, and whether its first
/// request went out.
pub struct ExecutionV {
    pub id: u64,
    pub attempts: u32,
    pub announced: bool,
}

/// A job of which another attempt begins.
pub open spec fn after_begin(e: ExecutionV) -> ExecutionV {
    ExecutionV { id: e.id, attempts: (e.attempts + 1) as u32, announced: true }
}

/// A job of which an attempt was answered: a rate limit does not count as one.
pub open spec fn after_reply(e: ExecutionV, reply: ReplyV) -> ExecutionV {
    ExecutionV {
        attempts: if is_limited(reply) {
            (e.attempts - 1) as u32
        } else {
            e.attempts
        },
        ..e
    }
}

impl View for Execution {
    type V = ExecutionV;

    closed spec fn view(&self) -> ExecutionV {
        ExecutionV { id: self.id, attempts: self.attempts, announced: self.announced }
    }
}

impl Execution {
    pub fn new(id: u64) -> (res: Self)
        ensures
            res@ == (ExecutionV { id, attempts: 0, announced: false }),
    {
        Execution { id, attempts: 0, announced: false }
    }

    /// Begins an attempt; says whether it is the first to go out.
    pub fn begin(&mut self) -> (res: bool)
        requires
            old(self)@.attempts < WIRE_ATTEMPTS,
        ensures
            res == !old(self)@.announced,
            final(self)@ == after_begin(old(self)@),
    {
        let first = !self.announced;
        self.attempts = self.attempts + 1;
        self.announced = true;
        first
    }

    /// Judges the reply to an attempt. A rate limit does not count as one.
    pub fn answered(&mut self, reply: Reply) -> (res: Verdict)
        requires
            1 <= old(self)@.attempts <= WIRE_ATTEMPTS,
        ensures
            res@ == verdict(old(self)@.id, old(self)@.attempts, reply@),
            final(self)@ == after_reply(old(self)@, reply@),
            res@.result is None ==> final(self)@.attempts < WIRE_ATTEMPTS,
    {
        let id: u64 = self.id;
        let attempts: u32 = self.attempts;
        match reply {
            Reply::Body(body) => end(
                JobResult { id, outcome: JobOutcome::Done, body: Some(body), error: None },
            ),
            Reply::Unread(e) => end(fail(id, with_prefix("body read: ", e.as_str()))),
            Reply::Lost(e) => retry(id, attempts, with_prefix("request error: ", e.as_str())),
            Reply::Status { code, status, retry_after, limit_type } => {
                if code == 404 {
                    end(JobResult { id, outcome: JobOutcome::NotFound, body: None, error: None })
                } else if code == 429 {
                    self.attempts = attempts - 1;
                    Verdict {
                        cooldown: Some(
                            Cooldown {
                                on_method: is_method(&limit_type),
                                secs: asked_wait(&retry_after),
                            },
                        ),
                        key_bad: false,
                        sleep_secs: 0,
                        result: None,
                    }
                } else if code == 401 || code == 403 {
                    Verdict {
                        cooldown: None,
                        key_bad: true,
                        sleep_secs: 0,
                        result: Some(
                            JobResult {
                                id,
                                outcome: JobOutcome::KeyRejected,
                                body: None,
                                error: Some(with_prefix("riot returned ", status.as_str())),
                            },
                        ),
                    }
                } else if 500 <= code && code <= 599 {
                    let mut error = status;
                    error.append(" after ");
                    push_decimal(&mut error, attempts as u64);
                    error.append(" attempts");
                    retry(id, attempts, error)
                } else {
                    end(fail(id, with_prefix("unexpected status ", status.as_str())))
                }
            },
        }
    }
}

// ---- requests with a key that cannot be replaced ----

/// What to do after a reply to a request that the crawler makes itself.
#[derive(Clone, Debug, PartialEq, Eq)]
pub enum GetStep {
    /// The answer.
    Body(String),
    /// There is no such thing.
    NotFound,
    /// Try again, after the limiter let nothing through for so many seconds;
    /// this was no attempt.
    Cooldown(u64),
    /// Try again after so many seconds.
    Retry(u64),
    /// Give up after so many seconds.
    GiveUp(u64, String),
}

#[verifier::ext_equal]
pub enum GetStepV {
    Body(Seq<char>),
    NotFound,
    Cooldown(u64),
    Retry(u64),
    GiveUp(u64, Seq<char>),
}

impl View for GetStep {
    type V = GetStepV;

    open spec fn view(&self) -> GetStepV {
        match self {
            GetStep::Body(b) => GetStepV::Body(b@),
            GetStep::NotFound => GetStepV::NotFound,
            GetStep::Cooldown(s) => GetStepV::Cooldown(*s),
            GetStep::Retry(s) => GetStepV::Retry(*s),
            GetStep::GiveUp(s, e) => GetStepV::GiveUp(*s, e@),
        }
    }
}

/// What to do after the reply to the `attempts`-th attempt.
pub open spec fn get_step_of(attempts: u32, reply: ReplyV, url: Seq<char>) -> GetStepV {
    match reply {
        ReplyV::Body(b) => GetStepV::Body(b),
        ReplyV::Unread(e) => GetStepV::GiveUp(0, e),
        ReplyV::Lost(e) => if attempts >= WIRE_ATTEMPTS {
            GetStepV::GiveUp((5 * attempts) as u64, e)
        } else {
            GetStepV::Retry((5 * attempts) as u64)
        },
        ReplyV::Status { code, status, retry_after, limit_type } => if code == 404 {
            GetStepV::NotFound
        } else if code == 429 {
            GetStepV::Cooldown(wait_asked(retry_after))
        } else if code == 401 || code == 403 {
            if attempts >= KEY_ATTEMPTS {
                GetStepV::GiveUp(KEY_WAIT_SECS, "API key rejected ("@ + status + ")"@)
            } else {
                GetStepV::Retry(KEY_WAIT_SECS)
            }
        } else if 500 <= code <= 599 {
            if attempts >= WIRE_ATTEMPTS {
                GetStepV::GiveUp(
                    (5 * attempts) as u64,
                    "giving up after "@ + decimal(attempts as int) + " attempts: "@ + status + " "@
                        + url,
                )
            } else {
                GetStepV::Retry((5 * attempts) as u64)
            }
        } else {
            GetStepV::GiveUp(0, "unexpected status "@ + status + " for "@ + url)
        },
    }
}

/// Decides what follows the reply to the `attempts`-th attempt. Whoever is
/// told to try again makes no more than four attempts.
pub fn get_step(attempts: u32, reply: Reply, url: &str) -> (res: GetStep)
    requires
        1 <= attempts <= WIRE_ATTEMPTS,
    ensures
        res@ == get_step_of(attempts, reply@, url@),
        res is Retry ==> attempts < WIRE_ATTEMPTS,
{
    let pause: u64 = 5 * attempts as u64;
    match reply {
        Reply::Body(b) => GetStep::Body(b),
        Reply::Unread(e) => GetStep::GiveUp(0, e),
        Reply::Lost(e) => {
            if attempts >= WIRE_ATTEMPTS {
                GetStep::GiveUp(pause, e)
            } else {
                GetStep::Retry(pause)
            }
        },
        Reply::Status { code, status, retry_after, limit_type } => {
            if code == 404 {
                GetStep::NotFound
            } else if code == 429 {
                GetStep::Cooldown(asked_wait(&retry_after))
            } else if code == 401 || code == 403 {
                if attempts >= KEY_ATTEMPTS {
                    let mut error = with_prefix("API key rejected (", status.as_str());
                    error.append(")");
                    GetStep::GiveUp(KEY_WAIT_SECS, error)
                } else {
                    GetStep::Retry(KEY_WAIT_SECS)
                }
            } else if 500 <= code && code <= 599 {
                if attempts >= WIRE_ATTEMPTS {
                    let mut error = "giving up after ".to_string();
                    push_decimal(&mut error, attempts as u64);
                    error.append(" attempts: ");
                    error.append(status.as_str());
                    error.append(" ");
                    error.append(url);
                    GetStep::GiveUp(pause, error)
                } else {
                    GetStep::Retry(pause)
                }
            } else {
                let mut error = with_prefix("unexpected status ", status.as_str());
                error.append(" for ");
                error.append(url);
                GetStep::GiveUp(0, error)
            }
        },
    }
}

// ---- laws ----

/// A job that is not over may be tried again: there are attempts left.
pub proof fn law_retries_are_bounded(id: u64, attempts: u32, reply: ReplyV)
    requires
        1 <= attempts <= WIRE_ATTEMPTS,
        verdict(id, attempts, reply).result is None,
    ensures
        is_limited(reply) || attempts < WIRE_ATTEMPTS,
{
}

/// Only a refused key marks the key bad, and such a job ends at once.
pub proof fn law_refused_key_ends_job(id: u64, attempts: u32, reply: ReplyV)
    ensures
        verdict(id, attempts, reply).key_bad <==> (reply matches ReplyV::Status { code, .. } && (
        code == 401 || code == 403)),
        verdict(id, attempts, reply).key_bad ==> (verdict(id, attempts, reply).result matches Some(
            r,
        ) && r.outcome == JobOutcome::KeyRejected),
{
}

} // verus!

//! What the verdicts on replies mean for a job, reply by reply.

use crate::executor::{
    after_begin, after_reply, get_step_of, is_limited, url_of, verdict, Cooldown, ExecutionV,
    GetStepV, ReplyV,
};
use crate::proto::JobOutcome;
use crate::text::{decimal, is_digit, law_decimal_roundtrip};
use vstd::prelude::*;

verus! {

/// A server error, whichever of them, is tried again after five seconds for
/// each attempt made, and nothing is cooled down for it. The fourth attempt is
/// the last: the job then fails, with the status in its error.
pub proof fn law_server_errors_are_tried_again(
    id: u64,
    k: u32,
    code: u16,
    status: Seq<char>,
    retry_after: Option<Seq<char>>,
    limit_type: Option<Seq<char>>,
)
    requires
        500 <= code <= 599,
        1 <= k <= 4,
    ensures
        ({
            let v = verdict(id, k, ReplyV::Status { code, status, retry_after, limit_type });
            &&& v.cooldown is None
            &&& !v.key_bad
            &&& v.sleep_secs == 5 * k
            &&& k < 4 ==> v.result is None
            &&& k == 4 ==> (v.result matches Some(r) && r.id == id && r.outcome
                == JobOutcome::Failed && r.body is None && r.error == Some(
                status + " after "@ + decimal(k as int) + " attempts"@,
            ))
        }),
{
}

/// A reply that got lost is tried again in the same way.
pub proof fn law_lost_replies_are_tried_again(id: u64, k: u32, why: Seq<char>)
    requires
        1 <= k <= 4,
    ensures
        ({
            let v = verdict(id, k, ReplyV::Lost(why));
            &&& v.cooldown is None
            &&& !v.key_bad
            &&& v.sleep_secs == 5 * k
            &&& k < 4 ==> v.result is None
            &&& k == 4 ==> (v.result matches Some(r) && r.id == id && r.outcome
                == JobOutcome::Failed && r.body is None && r.error == Some(
                "request error: "@ + why,
            ))
        }),
{
}

/// What ends a job at once, and how: a body is handed on as it came, nothing
/// found is no error, and a status that nobody expects fails the job on the
/// first attempt as on the last.
pub proof fn law_other_replies_end_the_job(id: u64, k: u32, reply: ReplyV)
    requires
        1 <= k <= 4,
        !(reply is Lost),
        reply matches ReplyV::Status { code, .. } ==> code != 429 && !(500 <= code <= 599),
    ensures
        ({
            let v = verdict(id, k, reply);
            &&& v.cooldown is None
            &&& v.sleep_secs == 0
            &&& v.result is Some
            &&& v.result->0.id == id
            &&& match reply {
                ReplyV::Body(b) => {
                    &&& v.result->0.outcome == JobOutcome::Done
                    &&& v.result->0.body == Some(b)
                    &&& v.result->0.error is None
                },
                ReplyV::Unread(e) => {
                    &&& v.result->0.outcome == JobOutcome::Failed
                    &&& v.result->0.body is None
                    &&& v.result->0.error == Some("body read: "@ + e)
                },
                ReplyV::Status { code, status, .. } => {
                    &&& v.result->0.body is None
                    &&& (code == 404) == (v.result->0.outcome == JobOutcome::NotFound)
                    &&& (code == 401 || code == 403) == (v.result->0.outcome
                        == JobOutcome::KeyRejected)
                    &&& code != 404 && code != 401 && code != 403 ==> v.result->0.outcome
                        == JobOutcome::Failed
                    &&& v.result->0.error == (if code == 404 {
                        None
                    } else if code == 401 || code == 403 {
                        Some("riot returned "@ + status)
                    } else {
                        Some("unexpected status "@ + status)
                    })
                    &&& v.key_bad == (code == 401 || code == 403)
                },
                ReplyV::Lost(_) => true,
            }
        }),
{
}

/// A rate limit is no attempt and no result. The limiter that it names cools
/// down for as many seconds as the server asks for, or for ten if it does not
/// say, or not in digits.
pub proof fn law_rate_limits_cool_down(
    id: u64,
    k: u32,
    status: Seq<char>,
    retry_after: Option<Seq<char>>,
    limit_type: Option<Seq<char>>,
    n: u64,
)
    ensures
        ({
            let reply = ReplyV::Status { code: 429, status, retry_after, limit_type };
            let v = verdict(id, k, reply);
            &&& is_limited(reply)
            &&& v.result is None
            &&& !v.key_bad
            &&& v.sleep_secs == 0
            &&& v.cooldown is Some
            &&& v.cooldown->0.on_method <==> limit_type == Some("method"@)
            &&& retry_after is None ==> v.cooldown->0.secs == 10
            &&& retry_after == Some(decimal(n as int)) ==> v.cooldown->0.secs == n
            &&& (retry_after matches Some(t) && t.len() > 0 && !is_digit(t.last()))
                ==> v.cooldown->0.secs == 10
        }),
{
    law_decimal_roundtrip(n as int);
}

/// Only a rate limit is no attempt, and only a rate limit cools anything down.
pub proof fn law_only_rate_limits_cool_down(id: u64, k: u32, reply: ReplyV)
    requires
        1 <= k <= 4,
    ensures
        is_limited(reply) <==> (reply matches ReplyV::Status { code, .. } && code == 429),
        verdict(id, k, reply).cooldown is Some <==> (reply matches ReplyV::Status { code, .. }
            && code == 429),
{
}

/// A request with a key of the crawler's own: server errors and lost replies
/// are tried again after five seconds for each attempt, four times in all.
pub proof fn law_own_requests_are_tried_again(k: u32, reply: ReplyV, url: Seq<char>)
    requires
        1 <= k <= 4,
        reply is Lost || (reply matches ReplyV::Status { code, .. } && 500 <= code <= 599),
    ensures
        k < 4 ==> get_step_of(k, reply, url) == GetStepV::Retry((5 * k) as u64),
        k == 4 ==> (get_step_of(k, reply, url) matches GetStepV::GiveUp(secs, why) && secs == 20
            && why == (match reply {
            ReplyV::Status { status, .. } => "giving up after "@ + decimal(4) + " attempts: "@
                + status + " "@ + url,
            ReplyV::Lost(e) => e,
            _ => Seq::empty(),
        })),
{
}

/// Such a request with a refused key is tried three times, a minute apart. A
/// rate limit cools down as for any job, nothing found is an answer, and what
/// nobody expects is given up at once.
pub proof fn law_own_requests_end(
    k: u32,
    code: u16,
    status: Seq<char>,
    retry_after: Option<Seq<char>>,
    limit_type: Option<Seq<char>>,
    url: Seq<char>,
    n: u64,
)
    requires
        1 <= k <= 4,
        !(500 <= code <= 599),
    ensures
        ({
            let step = get_step_of(
                k,
                ReplyV::Status { code, status, retry_after, limit_type },
                url,
            );
            &&& code == 404 <==> step == GetStepV::NotFound
            &&& code == 429 <==> step is Cooldown
            &&& code == 429 && retry_after is None ==> step == GetStepV::Cooldown(10)
            &&& code == 429 && retry_after == Some(decimal(n as int)) ==> step
                == GetStepV::Cooldown(n)
            &&& (code == 401 || code == 403) && k < 3 ==> step == GetStepV::Retry(60)
            &&& (code == 401 || code == 403) && k >= 3 ==> step == GetStepV::GiveUp(
                60,
                "API key rejected ("@ + status + ")"@,
            )
            &&& code != 404 && code != 429 && code != 401 && code != 403 ==> step
                == GetStepV::GiveUp(0, "unexpected status "@ + status + " for "@ + url)
        }),
{
    law_decimal_roundtrip(n as int);
}

/// A body is the answer, and one that could not be read is none.
pub proof fn law_own_requests_succeed(k: u32, text: Seq<char>, url: Seq<char>)
    ensures
        get_step_of(k, ReplyV::Body(text), url) == GetStepV::Body(text),
        get_step_of(k, ReplyV::Unread(text), url) == GetStepV::GiveUp(0, text),
{
}

/// An attempt counts when it begins, and is announced once; one that met a rate
/// limit is taken back, and no other is.
pub proof fn law_attempts_are_counted(e: ExecutionV, reply: ReplyV)
    requires
        1 <= e.attempts < u32::MAX,
    ensures
        after_begin(e).attempts == e.attempts + 1,
        after_begin(e).announced,
        after_begin(e).id == e.id,
        is_limited(reply) ==> after_reply(e, reply).attempts == e.attempts - 1,
        !is_limited(reply) ==> after_reply(e, reply).attempts == e.attempts,
        after_reply(e, reply).id == e.id,
        after_reply(e, reply).announced == e.announced,
{
}

/// A request goes to the host of the game's servers that it names.
pub proof fn law_requests_go_to_their_host(host: Seq<char>, path: Seq<char>)
    ensures
        url_of(host, path) == "https://"@ + host + ".api.riotgames.com"@ + path,
{
}

} // verus!

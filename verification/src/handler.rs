//! How a call of the sending interface goes: it is admitted or refused, its token is verified,
//! its payload is turned into a message, and what became of the message is answered.
//!
//! Verifying a token and handing a message on are done outside. The functions here say what
//! comes next, from the call and from what came back. Each step is a method of what the step
//! before it gave, so that there is no message before a payload, no payload before a verified
//! token and no verified token before an admitted call.
use vstd::prelude::*;

use crate::api::{
    bearer_of, bearer_token, build_raw, from_address, law_valid_request_is_written, payload_problem,
    send_draft, sender_address, validate_payload, RequestText, SendRequest, SendResponse,
};
use crate::forward::{maybe_str, or_empty};
use crate::mail::{is_written, may_write};
use crate::text::{
    blank, chars_of, copy_all, copy_of, ends_with, is_blank, maybe_text, same_text,
    starts_with_text, texts,
};

verus! {

broadcast use vstd::seq_lib::group_seq_properties;

/// What a call is answered.
#[derive(Debug)]
pub enum Reply {
    /// The message was handed on.
    Sent(SendResponse),
    /// The call failed: the status and the reason.
    Failed(u16, String),
}

/// What a [`Reply`] holds.
pub enum ReplyText {
    Sent { id: Seq<char>, status: Seq<char> },
    Failed(u16, Seq<char>),
}

impl View for Reply {
    type V = ReplyText;

    open spec fn view(&self) -> ReplyText {
        match *self {
            Reply::Sent(s) => ReplyText::Sent { id: s.id@, status: s.status@ },
            Reply::Failed(status, why) => ReplyText::Failed(status, why@),
        }
    }
}

impl Reply {
    /// The status of the answer.
    pub fn status(&self) -> (r: u16)
        ensures
            r == (match self@ {
                ReplyText::Sent { .. } => 200u16,
                ReplyText::Failed(status, _) => status,
            }),
    {
        match self {
            Reply::Sent(_) => 200,
            Reply::Failed(status, _) => *status,
        }
    }
}

fn failed(status: u16, why: &str) -> (r: Reply)
    ensures
        r@ == ReplyText::Failed(status, why@),
{
    Reply::Failed(status, copy_of(why))
}

/// The token of a call that is admitted, or what a call that is not is answered.
pub open spec fn admission(method: Seq<char>, path: Seq<char>, auth: Option<Seq<char>>) -> Result<
    Seq<char>,
    ReplyText,
> {
    if method != "POST"@ || !"/v1/emails"@.is_suffix_of(path) {
        Err(ReplyText::Failed(404, "not found"@))
    } else {
        match (match auth {
            Some(h) => bearer_of(h),
            None => None,
        }) {
            None => Err(ReplyText::Failed(401, "missing bearer token"@)),
            Some(token) => if "4w_live_"@.is_prefix_of(token) {
                Ok(token)
            } else {
                Err(ReplyText::Failed(401, "invalid token"@))
            },
        }
    }
}

/// A call that is admitted, with a token that is to be verified.
#[derive(Debug)]
pub struct Admitted {
    token: String,
}

impl View for Admitted {
    type V = Seq<char>;

    closed spec fn view(&self) -> Seq<char> {
        self.token@
    }
}

/// A call whose token was verified.
#[derive(Debug)]
pub struct Verified {
    token: String,
}

impl View for Verified {
    type V = Seq<char>;

    closed spec fn view(&self) -> Seq<char> {
        self.token@
    }
}

/// Admits a call, whose token is then to be verified, or says what it is answered.
pub fn on_call(method: &str, path: &str, auth: Option<&str>) -> (r: Result<Admitted, Reply>)
    ensures
        (match r {
            Ok(call) => Ok::<Seq<char>, ReplyText>(call@),
            Err(reply) => Err(reply@),
        }) == admission(method@, path@, maybe_str(auth)),
{
    let place = chars_of(path);
    let suffix = chars_of("/v1/emails");
    if !same_text(method, "POST") || !ends_with(place.as_slice(), suffix.as_slice()) {
        return Err(failed(404, "not found"));
    }
    let token = match bearer_token(auth) {
        Some(t) => t,
        None => return Err(failed(401, "missing bearer token")),
    };
    if !starts_with_text(token.as_str(), "4w_live_") {
        return Err(failed(401, "invalid token"));
    }
    Ok(Admitted { token })
}

/// What a call is answered when its token turned out to be known or not, or could not be
/// verified; none where the call goes on.
pub open spec fn verification(outcome: Result<bool, String>) -> Option<ReplyText> {
    match outcome {
        Ok(known) => if known {
            None
        } else {
            Some(ReplyText::Failed(401, "invalid token"@))
        },
        Err(_) => Some(ReplyText::Failed(500, "auth backend error"@)),
    }
}

impl Admitted {
    /// The token that is to be verified.
    pub fn token(&self) -> (r: &str)
        ensures
            r@ == self@,
    {
        self.token.as_str()
    }

    /// Goes on with a call whose token turned out to be known, or says what the call is answered.
    pub fn on_verified(self, outcome: Result<bool, String>) -> (r: Result<Verified, Reply>)
        ensures
            match r {
                Ok(call) => verification(outcome) is None && call@ == self@,
                Err(reply) => verification(outcome) == Some(reply@),
            },
    {
        match outcome {
            Ok(known) => if known {
                Ok(Verified { token: self.token })
            } else {
                Err(failed(401, "invalid token"))
            },
            Err(_) => Err(failed(500, "auth backend error")),
        }
    }
}

/// A message with its sender and recipients, to be handed on.
#[derive(Debug)]
pub struct Outgoing {
    /// The sender's address.
    pub from: String,
    /// The recipients' addresses: of the message, of copies and of blind copies.
    pub recipients: Vec<String>,
    /// The message.
    pub raw: Vec<u8>,
}

/// Whether `out` is what is handed on for a request.
pub open spec fn sends(req: RequestText, out: Outgoing) -> bool {
    &&& out.from@ == sender_address(req.from)
    &&& texts(out.recipients@) == req.to + req.cc + req.bcc
    &&& may_write(send_draft(req), out.raw@)
    &&& is_written(send_draft(req), out.raw@)
}

fn all_recipients(req: &SendRequest) -> (r: Vec<String>)
    ensures
        texts(r@) == req@.to + req@.cc + req@.bcc,
{
    let mut out = copy_all(&req.to);
    let mut cc = copy_all(&req.cc);
    let mut bcc = copy_all(&req.bcc);
    let ghost first = out@;
    let ghost second = cc@;
    let ghost third = bcc@;
    out.append(&mut cc);
    out.append(&mut bcc);
    assert(out@ == first + second + third);
    assert(texts(out@) =~= texts(first) + texts(second) + texts(third));
    out
}

/// The request that is sent for a payload, or what the call is answered. `decoded` is the request
/// that the payload was decoded to, or what the decoder found wrong with it.
pub open spec fn accepted(
    decoded: Result<SendRequest, String>,
    allowed: Seq<Seq<char>>,
) -> Result<RequestText, ReplyText> {
    match decoded {
        Err(e) => Err(ReplyText::Failed(400, "invalid payload: "@ + e@)),
        Ok(req) => match payload_problem(req@, allowed) {
            Some(e) => Err(ReplyText::Failed(400, e)),
            None => Ok(req@),
        },
    }
}

impl Verified {
    /// The token that was verified.
    pub fn token(&self) -> (r: &str)
        ensures
            r@ == self@,
    {
        self.token.as_str()
    }

    /// Turns the payload of a call into what is handed on, or says what the call is answered.
    /// `decoded` is the request that the payload was decoded to, or what the decoder found wrong
    /// with it.
    pub fn on_payload(self, decoded: Result<SendRequest, String>, allowed: &Vec<String>) -> (r:
        Result<Outgoing, Reply>)
        ensures
            match r {
                Ok(out) => accepted(decoded, texts(allowed@)) matches Ok(req) && sends(req, out),
                Err(reply) => accepted(decoded, texts(allowed@)) == Err::<RequestText, ReplyText>(
                    reply@,
                ),
            },
    {
        let req = match decoded {
            Ok(req) => req,
            Err(e) => {
                let mut why = copy_of("invalid payload: ");
                why.append(e.as_str());
                return Err(Reply::Failed(400, why));
            },
        };
        match validate_payload(&req, allowed) {
            Ok(()) => {},
            Err(e) => return Err(Reply::Failed(400, e)),
        }
        proof {
            law_valid_request_is_written(req@, texts(allowed@));
        }
        match build_raw(&req) {
            Ok(raw) => Ok(
                Outgoing {
                    from: from_address(req.from.as_str()),
                    recipients: all_recipients(&req),
                    raw,
                },
            ),
            Err(e) => Err(Reply::Failed(400, e)),
        }
    }
}

/// The configuration set that messages are sent under; none where the setting is blank.
pub fn configuration_set(setting: Option<&str>) -> (r: Option<String>)
    ensures
        maybe_text(r) == (match setting {
            Some(s) => if is_blank(s@) {
                None
            } else {
                Some(s@)
            },
            None => None,
        }),
{
    match setting {
        Some(s) => if blank(s) {
            None
        } else {
            Some(copy_of(s))
        },
        None => None,
    }
}

/// What a call is answered when its message was handed on, under an identifier if it got one, or
/// was not.
pub open spec fn delivery(outcome: Result<Option<String>, String>) -> ReplyText {
    match outcome {
        Ok(id) => ReplyText::Sent { id: or_empty(maybe_text(id)), status: "sent"@ },
        Err(_) => ReplyText::Failed(502, "ses send failed"@),
    }
}

/// What a call is answered when its message was handed on, under an identifier if it got one, or
/// was not.
pub fn on_delivery(outcome: Result<Option<String>, String>) -> (r: Reply)
    ensures
        r@ == delivery(outcome),
{
    match outcome {
        Ok(id) => Reply::Sent(
            SendResponse {
                id: match id {
                    Some(i) => i,
                    None => String::new(),
                },
                status: copy_of("sent"),
            },
        ),
        Err(_) => failed(502, "ses send failed"),
    }
}

/// How a call goes, from all that it meets on its way: the request that is sent for it, or what it
/// is answered without one.
pub open spec fn course(
    method: Seq<char>,
    path: Seq<char>,
    auth: Option<Seq<char>>,
    verified: Result<bool, String>,
    decoded: Result<SendRequest, String>,
    allowed: Seq<Seq<char>>,
) -> Result<RequestText, ReplyText> {
    match admission(method, path, auth) {
        Err(reply) => Err(reply),
        Ok(_) => match verification(verified) {
            Some(reply) => Err(reply),
            None => accepted(decoded, allowed),
        },
    }
}

/// What a call is answered in the end: what was found wrong with it, or what became of its message.
pub open spec fn answer(
    sent: Result<RequestText, ReplyText>,
    outcome: Result<Option<String>, String>,
) -> ReplyText {
    match sent {
        Err(reply) => reply,
        Ok(_) => delivery(outcome),
    }
}

/// Nothing is sent for a call unless it was admitted, its token was verified, and its payload is a
/// request with nothing wrong with it; then that request is sent.
pub proof fn law_only_verified_calls_send(
    method: Seq<char>,
    path: Seq<char>,
    auth: Option<Seq<char>>,
    verified: Result<bool, String>,
    decoded: Result<SendRequest, String>,
    allowed: Seq<Seq<char>>,
    req: RequestText,
)
    ensures
        course(method, path, auth, verified, decoded, allowed) == Ok::<RequestText, ReplyText>(req)
            <==> {
            &&& admission(method, path, auth) is Ok
            &&& verified == Ok::<bool, String>(true)
            &&& decoded matches Ok(r) && r@ == req
            &&& payload_problem(req, allowed) is None
        },
{
}

/// The steps of a call come in order: what an earlier step finds wrong is answered whatever the
/// later ones would find. A call that is not admitted is answered the same whatever its token and
/// payload, and one whose token is not verified whatever its payload.
pub proof fn law_earlier_steps_decide(
    method: Seq<char>,
    path: Seq<char>,
    auth: Option<Seq<char>>,
    verified: Result<bool, String>,
    decoded: Result<SendRequest, String>,
    allowed: Seq<Seq<char>>,
    outcome: Result<Option<String>, String>,
)
    ensures
        ({
            let a = answer(course(method, path, auth, verified, decoded, allowed), outcome);
            &&& admission(method, path, auth) matches Err(reply) ==> a == reply
            &&& admission(method, path, auth) is Ok ==> {
                &&& verification(verified) matches Some(reply) ==> a == reply
                &&& verification(verified) is None ==> {
                    &&& accepted(decoded, allowed) matches Err(reply) ==> a == reply
                    &&& accepted(decoded, allowed) is Ok ==> a == delivery(outcome)
                }
            }
        }),
{
}

/// Nothing is sent without a token of the right kind: a call that is not a POST to the place
/// for messages, has no bearer token, or has one without the prefix is refused.
pub proof fn law_refused_without_token(method: Seq<char>, path: Seq<char>, auth: Option<Seq<char>>)
    ensures
        admission(method, path, auth) matches Ok(token) ==> {
            &&& method == "POST"@
            &&& auth is Some
            &&& bearer_of(auth->0) == Some(token)
            &&& "4w_live_"@.is_prefix_of(token)
        },
        auth is None ==> admission(method, path, auth) is Err,
{
}

} // verus!

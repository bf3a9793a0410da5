//! Correction response: the corrected command and an optional
//! justification, recovered from the model's free-text reply, and the
//! unwrapping of the completion service's envelope around that reply.

use vstd::prelude::*;
use vstd::string::*;

use crate::codec::decode;
use crate::codec::decode_spec;
use crate::codec::lemma_decode_absent;
use crate::codec::match_at;
use crate::codec::open_tag;

verus! {

/// The name of the tagged span that carries the corrected command.
pub open spec fn tag_fixed_command() -> Seq<char> {
    seq!['f', 'i', 'x', 'e', 'd', '_', 'c', 'o', 'm', 'm', 'a', 'n', 'd']
}

/// The name of the tagged span that carries the justification.
pub open spec fn tag_justification() -> Seq<char> {
    seq!['j', 'u', 's', 't', 'i', 'f', 'i', 'c', 'a', 't', 'i', 'o', 'n']
}

/// The literal tag names used by the executable code match their
/// specification-level spellings.
pub proof fn lemma_response_tag_lits()
    ensures
        "fixed_command"@ == tag_fixed_command(),
        "justification"@ == tag_justification(),
{
    reveal_strlit("fixed_command");
    reveal_strlit("justification");
    assert("fixed_command"@ =~= tag_fixed_command());
    assert("justification"@ =~= tag_justification());
}

/// Why a reply could not be turned into a response.
#[derive(Debug)]
pub enum ResponseError {
    /// The reply held no corrected command; carries the raw text for
    /// diagnostics.
    Parse(String),
    /// The transport delivered the service's own error payload; carries
    /// that payload verbatim so the caller can surface it.
    Api(String),
}

/// A corrected command and an optional justification.
#[derive(Debug)]
pub struct Response {
    /// The corrected command; never empty.
    pub command: String,
    /// The model's justification, when it gave one.
    pub justification: Option<String>,
}

/// The text of the optional justification field.
pub open spec fn opt_just_text(o: Option<String>) -> Option<Seq<char>> {
    match o {
        Option::Some(s) => Option::Some(s@),
        Option::None => Option::None,
    }
}

impl Response {
    /// Parses the model's free-text reply. The corrected command must be
    /// present as a tagged span — its absence is a `Parse` failure carrying
    /// the raw text — while the justification span may be absent, and any
    /// prose outside the recognised tags is discarded.
    pub fn from_string(response_text: String) -> (r: Result<Response, ResponseError>)
        ensures
            match decode_spec(response_text@, tag_fixed_command()) {
                Option::Some(c) => {
                    &&& r matches Result::Ok(resp)
                    &&& resp.command@ == c
                    &&& resp.command@.len() > 0
                    &&& opt_just_text(resp.justification) == decode_spec(
                        response_text@,
                        tag_justification(),
                    )
                },
                Option::None => r matches Result::Err(e) && e matches ResponseError::Parse(raw)
                    && raw@ == response_text@,
            },
    {
        proof {
            lemma_response_tag_lits();
        }
        let command = match decode(response_text.as_str(), "fixed_command") {
            Option::Some(c) => c,
            Option::None => {
                return Result::Err(ResponseError::Parse(response_text));
            },
        };
        let justification = decode(response_text.as_str(), "justification");
        Result::Ok(Response { command, justification })
    }

    /// Wraps the transport's error payload as an `Api` failure, kept apart
    /// from `Parse` so the caller can surface the service's own words.
    pub fn from_api_error(raw: &str) -> (e: ResponseError)
        ensures
            e matches ResponseError::Api(m) && m@ == raw@,
    {
        ResponseError::Api(raw.to_owned())
    }
}

/// The text of the first content block of a completion-service reply
/// envelope, when the envelope is well-formed JSON and holds one; a
/// function of the envelope text alone.
pub uninterp spec fn content_text_of(raw: Seq<char>) -> Option<Seq<char>>;

/// Relies on serde_json::from_str and serde_json::Value's get/as_str:
/// parses the reply envelope and picks out the text of the first content
/// block, a result that depends on the input text alone.
#[verifier::external_body]
fn first_content_text(raw: &str) -> (r: Option<String>)
    ensures
        content_text_of(raw@) == (match r {
            Option::Some(s) => Option::Some(s@),
            Option::None => Option::<Seq<char>>::None,
        }),
{
    let v: serde_json::Value = match serde_json::from_str(raw) {
        Ok(v) => v,
        Err(_) => return None,
    };
    let text = v.get("content")?.get(0)?.get("text")?.as_str()?;
    Some(text.to_string())
}

impl Response {
    /// Turns the completion service's raw success envelope into a
    /// response: the first content block's text is the reply handed to
    /// `from_string`, and an envelope without such a block is a `Parse`
    /// failure carrying the envelope itself.
    pub fn from_completion_json(raw: &str) -> (r: Result<Response, ResponseError>)
        ensures
            match content_text_of(raw@) {
                Option::Some(t) => match decode_spec(t, tag_fixed_command()) {
                    Option::Some(c) => {
                        &&& r matches Result::Ok(resp)
                        &&& resp.command@ == c
                        &&& resp.command@.len() > 0
                        &&& opt_just_text(resp.justification) == decode_spec(
                            t,
                            tag_justification(),
                        )
                    },
                    Option::None => r matches Result::Err(ResponseError::Parse(m)) && m@ == t,
                },
                Option::None => r matches Result::Err(ResponseError::Parse(m)) && m@ == raw@,
            },
    {
        match first_content_text(raw) {
            Option::Some(t) => Response::from_string(t),
            Option::None => Result::Err(ResponseError::Parse(raw.to_owned())),
        }
    }
}

/// A reply with no opening delimiter for the corrected command anywhere in
/// it never yields a response: parsing fails rather than defaulting.
pub proof fn lemma_reply_without_command_tag_fails(text: Seq<char>)
    requires
        forall|j: int| !match_at(text, open_tag(tag_fixed_command()), j),
    ensures
        decode_spec(text, tag_fixed_command()) is None,
{
    lemma_decode_absent(text, tag_fixed_command());
}

} // verus!

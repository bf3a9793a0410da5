//! Correction request: the failing (or guiding) command, what it printed,
//! free-text intent, and whether a justification is asked for, rendered
//! through the tag codec into the wire payload in a fixed field order.

use vstd::prelude::*;
use vstd::string::*;

use crate::codec::close_tag;
use crate::codec::decode_spec;
use crate::codec::encode_field;
use crate::codec::lemma_decode_absent;
use crate::codec::lemma_decode_embedded;
use crate::codec::lemma_open_tag_lt_positions;
use crate::codec::lemma_span_lt_positions;
use crate::codec::lt_free;
use crate::codec::make_open_tag;
use crate::codec::match_at;
use crate::codec::open_tag;
use crate::codec::plain_value;
use crate::codec::tagged_span;

verus! {

/// The name of the tagged span that carries the command.
pub open spec fn tag_command() -> Seq<char> {
    seq!['c', 'o', 'm', 'm', 'a', 'n', 'd']
}

/// The name of the tagged span that carries the captured output.
pub open spec fn tag_output() -> Seq<char> {
    seq!['o', 'u', 't', 'p', 'u', 't']
}

/// The name of the tagged span that carries the caller's intent.
pub open spec fn tag_context() -> Seq<char> {
    seq!['c', 'o', 'n', 't', 'e', 'x', 't']
}

/// The name of the marker tag that asks the model for a justification.
pub open spec fn tag_justification_requested() -> Seq<char> {
    seq![
        'j',
        'u',
        's',
        't',
        'i',
        'f',
        'i',
        'c',
        'a',
        't',
        'i',
        'o',
        'n',
        '_',
        'r',
        'e',
        'q',
        'u',
        'e',
        's',
        't',
        'e',
        'd',
    ]
}

/// The literal tag names used by the executable code match their
/// specification-level spellings.
pub proof fn lemma_request_tag_lits()
    ensures
        "command"@ == tag_command(),
        "output"@ == tag_output(),
        "context"@ == tag_context(),
        "justification_requested"@ == tag_justification_requested(),
        " "@ == seq![' '],
{
    reveal_strlit("command");
    reveal_strlit("output");
    reveal_strlit("context");
    reveal_strlit("justification_requested");
    reveal_strlit(" ");
    assert("command"@ =~= tag_command());
    assert("output"@ =~= tag_output());
    assert("context"@ =~= tag_context());
    assert("justification_requested"@ =~= tag_justification_requested());
    assert(" "@ =~= seq![' ']);
}

/// The text of an optional owned field.
pub open spec fn opt_text(o: Option<String>) -> Option<Seq<char>> {
    match o {
        Option::Some(s) => Option::Some(s@),
        Option::None => Option::None,
    }
}

/// The text of an optional borrowed field.
pub open spec fn opt_text_ref(o: Option<&str>) -> Option<Seq<char>> {
    match o {
        Option::Some(s) => Option::Some(s@),
        Option::None => Option::None,
    }
}

/// The wire payload: present fields as tagged spans, space-joined, in the
/// fixed order command, output, context, justification-request marker.
pub open spec fn payload_spec(
    cmd: Seq<char>,
    output: Option<Seq<char>>,
    context: Option<Seq<char>>,
    jr: bool,
) -> Seq<char> {
    tagged_span(tag_command(), cmd) + (match output {
        Option::Some(o) => seq![' '] + tagged_span(tag_output(), o),
        Option::None => Seq::<char>::empty(),
    }) + (match context {
        Option::Some(c) => seq![' '] + tagged_span(tag_context(), c),
        Option::None => Seq::<char>::empty(),
    }) + (if jr {
        seq![' '] + open_tag(tag_justification_requested())
    } else {
        Seq::<char>::empty()
    })
}

/// The payload up to where the output span would start.
spec fn prefix1(cmd: Seq<char>) -> Seq<char> {
    tagged_span(tag_command(), cmd) + seq![' ']
}

/// The payload up to where the context span starts when the output span is
/// present.
spec fn prefix2(cmd: Seq<char>, out: Seq<char>) -> Seq<char> {
    prefix1(cmd) + tagged_span(tag_output(), out) + seq![' ']
}

/// In the payload's head — the command span and a space — the
/// delimiter-opening character occurs only where the command span's two
/// delimiters start.
proof fn lemma_prefix1_lt(cmd: Seq<char>)
    requires
        forall|k: int| 0 <= k < cmd.len() ==> cmd[k] != '<',
    ensures
        prefix1(cmd).len() == cmd.len() + 20,
        forall|j: int|
            0 <= j < prefix1(cmd).len() && prefix1(cmd)[j] == '<' ==> (j == 0 || j == cmd.len()
                + 9),
{
    lemma_span_lt_positions(tag_command(), cmd);
    let s = tagged_span(tag_command(), cmd);
    let a = prefix1(cmd);
    assert forall|j: int| 0 <= j < a.len() && a[j] == '<' implies (j == 0 || j == cmd.len()
        + 9) by {
        if j < s.len() {
            assert(a[j] == s[j]);
        } else {
            assert(a[j] == ' ');
        }
    }
}

/// Same, for the head that also holds the output span and its trailing
/// space.
proof fn lemma_prefix2_lt(cmd: Seq<char>, out: Seq<char>)
    requires
        forall|k: int| 0 <= k < cmd.len() ==> cmd[k] != '<',
        forall|k: int| 0 <= k < out.len() ==> out[k] != '<',
    ensures
        prefix2(cmd, out).len() == cmd.len() + out.len() + 38,
        forall|j: int|
            0 <= j < prefix2(cmd, out).len() && prefix2(cmd, out)[j] == '<' ==> (j == 0 || j
                == cmd.len() + 9 || j == cmd.len() + 20 || j == cmd.len() + out.len() + 28),
{
    lemma_prefix1_lt(cmd);
    lemma_span_lt_positions(tag_output(), out);
    let a1 = prefix1(cmd);
    let s2 = tagged_span(tag_output(), out);
    let a = prefix2(cmd, out);
    assert forall|j: int| 0 <= j < a.len() && a[j] == '<' implies (j == 0 || j == cmd.len() + 9
        || j == cmd.len() + 20 || j == cmd.len() + out.len() + 28) by {
        if j < a1.len() {
            assert(a[j] == a1[j]);
        } else if j < a1.len() + s2.len() {
            assert(a[j] == s2[j - a1.len()]);
        } else {
            assert(a[j] == ' ');
        }
    }
}

/// Every present field of the payload decodes back to exactly the value it
/// was encoded from, for values that embed cleanly.
pub proof fn lemma_payload_round_trip(
    cmd: Seq<char>,
    output: Option<Seq<char>>,
    context: Option<Seq<char>>,
    jr: bool,
)
    requires
        plain_value(cmd),
        output matches Option::Some(o) ==> plain_value(o),
        context matches Option::Some(c) ==> plain_value(c),
    ensures
        decode_spec(payload_spec(cmd, output, context, jr), tag_command()) == Option::Some(cmd),
        output matches Option::Some(o) ==> decode_spec(
            payload_spec(cmd, output, context, jr),
            tag_output(),
        ) == Option::Some(o),
        context matches Option::Some(c) ==> decode_spec(
            payload_spec(cmd, output, context, jr),
            tag_context(),
        ) == Option::Some(c),
{
    let t = payload_spec(cmd, output, context, jr);
    let seg_out = match output {
        Option::Some(o) => seq![' '] + tagged_span(tag_output(), o),
        Option::None => Seq::<char>::empty(),
    };
    let seg_ctx = match context {
        Option::Some(c) => seq![' '] + tagged_span(tag_context(), c),
        Option::None => Seq::<char>::empty(),
    };
    let seg_jr = if jr {
        seq![' '] + open_tag(tag_justification_requested())
    } else {
        Seq::<char>::empty()
    };
    let b_cmd = seg_out + seg_ctx + seg_jr;
    assert(t =~= Seq::<char>::empty() + tagged_span(tag_command(), cmd) + b_cmd);
    lemma_decode_embedded(Seq::<char>::empty(), tag_command(), cmd, b_cmd);
    match output {
        Option::Some(o) => {
            let a = prefix1(cmd);
            let b = seg_ctx + seg_jr;
            let tt = a + tagged_span(tag_output(), o) + b;
            assert(t =~= tt);
            lemma_prefix1_lt(cmd);
            let ot = open_tag(tag_output());
            assert forall|j: int| 0 <= j < a.len() implies !match_at(tt, ot, j) by {
                if match_at(tt, ot, j) {
                    assert(tt.subrange(j, j + ot.len() as int)[0] == tt[j]);
                    assert(ot[0] == '<');
                    assert(tt[j] == a[j]);
                    assert(tt.subrange(j, j + ot.len() as int)[1] == tt[j + 1]);
                    assert(ot[1] == 'o');
                    if j == 0 {
                        assert(a[1] == tagged_span(tag_command(), cmd)[1]);
                        assert(tagged_span(tag_command(), cmd)[1] == open_tag(tag_command())[1]);
                        assert(open_tag(tag_command())[1] == 'c');
                        assert(tt[1] == a[1]);
                    } else {
                        assert(j == cmd.len() + 9);
                        assert(a[j + 1] == tagged_span(tag_command(), cmd)[j + 1]);
                        assert(tagged_span(tag_command(), cmd)[j + 1] == close_tag(tag_command())[1]);
                        assert(close_tag(tag_command())[1] == '/');
                        assert(tt[j + 1] == a[j + 1]);
                    }
                }
            }
            lemma_decode_embedded(a, tag_output(), o, b);
        },
        Option::None => {},
    }
    match context {
        Option::Some(c) => {
            let octx = open_tag(tag_context());
            let b = seg_jr;
            match output {
                Option::Some(o) => {
                    let a = prefix2(cmd, o);
                    let tt = a + tagged_span(tag_context(), c) + b;
                    assert(t =~= tt);
                    lemma_prefix2_lt(cmd, o);
                    assert forall|j: int| 0 <= j < a.len() implies !match_at(tt, octx, j) by {
                        if match_at(tt, octx, j) {
                            assert(tt.subrange(j, j + octx.len() as int)[0] == tt[j]);
                            assert(octx[0] == '<');
                            assert(tt[j] == a[j]);
                            assert(tt.subrange(j, j + octx.len() as int)[1] == tt[j + 1]);
                            assert(tt.subrange(j, j + octx.len() as int)[3] == tt[j + 3]);
                            assert(octx[1] == 'c');
                            assert(octx[3] == 'n');
                            if j == 0 {
                                assert(a[3] == prefix1(cmd)[3]);
                                assert(prefix1(cmd)[3] == tagged_span(tag_command(), cmd)[3]);
                                assert(tagged_span(tag_command(), cmd)[3] == open_tag(
                                    tag_command(),
                                )[3]);
                                assert(open_tag(tag_command())[3] == 'm');
                                assert(tt[3] == a[3]);
                            } else if j == cmd.len() + 9 {
                                assert(a[j + 1] == prefix1(cmd)[j + 1]);
                                assert(prefix1(cmd)[j + 1] == tagged_span(tag_command(), cmd)[j
                                    + 1]);
                                assert(tagged_span(tag_command(), cmd)[j + 1] == close_tag(
                                    tag_command(),
                                )[1]);
                                assert(close_tag(tag_command())[1] == '/');
                                assert(tt[j + 1] == a[j + 1]);
                            } else if j == cmd.len() + 20 {
                                assert(a[j + 1] == tagged_span(tag_output(), o)[1]);
                                assert(tagged_span(tag_output(), o)[1] == open_tag(tag_output())[1]);
                                assert(open_tag(tag_output())[1] == 'o');
                                assert(tt[j + 1] == a[j + 1]);
                            } else {
                                assert(j == cmd.len() + o.len() + 28);
                                assert(a[j + 1] == tagged_span(tag_output(), o)[o.len() as int + 9]);
                                assert(tagged_span(tag_output(), o)[o.len() as int + 9] == close_tag(
                                    tag_output(),
                                )[1]);
                                assert(close_tag(tag_output())[1] == '/');
                                assert(tt[j + 1] == a[j + 1]);
                            }
                        }
                    }
                    lemma_decode_embedded(a, tag_context(), c, b);
                },
                Option::None => {
                    let a = prefix1(cmd);
                    let tt = a + tagged_span(tag_context(), c) + b;
                    assert(t =~= tt);
                    lemma_prefix1_lt(cmd);
                    assert forall|j: int| 0 <= j < a.len() implies !match_at(tt, octx, j) by {
                        if match_at(tt, octx, j) {
                            assert(tt.subrange(j, j + octx.len() as int)[0] == tt[j]);
                            assert(octx[0] == '<');
                            assert(tt[j] == a[j]);
                            assert(tt.subrange(j, j + octx.len() as int)[1] == tt[j + 1]);
                            assert(tt.subrange(j, j + octx.len() as int)[3] == tt[j + 3]);
                            assert(octx[1] == 'c');
                            assert(octx[3] == 'n');
                            if j == 0 {
                                assert(a[3] == tagged_span(tag_command(), cmd)[3]);
                                assert(tagged_span(tag_command(), cmd)[3] == open_tag(
                                    tag_command(),
                                )[3]);
                                assert(open_tag(tag_command())[3] == 'm');
                                assert(tt[3] == a[3]);
                            } else {
                                assert(j == cmd.len() + 9);
                                assert(a[j + 1] == tagged_span(tag_command(), cmd)[j + 1]);
                                assert(tagged_span(tag_command(), cmd)[j + 1] == close_tag(
                                    tag_command(),
                                )[1]);
                                assert(close_tag(tag_command())[1] == '/');
                                assert(tt[j + 1] == a[j + 1]);
                            }
                        }
                    }
                    lemma_decode_embedded(a, tag_context(), c, b);
                },
            }
        },
        Option::None => {},
    }
}

/// A field that is absent from the request leaves no tag in the payload:
/// decoding it yields absence, never a default.
pub proof fn lemma_absent_field_no_tag(
    cmd: Seq<char>,
    output: Option<Seq<char>>,
    context: Option<Seq<char>>,
    jr: bool,
)
    requires
        lt_free(cmd),
        output matches Option::Some(o) ==> lt_free(o),
        context matches Option::Some(c) ==> lt_free(c),
    ensures
        output is None ==> decode_spec(payload_spec(cmd, output, context, jr), tag_output())
            is None,
        context is None ==> decode_spec(payload_spec(cmd, output, context, jr), tag_context())
            is None,
{
    let t = payload_spec(cmd, output, context, jr);
    let s1 = tagged_span(tag_command(), cmd);
    let s2 = match output {
        Option::Some(o) => seq![' '] + tagged_span(tag_output(), o),
        Option::None => Seq::<char>::empty(),
    };
    let s3 = match context {
        Option::Some(c) => seq![' '] + tagged_span(tag_context(), c),
        Option::None => Seq::<char>::empty(),
    };
    let s4 = if jr {
        seq![' '] + open_tag(tag_justification_requested())
    } else {
        Seq::<char>::empty()
    };
    let l1 = s1.len() as int;
    let l2 = s2.len() as int;
    let l3 = s3.len() as int;
    lemma_span_lt_positions(tag_command(), cmd);
    lemma_open_tag_lt_positions(tag_justification_requested());
    if output is None {
        let ot = open_tag(tag_output());
        assert forall|j: int| !match_at(t, ot, j) by {
            if match_at(t, ot, j) {
                assert(t.subrange(j, j + ot.len() as int)[0] == t[j]);
                assert(t.subrange(j, j + ot.len() as int)[1] == t[j + 1]);
                assert(ot[0] == '<');
                assert(ot[1] == 'o');
                if j < l1 {
                    assert(t[j] == s1[j]);
                    if j == 0 {
                        assert(t[1] == s1[1]);
                        assert(s1[1] == open_tag(tag_command())[1]);
                    } else {
                        assert(j == cmd.len() + 9);
                        assert(t[j + 1] == s1[j + 1]);
                        assert(s1[j + 1] == close_tag(tag_command())[1]);
                    }
                } else if j < l1 + l3 {
                    let j3 = j - l1;
                    assert(t[j] == s3[j3]);
                    match context {
                        Option::Some(c) => {
                            lemma_span_lt_positions(tag_context(), c);
                            let sp = tagged_span(tag_context(), c);
                            if j3 == 0 {
                                assert(s3[0] == ' ');
                            } else {
                                assert(s3[j3] == sp[j3 - 1]);
                                assert(t[j + 1] == s3[j3 + 1]);
                                assert(s3[j3 + 1] == sp[j3]);
                                if j3 - 1 == 0 {
                                    assert(sp[1] == open_tag(tag_context())[1]);
                                } else {
                                    assert(j3 - 1 == c.len() + 9);
                                    assert(sp[j3] == close_tag(tag_context())[1]);
                                }
                            }
                        },
                        Option::None => {},
                    }
                } else {
                    let j4 = j - l1 - l3;
                    assert(t[j] == s4[j4]);
                    if j4 == 0 {
                        assert(s4[0] == ' ');
                    } else {
                        assert(s4[j4] == open_tag(tag_justification_requested())[j4 - 1]);
                        assert(j4 - 1 == 0);
                        assert(t[j + 1] == s4[j4 + 1]);
                        assert(s4[j4 + 1] == open_tag(tag_justification_requested())[1]);
                    }
                }
            }
        }
        lemma_decode_absent(t, tag_output());
    }
    if context is None {
        let ot = open_tag(tag_context());
        assert forall|j: int| !match_at(t, ot, j) by {
            if match_at(t, ot, j) {
                assert(t.subrange(j, j + ot.len() as int)[0] == t[j]);
                assert(t.subrange(j, j + ot.len() as int)[1] == t[j + 1]);
                assert(t.subrange(j, j + ot.len() as int)[3] == t[j + 3]);
                assert(ot[0] == '<');
                assert(ot[1] == 'c');
                assert(ot[3] == 'n');
                if j < l1 {
                    assert(t[j] == s1[j]);
                    if j == 0 {
                        assert(t[3] == s1[3]);
                        assert(s1[3] == open_tag(tag_command())[3]);
                    } else {
                        assert(j == cmd.len() + 9);
                        assert(t[j + 1] == s1[j + 1]);
                        assert(s1[j + 1] == close_tag(tag_command())[1]);
                    }
                } else if j < l1 + l2 {
                    let j2 = j - l1;
                    assert(t[j] == s2[j2]);
                    match output {
                        Option::Some(o) => {
                            lemma_span_lt_positions(tag_output(), o);
                            let sp = tagged_span(tag_output(), o);
                            if j2 == 0 {
                                assert(s2[0] == ' ');
                            } else {
                                assert(s2[j2] == sp[j2 - 1]);
                                assert(t[j + 1] == s2[j2 + 1]);
                                assert(s2[j2 + 1] == sp[j2]);
                                if j2 - 1 == 0 {
                                    assert(sp[1] == open_tag(tag_output())[1]);
                                } else {
                                    assert(j2 - 1 == o.len() + 8);
                                    assert(sp[j2] == close_tag(tag_output())[1]);
                                }
                            }
                        },
                        Option::None => {},
                    }
                } else {
                    let j4 = j - l1 - l2;
                    assert(t[j] == s4[j4]);
                    if j4 == 0 {
                        assert(s4[0] == ' ');
                    } else {
                        assert(s4[j4] == open_tag(tag_justification_requested())[j4 - 1]);
                        assert(j4 - 1 == 0);
                        assert(t[j + 1] == s4[j4 + 1]);
                        assert(s4[j4 + 1] == open_tag(tag_justification_requested())[1]);
                    }
                }
            }
        }
        lemma_decode_absent(t, tag_context());
    }
}

/// Why a correction request could not be built.
#[derive(Debug)]
pub enum RequestError {
    /// Both the captured output and the context were absent: the request
    /// carries no signal for why a correction is needed. The message is a
    /// prompt that asks the caller to supply context.
    MissingContext(String),
}

/// The prompt that a `MissingContext` failure carries.
pub open spec fn missing_context_prompt() -> Seq<char> {
    "Your command was successful (no output), but no context was provided. Please provide context now: "@
}

/// A correction request: the command to correct, what it printed, the
/// caller's intent, and whether a justification is asked for.
pub struct Request {
    /// The failing or guiding shell command.
    pub command: String,
    /// Captured output of the last run, when there was any.
    pub output: Option<String>,
    /// Free-text intent supplied by the caller.
    pub context: Option<String>,
    /// Whether the model is asked to justify its suggestion.
    pub justification_requested: bool,
}

impl Request {
    /// The request carries some signal for why a correction is needed.
    pub open spec fn wf(self) -> bool {
        self.output is Some || self.context is Some
    }

    /// Builds a request. Construction fails exactly when both the output
    /// and the context are absent; the error's message doubles as a prompt
    /// for the missing context.
    pub fn new(
        command: &str,
        output: Option<&str>,
        context: Option<&str>,
        justification_requested: bool,
    ) -> (r: Result<Request, RequestError>)
        ensures
            match r {
                Result::Ok(req) => {
                    &&& output is Some || context is Some
                    &&& req.wf()
                    &&& req.command@ == command@
                    &&& opt_text(req.output) == opt_text_ref(output)
                    &&& opt_text(req.context) == opt_text_ref(context)
                    &&& req.justification_requested == justification_requested
                },
                Result::Err(e) => {
                    &&& output is None && context is None
                    &&& e matches RequestError::MissingContext(m) && m@ == missing_context_prompt()
                },
            },
    {
        if output.is_none() && context.is_none() {
            return Result::Err(
                RequestError::MissingContext(
                    String::from_str(
                        "Your command was successful (no output), but no context was provided. Please provide context now: ",
                    ),
                ),
            );
        }
        let owned_output = match output {
            Option::Some(o) => Option::Some(o.to_owned()),
            Option::None => Option::None,
        };
        let owned_context = match context {
            Option::Some(c) => Option::Some(c.to_owned()),
            Option::None => Option::None,
        };
        Result::Ok(
            Request {
                command: command.to_owned(),
                output: owned_output,
                context: owned_context,
                justification_requested,
            },
        )
    }

    /// Renders the request as the wire payload, in the fixed field order.
    /// Free of side effects: repeated calls return the same text.
    pub fn to_payload(&self) -> (r: String)
        ensures
            r@ == payload_spec(
                self.command@,
                opt_text(self.output),
                opt_text(self.context),
                self.justification_requested,
            ),
    {
        proof {
            lemma_request_tag_lits();
        }
        let mut payload = encode_field("command", self.command.as_str());
        match &self.output {
            Option::Some(o) => {
                payload.append(" ");
                let f = encode_field("output", o.as_str());
                payload.append(f.as_str());
            },
            Option::None => {},
        }
        match &self.context {
            Option::Some(c) => {
                payload.append(" ");
                let f = encode_field("context", c.as_str());
                payload.append(f.as_str());
            },
            Option::None => {},
        }
        if self.justification_requested {
            payload.append(" ");
            let t = make_open_tag("justification_requested");
            payload.append(t.as_str());
        }
        proof {
            assert(payload@ =~= payload_spec(
                self.command@,
                opt_text(self.output),
                opt_text(self.context),
                self.justification_requested,
            ));
        }
        payload
    }

    /// Stores (or replaces) the caller's context.
    pub fn add_context(&mut self, context: String)
        ensures
            final (self).command == old(self).command,
            final (self).output == old(self).output,
            final (self).context == Option::Some(context),
            final (self).justification_requested == old(self).justification_requested,
            final (self).wf(),
    {
        self.context = Option::Some(context);
    }

    /// Asks the model to justify its suggestion.
    pub fn compel_justification(&mut self)
        ensures
            final (self).command == old(self).command,
            final (self).output == old(self).output,
            final (self).context == old(self).context,
            final (self).justification_requested == true,
    {
        self.justification_requested = true;
    }
}

} // verus!

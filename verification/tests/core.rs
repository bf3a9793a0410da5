use cllmi::codec::decode;
use cllmi::codec::encode_field;
use cllmi::extract_candidate;
use cllmi::format_history_entry;
use cllmi::get_sys_prompt;
use cllmi::CommandError;
use cllmi::Request;
use cllmi::RequestError;
use cllmi::Response;
use cllmi::ResponseError;

#[test]
fn construction_fails_without_any_signal() {
    let r = Request::new("git fetsc", None, None, false);
    match r {
        Err(RequestError::MissingContext(msg)) => {
            assert_eq!(
                msg,
                "Your command was successful (no output), but no context was provided. Please provide context now: "
            );
        }
        Ok(_) => panic!("construction must fail when output and context are both absent"),
    }
}

#[test]
fn construction_succeeds_with_output_only() {
    let r = Request::new("git fetsc", Some("some error"), None, false);
    assert!(r.is_ok());
}

#[test]
fn construction_succeeds_with_context_only() {
    let r = Request::new("git fetsc", None, Some("fetch the repo"), true);
    assert!(r.is_ok());
}

#[test]
fn construction_succeeds_with_both() {
    let r = Request::new("git fetsc", Some("some error"), Some("fetch the repo"), false);
    assert!(r.is_ok());
}

#[test]
fn payload_has_command_and_output_but_no_context_tag() {
    let req = Request::new(
        "git fetsc",
        Some("git: 'fetsc' is not a git command."),
        None,
        false,
    )
    .unwrap();
    let payload = req.to_payload();
    assert_eq!(
        payload,
        "<command>git fetsc</command> <output>git: 'fetsc' is not a git command.</output>"
    );
    assert!(!payload.contains("<context>"));
}

#[test]
fn payload_with_all_fields_in_fixed_order() {
    let mut req = Request::new("git fetsc", Some("boom"), None, false).unwrap();
    req.add_context(String::from("fetch the repo"));
    req.compel_justification();
    let payload = req.to_payload();
    assert_eq!(
        payload,
        "<command>git fetsc</command> <output>boom</output> <context>fetch the repo</context> <justification_requested>"
    );
}

#[test]
fn payload_is_idempotent_across_calls() {
    let req = Request::new("ls -la", None, Some("list everything"), false).unwrap();
    assert_eq!(req.to_payload(), req.to_payload());
}

#[test]
fn encode_then_decode_round_trips() {
    let encoded = encode_field("command", "ls -la");
    assert_eq!(encoded, "<command>ls -la</command>");
    let back = decode(&encoded, "command");
    assert_eq!(back.as_deref(), Some("ls -la"));
}

#[test]
fn payload_fields_decode_back_to_their_values() {
    let mut req = Request::new("git fetsc", Some("boom"), None, true).unwrap();
    req.add_context(String::from("fetch the repo"));
    let payload = req.to_payload();
    assert_eq!(decode(&payload, "command").as_deref(), Some("git fetsc"));
    assert_eq!(decode(&payload, "output").as_deref(), Some("boom"));
    assert_eq!(decode(&payload, "context").as_deref(), Some("fetch the repo"));
}

#[test]
fn absent_field_decodes_to_absence() {
    let req = Request::new("git fetsc", Some("boom"), None, false).unwrap();
    let payload = req.to_payload();
    assert_eq!(decode(&payload, "context"), None);
    assert_eq!(decode(&payload, "justification"), None);
}

#[test]
fn decoding_tolerates_surrounding_prose() {
    let r = Response::from_string(String::from(
        "blah <fixed_command>ls -la</fixed_command> blah",
    ))
    .unwrap();
    assert_eq!(r.command, "ls -la");
    assert_eq!(r.justification, None);
}

#[test]
fn decoding_tolerates_whitespace_inside_span() {
    let r = Response::from_string(String::from(
        "<fixed_command>\n  git fetch  \n</fixed_command>",
    ))
    .unwrap();
    assert_eq!(r.command, "git fetch");
}

#[test]
fn reply_with_justification_yields_both_fields() {
    let r = Response::from_string(String::from(
        "<fixed_command>git push --set-upstream origin main</fixed_command> <justification>publishes the branch</justification>",
    ))
    .unwrap();
    assert_eq!(r.command, "git push --set-upstream origin main");
    assert_eq!(r.justification.as_deref(), Some("publishes the branch"));
}

#[test]
fn reply_without_command_tag_is_a_parse_failure() {
    let raw = String::from("I think you meant to type git fetch.");
    match Response::from_string(raw.clone()) {
        Err(ResponseError::Parse(m)) => assert_eq!(m, raw),
        other => panic!("expected a parse failure, got {:?}", other),
    }
}

#[test]
fn reply_with_empty_command_span_is_a_parse_failure() {
    let raw = String::from("<fixed_command>   </fixed_command>");
    match Response::from_string(raw) {
        Err(ResponseError::Parse(_)) => {}
        other => panic!("expected a parse failure, got {:?}", other),
    }
}

#[test]
fn empty_span_decodes_to_absence() {
    assert_eq!(decode("a <x></x> b", "x"), None);
    assert_eq!(decode("a <x>   </x> b", "x"), None);
}

#[test]
fn decoding_is_order_independent() {
    let r = Response::from_string(String::from(
        "<justification>sets upstream</justification> <fixed_command>git push -u origin main</fixed_command>",
    ))
    .unwrap();
    assert_eq!(r.command, "git push -u origin main");
    assert_eq!(r.justification.as_deref(), Some("sets upstream"));
}

#[test]
fn decoding_takes_the_first_occurrence() {
    assert_eq!(decode("<x>a</x> <x>b</x>", "x").as_deref(), Some("a"));
    assert_eq!(decode("<x>a</x>b</x>", "x").as_deref(), Some("a"));
}

#[test]
fn unclosed_span_decodes_to_absence() {
    assert_eq!(decode("a <x>value with no close", "x"), None);
}

#[test]
fn envelope_with_content_block_parses_end_to_end() {
    let raw = "{\"content\":[{\"type\":\"text\",\"text\":\"<fixed_command>git fetch</fixed_command>\"}]}";
    let r = Response::from_completion_json(raw).unwrap();
    assert_eq!(r.command, "git fetch");
    assert_eq!(r.justification, None);
}

#[test]
fn malformed_envelope_is_a_parse_failure() {
    let raw = "this is not json";
    match Response::from_completion_json(raw) {
        Err(ResponseError::Parse(m)) => assert_eq!(m, raw),
        other => panic!("expected a parse failure, got {:?}", other),
    }
}

#[test]
fn envelope_with_empty_content_is_a_parse_failure() {
    let raw = "{\"content\":[]}";
    match Response::from_completion_json(raw) {
        Err(ResponseError::Parse(m)) => assert_eq!(m, raw),
        other => panic!("expected a parse failure, got {:?}", other),
    }
}

#[test]
fn api_error_is_kept_apart_from_parse_failures() {
    let raw = "{\"error\":{\"message\":\"overloaded\"}}";
    match Response::from_api_error(raw) {
        ResponseError::Api(m) => assert_eq!(m, raw),
        other => panic!("expected an api error, got {:?}", other),
    }
}

#[test]
fn extraction_skips_the_tools_own_invocation() {
    let tail = ": 1700000000:0;git fetsc\n: 1700000010:0;cllmi";
    let cand = extract_candidate(tail).unwrap();
    assert_eq!(cand, "git fetsc");
}

#[test]
fn extraction_takes_the_last_segment_of_a_compound_line() {
    let tail = ": 1700000000:0;cd /tmp; ls -la\n: 1700000010:0;cllmi";
    let cand = extract_candidate(tail).unwrap();
    assert_eq!(cand, "ls -la");
}

#[test]
fn extraction_fails_on_an_empty_tail() {
    match extract_candidate("") {
        Err(CommandError::Extract(_)) => {}
        other => panic!("expected an extract failure, got {:?}", other),
    }
}

#[test]
fn extraction_fails_on_a_blank_segment() {
    match extract_candidate(": 1700000000:0;   \n: 1700000010:0;cllmi") {
        Err(CommandError::Extract(_)) => {}
        other => panic!("expected an extract failure, got {:?}", other),
    }
}

#[test]
fn extraction_on_a_single_line_uses_that_line() {
    let cand = extract_candidate(": 1700000000:0;git status").unwrap();
    assert_eq!(cand, "git status");
}

#[test]
fn history_entry_has_the_shell_format() {
    let entry = format_history_entry(1700000000, "git fetch");
    assert_eq!(entry, ": 1700000000:0;git fetch\n");
}

#[test]
fn history_entry_preserves_the_command_byte_for_byte() {
    let cmd = "printf '%s;%s' a b  ";
    let entry = format_history_entry(42, cmd);
    assert_eq!(entry, format!(": 42:0;{}\n", cmd));
    let body = entry.strip_prefix(": ").unwrap();
    let (digits, rest) = body.split_once(":0;").unwrap();
    assert!(!digits.is_empty());
    assert!(digits.chars().all(|c| c.is_ascii_digit()));
    assert_eq!(rest, format!("{}\n", cmd));
}

#[test]
fn history_entry_for_timestamp_zero() {
    assert_eq!(format_history_entry(0, "x"), ": 0:0;x\n");
}

#[test]
fn sys_prompt_teaches_the_wire_format() {
    let p = get_sys_prompt();
    assert!(p.starts_with("You are a cli correcter."));
    assert!(p.contains("<command>"));
    assert!(p.contains("<fixed_command>"));
    assert!(p.contains("<justification_requested>"));
}

#[test]
fn end_to_end_correction_scenario() {
    let req = Request::new(
        "git fetsc",
        Some("git: 'fetsc' is not a git command."),
        None,
        false,
    )
    .unwrap();
    let payload = req.to_payload();
    assert!(payload.contains("<command>git fetsc</command>"));
    assert!(payload.contains("<output>git: 'fetsc' is not a git command.</output>"));
    assert!(!payload.contains("<context>"));
    let reply = String::from("<fixed_command>git fetch</fixed_command>");
    let resp = Response::from_string(reply).unwrap();
    assert_eq!(resp.command, "git fetch");
    assert_eq!(resp.justification, None);
}

use lib::agent_loop::{
    chunk_text, collect_tool_calls, decide_after_reply, parse_partial_args, signature_for_plan,
    AgentLoop, Reply, Step,
};
use lib::agent_loop::record_stream_events;
use lib::llm::{
    ContentItem, Message, MockProvider, ModelProvider, ProviderUsage, StreamEvent, ToolArgSpec,
    ToolSpec,
};
use lib::memory::TapeStore;
use lib::runtime::RuntimeProfile;
use lib::tools::{AgentTool, AgentToolResult, ToolRegistry};

struct RepeatingToolProvider;

impl ModelProvider for RepeatingToolProvider {
    fn generate(&mut self, _messages: &[Message], _tools: &[ToolSpec]) -> Message {
        Message {
            role: "assistant".to_string(),
            content: vec![ContentItem::ToolCall {
                id: "call_1".to_string(),
                name: "noop".to_string(),
                arguments: vec![("x".to_string(), "1".to_string())],
            }],
        }
    }
}

/// Always asks for the `noop` tool with a new argument value, so no plan repeats.
struct CountingToolProvider {
    n: usize,
}

impl ModelProvider for CountingToolProvider {
    fn generate(&mut self, _messages: &[Message], _tools: &[ToolSpec]) -> Message {
        self.n += 1;
        Message {
            role: "assistant".to_string(),
            content: vec![ContentItem::ToolCall {
                id: format!("call_{}", self.n),
                name: "noop".to_string(),
                arguments: vec![("x".to_string(), format!("{}", self.n))],
            }],
        }
    }
}

/// Asks first for the given calls of `noop`, then answers with text.
struct PlanThenAnswer {
    plan: Vec<String>,
    asked: bool,
}

impl ModelProvider for PlanThenAnswer {
    fn generate(&mut self, _messages: &[Message], _tools: &[ToolSpec]) -> Message {
        if self.asked {
            return Message {
                role: "assistant".to_string(),
                content: vec![ContentItem::Text("done".to_string())],
            };
        }
        self.asked = true;
        Message {
            role: "assistant".to_string(),
            content: self
                .plan
                .iter()
                .enumerate()
                .map(|(i, x)| ContentItem::ToolCall {
                    id: format!("call_{}", i),
                    name: "noop".to_string(),
                    arguments: vec![("x".to_string(), x.clone())],
                })
                .collect(),
        }
    }
}

fn noop_registry(with_arg: bool) -> ToolRegistry {
    let args = if with_arg {
        vec![ToolArgSpec {
            name: "x".to_string(),
            description: "any".to_string(),
            required: true,
        }]
    } else {
        vec![]
    };
    let tool = AgentTool {
        spec: ToolSpec {
            name: "noop".to_string(),
            description: "no-op".to_string(),
            args,
        },
    };
    ToolRegistry::new(vec![tool])
}

/// Runs steps to the end, answering each tool run with `tool_output` and counting the runs.
fn run_to_end<P: ModelProvider>(
    agent: &mut AgentLoop<P>,
    first: Step,
    tool_output: &str,
) -> (Result<String, String>, usize) {
    let mut step = first;
    let mut runs = 0usize;
    loop {
        match step {
            Step::Finished(r) => return (r, runs),
            Step::RunTool { .. } => {
                runs += 1;
                step = agent.tool_finished(Ok(AgentToolResult {
                    llm_output: tool_output.to_string(),
                    ui_details: vec![],
                }));
            }
            Step::RunShell { .. } => panic!("unexpected shell step"),
        }
    }
}

#[test]
fn stops_when_tool_plan_repeats() {
    let tape = TapeStore::new();
    let registry = noop_registry(false);
    let mut agent = AgentLoop::new(
        RepeatingToolProvider,
        registry,
        tape,
        ".".to_string(),
        RuntimeProfile::Yolo,
    );
    let first = agent.handle_input("run noop");
    let (output, _) = run_to_end(&mut agent, first, "ok");
    let output = output.expect("handle input");
    assert!(output.contains("repeated the same tool plan"));
}

#[test]
fn partial_args_parser_handles_pairs() {
    let parsed = parse_partial_args("path=src/main.rs, mode=read");
    assert_eq!(
        parsed,
        vec![
            ("path".to_string(), "src/main.rs".to_string()),
            ("mode".to_string(), "read".to_string())
        ]
    );
}

#[test]
fn chunk_text_splits_large_payload() {
    let chunks = chunk_text("abcdefgh", 3);
    assert_eq!(chunks, vec!["abc", "def", "gh"]);
}

#[test]
fn partial_args_skips_segments_without_key() {
    let parsed = parse_partial_args("=x, path, a = b ,c=");
    assert_eq!(
        parsed,
        vec![
            ("a".to_string(), "b".to_string()),
            ("c".to_string(), "".to_string())
        ]
    );
}

#[test]
fn chunk_text_edge_cases() {
    assert_eq!(chunk_text("", 3), vec![""]);
    assert_eq!(chunk_text("abc", 0), vec!["a", "b", "c"]);
    assert_eq!(chunk_text("abc", 3), vec!["abc"]);
    assert_eq!(chunk_text("héllo", 2), vec!["hé", "ll", "o"]);
}

#[test]
fn plan_signature_joins_calls() {
    let m = Message {
        role: "assistant".to_string(),
        content: vec![
            ContentItem::Text("thinking".to_string()),
            ContentItem::ToolCall {
                id: "c1".to_string(),
                name: "read".to_string(),
                arguments: vec![("path".to_string(), "a".to_string())],
            },
            ContentItem::ToolCall {
                id: "c2".to_string(),
                name: "bash".to_string(),
                arguments: vec![],
            },
        ],
    };
    let calls = collect_tool_calls(&m);
    assert_eq!(calls.len(), 2);
    assert_eq!(calls[0].0, "c1");
    assert_eq!(calls[1].1, "bash");
    assert_eq!(
        signature_for_plan(&calls),
        "read:[(\"path\", \"a\")]|bash:[]"
    );
}

#[test]
fn decide_after_reply_counts_repeats() {
    let call = Message {
        role: "assistant".to_string(),
        content: vec![ContentItem::ToolCall {
            id: "c".to_string(),
            name: "noop".to_string(),
            arguments: vec![],
        }],
    };
    match decide_after_reply(&None, 0, &call) {
        Reply::Proceed { plan, repeated, calls } => {
            assert_eq!(plan, "noop:[]");
            assert_eq!(repeated, 0);
            assert_eq!(calls.len(), 1);
        }
        _ => panic!("expected to proceed"),
    }
    match decide_after_reply(&Some("noop:[]".to_string()), 0, &call) {
        Reply::Proceed { repeated, .. } => assert_eq!(repeated, 1),
        _ => panic!("expected to proceed"),
    }
    assert!(matches!(
        decide_after_reply(&Some("noop:[]".to_string()), 1, &call),
        Reply::Repeated
    ));
    assert!(matches!(
        decide_after_reply(&Some("noop:[]".to_string()), usize::MAX, &call),
        Reply::Repeated
    ));
    match decide_after_reply(&Some("other".to_string()), 7, &call) {
        Reply::Proceed { repeated, .. } => assert_eq!(repeated, 0),
        _ => panic!("expected to proceed"),
    }
    match decide_after_reply(&Some("other".to_string()), 1, &call) {
        Reply::Proceed { repeated, .. } => assert_eq!(repeated, 0),
        _ => panic!("expected to proceed"),
    }
    let text = Message {
        role: "assistant".to_string(),
        content: vec![
            ContentItem::Text("a".to_string()),
            ContentItem::Text("b".to_string()),
        ],
    };
    match decide_after_reply(&None, 0, &text) {
        Reply::Final(t) => assert_eq!(t, "a\nb"),
        _ => panic!("expected a final answer"),
    }
}

#[test]
fn stalled_rounds_stop_the_turn() {
    // Every call names an unknown argument, so no call succeeds.
    let mut agent = AgentLoop::new(
        CountingToolProvider { n: 0 },
        noop_registry(false),
        TapeStore::new(),
        ".".to_string(),
        RuntimeProfile::Yolo,
    );
    let first = agent.handle_input("go");
    let (output, runs) = run_to_end(&mut agent, first, "ok");
    assert_eq!(runs, 0);
    assert_eq!(
        output.unwrap(),
        "Stopped after 3 stalled tool rounds (no successful calls)."
    );
}

#[test]
fn max_rounds_end_the_turn() {
    let mut agent = AgentLoop::new(
        CountingToolProvider { n: 0 },
        noop_registry(true),
        TapeStore::new(),
        ".".to_string(),
        RuntimeProfile::Yolo,
    );
    let first = agent.handle_input("go");
    let (output, runs) = run_to_end(&mut agent, first, "ok");
    assert_eq!(runs, 15);
    assert_eq!(
        output.unwrap(),
        "Tool-calling loop reached max rounds (15)."
    );
}

#[test]
fn mock_turn_without_tools_answers_with_help() {
    let profile = RuntimeProfile::Yolo;
    let registry = profile.tool_registry().unwrap();
    let mut agent = AgentLoop::new(
        MockProvider::new(),
        registry,
        TapeStore::new(),
        "/work".to_string(),
        profile,
    );
    let first = agent.handle_input("hello");
    let (output, runs) = run_to_end(&mut agent, first, "unused");
    assert_eq!(runs, 0);
    assert_eq!(
        output.unwrap(),
        "Mock provider active. Try: 'ls', 'read <path>', or 'bash <command>'. Available tools: read."
    );
    // The user's message is the first entry.
    let tape = agent.tape();
    assert_eq!(tape.entry(0).entry_type, "message");
    assert_eq!(tape.entry(0).id, 1);
    // Then the event that opens the turn.
    assert_eq!(tape.entry(1).entry_type, "event");
    assert_eq!(
        tape.entry(1).payload,
        "{\"event\":\"turn_start\",\"prompt_version\":\"v1\",\"toolset\":\"read\",\"profile\":\"yolo\"}"
    );
}

#[test]
fn mock_turn_reads_a_file() {
    let profile = RuntimeProfile::Yolo;
    let registry = profile.tool_registry().unwrap();
    let mut agent = AgentLoop::new(
        MockProvider::new(),
        registry,
        TapeStore::new(),
        "/work".to_string(),
        profile,
    );
    let step = agent.handle_input("read src/main.rs");
    match &step {
        Step::RunTool { name, args } => {
            assert_eq!(name, "read");
            assert_eq!(args, &vec![("path".to_string(), "src/main.rs".to_string())]);
        }
        _ => panic!("expected a tool run"),
    }
    let next = agent.tool_finished(Ok(AgentToolResult {
        llm_output: "fn main() {}".to_string(),
        ui_details: vec![],
    }));
    match next {
        Step::Finished(Ok(text)) => assert_eq!(text, "Tool result:\nfn main() {}"),
        _ => panic!("expected the final answer"),
    }
    // The output was recorded as one chunk event, then as the message the model saw.
    let chunks = agent.tape().search("\"event\":\"tool_result_chunk\"");
    assert_eq!(chunks.len(), 1);
    assert!(chunks[0].payload.contains("\"chunk\":\"fn main() {}\""));
    let next_entry = agent.tape().entry(chunks[0].id);
    assert_eq!(next_entry.entry_type, "message");
    assert_eq!(next_entry.payload, "mtoolResult;tfn main() {};");
}

#[test]
fn commands_are_answered() {
    let profile = RuntimeProfile::Readonly;
    let registry = profile.tool_registry().unwrap();
    let mut agent = AgentLoop::new(
        MockProvider::new(),
        registry,
        TapeStore::new(),
        ".".to_string(),
        profile,
    );
    match agent.handle_input("/help") {
        Step::Finished(Ok(t)) => assert!(t.starts_with("Commands:\n/help\n/tools")),
        _ => panic!("expected help"),
    }
    match agent.handle_input("/tools") {
        Step::Finished(Ok(t)) => {
            assert_eq!(t, "- read: Read UTF-8 file content\n- ls: List directory entries")
        }
        _ => panic!("expected tools"),
    }
    match agent.handle_input("/trace") {
        Step::Finished(Ok(t)) => assert_eq!(t, "No trace data yet. Send a normal prompt first."),
        _ => panic!("expected trace"),
    }
    match agent.handle_input("/handoff.list") {
        Step::Finished(Ok(t)) => assert_eq!(t, "No handoff anchors yet. Use /handoff [name]."),
        _ => panic!("expected list"),
    }
    match agent.handle_input("/handoff") {
        Step::Finished(Ok(t)) => assert_eq!(
            t,
            "✅ handoff 'handoff-0' created at tape entry #0.\nUse /trace for recent activity or /handoff.list to inspect saved anchors."
        ),
        _ => panic!("expected handoff"),
    }
    match agent.handle_input("/handoff.list") {
        Step::Finished(Ok(t)) => assert_eq!(
            t,
            "#1 {\"name\":\"handoff-0\",\"state\":\"entries_before=0\"}"
        ),
        _ => panic!("expected list"),
    }
    match agent.handle_input("/tape.search handoff") {
        Step::Finished(Ok(t)) => assert_eq!(
            t,
            "#1 [handoff] {\"name\":\"handoff-0\",\"state\":\"entries_before=0\"}"
        ),
        _ => panic!("expected search"),
    }
    match agent.handle_input("/tape.search nothing-here") {
        Step::Finished(Ok(t)) => assert_eq!(t, "No tape entries matched."),
        _ => panic!("expected search"),
    }
    match agent.handle_input("/shell ls") {
        Step::Finished(Ok(t)) => {
            assert_eq!(t, "Shell command route is disabled for this runtime profile.")
        }
        _ => panic!("expected refusal"),
    }
    match agent.handle_input("/nope") {
        Step::Finished(Ok(t)) => assert_eq!(t, "Unknown command: nope. Try /help."),
        _ => panic!("expected unknown"),
    }
}

#[test]
fn trace_shows_the_last_turn() {
    let profile = RuntimeProfile::Readonly;
    let registry = profile.tool_registry().unwrap();
    let mut agent = AgentLoop::new(
        MockProvider::new(),
        registry,
        TapeStore::new(),
        ".".to_string(),
        profile,
    );
    let first = agent.handle_input("hello");
    let _ = run_to_end(&mut agent, first, "unused");
    assert!(agent.trace_is_renderable(""));
    match agent.handle_input("/trace") {
        Step::Finished(Ok(t)) => {
            assert!(t.starts_with("Trace for turn 1 (entries #2..#"));
            assert!(t.contains("[event] {\"event\":\"turn_start\""));
        }
        _ => panic!("expected trace"),
    }
    match agent.handle_input("/trace 5") {
        Step::Finished(Ok(t)) => assert_eq!(t, "Turn 5 not found. Valid turn range: 1..=1"),
        _ => panic!("expected trace"),
    }
    match agent.handle_input("/trace x") {
        Step::Finished(Err(e)) => assert_eq!(e, "Usage: /trace [turn_number]"),
        _ => panic!("expected usage error"),
    }
}

#[test]
fn shell_commands_go_to_the_caller() {
    let mut agent = AgentLoop::new(
        MockProvider::new(),
        ToolRegistry::new(vec![]),
        TapeStore::new(),
        ".".to_string(),
        RuntimeProfile::Yolo,
    );
    match agent.handle_input("/shell   ") {
        Step::Finished(Ok(t)) => assert_eq!(t, "Empty command."),
        _ => panic!("expected empty command"),
    }
    match agent.handle_input("/shell echo hi") {
        Step::RunShell { command } => assert_eq!(command, "echo hi"),
        _ => panic!("expected a shell run"),
    }
    match agent.shell_finished(Ok((" hi \n".to_string(), "".to_string()))) {
        Step::Finished(Ok(t)) => assert_eq!(t, "$ echo hi\nhi"),
        _ => panic!("expected output"),
    }
    match agent.handle_input("/shell true") {
        Step::RunShell { .. } => {}
        _ => panic!("expected a shell run"),
    }
    match agent.shell_finished(Ok(("".to_string(), "".to_string()))) {
        Step::Finished(Ok(t)) => assert_eq!(t, "$ true\n(no output)"),
        _ => panic!("expected output"),
    }
    match agent.handle_input("/shell x") {
        Step::RunShell { .. } => {}
        _ => panic!("expected a shell run"),
    }
    match agent.shell_finished(Err("spawn failed".to_string())) {
        Step::Finished(Err(e)) => assert_eq!(e, "spawn failed"),
        _ => panic!("expected the error"),
    }
}

#[test]
fn per_round_call_limit_holds() {
    let plan: Vec<String> = (1..=8).map(|i| i.to_string()).collect();
    let mut agent = AgentLoop::new(
        PlanThenAnswer { plan, asked: false },
        noop_registry(true),
        TapeStore::new(),
        ".".to_string(),
        RuntimeProfile::Yolo,
    );
    let first = agent.handle_input("go");
    let (output, runs) = run_to_end(&mut agent, first, "ok");
    assert_eq!(runs, 6);
    assert_eq!(output.unwrap(), "done");
}

#[test]
fn duplicate_calls_run_once() {
    let plan = vec!["1".to_string(), "1".to_string(), "2".to_string()];
    let mut agent = AgentLoop::new(
        PlanThenAnswer { plan, asked: false },
        noop_registry(true),
        TapeStore::new(),
        ".".to_string(),
        RuntimeProfile::Yolo,
    );
    let first = agent.handle_input("go");
    let (output, runs) = run_to_end(&mut agent, first, "ok");
    assert_eq!(runs, 2);
    assert_eq!(output.unwrap(), "done");
    // The skipped call's note is streamed as a chunk and recorded as a tool result.
    let found = agent.tape().search("Skipped duplicate tool call");
    assert_eq!(found.len(), 2);
}

#[test]
fn failed_tool_runs_are_reported_to_the_model() {
    let plan = vec!["1".to_string()];
    let mut agent = AgentLoop::new(
        PlanThenAnswer { plan, asked: false },
        noop_registry(true),
        TapeStore::new(),
        ".".to_string(),
        RuntimeProfile::Yolo,
    );
    let step = agent.handle_input("go");
    assert!(matches!(step, Step::RunTool { .. }));
    match agent.tool_finished(Err("disk full".to_string())) {
        Step::Finished(Ok(t)) => assert_eq!(t, "done"),
        _ => panic!("expected the answer"),
    }
    assert_eq!(agent.tape().search("disk full").len(), 2);
}

#[test]
fn bang_lines_run_in_the_shell() {
    let mut agent = AgentLoop::new(
        MockProvider::new(),
        ToolRegistry::new(vec![]),
        TapeStore::new(),
        ".".to_string(),
        RuntimeProfile::Yolo,
    );
    match agent.handle_input("  !echo hi ") {
        Step::RunShell { command } => assert_eq!(command, "echo hi"),
        _ => panic!("expected a shell run"),
    }
    let mut readonly = AgentLoop::new(
        MockProvider::new(),
        ToolRegistry::new(vec![]),
        TapeStore::new(),
        ".".to_string(),
        RuntimeProfile::Readonly,
    );
    match readonly.handle_input("!ls") {
        Step::Finished(Ok(t)) => {
            assert_eq!(t, "Shell command route is disabled for this runtime profile.")
        }
        _ => panic!("expected refusal"),
    }
    assert_eq!(readonly.tape().len(), 0);
}

#[test]
fn chunks_put_back_together_give_the_text() {
    let text = "the quick brown fox jumps";
    for k in 0..30 {
        let chunks = chunk_text(text, k);
        assert_eq!(chunks.concat(), text);
        let limit = if k == 0 { 1 } else { k };
        assert!(chunks.iter().all(|c| c.chars().count() <= limit));
    }
}

/// Streams a few events, or fails to stream, then answers with text.
struct StreamingProvider {
    fail: bool,
}

impl ModelProvider for StreamingProvider {
    fn generate(&mut self, _messages: &[Message], _tools: &[ToolSpec]) -> Message {
        Message {
            role: "assistant".to_string(),
            content: vec![ContentItem::Text("streamed".to_string())],
        }
    }

    fn stream_generate(
        &mut self,
        _messages: &[Message],
        _tools: &[ToolSpec],
    ) -> Result<Vec<StreamEvent>, String> {
        if self.fail {
            return Err("stream down".to_string());
        }
        Ok(vec![
            StreamEvent::TextDelta("str".to_string()),
            StreamEvent::ToolCallDelta {
                name: "read".to_string(),
                partial_args: "path=a, mo".to_string(),
            },
            StreamEvent::Done(ProviderUsage {
                input_tokens: 3,
                output_tokens: 2,
                total_tokens: 5,
            }),
        ])
    }
}

#[test]
fn stream_events_are_recorded() {
    let mut agent = AgentLoop::new(
        StreamingProvider { fail: false },
        ToolRegistry::new(vec![]),
        TapeStore::new(),
        ".".to_string(),
        RuntimeProfile::Yolo,
    );
    match agent.handle_input("hi") {
        Step::Finished(Ok(t)) => assert_eq!(t, "streamed"),
        _ => panic!("expected the answer"),
    }
    let partial = agent.tape().search("tool_args_partial");
    assert_eq!(partial.len(), 1);
    assert_eq!(
        partial[0].payload,
        "{\"event\":\"tool_args_partial\",\"round\":\"0\",\"index\":\"1\",\"tool\":\"read\",\"partial\":\"path=a, mo\",\"parsed_pairs\":\"1\",\"parsed\":\"[(\\\"path\\\", \\\"a\\\")]\"}"
    );
    assert_eq!(agent.tape().search("assistant_stream_done").len(), 1);

    let mut tape = TapeStore::new();
    record_stream_events(&mut tape, 4, &[StreamEvent::TextDelta("x".to_string())]);
    assert_eq!(
        tape.entry(0).payload,
        "{\"event\":\"assistant_text_delta\",\"round\":\"4\",\"index\":\"0\",\"delta\":\"x\"}"
    );
}

#[test]
fn stream_failure_ends_the_turn_with_the_error() {
    let mut agent = AgentLoop::new(
        StreamingProvider { fail: true },
        ToolRegistry::new(vec![]),
        TapeStore::new(),
        ".".to_string(),
        RuntimeProfile::Yolo,
    );
    match agent.handle_input("hi") {
        Step::Finished(Err(e)) => assert_eq!(e, "stream down"),
        _ => panic!("expected the error"),
    }
}

/// The kind of a tape entry: the event's name for an event, else the entry type.
fn entry_label(entry_type: &str, payload: &str) -> String {
    if entry_type == "event" {
        let rest = &payload["{\"event\":\"".len()..];
        rest[..rest.find('"').unwrap()].to_string()
    } else {
        entry_type.to_string()
    }
}

fn labels(tape: &TapeStore) -> Vec<String> {
    tape.entries()
        .iter()
        .map(|e| entry_label(&e.entry_type, &e.payload))
        .collect()
}

#[test]
fn turn_tape_record_is_in_order() {
    let plan = vec!["1".to_string(), "1".to_string()];
    let mut agent = AgentLoop::new(
        PlanThenAnswer { plan, asked: false },
        noop_registry(true),
        TapeStore::new(),
        ".".to_string(),
        RuntimeProfile::Yolo,
    );
    let first = agent.handle_input("go");
    let (output, runs) = run_to_end(&mut agent, first, "ok");
    assert_eq!(output.unwrap(), "done");
    assert_eq!(runs, 1);
    assert_eq!(
        labels(agent.tape()),
        vec![
            "message",
            "turn_start",
            "round_start",
            "message",
            "tool_result_chunk",
            "message",
            "tool_call",
            "tool_result_chunk",
            "message",
            "tool_call",
            "round_start",
            "message",
            "turn_stop",
        ]
    );
    let calls = agent.tape().search("\"event\":\"tool_call\"");
    assert_eq!(calls.len(), 2);
    assert!(calls[0].payload.contains("\"status\":\"ok\""));
    assert!(calls[1].payload.contains("\"status\":\"duplicate\""));
    assert!(calls[1].payload.contains("\"ui_details\":\"[(\\\"status\\\", \\\"duplicate\\\")]\""));
}

#[test]
fn limit_note_is_recorded_on_the_tape() {
    let plan: Vec<String> = (1..=7).map(|i| i.to_string()).collect();
    let mut agent = AgentLoop::new(
        PlanThenAnswer { plan, asked: false },
        noop_registry(true),
        TapeStore::new(),
        ".".to_string(),
        RuntimeProfile::Yolo,
    );
    let first = agent.handle_input("go");
    let (output, runs) = run_to_end(&mut agent, first, "ok");
    assert_eq!(output.unwrap(), "done");
    assert_eq!(runs, 6);
    let notes = agent.tape().search("Tool plan exceeded per-round limit (6). Remaining calls were skipped.");
    assert_eq!(notes.len(), 1);
    assert_eq!(notes[0].entry_type, "message");
    let l = labels(agent.tape());
    // The note follows the sixth call's `tool_call` event and precedes the next round.
    let note_at = l.len() - 4;
    assert_eq!(l[note_at - 1], "tool_call");
    assert_eq!(l[note_at], "message");
    assert_eq!(l[note_at + 1], "round_start");
}

#[test]
fn stream_failure_leaves_round_start_last() {
    let mut agent = AgentLoop::new(
        StreamingProvider { fail: true },
        ToolRegistry::new(vec![]),
        TapeStore::new(),
        ".".to_string(),
        RuntimeProfile::Yolo,
    );
    match agent.handle_input("hi") {
        Step::Finished(Err(e)) => assert_eq!(e, "stream down"),
        _ => panic!("expected the error"),
    }
    assert_eq!(labels(agent.tape()), vec!["message", "turn_start", "round_start"]);
}

/// Counts how often it is asked, and records the names of the tools it is shown; asks
/// for `bash` once, then answers with text.
struct WatchingProvider {
    asked: std::rc::Rc<std::cell::RefCell<usize>>,
    shown: std::rc::Rc<std::cell::RefCell<Vec<Vec<String>>>>,
}

impl ModelProvider for WatchingProvider {
    fn generate(&mut self, _messages: &[Message], tools: &[ToolSpec]) -> Message {
        *self.asked.borrow_mut() += 1;
        self.shown
            .borrow_mut()
            .push(tools.iter().map(|t| t.name.clone()).collect());
        if self.shown.borrow().len() == 1 {
            Message {
                role: "assistant".to_string(),
                content: vec![ContentItem::ToolCall {
                    id: "call_1".to_string(),
                    name: "bash".to_string(),
                    arguments: vec![("command".to_string(), "ls".to_string())],
                }],
            }
        } else {
            Message {
                role: "assistant".to_string(),
                content: vec![ContentItem::Text("listed".to_string())],
            }
        }
    }

    fn stream_generate(
        &mut self,
        _messages: &[Message],
        _tools: &[ToolSpec],
    ) -> Result<Vec<StreamEvent>, String> {
        *self.asked.borrow_mut() += 1;
        Ok(vec![])
    }
}

#[test]
fn commands_never_ask_the_model() {
    let asked = std::rc::Rc::new(std::cell::RefCell::new(0usize));
    let shown = std::rc::Rc::new(std::cell::RefCell::new(Vec::new()));
    let mut agent = AgentLoop::new(
        WatchingProvider { asked: asked.clone(), shown: shown.clone() },
        RuntimeProfile::Yolo.tool_registry().unwrap(),
        TapeStore::new(),
        ".".to_string(),
        RuntimeProfile::Yolo,
    );
    assert!(matches!(agent.handle_input("/help"), Step::Finished(Ok(_))));
    assert!(matches!(agent.handle_input("/nope"), Step::Finished(Ok(_))));
    assert!(matches!(agent.handle_input("!ls"), Step::RunShell { .. }));
    assert_eq!(*asked.borrow(), 0);
    assert_eq!(agent.tape().len(), 0);
}

#[test]
fn each_round_shows_the_tools_selected_before() {
    let asked = std::rc::Rc::new(std::cell::RefCell::new(0usize));
    let shown = std::rc::Rc::new(std::cell::RefCell::new(Vec::new()));
    let mut agent = AgentLoop::new(
        WatchingProvider { asked: asked.clone(), shown: shown.clone() },
        RuntimeProfile::Yolo.tool_registry().unwrap(),
        TapeStore::new(),
        ".".to_string(),
        RuntimeProfile::Yolo,
    );
    let first = agent.handle_input("go");
    match &first {
        Step::RunTool { name, .. } => assert_eq!(name, "bash"),
        _ => panic!("expected a tool run"),
    }
    let (output, runs) = run_to_end(&mut agent, first, "a b");
    assert_eq!(output.unwrap(), "listed");
    assert_eq!(runs, 1);
    // Two rounds, each asking for a streamed and a full answer.
    assert_eq!(*asked.borrow(), 4);
    assert_eq!(
        *shown.borrow(),
        vec![vec!["read".to_string()], vec!["read".to_string(), "bash".to_string()]]
    );
}

#[test]
fn chunks_are_full_but_the_last() {
    assert_eq!(chunk_text("abcdefg", 3), vec!["abc", "def", "g"]);
    let text = "the quick brown fox jumps";
    for k in 1..30 {
        let chunks = chunk_text(text, k);
        for c in &chunks[..chunks.len() - 1] {
            assert_eq!(c.chars().count(), k);
        }
    }
}

#[test]
fn refused_calls_are_recorded_with_the_registry_error() {
    let plan = vec!["1".to_string()];
    let registry = noop_registry(false);
    let expected = lib::tools::validate_args(
        &registry.specs()[0],
        &[("x".to_string(), "1".to_string())],
    )
    .unwrap_err();
    let mut agent = AgentLoop::new(
        PlanThenAnswer { plan, asked: false },
        registry,
        TapeStore::new(),
        ".".to_string(),
        RuntimeProfile::Yolo,
    );
    let first = agent.handle_input("go");
    let (output, runs) = run_to_end(&mut agent, first, "ok");
    assert_eq!(output.unwrap(), "done");
    assert_eq!(runs, 0);
    let calls = agent.tape().search("\"event\":\"tool_call\"");
    assert_eq!(calls.len(), 1);
    assert!(calls[0].payload.contains("\"status\":\"error\""));
    let l = labels(agent.tape());
    let at = l.iter().position(|x| x == "tool_call").unwrap();
    assert_eq!(l[at - 1], "message");
    assert!(agent.tape().entry(at - 1).payload.contains(&expected));
}

use lib::agent_config::{AgentConfig, LoopLimits};
use lib::context::{deserialize_context, serialize_context};
use lib::llm::{extract_text, ContentItem, Message, MockProvider, ModelProvider, ToolArgSpec, ToolSpec};
use lib::memory::{entry_line, TapeEntry, TapeStore};
use lib::router::{RouteKind, Router};
use lib::tool_view::ProgressiveToolView;
use lib::tools::{
    arg_required, bash_result, edit_result, edit_text, ls_result, make_tool_message, make_tool_result,
    merge_output, read_result, resolve, sort_texts, validate_args, write_result, AgentTool,
    ToolRegistry,
};

fn spec(name: &str, args: &[(&str, bool)]) -> ToolSpec {
    ToolSpec {
        name: name.to_string(),
        description: format!("{} tool", name),
        args: args
            .iter()
            .map(|(n, r)| ToolArgSpec {
                name: n.to_string(),
                description: String::new(),
                required: *r,
            })
            .collect(),
    }
}

fn pairs(ps: &[(&str, &str)]) -> Vec<(String, String)> {
    ps.iter().map(|(k, v)| (k.to_string(), v.to_string())).collect()
}

fn text_message(role: &str, text: &str) -> Message {
    Message {
        role: role.to_string(),
        content: vec![ContentItem::Text(text.to_string())],
    }
}

#[test]
fn router_routes_commands_shell_and_prompts() {
    let r = Router.route("  /trace  2 ");
    assert!(r.kind == RouteKind::Command);
    assert_eq!(r.command.as_deref(), Some("trace"));
    assert_eq!(r.args, "2");
    let r = Router.route("/help");
    assert!(r.kind == RouteKind::Command);
    assert_eq!(r.command.as_deref(), Some("help"));
    assert_eq!(r.args, "");
    let r = Router.route(" ! ls -la ");
    assert!(r.kind == RouteKind::Shell);
    assert_eq!(r.command.as_deref(), Some("shell"));
    assert_eq!(r.args, "ls -la");
    let a = Router.route("  /trace  2 ");
    let b = Router.route("/trace  2");
    assert!(a.kind == b.kind && a.command == b.command && a.args == b.args);
    let r = Router.route("  hello world ");
    assert!(r.kind == RouteKind::Prompt);
    assert_eq!(r.command, None);
    assert_eq!(r.args, "hello world");
}

#[test]
fn registry_keeps_last_tool_of_a_name() {
    let reg = ToolRegistry::new(vec![
        AgentTool { spec: spec("a", &[]) },
        AgentTool { spec: spec("b", &[]) },
        AgentTool { spec: ToolSpec { description: "second a".to_string(), ..spec("a", &[]) } },
    ]);
    let specs = reg.specs();
    assert_eq!(specs.len(), 2);
    assert_eq!(specs[0].name, "a");
    assert_eq!(specs[0].description, "second a");
    assert_eq!(specs[1].name, "b");
}

#[test]
fn execute_checks_name_and_arguments() {
    let reg = ToolRegistry::new(vec![AgentTool { spec: spec("read", &[("path", true), ("mode", false)]) }]);
    match reg.execute("write", &[]) {
        Err(e) => assert_eq!(e, "Unknown tool: write"),
        Ok(_) => panic!("should fail"),
    }
    match reg.execute("read", &pairs(&[("mode", "x")])) {
        Err(e) => assert_eq!(e, "Missing required argument: path"),
        Ok(_) => panic!("should fail"),
    }
    match reg.execute("read", &pairs(&[("path", "a"), ("size", "1")])) {
        Err(e) => assert_eq!(e, "Unknown argument 'size' for tool 'read'."),
        Ok(_) => panic!("should fail"),
    }
    match reg.execute("read", &pairs(&[("path", "a")])) {
        Ok(t) => assert_eq!(t.spec.name, "read"),
        Err(_) => panic!("should pass"),
    }
    assert!(validate_args(&spec("x", &[("a", false)]), &[]).is_ok());
}

#[test]
fn arg_required_takes_the_first_value() {
    let args = pairs(&[("path", "a"), ("path", "b")]);
    assert_eq!(arg_required(&args, "path").unwrap(), "a");
    assert_eq!(
        arg_required(&args, "content").unwrap_err(),
        "Missing required argument: content"
    );
}

#[test]
fn resolve_joins_relative_paths() {
    assert_eq!(resolve("/work", "src/main.rs"), "/work/src/main.rs");
    assert_eq!(resolve("/work/", "a"), "/work/a");
    assert_eq!(resolve("/work", "/etc/hosts"), "/etc/hosts");
    assert_eq!(resolve("", "a"), "a");
}

#[test]
fn tool_results_are_built_as_documented() {
    let r = read_result("/w/a", "text");
    assert_eq!(r.llm_output, "text");
    assert_eq!(r.ui_details, pairs(&[("tool", "read"), ("path", "/w/a")]));
    let r = write_result("/w/a", "héllo");
    assert_eq!(r.llm_output, "wrote 6 bytes");
    assert_eq!(r.ui_details, pairs(&[("path", "/w/a")]));
    let r = edit_result("/w/a");
    assert_eq!(r.llm_output, "edit complete");
    let r = bash_result("ls", " out \n", "");
    assert_eq!(r.llm_output, "out");
    assert_eq!(r.ui_details, pairs(&[("command", "ls")]));
    let r = bash_result("true", "", "  ");
    assert_eq!(r.llm_output, "(no output)");
    let m = make_tool_message(&r);
    assert_eq!(m.role, "tool");
    assert_eq!(extract_text(&m), "(no output)");
    let m = make_tool_result(&r);
    assert_eq!(m.role, "toolResult");
}

#[test]
fn ls_lists_entries_one_per_line() {
    let r = ls_result("/w", &["a".to_string(), "b.txt".to_string()]);
    assert_eq!(r.llm_output, "a\nb.txt");
    assert_eq!(r.ui_details, pairs(&[("tool", "ls"), ("path", "/w")]));
    assert_eq!(ls_result("/w", &[]).llm_output, "(empty directory)");
}

#[test]
fn edit_replaces_every_occurrence() {
    assert_eq!(edit_text("a-b-a", "a", "xy").unwrap(), "xy-b-xy");
    assert_eq!(edit_text("aaa", "aa", "b").unwrap(), "ba");
    assert_eq!(
        edit_text("abc", "z", "y").unwrap_err(),
        "edit failed: find text not found"
    );
}

#[test]
fn merge_output_joins_streams() {
    assert_eq!(merge_output(" a ", " b "), "a\nb");
    assert_eq!(merge_output("", " b "), "b");
    assert_eq!(merge_output(" a ", ""), "a");
    assert_eq!(merge_output("", ""), "");
}

#[test]
fn context_round_trips() {
    let messages = vec![
        text_message("user", "line one\nline; two\\ three\r"),
        Message {
            role: "assistant".to_string(),
            content: vec![
                ContentItem::Text(String::new()),
                ContentItem::ToolCall {
                    id: "c;1".to_string(),
                    name: "read".to_string(),
                    arguments: pairs(&[("path", "a\nb"), ("", ";")]),
                },
            ],
        },
        Message { role: String::new(), content: vec![] },
    ];
    let payload = serialize_context(&messages);
    assert!(!payload.contains('\n'));
    let back = deserialize_context(&payload);
    assert_eq!(back.len(), 3);
    assert_eq!(back[0].role, "user");
    assert_eq!(extract_text(&back[0]), "line one\nline; two\\ three\r");
    match &back[1].content[1] {
        ContentItem::ToolCall { id, name, arguments } => {
            assert_eq!(id, "c;1");
            assert_eq!(name, "read");
            assert_eq!(arguments, &pairs(&[("path", "a\nb"), ("", ";")]));
        }
        _ => panic!("expected a call"),
    }
    assert_eq!(back[2].content.len(), 0);
    assert_eq!(serialize_context(&[text_message("u", "x;")]), "mu;tx\\;;");
}

#[test]
fn tape_appends_and_reads_back_messages() {
    let mut tape = TapeStore::new();
    tape.append_message(&text_message("user", "hi"));
    tape.append_event("note", &pairs(&[("k", "a;b=c")]));
    tape.append_event_json("turn_start", &pairs(&[("q", "say \"x\"\n")]));
    tape.append_message(&text_message("assistant", "hello"));
    assert_eq!(tape.len(), 4);
    assert_eq!(tape.entry(1).payload, "event=note;k=a\\sb\\ec");
    assert_eq!(
        tape.entry(2).payload,
        "{\"event\":\"turn_start\",\"q\":\"say \\\"x\\\"\\n\"}"
    );
    let ids: Vec<usize> = tape.entries().iter().map(|e| e.id).collect();
    assert_eq!(ids, vec![1, 2, 3, 4]);
    let msgs = tape.build_messages(50);
    assert_eq!(msgs.len(), 2);
    assert_eq!(extract_text(&msgs[0]), "hi");
    assert_eq!(msgs[1].role, "assistant");
    let last = tape.build_messages(1);
    assert_eq!(last.len(), 1);
    assert_eq!(extract_text(&last[0]), "hello");
    let found = tape.search("turn_start");
    assert_eq!(found.len(), 1);
    assert_eq!(found[0].id, 3);
    tape.append_anchor("h", "s", "handoff");
    assert_eq!(tape.entry(4).entry_type, "handoff");
    assert_eq!(tape.entry(4).payload, "{\"name\":\"h\",\"state\":\"s\"}");
    tape.append_event("multi", &pairs(&[("v", "one\ntwo\r")]));
    assert_eq!(tape.entry(tape.len() - 1).payload, "event=multi;v=one\\ntwo\\r");
    assert!(!tape.entry(tape.len() - 1).payload.contains('\n'));
}

#[test]
fn tape_file_round_trips() {
    let mut tape = TapeStore::new();
    tape.append_message(&text_message("user", "a\tb\nc"));
    tape.append_event_json("x", &[]);
    let mut text = String::new();
    for e in tape.entries() {
        text.push_str(&entry_line(&e));
        text.push('\n');
    }
    let loaded = TapeStore::load(&text).unwrap();
    assert_eq!(loaded.len(), 2);
    assert_eq!(loaded.entry(0).payload, tape.entry(0).payload);
    assert_eq!(loaded.entry(1).entry_type, "event");
    assert_eq!(loaded.entry(1).id, 2);
}

#[test]
fn tape_load_reads_lines() {
    let tape = TapeStore::load("1\tmessage\tx\ty\r\n\n  \n7\tevent\n").unwrap();
    assert_eq!(tape.len(), 2);
    assert_eq!(tape.entry(0).payload, "x\ty");
    assert_eq!(tape.entry(1).id, 7);
    assert_eq!(tape.entry(1).entry_type, "event");
    assert_eq!(tape.entry(1).payload, "");
    match TapeStore::load("1\ta\tb\nx\ty\tz\n") {
        Err(e) => assert_eq!(e, "invalid digit found in string"),
        Ok(_) => panic!("should fail"),
    }
    match TapeStore::load("\tmessage\tx") {
        Err(e) => assert_eq!(e, "cannot parse integer from empty string"),
        Ok(_) => panic!("should fail"),
    }
    match TapeStore::load("99999999999999999999999\ta\tb") {
        Err(e) => assert_eq!(e, "number too large to fit in target type"),
        Ok(_) => panic!("should fail"),
    }
    assert_eq!(TapeStore::load("").unwrap().len(), 0);
    let e = TapeEntry { id: 12, entry_type: "event".to_string(), payload: "p".to_string() };
    assert_eq!(entry_line(&e), "12\tevent\tp");
    let t = TapeStore::from_entries(vec![e]);
    assert_eq!(t.entry(0).id, 12);
}

#[test]
fn mock_provider_answers_by_keyword() {
    let tools = vec![spec("read", &[("path", true)]), spec("ls", &[]), spec("bash", &[("command", true)])];
    let mut p = MockProvider::new();
    let m = p.generate(&[text_message("user", "Read Cargo.toml")], &tools);
    assert_eq!(extract_text(&m), "I'll read that file.");
    match &m.content[1] {
        ContentItem::ToolCall { id, name, arguments } => {
            assert_eq!(id, "call_1");
            assert_eq!(name, "read");
            assert_eq!(arguments, &pairs(&[("path", "Cargo.toml")]));
        }
        _ => panic!("expected a call"),
    }
    let m = p.generate(&[text_message("user", "please ls")], &tools);
    match &m.content[1] {
        ContentItem::ToolCall { id, name, arguments } => {
            assert_eq!(id, "call_2");
            assert_eq!(name, "ls");
            assert_eq!(arguments, &pairs(&[("path", ".")]));
        }
        _ => panic!("expected a call"),
    }
    let m = p.generate(&[text_message("user", "bash echo HI")], &tools);
    match &m.content[1] {
        ContentItem::ToolCall { name, arguments, .. } => {
            assert_eq!(name, "bash");
            assert_eq!(arguments, &pairs(&[("command", "echo HI")]));
        }
        _ => panic!("expected a call"),
    }
    let m = p.generate(&[text_message("toolResult", "data")], &tools);
    assert_eq!(extract_text(&m), "Tool result:\ndata");
    let m = p.generate(&[], &tools[..1]);
    assert_eq!(
        extract_text(&m),
        "Mock provider active. Try: 'ls', 'read <path>', or 'bash <command>'. Available tools: read."
    );
    let m = p.respond("user", "x", "read a", &[]);
    assert_eq!(m.content.len(), 1);
    assert_eq!(m.role, "assistant");
}

#[test]
fn tool_view_grows_with_hints() {
    let all = vec![
        spec("read", &[]),
        spec("write", &[]),
        spec("edit", &[]),
        spec("bash", &[]),
    ];
    let names = |v: &ProgressiveToolView| -> Vec<String> { v.specs().iter().map(|s| s.name.clone()).collect() };
    let mut view = ProgressiveToolView::new(all);
    assert_eq!(names(&view), vec!["read"]);
    view.activate_hints("Run a COMMAND");
    assert_eq!(names(&view), vec!["read", "bash"]);
    view.activate_hints("edit it");
    assert_eq!(names(&view), vec!["read", "write", "edit", "bash"]);
    let mut view = ProgressiveToolView::new(vec![spec("bash", &[]), spec("write", &[])]);
    assert_eq!(names(&view), Vec::<String>::new());
    view.note_selected("write");
    assert_eq!(names(&view), vec!["write"]);
    view.note_selected("write");
    assert_eq!(names(&view), vec!["write"]);
}

#[test]
fn config_defaults() {
    let limits = LoopLimits::default();
    assert_eq!(limits.max_rounds, 15);
    assert_eq!(limits.context_window, 50);
    assert_eq!(limits.max_tool_calls_per_round, 4);
    let config = AgentConfig::default();
    assert_eq!(config.prompt_version, "v1");
    assert!(config.system_prompt.starts_with("You are SimpleAgent."));
    assert_eq!(config.limits.max_rounds, 15);
}

#[test]
fn extract_text_joins_text_blocks() {
    let m = Message {
        role: "assistant".to_string(),
        content: vec![
            ContentItem::Text("a".to_string()),
            ContentItem::ToolCall { id: "i".to_string(), name: "n".to_string(), arguments: vec![] },
            ContentItem::Text("b".to_string()),
        ],
    };
    assert_eq!(extract_text(&m), "a\nb");
    assert_eq!(extract_text(&Message { role: "x".to_string(), content: vec![] }), "");
}

#[test]
fn ls_lists_entries_in_string_order() {
    let names: Vec<String> = ["b.txt", "B", "a", "ab", "", "é", "z"]
        .iter()
        .map(|s| s.to_string())
        .collect();
    let r = ls_result("/w", &names);
    assert_eq!(r.llm_output, "\nB\na\nab\nb.txt\nz\né");
    let mut expected = names.clone();
    expected.sort();
    assert_eq!(sort_texts(&names), expected);
    assert_eq!(sort_texts(&[]), Vec::<String>::new());
}

//! Provider-facing data: tool specs, messages, the provider trait and the mock provider.
use vstd::prelude::*;

use crate::text::{
    chars_of, concat_str, join, join_strings, lowercase, slice_chars, str_eq, str_starts_with,
    string_of, string_views, to_lowercase, usize_to_string, decimal, has_substring,
    str_contains,
};

verus! {

/// One argument of a tool.
pub struct ToolArgSpec {
    pub name: String,
    pub description: String,
    pub required: bool,
}

pub struct ToolArgSpecView {
    pub name: Seq<char>,
    pub description: Seq<char>,
    pub required: bool,
}

impl View for ToolArgSpec {
    type V = ToolArgSpecView;

    open spec fn view(&self) -> ToolArgSpecView {
        ToolArgSpecView { name: self.name@, description: self.description@, required: self.required }
    }
}

impl Clone for ToolArgSpec {
    fn clone(&self) -> (r: Self)
        ensures
            r@ == self@,
    {
        ToolArgSpec {
            name: self.name.clone(),
            description: self.description.clone(),
            required: self.required,
        }
    }
}

/// A tool as the model sees it: its name, description and arguments.
pub struct ToolSpec {
    pub name: String,
    pub description: String,
    pub args: Vec<ToolArgSpec>,
}

pub struct ToolSpecView {
    pub name: Seq<char>,
    pub description: Seq<char>,
    pub args: Seq<ToolArgSpecView>,
}

pub open spec fn arg_views(args: Seq<ToolArgSpec>) -> Seq<ToolArgSpecView> {
    args.map_values(|a: ToolArgSpec| a@)
}

impl View for ToolSpec {
    type V = ToolSpecView;

    open spec fn view(&self) -> ToolSpecView {
        ToolSpecView { name: self.name@, description: self.description@, args: arg_views(self.args@) }
    }
}

fn clone_args(args: &Vec<ToolArgSpec>) -> (r: Vec<ToolArgSpec>)
    ensures
        arg_views(r@) == arg_views(args@),
{
    let mut r: Vec<ToolArgSpec> = Vec::new();
    for i in 0..args.len()
        invariant
            arg_views(r@) == arg_views(args@).take(i as int),
    {
        let a = args[i].clone();
        let ghost prev = r@;
        r.push(a);
        assert(arg_views(r@) =~= arg_views(prev).push(a@));
        assert(arg_views(args@).take(i + 1) =~= arg_views(args@).take(i as int).push(args@[i as int]@));
    }
    assert(arg_views(args@).take(args@.len() as int) =~= arg_views(args@));
    r
}

impl Clone for ToolSpec {
    fn clone(&self) -> (r: Self)
        ensures
            r@ == self@,
    {
        ToolSpec {
            name: self.name.clone(),
            description: self.description.clone(),
            args: clone_args(&self.args),
        }
    }
}

pub open spec fn spec_views(specs: Seq<ToolSpec>) -> Seq<ToolSpecView> {
    specs.map_values(|s: ToolSpec| s@)
}

/// A copy of a list of tool specs.
pub fn clone_specs(specs: &[ToolSpec]) -> (r: Vec<ToolSpec>)
    ensures
        spec_views(r@) == spec_views(specs@),
{
    let mut r: Vec<ToolSpec> = Vec::new();
    for i in 0..specs.len()
        invariant
            spec_views(r@) == spec_views(specs@).take(i as int),
    {
        let a = specs[i].clone();
        let ghost prev = r@;
        r.push(a);
        assert(spec_views(r@) =~= spec_views(prev).push(a@));
        assert(spec_views(specs@).take(i + 1) =~= spec_views(specs@).take(i as int).push(
            specs@[i as int]@,
        ));
    }
    assert(spec_views(specs@).take(specs@.len() as int) =~= spec_views(specs@));
    r
}

/// The names of a list of tool specs.
pub open spec fn spec_names(specs: Seq<ToolSpecView>) -> Seq<Seq<char>> {
    specs.map_values(|s: ToolSpecView| s.name)
}

/// The names of `specs`, in order.
pub fn tool_names(specs: &[ToolSpec]) -> (r: Vec<String>)
    ensures
        string_views(r@) == spec_names(spec_views(specs@)),
{
    let mut r: Vec<String> = Vec::new();
    for i in 0..specs.len()
        invariant
            string_views(r@) == spec_names(spec_views(specs@)).take(i as int),
    {
        let a = specs[i].name.clone();
        let ghost prev = r@;
        r.push(a);
        assert(string_views(r@) =~= string_views(prev).push(a@));
        assert(spec_names(spec_views(specs@)).take(i + 1) =~= spec_names(spec_views(specs@)).take(
            i as int,
        ).push(specs@[i as int].name@));
    }
    assert(spec_names(spec_views(specs@)).take(specs@.len() as int) =~= spec_names(
        spec_views(specs@),
    ));
    r
}

/// A list of string pairs as sequences.
pub open spec fn pair_views(pairs: Seq<(String, String)>) -> Seq<(Seq<char>, Seq<char>)> {
    pairs.map_values(|p: (String, String)| (p.0@, p.1@))
}

/// A copy of a list of string pairs.
pub fn clone_pairs(pairs: &[(String, String)]) -> (r: Vec<(String, String)>)
    ensures
        pair_views(r@) == pair_views(pairs@),
{
    let mut r: Vec<(String, String)> = Vec::new();
    for i in 0..pairs.len()
        invariant
            pair_views(r@) == pair_views(pairs@).take(i as int),
    {
        let (k, v) = &pairs[i];
        let ghost prev = r@;
        let item = (k.clone(), v.clone());
        r.push(item);
        assert(pair_views(r@) =~= pair_views(prev).push((item.0@, item.1@)));
        assert(pair_views(pairs@).take(i + 1) =~= pair_views(pairs@).take(i as int).push(
            (pairs@[i as int].0@, pairs@[i as int].1@),
        ));
    }
    assert(pair_views(pairs@).take(pairs@.len() as int) =~= pair_views(pairs@));
    r
}

/// One block of a message: text, or a call of a tool.
pub enum ContentItem {
    Text(String),
    ToolCall { id: String, name: String, arguments: Vec<(String, String)> },
}

pub enum ContentItemView {
    Text(Seq<char>),
    ToolCall { id: Seq<char>, name: Seq<char>, arguments: Seq<(Seq<char>, Seq<char>)> },
}

impl View for ContentItem {
    type V = ContentItemView;

    open spec fn view(&self) -> ContentItemView {
        match self {
            ContentItem::Text(t) => ContentItemView::Text(t@),
            ContentItem::ToolCall { id, name, arguments } => ContentItemView::ToolCall {
                id: id@,
                name: name@,
                arguments: pair_views(arguments@),
            },
        }
    }
}

impl Clone for ContentItem {
    fn clone(&self) -> (r: Self)
        ensures
            r@ == self@,
    {
        match self {
            ContentItem::Text(t) => ContentItem::Text(t.clone()),
            ContentItem::ToolCall { id, name, arguments } => ContentItem::ToolCall {
                id: id.clone(),
                name: name.clone(),
                arguments: clone_pairs(arguments.as_slice()),
            },
        }
    }
}

pub open spec fn item_views(items: Seq<ContentItem>) -> Seq<ContentItemView> {
    items.map_values(|c: ContentItem| c@)
}

/// A message of the conversation: a role and its content blocks.
pub struct Message {
    pub role: String,
    pub content: Vec<ContentItem>,
}

pub struct MessageView {
    pub role: Seq<char>,
    pub content: Seq<ContentItemView>,
}

impl View for Message {
    type V = MessageView;

    open spec fn view(&self) -> MessageView {
        MessageView { role: self.role@, content: item_views(self.content@) }
    }
}

fn clone_items(items: &Vec<ContentItem>) -> (r: Vec<ContentItem>)
    ensures
        item_views(r@) == item_views(items@),
{
    let mut r: Vec<ContentItem> = Vec::new();
    for i in 0..items.len()
        invariant
            item_views(r@) == item_views(items@).take(i as int),
    {
        let a = items[i].clone();
        let ghost prev = r@;
        r.push(a);
        assert(item_views(r@) =~= item_views(prev).push(a@));
        assert(item_views(items@).take(i + 1) =~= item_views(items@).take(i as int).push(
            items@[i as int]@,
        ));
    }
    assert(item_views(items@).take(items@.len() as int) =~= item_views(items@));
    r
}

impl Clone for Message {
    fn clone(&self) -> (r: Self)
        ensures
            r@ == self@,
    {
        Message { role: self.role.clone(), content: clone_items(&self.content) }
    }
}

pub open spec fn message_views(msgs: Seq<Message>) -> Seq<MessageView> {
    msgs.map_values(|m: Message| m@)
}

/// The texts of the text blocks of `content`, in order.
pub open spec fn text_blocks(content: Seq<ContentItemView>) -> Seq<Seq<char>> {
    content.filter_map(
        |c: ContentItemView|
            match c {
                ContentItemView::Text(t) => Some(t),
                _ => None,
            },
    )
}

/// The text of a message: its text blocks joined by newlines.
pub open spec fn message_text(m: MessageView) -> Seq<char> {
    join(text_blocks(m.content), "\n"@)
}

/// The text blocks of `message`, joined by newlines.
pub fn extract_text(message: &Message) -> (r: String)
    ensures
        r@ == message_text(message@),
{
    let mut texts: Vec<String> = Vec::new();
    let n = message.content.len();
    let ghost content = message@.content;
    for i in 0..n
        invariant
            n == message.content@.len(),
            content == item_views(message.content@),
            string_views(texts@) == text_blocks(content.take(i as int)),
    {
        let ghost prev = texts@;
        assert(content.take(i + 1) =~= content.take(i as int).push(content[i as int]));
        match &message.content[i] {
            ContentItem::Text(t) => {
                texts.push(t.clone());
            },
            _ => {},
        }
        assert(content.take(i + 1).drop_last() =~= content.take(i as int));
        assert(content.take(i + 1).last() == message.content@[i as int]@);
        assert(string_views(texts@) =~= text_blocks(content.take(i + 1)));
    }
    assert(content.take(n as int) =~= content);
    join_strings(texts.as_slice(), "\n")
}

/// Whether a tool of that name is among `tools`.
pub open spec fn has_tool_spec(tools: Seq<ToolSpecView>, name: Seq<char>) -> bool {
    exists|i: int| 0 <= i < tools.len() && #[trigger] tools[i].name == name
}

/// Whether a tool named `name` is among `tools`.
pub fn has_tool(tools: &[ToolSpec], name: &str) -> (r: bool)
    ensures
        r == has_tool_spec(spec_views(tools@), name@),
{
    let ghost views = spec_views(tools@);
    for i in 0..tools.len()
        invariant
            views == spec_views(tools@),
            forall|k: int| 0 <= k < i ==> views[k].name != name@,
    {
        if str_eq(tools[i].name.as_str(), name) {
            assert(views[i as int].name == name@);
            return true;
        }
    }
    false
}

/// Token counts a provider reports for one generation.
pub struct ProviderUsage {
    pub input_tokens: usize,
    pub output_tokens: usize,
    pub total_tokens: usize,
}

/// One event of a streamed generation.
pub enum StreamEvent {
    TextDelta(String),
    ToolCallDelta { name: String, partial_args: String },
    Done(ProviderUsage),
}

/// A model backend: given the conversation and the visible tools, it answers with a message.
pub trait ModelProvider {
    fn generate(&mut self, messages: &[Message], tools: &[ToolSpec]) -> Message;

    /// The events of a streamed generation; a provider that does not stream gives none.
    fn stream_generate(&mut self, messages: &[Message], tools: &[ToolSpec]) -> (r: Result<
        Vec<StreamEvent>,
        String,
    >)
        default_ensures
            r matches Ok(events) && events@.len() == 0,
    {
        Ok(Vec::new())
    }
}

/// A deterministic provider that answers from keywords of the latest message.
pub struct MockProvider {
    counter: usize,
}

/// A text block of a spec message.
pub open spec fn text_item(t: Seq<char>) -> ContentItemView {
    ContentItemView::Text(t)
}

/// The text after its first five characters (the keyword and its space), as typed.
pub open spec fn after_keyword(text: Seq<char>) -> Seq<char> {
    if text.len() >= 5 {
        text.skip(5)
    } else {
        Seq::<char>::empty()
    }
}

/// What the mock provider answers, given the number of tool calls made so far, the role and
/// text of the latest message, that text lowercased, and the visible tools; with the number
/// of tool calls made after answering. Keywords are matched on the lowercased text; a path
/// or command is taken from the text as typed.
pub open spec fn mock_reply(
    counter: nat,
    role: Seq<char>,
    text: Seq<char>,
    lowered: Seq<char>,
    tools: Seq<ToolSpecView>,
) -> (nat, MessageView) {
    let next = if counter + 1 > usize::MAX {
        0nat
    } else {
        (counter + 1) as nat
    };
    let call = |say: Seq<char>, name: Seq<char>, arg: (Seq<char>, Seq<char>)|
        MessageView {
            role: "assistant"@,
            content: seq![
                text_item(say),
                ContentItemView::ToolCall {
                    id: "call_"@ + decimal(next),
                    name: name,
                    arguments: seq![arg],
                },
            ],
        };
    if role == "toolResult"@ {
        (
            counter,
            MessageView { role: "assistant"@, content: seq![text_item("Tool result:\n"@ + text)] },
        )
    } else if "read "@.is_prefix_of(lowered) && has_tool_spec(tools, "read"@) {
        (
            next,
            call("I'll read that file."@, "read"@, ("path"@, after_keyword(text))),
        )
    } else if has_substring(lowered, "ls"@) && has_tool_spec(tools, "ls"@) {
        (next, call("I'll list the directory."@, "ls"@, ("path"@, "."@)))
    } else if "bash "@.is_prefix_of(lowered) && has_tool_spec(tools, "bash"@) {
        (
            next,
            call(
                "I'll run that command."@,
                "bash"@,
                ("command"@, after_keyword(text)),
            ),
        )
    } else {
        (
            counter,
            MessageView {
                role: "assistant"@,
                content: seq![
                    text_item(
                        "Mock provider active. Try: 'ls', 'read <path>', or 'bash <command>'. Available tools: "@
                            + join(spec_names(tools), ", "@) + "."@,
                    ),
                ],
            },
        )
    }
}

fn text_after_keyword(text: &str) -> (r: String)
    ensures
        r@ == after_keyword(text@),
{
    let v = chars_of(text);
    if v.len() >= 5 {
        let r = string_of(slice_chars(v.as_slice(), 5, v.len()).as_slice());
        assert(r@ =~= text@.skip(5));
        r
    } else {
        String::new()
    }
}

impl MockProvider {
    pub fn new() -> (r: Self)
        ensures
            r.calls() == 0,
    {
        MockProvider { counter: 0 }
    }

    /// The number of tool calls this provider has issued (modulo `usize`).
    pub closed spec fn calls(&self) -> nat {
        self.counter as nat
    }

    fn tool_call(&mut self, text: &str, name: &str, args: Vec<(String, String)>) -> (r: Message)
        ensures
            final(self).calls() == (if old(self).calls() + 1 > usize::MAX {
                0nat
            } else {
                (old(self).calls() + 1) as nat
            }),
            r@ == (MessageView {
                role: "assistant"@,
                content: seq![
                    text_item(text@),
                    ContentItemView::ToolCall {
                        id: "call_"@ + decimal(final(self).calls()),
                        name: name@,
                        arguments: pair_views(args@),
                    },
                ],
            }),
    {
        self.counter = self.counter.wrapping_add(1);
        let id = concat_str("call_", usize_to_string(self.counter).as_str());
        let mut content: Vec<ContentItem> = Vec::new();
        content.push(ContentItem::Text(text.to_owned()));
        content.push(ContentItem::ToolCall { id, name: name.to_owned(), arguments: args });
        let r = Message { role: "assistant".to_owned(), content };
        assert(item_views(r.content@) =~= seq![
            text_item(text@),
            ContentItemView::ToolCall {
                id: "call_"@ + decimal(self.counter as nat),
                name: name@,
                arguments: pair_views(args@),
            },
        ]);
        r
    }

    /// The answer to a latest message with role `role` and text `text`, whose lowercase
    /// form is `lowered`, with `tools` visible.
    pub fn respond(&mut self, role: &str, text: &str, lowered: &str, tools: &[ToolSpec]) -> (r:
        Message)
        ensures
            (final(self).calls(), r@) == mock_reply(
                old(self).calls(),
                role@,
                text@,
                lowered@,
                spec_views(tools@),
            ),
    {
        if str_eq(role, "toolResult") {
            let mut content: Vec<ContentItem> = Vec::new();
            content.push(ContentItem::Text(concat_str("Tool result:\n", text)));
            let r = Message { role: "assistant".to_owned(), content };
            assert(item_views(r.content@) =~= seq![text_item("Tool result:\n"@ + text@)]);
            return r;
        }
        if str_starts_with(lowered, "read ") && has_tool(tools, "read") {
            let path = text_after_keyword(text);
            let mut args: Vec<(String, String)> = Vec::new();
            args.push(("path".to_owned(), path));
            assert(pair_views(args@) =~= seq![("path"@, after_keyword(text@))]);
            return self.tool_call("I'll read that file.", "read", args);
        }
        if str_contains(lowered, "ls") && has_tool(tools, "ls") {
            let mut args: Vec<(String, String)> = Vec::new();
            args.push(("path".to_owned(), ".".to_owned()));
            assert(pair_views(args@) =~= seq![("path"@, "."@)]);
            return self.tool_call("I'll list the directory.", "ls", args);
        }
        if str_starts_with(lowered, "bash ") && has_tool(tools, "bash") {
            let cmd = text_after_keyword(text);
            let mut args: Vec<(String, String)> = Vec::new();
            args.push(("command".to_owned(), cmd));
            assert(pair_views(args@) =~= seq![("command"@, after_keyword(text@))]);
            return self.tool_call("I'll run that command.", "bash", args);
        }
        let names = tool_names(tools);
        let joined = join_strings(names.as_slice(), ", ");
        let head = concat_str(
            "Mock provider active. Try: 'ls', 'read <path>', or 'bash <command>'. Available tools: ",
            joined.as_str(),
        );
        let body = concat_str(head.as_str(), ".");
        let mut content: Vec<ContentItem> = Vec::new();
        content.push(ContentItem::Text(body));
        let r = Message { role: "assistant".to_owned(), content };
        assert(item_views(r.content@) =~= seq![
            text_item(
                "Mock provider active. Try: 'ls', 'read <path>', or 'bash <command>'. Available tools: "@
                    + join(spec_names(spec_views(tools@)), ", "@) + "."@,
            ),
        ]);
        r
    }
}

/// The role and text of the latest of `messages`, or `user` and nothing where there is none.
pub open spec fn latest_role_text(messages: Seq<MessageView>) -> (Seq<char>, Seq<char>) {
    if messages.len() == 0 {
        ("user"@, Seq::<char>::empty())
    } else {
        (messages.last().role, message_text(messages.last()))
    }
}

impl ModelProvider for MockProvider {
    fn generate(&mut self, messages: &[Message], tools: &[ToolSpec]) -> (r: Message)
        ensures
            ({
                let (role, text) = latest_role_text(message_views(messages@));
                (final(self).calls(), r@) == mock_reply(
                    old(self).calls(),
                    role,
                    text,
                    lowercase(text),
                    spec_views(tools@),
                )
            }),
    {
        let (role, text) = if messages.len() == 0 {
            ("user".to_owned(), String::new())
        } else {
            let latest = &messages[messages.len() - 1];
            (latest.role.clone(), extract_text(latest))
        };
        let lowered = to_lowercase(text.as_str());
        self.respond(role.as_str(), text.as_str(), lowered.as_str(), tools)
    }
}

} // verus!

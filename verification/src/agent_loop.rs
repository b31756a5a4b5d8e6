//! The agent loop: routing, commands, and the tool-calling turn, written as a state machine
//! whose tool and shell executions are carried out by the caller.
use vstd::prelude::*;

use crate::context::enc_msgs;
use crate::llm::{
    clone_pairs, extract_text, has_tool_spec, item_views, message_text, message_views, pair_views, spec_names,
    spec_views, text_item, tool_names, ContentItem, ContentItemView, Message, MessageView,
    ModelProvider, ProviderUsage, StreamEvent, ToolSpec, ToolSpecView,
};
use crate::memory::{
    anchor_payload, appended, is_stop_entry, json_plain, last_n, lemma_appended_no_stop,
    lemma_other_event, lemma_stop_event, no_stop_between, stop_prefix, entry_views, json_event, json_str, lemma_append_message_read_back,
    lemma_append_other_keeps_messages, matching, tape_messages, TapeEntry, TapeEntryView,
    TapeStore,
};
use crate::router::{route_of, RouteKind, Router};
use crate::runtime::{profile_name, RuntimeProfile, RuntimeProfileView};
use crate::text::{
    chars_of, concat_str, debug_pairs, decimal, find_char, format_pairs, has_substring, join,
    join_strings, lowercase, parse_usize, parse_usize_str, replace_all, replace_chars, slice_chars,
    split_chars, split_on, split_once, str_contains, str_eq, string_of, string_views, trim,
    trim_chars, trim_str, usize_to_string,
};
use crate::tool_view::{hinted, visible_specs, ProgressiveToolView};
use crate::tools::{
    make_tool_result, name_index, one_pair, text_message, validate_args_spec, AgentToolResult,
    ToolRegistry,
};

verus! {

/// A tool call as it stands in a message: id, tool name, arguments.
pub type ToolCall = (String, String, Vec<(String, String)>);

pub type ToolCallView = (Seq<char>, Seq<char>, Seq<(Seq<char>, Seq<char>)>);

pub open spec fn call_view(c: ToolCall) -> ToolCallView {
    (c.0@, c.1@, pair_views(c.2@))
}

pub open spec fn call_views(cs: Seq<ToolCall>) -> Seq<ToolCallView> {
    cs.map_values(|c: ToolCall| call_view(c))
}

/// The call in a content block, if it is one.
pub open spec fn as_call(c: ContentItemView) -> Option<ToolCallView> {
    match c {
        ContentItemView::ToolCall { id, name, arguments } => Some((id, name, arguments)),
        _ => None,
    }
}

/// The tool calls of a message, in order.
pub open spec fn tool_calls_of(m: MessageView) -> Seq<ToolCallView> {
    m.content.filter_map(|c: ContentItemView| as_call(c))
}

/// The tool calls of `message`, in order.
pub fn collect_tool_calls(message: &Message) -> (r: Vec<ToolCall>)
    ensures
        call_views(r@) == tool_calls_of(message@),
{
    let mut r: Vec<ToolCall> = Vec::new();
    let ghost content = message@.content;
    for i in 0..message.content.len()
        invariant
            content == item_views(message.content@),
            call_views(r@) == content.take(i as int).filter_map(|c: ContentItemView| as_call(c)),
    {
        assert(content.take(i + 1).drop_last() =~= content.take(i as int));
        assert(content.take(i + 1).last() == message.content@[i as int]@);
        match &message.content[i] {
            ContentItem::ToolCall { id, name, arguments } => {
                let c: ToolCall = (id.clone(), name.clone(), clone_pairs(arguments.as_slice()));
                let ghost prev = r@;
                r.push(c);
                assert(call_views(r@) =~= call_views(prev).push(call_view(c)));
            },
            _ => {},
        }
        assert(call_views(r@) =~= content.take(i + 1).filter_map(|c: ContentItemView| as_call(c)));
    }
    assert(content.take(message.content@.len() as int) =~= content);
    r
}

/// How a call is told apart from others: the tool name, `:`, and the arguments as `{:?}`
/// prints them.
pub open spec fn call_signature(name: Seq<char>, args: Seq<(Seq<char>, Seq<char>)>) -> Seq<char> {
    name + ":"@ + debug_pairs(args)
}

/// The signature of a whole plan: its calls' signatures joined by `|`.
pub open spec fn plan_signature(calls: Seq<ToolCallView>) -> Seq<char> {
    join(calls.map_values(|c: ToolCallView| call_signature(c.1, c.2)), "|"@)
}

fn call_signature_exec(name: &str, args: &[(String, String)]) -> (r: String)
    ensures
        r@ == call_signature(name@, pair_views(args@)),
{
    let head = concat_str(name, ":");
    assert(args.deep_view() =~= pair_views(args@));
    concat_str(head.as_str(), format_pairs(args).as_str())
}

/// The signature of a tool plan.
pub fn signature_for_plan(tool_calls: &[ToolCall]) -> (r: String)
    ensures
        r@ == plan_signature(call_views(tool_calls@)),
{
    let ghost cv = call_views(tool_calls@);
    let ghost sigs = cv.map_values(|c: ToolCallView| call_signature(c.1, c.2));
    let mut parts: Vec<String> = Vec::new();
    for i in 0..tool_calls.len()
        invariant
            cv == call_views(tool_calls@),
            sigs == cv.map_values(|c: ToolCallView| call_signature(c.1, c.2)),
            string_views(parts@) == sigs.take(i as int),
    {
        let c = &tool_calls[i];
        let s = call_signature_exec(c.1.as_str(), c.2.as_slice());
        let ghost prev = parts@;
        parts.push(s);
        assert(string_views(parts@) =~= string_views(prev).push(s@));
        assert(sigs.take(i + 1) =~= sigs.take(i as int).push(sigs[i as int]));
    }
    assert(sigs.take(tool_calls@.len() as int) =~= sigs);
    join_strings(parts.as_slice(), "|")
}

/// A `key=value` segment as a pair of trimmed texts; none for a segment without `=` or
/// with an empty key.
pub open spec fn partial_pair(segment: Seq<char>) -> Option<(Seq<char>, Seq<char>)> {
    match split_once(segment, '=') {
        Some((k, v)) => if trim(k).len() == 0 {
            None
        } else {
            Some((trim(k), trim(v)))
        },
        None => None,
    }
}

/// The `key=value` pairs of a comma-separated, possibly incomplete argument text.
pub open spec fn partial_arg_pairs(partial: Seq<char>) -> Seq<(Seq<char>, Seq<char>)> {
    split_on(partial, ',').filter_map(|s: Seq<char>| partial_pair(s))
}

/// The `key=value` pairs of a comma-separated, possibly incomplete argument text.
pub fn parse_partial_args(partial: &str) -> (r: Vec<(String, String)>)
    ensures
        pair_views(r@) == partial_arg_pairs(partial@),
{
    let v = chars_of(partial);
    let segments = split_chars(v.as_slice(), ',');
    let ghost sv = segments@.map_values(|x: Vec<char>| x@);
    assert(sv == split_on(partial@, ','));
    let mut r: Vec<(String, String)> = Vec::new();
    for i in 0..segments.len()
        invariant
            sv == segments@.map_values(|x: Vec<char>| x@),
            pair_views(r@) == sv.take(i as int).filter_map(|s: Seq<char>| partial_pair(s)),
    {
        let seg = &segments[i];
        assert(sv.take(i + 1).drop_last() =~= sv.take(i as int));
        assert(sv.take(i + 1).last() == seg@);
        assert(seg@.len() == seg.len());
        match find_char(seg.as_slice(), '=') {
            Some(j) => {
                let k = slice_chars(seg.as_slice(), 0, j);
                let val = slice_chars(seg.as_slice(), j + 1, seg.len());
                assert(k@ =~= seg@.take(j as int));
                assert(val@ =~= seg@.skip(j + 1));
                let kt = trim_chars(k.as_slice());
                if kt.len() > 0 {
                    let vt = trim_chars(val.as_slice());
                    let item = (string_of(kt.as_slice()), string_of(vt.as_slice()));
                    let ghost prev = r@;
                    r.push(item);
                    assert(pair_views(r@) =~= pair_views(prev).push((item.0@, item.1@)));
                }
            },
            None => {},
        }
        assert(pair_views(r@) =~= sv.take(i + 1).filter_map(|s: Seq<char>| partial_pair(s)));
    }
    assert(sv.take(segments@.len() as int) =~= sv);
    r
}

/// `s` (non-empty) cut into pieces of `k` characters, the last one possibly shorter.
pub open spec fn chunks_of(s: Seq<char>, k: nat) -> Seq<Seq<char>>
    decreases s.len(),
{
    if k == 0 || s.len() <= k {
        seq![s]
    } else {
        seq![s.take(k as int)] + chunks_of(s.skip(k as int), k)
    }
}

/// What `chunk_text` gives: one empty piece for an empty text, else pieces of at most
/// `max_chars` characters (of one character where `max_chars` is zero).
pub open spec fn chunks_spec(s: Seq<char>, max_chars: nat) -> Seq<Seq<char>> {
    if s.len() == 0 {
        seq![Seq::<char>::empty()]
    } else {
        chunks_of(s, if max_chars == 0 {
            1
        } else {
            max_chars
        })
    }
}

/// Cutting into pieces of `k` loses and adds nothing: the pieces put back together are
/// the text, and none is longer than `k`.
proof fn lemma_chunks_of_rebuild(s: Seq<char>, k: nat)
    requires
        k > 0,
    ensures
        chunks_of(s, k).flatten() == s,
        forall|i: int| 0 <= i < chunks_of(s, k).len() ==> #[trigger] chunks_of(s, k)[i].len() <= k,
        forall|i: int| 0 <= i < chunks_of(s, k).len() - 1 ==> #[trigger] chunks_of(s, k)[i].len() == k,
    decreases s.len(),
{
    if s.len() <= k {
        assert(chunks_of(s, k) =~= seq![s]);
        seq![s].lemma_flatten_one_element();
    } else {
        let rest = chunks_of(s.skip(k as int), k);
        lemma_chunks_of_rebuild(s.skip(k as int), k);
        let all = seq![s.take(k as int)] + rest;
        assert(all.first() == s.take(k as int));
        assert(all.drop_first() =~= rest);
        assert(all.flatten() == all.first() + all.drop_first().flatten());
        assert(s.take(k as int) + s.skip(k as int) =~= s);
        assert forall|i: int| 0 <= i < all.len() implies #[trigger] all[i].len() <= k by {
            if i > 0 {
                assert(all[i] == rest[i - 1]);
            }
        }
        assert forall|i: int| 0 <= i < all.len() - 1 implies #[trigger] all[i].len() == k by {
            if i > 0 {
                assert(all[i] == rest[i - 1]);
            }
        }
    }
}

/// Chunking a text loses nothing: its chunks, put back together, are the text, none
/// holds more than `max_chars` characters (one, where `max_chars` is zero), and every
/// chunk but the last holds exactly that many.
pub proof fn lemma_chunks_rebuild(s: Seq<char>, max_chars: nat)
    ensures
        chunks_spec(s, max_chars).flatten() == s,
        forall|i: int|
            0 <= i < chunks_spec(s, max_chars).len() ==> #[trigger] chunks_spec(s, max_chars)[i].len()
                <= (if max_chars == 0 {
                1
            } else {
                max_chars
            }),
        forall|i: int|
            0 <= i < chunks_spec(s, max_chars).len() - 1 ==> #[trigger] chunks_spec(s, max_chars)[i].len()
                == (if max_chars == 0 {
                1
            } else {
                max_chars
            }),
{
    let k: nat = if max_chars == 0 {
        1
    } else {
        max_chars
    };
    if s.len() == 0 {
        let e = seq![Seq::<char>::empty()];
        e.lemma_flatten_one_element();
    } else {
        lemma_chunks_of_rebuild(s, k);
    }
}

/// `text` cut into pieces of at most `max_chars` characters.
pub fn chunk_text(text: &str, max_chars: usize) -> (r: Vec<String>)
    ensures
        string_views(r@) == chunks_spec(text@, max_chars as nat),
{
    let v = chars_of(text);
    let mut r: Vec<String> = Vec::new();
    if v.len() == 0 {
        r.push(String::new());
        assert(string_views(r@) =~= seq![Seq::<char>::empty()]);
        return r;
    }
    let k: usize = if max_chars == 0 {
        1
    } else {
        max_chars
    };
    let n = v.len();
    let mut i: usize = 0;
    assert(v@.skip(0) =~= v@);
    assert(string_views(r@) + chunks_of(v@.skip(0), k as nat) =~= chunks_of(v@, k as nat));
    while i < n
        invariant
            n == v@.len(),
            v@ == text@,
            k > 0,
            k == (if max_chars == 0 {
                1
            } else {
                max_chars
            }),
            i < n,
            string_views(r@) + chunks_of(v@.skip(i as int), k as nat) == chunks_of(v@, k as nat),
        decreases n - i,
    {
        let ghost t = v@.skip(i as int);
        if n - i <= k {
            let piece = string_of(slice_chars(v.as_slice(), i, n).as_slice());
            assert(piece@ =~= t);
            let ghost prev = r@;
            r.push(piece);
            assert(string_views(r@) =~= string_views(prev).push(piece@));
            assert(string_views(r@) =~= chunks_of(v@, k as nat));
            return r;
        }
        let piece = string_of(slice_chars(v.as_slice(), i, i + k).as_slice());
        assert(piece@ =~= t.take(k as int));
        assert(t.skip(k as int) =~= v@.skip(i + k));
        let ghost prev = r@;
        r.push(piece);
        assert(string_views(r@) =~= string_views(prev).push(piece@));
        assert(string_views(r@) + chunks_of(v@.skip(i + k), k as nat) =~= chunks_of(v@, k as nat));
        i = i + k;
    }
    r
}

/// The bytes UTF-8 needs for `c`.
pub open spec fn char_width(c: char) -> nat {
    let u = c as u32;
    if u < 0x80 {
        1
    } else if u < 0x800 {
        2
    } else if u < 0x10000 {
        3
    } else {
        4
    }
}

/// The length of `s` in UTF-8 bytes, as `str::len` counts it.
pub open spec fn utf8_len(s: Seq<char>) -> nat
    decreases s.len(),
{
    if s.len() == 0 {
        0
    } else {
        utf8_len(s.drop_last()) + char_width(s.last())
    }
}

/// A payload on one line: newlines shown as spaces.
pub open spec fn preview(payload: Seq<char>) -> Seq<char> {
    replace_all(payload, "\n"@, " "@)
}

/// Whether a payload's preview can be cut after 140 bytes: it is no longer, or its first
/// 140 bytes end on a character boundary.
pub open spec fn compact_ok(payload: Seq<char>) -> bool {
    let p = preview(payload);
    utf8_len(p) <= 140 || exists|k: int| 0 <= k <= p.len() && #[trigger] utf8_len(p.take(k)) == 140
}

/// A payload as a trace shows it: its preview, cut after 140 bytes with `...` added.
pub open spec fn compact(payload: Seq<char>) -> Seq<char> {
    let p = preview(payload);
    if utf8_len(p) <= 140 {
        p
    } else {
        p.take(choose|k: int| 0 <= k <= p.len() && #[trigger] utf8_len(p.take(k)) == 140) + "..."@
    }
}

/// The positions of the entries that mark the start of a turn.
pub open spec fn turn_markers(entries: Seq<TapeEntryView>) -> Seq<int>
    decreases entries.len(),
{
    if entries.len() == 0 {
        Seq::<int>::empty()
    } else if is_turn_marker(entries.last()) {
        turn_markers(entries.drop_last()).push(entries.len() - 1)
    } else {
        turn_markers(entries.drop_last())
    }
}

/// Whether an entry is a `turn_start` event.
pub open spec fn is_turn_marker(e: TapeEntryView) -> bool {
    e.entry_type == "event"@ && has_substring(e.payload, "\"event\":\"turn_start\""@)
}

/// The turn a `/trace` argument asks for: the last one when it is blank, else the number.
pub open spec fn requested_turn(args: Seq<char>, n: nat) -> Option<nat> {
    let a = trim(args);
    if a.len() == 0 {
        Some(n)
    } else {
        match parse_usize(a) {
            Some(v) => Some(v as nat),
            None => None,
        }
    }
}

/// The entries a turn covers: from its marker to just before the next one (or the end).
pub open spec fn turn_span(entries: Seq<TapeEntryView>, r: nat) -> (int, int) {
    let markers = turn_markers(entries);
    let start = markers[r - 1];
    let end = if r < markers.len() {
        markers[r as int] - 1
    } else {
        entries.len() - 1
    };
    (start, end)
}

/// One line of a trace.
pub open spec fn trace_line(e: TapeEntryView) -> Seq<char> {
    "- #"@ + decimal(e.id) + " ["@ + e.entry_type + "] "@ + compact(e.payload)
}

/// What `/trace <args>` shows.
pub open spec fn trace_spec(entries: Seq<TapeEntryView>, args: Seq<char>) -> Result<Seq<char>, Seq<char>> {
    let markers = turn_markers(entries);
    let n = markers.len();
    if n == 0 {
        Ok("No trace data yet. Send a normal prompt first."@)
    } else {
        match requested_turn(args, n) {
            None => Err("Usage: /trace [turn_number]"@),
            Some(r) => if r == 0 || r > n {
                Ok("Turn "@ + decimal(r) + " not found. Valid turn range: 1..="@ + decimal(n))
            } else {
                let (start, end) = turn_span(entries, r);
                let header = "Trace for turn "@ + decimal(r) + " (entries #"@ + decimal(
                    entries[start].id,
                ) + "..#"@ + decimal(entries[end].id) + "):"@;
                Ok(
                    join(
                        seq![header] + Seq::new(
                            (end - start + 1) as nat,
                            |j: int| trace_line(entries[start + j]),
                        ),
                        "\n"@,
                    ),
                )
            },
        }
    }
}

/// Whether `/trace <args>` can show every entry of the turn it selects.
pub open spec fn trace_renderable(entries: Seq<TapeEntryView>, args: Seq<char>) -> bool {
    let n = turn_markers(entries).len();
    match requested_turn(args, n) {
        Some(r) => (n > 0 && 0 < r <= n) ==> {
            let (start, end) = turn_span(entries, r);
            forall|j: int| start <= j <= end ==> compact_ok(#[trigger] entries[j].payload)
        },
        None => true,
    }
}

proof fn lemma_markers_sorted(entries: Seq<TapeEntryView>)
    ensures
        forall|a: int, b: int|
            0 <= a < b < turn_markers(entries).len() ==> turn_markers(entries)[a]
                < turn_markers(entries)[b],
        forall|a: int|
            0 <= a < turn_markers(entries).len() ==> 0 <= #[trigger] turn_markers(entries)[a]
                < entries.len(),
        forall|a: int|
            0 <= a < turn_markers(entries).len() ==> is_turn_marker(
                entries[#[trigger] turn_markers(entries)[a]],
            ),
    decreases entries.len(),
{
    if entries.len() > 0 {
        let d = entries.drop_last();
        lemma_markers_sorted(d);
        assert forall|a: int| 0 <= a < turn_markers(d).len() implies entries[turn_markers(d)[a]]
            == d[turn_markers(d)[a]] by {}
    }
}

fn turn_marker_positions(entries: &Vec<TapeEntry>) -> (r: Vec<usize>)
    ensures
        r@.map_values(|i: usize| i as int) == turn_markers(entry_views(entries@)),
{
    let ghost ev = entry_views(entries@);
    let mut r: Vec<usize> = Vec::new();
    for i in 0..entries.len()
        invariant
            ev == entry_views(entries@),
            r@.map_values(|i: usize| i as int) == turn_markers(ev.take(i as int)),
    {
        assert(ev.take(i + 1).drop_last() =~= ev.take(i as int));
        assert(ev.take(i + 1).last() == entries@[i as int]@);
        let e = &entries[i];
        if str_eq(e.entry_type.as_str(), "event") && str_contains(
            e.payload.as_str(),
            "\"event\":\"turn_start\"",
        ) {
            let ghost prev = r@;
            r.push(i);
            assert(r@.map_values(|i: usize| i as int) =~= prev.map_values(|i: usize| i as int).push(
                i as int,
            ));
        }
    }
    assert(ev.take(entries@.len() as int) =~= ev);
    r
}

/// The width of `c` in UTF-8.
fn char_width_exec(c: char) -> (w: usize)
    ensures
        w == char_width(c),
{
    let u = c as u32;
    if u < 0x80 {
        1
    } else if u < 0x800 {
        2
    } else if u < 0x10000 {
        3
    } else {
        4
    }
}

/// A payload as a trace shows it.
fn compact_exec(payload: &str) -> (r: String)
    requires
        compact_ok(payload@),
    ensures
        r@ == compact(payload@),
{
    let raw = chars_of(payload);
    let nl = chars_of("\n");
    let sp = chars_of(" ");
    let p = replace_chars(raw.as_slice(), nl.as_slice(), sp.as_slice());
    let ghost pv = preview(payload@);
    assert(p@ == pv);
    let mut bytes: usize = 0;
    let mut i: usize = 0;
    assert(p@.take(0) =~= Seq::<char>::empty());
    while i < p.len() && bytes < 140
        invariant
            p@ == pv,
            pv == preview(payload@),
            compact_ok(payload@),
            i <= p@.len(),
            bytes == utf8_len(p@.take(i as int)),
            bytes <= 140,
            forall|k: int| 0 <= k < i ==> #[trigger] utf8_len(p@.take(k)) < 140,
        decreases p@.len() - i,
    {
        assert(p@.take(i + 1).drop_last() =~= p@.take(i as int));
        let w = char_width_exec(p[i]);
        if bytes + w > 140 {
            proof {
                lemma_utf8_len_grows(p@, i as int + 1);
                assert(!(exists|k: int| 0 <= k <= p@.len() && #[trigger] utf8_len(p@.take(k)) == 140)) by {
                    assert forall|k: int| 0 <= k <= p@.len() implies #[trigger] utf8_len(p@.take(k)) != 140 by {
                        if k > i {
                            lemma_utf8_len_mono(p@, i + 1, k);
                        }
                    }
                }
                lemma_utf8_len_mono(p@, i + 1, p@.len() as int);
                assert(p@.take(p@.len() as int) =~= p@);
            }
            assert(false);
            return string_of(p.as_slice());
        }
        bytes = bytes + w;
        i = i + 1;
    }
    if bytes < 140 {
        assert(p@.take(p@.len() as int) =~= p@);
        return string_of(p.as_slice());
    }
    proof {
        if i < p@.len() {
            lemma_utf8_len_mono(p@, i as int, p@.len() as int);
        }
        assert(p@.take(p@.len() as int) =~= p@);
    }
    if i == p.len() {
        return string_of(p.as_slice());
    }
    let head = string_of(slice_chars(p.as_slice(), 0, i).as_slice());
    proof {
        let k = choose|k: int| 0 <= k <= pv.len() && #[trigger] utf8_len(pv.take(k)) == 140;
        if k < i {
            assert(utf8_len(p@.take(k)) < 140);
        }
        if k > i {
            lemma_utf8_len_grows(p@, i as int + 1);
            lemma_utf8_len_mono(p@, i + 1, k);
        }
        assert(head@ =~= pv.take(k));
    }
    concat_str(head.as_str(), "...")
}

proof fn lemma_utf8_len_grows(s: Seq<char>, j: int)
    requires
        0 < j <= s.len(),
    ensures
        utf8_len(s.take(j)) == utf8_len(s.take(j - 1)) + char_width(s[j - 1]),
        utf8_len(s.take(j)) > utf8_len(s.take(j - 1)),
{
    assert(s.take(j).drop_last() =~= s.take(j - 1));
}

proof fn lemma_utf8_len_mono(s: Seq<char>, i: int, j: int)
    requires
        0 <= i <= j <= s.len(),
    ensures
        utf8_len(s.take(i)) <= utf8_len(s.take(j)),
        i < j ==> utf8_len(s.take(i)) < utf8_len(s.take(j)),
    decreases j - i,
{
    if i < j {
        lemma_utf8_len_grows(s, j);
        lemma_utf8_len_mono(s, i, j - 1);
    }
}

fn trace_line_exec(e: &TapeEntry) -> (r: String)
    requires
        compact_ok(e@.payload),
    ensures
        r@ == trace_line(e@),
{
    let a = concat_str("- #", usize_to_string(e.id).as_str());
    let b = concat_str(a.as_str(), " [");
    let c = concat_str(b.as_str(), e.entry_type.as_str());
    let d = concat_str(c.as_str(), "] ");
    concat_str(d.as_str(), compact_exec(e.payload.as_str()).as_str())
}

/// The position range `(start, end)` of the turn `requested`, read off the markers.
fn span_of(markers: &Vec<usize>, total: usize, requested: usize, ghost_ev: Ghost<Seq<TapeEntryView>>) -> (r: (usize, usize))
    requires
        total == ghost_ev@.len(),
        markers@.map_values(|i: usize| i as int) == turn_markers(ghost_ev@),
        0 < requested <= markers@.len(),
    ensures
        (r.0 as int, r.1 as int) == turn_span(ghost_ev@, requested as nat),
        r.0 <= r.1 < total,
{
    let ghost ev = ghost_ev@;
    let ghost mk = turn_markers(ev);
    proof {
        lemma_markers_sorted(ev);
        assert(markers@.map_values(|i: usize| i as int)[requested - 1] == markers@[requested - 1] as int);
    }
    let n = markers.len();
    let start = markers[requested - 1];
    let end = if requested < n {
        proof {
            assert(markers@.map_values(|i: usize| i as int)[requested as int] == markers@[requested as int] as int);
            assert(mk[requested - 1] < mk[requested as int]);
        }
        markers[requested] - 1
    } else {
        total - 1
    };
    (start, end)
}

fn trace_body(entries: &Vec<TapeEntry>, start: usize, end: usize) -> (r: Vec<String>)
    requires
        start <= end < entries@.len(),
        forall|x: int| start <= x <= end ==> compact_ok(#[trigger] entries@[x]@.payload),
    ensures
        string_views(r@) == Seq::new(
            (end - start + 1) as nat,
            |j: int| trace_line(entry_views(entries@)[start + j]),
        ),
{
    let ghost ev = entry_views(entries@);
    let ghost body = Seq::new((end - start + 1) as nat, |j: int| trace_line(ev[start + j]));
    let total = entries.len();
    let mut lines: Vec<String> = Vec::new();
    let mut j = start;
    while j <= end
        invariant
            start <= j <= end + 1,
            end < total == entries@.len(),
            ev == entry_views(entries@),
            body == Seq::new((end - start + 1) as nat, |j: int| trace_line(ev[start + j])),
            forall|x: int| start <= x <= end ==> compact_ok(#[trigger] entries@[x]@.payload),
            string_views(lines@) == body.take(j - start),
        decreases end + 1 - j,
    {
        assert(ev[j as int] == entries@[j as int]@);
        let line = trace_line_exec(&entries[j]);
        let ghost prev = lines@;
        lines.push(line);
        assert(string_views(lines@) =~= string_views(prev).push(line@));
        assert(body.take(j - start + 1) =~= body.take(j - start).push(body[j - start]));
        j = j + 1;
    }
    assert(body.take(end - start + 1) =~= body);
    lines
}

fn trace_header(requested: usize, first: usize, last: usize) -> (r: String)
    ensures
        r@ == "Trace for turn "@ + decimal(requested as nat) + " (entries #"@ + decimal(first as nat)
            + "..#"@ + decimal(last as nat) + "):"@,
{
    let h1 = concat_str("Trace for turn ", usize_to_string(requested).as_str());
    let h2 = concat_str(h1.as_str(), " (entries #");
    let h3 = concat_str(h2.as_str(), usize_to_string(first).as_str());
    let h4 = concat_str(h3.as_str(), "..#");
    let h5 = concat_str(h4.as_str(), usize_to_string(last).as_str());
    concat_str(h5.as_str(), "):")
}

/// The turn asked for by `args`, when there are `n` turns.
fn requested_turn_exec(args: &str, n: usize) -> (r: Option<usize>)
    ensures
        match requested_turn(args@, n as nat) {
            Some(v) => r == Some(v as usize) && v <= usize::MAX,
            None => r is None,
        },
{
    let a = trim_str(args);
    if a.as_str().is_empty() {
        Some(n)
    } else {
        parse_usize_str(a.as_str())
    }
}

/// What `/trace <args>` shows for `tape`.
pub fn trace_of(tape: &TapeStore, args: &str) -> (r: Result<String, String>)
    requires
        trace_renderable(tape@, args@),
    ensures
        match trace_spec(tape@, args@) {
            Ok(t) => r matches Ok(s) && s@ == t,
            Err(m) => r matches Err(e) && e@ == m,
        },
{
    let entries = tape.entries();
    let ghost ev = entry_views(entries@);
    let markers = turn_marker_positions(&entries);
    assert(markers@.len() == turn_markers(ev).len());
    let n = markers.len();
    if n == 0 {
        return Ok("No trace data yet. Send a normal prompt first.".to_owned());
    }
    let requested = match requested_turn_exec(args, n) {
        Some(v) => v,
        None => {
            return Err("Usage: /trace [turn_number]".to_owned());
        },
    };
    if requested == 0 || requested > n {
        let x = concat_str("Turn ", usize_to_string(requested).as_str());
        let y = concat_str(x.as_str(), " not found. Valid turn range: 1..=");
        return Ok(concat_str(y.as_str(), usize_to_string(n).as_str()));
    }
    let (start, end) = span_of(&markers, entries.len(), requested, Ghost(ev));
    assert forall|x: int| start <= x <= end implies compact_ok(#[trigger] entries@[x]@.payload) by {
        assert(ev[x] == entries@[x]@);
    }
    let header = trace_header(requested, entries[start].id, entries[end].id);
    let body = trace_body(&entries, start, end);
    let mut lines: Vec<String> = Vec::new();
    lines.push(header);
    let mut body = body;
    let ghost bv = string_views(body@);
    lines.append(&mut body);
    assert(string_views(lines@) =~= seq![header@] + bv);
    Ok(join_strings(lines.as_slice(), "\n"))
}

/// Whether `/trace <args>` can be shown for `tape` (each entry of the selected turn can
/// be cut after 140 bytes on a character boundary).
pub fn trace_is_renderable(tape: &TapeStore, args: &str) -> (r: bool)
    ensures
        r == trace_renderable(tape@, args@),
{
    let entries = tape.entries();
    let ghost ev = entry_views(entries@);
    let markers = turn_marker_positions(&entries);
    let n = markers.len();
    let requested = match requested_turn_exec(args, n) {
        Some(v) => v,
        None => {
            return true;
        },
    };
    if n == 0 || requested == 0 || requested > n {
        return true;
    }
    let (start, end) = span_of(&markers, entries.len(), requested, Ghost(ev));
    let total = entries.len();
    let mut j = start;
    assert(markers@.len() == turn_markers(ev).len());
    while j <= end
        invariant
            start <= j <= end + 1,
            end < total == entries@.len(),
            ev == entry_views(entries@),
            ev == tape@,
            n == turn_markers(ev).len(),
            requested_turn(args@, n as nat) == Some(requested as nat),
            0 < requested <= n,
            (start as int, end as int) == turn_span(ev, requested as nat),
            forall|x: int| start <= x < j ==> compact_ok(#[trigger] ev[x].payload),
        decreases end + 1 - j,
    {
        assert(ev[j as int] == entries@[j as int]@);
        if !payload_compactable(entries[j].payload.as_str()) {
            assert(!compact_ok(ev[j as int].payload));
            assert(start <= j <= end);
            assert(!(forall|x: int| start <= x <= end ==> compact_ok(#[trigger] ev[x].payload)));
            return false;
        }
        j = j + 1;
    }
    true
}

fn payload_compactable(payload: &str) -> (r: bool)
    ensures
        r == compact_ok(payload@),
{
    let raw = chars_of(payload);
    let nl = chars_of("\n");
    let sp = chars_of(" ");
    let p = replace_chars(raw.as_slice(), nl.as_slice(), sp.as_slice());
    let ghost pv = preview(payload@);
    let mut bytes: usize = 0;
    let mut i: usize = 0;
    assert(p@.take(0) =~= Seq::<char>::empty());
    while i < p.len() && bytes < 140
        invariant
            p@ == pv,
            pv == preview(payload@),
            i <= p@.len(),
            bytes == utf8_len(p@.take(i as int)),
            bytes <= 140,
            forall|k: int| 0 <= k < i ==> #[trigger] utf8_len(p@.take(k)) < 140,
        decreases p@.len() - i,
    {
        assert(p@.take(i + 1).drop_last() =~= p@.take(i as int));
        let w = char_width_exec(p[i]);
        if bytes + w > 140 {
            proof {
                lemma_utf8_len_grows(p@, i as int + 1);
                assert forall|k: int| 0 <= k <= p@.len() implies #[trigger] utf8_len(p@.take(k))
                    != 140 by {
                    if k > i {
                        lemma_utf8_len_mono(p@, i + 1, k);
                    }
                }
                lemma_utf8_len_mono(p@, i + 1, p@.len() as int);
                assert(p@.take(p@.len() as int) =~= p@);
            }
            return false;
        }
        bytes = bytes + w;
        i = i + 1;
    }
    proof {
        if bytes < 140 {
            assert(p@.take(p@.len() as int) =~= p@);
        } else {
            assert(utf8_len(p@.take(i as int)) == 140);
        }
    }
    true
}

/// The text of `/help`.
pub open spec fn help_text() -> Seq<char> {
    "Commands:\n/help\n/tools\n/trace [turn]\n/tape.search <query>\n/handoff [name]\n/handoff.list\n!<shell command>"@
}

/// One line of `/tools`.
pub open spec fn tool_line(s: ToolSpecView) -> Seq<char> {
    "- "@ + s.name + ": "@ + s.description
}

/// What `/tools` shows: one line per registered tool.
pub open spec fn tools_listing(reg: Seq<ToolSpecView>) -> Seq<char> {
    join(reg.map_values(|s: ToolSpecView| tool_line(s)), "\n"@)
}

/// One line of `/tape.search`.
pub open spec fn search_line(e: TapeEntryView) -> Seq<char> {
    "#"@ + decimal(e.id) + " ["@ + e.entry_type + "] "@ + e.payload
}

/// What `/tape.search <query>` shows: the first 20 matching entries.
pub open spec fn search_listing(tape: Seq<TapeEntryView>, query: Seq<char>) -> Seq<char> {
    let res = matching(tape, query);
    if res.len() == 0 {
        "No tape entries matched."@
    } else {
        let shown = if res.len() <= 20 {
            res
        } else {
            res.take(20)
        };
        join(shown.map_values(|e: TapeEntryView| search_line(e)), "\n"@)
    }
}

/// The handoff anchors of the tape, in order.
pub open spec fn handoffs(tape: Seq<TapeEntryView>) -> Seq<TapeEntryView>
    decreases tape.len(),
{
    if tape.len() == 0 {
        Seq::<TapeEntryView>::empty()
    } else if tape.last().entry_type == "handoff"@ {
        handoffs(tape.drop_last()).push(tape.last())
    } else {
        handoffs(tape.drop_last())
    }
}

/// Whether an entry is a handoff anchor.
pub open spec fn handoff_entry() -> spec_fn(TapeEntryView) -> bool {
    |e: TapeEntryView| e.entry_type == "handoff"@
}

/// The handoffs of a tape are all its entries of type `handoff`, each once, in tape order.
pub proof fn lemma_handoffs_are_all_anchors(tape: Seq<TapeEntryView>)
    ensures
        handoffs(tape) == tape.filter(handoff_entry()),
    decreases tape.len(),
{
    reveal(Seq::filter);
    if tape.len() > 0 {
        lemma_handoffs_are_all_anchors(tape.drop_last());
    }
}

/// A blank `/trace` argument asks for the last turn on the tape: it shows what asking for
/// that turn by its number shows.
pub proof fn lemma_blank_trace_is_last_turn(entries: Seq<TapeEntryView>, args: Seq<char>)
    requires
        trim(args).len() == 0,
        turn_markers(entries).len() <= usize::MAX,
    ensures
        requested_turn(args, turn_markers(entries).len()) == Some(turn_markers(entries).len()),
        trace_spec(entries, args) == trace_spec(entries, decimal(turn_markers(entries).len())),
{
    let n = turn_markers(entries).len();
    crate::text::lemma_trim_decimal(n);
    crate::text::lemma_decimal_digits(n);
    crate::text::lemma_parse_decimal(n);
    assert(requested_turn(decimal(n), n) == Some(n));
}

/// One line of `/handoff.list`.
pub open spec fn handoff_line(e: TapeEntryView) -> Seq<char> {
    "#"@ + decimal(e.id) + " "@ + e.payload
}

/// What `/handoff.list` shows.
pub open spec fn handoff_listing(tape: Seq<TapeEntryView>) -> Seq<char> {
    let hs = handoffs(tape);
    if hs.len() == 0 {
        "No handoff anchors yet. Use /handoff [name]."@
    } else {
        join(hs.map_values(|e: TapeEntryView| handoff_line(e)), "\n"@)
    }
}

/// The name a handoff gets: the trimmed argument, or `handoff-<entries>` when it is blank.
pub open spec fn handoff_name(args: Seq<char>, before: nat) -> Seq<char> {
    if trim(args).len() == 0 {
        "handoff-"@ + decimal(before)
    } else {
        trim(args)
    }
}

/// What `/handoff <args>` answers.
pub open spec fn handoff_reply(name: Seq<char>, before: nat) -> Seq<char> {
    "✅ handoff '"@ + name + "' created at tape entry #"@ + decimal(before)
        + ".\nUse /trace for recent activity or /handoff.list to inspect saved anchors."@
}

fn tools_listing_exec(specs: &Vec<ToolSpec>) -> (r: String)
    ensures
        r@ == tools_listing(spec_views(specs@)),
{
    let ghost lines = spec_views(specs@).map_values(|s: ToolSpecView| tool_line(s));
    let mut out: Vec<String> = Vec::new();
    for i in 0..specs.len()
        invariant
            lines == spec_views(specs@).map_values(|s: ToolSpecView| tool_line(s)),
            string_views(out@) == lines.take(i as int),
    {
        let a = concat_str("- ", specs[i].name.as_str());
        let b = concat_str(a.as_str(), ": ");
        let line = concat_str(b.as_str(), specs[i].description.as_str());
        let ghost prev = out@;
        out.push(line);
        assert(string_views(out@) =~= string_views(prev).push(line@));
        assert(lines.take(i + 1) =~= lines.take(i as int).push(lines[i as int]));
    }
    assert(lines.take(specs@.len() as int) =~= lines);
    join_strings(out.as_slice(), "\n")
}

fn search_listing_exec(tape: &TapeStore, query: &str) -> (r: String)
    ensures
        r@ == search_listing(tape@, query@),
{
    let res = tape.search(query);
    let ghost rv = entry_views(res@);
    if res.len() == 0 {
        return "No tape entries matched.".to_owned();
    }
    let shown: usize = if res.len() <= 20 {
        res.len()
    } else {
        20
    };
    let ghost sv = if rv.len() <= 20 {
        rv
    } else {
        rv.take(20)
    };
    assert(sv =~= rv.take(shown as int));
    let ghost lines = sv.map_values(|e: TapeEntryView| search_line(e));
    let mut out: Vec<String> = Vec::new();
    for i in 0..shown
        invariant
            shown <= res@.len(),
            rv == entry_views(res@),
            sv == rv.take(shown as int),
            lines == sv.map_values(|e: TapeEntryView| search_line(e)),
            string_views(out@) == lines.take(i as int),
    {
        let e = &res[i];
        let a = concat_str("#", usize_to_string(e.id).as_str());
        let b = concat_str(a.as_str(), " [");
        let c = concat_str(b.as_str(), e.entry_type.as_str());
        let d = concat_str(c.as_str(), "] ");
        let line = concat_str(d.as_str(), e.payload.as_str());
        assert(sv[i as int] == e@);
        let ghost prev = out@;
        out.push(line);
        assert(string_views(out@) =~= string_views(prev).push(line@));
        assert(lines.take(i + 1) =~= lines.take(i as int).push(lines[i as int]));
    }
    assert(lines.take(shown as int) =~= lines);
    join_strings(out.as_slice(), "\n")
}

fn handoff_listing_exec(tape: &TapeStore) -> (r: String)
    ensures
        r@ == handoff_listing(tape@),
{
    let entries = tape.entries();
    let ghost ev = entry_views(entries@);
    let mut out: Vec<String> = Vec::new();
    for i in 0..entries.len()
        invariant
            ev == entry_views(entries@),
            string_views(out@) == handoffs(ev.take(i as int)).map_values(
                |e: TapeEntryView| handoff_line(e),
            ),
    {
        let e = &entries[i];
        assert(ev.take(i + 1).drop_last() =~= ev.take(i as int));
        assert(ev.take(i + 1).last() == e@);
        if str_eq(e.entry_type.as_str(), "handoff") {
            let a = concat_str("#", usize_to_string(e.id).as_str());
            let b = concat_str(a.as_str(), " ");
            let line = concat_str(b.as_str(), e.payload.as_str());
            let ghost prev = out@;
            out.push(line);
            assert(string_views(out@) =~= string_views(prev).push(line@));
        }
        assert(string_views(out@) =~= handoffs(ev.take(i + 1)).map_values(
            |e: TapeEntryView| handoff_line(e),
        ));
    }
    assert(ev.take(entries@.len() as int) =~= ev);
    if out.len() == 0 {
        return "No handoff anchors yet. Use /handoff [name].".to_owned();
    }
    join_strings(out.as_slice(), "\n")
}

/// The events of a streamed generation, as spec values.
pub enum StreamEventView {
    TextDelta(Seq<char>),
    ToolCallDelta { name: Seq<char>, partial_args: Seq<char> },
    Done(nat, nat, nat),
}

pub open spec fn stream_event_view(e: StreamEvent) -> StreamEventView {
    match e {
        StreamEvent::TextDelta(d) => StreamEventView::TextDelta(d@),
        StreamEvent::ToolCallDelta { name, partial_args } => StreamEventView::ToolCallDelta {
            name: name@,
            partial_args: partial_args@,
        },
        StreamEvent::Done(u) => StreamEventView::Done(
            u.input_tokens as nat,
            u.output_tokens as nat,
            u.total_tokens as nat,
        ),
    }
}

/// The tape entry a stream event leaves, as `(event name, fields)`.
pub open spec fn stream_event_record(round: nat, index: nat, e: StreamEventView) -> Seq<char> {
    match e {
        StreamEventView::TextDelta(d) => json_event(
            "assistant_text_delta"@,
            seq![("round"@, decimal(round)), ("index"@, decimal(index)), ("delta"@, d)],
        ),
        StreamEventView::ToolCallDelta { name, partial_args } => json_event(
            "tool_args_partial"@,
            seq![
                ("round"@, decimal(round)),
                ("index"@, decimal(index)),
                ("tool"@, name),
                ("partial"@, partial_args),
                ("parsed_pairs"@, decimal(partial_arg_pairs(partial_args).len())),
                ("parsed"@, debug_pairs(partial_arg_pairs(partial_args))),
            ],
        ),
        StreamEventView::Done(i, o, t) => json_event(
            "assistant_stream_done"@,
            seq![
                ("round"@, decimal(round)),
                ("index"@, decimal(index)),
                ("input_tokens"@, decimal(i)),
                ("output_tokens"@, decimal(o)),
                ("total_tokens"@, decimal(t)),
            ],
        ),
    }
}

/// `tape` with one entry of type `entry_type` appended per payload, in order.
pub open spec fn appended_all(
    tape: Seq<TapeEntryView>,
    entry_type: Seq<char>,
    payloads: Seq<Seq<char>>,
) -> Seq<TapeEntryView>
    decreases payloads.len(),
{
    if payloads.len() == 0 {
        tape
    } else {
        appended(appended_all(tape, entry_type, payloads.drop_last()), entry_type, payloads.last())
    }
}

fn field(key: &str, value: String) -> (r: (String, String))
    ensures
        r.0@ == key@,
        r.1@ == value@,
{
    (key.to_owned(), value)
}

/// Records the events of a streamed generation of round `round` on the tape.
pub fn record_stream_events(tape: &mut TapeStore, round: usize, events: &[StreamEvent])
    ensures
        final(tape)@ == appended_all(
            old(tape)@,
            "event"@,
            Seq::new(
                events@.len(),
                |i: int| stream_event_record(round as nat, i as nat, stream_event_view(events@[i])),
            ),
        ),
{
    let ghost payloads = Seq::new(
        events@.len(),
        |i: int| stream_event_record(round as nat, i as nat, stream_event_view(events@[i])),
    );
    let ghost start = tape@;
    for idx in 0..events.len()
        invariant
            payloads == Seq::new(
                events@.len(),
                |i: int| stream_event_record(round as nat, i as nat, stream_event_view(events@[i])),
            ),
            tape@ == appended_all(start, "event"@, payloads.take(idx as int)),
    {
        assert(payloads.take(idx + 1).drop_last() =~= payloads.take(idx as int));
        let mut fields: Vec<(String, String)> = Vec::new();
        fields.push(field("round", usize_to_string(round)));
        fields.push(field("index", usize_to_string(idx)));
        match &events[idx] {
            StreamEvent::TextDelta(delta) => {
                fields.push(field("delta", delta.clone()));
                assert(pair_views(fields@) =~= seq![
                    ("round"@, decimal(round as nat)),
                    ("index"@, decimal(idx as nat)),
                    ("delta"@, delta@),
                ]);
                tape.append_event_json("assistant_text_delta", fields.as_slice());
            },
            StreamEvent::ToolCallDelta { name, partial_args } => {
                let parsed = parse_partial_args(partial_args.as_str());
                fields.push(field("tool", name.clone()));
                fields.push(field("partial", partial_args.clone()));
                fields.push(field("parsed_pairs", usize_to_string(parsed.len())));
                assert(parsed.deep_view() =~= pair_views(parsed@));
                fields.push(field("parsed", format_pairs(parsed.as_slice())));
                assert(pair_views(fields@) =~= seq![
                    ("round"@, decimal(round as nat)),
                    ("index"@, decimal(idx as nat)),
                    ("tool"@, name@),
                    ("partial"@, partial_args@),
                    ("parsed_pairs"@, decimal(partial_arg_pairs(partial_args@).len())),
                    ("parsed"@, debug_pairs(partial_arg_pairs(partial_args@))),
                ]);
                tape.append_event_json("tool_args_partial", fields.as_slice());
            },
            StreamEvent::Done(usage) => {
                fields.push(field("input_tokens", usize_to_string(usage.input_tokens)));
                fields.push(field("output_tokens", usize_to_string(usage.output_tokens)));
                fields.push(field("total_tokens", usize_to_string(usage.total_tokens)));
                assert(pair_views(fields@) =~= seq![
                    ("round"@, decimal(round as nat)),
                    ("index"@, decimal(idx as nat)),
                    ("input_tokens"@, decimal(usage.input_tokens as nat)),
                    ("output_tokens"@, decimal(usage.output_tokens as nat)),
                    ("total_tokens"@, decimal(usage.total_tokens as nat)),
                ]);
                tape.append_event_json("assistant_stream_done", fields.as_slice());
            },
        }
    }
    assert(payloads.take(events@.len() as int) =~= payloads);
}

/// The tape entry for chunk `index` of `n` of a tool's output.
pub open spec fn chunk_record(round: nat, tool: Seq<char>, index: nat, n: nat, chunk: Seq<char>) -> Seq<
    char,
> {
    json_event(
        "tool_result_chunk"@,
        seq![
            ("round"@, decimal(round)),
            ("tool"@, tool),
            ("index"@, decimal(index)),
            ("chunks"@, decimal(n)),
            ("chunk"@, chunk),
        ],
    )
}

/// The tape entries for a tool's output, cut in chunks of 160 characters.
pub open spec fn chunk_records(round: nat, tool: Seq<char>, output: Seq<char>) -> Seq<Seq<char>> {
    let chunks = chunks_spec(output, 160);
    Seq::new(chunks.len(), |i: int| chunk_record(round, tool, i as nat, chunks.len(), chunks[i]))
}

/// How a tool's output is recorded: its chunks as events, then the `toolResult` message
/// that hands it to the model.
pub open spec fn output_recorded(
    tape: Seq<TapeEntryView>,
    round: nat,
    tool: Seq<char>,
    output: Seq<char>,
) -> Seq<TapeEntryView> {
    appended(
        appended_all(tape, "event"@, chunk_records(round, tool, output)),
        "message"@,
        enc_msgs(seq![text_message("toolResult"@, output)]),
    )
}

/// Records a tool's output on the tape in chunks of 160 characters.
pub fn stream_tool_result_chunks(tape: &mut TapeStore, round: usize, tool_name: &str, output: &str)
    ensures
        final(tape)@ == appended_all(old(tape)@, "event"@, chunk_records(round as nat, tool_name@, output@)),
{
    let chunks = chunk_text(output, 160);
    let ghost cv = string_views(chunks@);
    let ghost payloads = chunk_records(round as nat, tool_name@, output@);
    let ghost start = tape@;
    let n = chunks.len();
    for idx in 0..n
        invariant
            n == chunks@.len(),
            cv == string_views(chunks@),
            cv == chunks_spec(output@, 160),
            payloads == chunk_records(round as nat, tool_name@, output@),
            tape@ == appended_all(start, "event"@, payloads.take(idx as int)),
    {
        assert(payloads.take(idx + 1).drop_last() =~= payloads.take(idx as int));
        let mut fields: Vec<(String, String)> = Vec::new();
        fields.push(field("round", usize_to_string(round)));
        fields.push(field("tool", tool_name.to_owned()));
        fields.push(field("index", usize_to_string(idx)));
        fields.push(field("chunks", usize_to_string(n)));
        fields.push(field("chunk", chunks[idx].clone()));
        assert(pair_views(fields@) =~= seq![
            ("round"@, decimal(round as nat)),
            ("tool"@, tool_name@),
            ("index"@, decimal(idx as nat)),
            ("chunks"@, decimal(n as nat)),
            ("chunk"@, cv[idx as int]),
        ]);
        tape.append_event_json("tool_result_chunk", fields.as_slice());
    }
    assert(payloads.take(n as int) =~= payloads);
}

/// What the loop decides once the model has answered.
pub enum Reply {
    /// No tool calls: the turn ends with this text.
    Final(String),
    /// The same plan came a third time in a row: the turn stops.
    Repeated,
    /// Run these calls; `plan` is their signature, `repeated` how many rounds in a row it
    /// has come after the first.
    Proceed { calls: Vec<ToolCall>, plan: String, repeated: usize },
}

/// The count of rounds in a row with the same plan, once `plan` comes.
pub open spec fn next_repeat(previous: Option<Seq<char>>, repeated: nat, plan: Seq<char>) -> nat {
    if previous == Some(plan) {
        repeated + 1
    } else {
        0
    }
}

/// Decides on the model's answer `assistant`, given the previous round's plan and how
/// often it had repeated.
pub fn decide_after_reply(previous_plan: &Option<String>, repeated_plan_rounds: usize, assistant: &Message) -> (r: Reply)
    ensures
        ({
            let calls = tool_calls_of(assistant@);
            let previous = match previous_plan {
                Some(p) => Some(p@),
                None => None,
            };
            if calls.len() == 0 {
                r matches Reply::Final(t) && t@ == message_text(assistant@)
            } else {
                let plan = plan_signature(calls);
                let rep = next_repeat(previous, repeated_plan_rounds as nat, plan);
                if rep >= 2 {
                    r is Repeated
                } else {
                    r matches Reply::Proceed { calls: cs, plan: p, repeated: n } && call_views(cs@)
                        == calls && p@ == plan && n == rep
                }
            }
        }),
{
    let calls = collect_tool_calls(assistant);
    if calls.len() == 0 {
        return Reply::Final(extract_text(assistant));
    }
    let plan = signature_for_plan(calls.as_slice());
    let same = match previous_plan {
        Some(p) => crate::text::str_eq(p.as_str(), plan.as_str()),
        None => false,
    };
    let repeated = if same {
        if repeated_plan_rounds < usize::MAX {
            repeated_plan_rounds + 1
        } else {
            usize::MAX
        }
    } else {
        0
    };
    if repeated >= 2 {
        return Reply::Repeated;
    }
    Reply::Proceed { calls, plan, repeated }
}

/// What the loop asks its caller to do, or its answer.
pub enum Step {
    /// Run the tool `name` with `args` in the workspace, then call `tool_finished`.
    RunTool { name: String, args: Vec<(String, String)> },
    /// Run `command` with the shell in the workspace, then call `shell_finished`.
    RunShell { command: String },
    /// The answer to the input.
    Finished(Result<String, String>),
}

/// The state of a turn in progress.
struct Turn {
    text: String,
    context: Vec<Message>,
    messages: Vec<Message>,
    seen_calls: Vec<String>,
    previous_plan: Option<String>,
    repeated_plan_rounds: usize,
    stalled_rounds: usize,
    round: usize,
    calls: Vec<ToolCall>,
    idx: usize,
    succeeded: usize,
    attempted: usize,
    runs: usize,
    awaiting_tool: bool,
    executed: Ghost<Seq<Seq<char>>>,
    log: Ghost<Seq<RoundView>>,
    asked0: Ghost<nat>,
    base: Ghost<Set<Seq<char>>>,
    origin: Ghost<Seq<TapeEntryView>>,
    records: Ghost<Seq<Seq<CallRecord>>>,
}

/// The per-round tool limit.
pub open spec fn max_calls_per_round() -> nat {
    6
}

/// The number of rounds a turn may take.
pub open spec fn max_rounds() -> nat {
    15
}

/// The signature of the call at position `k` of a round.
spec fn call_sig_at(calls: Seq<ToolCall>, k: int) -> Seq<char> {
    call_signature(calls[k].1@, pair_views(calls[k].2@))
}

/// Whether the call at `k` repeats one seen before in the turn: its signature is among
/// `seen`, or it is that of an earlier call of the round from `start` on.
spec fn seen_before(seen: Seq<Seq<char>>, calls: Seq<ToolCall>, start: int, k: int) -> bool {
    ||| seen.contains(call_sig_at(calls, k))
    ||| exists|j: int| start <= j < k && #[trigger] call_sig_at(calls, j) == call_sig_at(calls, k)
}

/// Whether the call at `k` is run: the registry accepts it and it repeats no call seen
/// before.
spec fn call_runs(
    reg: Seq<ToolSpecView>,
    seen: Seq<Seq<char>>,
    calls: Seq<ToolCall>,
    start: int,
    k: int,
) -> bool {
    &&& call_accepted(reg, calls[k].1@, pair_views(calls[k].2@))
    &&& !seen_before(seen, calls, start, k)
}

/// The record of turn `t` holds together, at the start of a round (`begin`) or while its
/// calls are worked through.
spec fn log_ok(t: Turn, begin: bool) -> bool {
    let log = t.log@;
    &&& turn_record_ok(message_views(t.context@), log)
    &&& message_views(t.messages@) == turn_additions(log)
    &&& t.repeated_plan_rounds == repeat_count(log)
    &&& if begin {
        &&& log.len() == t.round
        &&& (log.len() > 0 ==> turn_stop(log) is None && round_done(log.last()))
        &&& t.stalled_rounds == stall_count(log)
        &&& (log.len() == 0 ==> t.previous_plan is None)
        &&& (log.len() > 0 ==> (t.previous_plan matches Some(p) && p@ == plan_of(log.last().reply)))
    } else {
        &&& log.len() == t.round + 1
        &&& reply_stop(log) is None
        &&& call_views(t.calls@) == tool_calls_of(log.last().reply)
        &&& log.last().succeeded == t.succeeded
        &&& (log.last().results.len() == t.idx || (t.idx == max_calls_per_round() && !t.awaiting_tool
            && round_done(log.last())))
        &&& (t.awaiting_tool ==> log.last().results.len() == t.idx && !turn_sigs(log).contains(
            call_sig_of(log.last(), t.idx as int),
        ))
        &&& t.stalled_rounds == stall_count(log.drop_last())
        &&& (t.previous_plan matches Some(p) && p@ == plan_of(log.last().reply))
    }
}

/// The calls the turn has seen are those it worked through, and the one it waits to run.
spec fn seen_ok(t: Turn) -> bool {
    forall|x: Seq<char>|
        #[trigger] string_views(t.seen_calls@).contains(x) <==> (turn_sigs(t.log@).contains(x) || (
        t.awaiting_tool && x == call_sig_of(t.log@.last(), t.idx as int)))
}

/// The calls the turn has seen are those it worked through and the one at `t.idx`.
spec fn seen_with_current(t: Turn) -> bool {
    forall|x: Seq<char>|
        #[trigger] string_views(t.seen_calls@).contains(x) <==> (turn_sigs(t.log@).contains(x) || x
            == call_sig_of(t.log@.last(), t.idx as int))
}

/// The last round with one more tool result, and one more success where `ok`.
spec fn with_result(log: Seq<RoundView>, m: MessageView, ok: bool) -> Seq<RoundView> {
    let n = log.len() - 1;
    let last = log[n];
    log.update(
        n,
        RoundView {
            results: last.results.push(m),
            succeeded: if ok {
                last.succeeded + 1
            } else {
                last.succeeded
            },
            ..last
        },
    )
}

proof fn lemma_record_result(t: Turn, m: MessageView, ok: bool)
    requires
        log_ok(t, false),
        t.log@.last().results.len() < max_calls_per_round() ==> t.log@.last().results.len() < tool_calls_of(
            t.log@.last().reply,
        ).len(),
        t.log@.last().results.len() < max_calls_per_round() && turn_sigs(t.log@).contains(
            call_sig_of(t.log@.last(), t.log@.last().results.len() as int),
        ) ==> m == skip_message(tool_calls_of(t.log@.last().reply)[t.log@.last().results.len() as int]),
    ensures
        ({
            let u = with_result(t.log@, m, ok);
            &&& turn_record_ok(message_views(t.context@), u)
            &&& turn_additions(u) == turn_additions(t.log@).push(m)
            &&& reply_stop(u) == reply_stop(t.log@)
            &&& u.drop_last() == t.log@.drop_last()
            &&& u.len() == t.log@.len()
            &&& u.last().reply == t.log@.last().reply
            &&& u.last().succeeded == t.log@.last().succeeded + (if ok {
                1nat
            } else {
                0nat
            })
            &&& repeat_count(u) == repeat_count(t.log@)
            &&& u.last().results == t.log@.last().results.push(m)
            &&& turn_sigs(u) == (if t.log@.last().results.len() < max_calls_per_round() {
                turn_sigs(t.log@).push(call_sig_of(t.log@.last(), t.log@.last().results.len() as int))
            } else {
                turn_sigs(t.log@)
            })
        }),
{
    let log = t.log@;
    let window = message_views(t.context@);
    let n = log.len() - 1;
    let u = with_result(log, m, ok);
    lemma_additions_result(log, m, ok);
    assert(u.drop_last() =~= log.drop_last());
    assert forall|i: int| 0 <= i < u.len() implies #[trigger] u[i].request == round_request(window, u.take(i)) by {
        assert(u.take(i) =~= log.take(i));
        assert(log[i].request == round_request(window, log.take(i)));
    }
    assert forall|i: int| 0 <= i < u.len() - 1 implies #[trigger] turn_stop(u.take(i + 1)) is None by {
        assert(u.take(i + 1) =~= log.take(i + 1));
        assert(turn_stop(log.take(i + 1)) is None);
    }
    assert forall|k: int| 0 <= k < u.len() implies #[trigger] u[k].reply == log[k].reply by {}
    assert(reply_stop(u) == reply_stop(log));
    let last = log[n];
    let ul = u[n];
    assert(u.last() == ul);
    let old_len = last.results.len();
    if old_len < max_calls_per_round() {
        assert(round_sigs(ul, processed_count(ul)) =~= round_sigs(last, processed_count(last)).push(
            call_sig_of(last, old_len as int),
        ));
    } else {
        assert(round_sigs(ul, processed_count(ul)) =~= round_sigs(last, processed_count(last)));
    }
    assert(turn_sigs(u) == turn_sigs(u.drop_last()) + round_sigs(ul, processed_count(ul)));
    assert(turn_sigs(log) == turn_sigs(log.drop_last()) + round_sigs(last, processed_count(last)));
    assert forall|i: int| 0 <= i < u.len() - 1 implies #[trigger] round_done(u[i]) by {
        assert(u[i] == log[i]);
    }
    assert forall|i: int, k: int|
        0 <= i < u.len() && 0 <= k < processed_count(u[i]) && (turn_sigs(u.take(i)) + round_sigs(
            u[i],
            k as nat,
        )).contains(call_sig_of(u[i], k)) implies #[trigger] u[i].results[k] == skip_message(
        tool_calls_of(u[i].reply)[k],
    ) by {
        assert(u.take(i) =~= log.take(i));
        assert(round_sigs(u[i], k as nat) =~= round_sigs(log[i], k as nat));
        if i < n {
            assert(u[i] == log[i]);
        } else if k < old_len {
            assert(u[i].results[k] == log[i].results[k]);
        } else {
            assert(log.take(i) =~= log.drop_last());
            assert(k == old_len);
            assert(round_sigs(last, k as nat) == round_sigs(last, processed_count(last)));
        }
    }
}

proof fn lemma_record_push(window: Seq<MessageView>, log: Seq<RoundView>, r: RoundView)
    requires
        turn_record_ok(window, log),
        log.len() < max_rounds(),
        log.len() > 0 ==> turn_stop(log) is None,
        r.request == round_request(window, log),
        r.stream_request == r.request,
        log.len() > 0 ==> round_done(log.last()),
        r.results.len() == 0,
    ensures
        turn_record_ok(window, log.push(r)),
        turn_sigs(log.push(r)) == turn_sigs(log),
{
    let p = log.push(r);
    assert(p.drop_last() =~= log);
    assert(round_sigs(r, processed_count(r)) =~= Seq::<Seq<char>>::empty());
    assert(turn_sigs(p) =~= turn_sigs(log));
    assert forall|i: int| 0 <= i < p.len() - 1 implies #[trigger] round_done(p[i]) by {
        assert(p[i] == log[i]);
    }
    assert forall|i: int, k: int|
        0 <= i < p.len() && 0 <= k < processed_count(p[i]) && (turn_sigs(p.take(i)) + round_sigs(
            p[i],
            k as nat,
        )).contains(call_sig_of(p[i], k)) implies #[trigger] p[i].results[k] == skip_message(
        tool_calls_of(p[i].reply)[k],
    ) by {
        assert(i < log.len());
        assert(p[i] == log[i]);
        assert(p.take(i) =~= log.take(i));
    }
    assert forall|i: int| 0 <= i < p.len() implies #[trigger] p[i].request == round_request(window, p.take(i))
        && p[i].stream_request == p[i].request by {
        if i < log.len() {
            assert(p.take(i) =~= log.take(i));
            assert(log[i].request == round_request(window, log.take(i)) && log[i].stream_request == log[i].request);
        } else {
            assert(p.take(i) =~= log);
        }
    }
    assert forall|i: int| 0 <= i < p.len() - 1 implies #[trigger] turn_stop(p.take(i + 1)) is None by {
        if i < log.len() - 1 {
            assert(p.take(i + 1) =~= log.take(i + 1));
            assert(turn_stop(log.take(i + 1)) is None);
        } else {
            assert(p.take(i + 1) =~= log);
        }
    }
}

proof fn lemma_stall_step(log: Seq<RoundView>, previous: nat)
    requires
        log.len() > 0,
        previous == stall_count(log.drop_last()),
    ensures
        ({
            let next = if log.last().succeeded == 0 {
                previous + 1
            } else {
                0
            };
            &&& next >= 3 <==> stalled_at(log)
            &&& next < 3 ==> next == stall_count(log)
        }),
{
    let d = log.drop_last();
    let n = log.len();
    if n >= 2 {
        assert(d[n - 2] == log[n - 2]);
    }
    if n >= 3 {
        assert(d[n - 3] == log[n - 3]);
    }
}

spec fn turn_executed(t: Turn) -> Seq<Seq<char>> {
    t.executed@
}

spec fn turn_ok(t: Turn) -> bool {
    &&& t.round < max_rounds()
    &&& t.idx <= t.calls@.len()
    &&& t.idx <= max_calls_per_round()
    &&& t.attempted == t.idx
    &&& t.succeeded <= t.attempted
    &&& t.runs <= t.attempted
    &&& t.repeated_plan_rounds < 2
    &&& t.stalled_rounds < 3
    &&& (t.awaiting_tool ==> t.idx < t.calls@.len() && t.idx < max_calls_per_round())
    &&& t.executed@.no_duplicates()
    &&& forall|x: Seq<char>| #[trigger] t.executed@.contains(x) ==> string_views(t.seen_calls@).contains(x)
}

/// Whether a call of `name` with `args` is one the registry accepts.
pub open spec fn call_accepted(reg: Seq<ToolSpecView>, name: Seq<char>, args: Seq<(Seq<char>, Seq<char>)>) -> bool {
    match name_index(reg, name) {
        Some(i) => validate_args_spec(reg[i], args) is Ok,
        None => false,
    }
}

/// The fields of the event that opens a turn: the prompt version, the names of the tools
/// the model is shown, and the profile.
pub open spec fn turn_start_fields(tools: Seq<ToolSpecView>, profile: RuntimeProfileView) -> Seq<
    (Seq<char>, Seq<char>),
> {
    seq![
        ("prompt_version"@, "v1"@),
        ("toolset"@, join(spec_names(tools), ","@)),
        ("profile"@, profile_name(profile)),
    ]
}

/// How a turn on `text` opens the tape: the user's message, then the `turn_start` event.
pub open spec fn turn_opening(
    tape: Seq<TapeEntryView>,
    text: Seq<char>,
    tools: Seq<ToolSpecView>,
    profile: RuntimeProfileView,
) -> Seq<TapeEntryView> {
    appended(
        appended(tape, "message"@, enc_msgs(seq![user_message(text)])),
        "event"@,
        json_event("turn_start"@, turn_start_fields(tools, profile)),
    )
}

/// The notice a turn ends with when the model repeats its tool plan.
pub open spec fn repeated_notice() -> Seq<char> {
    "Stopped: the model repeated the same tool plan in consecutive rounds."@
}

/// The notice a turn ends with after rounds in which no tool call succeeded.
pub open spec fn stalled_notice() -> Seq<char> {
    "Stopped after "@ + decimal(3) + " stalled tool rounds (no successful calls)."@
}

/// The notice a turn ends with when it has used all its rounds.
pub open spec fn max_rounds_notice() -> Seq<char> {
    "Tool-calling loop reached max rounds ("@ + decimal(max_rounds()) + ")."@
}

/// What a turn may answer: the text of the last message on the tape (the model's final
/// answer), or one of the notices that stop a turn.
pub open spec fn turn_answer(tape: Seq<TapeEntryView>, text: Seq<char>) -> bool {
    ||| (tape_messages(tape).len() > 0 && text == message_text(tape_messages(tape).last()))
    ||| text == repeated_notice()
    ||| text == stalled_notice()
    ||| text == max_rounds_notice()
}

/// One round of a turn, as the loop recorded it when it asked the model.
pub struct RoundView {
    /// The messages handed to the model for its answer.
    pub request: Seq<MessageView>,
    /// The messages handed to the model for its streamed events.
    pub stream_request: Seq<MessageView>,
    /// The tools handed to the model.
    pub tools: Seq<ToolSpecView>,
    /// The events of the model's streamed answer.
    pub events: Seq<StreamEventView>,
    /// The model's answer.
    pub reply: MessageView,
    /// The tool-result messages the round added after the answer, in order.
    pub results: Seq<MessageView>,
    /// How many of the round's tool calls ran and succeeded.
    pub succeeded: nat,
}

/// The message that opens every request: the system prompt.
pub open spec fn system_message() -> MessageView {
    text_message("system"@, system_prompt())
}

/// The messages a turn added to the conversation in `rounds`: each round's answer, then its
/// tool results.
pub open spec fn turn_additions(rounds: Seq<RoundView>) -> Seq<MessageView>
    decreases rounds.len(),
{
    if rounds.len() == 0 {
        Seq::<MessageView>::empty()
    } else {
        turn_additions(rounds.drop_last()) + seq![rounds.last().reply] + rounds.last().results
    }
}

/// What the model is handed in a round: the system prompt, the messages of the tape at the
/// turn's start (at most the context window), then what the turn's earlier rounds added.
pub open spec fn round_request(window: Seq<MessageView>, before: Seq<RoundView>) -> Seq<MessageView> {
    seq![system_message()] + window + turn_additions(before)
}

/// The signature of the tool plan of an answer.
pub open spec fn plan_of(m: MessageView) -> Seq<char> {
    plan_signature(tool_calls_of(m))
}

/// The last three rounds answered with the same tool plan.
pub open spec fn repeat_at(rounds: Seq<RoundView>) -> bool {
    let n = rounds.len();
    &&& n >= 3
    &&& plan_of(rounds[n - 1].reply) == plan_of(rounds[n - 2].reply)
    &&& plan_of(rounds[n - 2].reply) == plan_of(rounds[n - 3].reply)
}

/// In none of the last three rounds did a tool call succeed.
pub open spec fn stalled_at(rounds: Seq<RoundView>) -> bool {
    let n = rounds.len();
    &&& n >= 3
    &&& rounds[n - 1].succeeded == 0
    &&& rounds[n - 2].succeeded == 0
    &&& rounds[n - 3].succeeded == 0
}

/// The stop decided on the last answer: an answer without tool calls ends the turn with its
/// text, and a plan repeated a third time in a row stops it. With the notice and the fields
/// of the `turn_stop` event.
pub open spec fn reply_stop(rounds: Seq<RoundView>) -> Option<(Seq<char>, Seq<(Seq<char>, Seq<char>)>)> {
    let n = rounds.len();
    if n == 0 {
        None
    } else if tool_calls_of(rounds[n - 1].reply).len() == 0 {
        Some(
            (
                message_text(rounds[n - 1].reply),
                seq![("reason"@, "assistant_final"@), ("round"@, decimal((n - 1) as nat))],
            ),
        )
    } else if repeat_at(rounds) {
        Some((repeated_notice(), seq![("reason"@, "repeated_plan"@)]))
    } else {
        None
    }
}

/// The stop decided once a round's calls are done: after three rounds in a row without a
/// successful call, or after the last round.
pub open spec fn round_end_stop(rounds: Seq<RoundView>) -> Option<(Seq<char>, Seq<(Seq<char>, Seq<char>)>)> {
    if stalled_at(rounds) {
        Some((stalled_notice(), seq![("reason"@, "stalled_rounds"@), ("count"@, decimal(3))]))
    } else if rounds.len() >= max_rounds() {
        Some(
            (
                max_rounds_notice(),
                seq![("reason"@, "max_rounds"@), ("max_rounds"@, decimal(max_rounds()))],
            ),
        )
    } else {
        None
    }
}

/// How a turn whose rounds are `rounds` ends, if it ends there: its answer and the fields of
/// its `turn_stop` event.
pub open spec fn turn_stop(rounds: Seq<RoundView>) -> Option<(Seq<char>, Seq<(Seq<char>, Seq<char>)>)> {
    match reply_stop(rounds) {
        Some(x) => Some(x),
        None => round_end_stop(rounds),
    }
}

/// The tool message that closes a round whose answer asked for more calls than the limit.
pub open spec fn limit_message() -> MessageView {
    text_message(
        "toolResult"@,
        "Tool plan exceeded per-round limit ("@ + decimal(max_calls_per_round())
            + "). Remaining calls were skipped."@,
    )
}

/// The note a call gets in place of running when it repeats one the turn has worked through.
pub open spec fn skip_message(c: ToolCallView) -> MessageView {
    text_message(
        "toolResult"@,
        "Skipped duplicate tool call for this turn history: "@ + c.1 + " "@ + debug_pairs(c.2),
    )
}

/// How many of a round's calls have been worked through.
pub open spec fn processed_count(r: RoundView) -> nat {
    if r.results.len() > max_calls_per_round() {
        max_calls_per_round()
    } else {
        r.results.len()
    }
}

/// The signature of the `k`-th call of a round's answer.
pub open spec fn call_sig_of(r: RoundView, k: int) -> Seq<char> {
    call_signature(tool_calls_of(r.reply)[k].1, tool_calls_of(r.reply)[k].2)
}

/// The signatures of the first `k` calls of a round's answer.
pub open spec fn round_sigs(r: RoundView, k: nat) -> Seq<Seq<char>> {
    Seq::new(k, |j: int| call_sig_of(r, j))
}

/// The signatures of the calls a turn has worked through, round by round.
pub open spec fn turn_sigs(rounds: Seq<RoundView>) -> Seq<Seq<char>>
    decreases rounds.len(),
{
    if rounds.len() == 0 {
        Seq::<Seq<char>>::empty()
    } else {
        turn_sigs(rounds.drop_last()) + round_sigs(rounds.last(), processed_count(rounds.last()))
    }
}

/// A round worked through all its calls: one tool message per call up to the limit, then
/// the limit message where the answer asked for more.
pub open spec fn round_done(r: RoundView) -> bool {
    let n = tool_calls_of(r.reply).len();
    if n <= max_calls_per_round() {
        r.results.len() == n
    } else {
        r.results.len() == max_calls_per_round() + 1 && r.results.last() == limit_message()
    }
}

/// Every call that repeats one the turn worked through before got the skip note in place of
/// running.
pub open spec fn skips_ok(rounds: Seq<RoundView>) -> bool {
    forall|i: int, k: int|
        0 <= i < rounds.len() && 0 <= k < processed_count(rounds[i]) && (turn_sigs(rounds.take(i))
            + round_sigs(rounds[i], k as nat)).contains(call_sig_of(rounds[i], k))
            ==> #[trigger] rounds[i].results[k] == skip_message(tool_calls_of(rounds[i].reply)[k])
}

/// The record of a turn holds together: at most the round limit of rounds, each handed the
/// system prompt, the context window and what the earlier rounds added; each round but the
/// last one worked through its calls (one tool message per call up to the limit, then the
/// limit note) and ended without stopping the turn; and every call repeating one worked
/// through before in the turn got the skip note in place of running.
pub open spec fn turn_record_ok(window: Seq<MessageView>, rounds: Seq<RoundView>) -> bool {
    &&& rounds.len() <= max_rounds()
    &&& forall|i: int|
        0 <= i < rounds.len() ==> #[trigger] rounds[i].request == round_request(window, rounds.take(i))
            && rounds[i].stream_request == rounds[i].request
    &&& forall|i: int| 0 <= i < rounds.len() - 1 ==> #[trigger] turn_stop(rounds.take(i + 1)) is None
    &&& forall|i: int| 0 <= i < rounds.len() - 1 ==> #[trigger] round_done(rounds[i])
    &&& skips_ok(rounds)
}

/// The names of the tools the model selected in the first `k` calls of round `r`, coming
/// after the rounds `before`: the calls that repeat none worked through before them.
pub open spec fn round_noted(before: Seq<RoundView>, r: RoundView, k: nat) -> Set<Seq<char>>
    decreases k,
{
    if k == 0 {
        Set::<Seq<char>>::empty()
    } else {
        let j = (k - 1) as nat;
        if (turn_sigs(before) + round_sigs(r, j)).contains(call_sig_of(r, j as int)) {
            round_noted(before, r, j)
        } else {
            round_noted(before, r, j).insert(tool_calls_of(r.reply)[j as int].1)
        }
    }
}

/// The names of the tools the model selected in `rounds`, round by round.
pub open spec fn noted_names(rounds: Seq<RoundView>) -> Set<Seq<char>>
    decreases rounds.len(),
{
    if rounds.len() == 0 {
        Set::<Seq<char>>::empty()
    } else {
        noted_names(rounds.drop_last()) + round_noted(
            rounds.drop_last(),
            rounds.last(),
            processed_count(rounds.last()),
        )
    }
}

/// The tools the model is shown in round `i`: those of `catalog` whose names are in `base`
/// (the tools active when the turn started and those its input hints at) or were selected
/// by the model in an earlier round of the turn.
pub open spec fn tools_of_round(
    catalog: Seq<ToolSpecView>,
    base: Set<Seq<char>>,
    rounds: Seq<RoundView>,
    i: int,
) -> Seq<ToolSpecView> {
    visible_specs(catalog, base + noted_names(rounds.take(i)))
}

/// Each round was shown the tools progressive exposure allows it.
pub open spec fn tools_shown_ok(catalog: Seq<ToolSpecView>, base: Set<Seq<char>>, rounds: Seq<RoundView>) -> bool {
    forall|i: int|
        0 <= i < rounds.len() ==> #[trigger] rounds[i].tools == tools_of_round(catalog, base, rounds, i)
}

proof fn lemma_round_noted_reply(before: Seq<RoundView>, r: RoundView, r2: RoundView, k: nat)
    requires
        r.reply == r2.reply,
    ensures
        round_noted(before, r, k) == round_noted(before, r2, k),
    decreases k,
{
    if k > 0 {
        let j = (k - 1) as nat;
        lemma_round_noted_reply(before, r, r2, j);
        assert(round_sigs(r, j) =~= round_sigs(r2, j));
    }
}

/// One more result in the last round notes the call's tool, unless the call repeats one
/// worked through before; the limit note notes nothing.
proof fn lemma_noted_step(log: Seq<RoundView>, u: Seq<RoundView>)
    requires
        log.len() > 0,
        u.len() == log.len(),
        u.drop_last() == log.drop_last(),
        u.last().reply == log.last().reply,
        log.last().results.len() <= max_calls_per_round(),
        u.last().results.len() == log.last().results.len() + 1,
    ensures
        log.last().results.len() < max_calls_per_round() ==> noted_names(u) == noted_names(log) + (
        if turn_sigs(log).contains(call_sig_of(log.last(), log.last().results.len() as int)) {
            Set::<Seq<char>>::empty()
        } else {
            set![tool_calls_of(log.last().reply)[log.last().results.len() as int].1]
        }),
        log.last().results.len() == max_calls_per_round() ==> noted_names(u) == noted_names(log),
{
    let d = log.drop_last();
    let k = log.last().results.len();
    lemma_round_noted_reply(d, u.last(), log.last(), k);
    assert(round_sigs(u.last(), k) =~= round_sigs(log.last(), k));
    if k < max_calls_per_round() {
        assert(turn_sigs(log) == turn_sigs(d) + round_sigs(log.last(), k));
        let name = tool_calls_of(log.last().reply)[k as int].1;
        if turn_sigs(log).contains(call_sig_of(log.last(), k as int)) {
            assert(noted_names(u) =~= noted_names(log));
        } else {
            assert(noted_names(u) =~= noted_names(log) + set![name]);
        }
    } else {
        assert(noted_names(u) =~= noted_names(log));
    }
}

/// A round just opened notes nothing, and the earlier rounds are shown the same tools.
proof fn lemma_noted_push(
    catalog: Seq<ToolSpecView>,
    base: Set<Seq<char>>,
    log: Seq<RoundView>,
    r: RoundView,
)
    requires
        r.results.len() == 0,
        tools_shown_ok(catalog, base, log),
        r.tools == visible_specs(catalog, base + noted_names(log)),
    ensures
        noted_names(log.push(r)) == noted_names(log),
        tools_shown_ok(catalog, base, log.push(r)),
{
    let p = log.push(r);
    assert(p.drop_last() =~= log);
    assert(noted_names(p) =~= noted_names(log));
    assert forall|i: int| 0 <= i < p.len() implies #[trigger] p[i].tools == tools_of_round(catalog, base, p, i) by {
        assert(p.take(i) =~= log.take(i));
        if i == log.len() {
            assert(log.take(i) =~= log);
        }
    }
}

/// Updating the last round keeps the tools of every round, if its own stay.
proof fn lemma_tools_update(catalog: Seq<ToolSpecView>, base: Set<Seq<char>>, log: Seq<RoundView>, r: RoundView)
    requires
        log.len() > 0,
        tools_shown_ok(catalog, base, log),
        r.tools == log.last().tools,
    ensures
        tools_shown_ok(catalog, base, log.update(log.len() - 1, r)),
{
    let u = log.update(log.len() - 1, r);
    assert forall|i: int| 0 <= i < u.len() implies #[trigger] u[i].tools == tools_of_round(catalog, base, u, i) by {
        assert(u.take(i) =~= log.take(i));
        assert(log[i].tools == tools_of_round(catalog, base, log, i));
    }
}

/// What the loop recorded of a tool call it worked through: the output handed to the
/// model, the status, and the details shown to the user.
pub struct CallRecord {
    pub output: Seq<char>,
    pub status: Seq<char>,
    pub details: Seq<(Seq<char>, Seq<char>)>,
}

/// `tape` with the entries `es` (a type and a payload each) appended in order.
pub open spec fn appended_entries(tape: Seq<TapeEntryView>, es: Seq<(Seq<char>, Seq<char>)>) -> Seq<
    TapeEntryView,
>
    decreases es.len(),
{
    if es.len() == 0 {
        tape
    } else {
        appended(appended_entries(tape, es.drop_last()), es.last().0, es.last().1)
    }
}

/// Entries of type `ty`, one per payload.
pub open spec fn typed(ty: Seq<char>, ps: Seq<Seq<char>>) -> Seq<(Seq<char>, Seq<char>)> {
    Seq::new(ps.len(), |i: int| (ty, ps[i]))
}

/// The fields of the event that opens round `round`: the round, the prompt version, the
/// names of the tools the model is shown, and the profile.
pub open spec fn round_start_fields(round: nat, tools: Seq<ToolSpecView>, profile: RuntimeProfileView) -> Seq<
    (Seq<char>, Seq<char>),
> {
    seq![
        ("round"@, decimal(round)),
        ("prompt_version"@, "v1"@),
        ("toolset"@, join(spec_names(tools), ","@)),
        ("profile"@, profile_name(profile)),
    ]
}

/// The `round_start` entry of round `round`.
pub open spec fn round_start_entry(round: nat, tools: Seq<ToolSpecView>, profile: RuntimeProfileView) -> (
    Seq<char>,
    Seq<char>,
) {
    ("event"@, json_event("round_start"@, round_start_fields(round, tools, profile)))
}

/// The entries of the streamed events of round `round`.
pub open spec fn stream_entries(round: nat, events: Seq<StreamEventView>) -> Seq<(Seq<char>, Seq<char>)> {
    Seq::new(events.len(), |j: int| ("event"@, stream_event_record(round, j as nat, events[j])))
}

/// The message entry that hands `m` over.
pub open spec fn message_entry(m: MessageView) -> (Seq<char>, Seq<char>) {
    ("message"@, enc_msgs(seq![m]))
}

/// The fields of the `tool_call` event of call `c`.
pub open spec fn tool_call_fields(c: ToolCallView, rec: CallRecord) -> Seq<(Seq<char>, Seq<char>)> {
    seq![
        ("tool"@, c.1),
        ("status"@, rec.status),
        ("args"@, debug_pairs(c.2)),
        ("ui_details"@, debug_pairs(rec.details)),
    ]
}

/// The entries of a call worked through in round `round`: its output in chunks, the tool
/// message, and the `tool_call` event.
pub open spec fn call_entries(round: nat, c: ToolCallView, rec: CallRecord) -> Seq<(Seq<char>, Seq<char>)> {
    typed("event"@, chunk_records(round, c.1, rec.output)) + seq![
        message_entry(text_message("toolResult"@, rec.output)),
        ("event"@, json_event("tool_call"@, tool_call_fields(c, rec))),
    ]
}

/// The entries of the first `k` calls of round `round`.
pub open spec fn calls_entries(round: nat, r: RoundView, recs: Seq<CallRecord>, k: nat) -> Seq<
    (Seq<char>, Seq<char>),
>
    decreases k,
{
    if k == 0 {
        Seq::<(Seq<char>, Seq<char>)>::empty()
    } else {
        calls_entries(round, r, recs, (k - 1) as nat) + call_entries(
            round,
            tool_calls_of(r.reply)[k - 1],
            recs[k - 1],
        )
    }
}

/// The entries of round `round`: its `round_start` event, its streamed events, the model's
/// answer, the calls worked through, and the limit note where the answer asked for more
/// calls than the limit.
pub open spec fn round_entries(round: nat, r: RoundView, recs: Seq<CallRecord>, profile: RuntimeProfileView) -> Seq<
    (Seq<char>, Seq<char>),
> {
    seq![round_start_entry(round, r.tools, profile)] + stream_entries(round, r.events) + seq![
        message_entry(r.reply),
    ] + calls_entries(round, r, recs, processed_count(r)) + (if r.results.len() > max_calls_per_round() {
        seq![message_entry(limit_message())]
    } else {
        Seq::<(Seq<char>, Seq<char>)>::empty()
    })
}

/// The entries of the rounds of a turn, in order.
pub open spec fn rounds_entries(
    rounds: Seq<RoundView>,
    recs: Seq<Seq<CallRecord>>,
    profile: RuntimeProfileView,
) -> Seq<(Seq<char>, Seq<char>)>
    decreases rounds.len(),
{
    if rounds.len() == 0 {
        Seq::<(Seq<char>, Seq<char>)>::empty()
    } else {
        rounds_entries(rounds.drop_last(), recs, profile) + round_entries(
            (rounds.len() - 1) as nat,
            rounds.last(),
            recs[rounds.len() - 1],
            profile,
        )
    }
}

/// Whether call `k` of round `i` repeats a call the turn worked through before it.
pub open spec fn repeats_earlier(rounds: Seq<RoundView>, i: int, k: int) -> bool {
    (turn_sigs(rounds.take(i)) + round_sigs(rounds[i], k as nat)).contains(call_sig_of(rounds[i], k))
}

/// The records of the calls hold together with the rounds: one per call worked through,
/// whose output is the tool message the model got; a repeated call has the status
/// `duplicate`, any other `ok` or `error`.
pub open spec fn records_ok(rounds: Seq<RoundView>, recs: Seq<Seq<CallRecord>>) -> bool {
    &&& recs.len() == rounds.len()
    &&& forall|i: int| 0 <= i < rounds.len() ==> #[trigger] recs[i].len() == processed_count(rounds[i])
    &&& forall|i: int, k: int|
        0 <= i < rounds.len() && 0 <= k < recs[i].len() ==> {
            let rec = #[trigger] recs[i][k];
            &&& rounds[i].results[k] == text_message("toolResult"@, rec.output)
            &&& repeats_earlier(rounds, i, k) ==> rec.status == "duplicate"@ && rec.details == seq![
                ("status"@, "duplicate"@),
            ]
            &&& !repeats_earlier(rounds, i, k) ==> rec.status == "ok"@ || rec.status == "error"@
        }
}

proof fn lemma_entries_concat(
    tape: Seq<TapeEntryView>,
    a: Seq<(Seq<char>, Seq<char>)>,
    b: Seq<(Seq<char>, Seq<char>)>,
)
    ensures
        appended_entries(tape, a + b) == appended_entries(appended_entries(tape, a), b),
    decreases b.len(),
{
    if b.len() == 0 {
        assert(a + b =~= a);
    } else {
        lemma_entries_concat(tape, a, b.drop_last());
        assert((a + b).drop_last() =~= a + b.drop_last());
    }
}

proof fn lemma_entries_all(tape: Seq<TapeEntryView>, ty: Seq<char>, ps: Seq<Seq<char>>)
    ensures
        appended_all(tape, ty, ps) == appended_entries(tape, typed(ty, ps)),
    decreases ps.len(),
{
    if ps.len() > 0 {
        lemma_entries_all(tape, ty, ps.drop_last());
        assert(typed(ty, ps).drop_last() =~= typed(ty, ps.drop_last()));
    }
}

proof fn lemma_entries_one(tape: Seq<TapeEntryView>, ty: Seq<char>, p: Seq<char>)
    ensures
        appended(tape, ty, p) == appended_entries(tape, seq![(ty, p)]),
{
    reveal_with_fuel(appended_entries, 2);
    assert(seq![(ty, p)].drop_last() =~= Seq::<(Seq<char>, Seq<char>)>::empty());
}

proof fn lemma_calls_entries_same(
    round: nat,
    r: RoundView,
    r2: RoundView,
    recs: Seq<CallRecord>,
    recs2: Seq<CallRecord>,
    k: nat,
)
    requires
        r.reply == r2.reply,
        k <= recs.len(),
        k <= recs2.len(),
        recs.take(k as int) == recs2.take(k as int),
    ensures
        calls_entries(round, r, recs, k) == calls_entries(round, r2, recs2, k),
    decreases k,
{
    if k > 0 {
        assert(recs.take(k - 1) =~= recs.take(k as int).take(k - 1));
        assert(recs2.take(k - 1) =~= recs2.take(k as int).take(k - 1));
        assert(recs[k - 1] == recs.take(k as int)[k - 1]);
        assert(recs2[k - 1] == recs2.take(k as int)[k - 1]);
        lemma_calls_entries_same(round, r, r2, recs, recs2, (k - 1) as nat);
    }
}

proof fn lemma_rounds_entries_prefix(
    rounds: Seq<RoundView>,
    recs: Seq<Seq<CallRecord>>,
    recs2: Seq<Seq<CallRecord>>,
    profile: RuntimeProfileView,
)
    requires
        rounds.len() <= recs.len(),
        rounds.len() <= recs2.len(),
        forall|i: int| 0 <= i < rounds.len() ==> recs[i] == recs2[i],
    ensures
        rounds_entries(rounds, recs, profile) == rounds_entries(rounds, recs2, profile),
    decreases rounds.len(),
{
    if rounds.len() > 0 {
        lemma_rounds_entries_prefix(rounds.drop_last(), recs, recs2, profile);
    }
}

proof fn lemma_round_entries_call(
    n: nat,
    last: RoundView,
    last2: RoundView,
    rs: Seq<CallRecord>,
    rec: CallRecord,
    profile: RuntimeProfileView,
)
    requires
        last2.reply == last.reply,
        last2.tools == last.tools,
        last2.events == last.events,
        last.results.len() == rs.len(),
        rs.len() < max_calls_per_round(),
        last2.results.len() == rs.len() + 1,
    ensures
        round_entries(n, last2, rs.push(rec), profile) == round_entries(n, last, rs, profile) + call_entries(
            n,
            tool_calls_of(last.reply)[rs.len() as int],
            rec,
        ),
{
    let k = rs.len();
    assert(rs.push(rec).take(k as int) =~= rs.take(k as int));
    lemma_calls_entries_same(n, last2, last, rs.push(rec), rs, k);
    assert(rs.push(rec)[k as int] == rec);
    assert(round_entries(n, last2, rs.push(rec), profile) =~= round_entries(n, last, rs, profile)
        + call_entries(n, tool_calls_of(last.reply)[k as int], rec));
}

proof fn lemma_rounds_entries_last(
    log: Seq<RoundView>,
    recs: Seq<Seq<CallRecord>>,
    u: Seq<RoundView>,
    recs2: Seq<Seq<CallRecord>>,
    profile: RuntimeProfileView,
)
    requires
        log.len() > 0,
        u.len() == log.len(),
        u.drop_last() == log.drop_last(),
        recs.len() == log.len(),
        recs2.len() == log.len(),
        forall|i: int| 0 <= i < log.len() - 1 ==> recs2[i] == recs[i],
    ensures
        rounds_entries(u, recs2, profile) == rounds_entries(log.drop_last(), recs, profile) + round_entries(
            (log.len() - 1) as nat,
            u.last(),
            recs2[log.len() - 1],
            profile,
        ),
        rounds_entries(log, recs, profile) == rounds_entries(log.drop_last(), recs, profile) + round_entries(
            (log.len() - 1) as nat,
            log.last(),
            recs[log.len() - 1],
            profile,
        ),
{
    lemma_rounds_entries_prefix(log.drop_last(), recs2, recs, profile);
}

proof fn lemma_repeats_same(log: Seq<RoundView>, u: Seq<RoundView>, i: int, k: int)
    requires
        log.len() > 0,
        u.len() == log.len(),
        u.drop_last() == log.drop_last(),
        u.last().reply == log.last().reply,
        0 <= i < log.len(),
        0 <= k,
    ensures
        repeats_earlier(u, i, k) == repeats_earlier(log, i, k),
        u.take(i) == log.take(i),
{
    assert(u.take(i) =~= log.take(i)) by {
        assert forall|j: int| 0 <= j < i implies u[j] == log[j] by {
            if i < log.len() - 1 || j < log.len() - 1 {
                assert(u[j] == u.drop_last()[j]);
                assert(log[j] == log.drop_last()[j]);
            }
        }
    }
    if i == log.len() - 1 {
        assert(round_sigs(u[i], k as nat) =~= round_sigs(log[i], k as nat));
    } else {
        assert(u[i] == u.drop_last()[i]);
        assert(log[i] == log.drop_last()[i]);
    }
}

/// Recording one more call of the last round keeps the records in step with the rounds.
proof fn lemma_records_call(log: Seq<RoundView>, recs: Seq<Seq<CallRecord>>, u: Seq<RoundView>, rec: CallRecord)
    requires
        records_ok(log, recs),
        log.len() > 0,
        u.len() == log.len(),
        u.drop_last() == log.drop_last(),
        u.last().reply == log.last().reply,
        log.last().results.len() < max_calls_per_round(),
        u.last().results == log.last().results.push(text_message("toolResult"@, rec.output)),
        turn_sigs(log).contains(call_sig_of(log.last(), log.last().results.len() as int)) ==> rec.status
            == "duplicate"@ && rec.details == seq![("status"@, "duplicate"@)],
        !turn_sigs(log).contains(call_sig_of(log.last(), log.last().results.len() as int)) ==> rec.status
            == "ok"@ || rec.status == "error"@,
    ensures
        records_ok(u, recs.update(log.len() - 1, recs[log.len() - 1].push(rec))),
{
    let n = log.len() - 1;
    let k0 = log.last().results.len() as int;
    let r2 = recs.update(n, recs[n].push(rec));
    assert(log.drop_last() =~= log.take(n));
    assert(turn_sigs(log) == turn_sigs(log.drop_last()) + round_sigs(log.last(), k0 as nat));
    assert forall|i: int| 0 <= i < u.len() implies #[trigger] r2[i].len() == processed_count(u[i]) by {
        if i < n {
            assert(u[i] == u.drop_last()[i]);
            assert(log[i] == log.drop_last()[i]);
        }
    }
    assert forall|i: int, k: int| 0 <= i < u.len() && 0 <= k < r2[i].len() implies {
        let rc = #[trigger] r2[i][k];
        &&& u[i].results[k] == text_message("toolResult"@, rc.output)
        &&& repeats_earlier(u, i, k) ==> rc.status == "duplicate"@ && rc.details == seq![
            ("status"@, "duplicate"@),
        ]
        &&& !repeats_earlier(u, i, k) ==> rc.status == "ok"@ || rc.status == "error"@
    } by {
        lemma_repeats_same(log, u, i, k);
        if i < n {
            assert(u[i] == u.drop_last()[i]);
            assert(log[i] == log.drop_last()[i]);
            assert(r2[i] == recs[i]);
            assert(recs[i][k] == r2[i][k]);
        } else if k < k0 {
            assert(r2[i][k] == recs[i][k]);
        } else {
            assert(r2[i][k] == rec);
            assert(log.take(i) =~= log.drop_last());
        }
    }
}

/// The limit note keeps the records in step with the rounds.
proof fn lemma_records_limit(log: Seq<RoundView>, recs: Seq<Seq<CallRecord>>, u: Seq<RoundView>, m: MessageView)
    requires
        records_ok(log, recs),
        log.len() > 0,
        u.len() == log.len(),
        u.drop_last() == log.drop_last(),
        u.last().reply == log.last().reply,
        log.last().results.len() == max_calls_per_round(),
        u.last().results == log.last().results.push(m),
    ensures
        records_ok(u, recs),
{
    let n = log.len() - 1;
    assert forall|i: int| 0 <= i < u.len() implies #[trigger] recs[i].len() == processed_count(u[i]) by {
        if i < n {
            assert(u[i] == u.drop_last()[i]);
            assert(log[i] == log.drop_last()[i]);
        }
    }
    assert forall|i: int, k: int| 0 <= i < u.len() && 0 <= k < recs[i].len() implies {
        let rc = #[trigger] recs[i][k];
        &&& u[i].results[k] == text_message("toolResult"@, rc.output)
        &&& repeats_earlier(u, i, k) ==> rc.status == "duplicate"@ && rc.details == seq![
            ("status"@, "duplicate"@),
        ]
        &&& !repeats_earlier(u, i, k) ==> rc.status == "ok"@ || rc.status == "error"@
    } by {
        lemma_repeats_same(log, u, i, k);
        if i < n {
            assert(u[i] == u.drop_last()[i]);
            assert(log[i] == log.drop_last()[i]);
        }
    }
}

/// A round just opened has no records yet.
proof fn lemma_records_push(log: Seq<RoundView>, recs: Seq<Seq<CallRecord>>, r: RoundView)
    requires
        records_ok(log, recs),
        r.results.len() == 0,
    ensures
        records_ok(log.push(r), recs.push(Seq::<CallRecord>::empty())),
{
    let p = log.push(r);
    let r2 = recs.push(Seq::<CallRecord>::empty());
    assert forall|i: int| 0 <= i < p.len() implies #[trigger] r2[i].len() == processed_count(p[i]) by {
        if i < log.len() {
            assert(p[i] == log[i]);
        }
    }
    assert forall|i: int, k: int| 0 <= i < p.len() && 0 <= k < r2[i].len() implies {
        let rc = #[trigger] r2[i][k];
        &&& p[i].results[k] == text_message("toolResult"@, rc.output)
        &&& repeats_earlier(p, i, k) ==> rc.status == "duplicate"@ && rc.details == seq![
            ("status"@, "duplicate"@),
        ]
        &&& !repeats_earlier(p, i, k) ==> rc.status == "ok"@ || rc.status == "error"@
    } by {
        if i < log.len() {
            assert(p[i] == log[i]);
            assert(p.take(i) =~= log.take(i));
            assert(r2[i] == recs[i]);
        }
    }
}

/// The error the registry gives for a call it refuses: the tool is unknown, or its
/// arguments do not pass the tool's spec.
pub open spec fn refusal(reg: Seq<ToolSpecView>, name: Seq<char>, args: Seq<(Seq<char>, Seq<char>)>) -> Seq<char> {
    match name_index(reg, name) {
        None => "Unknown tool: "@ + name,
        Some(i) => match validate_args_spec(reg[i], args) {
            Err(msg) => msg,
            Ok(_) => Seq::<char>::empty(),
        },
    }
}

/// The record of call `c` when the registry refuses it.
pub open spec fn refused_record(reg: Seq<ToolSpecView>, c: ToolCallView) -> CallRecord {
    CallRecord { output: refusal(reg, c.1, c.2), status: "error"@, details: seq![("status"@, "error"@)] }
}

/// Every call that repeats none before it and that the registry refuses was recorded with
/// the registry's error and the status `error`.
pub open spec fn refusals_ok(reg: Seq<ToolSpecView>, rounds: Seq<RoundView>, recs: Seq<Seq<CallRecord>>) -> bool {
    forall|i: int, k: int|
        0 <= i < rounds.len() && 0 <= k < recs[i].len() && !repeats_earlier(rounds, i, k) && !call_accepted(
            reg,
            tool_calls_of(rounds[i].reply)[k].1,
            tool_calls_of(rounds[i].reply)[k].2,
        ) ==> #[trigger] recs[i][k] == refused_record(reg, tool_calls_of(rounds[i].reply)[k])
}

proof fn lemma_refusals_step(
    reg: Seq<ToolSpecView>,
    log: Seq<RoundView>,
    recs: Seq<Seq<CallRecord>>,
    u: Seq<RoundView>,
    recs2: Seq<Seq<CallRecord>>,
)
    requires
        refusals_ok(reg, log, recs),
        log.len() > 0,
        u.len() == log.len(),
        u.drop_last() == log.drop_last(),
        u.last().reply == log.last().reply,
        recs.len() == log.len(),
        recs2.len() == log.len(),
        forall|i: int| 0 <= i < log.len() - 1 ==> recs2[i] == recs[i],
        recs[log.len() - 1].len() <= recs2[log.len() - 1].len(),
        recs[log.len() - 1] == recs2[log.len() - 1].take(recs[log.len() - 1].len() as int),
        forall|k: int|
            recs[log.len() - 1].len() <= k < recs2[log.len() - 1].len() && !repeats_earlier(
                u,
                log.len() - 1,
                k,
            ) && !call_accepted(
                reg,
                tool_calls_of(log.last().reply)[k].1,
                tool_calls_of(log.last().reply)[k].2,
            ) ==> #[trigger] recs2[log.len() - 1][k] == refused_record(reg, tool_calls_of(log.last().reply)[k]),
    ensures
        refusals_ok(reg, u, recs2),
{
    let n = log.len() - 1;
    assert forall|i: int, k: int|
        0 <= i < u.len() && 0 <= k < recs2[i].len() && !repeats_earlier(u, i, k) && !call_accepted(
            reg,
            tool_calls_of(u[i].reply)[k].1,
            tool_calls_of(u[i].reply)[k].2,
        ) implies #[trigger] recs2[i][k] == refused_record(reg, tool_calls_of(u[i].reply)[k]) by {
        lemma_repeats_same(log, u, i, k);
        if i < n {
            assert(u[i] == u.drop_last()[i]);
            assert(log[i] == log.drop_last()[i]);
        } else if k < recs[n].len() {
            assert(recs2[n][k] == recs[n][k]);
        }
    }
}

proof fn lemma_refusals_push(reg: Seq<ToolSpecView>, log: Seq<RoundView>, recs: Seq<Seq<CallRecord>>, r: RoundView)
    requires
        refusals_ok(reg, log, recs),
        recs.len() == log.len(),
    ensures
        refusals_ok(reg, log.push(r), recs.push(Seq::<CallRecord>::empty())),
{
    let p = log.push(r);
    let r2 = recs.push(Seq::<CallRecord>::empty());
    assert forall|i: int, k: int|
        0 <= i < p.len() && 0 <= k < r2[i].len() && !repeats_earlier(p, i, k) && !call_accepted(
            reg,
            tool_calls_of(p[i].reply)[k].1,
            tool_calls_of(p[i].reply)[k].2,
        ) implies #[trigger] r2[i][k] == refused_record(reg, tool_calls_of(p[i].reply)[k]) by {
        assert(p[i] == log[i]);
        assert(p.take(i) =~= log.take(i));
        assert(r2[i] == recs[i]);
    }
}

/// How many of the records have the status `ok`: the calls whose tool run succeeded.
pub open spec fn ok_count(recs: Seq<CallRecord>) -> nat
    decreases recs.len(),
{
    if recs.len() == 0 {
        0
    } else {
        ok_count(recs.drop_last()) + if recs.last().status == "ok"@ {
            1nat
        } else {
            0nat
        }
    }
}

/// Each round counts as succeeded exactly its calls recorded with the status `ok`.
pub open spec fn successes_ok(rounds: Seq<RoundView>, recs: Seq<Seq<CallRecord>>) -> bool {
    forall|i: int| 0 <= i < rounds.len() ==> #[trigger] rounds[i].succeeded == ok_count(recs[i])
}

proof fn lemma_successes_step(
    log: Seq<RoundView>,
    recs: Seq<Seq<CallRecord>>,
    u: Seq<RoundView>,
    recs2: Seq<Seq<CallRecord>>,
)
    requires
        successes_ok(log, recs),
        log.len() > 0,
        u.len() == log.len(),
        u.drop_last() == log.drop_last(),
        forall|i: int| 0 <= i < log.len() - 1 ==> recs2[i] == recs[i],
        u.last().succeeded == ok_count(recs2[log.len() - 1]),
    ensures
        successes_ok(u, recs2),
{
    assert forall|i: int| 0 <= i < u.len() implies #[trigger] u[i].succeeded == ok_count(recs2[i]) by {
        if i < log.len() - 1 {
            assert(u[i] == u.drop_last()[i]);
            assert(log[i] == log.drop_last()[i]);
        }
    }
}

proof fn lemma_ok_count_none(recs: Seq<CallRecord>)
    requires
        forall|k: int| 0 <= k < recs.len() ==> #[trigger] recs[k].status != "ok"@,
    ensures
        ok_count(recs) == 0,
    decreases recs.len(),
{
    if recs.len() > 0 {
        assert(recs[recs.len() - 1].status != "ok"@);
        assert forall|k: int| 0 <= k < recs.drop_last().len() implies #[trigger] recs.drop_last()[k].status
            != "ok"@ by {
            assert(recs.drop_last()[k] == recs[k]);
        }
        lemma_ok_count_none(recs.drop_last());
    }
}

proof fn lemma_status_words()
    ensures
        "duplicate"@ != "ok"@,
        "error"@ != "ok"@,
{
    reveal_strlit("duplicate");
    reveal_strlit("error");
    reveal_strlit("ok");
    assert("duplicate"@.len() != "ok"@.len());
    assert("error"@.len() != "ok"@.len());
}

/// The records of `b` extend those of `a`, round by round.
pub open spec fn records_grow(a: Seq<Seq<CallRecord>>, b: Seq<Seq<CallRecord>>) -> bool {
    &&& a.len() <= b.len()
    &&& forall|i: int| 0 <= i < a.len() ==> #[trigger] a[i].len() <= b[i].len() && a[i] == b[i].take(
        a[i].len() as int,
    )
}

proof fn lemma_records_grow_refl(a: Seq<Seq<CallRecord>>)
    ensures
        records_grow(a, a),
{
    assert forall|i: int| 0 <= i < a.len() implies #[trigger] a[i].len() <= a[i].len() && a[i] == a[i].take(
        a[i].len() as int,
    ) by {
        assert(a[i] =~= a[i].take(a[i].len() as int));
    }
}

proof fn lemma_records_grow_trans(a: Seq<Seq<CallRecord>>, b: Seq<Seq<CallRecord>>, c: Seq<Seq<CallRecord>>)
    requires
        records_grow(a, b),
        records_grow(b, c),
    ensures
        records_grow(a, c),
{
    assert forall|i: int| 0 <= i < a.len() implies #[trigger] a[i].len() <= c[i].len() && a[i] == c[i].take(
        a[i].len() as int,
    ) by {
        assert(b[i] == c[i].take(b[i].len() as int));
        assert(a[i] =~= c[i].take(a[i].len() as int));
    }
}

proof fn lemma_records_grow_push(a: Seq<Seq<CallRecord>>, x: Seq<CallRecord>)
    ensures
        records_grow(a, a.push(x)),
{
    assert forall|i: int| 0 <= i < a.len() implies #[trigger] a[i].len() <= a.push(x)[i].len() && a[i]
        == a.push(x)[i].take(a[i].len() as int) by {
        assert(a.push(x)[i] == a[i]);
        assert(a[i] =~= a[i].take(a[i].len() as int));
    }
}

proof fn lemma_records_grow_last(a: Seq<Seq<CallRecord>>, rec: CallRecord)
    requires
        a.len() > 0,
    ensures
        records_grow(a, a.update(a.len() - 1, a[a.len() - 1].push(rec))),
{
    let b = a.update(a.len() - 1, a[a.len() - 1].push(rec));
    assert forall|i: int| 0 <= i < a.len() implies #[trigger] a[i].len() <= b[i].len() && a[i] == b[i].take(
        a[i].len() as int,
    ) by {
        assert(a[i] =~= b[i].take(a[i].len() as int));
    }
}

proof fn lemma_entries_two(tape: Seq<TapeEntryView>, a: (Seq<char>, Seq<char>), b: (Seq<char>, Seq<char>))
    ensures
        appended_entries(tape, seq![a, b]) == appended(appended(tape, a.0, a.1), b.0, b.1),
{
    reveal_with_fuel(appended_entries, 3);
    assert(seq![a, b].drop_last() =~= seq![a]);
    assert(seq![a].drop_last() =~= Seq::<(Seq<char>, Seq<char>)>::empty());
}

/// The limit note the tape gains is the entry its round gains.
proof fn lemma_limit_recorded(
    origin: Seq<TapeEntryView>,
    log: Seq<RoundView>,
    recs: Seq<Seq<CallRecord>>,
    u: Seq<RoundView>,
    profile: RuntimeProfileView,
    tb: Seq<TapeEntryView>,
)
    requires
        log.len() > 0,
        u.len() == log.len(),
        u.drop_last() == log.drop_last(),
        u.last().reply == log.last().reply,
        u.last().tools == log.last().tools,
        u.last().events == log.last().events,
        recs.len() == log.len(),
        recs[log.len() - 1].len() == max_calls_per_round(),
        log.last().results.len() == max_calls_per_round(),
        u.last().results.len() == max_calls_per_round() + 1,
        tb == appended_entries(origin, rounds_entries(log, recs, profile)),
    ensures
        appended(tb, "message"@, enc_msgs(seq![limit_message()])) == appended_entries(
            origin,
            rounds_entries(u, recs, profile),
        ),
{
    let n = log.len() - 1;
    lemma_rounds_entries_last(log, recs, u, recs, profile);
    lemma_calls_entries_same(n as nat, u.last(), log.last(), recs[n], recs[n], 6);
    assert(round_entries(n as nat, u.last(), recs[n], profile) =~= round_entries(n as nat, log.last(), recs[n], profile)
        + seq![message_entry(limit_message())]);
    lemma_entries_one(tb, "message"@, enc_msgs(seq![limit_message()]));
    lemma_entries_concat(origin, rounds_entries(log, recs, profile), seq![message_entry(limit_message())]);
    assert(rounds_entries(u, recs, profile) =~= rounds_entries(log, recs, profile) + seq![
        message_entry(limit_message()),
    ]);
}

/// The entries a call adds to the tape are those its round gains.
proof fn lemma_call_recorded(
    origin: Seq<TapeEntryView>,
    log: Seq<RoundView>,
    recs: Seq<Seq<CallRecord>>,
    u: Seq<RoundView>,
    rec: CallRecord,
    profile: RuntimeProfileView,
    t0: Seq<TapeEntryView>,
    tape: Seq<TapeEntryView>,
)
    requires
        log.len() > 0,
        u.len() == log.len(),
        u.drop_last() == log.drop_last(),
        u.last().reply == log.last().reply,
        u.last().tools == log.last().tools,
        u.last().events == log.last().events,
        recs.len() == log.len(),
        log.last().results.len() == recs[log.len() - 1].len(),
        log.last().results.len() < max_calls_per_round(),
        u.last().results.len() == log.last().results.len() + 1,
        t0 == appended_entries(origin, rounds_entries(log, recs, profile)),
        ({
            let n = (log.len() - 1) as nat;
            let c = tool_calls_of(log.last().reply)[log.last().results.len() as int];
            tape == appended(
                appended(
                    appended_all(t0, "event"@, chunk_records(n, c.1, rec.output)),
                    "message"@,
                    enc_msgs(seq![text_message("toolResult"@, rec.output)]),
                ),
                "event"@,
                json_event("tool_call"@, tool_call_fields(c, rec)),
            )
        }),
    ensures
        tape == appended_entries(
            origin,
            rounds_entries(u, recs.update(log.len() - 1, recs[log.len() - 1].push(rec)), profile),
        ),
{
    let n = log.len() - 1;
    let c = tool_calls_of(log.last().reply)[log.last().results.len() as int];
    let recs2 = recs.update(n, recs[n].push(rec));
    let chunks = chunk_records(n as nat, c.1, rec.output);
    let tail = seq![
        message_entry(text_message("toolResult"@, rec.output)),
        ("event"@, json_event("tool_call"@, tool_call_fields(c, rec))),
    ];
    lemma_entries_all(t0, "event"@, chunks);
    lemma_entries_two(appended_all(t0, "event"@, chunks), tail[0], tail[1]);
    lemma_entries_concat(t0, typed("event"@, chunks), tail);
    assert(tape == appended_entries(t0, call_entries(n as nat, c, rec)));
    lemma_entries_concat(origin, rounds_entries(log, recs, profile), call_entries(n as nat, c, rec));
    lemma_rounds_entries_last(log, recs, u, recs2, profile);
    lemma_round_entries_call(n as nat, log.last(), u.last(), recs[n], rec, profile);
    assert(rounds_entries(u, recs2, profile) =~= rounds_entries(log, recs, profile) + call_entries(
        n as nat,
        c,
        rec,
    ));
}

/// The turn whose rounds are `rounds` ended with `answer`, and its `turn_stop` event, with the
/// fields of how it ended, is the last entry of `tape`.
pub open spec fn stop_recorded(tape: Seq<TapeEntryView>, answer: Seq<char>, rounds: Seq<RoundView>) -> bool {
    &&& turn_stop(rounds) matches Some((a, f)) && a == answer && tape.len() > 0
        && tape.last().entry_type == "event"@ && tape.last().payload == json_event("turn_stop"@, f)
}

/// How many rounds in a row before the last one had the last one's plan (counted up to two).
spec fn repeat_count(rounds: Seq<RoundView>) -> nat {
    let n = rounds.len();
    if n >= 2 && plan_of(rounds[n - 1].reply) == plan_of(rounds[n - 2].reply) {
        if n >= 3 && plan_of(rounds[n - 2].reply) == plan_of(rounds[n - 3].reply) {
            2
        } else {
            1
        }
    } else {
        0
    }
}

/// How many rounds in a row, at the end, had no successful call (counted up to two).
spec fn stall_count(rounds: Seq<RoundView>) -> nat {
    let n = rounds.len();
    if n >= 1 && rounds[n - 1].succeeded == 0 {
        if n >= 2 && rounds[n - 2].succeeded == 0 {
            2
        } else {
            1
        }
    } else {
        0
    }
}

proof fn lemma_repeat_step(rounds: Seq<RoundView>, previous: Option<Seq<char>>, r: RoundView)
    requires
        repeat_count(rounds) < 2,
        rounds.len() == 0 ==> previous is None,
        rounds.len() > 0 ==> previous == Some(plan_of(rounds.last().reply)),
    ensures
        next_repeat(previous, repeat_count(rounds), plan_of(r.reply)) == repeat_count(rounds.push(r)),
        repeat_count(rounds.push(r)) >= 2 <==> repeat_at(rounds.push(r)),
{
    let p = rounds.push(r);
    let n = rounds.len();
    assert(p[n as int] == r);
    if n >= 1 {
        assert(p[n - 1] == rounds[n - 1]);
    }
    if n >= 2 {
        assert(p[n - 2] == rounds[n - 2]);
    }
}

proof fn lemma_additions_push(rounds: Seq<RoundView>, r: RoundView)
    ensures
        turn_additions(rounds.push(r)) == turn_additions(rounds) + seq![r.reply] + r.results,
{
    assert(rounds.push(r).drop_last() =~= rounds);
}

proof fn lemma_additions_result(rounds: Seq<RoundView>, m: MessageView, ok: bool)
    requires
        rounds.len() > 0,
    ensures
        ({
            let n = rounds.len() - 1;
            let last = rounds[n];
            let r = RoundView {
                results: last.results.push(m),
                succeeded: if ok {
                    last.succeeded + 1
                } else {
                    last.succeeded
                },
                ..last
            };
            turn_additions(rounds.update(n, r)) == turn_additions(rounds).push(m)
        }),
{
    let n = rounds.len() - 1;
    let last = rounds[n];
    let r = RoundView {
        results: last.results.push(m),
        succeeded: if ok {
            last.succeeded + 1
        } else {
            last.succeeded
        },
        ..last
    };
    let u = rounds.update(n, r);
    assert(u.drop_last() =~= rounds.drop_last());
    assert(turn_additions(u) =~= turn_additions(rounds).push(m));
}

fn push_clones(out: &mut Vec<Message>, ms: &[Message])
    ensures
        message_views(final(out)@) == message_views(old(out)@) + message_views(ms@),
{
    let ghost start = message_views(out@);
    for i in 0..ms.len()
        invariant
            message_views(out@) == start + message_views(ms@).take(i as int),
    {
        let m = ms[i].clone();
        let ghost prev = out@;
        out.push(m);
        assert(message_views(out@) =~= message_views(prev).push(m@));
        assert(message_views(ms@).take(i + 1) =~= message_views(ms@).take(i as int).push(
            ms@[i as int]@,
        ));
    }
    assert(message_views(ms@).take(ms@.len() as int) =~= message_views(ms@));
}

/// The messages handed to the model in a round: the system prompt, the context window of
/// the tape at the turn's start, then the messages the turn has added.
pub fn round_messages(context: &[Message], turn: &[Message]) -> (r: Vec<Message>)
    ensures
        message_views(r@) == seq![system_message()] + message_views(context@) + message_views(turn@),
{
    let mut content: Vec<ContentItem> = Vec::new();
    content.push(
        ContentItem::Text(
            "You are SimpleAgent. Be concise, deterministic, and observable. Prefer tool calls when needed, and avoid hidden assumptions.".to_owned(),
        ),
    );
    let system = Message { role: "system".to_owned(), content };
    assert(system@.content =~= seq![text_item(system_prompt())]);
    let mut r: Vec<Message> = Vec::new();
    r.push(system);
    assert(message_views(r@) =~= seq![system_message()]);
    push_clones(&mut r, context);
    push_clones(&mut r, turn);
    r
}

/// Asks `provider` for the events of a streamed answer to `request`, with what it was
/// handed.
fn stream_from<P: ModelProvider>(provider: &mut P, request: &[Message], tools: &[ToolSpec]) -> (r: (
    Result<Vec<StreamEvent>, String>,
    Ghost<Seq<MessageView>>,
))
    ensures
        r.1@ == message_views(request@),
{
    (provider.stream_generate(request, tools), Ghost(message_views(request@)))
}

/// Asks `provider` to answer `request` with `tools` visible: the answer, and the round it
/// opens, recording what the model was handed.
fn answer_from<P: ModelProvider>(provider: &mut P, request: &[Message], tools: &[ToolSpec]) -> (r: (
    Message,
    Ghost<RoundView>,
))
    ensures
        r.1@.request == message_views(request@),
        r.1@.stream_request == message_views(request@),
        r.1@.tools == spec_views(tools@),
        r.1@.events == Seq::<StreamEventView>::empty(),
        r.1@.reply == r.0@,
        r.1@.results == Seq::<MessageView>::empty(),
        r.1@.succeeded == 0,
{
    let reply = provider.generate(request, tools);
    let ghost round = RoundView {
        request: message_views(request@),
        stream_request: message_views(request@),
        tools: spec_views(tools@),
        events: Seq::empty(),
        reply: reply@,
        results: Seq::empty(),
        succeeded: 0,
    };
    (reply, Ghost(round))
}

/// None of the events the loop records along a turn, but `turn_stop`, is a `turn_stop` entry.
proof fn lemma_loop_events_not_stop(fields: Seq<(Seq<char>, Seq<char>)>)
    ensures
        !stop_prefix().is_prefix_of(json_event("turn_start"@, fields)),
        !stop_prefix().is_prefix_of(json_event("round_start"@, fields)),
        !stop_prefix().is_prefix_of(json_event("assistant_text_delta"@, fields)),
        !stop_prefix().is_prefix_of(json_event("tool_args_partial"@, fields)),
        !stop_prefix().is_prefix_of(json_event("assistant_stream_done"@, fields)),
        !stop_prefix().is_prefix_of(json_event("tool_result_chunk"@, fields)),
        !stop_prefix().is_prefix_of(json_event("tool_call"@, fields)),
{
    reveal_strlit("turn_stop");
    reveal_strlit("turn_start");
    reveal_strlit("round_start");
    reveal_strlit("assistant_text_delta");
    reveal_strlit("tool_args_partial");
    reveal_strlit("assistant_stream_done");
    reveal_strlit("tool_result_chunk");
    reveal_strlit("tool_call");
    lemma_plain_name("turn_start"@);
    lemma_plain_name("round_start"@);
    lemma_plain_name("assistant_text_delta"@);
    lemma_plain_name("tool_args_partial"@);
    lemma_plain_name("assistant_stream_done"@);
    lemma_plain_name("tool_result_chunk"@);
    lemma_plain_name("tool_call"@);
    lemma_other_event("turn_start"@, fields, 7);
    lemma_other_event("round_start"@, fields, 0);
    lemma_other_event("assistant_text_delta"@, fields, 0);
    lemma_other_event("tool_args_partial"@, fields, 1);
    lemma_other_event("assistant_stream_done"@, fields, 0);
    lemma_other_event("tool_result_chunk"@, fields, 1);
    lemma_other_event("tool_call"@, fields, 1);
}

/// A step adds no `turn_stop` entry to the tape, except as the last entry of a finished
/// answer.
pub open spec fn stops_only_last(before: Seq<TapeEntryView>, after: Seq<TapeEntryView>, r: StepView) -> bool {
    match r {
        StepView::Finished(Ok(_)) => no_stop_between(after, before.len() as int, after.len() - 1),
        _ => no_stop_between(after, before.len() as int, after.len() as int),
    }
}

proof fn lemma_no_stop_extend(a: Seq<TapeEntryView>, b: Seq<TapeEntryView>, from: int, to: int)
    requires
        a.is_prefix_of(b),
        0 <= from <= a.len(),
        no_stop_between(a, from, a.len() as int),
        no_stop_between(b, a.len() as int, to),
    ensures
        no_stop_between(b, from, to),
{
    assert forall|j: int| from <= j < to implies !#[trigger] is_stop_entry(b[j]) by {
        if j < a.len() {
            assert(a == b.subrange(0, a.len() as int));
            assert(b.subrange(0, a.len() as int)[j] == b[j]);
        }
    }
}

proof fn lemma_appended_one_no_stop(tape: Seq<TapeEntryView>, entry_type: Seq<char>, payload: Seq<char>)
    requires
        entry_type != "event"@ || !stop_prefix().is_prefix_of(payload),
    ensures
        no_stop_between(appended(tape, entry_type, payload), tape.len() as int, tape.len() as int + 1),
        tape.is_prefix_of(appended(tape, entry_type, payload)),
{
    lemma_appended_no_stop(tape, entry_type, payload);
    lemma_appended_prefix(tape, entry_type, payload);
}

proof fn lemma_appended_all_no_stop(tape: Seq<TapeEntryView>, entry_type: Seq<char>, ps: Seq<Seq<char>>)
    requires
        forall|i: int|
            0 <= i < ps.len() ==> entry_type != "event"@ || !stop_prefix().is_prefix_of(#[trigger] ps[i]),
    ensures
        no_stop_between(appended_all(tape, entry_type, ps), tape.len() as int, appended_all(tape, entry_type, ps).len() as int),
        tape.is_prefix_of(appended_all(tape, entry_type, ps)),
    decreases ps.len(),
{
    lemma_appended_all_prefix(tape, entry_type, ps);
    if ps.len() > 0 {
        let d = ps.drop_last();
        assert forall|i: int| 0 <= i < d.len() implies entry_type != "event"@ || !stop_prefix().is_prefix_of(#[trigger] d[i]) by {
            assert(d[i] == ps[i]);
        }
        lemma_appended_all_no_stop(tape, entry_type, d);
        let mid = appended_all(tape, entry_type, d);
        assert(ps[ps.len() - 1] == ps.last());
        lemma_appended_one_no_stop(mid, entry_type, ps.last());
        lemma_no_stop_extend(mid, appended(mid, entry_type, ps.last()), tape.len() as int, mid.len() as int + 1);
    }
}

proof fn lemma_message_no_stop(tape: Seq<TapeEntryView>, payload: Seq<char>)
    ensures
        no_stop_between(appended(tape, "message"@, payload), tape.len() as int, tape.len() as int + 1),
        tape.is_prefix_of(appended(tape, "message"@, payload)),
{
    reveal_strlit("message");
    reveal_strlit("event");
    assert("message"@.len() != "event"@.len());
    lemma_appended_one_no_stop(tape, "message"@, payload);
}

proof fn lemma_chunks_no_stop(tape: Seq<TapeEntryView>, round: nat, tool: Seq<char>, output: Seq<char>)
    ensures
        no_stop_between(
            appended_all(tape, "event"@, chunk_records(round, tool, output)),
            tape.len() as int,
            appended_all(tape, "event"@, chunk_records(round, tool, output)).len() as int,
        ),
        tape.is_prefix_of(appended_all(tape, "event"@, chunk_records(round, tool, output))),
{
    let ps = chunk_records(round, tool, output);
    let chunks = chunks_spec(output, 160);
    assert forall|i: int| 0 <= i < ps.len() implies "event"@ != "event"@ || !stop_prefix().is_prefix_of(#[trigger] ps[i]) by {
        lemma_loop_events_not_stop(
            seq![
                ("round"@, decimal(round)),
                ("tool"@, tool),
                ("index"@, decimal(i as nat)),
                ("chunks"@, decimal(chunks.len())),
                ("chunk"@, chunks[i]),
            ],
        );
    }
    lemma_appended_all_no_stop(tape, "event"@, ps);
}

#[verifier::spinoff_prover]
#[verifier::rlimit(40)]
proof fn lemma_stream_no_stop(tape: Seq<TapeEntryView>, round: nat, events: Seq<StreamEvent>)
    ensures
        ({
            let ps = Seq::new(
                events.len(),
                |i: int| stream_event_record(round, i as nat, stream_event_view(events[i])),
            );
            &&& no_stop_between(appended_all(tape, "event"@, ps), tape.len() as int, appended_all(tape, "event"@, ps).len() as int)
            &&& tape.is_prefix_of(appended_all(tape, "event"@, ps))
        }),
{
    let ps = Seq::new(
        events.len(),
        |i: int| stream_event_record(round, i as nat, stream_event_view(events[i])),
    );
    assert forall|i: int| 0 <= i < ps.len() implies "event"@ != "event"@ || !stop_prefix().is_prefix_of(#[trigger] ps[i]) by {
        match stream_event_view(events[i]) {
            StreamEventView::TextDelta(d) => {
                lemma_loop_events_not_stop(
                    seq![("round"@, decimal(round)), ("index"@, decimal(i as nat)), ("delta"@, d)],
                );
            },
            StreamEventView::ToolCallDelta { name, partial_args } => {
                lemma_loop_events_not_stop(
                    seq![
                        ("round"@, decimal(round)),
                        ("index"@, decimal(i as nat)),
                        ("tool"@, name),
                        ("partial"@, partial_args),
                        ("parsed_pairs"@, decimal(partial_arg_pairs(partial_args).len())),
                        ("parsed"@, debug_pairs(partial_arg_pairs(partial_args))),
                    ],
                );
            },
            StreamEventView::Done(a, b, c) => {
                lemma_loop_events_not_stop(
                    seq![
                        ("round"@, decimal(round)),
                        ("index"@, decimal(i as nat)),
                        ("input_tokens"@, decimal(a)),
                        ("output_tokens"@, decimal(b)),
                        ("total_tokens"@, decimal(c)),
                    ],
                );
            },
        }
    }
    lemma_appended_all_no_stop(tape, "event"@, ps);
}

/// A name of lowercase ASCII letters and underscores is written as it is in JSON.
proof fn lemma_plain_name(name: Seq<char>)
    requires
        forall|i: int| 0 <= i < name.len() ==> ('a' <= #[trigger] name[i] <= 'z' || name[i] == '_'),
    ensures
        forall|i: int| 0 <= i < name.len() ==> json_plain(#[trigger] name[i]),
{
}

/// The message a user's input becomes.
pub open spec fn user_message(text: Seq<char>) -> MessageView {
    text_message("user"@, text)
}

/// The system prompt of the loop.
pub open spec fn system_prompt() -> Seq<char> {
    "You are SimpleAgent. Be concise, deterministic, and observable. Prefer tool calls when needed, and avoid hidden assumptions."@
}

/// The turn-based agent: it routes input, answers commands, and runs the tool-calling loop
/// over a model provider, handing each tool and shell execution to its caller.
pub struct AgentLoop<P: ModelProvider> {
    provider: P,
    tools: ToolRegistry,
    tape: TapeStore,
    workspace: String,
    router: Router,
    max_rounds: usize,
    context_window: usize,
    max_tool_calls_per_round: usize,
    max_stalled_rounds: usize,
    tool_view: ProgressiveToolView,
    profile: RuntimeProfile,
    turn: Option<Turn>,
    shell_command: Option<String>,
    log: Ghost<Seq<RoundView>>,
    window: Ghost<Seq<MessageView>>,
    asked: Ghost<nat>,
    asked0: Ghost<nat>,
    base: Ghost<Set<Seq<char>>>,
    failure: Ghost<Option<(Seq<MessageView>, Seq<ToolSpecView>, Seq<char>)>>,
    origin: Ghost<Seq<TapeEntryView>>,
    records: Ghost<Seq<Seq<CallRecord>>>,
}

impl<P: ModelProvider> AgentLoop<P> {
    spec fn limits_ok(&self) -> bool {
        &&& self.max_rounds == max_rounds()
        &&& self.context_window == 50
        &&& self.max_tool_calls_per_round == max_calls_per_round()
        &&& self.max_stalled_rounds == 3
    }

    /// The loop's state is consistent.
    pub closed spec fn wf(&self) -> bool {
        &&& self.limits_ok()
        &&& (self.shell_command is Some ==> self.turn is None)
        &&& (self.turn matches Some(t) ==> turn_ok(t) && t.awaiting_tool && log_ok(t, false) && seen_ok(t)
            && self.log@ == t.log@ && self.window@ == message_views(t.context@) && self.tracks(t)
            && self.asked0@ == t.asked0@ && self.base@ == t.base@ && self.failure@ is None
            && self.origin@ == t.origin@ && self.records@ == t.records@ && call_accepted(
            self.tools@,
            t.calls@[t.idx as int].1@,
            pair_views(t.calls@[t.idx as int].2@),
        ))
    }

    /// The ghost records of turn `t` agree with the loop: the model was asked twice per
    /// round, each round was shown the tools progressive exposure allows, and the active
    /// tools are the turn's base and the tools the model selected.
    spec fn tracks(&self, t: Turn) -> bool {
        &&& self.asked@ == t.asked0@ + 2 * t.log@.len()
        &&& records_ok(t.log@, t.records@)
        &&& refusals_ok(self.tools@, t.log@, t.records@)
        &&& successes_ok(t.log@, t.records@)
        &&& self.tape@ == appended_entries(t.origin@, rounds_entries(t.log@, t.records@, self.profile@))
        &&& tools_shown_ok(self.tool_view@.all, t.base@, t.log@)
        &&& self.tool_view@.active + hinted(lowercase(t.text@)) == t.base@ + noted_names(t.log@) + (
        if t.awaiting_tool {
            set![t.calls@[t.idx as int].1@]
        } else {
            Set::<Seq<char>>::empty()
        })
    }

    /// The tape as the current (or last) turn's opening left it.
    pub closed spec fn turn_origin(&self) -> Seq<TapeEntryView> {
        self.origin@
    }

    /// What the loop recorded of the calls of the current (or last) turn, round by round.
    pub closed spec fn call_records(&self) -> Seq<Seq<CallRecord>> {
        self.records@
    }

    /// How many times the model was asked, for a streamed answer or a full one.
    pub closed spec fn provider_calls(&self) -> nat {
        self.asked@
    }

    /// How many times the model had been asked when the current (or last) turn started.
    pub closed spec fn turn_calls_start(&self) -> nat {
        self.asked0@
    }

    /// The tools the current (or last) turn showed from its start: those active before it
    /// and those its input hints at.
    pub closed spec fn tool_base(&self) -> Set<Seq<char>> {
        self.base@
    }

    /// The names of the active tools.
    pub closed spec fn active_tools(&self) -> Set<Seq<char>> {
        self.tool_view@.active
    }

    /// All the tools progressive exposure can show, in order.
    pub closed spec fn tool_catalog(&self) -> Seq<ToolSpecView> {
        self.tool_view@.all
    }

    /// Where the last turn ended because the model's streamed answer failed: what the model
    /// was handed (the messages and the tools) and the error it gave.
    pub closed spec fn failure(&self) -> Option<(Seq<MessageView>, Seq<ToolSpecView>, Seq<char>)> {
        self.failure@
    }

    /// The rounds of the current turn (or of the last one), in order: one per time the
    /// model was asked.
    pub closed spec fn rounds(&self) -> Seq<RoundView> {
        self.log@
    }

    /// The context window the current (or last) turn started from: the tape's messages at
    /// its start, at most the last 50.
    pub closed spec fn window(&self) -> Seq<MessageView> {
        self.window@
    }

    /// The loop's limits: rounds per turn, messages of context, tool calls per round, and
    /// rounds in a row without a successful call.
    pub closed spec fn limits(&self) -> (nat, nat, nat, nat) {
        (
            self.max_rounds as nat,
            self.context_window as nat,
            self.max_tool_calls_per_round as nat,
            self.max_stalled_rounds as nat,
        )
    }

    /// The tape's entries.
    pub closed spec fn tape_view(&self) -> Seq<TapeEntryView> {
        self.tape@
    }

    /// The workspace directory.
    pub closed spec fn workspace_view(&self) -> Seq<char> {
        self.workspace@
    }

    /// The registered tools.
    pub closed spec fn registry(&self) -> Seq<ToolSpecView> {
        self.tools@
    }

    /// The runtime profile.
    pub closed spec fn profile_view(&self) -> RuntimeProfileView {
        self.profile@
    }

    /// The tools the model is shown at present.
    pub closed spec fn visible_tools(&self) -> Seq<ToolSpecView> {
        visible_specs(self.tool_view@.all, self.tool_view@.active)
    }

    /// Whether a tool execution is awaited.
    pub closed spec fn awaits_tool(&self) -> bool {
        self.turn is Some
    }

    /// Whether a shell execution is awaited.
    pub closed spec fn awaits_shell(&self) -> bool {
        self.shell_command is Some
    }

    /// The signatures of the tool calls run in the current turn, in order.
    pub closed spec fn executed(&self) -> Seq<Seq<char>> {
        match self.turn {
            Some(t) => t.executed@,
            None => Seq::<Seq<char>>::empty(),
        }
    }

    /// The round of the current turn (counted from zero).
    pub closed spec fn round(&self) -> nat {
        match self.turn {
            Some(t) => t.round as nat,
            None => 0,
        }
    }

    /// The name of the tool whose run is awaited.
    pub closed spec fn pending_tool(&self) -> Seq<char> {
        match self.turn {
            Some(t) => t.calls@[t.idx as int].1@,
            None => Seq::<char>::empty(),
        }
    }

    /// The tool executions of the current round.
    pub closed spec fn round_runs(&self) -> nat {
        match self.turn {
            Some(t) => t.runs as nat,
            None => 0,
        }
    }

    /// A loop over `provider` with the tools of `tools`, recording on `tape`, working in
    /// `workspace` under `profile`.
    pub fn new(
        provider: P,
        tools: ToolRegistry,
        tape: TapeStore,
        workspace: String,
        profile: RuntimeProfile,
    ) -> (r: Self)
        ensures
            r.wf(),
            r.tape_view() == tape@,
            r.registry() == tools@,
            r.profile_view() == profile@,
            r.workspace_view() == workspace@,
            r.limits() == (15nat, 50nat, 6nat, 3nat),
            r.visible_tools() == visible_specs(
                tools@,
                if has_tool_spec(tools@, "read"@) {
                    set!["read"@]
                } else {
                    Set::<Seq<char>>::empty()
                },
            ),
            !r.awaits_tool(),
            !r.awaits_shell(),
    {
        let tool_view = ProgressiveToolView::new(tools.specs());
        AgentLoop {
            provider,
            tools,
            tape,
            workspace,
            router: Router,
            max_rounds: 15,
            context_window: 50,
            max_tool_calls_per_round: 6,
            max_stalled_rounds: 3,
            tool_view,
            profile,
            turn: None,
            shell_command: None,
            log: Ghost(Seq::empty()),
            window: Ghost(Seq::empty()),
            asked: Ghost(0),
            asked0: Ghost(0),
            base: Ghost(Set::empty()),
            failure: Ghost(None),
            origin: Ghost(Seq::empty()),
            records: Ghost(Seq::empty()),
        }
    }

    /// The tape.
    pub fn tape(&self) -> (r: &TapeStore)
        ensures
            r@ == self.tape_view(),
    {
        &self.tape
    }

    /// The workspace directory.
    pub fn workspace(&self) -> (r: &str)
        ensures
            r@ == self.workspace_view(),
    {
        self.workspace.as_str()
    }

    /// The tool registry.
    pub fn tools(&self) -> (r: &ToolRegistry)
        ensures
            r@ == self.registry(),
    {
        &self.tools
    }

    /// Whether `/trace <args>` can be shown for the current tape.
    pub fn trace_is_renderable(&self, args: &str) -> (r: bool)
        ensures
            r == trace_renderable(self.tape_view(), args@),
    {
        trace_is_renderable(&self.tape, args)
    }
}

/// A step as spec values.
pub enum StepView {
    RunTool { name: Seq<char>, args: Seq<(Seq<char>, Seq<char>)> },
    RunShell { command: Seq<char> },
    Finished(Result<Seq<char>, Seq<char>>),
}

pub open spec fn step_view(s: Step) -> StepView {
    match s {
        Step::RunTool { name, args } => StepView::RunTool { name: name@, args: pair_views(args@) },
        Step::RunShell { command } => StepView::RunShell { command: command@ },
        Step::Finished(r) => StepView::Finished(
            match r {
                Ok(t) => Ok(t@),
                Err(e) => Err(e@),
            },
        ),
    }
}

/// What a `/` command does: its step and the tape after it.
pub open spec fn command_spec(
    tape: Seq<TapeEntryView>,
    reg: Seq<ToolSpecView>,
    profile: RuntimeProfileView,
    command: Seq<char>,
    args: Seq<char>,
) -> (StepView, Seq<TapeEntryView>) {
    if command == "help"@ || command == "h"@ {
        (StepView::Finished(Ok(help_text())), tape)
    } else if command == "tools"@ {
        (StepView::Finished(Ok(tools_listing(reg))), tape)
    } else if command == "trace"@ {
        (StepView::Finished(trace_spec(tape, args)), tape)
    } else if command == "tape.search"@ {
        (StepView::Finished(Ok(search_listing(tape, args))), tape)
    } else if command == "handoff.list"@ {
        (StepView::Finished(Ok(handoff_listing(tape))), tape)
    } else if command == "handoff"@ {
        let before = tape.len();
        let name = handoff_name(args, before);
        (
            StepView::Finished(Ok(handoff_reply(name, before))),
            appended(
                tape,
                "handoff"@,
                anchor_payload(name, "entries_before="@ + decimal(before)),
            ),
        )
    } else if command == "shell"@ {
        if profile is Readonly {
            (
                StepView::Finished(Ok("Shell command route is disabled for this runtime profile."@)),
                tape,
            )
        } else if trim(args).len() == 0 {
            (StepView::Finished(Ok("Empty command."@)), tape)
        } else {
            (StepView::RunShell { command: args }, tape)
        }
    } else {
        (StepView::Finished(Ok("Unknown command: "@ + command + ". Try /help."@)), tape)
    }
}

/// The name of the command a route carries (`help` if it carries none).
pub open spec fn command_name(route: crate::router::RouteView) -> Seq<char> {
    match route.command {
        Some(c) => c,
        None => "help"@,
    }
}

/// Being a prefix is transitive.
proof fn lemma_prefix_trans(a: Seq<TapeEntryView>, b: Seq<TapeEntryView>, c: Seq<TapeEntryView>)
    requires
        a.is_prefix_of(b),
        b.is_prefix_of(c),
    ensures
        a.is_prefix_of(c),
{
    assert forall|i: int| 0 <= i < a.len() implies a[i] == c[i] by {
        assert(a[i] == b[i]);
        assert(b[i] == c[i]);
    }
    assert(a =~= c.subrange(0, a.len() as int));
}

/// A tape is a prefix of itself with one more entry.
proof fn lemma_appended_prefix(tape: Seq<TapeEntryView>, ty: Seq<char>, p: Seq<char>)
    ensures
        tape.is_prefix_of(appended(tape, ty, p)),
{
    assert(tape =~= appended(tape, ty, p).subrange(0, tape.len() as int));
}

/// A tape is a prefix of itself with more entries.
proof fn lemma_appended_all_prefix(tape: Seq<TapeEntryView>, ty: Seq<char>, ps: Seq<Seq<char>>)
    ensures
        tape.is_prefix_of(appended_all(tape, ty, ps)),
    decreases ps.len(),
{
    if ps.len() == 0 {
        assert(tape =~= tape.subrange(0, tape.len() as int));
    } else {
        lemma_appended_all_prefix(tape, ty, ps.drop_last());
        let mid = appended_all(tape, ty, ps.drop_last());
        lemma_appended_prefix(mid, ty, ps.last());
        lemma_prefix_trans(tape, mid, appended_all(tape, ty, ps));
    }
}

/// A tape is a prefix of itself.
proof fn lemma_prefix_refl(a: Seq<TapeEntryView>)
    ensures
        a.is_prefix_of(a),
{
    assert(a =~= a.subrange(0, a.len() as int));
}

fn contains_string(list: &Vec<String>, s: &String) -> (r: bool)
    ensures
        r == string_views(list@).contains(s@),
{
    let ghost views = string_views(list@);
    for i in 0..list.len()
        invariant
            views == string_views(list@),
            forall|k: int| 0 <= k < i ==> views[k] != s@,
    {
        if crate::text::str_eq(list[i].as_str(), s.as_str()) {
            assert(views[i as int] == s@);
            return true;
        }
    }
    false
}

fn status_details(status: &str) -> (r: Vec<(String, String)>)
    ensures
        pair_views(r@) == one_pair("status"@, status@),
{
    let mut r: Vec<(String, String)> = Vec::new();
    r.push(field("status", status.to_owned()));
    assert(pair_views(r@) =~= one_pair("status"@, status@));
    r
}

impl<P: ModelProvider> AgentLoop<P> {
    spec fn idle(&self) -> bool {
        &&& self.limits_ok()
        &&& self.turn is None
        &&& self.shell_command is None
    }

    spec fn same_setup(&self, other: &Self) -> bool {
        &&& self.tools@ == other.tools@
        &&& self.profile@ == other.profile@
        &&& self.workspace@ == other.workspace@
        &&& self.tool_view@.all == other.tool_view@.all
    }

    /// Appends a structured event to the tape.
    fn event(&mut self, name: &str, fields: Vec<(String, String)>)
        requires
            old(self).idle(),
        ensures
            final(self).idle(),
            final(self).same_setup(old(self)),
            final(self).tool_view@ == old(self).tool_view@,
            final(self).asked == old(self).asked,
            final(self).failure == old(self).failure,
            final(self).tape@ == appended(old(self).tape@, "event"@, json_event(name@, pair_views(fields@))),
            old(self).tape@.is_prefix_of(final(self).tape@),
    {
        self.tape.append_event_json(name, fields.as_slice());
        proof {
            lemma_appended_prefix(
                old(self).tape@,
                "event"@,
                json_event(name@, pair_views(fields@)),
            );
        }
    }

    fn toolset_text(specs: &Vec<ToolSpec>) -> (r: String)
        ensures
            r@ == join(spec_names(spec_views(specs@)), ","@),
    {
        let names = tool_names(specs.as_slice());
        join_strings(names.as_slice(), ",")
    }

    /// Records the outcome of the call at `t.idx` and moves past it.
    #[verifier::rlimit(40)]
    fn record_call(
        &mut self,
        t: &mut Turn,
        name: &String,
        args: &Vec<(String, String)>,
        result: AgentToolResult,
        status: &str,
        ran: bool,
        ok: bool,
    )
        requires
            old(self).idle(),
            turn_ok(*old(t)),
            !old(t).awaiting_tool,
            old(t).idx < old(t).calls@.len(),
            old(t).idx < max_calls_per_round(),
            ok ==> ran,
            log_ok(*old(t), false),
            old(t).log@.last().results.len() == old(t).idx,
            seen_with_current(*old(t)),
            turn_sigs(old(t).log@).contains(call_sig_of(old(t).log@.last(), old(t).idx as int))
                ==> text_message("toolResult"@, result.llm_output@) == skip_message(
                tool_calls_of(old(t).log@.last().reply)[old(t).idx as int],
            ),
            old(self).asked@ == old(t).asked0@ + 2 * old(t).log@.len(),
            tools_shown_ok(old(self).tool_view@.all, old(t).base@, old(t).log@),
            old(self).tool_view@.active + hinted(lowercase(old(t).text@)) == old(t).base@ + noted_names(
                old(t).log@,
            ) + (if turn_sigs(old(t).log@).contains(call_sig_of(old(t).log@.last(), old(t).idx as int)) {
                Set::<Seq<char>>::empty()
            } else {
                set![old(t).calls@[old(t).idx as int].1@]
            }),
            records_ok(old(t).log@, old(t).records@),
            old(self).tape@ == appended_entries(
                old(t).origin@,
                rounds_entries(old(t).log@, old(t).records@, old(self).profile@),
            ),
            name@ == old(t).calls@[old(t).idx as int].1@,
            pair_views(args@) == pair_views(old(t).calls@[old(t).idx as int].2@),
            turn_sigs(old(t).log@).contains(call_sig_of(old(t).log@.last(), old(t).idx as int))
                ==> status@ == "duplicate"@ && pair_views(result.ui_details@) == seq![("status"@, "duplicate"@)],
            !turn_sigs(old(t).log@).contains(call_sig_of(old(t).log@.last(), old(t).idx as int))
                ==> status@ == "ok"@ || status@ == "error"@,
            refusals_ok(old(self).tools@, old(t).log@, old(t).records@),
            successes_ok(old(t).log@, old(t).records@),
            ok <==> status@ == "ok"@,
            !turn_sigs(old(t).log@).contains(call_sig_of(old(t).log@.last(), old(t).idx as int))
                && !call_accepted(old(self).tools@, name@, pair_views(args@)) ==> result.llm_output@ == refusal(
                old(self).tools@,
                name@,
                pair_views(args@),
            ) && status@ == "error"@ && pair_views(result.ui_details@) == seq![("status"@, "error"@)],
        ensures
            final(self).tracks(*final(t)),
            final(t).origin == old(t).origin,
            records_grow(old(t).records@, final(t).records@),
            final(t).records@ == old(t).records@.update(
                old(t).log@.len() - 1,
                old(t).records@[old(t).log@.len() - 1].push(
                    CallRecord {
                        output: result.llm_output@,
                        status: status@,
                        details: pair_views(result.ui_details@),
                    },
                ),
            ),
            final(self).tool_view@ == old(self).tool_view@,
            final(self).asked == old(self).asked,
            final(self).failure == old(self).failure,
            final(t).text == old(t).text,
            final(t).asked0 == old(t).asked0,
            final(t).base == old(t).base,
            log_ok(*final(t), false),
            seen_ok(*final(t)),
            final(t).context == old(t).context,
            final(t).log@ == with_result(
                old(t).log@,
                text_message("toolResult"@, result.llm_output@),
                ok,
            ),
            final(self).idle(),
            final(self).same_setup(old(self)),
            old(self).tape@.is_prefix_of(final(self).tape@),
            output_recorded(old(self).tape@, old(t).round as nat, name@, result.llm_output@).is_prefix_of(
                final(self).tape@,
            ),
            turn_ok(*final(t)),
            !final(t).awaiting_tool,
            final(t).idx == old(t).idx + 1,
            final(t).round == old(t).round,
            final(t).calls == old(t).calls,
            final(t).executed == old(t).executed,
            final(t).seen_calls == old(t).seen_calls,
            final(t).stalled_rounds == old(t).stalled_rounds,
            final(t).repeated_plan_rounds == old(t).repeated_plan_rounds,
            no_stop_between(final(self).tape@, old(self).tape@.len() as int, final(self).tape@.len() as int),
    {
        let tool_message = make_tool_result(&result);
        let ghost log_before = t.log@;
        let ghost sig_c = call_sig_of(log_before.last(), t.idx as int);
        let ghost seen_v = string_views(t.seen_calls@);
        let ghost t0 = self.tape@;
        stream_tool_result_chunks(&mut self.tape, t.round, name.as_str(), result.llm_output.as_str());
        proof {
            lemma_appended_all_prefix(
                t0,
                "event"@,
                chunk_records(t.round as nat, name@, result.llm_output@),
            );
        }
        let ghost t1 = self.tape@;
        self.tape.append_message(&tool_message);
        proof {
            lemma_appended_prefix(t1, "message"@, enc_msgs(seq![tool_message@]));
            lemma_prefix_trans(t0, t1, self.tape@);
        }
        let ghost t2 = self.tape@;
        assert(t2 == output_recorded(t0, t.round as nat, name@, result.llm_output@));
        proof {
            lemma_chunks_no_stop(t0, t.round as nat, name@, result.llm_output@);
            lemma_message_no_stop(t1, enc_msgs(seq![tool_message@]));
            lemma_no_stop_extend(t1, t2, t0.len() as int, t2.len() as int);
        }
        let mut fields: Vec<(String, String)> = Vec::new();
        fields.push(field("tool", name.clone()));
        fields.push(field("status", status.to_owned()));
        assert(args.deep_view() =~= pair_views(args@));
        fields.push(field("args", format_pairs(args.as_slice())));
        assert(result.ui_details.deep_view() =~= pair_views(result.ui_details@));
        fields.push(field("ui_details", format_pairs(result.ui_details.as_slice())));
        let ghost rec = CallRecord {
            output: result.llm_output@,
            status: status@,
            details: pair_views(result.ui_details@),
        };
        let ghost c = tool_calls_of(t.log@.last().reply)[t.idx as int];
        proof {
            assert(c == call_view(t.calls@[t.idx as int]));
            assert(pair_views(fields@) =~= tool_call_fields(c, rec));
        }
        self.event("tool_call", fields);
        proof {
            let log = t.log@;
            let u = with_result(log, tool_message@, ok);
            assert(u.drop_last() =~= log.drop_last());
            lemma_call_recorded(t.origin@, log, t.records@, u, rec, self.profile@, t0, self.tape@);
            lemma_records_call(log, t.records@, u, rec);
            lemma_records_grow_last(t.records@, rec);
            let n = log.len() - 1;
            let recs2 = t.records@.update(n, t.records@[n].push(rec));
            assert(recs2[n].take(t.records@[n].len() as int) =~= t.records@[n]);
            assert(log.drop_last() =~= log.take(n));
            assert(turn_sigs(log) == turn_sigs(log.drop_last()) + round_sigs(log.last(), t.idx as nat));
            lemma_repeats_same(log, u, n, t.idx as int);
            lemma_refusals_step(self.tools@, log, t.records@, u, recs2);
            assert(recs2[n].drop_last() =~= t.records@[n]);
            lemma_successes_step(log, t.records@, u, recs2);
        }
        proof {
            lemma_prefix_trans(t0, t2, self.tape@);
            lemma_appended_prefix(t2, "event"@, json_event("tool_call"@, pair_views(fields@)));
            lemma_loop_events_not_stop(pair_views(fields@));
            lemma_appended_one_no_stop(t2, "event"@, json_event("tool_call"@, pair_views(fields@)));
            lemma_no_stop_extend(t2, self.tape@, t0.len() as int, self.tape@.len() as int);
        }
        proof {
            assert(call_views(t.calls@).len() == t.calls@.len());
            lemma_record_result(*t, tool_message@, ok);
            let u = with_result(t.log@, tool_message@, ok);
            assert(u.drop_last() =~= t.log@.drop_last());
            lemma_noted_step(t.log@, u);
            lemma_tools_update(self.tool_view@.all, t.base@, t.log@, u.last());
            assert(t.log@.update(t.log@.len() - 1, u.last()) =~= u);
            assert(tool_calls_of(t.log@.last().reply)[t.idx as int] == call_view(t.calls@[t.idx as int]));
            assert(self.tool_view@.active + hinted(lowercase(t.text@)) =~= t.base@ + noted_names(u)
                + Set::<Seq<char>>::empty());
        }
        let ghost prev = t.messages@;
        t.messages.push(tool_message);
        assert(message_views(t.messages@) =~= message_views(prev).push(tool_message@));
        t.records = Ghost(t.records@.update(t.log@.len() - 1, t.records@[t.log@.len() - 1].push(rec)));
        t.log = Ghost(with_result(t.log@, tool_message@, ok));
        t.idx = t.idx + 1;
        t.attempted = t.attempted + 1;
        if ran {
            t.runs = t.runs + 1;
        }
        if ok {
            t.succeeded = t.succeeded + 1;
        }
        proof {
            let ts = turn_sigs(log_before);
            assert(turn_sigs(t.log@) == ts.push(sig_c));
            assert forall|x: Seq<char>| #[trigger] string_views(t.seen_calls@).contains(x) <==> turn_sigs(
                t.log@,
            ).contains(x) by {
                assert(seen_v.contains(x) <==> (ts.contains(x) || x == sig_c));
                if ts.contains(x) {
                    let k = choose|k: int| 0 <= k < ts.len() && ts[k] == x;
                    assert(ts.push(sig_c)[k] == x);
                }
                if x == sig_c {
                    assert(ts.push(sig_c)[ts.len() as int] == x);
                }
                if ts.push(sig_c).contains(x) && x != sig_c {
                    let k = choose|k: int| 0 <= k < ts.push(sig_c).len() && ts.push(sig_c)[k] == x;
                    assert(k < ts.len());
                    assert(ts[k] == x);
                }
            }
        }
    }

    /// Works through the calls of the round from `t.idx`, up to the first that must run.
    #[verifier::rlimit(60)]
    fn process_calls(&mut self, t: &mut Turn) -> (r: Option<Step>)
        requires
            old(self).idle(),
            turn_ok(*old(t)),
            !old(t).awaiting_tool,
            log_ok(*old(t), false),
            seen_ok(*old(t)),
            old(t).log@.last().results.len() == old(t).idx,
            old(self).tracks(*old(t)),
        ensures
            final(self).tracks(*final(t)),
            final(self).asked == old(self).asked,
            final(self).failure == old(self).failure,
            final(t).text == old(t).text,
            final(t).asked0 == old(t).asked0,
            final(t).base == old(t).base,
            final(t).origin == old(t).origin,
            records_grow(old(t).records@, final(t).records@),
            log_ok(*final(t), false),
            seen_ok(*final(t)),
            r is None ==> round_done(final(t).log@.last()),
            no_stop_between(final(self).tape@, old(self).tape@.len() as int, final(self).tape@.len() as int),
            final(t).context == old(t).context,
            final(t).log@.drop_last() == old(t).log@.drop_last(),
            final(self).idle(),
            final(self).same_setup(old(self)),
            old(self).tape@.is_prefix_of(final(self).tape@),
            turn_ok(*final(t)),
            final(t).round == old(t).round,
            final(t).stalled_rounds == old(t).stalled_rounds,
            final(t).repeated_plan_rounds == old(t).repeated_plan_rounds,
            final(t).calls == old(t).calls,
            old(t).idx <= final(t).idx,
            forall|k: int|
                old(t).idx <= k < final(t).idx ==> !#[trigger] call_runs(
                    old(self).tools@,
                    string_views(old(t).seen_calls@),
                    old(t).calls@,
                    old(t).idx as int,
                    k,
                ),
            match r {
                None => !final(t).awaiting_tool && final(t).executed == old(t).executed
                    && (final(t).idx == final(t).calls@.len() || final(t).idx == max_calls_per_round()),
                Some(s) => s matches Step::RunTool { name, args } && final(t).awaiting_tool
                    && call_accepted(final(self).tools@, name@, pair_views(args@))
                    && final(t).executed@ == old(t).executed@.push(
                    call_signature(name@, pair_views(args@)),
                ) && final(t).idx < final(t).calls@.len()
                    && name@ == final(t).calls@[final(t).idx as int].1@ && pair_views(args@) == pair_views(
                    final(t).calls@[final(t).idx as int].2@,
                ) && call_runs(
                    old(self).tools@,
                    string_views(old(t).seen_calls@),
                    old(t).calls@,
                    old(t).idx as int,
                    final(t).idx as int,
                ),
            },
    {
        let ghost s0 = *self;
        let ghost t0 = *t;
        proof {
            lemma_prefix_refl(self.tape@);
            lemma_records_grow_refl(t.records@);
        }
        while t.idx < t.calls.len()
            invariant
                s0 == *old(self),
                t0 == *old(t),
                self.idle(),
                self.same_setup(&s0),
                s0.tape@.is_prefix_of(self.tape@),
                turn_ok(*t),
                !t.awaiting_tool,
                t.round == t0.round,
                t.stalled_rounds == t0.stalled_rounds,
                t.repeated_plan_rounds == t0.repeated_plan_rounds,
                t.executed == t0.executed,
                t.calls == t0.calls,
                t0.idx <= t.idx,
                log_ok(*t, false),
                seen_ok(*t),
                t.log@.last().results.len() == t.idx,
                no_stop_between(self.tape@, s0.tape@.len() as int, self.tape@.len() as int),
                t.context == t0.context,
                t.log@.drop_last() == t0.log@.drop_last(),
                self.tracks(*t),
                self.asked == s0.asked,
                self.failure == s0.failure,
                t.text == t0.text,
                t.asked0 == t0.asked0,
                t.base == t0.base,
                t.origin == t0.origin,
                records_grow(t0.records@, t.records@),
                forall|k: int|
                    t0.idx <= k < t.idx ==> !#[trigger] call_runs(
                        s0.tools@,
                        string_views(t0.seen_calls@),
                        t0.calls@,
                        t0.idx as int,
                        k,
                    ),
                forall|x: Seq<char>|
                    #[trigger] string_views(t.seen_calls@).contains(x) <==> (string_views(
                        t0.seen_calls@,
                    ).contains(x) || exists|j: int|
                        t0.idx <= j < t.idx && #[trigger] call_sig_at(t0.calls@, j) == x),
            decreases t.calls@.len() - t.idx,
        {
            if t.idx >= self.max_tool_calls_per_round {
                let a = concat_str(
                    "Tool plan exceeded per-round limit (",
                    usize_to_string(self.max_tool_calls_per_round).as_str(),
                );
                let text = concat_str(a.as_str(), "). Remaining calls were skipped.");
                let limit_result = AgentToolResult {
                    llm_output: text,
                    ui_details: status_details("limit_exceeded"),
                };
                let message = make_tool_result(&limit_result);
                let ghost tb = self.tape@;
                self.tape.append_message(&message);
                proof {
                    lemma_appended_prefix(tb, "message"@, enc_msgs(seq![message@]));
                    lemma_prefix_trans(s0.tape@, tb, self.tape@);
                    lemma_record_result(*t, message@, false);
                    lemma_message_no_stop(tb, enc_msgs(seq![message@]));
                    lemma_no_stop_extend(tb, self.tape@, s0.tape@.len() as int, self.tape@.len() as int);
                    reveal_strlit("toolResult");
                    assert(message@ == limit_message());
                    let u = with_result(t.log@, message@, false);
                    assert(u.drop_last() =~= t.log@.drop_last());
                    lemma_noted_step(t.log@, u);
                    lemma_tools_update(self.tool_view@.all, t.base@, t.log@, u.last());
                    assert(t.log@.update(t.log@.len() - 1, u.last()) =~= u);
                    lemma_records_limit(t.log@, t.records@, u, message@);
                    let n = t.log@.len() - 1;
                    assert(t.records@[n].take(t.records@[n].len() as int) =~= t.records@[n]);
                    lemma_refusals_step(self.tools@, t.log@, t.records@, u, t.records@);
                    lemma_successes_step(t.log@, t.records@, u, t.records@);
                    assert(t.records@[t.log@.len() - 1].len() == processed_count(t.log@[t.log@.len() - 1]));
                    lemma_limit_recorded(t.origin@, t.log@, t.records@, u, self.profile@, tb);
                }
                let ghost prev = t.messages@;
                t.messages.push(message);
                assert(message_views(t.messages@) =~= message_views(prev).push(message@));
                t.log = Ghost(with_result(t.log@, message@, false));
                return None;
            }
            let name = t.calls[t.idx].1.clone();
            let args = clone_pairs(t.calls[t.idx].2.as_slice());
            let sig = call_signature_exec(name.as_str(), args.as_slice());
            let ghost tb = self.tape@;
            let ghost i = t.idx as int;
            let ghost seen_t0 = string_views(t0.seen_calls@);
            assert(sig@ == call_sig_at(t0.calls@, i));
            assert(call_views(t.calls@).len() == t.calls@.len());
            assert(tool_calls_of(t.log@.last().reply)[i] == call_view(t.calls@[i]));
            assert(sig@ == call_sig_of(t.log@.last(), i));
            if contains_string(&t.seen_calls, &sig) {
                proof {
                    assert(seen_before(seen_t0, t0.calls@, t0.idx as int, i));
                }
                let a = concat_str("Skipped duplicate tool call for this turn history: ", name.as_str());
                let b = concat_str(a.as_str(), " ");
                assert(args.deep_view() =~= pair_views(args@));
                let text = concat_str(b.as_str(), format_pairs(args.as_slice()).as_str());
                let result = AgentToolResult { llm_output: text, ui_details: status_details("duplicate") };
                proof {
                    assert(turn_sigs(t.log@).contains(sig@));
                    assert(text_message("toolResult"@, result.llm_output@) == skip_message(
                        tool_calls_of(t.log@.last().reply)[i],
                    ));
                    assert forall|x: Seq<char>|
                        #[trigger] string_views(t.seen_calls@).contains(x) <==> (turn_sigs(t.log@).contains(x)
                            || x == call_sig_of(t.log@.last(), t.idx as int)) by {}
                }
                let ghost rb = t.records@;
                proof {
                    lemma_status_words();
                }
                self.record_call(t, &name, &args, result, "duplicate", false, false);
                proof {
                    lemma_records_grow_trans(t0.records@, rb, t.records@);
                    lemma_prefix_trans(s0.tape@, tb, self.tape@);
                    lemma_no_stop_extend(tb, self.tape@, s0.tape@.len() as int, self.tape@.len() as int);
                    assert forall|x: Seq<char>|
                        #[trigger] string_views(t.seen_calls@).contains(x) <==> (seen_t0.contains(x)
                            || exists|j: int| t0.idx <= j < t.idx && #[trigger] call_sig_at(t0.calls@, j) == x) by {
                        if exists|j: int| t0.idx <= j < t.idx && #[trigger] call_sig_at(t0.calls@, j) == x {
                            let j = choose|j: int| t0.idx <= j < t.idx && #[trigger] call_sig_at(t0.calls@, j) == x;
                            if j < i {
                                assert(string_views(t.seen_calls@).contains(x));
                            }
                        }
                    }
                }
            } else {
                let ghost seen0 = string_views(t.seen_calls@);
                assert(!turn_sigs(t.log@).contains(sig@));
                assert(forall|x: Seq<char>| #[trigger] seen0.contains(x) <==> turn_sigs(t.log@).contains(x));
                assert(!seen_before(seen_t0, t0.calls@, t0.idx as int, i)) by {
                    if exists|j: int| t0.idx <= j < i && #[trigger] call_sig_at(t0.calls@, j) == call_sig_at(t0.calls@, i) {
                        assert(seen0.contains(sig@));
                    }
                }
                t.seen_calls.push(sig.clone());
                assert(string_views(t.seen_calls@) =~= seen0.push(sig@));
                assert forall|x: Seq<char>|
                    #[trigger] string_views(t.seen_calls@).contains(x) <==> (seen_t0.contains(x)
                        || exists|j: int| t0.idx <= j < i + 1 && #[trigger] call_sig_at(t0.calls@, j) == x) by {
                    if x == sig@ {
                        assert(string_views(t.seen_calls@)[seen0.len() as int] == x);
                        assert(call_sig_at(t0.calls@, i) == x);
                    } else {
                        if seen0.contains(x) {
                            let k = choose|k: int| 0 <= k < seen0.len() && seen0[k] == x;
                            assert(string_views(t.seen_calls@)[k] == x);
                        }
                        if string_views(t.seen_calls@).contains(x) {
                            let k = choose|k: int| 0 <= k < string_views(t.seen_calls@).len() && string_views(t.seen_calls@)[k] == x;
                            assert(k < seen0.len());
                            assert(seen0[k] == x);
                        }
                        if exists|j: int| t0.idx <= j < i + 1 && #[trigger] call_sig_at(t0.calls@, j) == x {
                            let j = choose|j: int| t0.idx <= j < i + 1 && #[trigger] call_sig_at(t0.calls@, j) == x;
                            assert(j < i);
                        }
                    }
                }
                assert forall|x: Seq<char>| #[trigger] t.executed@.contains(x) implies string_views(
                    t.seen_calls@,
                ).contains(x) by {
                    let k = choose|k: int| 0 <= k < seen0.len() && seen0[k] == x;
                    assert(string_views(t.seen_calls@)[k] == x);
                }
                assert forall|x: Seq<char>|
                    #[trigger] string_views(t.seen_calls@).contains(x) <==> (turn_sigs(t.log@).contains(x)
                        || x == call_sig_of(t.log@.last(), t.idx as int)) by {
                    assert(string_views(t.seen_calls@) == seen0.push(sig@));
                    if x != sig@ && string_views(t.seen_calls@).contains(x) {
                        let k = choose|k: int| 0 <= k < seen0.push(sig@).len() && seen0.push(sig@)[k] == x;
                        assert(k < seen0.len());
                        assert(seen0[k] == x);
                        assert(seen0.contains(x));
                    }
                    if x != sig@ && turn_sigs(t.log@).contains(x) {
                        assert(seen0.contains(x));
                        let k = choose|k: int| 0 <= k < seen0.len() && seen0[k] == x;
                        assert(seen0.push(sig@)[k] == x);
                    }
                    if x == sig@ {
                        assert(seen0.push(sig@)[seen0.len() as int] == x);
                    }
                }
                let ghost active0 = self.tool_view@.active;
                self.tool_view.note_selected(name.as_str());
                proof {
                    assert(tool_calls_of(t.log@.last().reply)[i] == call_view(t.calls@[i]));
                    assert(name@ == t.calls@[i].1@);
                    assert(active0 + hinted(lowercase(t.text@)) =~= t.base@ + noted_names(t.log@));
                    assert(self.tool_view@.active + hinted(lowercase(t.text@)) =~= t.base@ + noted_names(t.log@)
                        + set![t.calls@[i].1@]);
                }
                match self.tools.execute(name.as_str(), args.as_slice()) {
                    Err(err) => {
                        assert(err@ == refusal(self.tools@, name@, pair_views(args@)));
                        let result = AgentToolResult { llm_output: err, ui_details: status_details("error") };
                        let ghost rb = t.records@;
                        proof {
                            lemma_status_words();
                        }
                        self.record_call(t, &name, &args, result, "error", false, false);
                        proof {
                            lemma_records_grow_trans(t0.records@, rb, t.records@);
                            lemma_prefix_trans(s0.tape@, tb, self.tape@);
                            lemma_no_stop_extend(tb, self.tape@, s0.tape@.len() as int, self.tape@.len() as int);
                            assert(!call_accepted(s0.tools@, name@, pair_views(args@)));
                        }
                    },
                    Ok(_) => {
                        proof {
                            assert(!t.executed@.contains(sig@));
                            assert(string_views(t.seen_calls@).contains(sig@)) by {
                                assert(string_views(t.seen_calls@)[seen0.len() as int] == sig@);
                            }
                        }
                        t.executed = Ghost(t.executed@.push(sig@));
                        t.awaiting_tool = true;
                        proof {
                            assert forall|x: Seq<char>| #[trigger] t.executed@.contains(x) implies string_views(
                                t.seen_calls@,
                            ).contains(x) by {
                                if x != sig@ {
                                    assert(t0.executed@.contains(x));
                                    let k = choose|k: int| 0 <= k < seen0.len() && seen0[k] == x;
                                    assert(string_views(t.seen_calls@)[k] == x);
                                }
                            }
                        }
                        return Some(Step::RunTool { name, args });
                    },
                }
            }
        }
        None
    }
}

impl<P: ModelProvider> AgentLoop<P> {
    /// Starts round `t.round`: asks the model, records its answer, and decides on it.
    #[verifier::rlimit(60)]
    fn begin_round(&mut self, t: &mut Turn) -> (r: Option<Step>)
        requires
            old(self).idle(),
            turn_ok(*old(t)),
            !old(t).awaiting_tool,
            log_ok(*old(t), true),
            seen_ok(*old(t)),
            old(self).tracks(*old(t)),
        ensures
            final(self).idle(),
            final(self).same_setup(old(self)),
            old(self).tape@.is_prefix_of(final(self).tape@),
            final(t).executed == old(t).executed,
            final(t).round == old(t).round,
            final(t).context == old(t).context,
            final(t).text == old(t).text,
            final(t).asked0 == old(t).asked0,
            final(t).base == old(t).base,
            final(t).origin == old(t).origin,
            records_grow(old(t).records@, final(t).records@),
            refusals_ok(final(self).tools@, final(t).log@, final(t).records@),
            successes_ok(final(t).log@, final(t).records@),
            tools_shown_ok(final(self).tool_view@.all, final(t).base@, final(t).log@),
            match r {
                Some(Step::Finished(Err(e))) => *final(t) == *old(t) && final(self).failure@ == Some(
                    (
                        round_request(message_views(final(t).context@), final(t).log@),
                        visible_specs(final(self).tool_view@.all, final(t).base@ + noted_names(final(t).log@)),
                        e@,
                    ),
                ) && final(self).asked@ == final(t).asked0@ + 2 * final(t).log@.len() + 1
                    && final(self).tape@ == appended_entries(
                    final(t).origin@,
                    rounds_entries(final(t).log@, final(t).records@, final(self).profile@) + seq![
                        round_start_entry(
                            final(t).log@.len(),
                            visible_specs(final(self).tool_view@.all, final(t).base@ + noted_names(final(t).log@)),
                            final(self).profile@,
                        ),
                    ],
                ),
                Some(Step::Finished(Ok(_))) => final(self).failure == old(self).failure && final(self).asked@
                    == final(t).asked0@ + 2 * final(t).log@.len() && records_ok(final(t).log@, final(t).records@)
                    && final(self).tape@.drop_last() == appended_entries(
                    final(t).origin@,
                    rounds_entries(final(t).log@, final(t).records@, final(self).profile@),
                ),
                _ => final(self).failure == old(self).failure && final(self).asked@ == final(t).asked0@ + 2
                    * final(t).log@.len(),
            },
            r is None ==> final(self).tracks(*final(t)),
            match r {
                None => turn_ok(*final(t)) && !final(t).awaiting_tool && final(t).idx == 0
                    && final(t).stalled_rounds == old(t).stalled_rounds && log_ok(*final(t), false)
                    && seen_ok(*final(t)) && final(t).log@.last().results.len() == final(t).idx,
                Some(s) => s is Finished && turn_record_ok(message_views(final(t).context@), final(t).log@)
                    && (s matches Step::Finished(Ok(x)) ==> turn_answer(final(self).tape@, x@)
                    && stop_recorded(final(self).tape@, x@, final(t).log@) && reply_stop(final(t).log@) is Some),
            },
            (r matches Some(Step::Finished(Ok(_)))) ==> final(self).tape@.len() > old(self).tape@.len()
                && no_stop_between(final(self).tape@, old(self).tape@.len() as int, final(self).tape@.len() - 1),
            !(r matches Some(Step::Finished(Ok(_)))) ==> no_stop_between(
                final(self).tape@,
                old(self).tape@.len() as int,
                final(self).tape@.len() as int,
            ),
    {
        let ghost tape0 = self.tape@;
        let ghost active0 = self.tool_view@.active;
        self.tool_view.activate_hints(t.text.as_str());
        let round_tools = self.tool_view.specs();
        assert(self.tool_view@.active =~= t.base@ + noted_names(t.log@));
        assert(self.tool_view@.active + hinted(lowercase(t.text@)) =~= self.tool_view@.active);
        let mut fields: Vec<(String, String)> = Vec::new();
        fields.push(field("round", usize_to_string(t.round)));
        fields.push(field("prompt_version", "v1".to_owned()));
        fields.push(field("toolset", Self::toolset_text(&round_tools)));
        fields.push(field("profile", self.profile.name().to_owned()));
        assert(pair_views(fields@) =~= round_start_fields(t.round as nat, spec_views(round_tools@), self.profile@));
        self.event("round_start", fields);
        let ghost tape1 = self.tape@;
        let ghost rs = round_start_entry(t.round as nat, spec_views(round_tools@), self.profile@);
        proof {
            lemma_entries_one(tape0, rs.0, rs.1);
            lemma_entries_concat(t.origin@, rounds_entries(t.log@, t.records@, self.profile@), seq![rs]);
        }
        let ghost mut evs: Seq<StreamEventView> = Seq::empty();
        proof {
            lemma_loop_events_not_stop(pair_views(fields@));
            lemma_appended_one_no_stop(tape0, "event"@, json_event("round_start"@, pair_views(fields@)));
        }
        let request = round_messages(t.context.as_slice(), t.messages.as_slice());
        let (stream, streamed) = stream_from(&mut self.provider, request.as_slice(), round_tools.as_slice());
        self.asked = Ghost(self.asked@ + 1);
        match stream {
            Err(e) => {
                proof {
                    lemma_records_grow_refl(t.records@);
                }
                self.failure = Ghost(Some((message_views(request@), spec_views(round_tools@), e@)));
                return Some(Step::Finished(Err(e)));
            },
            Ok(events) => {
                record_stream_events(&mut self.tape, t.round, events.as_slice());
                proof {
                    evs = Seq::new(events@.len(), |i: int| stream_event_view(events@[i]));
                    let payloads = Seq::new(
                        events@.len(),
                        |i: int| stream_event_record(t.round as nat, i as nat, stream_event_view(events@[i])),
                    );
                    lemma_entries_all(tape1, "event"@, payloads);
                    assert(typed("event"@, payloads) =~= stream_entries(t.round as nat, evs));
                    lemma_entries_concat(tape0, seq![rs], stream_entries(t.round as nat, evs));
                    lemma_stream_no_stop(tape1, t.round as nat, events@);
                    lemma_no_stop_extend(tape1, self.tape@, tape0.len() as int, self.tape@.len() as int);
                    lemma_appended_all_prefix(
                        tape1,
                        "event"@,
                        Seq::new(
                            events@.len(),
                            |i: int| stream_event_record(t.round as nat, i as nat, stream_event_view(events@[i])),
                        ),
                    );
                    lemma_prefix_trans(tape0, tape1, self.tape@);
                }
            },
        }
        let ghost tape2 = self.tape@;
        let (assistant, asked) = answer_from(&mut self.provider, request.as_slice(), round_tools.as_slice());
        self.asked = Ghost(self.asked@ + 1);
        self.tape.append_message(&assistant);
        proof {
            lemma_appended_prefix(tape2, "message"@, enc_msgs(seq![assistant@]));
            lemma_prefix_trans(tape0, tape2, self.tape@);
            lemma_message_no_stop(tape2, enc_msgs(seq![assistant@]));
            lemma_no_stop_extend(tape2, self.tape@, tape0.len() as int, self.tape@.len() as int);
        }
        let ghost log0 = t.log@;
        let ghost recs0 = t.records@;
        let ghost round = RoundView { stream_request: streamed@, events: evs, ..asked@ };
        proof {
            let e = seq![rs] + stream_entries(t.round as nat, evs) + seq![message_entry(assistant@)];
            lemma_entries_one(tape2, "message"@, enc_msgs(seq![assistant@]));
            lemma_entries_concat(tape0, seq![rs] + stream_entries(t.round as nat, evs), seq![message_entry(assistant@)]);
            lemma_entries_concat(t.origin@, rounds_entries(log0, recs0, self.profile@), e);
            let p = log0.push(round);
            let r2 = recs0.push(Seq::<CallRecord>::empty());
            assert(p.drop_last() =~= log0);
            lemma_rounds_entries_prefix(log0, r2, recs0, self.profile@);
            assert(round_entries(t.round as nat, round, r2[log0.len() as int], self.profile@) =~= e);
            assert(rounds_entries(p, r2, self.profile@) =~= rounds_entries(log0, recs0, self.profile@) + e);
            lemma_records_push(log0, recs0, round);
            lemma_records_grow_push(recs0, Seq::<CallRecord>::empty());
            lemma_refusals_push(self.tools@, log0, recs0, round);
            assert forall|i: int| 0 <= i < p.len() implies #[trigger] p[i].succeeded == ok_count(r2[i]) by {
                if i < log0.len() {
                    assert(p[i] == log0[i]);
                    assert(r2[i] == recs0[i]);
                }
            }
        }
        proof {
            lemma_record_push(message_views(t.context@), log0, round);
            lemma_additions_push(log0, round);
            lemma_repeat_step(
                log0,
                match &t.previous_plan {
                    Some(p) => Some(p@),
                    None => None,
                },
                round,
            );
            assert(log0.push(round).drop_last() =~= log0);
            lemma_noted_push(self.tool_view@.all, t.base@, log0, round);
        }
        let ghost prev_messages = t.messages@;
        t.records = Ghost(t.records@.push(Seq::empty()));
        t.messages.push(assistant.clone());
        assert(message_views(t.messages@) =~= turn_additions(log0.push(round)));
        t.log = Ghost(log0.push(round));
        let ghost tape3 = self.tape@;
        match decide_after_reply(&t.previous_plan, t.repeated_plan_rounds, &assistant) {
            Reply::Final(text) => {
                let mut fields: Vec<(String, String)> = Vec::new();
                fields.push(field("reason", "assistant_final".to_owned()));
                fields.push(field("round", usize_to_string(t.round)));
                assert(pair_views(fields@) =~= seq![
                    ("reason"@, "assistant_final"@),
                    ("round"@, decimal((t.log@.len() - 1) as nat)),
                ]);
                self.event("turn_stop", fields);
                assert(self.tape@.drop_last() =~= tape3);
                proof {
                    lemma_prefix_trans(tape0, tape3, self.tape@);
                    lemma_no_stop_extend(tape3, self.tape@, tape0.len() as int, tape3.len() as int);
                    lemma_append_message_read_back(tape2, assistant@);
                    reveal_strlit("event");
                    reveal_strlit("message");
                    assert("event"@.len() != "message"@.len());
                    lemma_append_other_keeps_messages(
                        tape3,
                        "event"@,
                        json_event("turn_stop"@, pair_views(fields@)),
                    );
                }
                Some(Step::Finished(Ok(text)))
            },
            Reply::Repeated => {
                let mut fields: Vec<(String, String)> = Vec::new();
                fields.push(field("reason", "repeated_plan".to_owned()));
                assert(pair_views(fields@) =~= seq![("reason"@, "repeated_plan"@)]);
                self.event("turn_stop", fields);
                assert(self.tape@.drop_last() =~= tape3);
                proof {
                    lemma_prefix_trans(tape0, tape3, self.tape@);
                    lemma_no_stop_extend(tape3, self.tape@, tape0.len() as int, tape3.len() as int);
                }
                Some(
                    Step::Finished(
                        Ok(
                            "Stopped: the model repeated the same tool plan in consecutive rounds.".to_owned(),
                        ),
                    ),
                )
            },
            Reply::Proceed { calls, plan, repeated } => {
                t.previous_plan = Some(plan);
                t.repeated_plan_rounds = repeated;
                t.calls = calls;
                t.idx = 0;
                t.attempted = 0;
                t.succeeded = 0;
                t.runs = 0;
                assert(self.tool_view@.active + hinted(lowercase(t.text@)) =~= t.base@ + noted_names(t.log@)
                    + Set::<Seq<char>>::empty());
                None
            },
        }
    }

    /// Ends the round: stops after too many stalled rounds or at the last round, else moves
    /// to the next round.
    fn end_round(&mut self, t: &mut Turn) -> (r: Option<Step>)
        requires
            old(self).idle(),
            turn_ok(*old(t)),
            !old(t).awaiting_tool,
            log_ok(*old(t), false),
            old(t).attempted > 0,
            seen_ok(*old(t)),
            round_done(old(t).log@.last()),
            old(self).tracks(*old(t)),
        ensures
            final(self).tool_view@ == old(self).tool_view@,
            final(self).asked == old(self).asked,
            final(self).failure == old(self).failure,
            final(t).text == old(t).text,
            final(t).asked0 == old(t).asked0,
            final(t).base == old(t).base,
            final(t).awaiting_tool == old(t).awaiting_tool,
            final(t).origin == old(t).origin,
            final(t).records == old(t).records,
            final(self).idle(),
            final(self).same_setup(old(self)),
            old(self).tape@.is_prefix_of(final(self).tape@),
            final(t).executed == old(t).executed,
            final(t).context == old(t).context,
            final(t).log == old(t).log,
            match r {
                None => turn_ok(*final(t)) && !final(t).awaiting_tool && final(t).round == old(t).round
                    + 1 && log_ok(*final(t), true) && seen_ok(*final(t)),
                Some(s) => s matches Step::Finished(Ok(x)) && stop_recorded(
                    final(self).tape@,
                    x@,
                    final(t).log@,
                ) && round_done(final(t).log@.last()) && final(self).tape@.drop_last() == old(self).tape@,
            },
            r is None ==> final(self).tape@ == old(self).tape@,
    {
        proof {
            lemma_stall_step(t.log@, t.stalled_rounds as nat);
        }
        let was_stalled = t.attempted == 0 || t.succeeded == 0;
        let stalled = if was_stalled {
            t.stalled_rounds + 1
        } else {
            0
        };
        if stalled >= self.max_stalled_rounds {
            let mut fields: Vec<(String, String)> = Vec::new();
            fields.push(field("reason", "stalled_rounds".to_owned()));
            fields.push(field("count", usize_to_string(stalled)));
            assert(pair_views(fields@) =~= seq![("reason"@, "stalled_rounds"@), ("count"@, decimal(3))]);
            let ghost before = self.tape@;
            self.event("turn_stop", fields);
            assert(self.tape@.drop_last() =~= before);
            let a = concat_str("Stopped after ", usize_to_string(stalled).as_str());
            return Some(
                Step::Finished(Ok(concat_str(a.as_str(), " stalled tool rounds (no successful calls)."))),
            );
        }
        t.stalled_rounds = stalled;
        if t.round + 1 < self.max_rounds {
            t.round = t.round + 1;
            proof {
                lemma_prefix_refl(self.tape@);
            }
            return None;
        }
        let mut fields: Vec<(String, String)> = Vec::new();
        fields.push(field("reason", "max_rounds".to_owned()));
        fields.push(field("max_rounds", usize_to_string(self.max_rounds)));
        assert(pair_views(fields@) =~= seq![
            ("reason"@, "max_rounds"@),
            ("max_rounds"@, decimal(max_rounds())),
        ]);
        let ghost before = self.tape@;
        self.event("turn_stop", fields);
        assert(self.tape@.drop_last() =~= before);
        let a = concat_str("Tool-calling loop reached max rounds (", usize_to_string(self.max_rounds).as_str());
        Some(Step::Finished(Ok(concat_str(a.as_str(), ")."))))
    }

    /// Runs the turn `t` from the start of a round (`begin`) or from its pending calls,
    /// up to the next tool execution or the turn's end.
    #[verifier::rlimit(40)]
    fn drive(&mut self, turn: Turn, begin: bool) -> (r: Step)
        requires
            old(self).idle(),
            turn_ok(turn),
            !turn.awaiting_tool,
            log_ok(turn, begin),
            seen_ok(turn),
            !begin ==> turn.log@.last().results.len() == turn.idx,
            old(self).tracks(turn),
            old(self).failure@ is None,
        ensures
            final(self).tool_base() == turn.base@,
            final(self).turn_calls_start() == turn.asked0@,
            tools_shown_ok(final(self).tool_catalog(), final(self).tool_base(), final(self).rounds()),
            final(self).provider_calls() == final(self).turn_calls_start() + 2 * final(self).rounds().len() + (
            if final(self).failure() is Some {
                1nat
            } else {
                0nat
            }),
            match r {
                Step::Finished(Err(e)) => failure_ok(*final(self), e@),
                _ => final(self).failure() is None,
            },
            final(self).turn_origin() == turn.origin@,
            records_grow(turn.records@, final(self).call_records()),
            turn_tape_ok(*final(self), step_view(r)),
            final(self).wf(),
            final(self).same_setup(old(self)),
            old(self).tape@.is_prefix_of(final(self).tape@),
            final(self).window() == message_views(turn.context@),
            turn_record_ok(final(self).window(), final(self).rounds()),
            match r {
                Step::Finished(res) => !final(self).awaits_tool() && !final(self).awaits_shell() && (res matches Ok(
                    x,
                ) ==> turn_answer(final(self).tape@, x@) && stop_recorded(
                    final(self).tape@,
                    x@,
                    final(self).rounds(),
                ) && (reply_stop(final(self).rounds()) is None ==> round_done(final(self).rounds().last()))),
                Step::RunTool { name, args } => final(self).awaits_tool() && !final(self).awaits_shell()
                    && call_accepted(final(self).registry(), name@, pair_views(args@))
                    && final(self).executed() == turn_executed(turn).push(call_signature(name@, pair_views(args@))),
                Step::RunShell { .. } => false,
            },
            r is RunTool ==> final(self).rounds().len() > 0 && reply_stop(final(self).rounds()) is None,
            stops_only_last(old(self).tape@, final(self).tape@, step_view(r)),
    {
        let ghost s0 = *self;
        let ghost e0 = turn_executed(turn);
        let mut t = turn;
        let mut begin = begin;
        proof {
            lemma_prefix_refl(self.tape@);
            lemma_records_grow_refl(turn.records@);
        }
        loop
            invariant
                s0 == *old(self),
                self.idle(),
                self.same_setup(&s0),
                s0.tape@.is_prefix_of(self.tape@),
                turn_ok(t),
                !t.awaiting_tool,
                t.executed@ == e0,
                e0 == turn_executed(turn),
                log_ok(t, begin),
                seen_ok(t),
                !begin ==> t.log@.last().results.len() == t.idx,
                no_stop_between(self.tape@, s0.tape@.len() as int, self.tape@.len() as int),
                t.context == turn.context,
                self.tracks(t),
                self.failure@ is None,
                t.text == turn.text,
                t.asked0 == turn.asked0,
                t.base == turn.base,
                t.origin == turn.origin,
                records_grow(turn.records@, t.records@),
            decreases (max_rounds() - t.round) * 2 + (if begin {
                1int
            } else {
                0int
            }),
        {
            let ghost tb = self.tape@;
            let ghost rb = t.records@;
            if begin {
                match self.begin_round(&mut t) {
                    Some(step) => {
                        proof {
                            lemma_records_grow_trans(turn.records@, rb, t.records@);
                            lemma_prefix_trans(s0.tape@, tb, self.tape@);
                            if step matches Step::Finished(Ok(_)) {
                                lemma_no_stop_extend(tb, self.tape@, s0.tape@.len() as int, self.tape@.len() - 1);
                            } else {
                                lemma_no_stop_extend(tb, self.tape@, s0.tape@.len() as int, self.tape@.len() as int);
                            }
                        }
                        self.log = Ghost(t.log@);
                        self.window = Ghost(message_views(t.context@));
                        self.asked0 = Ghost(t.asked0@);
                        self.base = Ghost(t.base@);
                        self.origin = Ghost(t.origin@);
                        self.records = Ghost(t.records@);
                        return step;
                    },
                    None => {
                        proof {
                            lemma_records_grow_trans(turn.records@, rb, t.records@);
                            lemma_no_stop_extend(tb, self.tape@, s0.tape@.len() as int, self.tape@.len() as int);
                        }
                        begin = false;
                    },
                }
            } else {
                match self.process_calls(&mut t) {
                    Some(step) => {
                        proof {
                            lemma_records_grow_trans(turn.records@, rb, t.records@);
                            lemma_prefix_trans(s0.tape@, tb, self.tape@);
                            lemma_no_stop_extend(tb, self.tape@, s0.tape@.len() as int, self.tape@.len() as int);
                        }
                        self.log = Ghost(t.log@);
                        self.window = Ghost(message_views(t.context@));
                        self.asked0 = Ghost(t.asked0@);
                        self.base = Ghost(t.base@);
                        self.origin = Ghost(t.origin@);
                        self.records = Ghost(t.records@);
                        self.turn = Some(t);
                        return step;
                    },
                    None => {
                        let ghost tc = self.tape@;
                        proof {
                            lemma_records_grow_trans(turn.records@, rb, t.records@);
                            lemma_prefix_trans(s0.tape@, tb, tc);
                            lemma_no_stop_extend(tb, tc, s0.tape@.len() as int, tc.len() as int);
                        }
                        assert(call_views(t.calls@).len() == t.calls@.len());
                        match self.end_round(&mut t) {
                            Some(step) => {
                                proof {
                                    lemma_prefix_trans(s0.tape@, tc, self.tape@);
                                    lemma_no_stop_extend(tc, self.tape@, s0.tape@.len() as int, tc.len() as int);
                                }
                                self.log = Ghost(t.log@);
                                self.window = Ghost(message_views(t.context@));
                                self.asked0 = Ghost(t.asked0@);
                                self.base = Ghost(t.base@);
                                self.origin = Ghost(t.origin@);
                                self.records = Ghost(t.records@);
                                return step;
                            },
                            None => {
                                begin = true;
                            },
                        }
                    },
                }
            }
            proof {
                lemma_prefix_trans(s0.tape@, tb, self.tape@);
            }
        }
    }
}

/// What a step of a turn leaves: a consistent record of the turn's rounds (at most the round
/// limit, each handed the system prompt, the context window and what the earlier rounds
/// added, and the tools progressive exposure allows, each but the last ending without a
/// stop); a finished answer is how the turn ended, with its `turn_stop` event last on the
/// tape (a turn stopped after a round's calls worked through all of them); a tool run is
/// asked for in a round whose answer did not stop the turn; an error is the one the
/// model's streamed answer gave, and nothing else ends a turn in an error; the model was
/// asked twice per round (a streamed answer, then a full one), once in a round whose stream
/// failed; and the tape holds the turn's record in order.
pub open spec fn turn_laws<P: ModelProvider>(after: AgentLoop<P>, r: StepView) -> bool {
    &&& turn_record_ok(after.window(), after.rounds())
    &&& (r matches StepView::Finished(Ok(x)) ==> stop_recorded(after.tape_view(), x, after.rounds()))
    &&& (r matches StepView::Finished(Ok(_)) && reply_stop(after.rounds()) is None ==> round_done(
        after.rounds().last(),
    ))
    &&& (r is RunTool ==> after.rounds().len() > 0 && reply_stop(after.rounds()) is None)
    &&& tools_shown_ok(after.tool_catalog(), after.tool_base(), after.rounds())
    &&& after.provider_calls() == after.turn_calls_start() + 2 * after.rounds().len() + (
    if after.failure() is Some {
        1nat
    } else {
        0nat
    })
    &&& match r {
        StepView::Finished(Err(e)) => failure_ok(after, e),
        _ => after.failure() is None,
    }
    &&& turn_tape_ok(after, r)
}

/// Where a turn ended in an error, the error is the one the model's streamed answer gave,
/// in a round that could start: the model was handed the request of that round and the
/// tools it was to be shown, after rounds that neither stopped the turn nor left calls
/// unworked.
pub open spec fn failure_ok<P: ModelProvider>(after: AgentLoop<P>, e: Seq<char>) -> bool {
    let rounds = after.rounds();
    &&& after.failure() == Some(
        (
            round_request(after.window(), rounds),
            visible_specs(after.tool_catalog(), after.tool_base() + noted_names(rounds)),
            e,
        ),
    )
    &&& rounds.len() < max_rounds()
    &&& (rounds.len() > 0 ==> turn_stop(rounds) is None && round_done(rounds.last()))
}

/// What the tape holds after a step of a turn: the turn's opening, then for each round its
/// `round_start` event, its streamed events, the model's answer, and for each call worked
/// through the output in chunks, the tool message and the `tool_call` event (then the limit
/// note where the answer asked for more calls than the limit). A finished answer adds its
/// `turn_stop` event; a failed stream leaves the `round_start` event of its round last.
pub open spec fn turn_tape_ok<P: ModelProvider>(after: AgentLoop<P>, r: StepView) -> bool {
    let done = rounds_entries(after.rounds(), after.call_records(), after.profile_view());
    &&& records_ok(after.rounds(), after.call_records())
    &&& refusals_ok(after.registry(), after.rounds(), after.call_records())
    &&& successes_ok(after.rounds(), after.call_records())
    &&& match r {
        StepView::Finished(Ok(_)) => after.tape_view().drop_last() == appended_entries(after.turn_origin(), done),
        StepView::Finished(Err(_)) => after.failure() matches Some(f) && after.tape_view() == appended_entries(
            after.turn_origin(),
            done + seq![round_start_entry(after.rounds().len(), f.1, after.profile_view())],
        ),
        _ => after.tape_view() == appended_entries(after.turn_origin(), done),
    }
}

/// The laws every step keeps: the loop stays consistent, its tools and profile stay
/// as they were, the tape only grows (and gains no `turn_stop` entry but the last entry of a
/// finished answer), a finished step leaves nothing pending, and a tool
/// run is asked only for a registered tool with valid arguments, and is recorded as run.
pub open spec fn step_laws<P: ModelProvider>(
    before: AgentLoop<P>,
    after: AgentLoop<P>,
    executed_before: Seq<Seq<char>>,
    r: StepView,
) -> bool {
    &&& after.wf()
    &&& after.registry() == before.registry()
    &&& after.profile_view() == before.profile_view()
    &&& after.workspace_view() == before.workspace_view()
    &&& after.tool_catalog() == before.tool_catalog()
    &&& before.tape_view().is_prefix_of(after.tape_view())
    &&& stops_only_last(before.tape_view(), after.tape_view(), r)
    &&& match r {
        StepView::Finished(_) => !after.awaits_tool() && !after.awaits_shell(),
        StepView::RunTool { name, args } => after.awaits_tool() && !after.awaits_shell()
            && call_accepted(after.registry(), name, args) && after.executed()
            == executed_before.push(call_signature(name, args)),
        StepView::RunShell { command } => after.awaits_shell() && !after.awaits_tool()
            && !(after.profile_view() is Readonly) && trim(command).len() > 0,
    }
}

/// In every state the loop reaches, a turn waiting for a tool run is within the round
/// limit and the per-round call limit, no call of the turn has run twice, and the loop
/// never waits for a tool and a shell command at once.
pub proof fn lemma_turn_limits<P: ModelProvider>(a: AgentLoop<P>)
    requires
        a.wf(),
    ensures
        a.awaits_tool() ==> a.round() < max_rounds() && a.round_runs() < max_calls_per_round(),
        a.limits() == (15nat, 50nat, 6nat, 3nat),
        a.executed().no_duplicates(),
        !(a.awaits_tool() && a.awaits_shell()),
{
}

/// How a turn stops, given its rounds so far: an answer without tool calls ends it with the
/// answer's text; else the same tool plan in the last three rounds stops it with the repeat
/// notice; else no successful call in each of the last three rounds stops it with the stall
/// notice; else having used all its rounds stops it with the round-limit notice; else it
/// goes on.
pub proof fn lemma_turn_stop_reasons(rounds: Seq<RoundView>)
    requires
        rounds.len() > 0,
    ensures
        ({
            let n = rounds.len() as int;
            let last = rounds[n - 1];
            let plan_repeated = n >= 3 && plan_signature(tool_calls_of(rounds[n - 1].reply)) == plan_signature(
                tool_calls_of(rounds[n - 2].reply),
            ) && plan_signature(tool_calls_of(rounds[n - 2].reply)) == plan_signature(
                tool_calls_of(rounds[n - 3].reply),
            );
            let stalled = n >= 3 && rounds[n - 1].succeeded == 0 && rounds[n - 2].succeeded == 0
                && rounds[n - 3].succeeded == 0;
            &&& tool_calls_of(last.reply).len() == 0 ==> (turn_stop(rounds) matches Some((a, _)) && a
                == message_text(last.reply))
            &&& tool_calls_of(last.reply).len() > 0 && plan_repeated ==> (turn_stop(rounds) matches Some(
                (a, _),
            ) && a == "Stopped: the model repeated the same tool plan in consecutive rounds."@)
            &&& tool_calls_of(last.reply).len() > 0 && !plan_repeated && stalled ==> (turn_stop(
                rounds,
            ) matches Some((a, _)) && a == "Stopped after 3 stalled tool rounds (no successful calls)."@)
            &&& tool_calls_of(last.reply).len() > 0 && !plan_repeated && !stalled && n >= 15 ==> (
            turn_stop(rounds) matches Some((a, _)) && a == "Tool-calling loop reached max rounds (15)."@)
            &&& tool_calls_of(last.reply).len() > 0 && !plan_repeated && !stalled && n < 15 ==> turn_stop(
                rounds,
            ) is None
        }),
{
    reveal_strlit("3");
    reveal_strlit("15");
    assert(decimal(3) == "3"@) by {
        reveal_with_fuel(decimal, 2);
    }
    assert(decimal(15) == "15"@) by {
        reveal_with_fuel(decimal, 3);
    }
    assert("Stopped after "@ + "3"@ + " stalled tool rounds (no successful calls)."@
        == "Stopped after 3 stalled tool rounds (no successful calls)."@) by {
        reveal_strlit("Stopped after ");
        reveal_strlit(" stalled tool rounds (no successful calls).");
        reveal_strlit("Stopped after 3 stalled tool rounds (no successful calls).");
        assert("Stopped after "@ + "3"@ + " stalled tool rounds (no successful calls)."@
            =~= "Stopped after 3 stalled tool rounds (no successful calls)."@);
    }
    assert("Tool-calling loop reached max rounds ("@ + "15"@ + ")."@ == "Tool-calling loop reached max rounds (15)."@)
        by {
        reveal_strlit("Tool-calling loop reached max rounds (");
        reveal_strlit(").");
        reveal_strlit("Tool-calling loop reached max rounds (15).");
        assert("Tool-calling loop reached max rounds ("@ + "15"@ + ")."@ =~= "Tool-calling loop reached max rounds (15)."@);
    }
}

/// In every state a turn's step leaves, a round counts as succeeded exactly its calls whose
/// tool run came back `ok`: a call recorded as failed, skipped or refused adds nothing, and
/// a round in which no run came back `ok` counts no success (so it counts as stalled).
pub proof fn lemma_succeeded_counts_ok_runs<P: ModelProvider>(after: AgentLoop<P>, r: StepView)
    requires
        turn_laws(after, r),
    ensures
        forall|i: int|
            0 <= i < after.rounds().len() ==> #[trigger] after.rounds()[i].succeeded == ok_count(
                after.call_records()[i],
            ),
        forall|i: int|
            0 <= i < after.rounds().len() && (forall|k: int|
                0 <= k < after.call_records()[i].len() ==> #[trigger] after.call_records()[i][k].status
                    != "ok"@) ==> #[trigger] after.rounds()[i].succeeded == 0,
{
    assert forall|i: int|
        0 <= i < after.rounds().len() && (forall|k: int|
            0 <= k < after.call_records()[i].len() ==> #[trigger] after.call_records()[i][k].status != "ok"@)
            implies #[trigger] after.rounds()[i].succeeded == 0 by {
        lemma_ok_count_none(after.call_records()[i]);
    }
}

/// A tool run the loop asks for is never a call it already ran in the same turn.
pub proof fn lemma_tool_run_is_new<P: ModelProvider>(
    before: AgentLoop<P>,
    after: AgentLoop<P>,
    executed_before: Seq<Seq<char>>,
    name: Seq<char>,
    args: Seq<(Seq<char>, Seq<char>)>,
)
    requires
        step_laws(before, after, executed_before, StepView::RunTool { name, args }),
    ensures
        !executed_before.contains(call_signature(name, args)),
{
    lemma_turn_limits(after);
    let all = executed_before.push(call_signature(name, args));
    if executed_before.contains(call_signature(name, args)) {
        let i = choose|i: int| 0 <= i < executed_before.len() && executed_before[i] == call_signature(
            name,
            args,
        );
        assert(all[i] == all[executed_before.len() as int]);
    }
}

impl<P: ModelProvider> AgentLoop<P> {
    /// Records the user's input and runs a turn on it.
    fn start_turn(&mut self, text: &str) -> (r: Step)
        requires
            old(self).idle(),
        ensures
            step_laws(*old(self), *final(self), Seq::empty(), step_view(r)),
            turn_opening(old(self).tape_view(), text@, old(self).visible_tools(), old(self).profile_view())
                .is_prefix_of(final(self).tape_view()),
            step_view(r) matches StepView::Finished(Ok(x)) ==> turn_answer(final(self).tape_view(), x),
            turn_laws(*final(self), step_view(r)),
            final(self).window() == last_n(
                tape_messages(appended(old(self).tape_view(), "message"@, enc_msgs(seq![user_message(text@)]))),
                50,
            ),
            final(self).turn_calls_start() == old(self).provider_calls(),
            final(self).tool_base() == old(self).active_tools() + hinted(lowercase(text@)),
            final(self).turn_origin() == turn_opening(
                old(self).tape_view(),
                text@,
                old(self).visible_tools(),
                old(self).profile_view(),
            ),
    {
        let mut content: Vec<ContentItem> = Vec::new();
        content.push(ContentItem::Text(text.to_owned()));
        let user = Message { role: "user".to_owned(), content };
        assert(user@.content =~= seq![text_item(text@)]);
        assert(user@ =~= user_message(text@));
        self.failure = Ghost(None);
        let ghost tape0 = self.tape@;
        self.tape.append_message(&user);
        let ghost tape1 = self.tape@;
        let context = self.tape.build_messages(self.context_window);
        let visible_tools = self.tool_view.specs();
        let mut fields: Vec<(String, String)> = Vec::new();
        fields.push(field("prompt_version", "v1".to_owned()));
        fields.push(field("toolset", Self::toolset_text(&visible_tools)));
        fields.push(field("profile", self.profile.name().to_owned()));
        assert(pair_views(fields@) =~= turn_start_fields(
            visible_specs(self.tool_view@.all, self.tool_view@.active),
            self.profile@,
        ));
        self.event("turn_start", fields);
        let ghost tape2 = self.tape@;
        proof {
            lemma_message_no_stop(tape0, enc_msgs(seq![user@]));
            lemma_loop_events_not_stop(pair_views(fields@));
            lemma_appended_one_no_stop(tape1, "event"@, json_event("turn_start"@, pair_views(fields@)));
            lemma_no_stop_extend(tape1, tape2, tape0.len() as int, tape2.len() as int);
        }
        let t = Turn {
            text: text.to_owned(),
            context,
            messages: Vec::new(),
            seen_calls: Vec::new(),
            previous_plan: None,
            repeated_plan_rounds: 0,
            stalled_rounds: 0,
            round: 0,
            calls: Vec::new(),
            idx: 0,
            succeeded: 0,
            attempted: 0,
            runs: 0,
            awaiting_tool: false,
            executed: Ghost(Seq::empty()),
            log: Ghost(Seq::empty()),
            asked0: Ghost(self.asked@),
            base: Ghost(self.tool_view@.active + hinted(lowercase(text@))),
            origin: Ghost(tape2),
            records: Ghost(Seq::empty()),
        };
        assert(rounds_entries(t.log@, t.records@, self.profile@) =~= Seq::<(Seq<char>, Seq<char>)>::empty());
        assert(self.tool_view@.active + hinted(lowercase(t.text@)) =~= t.base@ + noted_names(t.log@)
            + Set::<Seq<char>>::empty());
        assert(message_views(t.messages@) =~= turn_additions(Seq::<RoundView>::empty()));
        let r = self.drive(t, true);
        proof {
            lemma_prefix_refl(tape2);
            lemma_prefix_trans(tape2, tape2, self.tape@);
            if r matches Step::Finished(Ok(_)) {
                lemma_no_stop_extend(tape2, self.tape@, tape0.len() as int, self.tape@.len() - 1);
            } else {
                lemma_no_stop_extend(tape2, self.tape@, tape0.len() as int, self.tape@.len() as int);
            }
        }
        r
    }

    fn render_trace(&self, args: &str) -> (r: Result<String, String>)
        requires
            trace_renderable(self.tape@, args@),
        ensures
            match trace_spec(self.tape@, args@) {
                Ok(t) => r matches Ok(s) && s@ == t,
                Err(m) => r matches Err(e) && e@ == m,
            },
    {
        trace_of(&self.tape, args)
    }

    fn list_handoffs(&self) -> (r: Result<String, String>)
        ensures
            r matches Ok(s) && s@ == handoff_listing(self.tape@),
    {
        Ok(handoff_listing_exec(&self.tape))
    }

    /// Answers the `/` command `command` with arguments `args`.
    fn handle_command(&mut self, command: &str, args: &str) -> (r: Step)
        requires
            old(self).idle(),
            command@ == "trace"@ ==> trace_renderable(old(self).tape@, args@),
        ensures
            step_laws(*old(self), *final(self), Seq::empty(), step_view(r)),
            (step_view(r), final(self).tape_view()) == command_spec(
                old(self).tape_view(),
                old(self).registry(),
                old(self).profile_view(),
                command@,
                args@,
            ),
            final(self).provider_calls() == old(self).provider_calls(),
    {
        proof {
            lemma_prefix_refl(self.tape@);
        }
        if crate::text::str_eq(command, "help") || crate::text::str_eq(command, "h") {
            return Step::Finished(
                Ok(
                    "Commands:\n/help\n/tools\n/trace [turn]\n/tape.search <query>\n/handoff [name]\n/handoff.list\n!<shell command>".to_owned(),
                ),
            );
        }
        if crate::text::str_eq(command, "tools") {
            let specs = self.tools.specs();
            return Step::Finished(Ok(tools_listing_exec(&specs)));
        }
        if crate::text::str_eq(command, "trace") {
            return Step::Finished(self.render_trace(args));
        }
        if crate::text::str_eq(command, "tape.search") {
            return Step::Finished(Ok(search_listing_exec(&self.tape, args)));
        }
        if crate::text::str_eq(command, "handoff.list") {
            return Step::Finished(self.list_handoffs());
        }
        if crate::text::str_eq(command, "handoff") {
            let before = self.tape.len();
            let trimmed = trim_str(args);
            let name = if trimmed.as_str().is_empty() {
                concat_str("handoff-", usize_to_string(before).as_str())
            } else {
                trimmed
            };
            let state = concat_str("entries_before=", usize_to_string(before).as_str());
            let ghost tape0 = self.tape@;
            self.tape.append_anchor(name.as_str(), state.as_str(), "handoff");
            proof {
                lemma_appended_prefix(
                    tape0,
                    "handoff"@,
                    anchor_payload(name@, state@),
                );
            }
            let a = concat_str("✅ handoff '", name.as_str());
            let b = concat_str(a.as_str(), "' created at tape entry #");
            let c = concat_str(b.as_str(), usize_to_string(before).as_str());
            return Step::Finished(
                Ok(
                    concat_str(
                        c.as_str(),
                        ".\nUse /trace for recent activity or /handoff.list to inspect saved anchors.",
                    ),
                ),
            );
        }
        if crate::text::str_eq(command, "shell") {
            if !self.profile.shell_route_allowed() {
                return Step::Finished(
                    Ok("Shell command route is disabled for this runtime profile.".to_owned()),
                );
            }
            let trimmed = trim_str(args);
            if trimmed.as_str().is_empty() {
                return Step::Finished(Ok("Empty command.".to_owned()));
            }
            self.shell_command = Some(args.to_owned());
            return Step::RunShell { command: args.to_owned() };
        }
        let a = concat_str("Unknown command: ", command);
        Step::Finished(Ok(concat_str(a.as_str(), ". Try /help.")))
    }

    /// Handles one line of input: a `/` command is answered, a `!` line is run as a shell
    /// command, anything else starts a turn. A turn or shell command still pending is
    /// dropped.
    pub fn handle_input(&mut self, text: &str) -> (r: Step)
        requires
            old(self).wf(),
            ({
                let route = route_of(text@);
                route.kind != RouteKind::Prompt && command_name(route) == "trace"@
                    ==> trace_renderable(old(self).tape_view(), route.args)
            }),
        ensures
            step_laws(*old(self), *final(self), Seq::empty(), step_view(r)),
            ({
                let route = route_of(text@);
                if route.kind != RouteKind::Prompt {
                    &&& (step_view(r), final(self).tape_view()) == command_spec(
                        old(self).tape_view(),
                        old(self).registry(),
                        old(self).profile_view(),
                        command_name(route),
                        route.args,
                    )
                    &&& final(self).provider_calls() == old(self).provider_calls()
                } else {
                    &&& final(self).turn_calls_start() == old(self).provider_calls()
                    &&& final(self).tool_base() == old(self).active_tools() + hinted(lowercase(text@))
                    &&& final(self).turn_origin() == turn_opening(
                        old(self).tape_view(),
                        text@,
                        old(self).visible_tools(),
                        old(self).profile_view(),
                    )
                    &&& turn_opening(
                        old(self).tape_view(),
                        text@,
                        old(self).visible_tools(),
                        old(self).profile_view(),
                    ).is_prefix_of(final(self).tape_view())
                    &&& step_view(r) matches StepView::Finished(Ok(x)) ==> turn_answer(
                        final(self).tape_view(),
                        x,
                    )
                    &&& turn_laws(*final(self), step_view(r))
                    &&& final(self).window() == last_n(
                        tape_messages(
                            appended(old(self).tape_view(), "message"@, enc_msgs(seq![user_message(text@)])),
                        ),
                        50,
                    )
                }
            }),
    {
        self.turn = None;
        self.shell_command = None;
        let route = self.router.route(text);
        if route.kind == RouteKind::Command || route.kind == RouteKind::Shell {
            let command = match &route.command {
                Some(c) => c.clone(),
                None => "help".to_owned(),
            };
            return self.handle_command(command.as_str(), route.args.as_str());
        }
        self.start_turn(text)
    }

    /// Continues the turn with the result of the tool run it asked for.
    #[verifier::rlimit(40)]
    pub fn tool_finished(&mut self, result: Result<AgentToolResult, String>) -> (r: Step)
        requires
            old(self).wf(),
            old(self).awaits_tool(),
        ensures
            step_laws(*old(self), *final(self), old(self).executed(), step_view(r)),
            output_recorded(
                old(self).tape_view(),
                old(self).round(),
                old(self).pending_tool(),
                match result {
                    Ok(res) => res.llm_output@,
                    Err(e) => e@,
                },
            ).is_prefix_of(final(self).tape_view()),
            step_view(r) matches StepView::Finished(Ok(x)) ==> turn_answer(final(self).tape_view(), x),
            turn_laws(*final(self), step_view(r)),
            final(self).window() == old(self).window(),
            final(self).turn_calls_start() == old(self).turn_calls_start(),
            final(self).tool_base() == old(self).tool_base(),
            final(self).turn_origin() == old(self).turn_origin(),
            ({
                let n = old(self).rounds().len() - 1;
                let k = old(self).rounds()[n].results.len() as int;
                final(self).call_records()[n][k] == match result {
                    Ok(res) => CallRecord {
                        output: res.llm_output@,
                        status: "ok"@,
                        details: pair_views(res.ui_details@),
                    },
                    Err(e) => CallRecord { output: e@, status: "error"@, details: seq![("status"@, "error"@)] },
                }
            }),
    {
        let mut t = self.turn.take().unwrap();
        t.awaiting_tool = false;
        assert(seen_with_current(t));
        let name = t.calls[t.idx].1.clone();
        let args = clone_pairs(t.calls[t.idx].2.as_slice());
        let ghost tape0 = self.tape@;
        let ghost output = match &result {
            Ok(res) => res.llm_output@,
            Err(e) => e@,
        };
        match result {
            Ok(res) => {
                self.record_call(&mut t, &name, &args, res, "ok", true, true);
            },
            Err(err) => {
                let res = AgentToolResult { llm_output: err, ui_details: status_details("error") };
                proof {
                    lemma_status_words();
                }
                self.record_call(&mut t, &name, &args, res, "error", true, false);
            },
        }
        let ghost tape1 = self.tape@;
        let ghost r1 = t.records@;
        let r = self.drive(t, false);
        proof {
            let n = r1.len() - 1;
            let k = old(self).rounds()[n].results.len() as int;
            assert(r1[n].len() == k + 1);
            assert(self.records@[n].take(k + 1)[k] == self.records@[n][k]);
            lemma_prefix_trans(tape0, tape1, self.tape@);
            if r matches Step::Finished(Ok(_)) {
                lemma_no_stop_extend(tape1, self.tape@, tape0.len() as int, self.tape@.len() - 1);
            } else {
                lemma_no_stop_extend(tape1, self.tape@, tape0.len() as int, self.tape@.len() as int);
            }
            lemma_prefix_trans(
                output_recorded(tape0, old(self).round(), old(self).pending_tool(), output),
                tape1,
                self.tape@,
            );
        }
        r
    }

    /// Answers the shell command with what it printed, or with the error that kept it from
    /// running.
    pub fn shell_finished(&mut self, output: Result<(String, String), String>) -> (r: Step)
        requires
            old(self).wf(),
            old(self).awaits_shell(),
        ensures
            step_laws(*old(self), *final(self), Seq::empty(), step_view(r)),
            final(self).tape_view() == old(self).tape_view(),
            final(self).provider_calls() == old(self).provider_calls(),
            ({
                let command = old(self).pending_shell();
                match output {
                    Ok((out, err)) => step_view(r) == StepView::Finished(
                        Ok("$ "@ + command + "\n"@ + crate::tools::command_text(out@, err@)),
                    ),
                    Err(e) => step_view(r) == StepView::Finished(Err(e@)),
                }
            }),
    {
        let command = self.shell_command.take().unwrap();
        proof {
            lemma_prefix_refl(self.tape@);
        }
        match output {
            Ok((out, err)) => {
                let merged = crate::tools::merge_output(out.as_str(), err.as_str());
                let text = if crate::tools::string_is_empty(&merged) {
                    "(no output)".to_owned()
                } else {
                    merged
                };
                let a = concat_str("$ ", command.as_str());
                let b = concat_str(a.as_str(), "\n");
                Step::Finished(Ok(concat_str(b.as_str(), text.as_str())))
            },
            Err(e) => Step::Finished(Err(e)),
        }
    }

    /// The shell command awaited.
    pub closed spec fn pending_shell(&self) -> Seq<char> {
        match self.shell_command {
            Some(c) => c@,
            None => Seq::empty(),
        }
    }
}

} // verus!

//! A line-safe text form of a conversation, so that the tape can store messages and
//! give them back.
//!
//! Each string is written with `\`, `;`, newline and carriage return escaped and a `;`
//! after it. A message is `m` and its role, then its blocks: `t` and the text, or `c`,
//! the call id, the tool name, and `a` with key and value for each argument.
use vstd::prelude::*;

use crate::llm::{
    item_views, message_views, pair_views, ContentItem, ContentItemView, Message, MessageView,
};
use crate::text::{chars_of, lemma_no_line_break_concat, no_line_break, string_of};

verus! {

/// How one character is written.
pub open spec fn escape_char(c: char) -> Seq<char> {
    if c == '\\' {
        seq!['\\', '\\']
    } else if c == ';' {
        seq!['\\', ';']
    } else if c == '\n' {
        seq!['\\', 'n']
    } else if c == '\r' {
        seq!['\\', 'r']
    } else {
        seq![c]
    }
}

/// The character an escape sequence `\x` stands for.
pub open spec fn unescape_char(c: char) -> char {
    if c == 'n' {
        '\n'
    } else if c == 'r' {
        '\r'
    } else {
        c
    }
}

/// `s` with every character escaped.
pub open spec fn escape_str(s: Seq<char>) -> Seq<char>
    decreases s.len(),
{
    if s.len() == 0 {
        Seq::<char>::empty()
    } else {
        escape_char(s[0]) + escape_str(s.drop_first())
    }
}

/// A string as a token: escaped, then `;`.
pub open spec fn enc_tok(s: Seq<char>) -> Seq<char> {
    escape_str(s) + seq![';']
}

/// Reads one token from the front of `inp`: the string it spells and what follows it.
pub open spec fn dec_tok(inp: Seq<char>) -> Option<(Seq<char>, Seq<char>)>
    decreases inp.len(),
{
    if inp.len() == 0 {
        None
    } else if inp[0] == ';' {
        Some((Seq::<char>::empty(), inp.drop_first()))
    } else if inp[0] == '\\' {
        if inp.len() < 2 {
            None
        } else {
            match dec_tok(inp.skip(2)) {
                Some((t, r)) => Some((seq![unescape_char(inp[1])] + t, r)),
                None => None,
            }
        }
    } else {
        match dec_tok(inp.drop_first()) {
            Some((t, r)) => Some((seq![inp[0]] + t, r)),
            None => None,
        }
    }
}

/// Reading a token leaves less input than it was given.
pub proof fn lemma_dec_tok_shorter(inp: Seq<char>)
    ensures
        dec_tok(inp) matches Some((t, r)) ==> r.len() < inp.len(),
    decreases inp.len(),
{
    if inp.len() > 0 && inp[0] != ';' {
        if inp[0] == '\\' {
            if inp.len() >= 2 {
                lemma_dec_tok_shorter(inp.skip(2));
            }
        } else {
            lemma_dec_tok_shorter(inp.drop_first());
        }
    }
}

/// A token read gives back the string that was written, and leaves what followed it.
pub proof fn lemma_tok_roundtrip(s: Seq<char>, rest: Seq<char>)
    ensures
        dec_tok(enc_tok(s) + rest) == Some((s, rest)),
    decreases s.len(),
{
    let inp = enc_tok(s) + rest;
    if s.len() == 0 {
        assert(inp =~= seq![';'] + rest);
        assert(inp.drop_first() =~= rest);
    } else {
        lemma_tok_roundtrip(s.drop_first(), rest);
        let c = s[0];
        let e = escape_char(c);
        assert(inp =~= e + (enc_tok(s.drop_first()) + rest));
        if e.len() == 2 {
            assert(inp.skip(2) =~= enc_tok(s.drop_first()) + rest);
        } else {
            assert(inp.drop_first() =~= enc_tok(s.drop_first()) + rest);
        }
        assert(seq![c] + s.drop_first() =~= s);
    }
}

/// The arguments of a call, written.
pub open spec fn enc_args(args: Seq<(Seq<char>, Seq<char>)>) -> Seq<char>
    decreases args.len(),
{
    if args.len() == 0 {
        Seq::<char>::empty()
    } else {
        seq!['a'] + enc_tok(args[0].0) + enc_tok(args[0].1) + enc_args(args.drop_first())
    }
}

/// A content block, written.
pub open spec fn enc_item(it: ContentItemView) -> Seq<char> {
    match it {
        ContentItemView::Text(t) => seq!['t'] + enc_tok(t),
        ContentItemView::ToolCall { id, name, arguments } => seq!['c'] + enc_tok(id) + enc_tok(
            name,
        ) + enc_args(arguments),
    }
}

/// Content blocks, written one after another.
pub open spec fn enc_items(items: Seq<ContentItemView>) -> Seq<char>
    decreases items.len(),
{
    if items.len() == 0 {
        Seq::<char>::empty()
    } else {
        enc_item(items[0]) + enc_items(items.drop_first())
    }
}

/// A message, written.
pub open spec fn enc_msg(m: MessageView) -> Seq<char> {
    seq!['m'] + enc_tok(m.role) + enc_items(m.content)
}

/// Messages, written one after another.
pub open spec fn enc_msgs(ms: Seq<MessageView>) -> Seq<char>
    decreases ms.len(),
{
    if ms.len() == 0 {
        Seq::<char>::empty()
    } else {
        enc_msg(ms[0]) + enc_msgs(ms.drop_first())
    }
}

/// Reads the arguments of a call from the front of `inp`.
pub open spec fn dec_args(inp: Seq<char>) -> Option<(Seq<(Seq<char>, Seq<char>)>, Seq<char>)>
    decreases inp.len(),
{
    if inp.len() > 0 && inp[0] == 'a' {
        match dec_tok(inp.drop_first()) {
            None => None,
            Some((k, r1)) => match dec_tok(r1) {
                None => None,
                Some((v, r2)) => {
                    proof {
                        lemma_dec_tok_shorter(inp.drop_first());
                        lemma_dec_tok_shorter(r1);
                    }
                    match dec_args(r2) {
                        None => None,
                        Some((more, r3)) => Some((seq![(k, v)] + more, r3)),
                    }
                },
            },
        }
    } else {
        Some((Seq::<(Seq<char>, Seq<char>)>::empty(), inp))
    }
}

/// Reads content blocks from the front of `inp`, up to the next message or the end.
pub open spec fn dec_items(inp: Seq<char>) -> Option<(Seq<ContentItemView>, Seq<char>)>
    decreases inp.len(),
{
    if inp.len() == 0 || inp[0] == 'm' {
        Some((Seq::<ContentItemView>::empty(), inp))
    } else if inp[0] == 't' {
        match dec_tok(inp.drop_first()) {
            None => None,
            Some((t, r1)) => {
                proof {
                    lemma_dec_tok_shorter(inp.drop_first());
                }
                match dec_items(r1) {
                    None => None,
                    Some((more, r2)) => Some((seq![ContentItemView::Text(t)] + more, r2)),
                }
            },
        }
    } else if inp[0] == 'c' {
        match dec_tok(inp.drop_first()) {
            None => None,
            Some((id, r1)) => match dec_tok(r1) {
                None => None,
                Some((name, r2)) => match dec_args(r2) {
                    None => None,
                    Some((args, r3)) => {
                        proof {
                            lemma_dec_tok_shorter(inp.drop_first());
                            lemma_dec_tok_shorter(r1);
                            lemma_dec_args_shorter(r2);
                        }
                        match dec_items(r3) {
                            None => None,
                            Some((more, r4)) => Some(
                                (
                                    seq![
                                        ContentItemView::ToolCall {
                                            id,
                                            name,
                                            arguments: args,
                                        },
                                    ] + more,
                                    r4,
                                ),
                            ),
                        }
                    },
                },
            },
        }
    } else {
        None
    }
}

/// Reading arguments leaves less input than it was given.
pub proof fn lemma_dec_args_shorter(inp: Seq<char>)
    ensures
        dec_args(inp) matches Some((a, r)) ==> r.len() <= inp.len(),
    decreases inp.len(),
{
    if inp.len() > 0 && inp[0] == 'a' {
        lemma_dec_tok_shorter(inp.drop_first());
        if let Some((k, r1)) = dec_tok(inp.drop_first()) {
            lemma_dec_tok_shorter(r1);
            if let Some((v, r2)) = dec_tok(r1) {
                lemma_dec_args_shorter(r2);
            }
        }
    }
}

/// Reading content blocks leaves less input than it was given.
pub proof fn lemma_dec_items_shorter(inp: Seq<char>)
    ensures
        dec_items(inp) matches Some((a, r)) ==> r.len() <= inp.len(),
    decreases inp.len(),
{
    if inp.len() > 0 && inp[0] != 'm' {
        lemma_dec_tok_shorter(inp.drop_first());
        if inp[0] == 't' {
            if let Some((t, r1)) = dec_tok(inp.drop_first()) {
                lemma_dec_items_shorter(r1);
            }
        } else if inp[0] == 'c' {
            if let Some((id, r1)) = dec_tok(inp.drop_first()) {
                lemma_dec_tok_shorter(r1);
                if let Some((name, r2)) = dec_tok(r1) {
                    lemma_dec_args_shorter(r2);
                    if let Some((args, r3)) = dec_args(r2) {
                        lemma_dec_items_shorter(r3);
                    }
                }
            }
        }
    }
}

/// Reads the messages at the front of `inp`, stopping at the first one that is not
/// well formed.
pub open spec fn dec_msgs(inp: Seq<char>) -> Seq<MessageView>
    decreases inp.len(),
{
    if inp.len() > 0 && inp[0] == 'm' {
        match dec_tok(inp.drop_first()) {
            None => Seq::<MessageView>::empty(),
            Some((role, r1)) => match dec_items(r1) {
                None => Seq::<MessageView>::empty(),
                Some((items, r2)) => {
                    proof {
                        lemma_dec_tok_shorter(inp.drop_first());
                        lemma_dec_items_shorter(r1);
                    }
                    seq![MessageView { role, content: items }] + dec_msgs(r2)
                },
            },
        }
    } else {
        Seq::<MessageView>::empty()
    }
}

proof fn lemma_args_roundtrip(args: Seq<(Seq<char>, Seq<char>)>, rest: Seq<char>)
    requires
        rest.len() == 0 || rest[0] != 'a',
    ensures
        dec_args(enc_args(args) + rest) == Some((args, rest)),
    decreases args.len(),
{
    if args.len() == 0 {
        assert(enc_args(args) + rest =~= rest);
    } else {
        let (k, v) = args[0];
        let tail = enc_args(args.drop_first()) + rest;
        let inp = enc_args(args) + rest;
        assert(inp =~= seq!['a'] + (enc_tok(k) + (enc_tok(v) + tail)));
        assert(inp.drop_first() =~= enc_tok(k) + (enc_tok(v) + tail));
        lemma_tok_roundtrip(k, enc_tok(v) + tail);
        lemma_tok_roundtrip(v, tail);
        lemma_args_roundtrip(args.drop_first(), rest);
        assert(seq![(k, v)] + args.drop_first() =~= args);
    }
}

proof fn lemma_item_roundtrip(
    it: ContentItemView,
    tail: Seq<char>,
    more: Seq<ContentItemView>,
    r: Seq<char>,
)
    requires
        dec_items(tail) == Some((more, r)),
    ensures
        dec_items(enc_item(it) + tail) == Some((seq![it] + more, r)),
{
    let inp = enc_item(it) + tail;
    assert(tail.len() == 0 || tail[0] != 'a');
    match it {
        ContentItemView::Text(t) => {
            assert(inp =~= seq!['t'] + (enc_tok(t) + tail));
            assert(inp.drop_first() =~= enc_tok(t) + tail);
            lemma_tok_roundtrip(t, tail);
        },
        ContentItemView::ToolCall { id, name, arguments } => {
            let a = enc_args(arguments) + tail;
            assert(inp =~= seq!['c'] + (enc_tok(id) + (enc_tok(name) + a)));
            assert(inp.drop_first() =~= enc_tok(id) + (enc_tok(name) + a));
            lemma_tok_roundtrip(id, enc_tok(name) + a);
            lemma_tok_roundtrip(name, a);
            lemma_args_roundtrip(arguments, tail);
        },
    }
}

proof fn lemma_items_roundtrip(items: Seq<ContentItemView>, rest: Seq<char>)
    requires
        rest.len() == 0 || rest[0] == 'm',
    ensures
        dec_items(enc_items(items) + rest) == Some((items, rest)),
    decreases items.len(),
{
    if items.len() == 0 {
        assert(enc_items(items) + rest =~= rest);
    } else {
        let tail = enc_items(items.drop_first()) + rest;
        lemma_items_roundtrip(items.drop_first(), rest);
        lemma_item_roundtrip(items[0], tail, items.drop_first(), rest);
        assert(enc_items(items) + rest =~= enc_item(items[0]) + tail);
        assert(seq![items[0]] + items.drop_first() =~= items);
    }
}

/// Reading written messages gives back exactly those messages.
pub proof fn lemma_context_roundtrip(ms: Seq<MessageView>)
    ensures
        dec_msgs(enc_msgs(ms)) == ms,
    decreases ms.len(),
{
    if ms.len() > 0 {
        let m = ms[0];
        let tail = enc_msgs(ms.drop_first());
        let inp = enc_msgs(ms);
        lemma_context_roundtrip(ms.drop_first());
        assert(tail.len() == 0 || tail[0] == 'm') by {
            if ms.drop_first().len() > 0 {
                assert(tail[0] == enc_msg(ms.drop_first()[0])[0]);
            }
        }
        assert(inp =~= seq!['m'] + (enc_tok(m.role) + (enc_items(m.content) + tail)));
        assert(inp.drop_first() =~= enc_tok(m.role) + (enc_items(m.content) + tail));
        lemma_tok_roundtrip(m.role, enc_items(m.content) + tail);
        lemma_items_roundtrip(m.content, tail);
        assert(seq![MessageView { role: m.role, content: m.content }] + ms.drop_first() =~= ms);
    } else {
        assert(enc_msgs(ms) =~= Seq::<char>::empty());
    }
}

proof fn lemma_escape_concat(a: Seq<char>, b: Seq<char>)
    ensures
        escape_str(a + b) == escape_str(a) + escape_str(b),
    decreases a.len(),
{
    if a.len() == 0 {
        assert(a + b =~= b);
        assert(escape_str(a) + escape_str(b) =~= escape_str(b));
    } else {
        lemma_escape_concat(a.drop_first(), b);
        assert((a + b).drop_first() =~= a.drop_first() + b);
        assert((a + b)[0] == a[0]);
        assert(escape_str(a + b) =~= escape_char(a[0]) + escape_str(a.drop_first() + b));
    }
}

proof fn lemma_escape_one(c: char)
    ensures
        escape_str(seq![c]) == escape_char(c),
{
    assert(seq![c].drop_first() =~= Seq::<char>::empty());
    assert(escape_str(Seq::<char>::empty()) == Seq::<char>::empty());
    assert(escape_str(seq![c]) == escape_char(seq![c][0]) + escape_str(seq![c].drop_first()));
    assert(escape_char(c) + Seq::<char>::empty() =~= escape_char(c));
}

fn push_escaped(out: &mut Vec<char>, s: &[char])
    ensures
        final(out)@ == old(out)@ + enc_tok(s@),
{
    let ghost start = out@;
    for i in 0..s.len()
        invariant
            out@ == start + escape_str(s@.take(i as int)),
    {
        let c = s[i];
        proof {
            assert(s@.take(i + 1) =~= s@.take(i as int) + seq![c]);
            lemma_escape_concat(s@.take(i as int), seq![c]);
            lemma_escape_one(c);
        }
        if c == '\\' {
            out.push('\\');
            out.push('\\');
        } else if c == ';' {
            out.push('\\');
            out.push(';');
        } else if c == '\n' {
            out.push('\\');
            out.push('n');
        } else if c == '\r' {
            out.push('\\');
            out.push('r');
        } else {
            out.push(c);
        }
        assert(out@ =~= start + escape_str(s@.take(i + 1)));
    }
    assert(s@.take(s@.len() as int) =~= s@);
    out.push(';');
    assert(out@ =~= start + enc_tok(s@));
}

fn push_str_token(out: &mut Vec<char>, s: &String)
    ensures
        final(out)@ == old(out)@ + enc_tok(s@),
{
    let v = chars_of(s.as_str());
    push_escaped(out, v.as_slice());
}

proof fn lemma_enc_args_push(a: Seq<(Seq<char>, Seq<char>)>, p: (Seq<char>, Seq<char>))
    ensures
        enc_args(a.push(p)) == enc_args(a) + seq!['a'] + enc_tok(p.0) + enc_tok(p.1),
    decreases a.len(),
{
    if a.len() == 0 {
        assert(a.push(p).drop_first() =~= Seq::<(Seq<char>, Seq<char>)>::empty());
        assert(enc_args(a.push(p).drop_first()) == Seq::<char>::empty());
        assert(enc_args(a.push(p)) =~= seq!['a'] + enc_tok(p.0) + enc_tok(p.1));
        assert(enc_args(a) =~= Seq::<char>::empty());
        assert(enc_args(a) + seq!['a'] + enc_tok(p.0) + enc_tok(p.1) =~= seq!['a'] + enc_tok(p.0)
            + enc_tok(p.1));
    } else {
        lemma_enc_args_push(a.drop_first(), p);
        assert(a.push(p).drop_first() =~= a.drop_first().push(p));
        assert(a.push(p)[0] == a[0]);
        assert(enc_args(a.push(p)) =~= enc_args(a) + seq!['a'] + enc_tok(p.0) + enc_tok(p.1));
    }
}

proof fn lemma_enc_items_push(a: Seq<ContentItemView>, it: ContentItemView)
    ensures
        enc_items(a.push(it)) == enc_items(a) + enc_item(it),
    decreases a.len(),
{
    if a.len() == 0 {
        assert(a.push(it).drop_first() =~= Seq::<ContentItemView>::empty());
        assert(enc_items(a.push(it).drop_first()) == Seq::<char>::empty());
        assert(enc_items(a.push(it)) =~= enc_item(it));
        assert(enc_items(a) + enc_item(it) =~= enc_item(it));
    } else {
        lemma_enc_items_push(a.drop_first(), it);
        assert(a.push(it).drop_first() =~= a.drop_first().push(it));
        assert(a.push(it)[0] == a[0]);
        assert(enc_items(a.push(it)) =~= enc_items(a) + enc_item(it));
    }
}

proof fn lemma_enc_msgs_push(a: Seq<MessageView>, m: MessageView)
    ensures
        enc_msgs(a.push(m)) == enc_msgs(a) + enc_msg(m),
    decreases a.len(),
{
    if a.len() == 0 {
        assert(a.push(m).drop_first() =~= Seq::<MessageView>::empty());
        assert(enc_msgs(a.push(m).drop_first()) == Seq::<char>::empty());
        assert(enc_msgs(a.push(m)) =~= enc_msg(m));
        assert(enc_msgs(a) + enc_msg(m) =~= enc_msg(m));
    } else {
        lemma_enc_msgs_push(a.drop_first(), m);
        assert(a.push(m).drop_first() =~= a.drop_first().push(m));
        assert(a.push(m)[0] == a[0]);
        assert(enc_msgs(a.push(m)) =~= enc_msgs(a) + enc_msg(m));
    }
}

fn push_item(out: &mut Vec<char>, it: &ContentItem)
    ensures
        final(out)@ == old(out)@ + enc_item(it@),
{
    let ghost start = out@;
    match it {
        ContentItem::Text(t) => {
            out.push('t');
            push_str_token(out, t);
            assert(out@ =~= start + enc_item(it@));
        },
        ContentItem::ToolCall { id, name, arguments } => {
            out.push('c');
            push_str_token(out, id);
            push_str_token(out, name);
            let ghost mid = out@;
            let ghost pv = pair_views(arguments@);
            for i in 0..arguments.len()
                invariant
                    pv == pair_views(arguments@),
                    out@ == mid + enc_args(pv.take(i as int)),
            {
                proof {
                    assert(pv.take(i + 1) =~= pv.take(i as int).push(pv[i as int]));
                    lemma_enc_args_push(pv.take(i as int), pv[i as int]);
                }
                out.push('a');
                push_str_token(out, &arguments[i].0);
                push_str_token(out, &arguments[i].1);
                assert(out@ =~= mid + enc_args(pv.take(i + 1)));
            }
            assert(pv.take(arguments@.len() as int) =~= pv);
            assert(out@ =~= start + enc_item(it@));
        },
    }
}

/// The text form of `messages`, one after another.
pub fn serialize_context(messages: &[Message]) -> (r: String)
    ensures
        r@ == enc_msgs(message_views(messages@)),
{
    let mut out: Vec<char> = Vec::new();
    let ghost mv = message_views(messages@);
    for k in 0..messages.len()
        invariant
            mv == message_views(messages@),
            out@ == enc_msgs(mv.take(k as int)),
    {
        let m = &messages[k];
        let ghost before = out@;
        out.push('m');
        push_str_token(&mut out, &m.role);
        let ghost mid = out@;
        let ghost iv = item_views(m.content@);
        for i in 0..m.content.len()
            invariant
                iv == item_views(m.content@),
                out@ == mid + enc_items(iv.take(i as int)),
        {
            proof {
                assert(iv.take(i + 1) =~= iv.take(i as int).push(iv[i as int]));
                lemma_enc_items_push(iv.take(i as int), iv[i as int]);
            }
            push_item(&mut out, &m.content[i]);
            assert(out@ =~= mid + enc_items(iv.take(i + 1)));
        }
        assert(iv.take(m.content@.len() as int) =~= iv);
        proof {
            assert(mv.take(k + 1) =~= mv.take(k as int).push(mv[k as int]));
            lemma_enc_msgs_push(mv.take(k as int), mv[k as int]);
        }
        assert(out@ =~= enc_msgs(mv.take(k + 1)));
    }
    assert(mv.take(messages@.len() as int) =~= mv);
    string_of(out.as_slice())
}

/// `dec_tok`, with `out` put in front of the string read.
pub open spec fn after_prefix(out: Seq<char>, o: Option<(Seq<char>, Seq<char>)>) -> Option<
    (Seq<char>, Seq<char>),
> {
    match o {
        Some((t, r)) => Some((out + t, r)),
        None => None,
    }
}

fn read_tok(v: &[char], pos: usize) -> (r: Option<(String, usize)>)
    requires
        pos <= v@.len(),
    ensures
        match dec_tok(v@.skip(pos as int)) {
            Some((t, rest)) => r matches Some((s, p)) && s@ == t && pos < p <= v@.len() && v@.skip(
                p as int,
            ) == rest,
            None => r is None,
        },
{
    let mut out: Vec<char> = Vec::new();
    let mut i = pos;
    proof {
        lemma_dec_tok_shorter(v@.skip(pos as int));
    }
    while i < v.len()
        invariant
            pos <= i <= v@.len(),
            dec_tok(v@.skip(pos as int)) == after_prefix(out@, dec_tok(v@.skip(i as int))),
        decreases v@.len() - i,
    {
        let ghost t = v@.skip(i as int);
        let c = v[i];
        assert(t[0] == c);
        if c == ';' {
            assert(t.drop_first() =~= v@.skip(i + 1));
            assert(out@ + Seq::<char>::empty() =~= out@);
            proof {
                lemma_dec_tok_shorter(v@.skip(pos as int));
            }
            return Some((string_of(out.as_slice()), i + 1));
        } else if c == '\\' {
            if i + 1 >= v.len() {
                return None;
            }
            let d = v[i + 1];
            assert(t[1] == d);
            assert(t.skip(2) =~= v@.skip(i + 2));
            let ghost before = out@;
            let e = if d == 'n' {
                '\n'
            } else if d == 'r' {
                '\r'
            } else {
                d
            };
            out.push(e);
            proof {
                match dec_tok(v@.skip(i + 2)) {
                    Some((tt, rr)) => {
                        assert(before + (seq![e] + tt) =~= out@ + tt);
                    },
                    None => {},
                }
            }
            i += 2;
        } else {
            assert(t.drop_first() =~= v@.skip(i + 1));
            let ghost before = out@;
            out.push(c);
            proof {
                match dec_tok(v@.skip(i + 1)) {
                    Some((tt, rr)) => {
                        assert(before + (seq![c] + tt) =~= out@ + tt);
                    },
                    None => {},
                }
            }
            i += 1;
        }
    }
    assert(v@.skip(i as int).len() == 0);
    None
}

fn read_args(v: &[char], pos: usize) -> (r: Option<(Vec<(String, String)>, usize)>)
    requires
        pos <= v@.len(),
    ensures
        match dec_args(v@.skip(pos as int)) {
            Some((a, rest)) => r matches Some((args, p)) && pair_views(args@) == a && pos <= p
                <= v@.len() && v@.skip(p as int) == rest,
            None => r is None,
        },
    decreases v@.len() - pos,
{
    let ghost inp = v@.skip(pos as int);
    if pos < v.len() && v[pos] == 'a' {
        assert(inp[0] == 'a');
        assert(inp.drop_first() =~= v@.skip(pos + 1));
        match read_tok(v, pos + 1) {
            None => None,
            Some((k, p1)) => match read_tok(v, p1) {
                None => None,
                Some((val, p2)) => match read_args(v, p2) {
                    None => None,
                    Some((more, p3)) => {
                        let mut args: Vec<(String, String)> = Vec::new();
                        let ghost kv = (k@, val@);
                        args.push((k, val));
                        let mut more = more;
                        let ghost mv = pair_views(more@);
                        args.append(&mut more);
                        assert(pair_views(args@) =~= seq![kv] + mv);
                        Some((args, p3))
                    },
                },
            },
        }
    } else {
        assert(inp.len() == 0 || inp[0] != 'a');
        let args: Vec<(String, String)> = Vec::new();
        assert(pair_views(args@) =~= Seq::<(Seq<char>, Seq<char>)>::empty());
        Some((args, pos))
    }
}

fn read_items(v: &[char], pos: usize) -> (r: Option<(Vec<ContentItem>, usize)>)
    requires
        pos <= v@.len(),
    ensures
        match dec_items(v@.skip(pos as int)) {
            Some((a, rest)) => r matches Some((items, p)) && item_views(items@) == a && pos <= p
                <= v@.len() && v@.skip(p as int) == rest,
            None => r is None,
        },
    decreases v@.len() - pos,
{
    let ghost inp = v@.skip(pos as int);
    if pos == v.len() || v[pos] == 'm' {
        let items: Vec<ContentItem> = Vec::new();
        assert(item_views(items@) =~= Seq::<ContentItemView>::empty());
        return Some((items, pos));
    }
    assert(inp[0] == v@[pos as int]);
    assert(inp.drop_first() =~= v@.skip(pos + 1));
    if v[pos] == 't' {
        match read_tok(v, pos + 1) {
            None => None,
            Some((t, p1)) => match read_items(v, p1) {
                None => None,
                Some((more, p2)) => {
                    let mut items: Vec<ContentItem> = Vec::new();
                    let ghost tv = ContentItemView::Text(t@);
                    items.push(ContentItem::Text(t));
                    let mut more = more;
                    let ghost mv = item_views(more@);
                    items.append(&mut more);
                    assert(item_views(items@) =~= seq![tv] + mv);
                    Some((items, p2))
                },
            },
        }
    } else if v[pos] == 'c' {
        match read_tok(v, pos + 1) {
            None => None,
            Some((id, p1)) => match read_tok(v, p1) {
                None => None,
                Some((name, p2)) => match read_args(v, p2) {
                    None => None,
                    Some((args, p3)) => match read_items(v, p3) {
                        None => None,
                        Some((more, p4)) => {
                            let mut items: Vec<ContentItem> = Vec::new();
                            let ghost cv = ContentItemView::ToolCall {
                                id: id@,
                                name: name@,
                                arguments: pair_views(args@),
                            };
                            items.push(ContentItem::ToolCall { id, name, arguments: args });
                            let mut more = more;
                            let ghost mv = item_views(more@);
                            items.append(&mut more);
                            assert(item_views(items@) =~= seq![cv] + mv);
                            Some((items, p4))
                        },
                    },
                },
            },
        }
    } else {
        None
    }
}

fn read_msgs(v: &[char], pos: usize, out: &mut Vec<Message>)
    requires
        pos <= v@.len(),
    ensures
        message_views(final(out)@) == message_views(old(out)@) + dec_msgs(v@.skip(pos as int)),
    decreases v@.len() - pos,
{
    let ghost inp = v@.skip(pos as int);
    let ghost start = message_views(out@);
    if pos < v.len() && v[pos] == 'm' {
        assert(inp[0] == 'm');
        assert(inp.drop_first() =~= v@.skip(pos + 1));
        match read_tok(v, pos + 1) {
            None => {
                assert(message_views(out@) =~= start + Seq::<MessageView>::empty());
            },
            Some((role, p1)) => match read_items(v, p1) {
                None => {
                    assert(message_views(out@) =~= start + Seq::<MessageView>::empty());
                },
                Some((items, p2)) => {
                    let m = Message { role, content: items };
                    let ghost mv = m@;
                    out.push(m);
                    assert(message_views(out@) =~= start.push(mv));
                    proof {
                        lemma_dec_tok_shorter(v@.skip(pos + 1));
                    }
                    read_msgs(v, p2, out);
                    assert(message_views(out@) =~= start + (seq![mv] + dec_msgs(
                        v@.skip(p2 as int),
                    )));
                },
            },
        }
    } else {
        assert(message_views(out@) =~= start + Seq::<MessageView>::empty());
    }
}

/// The messages written in `payload`, up to the first that is not well formed.
pub fn deserialize_context(payload: &str) -> (r: Vec<Message>)
    ensures
        message_views(r@) == dec_msgs(payload@),
{
    let v = chars_of(payload);
    let mut out: Vec<Message> = Vec::new();
    read_msgs(v.as_slice(), 0, &mut out);
    assert(v@.skip(0) =~= v@);
    assert(message_views(out@) =~= dec_msgs(payload@));
    out
}

/// What is read back from written messages is exactly those messages.
pub proof fn lemma_serialize_roundtrip(messages: Seq<Message>)
    ensures
        dec_msgs(enc_msgs(message_views(messages))) == message_views(messages),
{
    lemma_context_roundtrip(message_views(messages));
}

proof fn lemma_escape_str_one_line(s: Seq<char>)
    ensures
        no_line_break(escape_str(s)),
    decreases s.len(),
{
    if s.len() > 0 {
        lemma_escape_str_one_line(s.drop_first());
        let e = escape_char(s[0]);
        assert(no_line_break(e));
        lemma_no_line_break_concat(e, escape_str(s.drop_first()));
    }
}

proof fn lemma_tok_one_line(s: Seq<char>)
    ensures
        no_line_break(enc_tok(s)),
{
    lemma_escape_str_one_line(s);
    assert(no_line_break(seq![';']));
    lemma_no_line_break_concat(escape_str(s), seq![';']);
}

proof fn lemma_args_one_line(args: Seq<(Seq<char>, Seq<char>)>)
    ensures
        no_line_break(enc_args(args)),
    decreases args.len(),
{
    if args.len() > 0 {
        lemma_args_one_line(args.drop_first());
        lemma_tok_one_line(args[0].0);
        lemma_tok_one_line(args[0].1);
        assert(no_line_break(seq!['a']));
        lemma_no_line_break_concat(seq!['a'], enc_tok(args[0].0));
        lemma_no_line_break_concat(seq!['a'] + enc_tok(args[0].0), enc_tok(args[0].1));
        lemma_no_line_break_concat(
            seq!['a'] + enc_tok(args[0].0) + enc_tok(args[0].1),
            enc_args(args.drop_first()),
        );
    }
}

proof fn lemma_items_one_line(items: Seq<ContentItemView>)
    ensures
        no_line_break(enc_items(items)),
    decreases items.len(),
{
    if items.len() > 0 {
        lemma_items_one_line(items.drop_first());
        match items[0] {
            ContentItemView::Text(t) => {
                lemma_tok_one_line(t);
                assert(no_line_break(seq!['t']));
                lemma_no_line_break_concat(seq!['t'], enc_tok(t));
            },
            ContentItemView::ToolCall { id, name, arguments } => {
                lemma_tok_one_line(id);
                lemma_tok_one_line(name);
                lemma_args_one_line(arguments);
                assert(no_line_break(seq!['c']));
                lemma_no_line_break_concat(seq!['c'], enc_tok(id));
                lemma_no_line_break_concat(seq!['c'] + enc_tok(id), enc_tok(name));
                lemma_no_line_break_concat(seq!['c'] + enc_tok(id) + enc_tok(name), enc_args(arguments));
            },
        }
        lemma_no_line_break_concat(enc_item(items[0]), enc_items(items.drop_first()));
    }
}

/// Written messages hold no line break, so they fit on one line of the tape file.
pub proof fn lemma_enc_msgs_one_line(ms: Seq<MessageView>)
    ensures
        no_line_break(enc_msgs(ms)),
    decreases ms.len(),
{
    if ms.len() > 0 {
        lemma_enc_msgs_one_line(ms.drop_first());
        let m = ms[0];
        lemma_tok_one_line(m.role);
        lemma_items_one_line(m.content);
        assert(no_line_break(seq!['m']));
        lemma_no_line_break_concat(seq!['m'], enc_tok(m.role));
        lemma_no_line_break_concat(seq!['m'] + enc_tok(m.role), enc_items(m.content));
        lemma_no_line_break_concat(enc_msg(m), enc_msgs(ms.drop_first()));
    }
}

}

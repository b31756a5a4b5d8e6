//! The tape: an append-only log of messages, events and anchors, kept one entry per line
//! as `id<TAB>type<TAB>payload`.
use vstd::prelude::*;

use crate::context::{
    dec_msgs, deserialize_context, enc_msgs, lemma_context_roundtrip, lemma_enc_msgs_one_line,
    serialize_context,
};
use crate::llm::{message_views, pair_views, Message, MessageView};
use crate::text::{
    chars_of, concat_str, decimal, find_char, has_substring, int_error_message, int_error_text,
    is_digit, join, join_strings, lemma_decimal_digits, lemma_first_index_at,
    lemma_join_no_line_break, lemma_replace_char_chars,
    lemma_no_line_break_concat, lemma_parse_decimal, lemma_split_on_append, lemma_split_on_sep,
    lemma_trim_nonempty, no_line_break, parse_usize_chars, parse_usize_result, replace_all,
    replace_chars, slice_chars, split_chars, split_on, split_once, str_contains, str_eq, string_of,
    string_views, trim, trim_chars, usize_to_string,
};

verus! {

/// One line of the tape.
pub struct TapeEntry {
    pub id: usize,
    pub entry_type: String,
    pub payload: String,
}

pub struct TapeEntryView {
    pub id: nat,
    pub entry_type: Seq<char>,
    pub payload: Seq<char>,
}

impl View for TapeEntry {
    type V = TapeEntryView;

    open spec fn view(&self) -> TapeEntryView {
        TapeEntryView { id: self.id as nat, entry_type: self.entry_type@, payload: self.payload@ }
    }
}

impl Clone for TapeEntry {
    fn clone(&self) -> (r: Self)
        ensures
            r@ == self@,
    {
        TapeEntry { id: self.id, entry_type: self.entry_type.clone(), payload: self.payload.clone() }
    }
}

pub open spec fn entry_views(es: Seq<TapeEntry>) -> Seq<TapeEntryView> {
    es.map_values(|e: TapeEntry| e@)
}

/// The id the next entry gets: one more than the number of entries (held at `usize::MAX`).
pub open spec fn next_id(n: nat) -> nat {
    if n < usize::MAX {
        n + 1
    } else {
        usize::MAX as nat
    }
}

/// `tape` with one more entry.
pub open spec fn appended(tape: Seq<TapeEntryView>, entry_type: Seq<char>, payload: Seq<char>) -> Seq<
    TapeEntryView,
> {
    tape.push(TapeEntryView { id: next_id(tape.len()), entry_type, payload })
}

/// The messages the tape holds, in the order they were written.
pub open spec fn tape_messages(tape: Seq<TapeEntryView>) -> Seq<MessageView>
    decreases tape.len(),
{
    if tape.len() == 0 {
        Seq::<MessageView>::empty()
    } else if tape.last().entry_type == "message"@ {
        tape_messages(tape.drop_last()) + dec_msgs(tape.last().payload)
    } else {
        tape_messages(tape.drop_last())
    }
}

/// The last `w` of `ms` (all of them where there are no more).
pub open spec fn last_n<A>(ms: Seq<A>, w: nat) -> Seq<A> {
    if ms.len() <= w {
        ms
    } else {
        ms.skip(ms.len() - w)
    }
}

/// A field value with `;` written `\s`, `=` written `\e`, and a newline and a carriage
/// return written `\n` and `\r`, so that it stays on one line.
pub open spec fn escape_value(v: Seq<char>) -> Seq<char> {
    replace_all(
        replace_all(
            replace_all(replace_all(v, ";"@, "\\s"@), "="@, "\\e"@),
            "\n"@,
            "\\n"@,
        ),
        "\r"@,
        "\\r"@,
    )
}

/// The `key=value` texts of event fields.
pub open spec fn field_texts(fields: Seq<(Seq<char>, Seq<char>)>) -> Seq<Seq<char>> {
    fields.map_values(|p: (Seq<char>, Seq<char>)| p.0 + "="@ + escape_value(p.1))
}

/// The payload of a plain event: `event=<name>;` then the fields joined by `;`.
pub open spec fn event_payload(event: Seq<char>, fields: Seq<(Seq<char>, Seq<char>)>) -> Seq<char> {
    "event="@ + event + ";"@ + join(field_texts(fields), ";"@)
}

/// A lowercase hexadecimal digit.
pub open spec fn hex_digit(d: nat) -> char {
    if d < 10 {
        (d + 48) as char
    } else {
        (d + 87) as char
    }
}

/// How one character is written inside a JSON string.
pub open spec fn json_escape_char(c: char) -> Seq<char> {
    if c == '"' {
        seq!['\\', '"']
    } else if c == '\\' {
        seq!['\\', '\\']
    } else if c == '\n' {
        seq!['\\', 'n']
    } else if c == '\r' {
        seq!['\\', 'r']
    } else if c == '\t' {
        seq!['\\', 't']
    } else if (c as u32) < 0x20 {
        seq!['\\', 'u', '0', '0', hex_digit((c as u32 / 16) as nat), hex_digit((c as u32 % 16) as nat)]
    } else {
        seq![c]
    }
}

/// `s` escaped for a JSON string.
pub open spec fn json_escape(s: Seq<char>) -> Seq<char>
    decreases s.len(),
{
    if s.len() == 0 {
        Seq::<char>::empty()
    } else {
        json_escape(s.drop_last()) + json_escape_char(s.last())
    }
}

/// `s` as a JSON string.
pub open spec fn json_str(s: Seq<char>) -> Seq<char> {
    "\""@ + json_escape(s) + "\""@
}

/// The `,"key":"value"` members of event fields.
pub open spec fn json_members(fields: Seq<(Seq<char>, Seq<char>)>) -> Seq<char>
    decreases fields.len(),
{
    if fields.len() == 0 {
        Seq::<char>::empty()
    } else {
        json_members(fields.drop_last()) + ","@ + json_str(fields.last().0) + ":"@ + json_str(
            fields.last().1,
        )
    }
}

/// The payload of a structured event: a JSON object whose first member is `event`.
pub open spec fn json_event(event: Seq<char>, fields: Seq<(Seq<char>, Seq<char>)>) -> Seq<char> {
    "{\"event\":"@ + json_str(event) + json_members(fields) + "}"@
}

/// The payload of an anchor: a JSON object with its name and state.
pub open spec fn anchor_payload(name: Seq<char>, state: Seq<char>) -> Seq<char> {
    "{\"name\":"@ + json_str(name) + ",\"state\":"@ + json_str(state) + "}"@
}

/// The entries whose payload contains `query`, in tape order.
pub open spec fn matching(tape: Seq<TapeEntryView>, query: Seq<char>) -> Seq<TapeEntryView>
    decreases tape.len(),
{
    if tape.len() == 0 {
        Seq::<TapeEntryView>::empty()
    } else if has_substring(tape.last().payload, query) {
        matching(tape.drop_last(), query).push(tape.last())
    } else {
        matching(tape.drop_last(), query)
    }
}

/// An entry as a line of the tape file (without its newline).
pub open spec fn line_of(e: TapeEntryView) -> Seq<char> {
    decimal(e.id) + "\t"@ + e.entry_type + "\t"@ + e.payload
}

/// `line` without one trailing carriage return.
pub open spec fn strip_cr(line: Seq<char>) -> Seq<char> {
    if line.len() > 0 && line.last() == '\r' {
        line.drop_last()
    } else {
        line
    }
}

/// The lines of a tape file: its pieces between newlines, each but the last without a
/// trailing carriage return.
pub open spec fn file_lines(text: Seq<char>) -> Seq<Seq<char>> {
    let pieces = split_on(text, '\n');
    Seq::new(
        pieces.len(),
        |k: int|
            if k < pieces.len() - 1 {
                strip_cr(pieces[k])
            } else {
                pieces[k]
            },
    )
}

/// An entry read from a line: the id before the first tab, the type up to the next tab,
/// the rest as payload.
pub open spec fn parse_line(line: Seq<char>) -> Result<TapeEntryView, Seq<char>> {
    let (id_part, after) = match split_once(line, '\t') {
        Some((a, b)) => (a, Some(b)),
        None => (line, None),
    };
    let (entry_type, payload) = match after {
        None => (Seq::<char>::empty(), Seq::<char>::empty()),
        Some(r) => match split_once(r, '\t') {
            Some((b, c)) => (b, c),
            None => (r, Seq::<char>::empty()),
        },
    };
    match parse_usize_result(id_part) {
        Ok(id) => Ok(TapeEntryView { id: id as nat, entry_type, payload }),
        Err(e) => Err(int_error_message(e)),
    }
}

/// The entries of some lines: blank lines are skipped, and the first line that holds no
/// entry makes the whole an error.
pub open spec fn parse_lines(lines: Seq<Seq<char>>) -> Result<Seq<TapeEntryView>, Seq<char>>
    decreases lines.len(),
{
    if lines.len() == 0 {
        Ok(Seq::<TapeEntryView>::empty())
    } else {
        match parse_lines(lines.drop_last()) {
            Err(e) => Err(e),
            Ok(es) => if trim(lines.last()).len() == 0 {
                Ok(es)
            } else {
                match parse_line(lines.last()) {
                    Ok(e) => Ok(es.push(e)),
                    Err(m) => Err(m),
                }
            },
        }
    }
}

/// The entries of a tape file's text.
pub open spec fn parse_tape(text: Seq<char>) -> Result<Seq<TapeEntryView>, Seq<char>> {
    parse_lines(file_lines(text))
}

/// The tape's entries, in the order they were appended.
pub struct TapeStore {
    entries: Vec<TapeEntry>,
}

impl View for TapeStore {
    type V = Seq<TapeEntryView>;

    closed spec fn view(&self) -> Seq<TapeEntryView> {
        entry_views(self.entries@)
    }
}

fn push_json_escaped(out: &mut String, s: &str)
    ensures
        final(out)@ == old(out)@ + json_escape(s@),
{
    let v = chars_of(s);
    let ghost start = out@;
    for i in 0..v.len()
        invariant
            out@ == start + json_escape(v@.take(i as int)),
    {
        let c = v[i];
        assert(v@.take(i + 1).drop_last() =~= v@.take(i as int));
        assert(v@.take(i + 1).last() == c);
        let piece: String = if c == '"' {
            "\\\"".to_owned()
        } else if c == '\\' {
            "\\\\".to_owned()
        } else if c == '\n' {
            "\\n".to_owned()
        } else if c == '\r' {
            "\\r".to_owned()
        } else if c == '\t' {
            "\\t".to_owned()
        } else if (c as u32) < 0x20 {
            let u = c as u32;
            let mut digits: Vec<char> = Vec::new();
            digits.push('\\');
            digits.push('u');
            digits.push('0');
            digits.push('0');
            digits.push(hex_char(u / 16));
            digits.push(hex_char(u % 16));
            let p = string_of(digits.as_slice());
            assert(p@ =~= json_escape_char(c));
            p
        } else {
            let mut one: Vec<char> = Vec::new();
            one.push(c);
            let p = string_of(one.as_slice());
            assert(p@ =~= json_escape_char(c));
            p
        };
        proof {
            reveal_strlit("\\\"");
            reveal_strlit("\\\\");
            reveal_strlit("\\n");
            reveal_strlit("\\r");
            reveal_strlit("\\t");
        }
        assert(piece@ =~= json_escape_char(c));
        out.append(piece.as_str());
        assert(out@ =~= start + json_escape(v@.take(i + 1)));
    }
    assert(v@.take(v@.len() as int) =~= v@);
}

fn hex_char(d: u32) -> (c: char)
    requires
        d < 16,
    ensures
        c == hex_digit(d as nat),
{
    if d < 10 {
        ((d + 48) as u8) as char
    } else {
        ((d + 87) as u8) as char
    }
}

fn push_json_str(out: &mut String, s: &str)
    ensures
        final(out)@ == old(out)@ + json_str(s@),
{
    let ghost start = out@;
    out.append("\"");
    push_json_escaped(out, s);
    out.append("\"");
    assert(out@ =~= start + json_str(s@));
}

/// The text of a structured event.
pub fn json_event_text(event: &str, fields: &[(String, String)]) -> (r: String)
    ensures
        r@ == json_event(event@, pair_views(fields@)),
{
    let mut out = "{\"event\":".to_owned();
    push_json_str(&mut out, event);
    let ghost head = out@;
    let ghost pv = pair_views(fields@);
    for i in 0..fields.len()
        invariant
            pv == pair_views(fields@),
            out@ == head + json_members(pv.take(i as int)),
    {
        assert(pv.take(i + 1).drop_last() =~= pv.take(i as int));
        assert(pv.take(i + 1).last() == pv[i as int]);
        let ghost before = out@;
        out.append(",");
        push_json_str(&mut out, fields[i].0.as_str());
        out.append(":");
        push_json_str(&mut out, fields[i].1.as_str());
        assert(out@ =~= head + json_members(pv.take(i + 1)));
    }
    assert(pv.take(fields@.len() as int) =~= pv);
    out.append("}");
    assert(out@ =~= json_event(event@, pv));
    out
}

/// `v` with `;` written `\s` and `=` written `\e`.
pub fn escape(v: &str) -> (r: String)
    ensures
        r@ == escape_value(v@),
{
    let c = chars_of(v);
    let semi = chars_of(";");
    let semi_rep = chars_of("\\s");
    let eq = chars_of("=");
    let eq_rep = chars_of("\\e");
    let nl = chars_of("\n");
    let nl_rep = chars_of("\\n");
    let cr = chars_of("\r");
    let cr_rep = chars_of("\\r");
    let once = replace_chars(c.as_slice(), semi.as_slice(), semi_rep.as_slice());
    let twice = replace_chars(once.as_slice(), eq.as_slice(), eq_rep.as_slice());
    let thrice = replace_chars(twice.as_slice(), nl.as_slice(), nl_rep.as_slice());
    let done = replace_chars(thrice.as_slice(), cr.as_slice(), cr_rep.as_slice());
    string_of(done.as_slice())
}

/// The text of a plain event.
pub fn event_text(event: &str, fields: &[(String, String)]) -> (r: String)
    ensures
        r@ == event_payload(event@, pair_views(fields@)),
{
    let ghost pv = pair_views(fields@);
    let mut parts: Vec<String> = Vec::new();
    for i in 0..fields.len()
        invariant
            pv == pair_views(fields@),
            string_views(parts@) == field_texts(pv).take(i as int),
    {
        let with_eq = concat_str(fields[i].0.as_str(), "=");
        let part = concat_str(with_eq.as_str(), escape(fields[i].1.as_str()).as_str());
        let ghost prev = parts@;
        parts.push(part);
        assert(string_views(parts@) =~= string_views(prev).push(part@));
        assert(field_texts(pv).take(i + 1) =~= field_texts(pv).take(i as int).push(
            field_texts(pv)[i as int],
        ));
    }
    assert(field_texts(pv).take(fields@.len() as int) =~= field_texts(pv));
    let flat = join_strings(parts.as_slice(), ";");
    let head = concat_str("event=", event);
    let head = concat_str(head.as_str(), ";");
    concat_str(head.as_str(), flat.as_str())
}

/// The line of the tape file for `entry`.
pub fn entry_line(entry: &TapeEntry) -> (r: String)
    ensures
        r@ == line_of(entry@),
{
    let id = usize_to_string(entry.id);
    let a = concat_str(id.as_str(), "\t");
    let b = concat_str(a.as_str(), entry.entry_type.as_str());
    let c = concat_str(b.as_str(), "\t");
    concat_str(c.as_str(), entry.payload.as_str())
}

fn parse_line_exec(line: &[char]) -> (r: Result<TapeEntry, String>)
    ensures
        match parse_line(line@) {
            Ok(e) => r matches Ok(t) && t@ == e,
            Err(m) => r matches Err(x) && x@ == m,
        },
{
    assert(line@.len() == line.len());
    let (id_part, after): (Vec<char>, Option<Vec<char>>) = match find_char(line, '\t') {
        Some(i) => {
            let a = slice_chars(line, 0, i);
            let b = slice_chars(line, i + 1, line.len());
            assert(a@ =~= line@.take(i as int));
            assert(b@ =~= line@.skip(i + 1));
            (a, Some(b))
        },
        None => (slice_chars(line, 0, line.len()), None),
    };
    assert(line@.subrange(0, line@.len() as int) =~= line@);
    let (entry_type, payload): (Vec<char>, Vec<char>) = match after {
        None => (Vec::new(), Vec::new()),
        Some(r) => match find_char(r.as_slice(), '\t') {
            Some(j) => {
                let b = slice_chars(r.as_slice(), 0, j);
                let c = slice_chars(r.as_slice(), j + 1, r.len());
                assert(b@ =~= r@.take(j as int));
                assert(c@ =~= r@.skip(j + 1));
                (b, c)
            },
            None => (r, Vec::new()),
        },
    };
    match parse_usize_chars(id_part.as_slice()) {
        Ok(id) => Ok(
            TapeEntry {
                id,
                entry_type: string_of(entry_type.as_slice()),
                payload: string_of(payload.as_slice()),
            },
        ),
        Err(e) => Err(int_error_text(e)),
    }
}

proof fn lemma_parse_lines_err(lines: Seq<Seq<char>>, j: int)
    requires
        0 <= j <= lines.len(),
        parse_lines(lines.take(j)) is Err,
    ensures
        parse_lines(lines) == parse_lines(lines.take(j)),
    decreases lines.len() - j,
{
    if j == lines.len() {
        assert(lines.take(j) =~= lines);
    } else {
        assert(lines.take(j + 1).drop_last() =~= lines.take(j));
        lemma_parse_lines_err(lines, j + 1);
    }
}

proof fn lemma_tape_messages_push(tape: Seq<TapeEntryView>, e: TapeEntryView)
    ensures
        tape_messages(tape.push(e)) == (if e.entry_type == "message"@ {
            tape_messages(tape) + dec_msgs(e.payload)
        } else {
            tape_messages(tape)
        }),
{
    assert(tape.push(e).drop_last() =~= tape);
}

impl TapeStore {
    /// An empty tape.
    pub fn new() -> (r: Self)
        ensures
            r@ == Seq::<TapeEntryView>::empty(),
    {
        let r = TapeStore { entries: Vec::new() };
        assert(r@ =~= Seq::<TapeEntryView>::empty());
        r
    }

    /// A tape holding `entries`.
    pub fn from_entries(entries: Vec<TapeEntry>) -> (r: Self)
        ensures
            r@ == entry_views(entries@),
    {
        TapeStore { entries }
    }

    /// The tape written in `text`, one entry per non-blank line.
    pub fn load(text: &str) -> (r: Result<Self, String>)
        ensures
            match parse_tape(text@) {
                Ok(es) => r matches Ok(t) && t@ == es,
                Err(m) => r matches Err(x) && x@ == m,
            },
    {
        let v = chars_of(text);
        let pieces = split_chars(v.as_slice(), '\n');
        let ghost pv = pieces@.map_values(|x: Vec<char>| x@);
        let ghost lines = file_lines(text@);
        assert(pv == split_on(text@, '\n'));
        proof {
            crate::text::lemma_split_on_len(text@, '\n');
        }
        let n = pieces.len();
        let mut entries: Vec<TapeEntry> = Vec::new();
        assert(lines.take(0) =~= Seq::<Seq<char>>::empty());
        assert(entry_views(entries@) =~= Seq::<TapeEntryView>::empty());
        for k in 0..n
            invariant
                n == pieces@.len() == lines.len(),
                pv == pieces@.map_values(|x: Vec<char>| x@),
                lines == file_lines(text@),
                pv == split_on(text@, '\n'),
                parse_lines(lines.take(k as int)) == Ok::<Seq<TapeEntryView>, Seq<char>>(
                    entry_views(entries@),
                ),
        {
            let piece = &pieces[k];
            let line: Vec<char> = if k + 1 < n && piece.len() > 0 && piece[piece.len() - 1] == '\r' {
                slice_chars(piece.as_slice(), 0, piece.len() - 1)
            } else {
                slice_chars(piece.as_slice(), 0, piece.len())
            };
            assert(line@ =~= lines[k as int]) by {
                assert(pv[k as int] == piece@);
            }
            assert(lines.take(k + 1).drop_last() =~= lines.take(k as int));
            assert(lines.take(k + 1).last() == lines[k as int]);
            let t = trim_chars(line.as_slice());
            if t.len() > 0 {
                match parse_line_exec(line.as_slice()) {
                    Ok(e) => {
                        let ghost prev = entries@;
                        let ghost ev = e@;
                        entries.push(e);
                        assert(entry_views(entries@) =~= entry_views(prev).push(ev));
                    },
                    Err(m) => {
                        proof {
                            lemma_parse_lines_err(lines, k + 1);
                        }
                        return Err(m);
                    },
                }
            }
        }
        assert(lines.take(n as int) =~= lines);
        Ok(TapeStore { entries })
    }

    /// The number of entries.
    pub fn len(&self) -> (r: usize)
        ensures
            r == self@.len(),
    {
        self.entries.len()
    }

    /// A copy of every entry, in order.
    pub fn entries(&self) -> (r: Vec<TapeEntry>)
        ensures
            entry_views(r@) == self@,
    {
        let mut r: Vec<TapeEntry> = Vec::new();
        for i in 0..self.entries.len()
            invariant
                entry_views(r@) == entry_views(self.entries@).take(i as int),
        {
            let e = self.entries[i].clone();
            let ghost prev = r@;
            r.push(e);
            assert(entry_views(r@) =~= entry_views(prev).push(e@));
            assert(entry_views(self.entries@).take(i + 1) =~= entry_views(self.entries@).take(
                i as int,
            ).push(self.entries@[i as int]@));
        }
        assert(entry_views(self.entries@).take(self.entries@.len() as int) =~= entry_views(
            self.entries@,
        ));
        r
    }

    /// The entry at position `i`.
    pub fn entry(&self, i: usize) -> (r: &TapeEntry)
        requires
            i < self@.len(),
        ensures
            r@ == self@[i as int],
    {
        &self.entries[i]
    }

    fn append(&mut self, entry_type: &str, payload: String)
        ensures
            final(self)@ == appended(old(self)@, entry_type@, payload@),
    {
        let n = self.entries.len();
        let id = if n < usize::MAX {
            n + 1
        } else {
            usize::MAX
        };
        let e = TapeEntry { id, entry_type: entry_type.to_owned(), payload };
        let ghost prev = self.entries@;
        let ghost ev = e@;
        self.entries.push(e);
        assert(self@ =~= entry_views(prev).push(ev));
    }

    /// Appends `message`, written as a `message` entry.
    pub fn append_message(&mut self, message: &Message)
        ensures
            final(self)@ == appended(old(self)@, "message"@, enc_msgs(seq![message@])),
    {
        let mut one: Vec<Message> = Vec::new();
        one.push(message.clone());
        assert(message_views(one@) =~= seq![message@]);
        let payload = serialize_context(one.as_slice());
        self.append("message", payload);
    }

    /// Appends a plain event: `event=<name>;` and the fields as `key=value`, `;`-separated.
    pub fn append_event(&mut self, event: &str, fields: &[(String, String)])
        ensures
            final(self)@ == appended(old(self)@, "event"@, event_payload(event@, pair_views(fields@))),
    {
        let payload = event_text(event, fields);
        self.append("event", payload);
    }

    /// Appends a structured event as a JSON object.
    pub fn append_event_json(&mut self, event: &str, fields: &[(String, String)])
        ensures
            final(self)@ == appended(old(self)@, "event"@, json_event(event@, pair_views(fields@))),
    {
        let payload = json_event_text(event, fields);
        self.append("event", payload);
    }

    /// Appends an anchor entry of type `kind`, naming a checkpoint and its state.
    pub fn append_anchor(&mut self, name: &str, state: &str, kind: &str)
        ensures
            final(self)@ == appended(old(self)@, kind@, anchor_payload(name@, state@)),
    {
        let mut payload = "{\"name\":".to_owned();
        push_json_str(&mut payload, name);
        payload.append(",\"state\":");
        push_json_str(&mut payload, state);
        payload.append("}");
        self.append(kind, payload);
    }

    /// The messages on the tape, at most the last `context_window` of them.
    pub fn build_messages(&self, context_window: usize) -> (r: Vec<Message>)
        ensures
            message_views(r@) == last_n(tape_messages(self@), context_window as nat),
    {
        let mut msgs: Vec<Message> = Vec::new();
        let ghost tape = self@;
        for i in 0..self.entries.len()
            invariant
                tape == self@,
                tape == entry_views(self.entries@),
                message_views(msgs@) == tape_messages(tape.take(i as int)),
        {
            let e = &self.entries[i];
            assert(tape.take(i + 1).drop_last() =~= tape.take(i as int));
            assert(tape.take(i + 1).last() == e@);
            if str_eq(e.entry_type.as_str(), "message") {
                let mut decoded = deserialize_context(e.payload.as_str());
                let ghost prev = message_views(msgs@);
                let ghost dv = message_views(decoded@);
                msgs.append(&mut decoded);
                assert(message_views(msgs@) =~= prev + dv);
            }
        }
        assert(tape.take(self.entries@.len() as int) =~= tape);
        let n = msgs.len();
        if n <= context_window {
            msgs
        } else {
            let mut tail = msgs.split_off(n - context_window);
            let ghost all = message_views(msgs@) + message_views(tail@);
            assert(message_views(tail@) =~= last_n(tape_messages(tape), context_window as nat));
            tail
        }
    }

    /// The entries whose payload contains `query`.
    pub fn search(&self, query: &str) -> (r: Vec<TapeEntry>)
        ensures
            entry_views(r@) == matching(self@, query@),
    {
        let mut r: Vec<TapeEntry> = Vec::new();
        let ghost tape = self@;
        for i in 0..self.entries.len()
            invariant
                tape == entry_views(self.entries@),
                entry_views(r@) == matching(tape.take(i as int), query@),
        {
            assert(tape.take(i + 1).drop_last() =~= tape.take(i as int));
            assert(tape.take(i + 1).last() == self.entries@[i as int]@);
            if str_contains(self.entries[i].payload.as_str(), query) {
                let e = self.entries[i].clone();
                let ghost prev = r@;
                r.push(e);
                assert(entry_views(r@) =~= entry_views(prev).push(e@));
            }
        }
        assert(tape.take(self.entries@.len() as int) =~= tape);
        r
    }
}

/// Appending a message and reading the tape's messages gives back what was there, then
/// exactly that message.
pub proof fn lemma_append_message_read_back(tape: Seq<TapeEntryView>, m: MessageView)
    ensures
        tape_messages(appended(tape, "message"@, enc_msgs(seq![m]))) == tape_messages(tape).push(m),
{
    let e = TapeEntryView { id: next_id(tape.len()), entry_type: "message"@, payload: enc_msgs(seq![m]) };
    lemma_tape_messages_push(tape, e);
    lemma_context_roundtrip(seq![m]);
    assert(tape_messages(tape) + seq![m] =~= tape_messages(tape).push(m));
}

/// Appending anything but a message leaves the tape's messages as they were.
pub proof fn lemma_append_other_keeps_messages(
    tape: Seq<TapeEntryView>,
    entry_type: Seq<char>,
    payload: Seq<char>,
)
    requires
        entry_type != "message"@,
    ensures
        tape_messages(appended(tape, entry_type, payload)) == tape_messages(tape),
{
    let e = TapeEntryView { id: next_id(tape.len()), entry_type, payload };
    lemma_tape_messages_push(tape, e);
}

/// The text of a tape file holding `entries`: one line per entry, each ending in a newline.
pub open spec fn tape_text(entries: Seq<TapeEntryView>) -> Seq<char>
    decreases entries.len(),
{
    if entries.len() == 0 {
        Seq::<char>::empty()
    } else {
        (tape_text(entries.drop_last()) + line_of(entries.last())).push('\n')
    }
}

/// An entry that a line of the tape file holds as it is: its id fits a `usize`, its type
/// has no tab or newline, and its payload has no newline and does not end in a carriage
/// return.
pub open spec fn line_safe(e: TapeEntryView) -> bool {
    &&& e.id <= usize::MAX
    &&& forall|i: int| 0 <= i < e.entry_type.len() ==> #[trigger] e.entry_type[i] != '\t'
        && e.entry_type[i] != '\n'
    &&& forall|i: int| 0 <= i < e.payload.len() ==> #[trigger] e.payload[i] != '\n'
    &&& !(e.payload.len() > 0 && e.payload.last() == '\r')
}

proof fn lemma_line_of(e: TapeEntryView)
    requires
        line_safe(e),
    ensures
        parse_line(line_of(e)) == Ok::<TapeEntryView, Seq<char>>(e),
        trim(line_of(e)).len() > 0,
        strip_cr(line_of(e)) == line_of(e),
        forall|i: int| 0 <= i < line_of(e).len() ==> #[trigger] line_of(e)[i] != '\n',
{
    reveal_strlit("\t");
    let d = decimal(e.id);
    lemma_decimal_digits(e.id);
    let rest = e.entry_type + seq!['\t'] + e.payload;
    let line = line_of(e);
    assert(line =~= d + seq!['\t'] + rest);
    assert forall|j: int| 0 <= j < d.len() implies line[j] != '\t' by {
        assert(line[j] == d[j]);
        assert(is_digit(d[j]));
    }
    lemma_first_index_at(line, '\t', d.len() as int);
    assert(line.take(d.len() as int) =~= d);
    assert(line.skip(d.len() as int + 1) =~= rest);
    lemma_first_index_at(rest, '\t', e.entry_type.len() as int);
    assert(rest.take(e.entry_type.len() as int) =~= e.entry_type);
    assert(rest.skip(e.entry_type.len() as int + 1) =~= e.payload);
    lemma_parse_decimal(e.id);
    assert(is_digit(line[0]));
    lemma_trim_nonempty(line);
    if e.payload.len() > 0 {
        assert(line.last() == e.payload.last());
    } else {
        assert(line.last() == '\t');
    }
    assert forall|i: int| 0 <= i < line.len() implies #[trigger] line[i] != '\n' by {
        if i < d.len() {
            assert(line[i] == d[i]);
            assert(is_digit(d[i]));
        } else if i == d.len() {
        } else if i < d.len() + 1 + e.entry_type.len() {
            assert(line[i] == e.entry_type[i - d.len() - 1]);
        } else if i == d.len() + 1 + e.entry_type.len() {
        } else {
            assert(line[i] == e.payload[i - d.len() - 2 - e.entry_type.len()]);
        }
    }
}

/// The lines of the tape file of `entries`.
pub open spec fn entry_lines(entries: Seq<TapeEntryView>) -> Seq<Seq<char>> {
    entries.map_values(|e: TapeEntryView| line_of(e))
}

proof fn lemma_tape_text_split(entries: Seq<TapeEntryView>)
    requires
        forall|i: int| 0 <= i < entries.len() ==> line_safe(#[trigger] entries[i]),
    ensures
        split_on(tape_text(entries), '\n') == entry_lines(entries).push(Seq::<char>::empty()),
    decreases entries.len(),
{
    if entries.len() == 0 {
        assert(entry_lines(entries).push(Seq::<char>::empty()) =~= seq![Seq::<char>::empty()]);
    } else {
        let prev = entries.drop_last();
        assert forall|i: int| 0 <= i < prev.len() implies line_safe(#[trigger] prev[i]) by {
            assert(prev[i] == entries[i]);
        }
        lemma_tape_text_split(prev);
        let t = tape_text(prev);
        let line = line_of(entries.last());
        lemma_line_of(entries.last());
        lemma_split_on_append(t, line, '\n');
        lemma_split_on_sep(t + line, '\n');
        assert(entry_lines(prev).push(Seq::<char>::empty()).update(
            entry_lines(prev).len() as int,
            Seq::<char>::empty() + line,
        ) =~= entry_lines(entries));
    }
}

proof fn lemma_parse_entry_lines(entries: Seq<TapeEntryView>)
    requires
        forall|i: int| 0 <= i < entries.len() ==> line_safe(#[trigger] entries[i]),
    ensures
        parse_lines(entry_lines(entries)) == Ok::<Seq<TapeEntryView>, Seq<char>>(entries),
    decreases entries.len(),
{
    if entries.len() == 0 {
        assert(entry_lines(entries) =~= Seq::<Seq<char>>::empty());
        assert(entries =~= Seq::<TapeEntryView>::empty());
    } else {
        let prev = entries.drop_last();
        assert forall|i: int| 0 <= i < prev.len() implies line_safe(#[trigger] prev[i]) by {
            assert(prev[i] == entries[i]);
        }
        lemma_parse_entry_lines(prev);
        let lines = entry_lines(entries);
        assert(lines.drop_last() =~= entry_lines(prev));
        assert(lines.last() == line_of(entries.last()));
        lemma_line_of(entries.last());
        assert(parse_lines(lines.drop_last()) == Ok::<Seq<TapeEntryView>, Seq<char>>(prev));
        assert(trim(lines.last()).len() > 0);
        assert(parse_line(lines.last()) == Ok::<TapeEntryView, Seq<char>>(entries.last()));
        assert(prev.push(entries.last()) =~= entries);
        assert(parse_lines(lines) == Ok::<Seq<TapeEntryView>, Seq<char>>(prev.push(entries.last())));
    }
}

/// What the tape writes to its file reads back as written: the text of one line
/// `id<TAB>type<TAB>payload` per entry, each ending in a newline, loads as the same
/// entries, for entries that a line can hold.
pub proof fn lemma_tape_file_roundtrip(entries: Seq<TapeEntryView>)
    requires
        forall|i: int| 0 <= i < entries.len() ==> line_safe(#[trigger] entries[i]),
    ensures
        parse_tape(tape_text(entries)) == Ok::<Seq<TapeEntryView>, Seq<char>>(entries),
{
    lemma_tape_text_split(entries);
    let pieces = entry_lines(entries).push(Seq::<char>::empty());
    let lines = file_lines(tape_text(entries));
    assert forall|k: int| 0 <= k < entries.len() implies strip_cr(#[trigger] pieces[k]) == pieces[k] by {
        lemma_line_of(entries[k]);
    }
    assert(lines =~= pieces);
    assert(lines.drop_last() =~= entry_lines(entries));
    lemma_parse_entry_lines(entries);
}

proof fn lemma_lit_one_line()
    ensures
        no_line_break("\""@),
        no_line_break(","@),
        no_line_break(":"@),
        no_line_break("}"@),
        no_line_break("{\"event\":"@),
        no_line_break("{\"name\":"@),
        no_line_break(",\"state\":"@),
{
    reveal_strlit("\"");
    reveal_strlit(",");
    reveal_strlit(":");
    reveal_strlit("}");
    reveal_strlit("{\"event\":");
    reveal_strlit("{\"name\":");
    reveal_strlit(",\"state\":");
}

proof fn lemma_json_escape_one_line(s: Seq<char>)
    ensures
        no_line_break(json_escape(s)),
    decreases s.len(),
{
    if s.len() > 0 {
        lemma_json_escape_one_line(s.drop_last());
        let c = s.last();
        let e = json_escape_char(c);
        if (c as u32) < 0x20 && c != '"' && c != '\\' && c != '\n' && c != '\r' && c != '\t' {
            let hi = hex_digit((c as u32 / 16) as nat);
            let lo = hex_digit((c as u32 % 16) as nat);
            assert(hi != '\n' && hi != '\r');
            assert(lo != '\n' && lo != '\r');
        }
        assert(no_line_break(e));
        lemma_no_line_break_concat(json_escape(s.drop_last()), e);
    }
}

proof fn lemma_json_str_one_line(s: Seq<char>)
    ensures
        no_line_break(json_str(s)),
{
    lemma_lit_one_line();
    lemma_json_escape_one_line(s);
    lemma_no_line_break_concat("\""@, json_escape(s));
    lemma_no_line_break_concat("\""@ + json_escape(s), "\""@);
}

proof fn lemma_json_members_one_line(fields: Seq<(Seq<char>, Seq<char>)>)
    ensures
        no_line_break(json_members(fields)),
    decreases fields.len(),
{
    if fields.len() > 0 {
        lemma_json_members_one_line(fields.drop_last());
        lemma_lit_one_line();
        let (k, v) = fields.last();
        lemma_json_str_one_line(k);
        lemma_json_str_one_line(v);
        let a = json_members(fields.drop_last());
        lemma_no_line_break_concat(a, ","@);
        lemma_no_line_break_concat(a + ","@, json_str(k));
        lemma_no_line_break_concat(a + ","@ + json_str(k), ":"@);
        lemma_no_line_break_concat(a + ","@ + json_str(k) + ":"@, json_str(v));
    }
}

/// An escaped field value holds no line break.
pub proof fn lemma_escape_value_one_line(v: Seq<char>)
    ensures
        no_line_break(escape_value(v)),
{
    reveal_strlit("\n");
    reveal_strlit("\r");
    reveal_strlit("\\n");
    reveal_strlit("\\r");
    let r2 = replace_all(replace_all(v, ";"@, "\\s"@), "="@, "\\e"@);
    let r3 = replace_all(r2, seq!['\n'], seq!['\\', 'n']);
    let r4 = replace_all(r3, seq!['\r'], seq!['\\', 'r']);
    assert("\n"@ == seq!['\n']);
    assert("\r"@ == seq!['\r']);
    assert("\\n"@ == seq!['\\', 'n']);
    assert("\\r"@ == seq!['\\', 'r']);
    assert(escape_value(v) == r4);
    lemma_replace_char_chars(r2, '\n', seq!['\\', 'n']);
    lemma_replace_char_chars(r3, '\r', seq!['\\', 'r']);
    assert forall|i: int| 0 <= i < r4.len() implies #[trigger] r4[i] != '\n' && r4[i] != '\r' by {
        let x = r4[i];
        if seq!['\\', 'r'].contains(x) {
            let k = choose|k: int| 0 <= k < 2 && seq!['\\', 'r'][k] == x;
        } else {
            assert(r3.contains(x) && x != '\r');
            let j = choose|j: int| 0 <= j < r3.len() && r3[j] == x;
            assert(seq!['\\', 'n'].contains(r3[j]) || (r2.contains(r3[j]) && r3[j] != '\n'));
            if seq!['\\', 'n'].contains(x) {
                let k = choose|k: int| 0 <= k < 2 && seq!['\\', 'n'][k] == x;
            }
        }
    }
}

/// A plain event whose name and field names hold no line break has none in its payload.
pub proof fn lemma_event_payload_one_line(event: Seq<char>, fields: Seq<(Seq<char>, Seq<char>)>)
    requires
        no_line_break(event),
        forall|i: int| 0 <= i < fields.len() ==> no_line_break(#[trigger] fields[i].0),
    ensures
        no_line_break(event_payload(event, fields)),
{
    reveal_strlit("event=");
    reveal_strlit(";");
    reveal_strlit("=");
    assert(no_line_break("event="@));
    assert(no_line_break(";"@));
    assert(no_line_break("="@));
    let texts = field_texts(fields);
    assert forall|i: int| 0 <= i < texts.len() implies no_line_break(#[trigger] texts[i]) by {
        lemma_escape_value_one_line(fields[i].1);
        lemma_no_line_break_concat(fields[i].0, "="@);
        lemma_no_line_break_concat(fields[i].0 + "="@, escape_value(fields[i].1));
    }
    lemma_join_no_line_break(texts, ";"@);
    lemma_no_line_break_concat("event="@, event);
    lemma_no_line_break_concat("event="@ + event, ";"@);
    lemma_no_line_break_concat("event="@ + event + ";"@, join(texts, ";"@));
}

/// A message, a structured event, an anchor (of a kind without tabs or line breaks) or a
/// plain event (whose name and field names hold no line break), once appended, makes an
/// entry that one line of the tape file holds as it is, so it reads back from the file as
/// it was written.
pub proof fn lemma_recorded_entries_line_safe(
    tape: Seq<TapeEntryView>,
    message: MessageView,
    event: Seq<char>,
    fields: Seq<(Seq<char>, Seq<char>)>,
    kind: Seq<char>,
    name: Seq<char>,
    state: Seq<char>,
)
    requires
        no_line_break(kind),
        forall|i: int| 0 <= i < kind.len() ==> #[trigger] kind[i] != '\t',
    ensures
        line_safe(appended(tape, "message"@, enc_msgs(seq![message])).last()),
        line_safe(appended(tape, "event"@, json_event(event, fields)).last()),
        line_safe(appended(tape, kind, anchor_payload(name, state)).last()),
        no_line_break(event) && (forall|i: int|
            0 <= i < fields.len() ==> no_line_break(#[trigger] fields[i].0)) ==> line_safe(
            appended(tape, "event"@, event_payload(event, fields)).last(),
        ),
{
    if no_line_break(event) && (forall|i: int|
        0 <= i < fields.len() ==> no_line_break(#[trigger] fields[i].0)) {
        lemma_event_payload_one_line(event, fields);
    }
    reveal_strlit("message");
    reveal_strlit("event");
    lemma_lit_one_line();
    lemma_enc_msgs_one_line(seq![message]);
    lemma_json_str_one_line(event);
    lemma_json_members_one_line(fields);
    let ev = json_event(event, fields);
    lemma_no_line_break_concat("{\"event\":"@, json_str(event));
    lemma_no_line_break_concat("{\"event\":"@ + json_str(event), json_members(fields));
    lemma_no_line_break_concat("{\"event\":"@ + json_str(event) + json_members(fields), "}"@);
    lemma_json_str_one_line(name);
    lemma_json_str_one_line(state);
    lemma_no_line_break_concat("{\"name\":"@, json_str(name));
    lemma_no_line_break_concat("{\"name\":"@ + json_str(name), ",\"state\":"@);
    lemma_no_line_break_concat("{\"name\":"@ + json_str(name) + ",\"state\":"@, json_str(state));
    lemma_no_line_break_concat(
        "{\"name\":"@ + json_str(name) + ",\"state\":"@ + json_str(state),
        "}"@,
    );
}

/// Entry ids count the entries from one.
pub open spec fn ids_in_order(tape: Seq<TapeEntryView>) -> bool {
    forall|i: int| 0 <= i < tape.len() ==> #[trigger] tape[i].id == i + 1
}

/// Appending keeps the ids counting the entries from one, while the count fits a `usize`.
pub proof fn lemma_append_keeps_ids(tape: Seq<TapeEntryView>, entry_type: Seq<char>, payload: Seq<char>)
    requires
        ids_in_order(tape),
        tape.len() < usize::MAX,
    ensures
        ids_in_order(appended(tape, entry_type, payload)),
{
    let after = appended(tape, entry_type, payload);
    assert forall|i: int| 0 <= i < after.len() implies #[trigger] after[i].id == i + 1 by {
        if i < tape.len() {
            assert(after[i] == tape[i]);
        }
    }
}

/// The start of the payload of every `turn_stop` event.
pub open spec fn stop_prefix() -> Seq<char> {
    "{\"event\":\"turn_stop\""@
}

/// Whether an entry is a `turn_stop` event.
pub open spec fn is_stop_entry(e: TapeEntryView) -> bool {
    e.entry_type == "event"@ && stop_prefix().is_prefix_of(e.payload)
}

/// No entry of `tape` from position `from` up to `to` is a `turn_stop` event.
pub open spec fn no_stop_between(tape: Seq<TapeEntryView>, from: int, to: int) -> bool {
    forall|j: int| from <= j < to ==> !#[trigger] is_stop_entry(tape[j])
}

/// A character that JSON writes as it is.
pub open spec fn json_plain(c: char) -> bool {
    c != '"' && c != '\\' && (c as u32) >= 0x20
}

proof fn lemma_json_escape_plain(s: Seq<char>)
    requires
        forall|i: int| 0 <= i < s.len() ==> json_plain(#[trigger] s[i]),
    ensures
        json_escape(s) == s,
    decreases s.len(),
{
    if s.len() > 0 {
        let d = s.drop_last();
        assert forall|i: int| 0 <= i < d.len() implies json_plain(#[trigger] d[i]) by {
            assert(d[i] == s[i]);
        }
        lemma_json_escape_plain(d);
        assert(json_plain(s.last()));
        assert(d.push(s.last()) =~= s);
    }
}

/// The structured event `turn_stop` is a `turn_stop` entry.
pub proof fn lemma_stop_event(fields: Seq<(Seq<char>, Seq<char>)>)
    ensures
        stop_prefix().is_prefix_of(json_event("turn_stop"@, fields)),
{
    reveal_strlit("turn_stop");
    reveal_strlit("{\"event\":\"turn_stop\"");
    reveal_strlit("{\"event\":");
    reveal_strlit("\"");
    let name = "turn_stop"@;
    assert forall|i: int| 0 <= i < name.len() implies json_plain(#[trigger] name[i]) by {}
    lemma_json_escape_plain(name);
    let p = json_event(name, fields);
    assert(p =~= "{\"event\":"@ + ("\""@ + name + "\""@) + json_members(fields) + "}"@);
    assert(stop_prefix() =~= p.take(20));
}

/// A structured event whose plain name differs from `turn_stop` in its first nine
/// characters is no `turn_stop` entry.
pub proof fn lemma_other_event(name: Seq<char>, fields: Seq<(Seq<char>, Seq<char>)>, k: int)
    requires
        forall|i: int| 0 <= i < name.len() ==> json_plain(#[trigger] name[i]),
        0 <= k < 9,
        k < name.len(),
        name[k] != "turn_stop"@[k],
    ensures
        !stop_prefix().is_prefix_of(json_event(name, fields)),
{
    reveal_strlit("turn_stop");
    reveal_strlit("{\"event\":\"turn_stop\"");
    reveal_strlit("{\"event\":");
    reveal_strlit("\"");
    lemma_json_escape_plain(name);
    let p = json_event(name, fields);
    assert(p =~= "{\"event\":"@ + ("\""@ + name + "\""@) + json_members(fields) + "}"@);
    assert(p[10 + k] == name[k]);
    assert(stop_prefix()[10 + k] == "turn_stop"@[k]);
}

/// Appending entries that are no `turn_stop` events adds no `turn_stop` entry.
pub proof fn lemma_appended_no_stop(tape: Seq<TapeEntryView>, entry_type: Seq<char>, payload: Seq<char>)
    requires
        entry_type != "event"@ || !stop_prefix().is_prefix_of(payload),
    ensures
        !is_stop_entry(appended(tape, entry_type, payload).last()),
{
}

}

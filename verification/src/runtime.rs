//! Runtime profiles: which tools the agent gets and whether the shell route is open.
use vstd::prelude::*;

use crate::text::{
    chars_of, concat_str, join, lowercase, split_chars, split_on, str_eq, string_of, string_views,
    to_lowercase, trim, trim_chars, trim_str,
};
use crate::tools::{create_profile_tools, profile_tools_spec, registry_of, ToolRegistry};

verus! {

pub enum RuntimeProfile {
    Yolo,
    Readonly,
    Custom(Vec<String>),
}

pub enum RuntimeProfileView {
    Yolo,
    Readonly,
    Custom(Seq<Seq<char>>),
}

impl View for RuntimeProfile {
    type V = RuntimeProfileView;

    open spec fn view(&self) -> RuntimeProfileView {
        match self {
            RuntimeProfile::Yolo => RuntimeProfileView::Yolo,
            RuntimeProfile::Readonly => RuntimeProfileView::Readonly,
            RuntimeProfile::Custom(tools) => RuntimeProfileView::Custom(string_views(tools@)),
        }
    }
}

/// The non-empty trimmed pieces of `s` between commas, in order.
pub open spec fn tool_list(pieces: Seq<Seq<char>>) -> Seq<Seq<char>>
    decreases pieces.len(),
{
    if pieces.len() == 0 {
        Seq::<Seq<char>>::empty()
    } else if trim(pieces.last()).len() == 0 {
        tool_list(pieces.drop_last())
    } else {
        tool_list(pieces.drop_last()).push(trim(pieces.last()))
    }
}

/// What `parse` gives once the name is trimmed and lowercased: `yolo`, `readonly`, or
/// `custom` with the comma-separated tool list (which must name at least one tool);
/// any other name is an error.
pub open spec fn parse_profile_spec(lowered: Seq<char>, custom_tools: Option<Seq<char>>) -> Result<
    RuntimeProfileView,
    Seq<char>,
> {
    if lowered == "yolo"@ {
        Ok(RuntimeProfileView::Yolo)
    } else if lowered == "readonly"@ {
        Ok(RuntimeProfileView::Readonly)
    } else if lowered == "custom"@ {
        let raw = match custom_tools {
            Some(t) => t,
            None => Seq::<char>::empty(),
        };
        let tools = tool_list(split_on(raw, ','));
        if tools.len() == 0 {
            Err("--profile custom requires --tools <comma-separated tool names>"@)
        } else {
            Ok(RuntimeProfileView::Custom(tools))
        }
    } else {
        Err("unknown profile '"@ + lowered + "'. Expected one of: yolo, readonly, custom"@)
    }
}

/// The name of a profile.
pub open spec fn profile_name(p: RuntimeProfileView) -> Seq<char> {
    match p {
        RuntimeProfileView::Yolo => "yolo"@,
        RuntimeProfileView::Readonly => "readonly"@,
        RuntimeProfileView::Custom(_) => "custom"@,
    }
}

pub open spec fn piece_views(v: Seq<Vec<char>>) -> Seq<Seq<char>> {
    v.map_values(|x: Vec<char>| x@)
}

impl RuntimeProfile {
    /// The profile named `name` (trimmed, lowercased), with the tool list of `custom`.
    pub fn parse(name: &str, custom_tools: Option<&str>) -> (r: Result<Self, String>)
        ensures
            match parse_profile_spec(
                lowercase(trim(name@)),
                match custom_tools {
                    Some(t) => Some(t@),
                    None => None,
                },
            ) {
                Ok(p) => r matches Ok(q) && q@ == p,
                Err(m) => r matches Err(e) && e@ == m,
            },
    {
        let trimmed = trim_str(name);
        let lowered = to_lowercase(trimmed.as_str());
        Self::parse_lowered(lowered.as_str(), custom_tools)
    }

    /// The profile for an already trimmed and lowercased name.
    pub fn parse_lowered(lowered: &str, custom_tools: Option<&str>) -> (r: Result<Self, String>)
        ensures
            match parse_profile_spec(
                lowered@,
                match custom_tools {
                    Some(t) => Some(t@),
                    None => None,
                },
            ) {
                Ok(p) => r matches Ok(q) && q@ == p,
                Err(m) => r matches Err(e) && e@ == m,
            },
    {
        if str_eq(lowered, "yolo") {
            return Ok(RuntimeProfile::Yolo);
        }
        if str_eq(lowered, "readonly") {
            return Ok(RuntimeProfile::Readonly);
        }
        if str_eq(lowered, "custom") {
            let raw: Vec<char> = match custom_tools {
                Some(t) => chars_of(t),
                None => Vec::new(),
            };
            let pieces = split_chars(raw.as_slice(), ',');
            let ghost pv = piece_views(pieces@);
            assert(pv == split_on(raw@, ','));
            let mut tools: Vec<String> = Vec::new();
            for i in 0..pieces.len()
                invariant
                    pv == piece_views(pieces@),
                    string_views(tools@) == tool_list(pv.take(i as int)),
            {
                assert(pv.take(i + 1).drop_last() =~= pv.take(i as int));
                assert(pv.take(i + 1).last() == pieces@[i as int]@);
                let t = trim_chars(pieces[i].as_slice());
                if t.len() > 0 {
                    let s = string_of(t.as_slice());
                    let ghost prev = tools@;
                    tools.push(s);
                    assert(string_views(tools@) =~= string_views(prev).push(s@));
                }
            }
            assert(pv.take(pieces@.len() as int) =~= pv);
            if tools.len() == 0 {
                return Err(
                    "--profile custom requires --tools <comma-separated tool names>".to_owned(),
                );
            }
            return Ok(RuntimeProfile::Custom(tools));
        }
        let head = concat_str("unknown profile '", lowered);
        Err(concat_str(head.as_str(), "'. Expected one of: yolo, readonly, custom"))
    }

    /// The profile's name.
    pub fn name(&self) -> (r: &'static str)
        ensures
            r@ == profile_name(self@),
    {
        match self {
            RuntimeProfile::Yolo => "yolo",
            RuntimeProfile::Readonly => "readonly",
            RuntimeProfile::Custom(_) => "custom",
        }
    }

    /// Every profile but readonly may run shell commands.
    pub fn shell_route_allowed(&self) -> (r: bool)
        ensures
            r == !(self@ is Readonly),
    {
        match self {
            RuntimeProfile::Readonly => false,
            _ => true,
        }
    }

    /// The registry of this profile's tools.
    pub fn tool_registry(&self) -> (r: Result<ToolRegistry, String>)
        ensures
            match profile_tools_spec(self@) {
                Ok(specs) => r matches Ok(reg) && reg@ == registry_of(specs),
                Err(m) => r matches Err(e) && e@ == m,
            },
    {
        match create_profile_tools(self) {
            Ok(tools) => Ok(ToolRegistry::new(tools)),
            Err(e) => Err(e),
        }
    }
}

/// Splitting the pieces joined with `c` gives them back, where none holds `c`.
proof fn lemma_split_join(parts: Seq<Seq<char>>, c: char)
    requires
        parts.len() > 0,
        forall|i: int, k: int| 0 <= i < parts.len() && 0 <= k < parts[i].len() ==> #[trigger] parts[i][k] != c,
    ensures
        split_on(join(parts, seq![c]), c) == parts,
    decreases parts.len(),
{
    let e = Seq::<char>::empty();
    if parts.len() == 1 {
        crate::text::lemma_split_on_append(e, parts[0], c);
        assert(e + parts[0] =~= parts[0]);
        assert(split_on(e, c).update(0, e + parts[0]) =~= parts);
    } else {
        let d = parts.drop_last();
        let l = parts.last();
        lemma_split_join(d, c);
        let j = join(d, seq![c]);
        assert(forall|k: int| 0 <= k < l.len() ==> l[k] != c) by {
            assert forall|k: int| 0 <= k < l.len() implies l[k] != c by {
                assert(parts[parts.len() - 1][k] != c);
            }
        }
        crate::text::lemma_split_on_sep(j, c);
        crate::text::lemma_split_on_append(j.push(c), l, c);
        assert(join(parts, seq![c]) =~= j.push(c) + l);
        assert(split_on(j, c).push(e).update(d.len() as int, e + l) =~= parts);
    }
}

/// The tool list of pieces that are non-empty and trimmed is the pieces themselves.
proof fn lemma_tool_list_plain(pieces: Seq<Seq<char>>)
    requires
        forall|i: int| 0 <= i < pieces.len() ==> #[trigger] trim(pieces[i]) == pieces[i] && pieces[i].len() > 0,
    ensures
        tool_list(pieces) == pieces,
    decreases pieces.len(),
{
    if pieces.len() > 0 {
        let d = pieces.drop_last();
        assert forall|i: int| 0 <= i < d.len() implies #[trigger] trim(d[i]) == d[i] && d[i].len() > 0 by {
            assert(d[i] == pieces[i]);
        }
        lemma_tool_list_plain(d);
        assert(trim(pieces[pieces.len() - 1]) == pieces.last());
        assert(d.push(pieces.last()) =~= pieces);
    }
}

/// The tools argument a profile is given on the command line: a custom profile's tool
/// list joined with commas.
pub open spec fn tools_argument(p: RuntimeProfileView) -> Option<Seq<char>> {
    match p {
        RuntimeProfileView::Custom(list) => Some(join(list, ","@)),
        _ => None,
    }
}

/// A profile's name, with its tool list, reads back as that profile, where the tools of a
/// custom profile are non-empty trimmed names without commas.
pub proof fn lemma_name_parses_back(p: RuntimeProfileView)
    requires
        p matches RuntimeProfileView::Custom(list) ==> list.len() > 0 && forall|i: int|
            0 <= i < list.len() ==> trim(#[trigger] list[i]) == list[i] && list[i].len() > 0 && !list[i].contains(
                ',',
            ),
    ensures
        parse_profile_spec(profile_name(p), tools_argument(p)) == Ok::<RuntimeProfileView, Seq<char>>(p),
{
    reveal_strlit(",");
    if let RuntimeProfileView::Custom(list) = p {
        assert(","@ =~= seq![',']);
        assert forall|i: int, k: int| 0 <= i < list.len() && 0 <= k < list[i].len() implies #[trigger] list[i][k]
            != ',' by {
            if list[i][k] == ',' {
                assert(list[i].contains(','));
            }
        }
        lemma_split_join(list, ',');
        lemma_tool_list_plain(list);
    }
    reveal_strlit("yolo");
    reveal_strlit("readonly");
    reveal_strlit("custom");
    assert("readonly"@ != "yolo"@) by {
        assert("readonly"@.len() != "yolo"@.len());
    }
    assert("custom"@ != "yolo"@) by {
        assert("custom"@[0] != "yolo"@[0]);
    }
    assert("custom"@ != "readonly"@) by {
        assert("custom"@.len() != "readonly"@.len());
    }
}

}

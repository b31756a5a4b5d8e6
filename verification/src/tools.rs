//! The built-in tools' specs, the registry, argument validation, and the pure parts of
//! what each tool computes around its file or process access.
use vstd::prelude::*;
use vstd::string::StringSliceAdditionalSpecFns;

use crate::llm::{
    pair_views, spec_views, text_item, ContentItem, Message, MessageView, ToolArgSpec,
    ToolArgSpecView, ToolSpec, ToolSpecView,
};
use crate::runtime::RuntimeProfile;
use crate::text::{
    chars_of, concat_str, contains_chars, decimal, first_some, has_substring, join, join_strings,
    lemma_first_some_extend, lemma_first_some_found, lemma_first_some_none, lemma_first_some_step, replace_all, replace_chars, str_eq,
    string_of, string_views, trim, trim_str, usize_to_string,
};

verus! {

/// What a tool call produced: the text for the model and details for the user.
pub struct AgentToolResult {
    pub llm_output: String,
    pub ui_details: Vec<(String, String)>,
}

pub struct AgentToolResultView {
    pub llm_output: Seq<char>,
    pub ui_details: Seq<(Seq<char>, Seq<char>)>,
}

impl View for AgentToolResult {
    type V = AgentToolResultView;

    open spec fn view(&self) -> AgentToolResultView {
        AgentToolResultView { llm_output: self.llm_output@, ui_details: pair_views(self.ui_details@) }
    }
}

/// A tool the agent can offer: its spec. What running it does is decided by its name
/// (see `create_profile_tools`); the file and process access happens outside the library.
pub struct AgentTool {
    pub spec: ToolSpec,
}

/// The position of the tool named `name` in `reg`, if any.
pub open spec fn name_index(reg: Seq<ToolSpecView>, name: Seq<char>) -> Option<int> {
    if exists|i: int| 0 <= i < reg.len() && #[trigger] reg[i].name == name {
        Some(choose|i: int| 0 <= i < reg.len() && #[trigger] reg[i].name == name)
    } else {
        None
    }
}

/// Whether no two tools of `reg` share a name.
pub open spec fn distinct_names(reg: Seq<ToolSpecView>) -> bool {
    forall|i: int, j: int|
        0 <= i < reg.len() && 0 <= j < reg.len() && i != j ==> #[trigger] reg[i].name
            != #[trigger] reg[j].name
}

/// `reg` with `t` added: it takes the place of a tool of the same name, or comes last.
pub open spec fn registry_insert(reg: Seq<ToolSpecView>, t: ToolSpecView) -> Seq<ToolSpecView> {
    match name_index(reg, t.name) {
        Some(i) => reg.update(i, t),
        None => reg.push(t),
    }
}

/// The registry built from `specs` in order: a later tool replaces an earlier one of the
/// same name.
pub open spec fn registry_of(specs: Seq<ToolSpecView>) -> Seq<ToolSpecView>
    decreases specs.len(),
{
    if specs.len() == 0 {
        Seq::<ToolSpecView>::empty()
    } else {
        registry_insert(registry_of(specs.drop_last()), specs.last())
    }
}

pub open spec fn tool_views(tools: Seq<AgentTool>) -> Seq<ToolSpecView> {
    tools.map_values(|t: AgentTool| t.spec@)
}

/// The tools of a runtime profile, each registered under its name.
pub struct ToolRegistry {
    tools: Vec<AgentTool>,
}

impl View for ToolRegistry {
    type V = Seq<ToolSpecView>;

    closed spec fn view(&self) -> Seq<ToolSpecView> {
        tool_views(self.tools@)
    }
}

proof fn lemma_insert_distinct(reg: Seq<ToolSpecView>, t: ToolSpecView)
    requires
        distinct_names(reg),
    ensures
        distinct_names(registry_insert(reg, t)),
{
    let r = registry_insert(reg, t);
    match name_index(reg, t.name) {
        Some(i) => {
            assert forall|a: int, b: int|
                0 <= a < r.len() && 0 <= b < r.len() && a != b implies #[trigger] r[a].name
                != #[trigger] r[b].name by {
                if a != i && b != i {
                    assert(r[a] == reg[a] && r[b] == reg[b]);
                } else if a == i {
                    assert(reg[i].name == t.name);
                    assert(r[b] == reg[b]);
                } else {
                    assert(reg[i].name == t.name);
                    assert(r[a] == reg[a]);
                }
            }
        },
        None => {
            assert forall|a: int, b: int|
                0 <= a < r.len() && 0 <= b < r.len() && a != b implies #[trigger] r[a].name
                != #[trigger] r[b].name by {
                if a < reg.len() && b < reg.len() {
                    assert(r[a] == reg[a] && r[b] == reg[b]);
                } else if a == reg.len() {
                    assert(r[b] == reg[b]);
                    assert(!(reg[b].name == t.name));
                } else {
                    assert(r[a] == reg[a]);
                    assert(!(reg[a].name == t.name));
                }
            }
        },
    }
}

/// A registry built by `registry_of` never holds two tools of one name.
pub proof fn lemma_registry_distinct(specs: Seq<ToolSpecView>)
    ensures
        distinct_names(registry_of(specs)),
    decreases specs.len(),
{
    if specs.len() > 0 {
        lemma_registry_distinct(specs.drop_last());
        lemma_insert_distinct(registry_of(specs.drop_last()), specs.last());
    }
}

/// Where `reg` has distinct names and a tool named `name` at `p`, that is where
/// `name_index` finds it.
proof fn lemma_name_index_at(reg: Seq<ToolSpecView>, name: Seq<char>, p: int)
    requires
        distinct_names(reg),
        0 <= p < reg.len(),
        reg[p].name == name,
    ensures
        name_index(reg, name) == Some(p),
{
    let q = choose|i: int| 0 <= i < reg.len() && #[trigger] reg[i].name == name;
    assert(reg[q].name == name);
    if q != p {
        assert(reg[q].name != reg[p].name);
    }
}

/// Looking a name up in a registry built from `specs` finds the last tool of `specs` with
/// that name, and finds nothing for a name that no tool of `specs` has.
pub proof fn lemma_registry_lookup(specs: Seq<ToolSpecView>, name: Seq<char>)
    ensures
        match name_index(registry_of(specs), name) {
            Some(i) => 0 <= i < registry_of(specs).len() && exists|j: int|
                0 <= j < specs.len() && #[trigger] specs[j] == registry_of(specs)[i] && specs[j].name
                    == name && forall|k: int| j < k < specs.len() ==> #[trigger] specs[k].name != name,
            None => forall|j: int| 0 <= j < specs.len() ==> #[trigger] specs[j].name != name,
        },
    decreases specs.len(),
{
    if specs.len() > 0 {
        let prev = specs.drop_last();
        let t = specs.last();
        let r0 = registry_of(prev);
        let r1 = registry_of(specs);
        lemma_registry_lookup(prev, name);
        lemma_registry_distinct(prev);
        lemma_registry_distinct(specs);
        assert(r1 == registry_insert(r0, t));
        let pos: int = match name_index(r0, t.name) {
            Some(i) => i,
            None => r0.len() as int,
        };
        assert(0 <= pos < r1.len() && r1[pos] == t) by {
            if let Some(i) = name_index(r0, t.name) {
                assert(0 <= i < r0.len());
            }
        }
        if t.name == name {
            lemma_name_index_at(r1, name, pos);
            assert(specs[specs.len() - 1] == r1[pos]);
        } else {
            match name_index(r0, name) {
                Some(i) => {
                    let j = choose|j: int|
                        0 <= j < prev.len() && #[trigger] prev[j] == r0[i] && prev[j].name == name
                            && forall|k: int| j < k < prev.len() ==> #[trigger] prev[k].name != name;
                    assert(r0[i].name == name);
                    assert(i != pos) by {
                        if let Some(p0) = name_index(r0, t.name) {
                            assert(r0[p0].name == t.name);
                        }
                    }
                    assert(r1[i] == r0[i]);
                    lemma_name_index_at(r1, name, i);
                    assert(specs[j] == prev[j]);
                    assert forall|k: int| j < k < specs.len() implies #[trigger] specs[k].name != name by {
                        if k < prev.len() {
                            assert(specs[k] == prev[k]);
                        }
                    }
                },
                None => {
                    assert forall|j: int| 0 <= j < specs.len() implies #[trigger] specs[j].name
                        != name by {
                        if j < prev.len() {
                            assert(specs[j] == prev[j]);
                        }
                    }
                    if name_index(r1, name) is Some {
                        let q = choose|q: int| 0 <= q < r1.len() && #[trigger] r1[q].name == name;
                        assert(r1[q].name == name);
                        if q != pos {
                            assert(q < r0.len());
                            assert(r1[q] == r0[q]);
                            assert(r0[q].name == name);
                        }
                    }
                },
            }
        }
    }
}

impl ToolRegistry {
    #[verifier::type_invariant]
    spec fn names_distinct(&self) -> bool {
        distinct_names(tool_views(self.tools@))
    }

    /// The position of the tool named `name`, if any.
    fn position(&self, name: &str) -> (r: Option<usize>)
        ensures
            r matches Some(i) ==> i < self@.len() && name_index(self@, name@) == Some(i as int),
            r is None ==> name_index(self@, name@) is None,
    {
        proof {
            use_type_invariant(self);
        }
        let ghost reg = tool_views(self.tools@);
        for i in 0..self.tools.len()
            invariant
                reg == tool_views(self.tools@),
                distinct_names(reg),
                forall|k: int| 0 <= k < i ==> reg[k].name != name@,
        {
            if str_eq(self.tools[i].spec.name.as_str(), name) {
                assert(reg[i as int].name == name@);
                let ghost j = choose|j: int| 0 <= j < reg.len() && #[trigger] reg[j].name == name@;
                assert(j == i);
                return Some(i);
            }
        }
        None
    }

    /// A registry of `tools`, keyed by name: a later tool replaces an earlier one of the
    /// same name.
    pub fn new(tools: Vec<AgentTool>) -> (r: Self)
        ensures
            r@ == registry_of(tool_views(tools@)),
    {
        let mut reg = ToolRegistry { tools: Vec::new() };
        let ghost all = tool_views(tools@);
        let mut tools = tools;
        let mut rest: Vec<AgentTool> = Vec::new();
        // Take the tools out in order, last first, then re-insert them first to last.
        while tools.len() > 0
            invariant
                tool_views(tools@) + tool_views(rest@).reverse() == all,
            decreases tools@.len(),
        {
            let ghost before_t = tools@;
            let ghost before_r = rest@;
            let t = tools.pop().unwrap();
            rest.push(t);
            assert(tool_views(tools@) =~= tool_views(before_t).drop_last());
            assert(tool_views(rest@) =~= tool_views(before_r).push(t.spec@));
            assert(tool_views(rest@).reverse() =~= seq![t.spec@] + tool_views(before_r).reverse());
            assert(tool_views(tools@) + tool_views(rest@).reverse() =~= tool_views(before_t)
                + tool_views(before_r).reverse());
        }
        assert(tool_views(rest@).reverse() =~= all);
        let n = rest.len();
        let mut k: usize = 0;
        while rest.len() > 0
            invariant
                k + rest@.len() == n == all.len(),
                tool_views(rest@).reverse() == all.skip(k as int),
                reg@ == registry_of(all.take(k as int)),
            decreases rest@.len(),
        {
            let ghost before_r = rest@;
            let t = rest.pop().unwrap();
            assert(tool_views(rest@) =~= tool_views(before_r).drop_last());
            assert(all[k as int] == t.spec@) by {
                assert(tool_views(before_r).reverse()[0] == all.skip(k as int)[0]);
            }
            assert(tool_views(rest@).reverse() =~= all.skip(k + 1)) by {
                assert forall|m: int| 0 <= m < tool_views(rest@).reverse().len() implies
                    tool_views(rest@).reverse()[m] == all.skip(k + 1)[m] by {
                    assert(tool_views(before_r).reverse()[m + 1] == all.skip(k as int)[m + 1]);
                }
            }
            assert(all.take(k + 1).drop_last() =~= all.take(k as int));
            reg.insert(t);
            k += 1;
        }
        assert(all.take(n as int) =~= all);
        reg
    }

    /// Adds `t`, replacing a tool of the same name.
    fn insert(&mut self, t: AgentTool)
        ensures
            final(self)@ == registry_insert(old(self)@, t.spec@),
    {
        proof {
            use_type_invariant(&*self);
            lemma_insert_distinct(self@, t.spec@);
        }
        let ghost spec = t.spec@;
        match self.position(t.spec.name.as_str()) {
            Some(i) => {
                let mut tools: Vec<AgentTool> = Vec::new();
                std::mem::swap(&mut tools, &mut self.tools);
                let ghost before = tools@;
                tools.set(i, t);
                assert(tool_views(tools@) =~= tool_views(before).update(i as int, spec));
                self.tools = tools;
            },
            None => {
                let mut tools: Vec<AgentTool> = Vec::new();
                std::mem::swap(&mut tools, &mut self.tools);
                let ghost before = tools@;
                tools.push(t);
                assert(tool_views(tools@) =~= tool_views(before).push(spec));
                self.tools = tools;
            },
        }
    }

    /// The specs of all registered tools.
    pub fn specs(&self) -> (r: Vec<ToolSpec>)
        ensures
            spec_views(r@) == self@,
    {
        let mut r: Vec<ToolSpec> = Vec::new();
        for i in 0..self.tools.len()
            invariant
                spec_views(r@) == tool_views(self.tools@).take(i as int),
        {
            let a = self.tools[i].spec.clone();
            let ghost prev = r@;
            r.push(a);
            assert(spec_views(r@) =~= spec_views(prev).push(a@));
            assert(tool_views(self.tools@).take(i + 1) =~= tool_views(self.tools@).take(
                i as int,
            ).push(self.tools@[i as int].spec@));
        }
        assert(tool_views(self.tools@).take(self.tools@.len() as int) =~= tool_views(
            self.tools@,
        ));
        r
    }

    /// The tool to run for a call of `name` with `args`: it must be registered and the
    /// arguments must pass its spec; running it is the caller's part.
    pub fn execute(&self, name: &str, args: &[(String, String)]) -> (r: Result<&AgentTool, String>)
        ensures
            match name_index(self@, name@) {
                None => r matches Err(e) && e@ == "Unknown tool: "@ + name@,
                Some(i) => match validate_args_spec(self@[i], pair_views(args@)) {
                    Ok(()) => r matches Ok(t) && t.spec@ == self@[i],
                    Err(msg) => r matches Err(e) && e@ == msg,
                },
            },
    {
        match self.position(name) {
            None => Err(concat_str("Unknown tool: ", name)),
            Some(i) => {
                let tool = &self.tools[i];
                match validate_args(&tool.spec, args) {
                    Ok(()) => Ok(tool),
                    Err(e) => Err(e),
                }
            },
        }
    }
}

/// The value of the first pair whose key is `name`.
pub open spec fn value_of_key(name: Seq<char>) -> spec_fn((Seq<char>, Seq<char>)) -> Option<
    Seq<char>,
> {
    |p: (Seq<char>, Seq<char>)|
        if p.0 == name {
            Some(p.1)
        } else {
            None
        }
}

/// What `arg_required` gives: the value of the first argument named `name`, or the error
/// that names it.
pub open spec fn arg_required_spec(args: Seq<(Seq<char>, Seq<char>)>, name: Seq<char>) -> Result<
    Seq<char>,
    Seq<char>,
> {
    match first_some(args, value_of_key(name)) {
        Some(v) => Ok(v),
        None => Err("Missing required argument: "@ + name),
    }
}

/// The value of the first argument named `name`.
pub fn arg_required(args: &[(String, String)], name: &str) -> (r: Result<String, String>)
    ensures
        match arg_required_spec(pair_views(args@), name@) {
            Ok(v) => r matches Ok(s) && s@ == v,
            Err(m) => r matches Err(e) && e@ == m,
        },
{
    let ghost pv = pair_views(args@);
    let ghost f = value_of_key(name@);
    for i in 0..args.len()
        invariant
            pv == pair_views(args@),
            f == value_of_key(name@),
            first_some(pv.take(i as int), f) is None,
    {
        proof {
            lemma_first_some_step(pv, f, i as int);
        }
        let (k, v) = &args[i];
        if str_eq(k.as_str(), name) {
            proof {
                lemma_first_some_extend(pv, f, i + 1);
            }
            return Ok(v.clone());
        }
    }
    assert(pv.take(args@.len() as int) =~= pv);
    Err(concat_str("Missing required argument: ", name))
}

/// The keys of a list of pairs.
pub open spec fn keys_of(args: Seq<(Seq<char>, Seq<char>)>) -> Seq<Seq<char>> {
    args.map_values(|p: (Seq<char>, Seq<char>)| p.0)
}

/// The name of an argument that is required and that no key of `keys` names.
pub open spec fn missing_in(keys: Seq<Seq<char>>) -> spec_fn(ToolArgSpecView) -> Option<Seq<char>> {
    |a: ToolArgSpecView|
        if a.required && !keys.contains(a.name) {
            Some(a.name)
        } else {
            None
        }
}

/// A key that none of `names` is.
pub open spec fn unknown_in(names: Seq<Seq<char>>) -> spec_fn((Seq<char>, Seq<char>)) -> Option<
    Seq<char>,
> {
    |p: (Seq<char>, Seq<char>)|
        if !names.contains(p.0) {
            Some(p.0)
        } else {
            None
        }
}

/// The names of the arguments of a tool.
pub open spec fn arg_names(spec: ToolSpecView) -> Seq<Seq<char>> {
    spec.args.map_values(|a: ToolArgSpecView| a.name)
}

/// What `validate_args` gives: the first required argument (in spec order) that no key
/// names is an error; else the first key (in call order) that is no argument of the tool
/// is an error; else the call is valid.
pub open spec fn validate_args_spec(spec: ToolSpecView, args: Seq<(Seq<char>, Seq<char>)>) -> Result<
    (),
    Seq<char>,
> {
    match first_some(spec.args, missing_in(keys_of(args))) {
        Some(n) => Err("Missing required argument: "@ + n),
        None => match first_some(args, unknown_in(arg_names(spec))) {
            Some(k) => Err("Unknown argument '"@ + k + "' for tool '"@ + spec.name + "'."@),
            None => Ok(()),
        },
    }
}

/// Whether some pair of `args`, at any position, has `name` as its key.
pub open spec fn has_arg(args: Seq<(Seq<char>, Seq<char>)>, name: Seq<char>) -> bool {
    exists|i: int| 0 <= i < args.len() && #[trigger] args[i].0 == name
}

/// Whether the tool declares an argument named `name`.
pub open spec fn declares(spec: ToolSpecView, name: Seq<char>) -> bool {
    exists|j: int| 0 <= j < spec.args.len() && #[trigger] spec.args[j].name == name
}

proof fn lemma_keys_of_contains(args: Seq<(Seq<char>, Seq<char>)>, name: Seq<char>)
    ensures
        keys_of(args).contains(name) <==> has_arg(args, name),
{
    if has_arg(args, name) {
        let i = choose|i: int| 0 <= i < args.len() && #[trigger] args[i].0 == name;
        assert(keys_of(args)[i] == name);
    }
    if keys_of(args).contains(name) {
        let i = choose|i: int| 0 <= i < keys_of(args).len() && keys_of(args)[i] == name;
        assert(args[i].0 == name);
    }
}

proof fn lemma_arg_names_contains(spec: ToolSpecView, name: Seq<char>)
    ensures
        arg_names(spec).contains(name) <==> declares(spec, name),
{
    if declares(spec, name) {
        let j = choose|j: int| 0 <= j < spec.args.len() && #[trigger] spec.args[j].name == name;
        assert(arg_names(spec)[j] == name);
    }
    if arg_names(spec).contains(name) {
        let j = choose|j: int| 0 <= j < arg_names(spec).len() && arg_names(spec)[j] == name;
        assert(spec.args[j].name == name);
    }
}

/// A call passes a tool's spec exactly when every required argument of the tool is the
/// key of some pair of the call, at any position, and every key of the call is an argument
/// the tool declares; and a required argument that some pair names is never reported
/// missing.
pub proof fn lemma_validate_args_meaning(spec: ToolSpecView, args: Seq<(Seq<char>, Seq<char>)>)
    ensures
        validate_args_spec(spec, args) is Ok <==> ((forall|j: int|
            0 <= j < spec.args.len() && #[trigger] spec.args[j].required ==> has_arg(args, spec.args[j].name))
            && (forall|i: int| 0 <= i < args.len() ==> declares(spec, #[trigger] args[i].0))),
        forall|j: int|
            0 <= j < spec.args.len() && has_arg(args, #[trigger] spec.args[j].name)
                ==> validate_args_spec(spec, args) != Err::<(), Seq<char>>(
                "Missing required argument: "@ + spec.args[j].name,
            ),
{
    let keys = keys_of(args);
    let miss = missing_in(keys);
    let unk = unknown_in(arg_names(spec));
    lemma_first_some_none(spec.args, miss);
    lemma_first_some_none(args, unk);
    lemma_first_some_found(spec.args, miss);
    assert forall|j: int| 0 <= j < spec.args.len() implies (miss(#[trigger] spec.args[j]) is None <==> (
    spec.args[j].required ==> has_arg(args, spec.args[j].name))) by {
        lemma_keys_of_contains(args, spec.args[j].name);
    }
    assert forall|i: int| 0 <= i < args.len() implies (unk(#[trigger] args[i]) is None <==> declares(
        spec,
        args[i].0,
    )) by {
        lemma_arg_names_contains(spec, args[i].0);
    }
    reveal_strlit("Missing required argument: ");
    reveal_strlit("Unknown argument '");
    let pre = "Missing required argument: "@;
    assert forall|j: int|
        0 <= j < spec.args.len() && has_arg(args, #[trigger] spec.args[j].name) implies validate_args_spec(
        spec,
        args,
    ) != Err::<(), Seq<char>>(pre + spec.args[j].name) by {
        let nm = spec.args[j].name;
        match first_some(spec.args, miss) {
            Some(n) => {
                let k = choose|k: int| 0 <= k < spec.args.len() && miss(#[trigger] spec.args[k]) == Some(n);
                lemma_keys_of_contains(args, n);
                if pre + n == pre + nm {
                    assert((pre + n).skip(pre.len() as int) =~= n);
                    assert((pre + nm).skip(pre.len() as int) =~= nm);
                }
            },
            None => {
                match first_some(args, unk) {
                    Some(u) => {
                        let e = "Unknown argument '"@ + u + "' for tool '"@ + spec.name + "'."@;
                        assert(e[0] != (pre + nm)[0]);
                    },
                    None => {},
                }
            },
        }
    }
}

fn has_key(args: &[(String, String)], name: &str) -> (r: bool)
    ensures
        r == keys_of(pair_views(args@)).contains(name@),
{
    let ghost keys = keys_of(pair_views(args@));
    for i in 0..args.len()
        invariant
            keys == keys_of(pair_views(args@)),
            forall|k: int| 0 <= k < i ==> keys[k] != name@,
    {
        if str_eq(args[i].0.as_str(), name) {
            assert(keys[i as int] == name@);
            return true;
        }
    }
    false
}

fn is_arg_name(spec: &ToolSpec, key: &str) -> (r: bool)
    ensures
        r == arg_names(spec@).contains(key@),
{
    let ghost names = arg_names(spec@);
    for i in 0..spec.args.len()
        invariant
            names == arg_names(spec@),
            forall|k: int| 0 <= k < i ==> names[k] != key@,
    {
        if str_eq(spec.args[i].name.as_str(), key) {
            assert(names[i as int] == key@);
            return true;
        }
    }
    false
}

/// Checks `args` against the arguments of `spec`.
pub fn validate_args(spec: &ToolSpec, args: &[(String, String)]) -> (r: Result<(), String>)
    ensures
        match validate_args_spec(spec@, pair_views(args@)) {
            Ok(()) => r is Ok,
            Err(m) => r matches Err(e) && e@ == m,
        },
{
    let ghost sv = spec@;
    let ghost f = missing_in(keys_of(pair_views(args@)));
    for i in 0..spec.args.len()
        invariant
            sv == spec@,
            f == missing_in(keys_of(pair_views(args@))),
            first_some(sv.args.take(i as int), f) is None,
    {
        proof {
            lemma_first_some_step(sv.args, f, i as int);
        }
        let a = &spec.args[i];
        if a.required && !has_key(args, a.name.as_str()) {
            proof {
                lemma_first_some_extend(sv.args, f, i + 1);
            }
            return Err(concat_str("Missing required argument: ", a.name.as_str()));
        }
    }
    assert(sv.args.take(spec.args@.len() as int) =~= sv.args);
    let ghost pv = pair_views(args@);
    let ghost g = unknown_in(arg_names(spec@));
    for i in 0..args.len()
        invariant
            sv == spec@,
            first_some(sv.args, f) is None,
            f == missing_in(keys_of(pair_views(args@))),
            pv == pair_views(args@),
            g == unknown_in(arg_names(spec@)),
            first_some(pv.take(i as int), g) is None,
    {
        proof {
            lemma_first_some_step(pv, g, i as int);
        }
        let k = &args[i].0;
        assert(pv[i as int].0 == k@);
        if !is_arg_name(spec, k.as_str()) {
            proof {
                lemma_first_some_extend(pv, g, i + 1);
            }
            let head = concat_str("Unknown argument '", k.as_str());
            let mid = concat_str(head.as_str(), "' for tool '");
            let tail = concat_str(mid.as_str(), spec.name.as_str());
            return Err(concat_str(tail.as_str(), "'."));
        }
    }
    assert(pv.take(args@.len() as int) =~= pv);
    Ok(())
}

/// An argument of a built-in tool.
pub open spec fn arg_view(name: Seq<char>, description: Seq<char>) -> ToolArgSpecView {
    ToolArgSpecView { name, description, required: true }
}

pub open spec fn read_tool_spec() -> ToolSpecView {
    ToolSpecView {
        name: "read"@,
        description: "Read UTF-8 file content"@,
        args: seq![arg_view("path"@, "Path to file"@)],
    }
}

pub open spec fn write_tool_spec() -> ToolSpecView {
    ToolSpecView {
        name: "write"@,
        description: "Write full content to file"@,
        args: seq![arg_view("path"@, "Path to file"@), arg_view("content"@, "New file content"@)],
    }
}

pub open spec fn edit_tool_spec() -> ToolSpecView {
    ToolSpecView {
        name: "edit"@,
        description: "Replace substring in file"@,
        args: seq![
            arg_view("path"@, "Path to file"@),
            arg_view("find"@, "Text to find"@),
            arg_view("replace"@, "Replacement text"@),
        ],
    }
}

pub open spec fn bash_tool_spec() -> ToolSpecView {
    ToolSpecView {
        name: "bash"@,
        description: "Execute shell command"@,
        args: seq![arg_view("command"@, "Command to run"@)],
    }
}

pub open spec fn ls_tool_spec() -> ToolSpecView {
    ToolSpecView {
        name: "ls"@,
        description: "List directory entries"@,
        args: seq![
            ToolArgSpecView {
                name: "path"@,
                description: "Directory to list (the workspace when left out)"@,
                required: false,
            },
        ],
    }
}

/// The built-in tools, in the order the yolo profile offers them.
pub open spec fn builtin_tool_specs() -> Seq<ToolSpecView> {
    seq![read_tool_spec(), write_tool_spec(), edit_tool_spec(), bash_tool_spec(), ls_tool_spec()]
}

fn required_arg(name: &str, description: &str) -> (r: ToolArgSpec)
    ensures
        r@ == arg_view(name@, description@),
{
    ToolArgSpec { name: name.to_owned(), description: description.to_owned(), required: true }
}

fn create_read_tool() -> (r: AgentTool)
    ensures
        r.spec@ == read_tool_spec(),
{
    let mut args: Vec<ToolArgSpec> = Vec::new();
    args.push(required_arg("path", "Path to file"));
    let r = AgentTool {
        spec: ToolSpec { name: "read".to_owned(), description: "Read UTF-8 file content".to_owned(), args },
    };
    assert(r.spec@.args =~= read_tool_spec().args);
    r
}

fn create_write_tool() -> (r: AgentTool)
    ensures
        r.spec@ == write_tool_spec(),
{
    let mut args: Vec<ToolArgSpec> = Vec::new();
    args.push(required_arg("path", "Path to file"));
    args.push(required_arg("content", "New file content"));
    let r = AgentTool {
        spec: ToolSpec {
            name: "write".to_owned(),
            description: "Write full content to file".to_owned(),
            args,
        },
    };
    assert(r.spec@.args =~= write_tool_spec().args);
    r
}

fn create_edit_tool() -> (r: AgentTool)
    ensures
        r.spec@ == edit_tool_spec(),
{
    let mut args: Vec<ToolArgSpec> = Vec::new();
    args.push(required_arg("path", "Path to file"));
    args.push(required_arg("find", "Text to find"));
    args.push(required_arg("replace", "Replacement text"));
    let r = AgentTool {
        spec: ToolSpec {
            name: "edit".to_owned(),
            description: "Replace substring in file".to_owned(),
            args,
        },
    };
    assert(r.spec@.args =~= edit_tool_spec().args);
    r
}

fn create_bash_tool() -> (r: AgentTool)
    ensures
        r.spec@ == bash_tool_spec(),
{
    let mut args: Vec<ToolArgSpec> = Vec::new();
    args.push(required_arg("command", "Command to run"));
    let r = AgentTool {
        spec: ToolSpec { name: "bash".to_owned(), description: "Execute shell command".to_owned(), args },
    };
    assert(r.spec@.args =~= bash_tool_spec().args);
    r
}

fn create_ls_tool() -> (r: AgentTool)
    ensures
        r.spec@ == ls_tool_spec(),
{
    let mut args: Vec<ToolArgSpec> = Vec::new();
    args.push(
        ToolArgSpec {
            name: "path".to_owned(),
            description: "Directory to list (the workspace when left out)".to_owned(),
            required: false,
        },
    );
    let r = AgentTool {
        spec: ToolSpec { name: "ls".to_owned(), description: "List directory entries".to_owned(), args },
    };
    assert(r.spec@.args =~= ls_tool_spec().args);
    r
}

/// The tools of `all` whose names are in `allowed`, in the order of `all`.
pub open spec fn select_allowed(all: Seq<ToolSpecView>, allowed: Seq<Seq<char>>) -> Seq<
    ToolSpecView,
>
    decreases all.len(),
{
    if all.len() == 0 {
        Seq::<ToolSpecView>::empty()
    } else if allowed.contains(all.last().name) {
        select_allowed(all.drop_last(), allowed).push(all.last())
    } else {
        select_allowed(all.drop_last(), allowed)
    }
}

/// What `create_profile_tools` gives for a profile: yolo gets every built-in tool,
/// readonly the exploring tools `read` and `ls`, custom the built-in tools its list names (an error when
/// it names none of them).
pub open spec fn profile_tools_spec(profile: crate::runtime::RuntimeProfileView) -> Result<
    Seq<ToolSpecView>,
    Seq<char>,
> {
    match profile {
        crate::runtime::RuntimeProfileView::Yolo => Ok(builtin_tool_specs()),
        crate::runtime::RuntimeProfileView::Readonly => Ok(seq![read_tool_spec(), ls_tool_spec()]),
        crate::runtime::RuntimeProfileView::Custom(list) => {
            let selected = select_allowed(builtin_tool_specs(), list);
            if selected.len() == 0 {
                Err("No valid tools selected. Valid: read,write,edit,bash,ls"@)
            } else {
                Ok(selected)
            }
        },
    }
}

proof fn lemma_select_allowed_within(all: Seq<ToolSpecView>, allowed: Seq<Seq<char>>)
    ensures
        forall|i: int|
            0 <= i < select_allowed(all, allowed).len() ==> all.contains(
                #[trigger] select_allowed(all, allowed)[i],
            ),
    decreases all.len(),
{
    if all.len() > 0 {
        let d = all.drop_last();
        lemma_select_allowed_within(d, allowed);
        let s = select_allowed(all, allowed);
        assert forall|i: int| 0 <= i < s.len() implies all.contains(#[trigger] s[i]) by {
            if i < select_allowed(d, allowed).len() {
                let x = select_allowed(d, allowed)[i];
                assert(s[i] == x);
                let j = choose|j: int| 0 <= j < d.len() && d[j] == x;
                assert(all[j] == x);
            } else {
                assert(s[i] == all.last());
                assert(all[all.len() - 1] == all.last());
            }
        }
    }
}

/// The built-in tools have distinct names, and the tools of every profile are built-in
/// tools.
pub proof fn lemma_profile_tools_builtin(p: crate::runtime::RuntimeProfileView)
    ensures
        crate::llm::spec_names(builtin_tool_specs()).no_duplicates(),
        profile_tools_spec(p) matches Ok(ts) ==> forall|i: int|
            0 <= i < ts.len() ==> builtin_tool_specs().contains(#[trigger] ts[i]),
{
    reveal_strlit("read");
    reveal_strlit("write");
    reveal_strlit("edit");
    reveal_strlit("bash");
    reveal_strlit("ls");
    let names = crate::llm::spec_names(builtin_tool_specs());
    assert(names =~= seq!["read"@, "write"@, "edit"@, "bash"@, "ls"@]);
    assert(names[0][0] != names[2][0] && names[0][0] != names[3][0] && names[2][0] != names[3][0]);
    assert forall|i: int, j: int| 0 <= i < names.len() && 0 <= j < names.len() && i != j implies names[i]
        != names[j] by {
        if names[i].len() == names[j].len() {
            assert(names[i][0] != names[j][0]);
        }
    }
    lemma_select_allowed_within(builtin_tool_specs(), seq![]);
    match p {
        crate::runtime::RuntimeProfileView::Yolo => {
            assert forall|i: int| 0 <= i < builtin_tool_specs().len() implies builtin_tool_specs().contains(
                #[trigger] builtin_tool_specs()[i],
            ) by {}
        },
        crate::runtime::RuntimeProfileView::Readonly => {
            assert(builtin_tool_specs()[0] == read_tool_spec());
            assert(builtin_tool_specs()[4] == ls_tool_spec());
        },
        crate::runtime::RuntimeProfileView::Custom(list) => {
            lemma_select_allowed_within(builtin_tool_specs(), list);
        },
    }
}

fn list_contains(list: &Vec<String>, name: &str) -> (r: bool)
    ensures
        r == string_views(list@).contains(name@),
{
    let ghost views = string_views(list@);
    for i in 0..list.len()
        invariant
            views == string_views(list@),
            forall|k: int| 0 <= k < i ==> views[k] != name@,
    {
        if str_eq(list[i].as_str(), name) {
            assert(views[i as int] == name@);
            return true;
        }
    }
    false
}

/// The tools of a runtime profile.
pub fn create_profile_tools(profile: &RuntimeProfile) -> (r: Result<Vec<AgentTool>, String>)
    ensures
        match profile_tools_spec(profile@) {
            Ok(specs) => r matches Ok(tools) && tool_views(tools@) == specs,
            Err(m) => r matches Err(e) && e@ == m,
        },
{
    let mut all: Vec<AgentTool> = Vec::new();
    all.push(create_read_tool());
    all.push(create_write_tool());
    all.push(create_edit_tool());
    all.push(create_bash_tool());
    all.push(create_ls_tool());
    assert(tool_views(all@) =~= builtin_tool_specs());
    match profile {
        RuntimeProfile::Yolo => Ok(all),
        RuntimeProfile::Readonly => {
            let mut only: Vec<AgentTool> = Vec::new();
            only.push(create_read_tool());
            only.push(create_ls_tool());
            assert(tool_views(only@) =~= seq![read_tool_spec(), ls_tool_spec()]);
            Ok(only)
        },
        RuntimeProfile::Custom(allowlist) => {
            let ghost allowed = string_views(allowlist@);
            let ghost specs = builtin_tool_specs();
            let mut selected: Vec<AgentTool> = Vec::new();
            let mut rest = all;
            let mut kept: Vec<AgentTool> = Vec::new();
            // Walk the built-in tools first to last.
            let mut pending: Vec<AgentTool> = Vec::new();
            while rest.len() > 0
                invariant
                    tool_views(rest@) + tool_views(pending@).reverse() == specs,
                decreases rest@.len(),
            {
                let ghost br = rest@;
                let ghost bp = pending@;
                let t = rest.pop().unwrap();
                pending.push(t);
                assert(tool_views(rest@) =~= tool_views(br).drop_last());
                assert(tool_views(pending@).reverse() =~= seq![t.spec@] + tool_views(
                    bp,
                ).reverse());
                assert(tool_views(rest@) + tool_views(pending@).reverse() =~= tool_views(br)
                    + tool_views(bp).reverse());
            }
            assert(tool_views(pending@).reverse() =~= specs);
            let mut k: usize = 0;
            while pending.len() > 0
                invariant
                    k + pending@.len() == specs.len(),
                    specs == builtin_tool_specs(),
                    tool_views(pending@).reverse() == specs.skip(k as int),
                    allowed == string_views(allowlist@),
                    tool_views(selected@) == select_allowed(specs.take(k as int), allowed),
                decreases pending@.len(),
            {
                let ghost bp = pending@;
                let t = pending.pop().unwrap();
                assert(tool_views(pending@) =~= tool_views(bp).drop_last());
                assert(specs[k as int] == t.spec@) by {
                    assert(tool_views(bp).reverse()[0] == specs.skip(k as int)[0]);
                }
                assert(tool_views(pending@).reverse() =~= specs.skip(k + 1)) by {
                    assert forall|m: int| 0 <= m < tool_views(pending@).reverse().len() implies
                        tool_views(pending@).reverse()[m] == specs.skip(k + 1)[m] by {
                        assert(tool_views(bp).reverse()[m + 1] == specs.skip(k as int)[m + 1]);
                    }
                }
                assert(specs.take(k + 1).drop_last() =~= specs.take(k as int));
                assert(specs.take(k + 1).last() == t.spec@);
                let ghost bs = selected@;
                if list_contains(allowlist, t.spec.name.as_str()) {
                    let ghost ts = t.spec@;
                    selected.push(t);
                    assert(tool_views(selected@) =~= tool_views(bs).push(ts));
                } else {
                    kept.push(t);
                }
                k += 1;
            }
            assert(specs.take(5) =~= specs);
            if selected.len() == 0 {
                return Err("No valid tools selected. Valid: read,write,edit,bash,ls".to_owned());
            }
            Ok(selected)
        },
    }
}

/// A text-only message.
pub open spec fn text_message(role: Seq<char>, text: Seq<char>) -> MessageView {
    MessageView { role, content: seq![text_item(text)] }
}

fn text_message_exec(role: &str, text: &String) -> (r: Message)
    ensures
        r@ == text_message(role@, text@),
{
    let mut content: Vec<ContentItem> = Vec::new();
    content.push(ContentItem::Text(text.clone()));
    let r = Message { role: role.to_owned(), content };
    assert(r@.content =~= seq![text_item(text@)]);
    r
}

/// The message that hands a tool's output to the model, with role `tool`.
pub fn make_tool_message(result: &AgentToolResult) -> (r: Message)
    ensures
        r@ == text_message("tool"@, result.llm_output@),
{
    text_message_exec("tool", &result.llm_output)
}

/// The message that records a tool's output in the loop, with role `toolResult`.
pub fn make_tool_result(result: &AgentToolResult) -> (r: Message)
    ensures
        r@ == text_message("toolResult"@, result.llm_output@),
{
    text_message_exec("toolResult", &result.llm_output)
}

/// Where a tool path points: an absolute path as it is, a relative one under `cwd`
/// (as `Path::join` puts them together).
pub open spec fn resolve_spec(cwd: Seq<char>, path: Seq<char>) -> Seq<char> {
    if path.len() > 0 && path[0] == '/' {
        path
    } else if cwd.len() == 0 {
        path
    } else if cwd.last() == '/' {
        cwd + path
    } else {
        cwd + "/"@ + path
    }
}

/// The path a tool argument names, relative paths taken under `cwd`.
pub fn resolve(cwd: &str, path: &str) -> (r: String)
    ensures
        r@ == resolve_spec(cwd@, path@),
{
    let p = chars_of(path);
    if p.len() > 0 && p[0] == '/' {
        return string_of(p.as_slice());
    }
    let c = chars_of(cwd);
    if c.len() == 0 {
        return string_of(p.as_slice());
    }
    if c[c.len() - 1] == '/' {
        return concat_str(cwd, path);
    }
    let with_sep = concat_str(cwd, "/");
    concat_str(with_sep.as_str(), path)
}

/// A single string pair.
pub open spec fn one_pair(k: Seq<char>, v: Seq<char>) -> Seq<(Seq<char>, Seq<char>)> {
    seq![(k, v)]
}

fn pair_list(k: &str, v: &str) -> (r: Vec<(String, String)>)
    ensures
        pair_views(r@) == one_pair(k@, v@),
{
    let mut r: Vec<(String, String)> = Vec::new();
    r.push((k.to_owned(), v.to_owned()));
    assert(pair_views(r@) =~= one_pair(k@, v@));
    r
}

/// The result of the `read` tool, given the resolved path and the file's text.
pub fn read_result(resolved: &str, text: &str) -> (r: AgentToolResult)
    ensures
        r@ == (AgentToolResultView {
            llm_output: text@,
            ui_details: seq![("tool"@, "read"@), ("path"@, resolved@)],
        }),
{
    let mut details: Vec<(String, String)> = Vec::new();
    details.push(("tool".to_owned(), "read".to_owned()));
    details.push(("path".to_owned(), resolved.to_owned()));
    let r = AgentToolResult { llm_output: text.to_owned(), ui_details: details };
    assert(r@.ui_details =~= seq![("tool"@, "read"@), ("path"@, resolved@)]);
    r
}

/// The result of the `write` tool, given the resolved path and the content written
/// (its length counted in UTF-8 bytes).
pub fn write_result(resolved: &str, content: &str) -> (r: AgentToolResult)
    ensures
        r@ == (AgentToolResultView {
            llm_output: "wrote "@ + decimal(content.len() as nat) + " bytes"@,
            ui_details: one_pair("path"@, resolved@),
        }),
{
    let n = content.len();
    let head = concat_str("wrote ", usize_to_string(n).as_str());
    AgentToolResult { llm_output: concat_str(head.as_str(), " bytes"), ui_details: pair_list("path", resolved) }
}

/// What the `edit` tool writes back: the text with every occurrence of `find` replaced,
/// or an error where `find` does not occur.
pub fn edit_text(text: &str, find: &str, replace: &str) -> (r: Result<String, String>)
    ensures
        has_substring(text@, find@) ==> (r matches Ok(s) && s@ == replace_all(
            text@,
            find@,
            replace@,
        )),
        !has_substring(text@, find@) ==> (r matches Err(e) && e@
            == "edit failed: find text not found"@),
{
    let t = chars_of(text);
    let f = chars_of(find);
    if !contains_chars(t.as_slice(), f.as_slice()) {
        return Err("edit failed: find text not found".to_owned());
    }
    let rep = chars_of(replace);
    Ok(string_of(replace_chars(t.as_slice(), f.as_slice(), rep.as_slice()).as_slice()))
}

/// The result of the `edit` tool once the file is written.
pub fn edit_result(resolved: &str) -> (r: AgentToolResult)
    ensures
        r@ == (AgentToolResultView {
            llm_output: "edit complete"@,
            ui_details: one_pair("path"@, resolved@),
        }),
{
    AgentToolResult { llm_output: "edit complete".to_owned(), ui_details: pair_list("path", resolved) }
}

/// What the `ls` tool reports for a directory's entry names: one per line, or
/// `(empty directory)` where there are none.
pub open spec fn listing_text(names: Seq<Seq<char>>) -> Seq<char> {
    if names.len() == 0 {
        "(empty directory)"@
    } else {
        join(names, "\n"@)
    }
}

/// Whether `a` comes no later than `b` in the order strings compare in: character by
/// character by code point (the order of their UTF-8 bytes), a prefix first.
pub open spec fn text_le(a: Seq<char>, b: Seq<char>) -> bool
    decreases a.len(),
{
    if a.len() == 0 {
        true
    } else if b.len() == 0 {
        false
    } else if a[0] != b[0] {
        a[0] < b[0]
    } else {
        text_le(a.drop_first(), b.drop_first())
    }
}

/// The texts are in the order strings compare in.
pub open spec fn texts_sorted(s: Seq<Seq<char>>) -> bool {
    forall|i: int, j: int| 0 <= i < j < s.len() ==> text_le(#[trigger] s[i], #[trigger] s[j])
}

proof fn lemma_text_le_total(a: Seq<char>, b: Seq<char>)
    ensures
        text_le(a, b) || text_le(b, a),
    decreases a.len(),
{
    if a.len() > 0 && b.len() > 0 && a[0] == b[0] {
        lemma_text_le_total(a.drop_first(), b.drop_first());
    }
}

proof fn lemma_text_le_trans(a: Seq<char>, b: Seq<char>, c: Seq<char>)
    requires
        text_le(a, b),
        text_le(b, c),
    ensures
        text_le(a, c),
    decreases a.len(),
{
    if a.len() > 0 && b.len() > 0 && c.len() > 0 && a[0] == b[0] && b[0] == c[0] {
        lemma_text_le_trans(a.drop_first(), b.drop_first(), c.drop_first());
    }
}

fn text_le_exec(a: &str, b: &str) -> (r: bool)
    ensures
        r == text_le(a@, b@),
{
    let ca = chars_of(a);
    let cb = chars_of(b);
    let mut i: usize = 0;
    assert(a@.skip(0) =~= a@);
    assert(b@.skip(0) =~= b@);
    while i < ca.len() && i < cb.len()
        invariant
            ca@ == a@,
            cb@ == b@,
            i <= ca.len(),
            i <= cb.len(),
            text_le(a@, b@) == text_le(a@.skip(i as int), b@.skip(i as int)),
        decreases ca.len() - i,
    {
        let x = ca[i];
        let y = cb[i];
        assert(a@.skip(i as int)[0] == x);
        assert(b@.skip(i as int)[0] == y);
        if x != y {
            return x < y;
        }
        assert(a@.skip(i as int).drop_first() =~= a@.skip(i + 1));
        assert(b@.skip(i as int).drop_first() =~= b@.skip(i + 1));
        i = i + 1;
    }
    i == ca.len()
}

/// `names` in the order strings compare in.
pub fn sort_texts(names: &[String]) -> (r: Vec<String>)
    ensures
        string_views(r@).to_multiset() == string_views(names@).to_multiset(),
        texts_sorted(string_views(r@)),
{
    let mut r: Vec<String> = Vec::new();
    let ghost all = string_views(names@);
    assert(string_views(r@) =~= all.take(0));
    for i in 0..names.len()
        invariant
            all == string_views(names@),
            string_views(r@).to_multiset() == all.take(i as int).to_multiset(),
            texts_sorted(string_views(r@)),
    {
        let x = names[i].clone();
        let ghost v = string_views(r@);
        let mut j: usize = 0;
        while j < r.len() && text_le_exec(r[j].as_str(), x.as_str())
            invariant
                v == string_views(r@),
                j <= r.len(),
                forall|k: int| 0 <= k < j ==> text_le(#[trigger] v[k], x@),
            decreases r.len() - j,
        {
            j = j + 1;
        }
        proof {
            if j < r.len() {
                lemma_text_le_total(v[j as int], x@);
                assert forall|k: int| j <= k < v.len() implies text_le(x@, #[trigger] v[k]) by {
                    if k > j {
                        assert(text_le(v[j as int], v[k]));
                        lemma_text_le_trans(x@, v[j as int], v[k]);
                    }
                }
            }
        }
        r.insert(j, x);
        proof {
            let w = string_views(r@);
            assert(w =~= v.insert(j as int, x@));
            assert forall|p: int, q: int| 0 <= p < q < w.len() implies text_le(#[trigger] w[p], #[trigger] w[q]) by {
                if q < j {
                    assert(text_le(v[p], v[q]));
                } else if q == j {
                    assert(w[p] == v[p]);
                } else if p < j {
                    assert(w[q] == v[q - 1]);
                    assert(text_le(v[p], x@));
                    assert(text_le(x@, v[q - 1]));
                    lemma_text_le_trans(v[p], x@, v[q - 1]);
                } else if p == j {
                    assert(w[q] == v[q - 1]);
                } else {
                    assert(text_le(v[p - 1], v[q - 1]));
                }
            }
            assert(all.take(i + 1) =~= all.take(i as int).push(x@));
            vstd::seq_lib::to_multiset_insert(v, j as int, x@);
            vstd::seq_lib::to_multiset_build(all.take(i as int), x@);
        }
    }
    assert(all.take(names@.len() as int) =~= all);
    r
}

/// The result of the `ls` tool, given the resolved directory and its entry names: the
/// names in the order strings compare in, one per line.
pub fn ls_result(resolved: &str, names: &[String]) -> (r: AgentToolResult)
    ensures
        exists|sorted: Seq<Seq<char>>|
            #![trigger listing_text(sorted)]
            {
                &&& sorted.to_multiset() == string_views(names@).to_multiset()
                &&& texts_sorted(sorted)
                &&& r@ == (AgentToolResultView {
                    llm_output: listing_text(sorted),
                    ui_details: seq![("tool"@, "ls"@), ("path"@, resolved@)],
                })
            },
{
    let sorted = sort_texts(names);
    let out = if sorted.len() == 0 {
        "(empty directory)".to_owned()
    } else {
        join_strings(sorted.as_slice(), "\n")
    };
    let mut details: Vec<(String, String)> = Vec::new();
    details.push(("tool".to_owned(), "ls".to_owned()));
    details.push(("path".to_owned(), resolved.to_owned()));
    let r = AgentToolResult { llm_output: out, ui_details: details };
    assert(r@.ui_details =~= seq![("tool"@, "ls"@), ("path"@, resolved@)]);
    assert(r@.llm_output == listing_text(string_views(sorted@)));
    r
}

/// A command's standard output and error, each trimmed, joined by a newline where both
/// are non-empty.
pub open spec fn merged_output(stdout: Seq<char>, stderr: Seq<char>) -> Seq<char> {
    let out = trim(stdout);
    let err = trim(stderr);
    if err.len() == 0 {
        out
    } else if out.len() == 0 {
        err
    } else {
        out + "\n"@ + err
    }
}

/// `stdout` and `stderr` merged as `merged_output` says.
pub fn merge_output(stdout: &str, stderr: &str) -> (r: String)
    ensures
        r@ == merged_output(stdout@, stderr@),
{
    let out = trim_str(stdout);
    let err = trim_str(stderr);
    if string_is_empty(&err) {
        return out;
    }
    if string_is_empty(&out) {
        return err;
    }
    let with_nl = concat_str(out.as_str(), "\n");
    concat_str(with_nl.as_str(), err.as_str())
}

/// The output the model sees from a command: the merged output, or `(no output)`.
pub open spec fn command_text(stdout: Seq<char>, stderr: Seq<char>) -> Seq<char> {
    let text = merged_output(stdout, stderr);
    if text.len() == 0 {
        "(no output)"@
    } else {
        text
    }
}

/// The result of the `bash` tool, given the command and its captured output.
pub fn bash_result(command: &str, stdout: &str, stderr: &str) -> (r: AgentToolResult)
    ensures
        r@ == (AgentToolResultView {
            llm_output: command_text(stdout@, stderr@),
            ui_details: one_pair("command"@, command@),
        }),
{
    let text = merge_output(stdout, stderr);
    let out = if string_is_empty(&text) {
        "(no output)".to_owned()
    } else {
        text
    };
    AgentToolResult { llm_output: out, ui_details: pair_list("command", command) }
}

/// Whether `s` has no characters.
pub fn string_is_empty(s: &String) -> (r: bool)
    ensures
        r == (s@.len() == 0),
{
    s.as_str().is_empty()
}

} // verus!

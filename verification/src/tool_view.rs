//! Progressive tool exposure: the model sees `read` at first, and more tools as the input
//! hints at them or the model selects them.
use vstd::prelude::*;

use crate::llm::{clone_specs, has_tool_spec, spec_views, ToolSpec, ToolSpecView};
use crate::text::{has_substring, lowercase, str_contains, str_eq, string_views, to_lowercase};

verus! {

pub struct ProgressiveToolView {
    all: Vec<ToolSpec>,
    active: Vec<String>,
}

pub struct ToolViewState {
    pub all: Seq<ToolSpecView>,
    pub active: Set<Seq<char>>,
}

impl View for ProgressiveToolView {
    type V = ToolViewState;

    closed spec fn view(&self) -> ToolViewState {
        ToolViewState { all: spec_views(self.all@), active: string_views(self.active@).to_set() }
    }
}

/// The tools of `all` whose names are active, in the order of `all`.
pub open spec fn visible_specs(all: Seq<ToolSpecView>, active: Set<Seq<char>>) -> Seq<
    ToolSpecView,
>
    decreases all.len(),
{
    if all.len() == 0 {
        Seq::<ToolSpecView>::empty()
    } else if active.contains(all.last().name) {
        visible_specs(all.drop_last(), active).push(all.last())
    } else {
        visible_specs(all.drop_last(), active)
    }
}

/// The tool names an input (already lowercased) hints at: `bash` for "bash" or "command",
/// `write` and `edit` for "write" or "edit", `read` for "read" or "file".
pub open spec fn hinted(lowered: Seq<char>) -> Set<Seq<char>> {
    let bash = if has_substring(lowered, "bash"@) || has_substring(lowered, "command"@) {
        set!["bash"@]
    } else {
        Set::<Seq<char>>::empty()
    };
    let write = if has_substring(lowered, "write"@) || has_substring(lowered, "edit"@) {
        set!["write"@, "edit"@]
    } else {
        Set::<Seq<char>>::empty()
    };
    let read = if has_substring(lowered, "read"@) || has_substring(lowered, "file"@) {
        set!["read"@]
    } else {
        Set::<Seq<char>>::empty()
    };
    bash + write + read
}

/// The tools an (already lowercased) input hints at: `bash` exactly when it holds "bash"
/// or "command", `write` and `edit` exactly when it holds "write" or "edit", `read`
/// exactly when it holds "read" or "file", and no other tool.
pub proof fn lemma_hinted_names(l: Seq<char>)
    ensures
        hinted(l).contains("bash"@) <==> (has_substring(l, "bash"@) || has_substring(l, "command"@)),
        hinted(l).contains("write"@) <==> (has_substring(l, "write"@) || has_substring(l, "edit"@)),
        hinted(l).contains("edit"@) <==> (has_substring(l, "write"@) || has_substring(l, "edit"@)),
        hinted(l).contains("read"@) <==> (has_substring(l, "read"@) || has_substring(l, "file"@)),
        forall|x: Seq<char>|
            #[trigger] hinted(l).contains(x) ==> x == "bash"@ || x == "write"@ || x == "edit"@ || x == "read"@,
{
    reveal_strlit("bash");
    reveal_strlit("write");
    reveal_strlit("edit");
    reveal_strlit("read");
    assert("bash"@ != "write"@) by {
        assert("bash"@.len() != "write"@.len());
    }
    assert("bash"@ != "edit"@) by {
        assert("bash"@[0] != "edit"@[0]);
    }
    assert("bash"@ != "read"@) by {
        assert("bash"@[0] != "read"@[0]);
    }
    assert("write"@ != "read"@) by {
        assert("write"@.len() != "read"@.len());
    }
    assert("edit"@ != "read"@) by {
        assert("edit"@[0] != "read"@[0]);
    }
    assert("write"@ != "edit"@) by {
        assert("write"@.len() != "edit"@.len());
    }
}

impl ProgressiveToolView {
    /// A view of `all` in which only `read` (if offered) is active.
    pub fn new(all: Vec<ToolSpec>) -> (r: Self)
        ensures
            r@.all == spec_views(all@),
            r@.active == (if has_tool_spec(spec_views(all@), "read"@) {
                set!["read"@]
            } else {
                Set::<Seq<char>>::empty()
            }),
    {
        let mut r = ProgressiveToolView { all: Vec::new(), active: Vec::new() };
        let ghost views = spec_views(all@);
        for i in 0..all.len()
            invariant
                views == spec_views(all@),
                r@.active == (if exists|k: int| 0 <= k < i && #[trigger] views[k].name == "read"@ {
                    set!["read"@]
                } else {
                    Set::<Seq<char>>::empty()
                }),
        {
            if str_eq(all[i].name.as_str(), "read") {
                assert(views[i as int].name == "read"@);
                r.insert("read");
            }
        }
        r.all = all;
        r
    }

    fn contains(&self, name: &str) -> (b: bool)
        ensures
            b == self@.active.contains(name@),
    {
        let ghost names = string_views(self.active@);
        for i in 0..self.active.len()
            invariant
                names == string_views(self.active@),
                forall|k: int| 0 <= k < i ==> names[k] != name@,
        {
            if str_eq(self.active[i].as_str(), name) {
                assert(names[i as int] == name@);
                return true;
            }
        }
        assert(!names.contains(name@));
        false
    }

    fn insert(&mut self, name: &str)
        ensures
            final(self)@.all == old(self)@.all,
            final(self)@.active == old(self)@.active.insert(name@),
    {
        if !self.contains(name) {
            let ghost prev = self.active@;
            self.active.push(name.to_owned());
            assert(string_views(self.active@) =~= string_views(prev).push(name@));
            proof {
                string_views(prev).lemma_push_to_set_commute(name@);
            }
        } else {
            assert(self@.active.insert(name@) =~= self@.active);
        }
    }

    /// Activates the tools the input hints at.
    pub fn activate_hints(&mut self, input: &str)
        ensures
            final(self)@.all == old(self)@.all,
            final(self)@.active == old(self)@.active + hinted(lowercase(input@)),
    {
        let lowered = to_lowercase(input);
        self.activate_lowered(lowered.as_str());
    }

    /// Activates the tools that an already lowercased input hints at.
    pub fn activate_lowered(&mut self, lowered: &str)
        ensures
            final(self)@.all == old(self)@.all,
            final(self)@.active == old(self)@.active + hinted(lowered@),
    {
        let ghost start = self@.active;
        if str_contains(lowered, "bash") || str_contains(lowered, "command") {
            self.insert("bash");
        }
        if str_contains(lowered, "write") || str_contains(lowered, "edit") {
            self.insert("write");
            self.insert("edit");
        }
        if str_contains(lowered, "read") || str_contains(lowered, "file") {
            self.insert("read");
        }
        assert(self@.active =~= start + hinted(lowered@));
    }

    /// Activates a tool the model selected.
    pub fn note_selected(&mut self, tool: &str)
        ensures
            final(self)@.all == old(self)@.all,
            final(self)@.active == old(self)@.active.insert(tool@),
    {
        self.insert(tool);
    }

    /// The specs of the active tools, in the order they were given.
    pub fn specs(&self) -> (r: Vec<ToolSpec>)
        ensures
            spec_views(r@) == visible_specs(self@.all, self@.active),
    {
        let mut r: Vec<ToolSpec> = Vec::new();
        let ghost all = self@.all;
        let ghost active = self@.active;
        for i in 0..self.all.len()
            invariant
                all == spec_views(self.all@),
                active == self@.active,
                spec_views(r@) == visible_specs(all.take(i as int), active),
        {
            assert(all.take(i + 1).drop_last() =~= all.take(i as int));
            assert(all.take(i + 1).last() == self.all@[i as int]@);
            if self.contains(self.all[i].name.as_str()) {
                let a = self.all[i].clone();
                let ghost prev = r@;
                r.push(a);
                assert(spec_views(r@) =~= spec_views(prev).push(a@));
            }
        }
        assert(all.take(self.all@.len() as int) =~= all);
        r
    }
}

} // verus!

//! Deterministic routing of raw input: `/` commands, `!` shell invocations, and prompts.
use vstd::prelude::*;

use crate::text::{
    chars_of, find_char, lemma_trim_idempotent, slice_chars, split_once, string_of, trim, trim_chars,
};

verus! {

#[derive(Clone, Copy, Debug, PartialEq, Eq, Structural)]
pub enum RouteKind {
    Command,
    Shell,
    Prompt,
}

/// Where an input goes, with the command name and its arguments.
pub struct Route {
    pub kind: RouteKind,
    pub command: Option<String>,
    pub args: String,
}

pub struct RouteView {
    pub kind: RouteKind,
    pub command: Option<Seq<char>>,
    pub args: Seq<char>,
}

impl View for Route {
    type V = RouteView;

    open spec fn view(&self) -> RouteView {
        RouteView {
            kind: self.kind,
            command: match self.command {
                Some(c) => Some(c@),
                None => None,
            },
            args: self.args@,
        }
    }
}

/// The route of `input`: after trimming, a leading `!` makes the rest (trimmed) a shell
/// command; a leading `/` makes the word before the first space the command and the
/// rest its arguments (both trimmed); anything else is a prompt.
pub open spec fn route_of(input: Seq<char>) -> RouteView {
    let t = trim(input);
    if t.len() > 0 && t[0] == '!' {
        RouteView { kind: RouteKind::Shell, command: Some("shell"@), args: trim(t.drop_first()) }
    } else if t.len() > 0 && t[0] == '/' {
        let rest = t.drop_first();
        match split_once(rest, ' ') {
            Some((name, args)) => RouteView {
                kind: RouteKind::Command,
                command: Some(trim(name)),
                args: trim(args),
            },
            None => RouteView {
                kind: RouteKind::Command,
                command: Some(trim(rest)),
                args: Seq::<char>::empty(),
            },
        }
    } else {
        RouteView { kind: RouteKind::Prompt, command: None, args: t }
    }
}

pub struct Router;

impl Router {
    pub fn route(&self, input: &str) -> (r: Route)
        ensures
            r@ == route_of(input@),
    {
        let all = chars_of(input);
        let t = trim_chars(all.as_slice());
        let n = t.len();
        if n > 0 && t[0] == '!' {
            let rest = slice_chars(t.as_slice(), 1, n);
            assert(rest@ =~= t@.drop_first());
            let args = string_of(trim_chars(rest.as_slice()).as_slice());
            return Route { kind: RouteKind::Shell, command: Some("shell".to_owned()), args };
        }
        if n > 0 && t[0] == '/' {
            let rest = slice_chars(t.as_slice(), 1, n);
            assert(rest@ =~= t@.drop_first());
            match find_char(rest.as_slice(), ' ') {
                Some(i) => {
                    let name = slice_chars(rest.as_slice(), 0, i);
                    let args = slice_chars(rest.as_slice(), i + 1, rest.len());
                    assert(name@ =~= rest@.take(i as int));
                    assert(args@ =~= rest@.skip(i + 1));
                    let command = string_of(trim_chars(name.as_slice()).as_slice());
                    let args = string_of(trim_chars(args.as_slice()).as_slice());
                    return Route { kind: RouteKind::Command, command: Some(command), args };
                },
                None => {
                    let command = string_of(trim_chars(rest.as_slice()).as_slice());
                    return Route {
                        kind: RouteKind::Command,
                        command: Some(command),
                        args: String::new(),
                    };
                },
            }
        }
        Route { kind: RouteKind::Prompt, command: None, args: string_of(t.as_slice()) }
    }
}

/// Routing an input and routing its trimmed text give the same route.
pub proof fn lemma_route_ignores_surrounding_space(input: Seq<char>)
    ensures
        route_of(trim(input)) == route_of(input),
{
    lemma_trim_idempotent(input);
}

}

//! Loop limits and the versioned system prompt.
use vstd::prelude::*;

verus! {

#[derive(Clone, Debug)]
pub struct LoopLimits {
    pub max_rounds: usize,
    pub context_window: usize,
    pub max_tool_calls_per_round: usize,
}

impl Default for LoopLimits {
    fn default() -> (r: Self)
        ensures
            r.max_rounds == 15,
            r.context_window == 50,
            r.max_tool_calls_per_round == 4,
    {
        LoopLimits { max_rounds: 15, context_window: 50, max_tool_calls_per_round: 4 }
    }
}

#[derive(Clone, Debug)]
pub struct AgentConfig {
    pub prompt_version: &'static str,
    pub system_prompt: &'static str,
    pub limits: LoopLimits,
}

impl Default for AgentConfig {
    fn default() -> (r: Self)
        ensures
            r.prompt_version@ == "v1"@,
            r.system_prompt@
                == "You are SimpleAgent. Be concise, deterministic, and observable. Use tools when needed. Avoid hidden assumptions."@,
            r.limits.max_rounds == 15,
            r.limits.context_window == 50,
            r.limits.max_tool_calls_per_round == 4,
    {
        AgentConfig {
            prompt_version: "v1",
            system_prompt: "You are SimpleAgent. Be concise, deterministic, and observable. Use tools when needed. Avoid hidden assumptions.",
            limits: LoopLimits::default(),
        }
    }
}

} // verus!

//! SimpleAgent: a deterministic agent pipeline
//! `Route -> Record(Tape) -> Tools(view) -> Context -> Model -> Process`,
//! with its routing, tape, tool view and loop decisions verified.

pub mod text;
pub mod llm;
pub mod router;
pub mod runtime;
pub mod tools;
pub mod tool_view;
pub mod agent_config;
pub mod context;
pub mod memory;
pub mod agent_loop;

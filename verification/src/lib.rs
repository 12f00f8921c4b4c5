//! parcad's verified core: the intent graph's structure, the session a window
//! and an agent share, the rules that read names, keys and text, and the
//! small image and HTTP routines the transports lean on.

pub mod brief;
pub mod call;
pub mod checks;
pub mod docs;
pub mod envelope;
pub mod font;
pub mod graph;
pub mod mcp;
pub mod measure;
pub mod mesh;
pub mod projects;
pub mod relay;
pub mod render;
pub mod scan;
pub mod service;
pub mod session;
pub mod text;
pub mod ui;

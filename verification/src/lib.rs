//! Host schema dialects for MCP server configuration files, verified with Verus.
pub mod dialect;
pub mod text;
pub mod string_map;
pub mod doc;
pub mod parsers;

//! Host schema dialects.
//!
//! Every host declares the same logical servers but disagrees about nearly every key
//! name. Rather than one parser per host, the differences are captured as data in
//! the host table (`host_table`, built by `hosts`) and interpreted by shared code.
//! Adding a host is one table row.
//!
//! Qwen's `httpUrl` (rather than `url`), Codex's `http_headers` (rather than
//! `headers`), opencode's `environment` (rather than `env`) and goose's
//! `cmd`/`envs`/`uri` each reduce to a single field here.
use vstd::prelude::*;
use crate::string_map::StringMap;
use crate::text::{join, space_prefixed, starts_with_char, text_eq};
use crate::doc::{
    spec_get,
    distinct_keys, doc_view, lemma_member_at, lemma_member_push, member, opt_doc, scalar_text, Doc,
    DocView,
};
use crate::parsers::{
    json_document, jsonc_document, parse_json, parse_jsonc, parse_toml, parse_yaml, toml_document,
    yaml_document,
};
use vstd::string::StringExecFns;

verus! {

/// Serialization format of a host's config file.
#[derive(Debug, Clone, Copy, PartialEq, Eq, Structural)]
pub enum Format {
    /// Strict JSON.
    Json,
    /// JSON with comments and, in the wild, trailing commas.
    Jsonc,
    /// TOML.
    Toml,
    /// YAML.
    Yaml,
}

/// How a host spells out the command line of a stdio server.
#[derive(Debug, Clone, Copy, PartialEq, Eq, Structural)]
pub enum CommandShape {
    /// `"command": "npx", "args": ["-y", "pkg"]`, the common case.
    Split,
    /// `"command": ["npx", "-y", "pkg"]`, as in opencode and its forks.
    Joined,
    /// `cmd: npx`, `args: ["-y", "pkg"]`, as in goose.
    Cmd,
}

/// The key that holds the executable for a command shape.
pub open spec fn spec_command_key(shape: CommandShape) -> Seq<char> {
    match shape {
        CommandShape::Cmd => "cmd"@,
        _ => "command"@,
    }
}

impl CommandShape {
    /// Key holding the executable.
    pub fn command_key(self) -> (key: &'static str)
        ensures
            key@ == spec_command_key(self),
    {
        match self {
            CommandShape::Split | CommandShape::Joined => "command",
            CommandShape::Cmd => "cmd",
        }
    }
}

/// Indentation used when writing a host's file.
#[derive(Debug, Clone, Copy, PartialEq, Eq, Structural)]
pub enum Indent {
    /// N spaces per level.
    Spaces(usize),
    /// One tab per level.
    Tab,
}

/// How a host expresses that a server is switched on.
#[derive(Debug, Clone, Copy, PartialEq, Eq)]
pub enum EnabledStyle {
    /// No such concept; presence means enabled.
    Absent,
    /// A positive boolean under this key.
    Enabled(&'static str),
    /// A negated boolean under this key, as in Antigravity's `disabled`.
    Disabled(&'static str),
}

/// A per-server connect timeout a host expects, and the unit it is written in.
#[derive(Debug, Clone, Copy, PartialEq, Eq)]
pub struct Timeout {
    /// Key holding the value.
    pub key: &'static str,
    /// Value, in whatever unit the host uses.
    pub value: u64,
}

/// One host application's schema dialect.
#[derive(Debug, Clone, Copy)]
pub struct Host {
    /// Manifest name, matching the repository directory.
    pub name: &'static str,
    /// Path of the tracked template, relative to the repository root.
    pub template: &'static str,
    /// Serialization format.
    pub format: Format,
    /// Key holding the server map, or `None` when servers sit at the top level.
    pub wrapper: Option<&'static str>,
    /// Key holding a remote server's endpoint.
    pub url_field: &'static str,
    /// Key holding a remote server's request headers.
    pub headers_field: &'static str,
    /// Key holding a stdio server's environment variables.
    pub env_field: &'static str,
    /// Spelling of a stdio server's command line.
    pub command_shape: CommandShape,
    /// Indentation of the generated file.
    pub indent: Indent,
    /// Value of the `type` key for a stdio server, when the host wants one.
    pub stdio_type: Option<&'static str>,
    /// Value of the `type` key for a remote server, when the host wants one.
    pub http_type: Option<&'static str>,
    /// How the host switches a server on or off.
    pub enabled_style: EnabledStyle,
    /// Per-server connect timeout the host expects.
    pub timeout: Option<Timeout>,
    /// Whether the host repeats the server's name inside its entry, as goose does.
    pub emit_name_field: bool,
    /// Key holding per-tool settings, for hosts that have the concept.
    ///
    /// `None` means the host has no per-tool vocabulary, so a server's `tools`
    /// map is simply not emitted there. That is silence, not an error: one
    /// manifest serves every host, and a setting only some of them understand
    /// is the normal case rather than a mistake.
    pub tools_field: Option<&'static str>,
}

/// Every host this repository targets, in table order.
pub open spec fn host_table() -> Seq<Host> {
    seq![
        Host {
            name: "Antigravity",
            template: "Antigravity/mcp_config.json",
            format: Format::Json,
            wrapper: Some("mcpServers"),
            url_field: "serverUrl",
            headers_field: "headers",
            env_field: "env",
            command_shape: CommandShape::Split,
            indent: Indent::Spaces(2),
            stdio_type: None,
            http_type: None,
            enabled_style: EnabledStyle::Disabled("disabled"),
            timeout: None,
            emit_name_field: false,
            tools_field: None,
        },
        Host {
            name: "VSCode",
            template: "VSCode/mcp.json",
            format: Format::Json,
            wrapper: Some("servers"),
            url_field: "url",
            headers_field: "headers",
            env_field: "env",
            command_shape: CommandShape::Split,
            indent: Indent::Tab,
            stdio_type: Some("stdio"),
            http_type: Some("http"),
            enabled_style: EnabledStyle::Absent,
            timeout: None,
            emit_name_field: false,
            tools_field: None,
        },
        Host {
            name: "GitHubCopilotCLI",
            template: "GitHubCopilotCLI/mcp-config.json",
            format: Format::Json,
            wrapper: Some("mcpServers"),
            url_field: "url",
            headers_field: "headers",
            env_field: "env",
            command_shape: CommandShape::Split,
            indent: Indent::Spaces(2),
            stdio_type: Some("stdio"),
            http_type: Some("http"),
            enabled_style: EnabledStyle::Absent,
            timeout: None,
            emit_name_field: false,
            tools_field: None,
        },
        Host {
            name: "ClaudeCode",
            template: "ClaudeCode/.mcp.json",
            format: Format::Json,
            wrapper: Some("mcpServers"),
            url_field: "url",
            headers_field: "headers",
            env_field: "env",
            command_shape: CommandShape::Split,
            indent: Indent::Spaces(2),
            stdio_type: Some("stdio"),
            http_type: Some("http"),
            enabled_style: EnabledStyle::Absent,
            timeout: None,
            emit_name_field: false,
            tools_field: None,
        },
        Host {
            name: "OpenClaude",
            template: "OpenClaude/.mcp.json",
            format: Format::Json,
            wrapper: Some("mcpServers"),
            url_field: "url",
            headers_field: "headers",
            env_field: "env",
            command_shape: CommandShape::Split,
            indent: Indent::Spaces(2),
            stdio_type: Some("stdio"),
            http_type: Some("http"),
            enabled_style: EnabledStyle::Absent,
            timeout: None,
            emit_name_field: false,
            tools_field: None,
        },
        Host {
            // The only host here with per-tool settings:
        // `[mcp_servers.<server>.tools.<tool>] approval_mode = "approve"`.
        name: "Codex",
            template: "Codex/config.toml",
            format: Format::Toml,
            wrapper: Some("mcp_servers"),
            url_field: "url",
            headers_field: "http_headers",
            env_field: "env",
            command_shape: CommandShape::Split,
            indent: Indent::Spaces(2),
            stdio_type: None,
            http_type: None,
            enabled_style: EnabledStyle::Absent,
            timeout: None,
            emit_name_field: false,
            tools_field: Some("tools"),
        },
        Host {
            name: "Grok",
            template: "Grok/config.toml",
            format: Format::Toml,
            wrapper: Some("mcp_servers"),
            url_field: "url",
            headers_field: "headers",
            env_field: "env",
            command_shape: CommandShape::Split,
            indent: Indent::Spaces(2),
            stdio_type: None,
            http_type: None,
            enabled_style: EnabledStyle::Enabled("enabled"),
            timeout: None,
            emit_name_field: false,
            tools_field: None,
        },
        Host {
            name: "Kimi",
            template: "Kimi/mcp.json",
            format: Format::Json,
            wrapper: Some("mcpServers"),
            url_field: "url",
            headers_field: "headers",
            env_field: "env",
            command_shape: CommandShape::Split,
            indent: Indent::Spaces(2),
            stdio_type: None,
            http_type: None,
            enabled_style: EnabledStyle::Absent,
            timeout: None,
            emit_name_field: false,
            tools_field: None,
        },
        Host {
            // Gemini marks remote servers but leaves stdio servers untyped.
        name: "Gemini",
            template: "Gemini/settings.json",
            format: Format::Json,
            wrapper: Some("mcpServers"),
            url_field: "url",
            headers_field: "headers",
            env_field: "env",
            command_shape: CommandShape::Split,
            indent: Indent::Spaces(2),
            stdio_type: None,
            http_type: Some("http"),
            enabled_style: EnabledStyle::Absent,
            timeout: None,
            emit_name_field: false,
            tools_field: None,
        },
        Host {
            name: "Qwen",
            template: "Qwen/settings.json",
            format: Format::Json,
            wrapper: Some("mcpServers"),
            url_field: "httpUrl",
            headers_field: "headers",
            env_field: "env",
            command_shape: CommandShape::Split,
            indent: Indent::Spaces(2),
            stdio_type: None,
            http_type: None,
            enabled_style: EnabledStyle::Absent,
            timeout: None,
            emit_name_field: false,
            tools_field: None,
        },
        Host {
            // opencode's default connect timeout is 30s; 60s tolerates a cold `nix run`
        // or `npx` fetch on first launch without the host giving up.
        name: "OpenCode",
            template: "OpenCode/opencode.jsonc",
            format: Format::Jsonc,
            wrapper: Some("mcp"),
            url_field: "url",
            headers_field: "headers",
            env_field: "environment",
            command_shape: CommandShape::Joined,
            indent: Indent::Spaces(2),
            stdio_type: Some("local"),
            http_type: Some("remote"),
            enabled_style: EnabledStyle::Enabled("enabled"),
            timeout: Some(Timeout { key: "timeout", value: 60000 }),
            emit_name_field: false,
            tools_field: None,
        },
        Host {
            name: "Mimo",
            template: "Mimo/mimocode.jsonc",
            format: Format::Jsonc,
            wrapper: Some("mcp"),
            url_field: "url",
            headers_field: "headers",
            env_field: "environment",
            command_shape: CommandShape::Joined,
            indent: Indent::Spaces(2),
            stdio_type: Some("local"),
            http_type: Some("remote"),
            enabled_style: EnabledStyle::Enabled("enabled"),
            timeout: Some(Timeout { key: "timeout", value: 60000 }),
            emit_name_field: false,
            tools_field: None,
        },
        Host {
            // goose counts its timeout in seconds, not milliseconds.
        name: "Goose",
            template: "Goose/config.yaml",
            format: Format::Yaml,
            wrapper: Some("extensions"),
            url_field: "uri",
            headers_field: "headers",
            env_field: "envs",
            command_shape: CommandShape::Cmd,
            indent: Indent::Spaces(2),
            stdio_type: Some("stdio"),
            http_type: Some("streamable_http"),
            enabled_style: EnabledStyle::Enabled("enabled"),
            timeout: Some(Timeout { key: "timeout", value: 300 }),
            emit_name_field: true,
            tools_field: None,
        }
    ]
}

/// Every host this repository targets.
pub fn hosts() -> (table: Vec<Host>)
    ensures
        table@ == host_table(),
{
    let table = vec![
        Host {
            name: "Antigravity",
            template: "Antigravity/mcp_config.json",
            format: Format::Json,
            wrapper: Some("mcpServers"),
            url_field: "serverUrl",
            headers_field: "headers",
            env_field: "env",
            command_shape: CommandShape::Split,
            indent: Indent::Spaces(2),
            stdio_type: None,
            http_type: None,
            enabled_style: EnabledStyle::Disabled("disabled"),
            timeout: None,
            emit_name_field: false,
            tools_field: None,
        },
        Host {
            name: "VSCode",
            template: "VSCode/mcp.json",
            format: Format::Json,
            wrapper: Some("servers"),
            url_field: "url",
            headers_field: "headers",
            env_field: "env",
            command_shape: CommandShape::Split,
            indent: Indent::Tab,
            stdio_type: Some("stdio"),
            http_type: Some("http"),
            enabled_style: EnabledStyle::Absent,
            timeout: None,
            emit_name_field: false,
            tools_field: None,
        },
        Host {
            name: "GitHubCopilotCLI",
            template: "GitHubCopilotCLI/mcp-config.json",
            format: Format::Json,
            wrapper: Some("mcpServers"),
            url_field: "url",
            headers_field: "headers",
            env_field: "env",
            command_shape: CommandShape::Split,
            indent: Indent::Spaces(2),
            stdio_type: Some("stdio"),
            http_type: Some("http"),
            enabled_style: EnabledStyle::Absent,
            timeout: None,
            emit_name_field: false,
            tools_field: None,
        },
        Host {
            name: "ClaudeCode",
            template: "ClaudeCode/.mcp.json",
            format: Format::Json,
            wrapper: Some("mcpServers"),
            url_field: "url",
            headers_field: "headers",
            env_field: "env",
            command_shape: CommandShape::Split,
            indent: Indent::Spaces(2),
            stdio_type: Some("stdio"),
            http_type: Some("http"),
            enabled_style: EnabledStyle::Absent,
            timeout: None,
            emit_name_field: false,
            tools_field: None,
        },
        Host {
            name: "OpenClaude",
            template: "OpenClaude/.mcp.json",
            format: Format::Json,
            wrapper: Some("mcpServers"),
            url_field: "url",
            headers_field: "headers",
            env_field: "env",
            command_shape: CommandShape::Split,
            indent: Indent::Spaces(2),
            stdio_type: Some("stdio"),
            http_type: Some("http"),
            enabled_style: EnabledStyle::Absent,
            timeout: None,
            emit_name_field: false,
            tools_field: None,
        },
        Host {
            name: "Codex",
            template: "Codex/config.toml",
            format: Format::Toml,
            wrapper: Some("mcp_servers"),
            url_field: "url",
            headers_field: "http_headers",
            env_field: "env",
            command_shape: CommandShape::Split,
            indent: Indent::Spaces(2),
            stdio_type: None,
            http_type: None,
            enabled_style: EnabledStyle::Absent,
            timeout: None,
            emit_name_field: false,
            tools_field: Some("tools"),
        },
        Host {
            name: "Grok",
            template: "Grok/config.toml",
            format: Format::Toml,
            wrapper: Some("mcp_servers"),
            url_field: "url",
            headers_field: "headers",
            env_field: "env",
            command_shape: CommandShape::Split,
            indent: Indent::Spaces(2),
            stdio_type: None,
            http_type: None,
            enabled_style: EnabledStyle::Enabled("enabled"),
            timeout: None,
            emit_name_field: false,
            tools_field: None,
        },
        Host {
            name: "Kimi",
            template: "Kimi/mcp.json",
            format: Format::Json,
            wrapper: Some("mcpServers"),
            url_field: "url",
            headers_field: "headers",
            env_field: "env",
            command_shape: CommandShape::Split,
            indent: Indent::Spaces(2),
            stdio_type: None,
            http_type: None,
            enabled_style: EnabledStyle::Absent,
            timeout: None,
            emit_name_field: false,
            tools_field: None,
        },
        Host {
            name: "Gemini",
            template: "Gemini/settings.json",
            format: Format::Json,
            wrapper: Some("mcpServers"),
            url_field: "url",
            headers_field: "headers",
            env_field: "env",
            command_shape: CommandShape::Split,
            indent: Indent::Spaces(2),
            stdio_type: None,
            http_type: Some("http"),
            enabled_style: EnabledStyle::Absent,
            timeout: None,
            emit_name_field: false,
            tools_field: None,
        },
        Host {
            name: "Qwen",
            template: "Qwen/settings.json",
            format: Format::Json,
            wrapper: Some("mcpServers"),
            url_field: "httpUrl",
            headers_field: "headers",
            env_field: "env",
            command_shape: CommandShape::Split,
            indent: Indent::Spaces(2),
            stdio_type: None,
            http_type: None,
            enabled_style: EnabledStyle::Absent,
            timeout: None,
            emit_name_field: false,
            tools_field: None,
        },
        Host {
            name: "OpenCode",
            template: "OpenCode/opencode.jsonc",
            format: Format::Jsonc,
            wrapper: Some("mcp"),
            url_field: "url",
            headers_field: "headers",
            env_field: "environment",
            command_shape: CommandShape::Joined,
            indent: Indent::Spaces(2),
            stdio_type: Some("local"),
            http_type: Some("remote"),
            enabled_style: EnabledStyle::Enabled("enabled"),
            timeout: Some(Timeout { key: "timeout", value: 60000 }),
            emit_name_field: false,
            tools_field: None,
        },
        Host {
            name: "Mimo",
            template: "Mimo/mimocode.jsonc",
            format: Format::Jsonc,
            wrapper: Some("mcp"),
            url_field: "url",
            headers_field: "headers",
            env_field: "environment",
            command_shape: CommandShape::Joined,
            indent: Indent::Spaces(2),
            stdio_type: Some("local"),
            http_type: Some("remote"),
            enabled_style: EnabledStyle::Enabled("enabled"),
            timeout: Some(Timeout { key: "timeout", value: 60000 }),
            emit_name_field: false,
            tools_field: None,
        },
        Host {
            name: "Goose",
            template: "Goose/config.yaml",
            format: Format::Yaml,
            wrapper: Some("extensions"),
            url_field: "uri",
            headers_field: "headers",
            env_field: "envs",
            command_shape: CommandShape::Cmd,
            indent: Indent::Spaces(2),
            stdio_type: Some("stdio"),
            http_type: Some("streamable_http"),
            enabled_style: EnabledStyle::Enabled("enabled"),
            timeout: Some(Timeout { key: "timeout", value: 300 }),
            emit_name_field: true,
            tools_field: None,
        }
    ];
    assert(table@ =~= host_table());
    table
}

/// The first host of `table` named `name`.
pub open spec fn find_host(table: Seq<Host>, name: Seq<char>) -> Option<Host>
    decreases table.len(),
{
    if table.len() == 0 {
        None
    } else if table[0].name@ == name {
        Some(table[0])
    } else {
        find_host(table.drop_first(), name)
    }
}

/// What `find_host` finds is a row with that name, and it finds nothing only when
/// no row has that name.
proof fn lemma_find_host_result(t: Seq<Host>, name: Seq<char>)
    ensures
        find_host(t, name) matches Some(h) ==> h.name@ == name && t.contains(h),
        find_host(t, name) is None <==> forall|i: int| 0 <= i < t.len() ==> #[trigger] t[i].name@ != name,
    decreases t.len(),
{
    if t.len() > 0 {
        let u = t.drop_first();
        lemma_find_host_result(u, name);
        if t[0].name@ == name {
            assert(t[0] == t[0]);
            assert(t.contains(t[0]));
        } else {
            if find_host(u, name) is Some {
                let h = find_host(u, name)->0;
                let i = choose|i: int| 0 <= i < u.len() && u[i] == h;
                assert(t[i + 1] == h);
            }
            if forall|i: int| 0 <= i < u.len() ==> #[trigger] u[i].name@ != name {
                assert forall|i: int| 0 <= i < t.len() implies #[trigger] t[i].name@ != name by {
                    if i > 0 {
                        assert(t[i] == u[i - 1]);
                        assert(u[i - 1].name@ != name);
                    } else {
                        assert(t[0].name@ != name);
                    }
                }
            } else {
                let i = choose|i: int| 0 <= i < u.len() && u[i].name@ == name;
                assert(t[i + 1] == u[i]);
            }
        }
    }
}

/// Looks up a host's dialect by name.
pub fn host_by_name(name: &str) -> (found: Option<Host>)
    ensures
        found == find_host(host_table(), name@),
        found matches Some(h) ==> h.name@ == name@ && host_table().contains(h),
        found is None <==> forall|i: int|
            0 <= i < host_table().len() ==> #[trigger] host_table()[i].name@ != name@,
{
    proof {
        lemma_find_host_result(host_table(), name@);
    }
    let table = hosts();
    let mut i: usize = 0;
    assert(table@.skip(0) =~= table@);
    while i < table.len()
        invariant
            i <= table@.len(),
            find_host(table@, name@) == find_host(table@.skip(i as int), name@),
            table@ == host_table(),
        decreases table.len() - i,
    {
        assert(table@.skip(i as int)[0] == table@[i as int]);
        if text_eq(table[i].name, name) {
            return Some(table[i]);
        }
        assert(table@.skip(i as int).drop_first() =~= table@.skip(i + 1));
        i = i + 1;
    }
    None
}

/// Host names are distinct, so a name picks out at most one row of the table.
pub proof fn lemma_host_names_distinct()
    ensures
        forall|i: int, j: int|
            0 <= i < j < host_table().len() ==> host_table()[i].name@ != host_table()[j].name@,
{
    reveal_strlit("Antigravity");
    reveal_strlit("VSCode");
    reveal_strlit("GitHubCopilotCLI");
    reveal_strlit("ClaudeCode");
    reveal_strlit("OpenClaude");
    reveal_strlit("Codex");
    reveal_strlit("Grok");
    reveal_strlit("Kimi");
    reveal_strlit("Gemini");
    reveal_strlit("Qwen");
    reveal_strlit("OpenCode");
    reveal_strlit("Mimo");
    reveal_strlit("Goose");
    let t = host_table();
    assert forall|i: int, j: int| 0 <= i < j < t.len() implies t[i].name@ != t[j].name@ by {
        if t[i].name@.len() == t[j].name@.len() {
            assert(t[i].name@[0] != t[j].name@[0] || t[i].name@[1] != t[j].name@[1]);
        }
    }
}

/// Template paths are distinct, so a path picks out at most one row of the table.
pub proof fn lemma_host_templates_distinct()
    ensures
        forall|i: int, j: int|
            0 <= i < j < host_table().len() ==> host_table()[i].template@
                != host_table()[j].template@,
{
    reveal_strlit("Antigravity/mcp_config.json");
    reveal_strlit("VSCode/mcp.json");
    reveal_strlit("GitHubCopilotCLI/mcp-config.json");
    reveal_strlit("ClaudeCode/.mcp.json");
    reveal_strlit("OpenClaude/.mcp.json");
    reveal_strlit("Codex/config.toml");
    reveal_strlit("Grok/config.toml");
    reveal_strlit("Kimi/mcp.json");
    reveal_strlit("Gemini/settings.json");
    reveal_strlit("Qwen/settings.json");
    reveal_strlit("OpenCode/opencode.jsonc");
    reveal_strlit("Mimo/mimocode.jsonc");
    reveal_strlit("Goose/config.yaml");
    let t = host_table();
    assert forall|i: int, j: int| 0 <= i < j < t.len() implies t[i].template@ != t[j].template@ by {
        if t[i].template@.len() == t[j].template@.len() {
            assert(t[i].template@[0] != t[j].template@[0] || t[i].template@[1] != t[j].template@[1]);
        }
    }
}

proof fn lemma_find_host_at(t: Seq<Host>, i: int)
    requires
        0 <= i < t.len(),
        forall|a: int, b: int| 0 <= a < b < t.len() ==> t[a].name@ != t[b].name@,
    ensures
        find_host(t, t[i].name@) == Some(t[i]),
    decreases i,
{
    if i > 0 {
        let u = t.drop_first();
        assert forall|a: int, b: int| 0 <= a < b < u.len() implies u[a].name@ != u[b].name@ by {
            assert(u[a] == t[a + 1] && u[b] == t[b + 1]);
        }
        lemma_find_host_at(u, i - 1);
        assert(t[0].name@ != t[i].name@);
    }
}

/// Looking a host up by its own name gives back that host.
pub proof fn lemma_host_by_name_finds_each_host(i: int)
    requires
        0 <= i < host_table().len(),
    ensures
        find_host(host_table(), host_table()[i].name@) == Some(host_table()[i]),
{
    lemma_host_names_distinct();
    lemma_find_host_at(host_table(), i);
}

/// A server's invocation, stripped of host-specific spelling.
///
/// Two hosts declare the same server correctly when their entries normalize to equal
/// values, which is what makes a dialect-agnostic parity check possible.
#[derive(Debug, Clone, PartialEq, Eq)]
pub enum Transport {
    /// A locally spawned process speaking MCP over stdio.
    Stdio {
        /// Executable name.
        command: String,
        /// Arguments, in order.
        args: Vec<String>,
        /// Environment overrides. Sorted by key, so comparison is spelling-independent.
        env: StringMap,
    },
    /// A remote endpoint spoken to over HTTP.
    Http {
        /// Endpoint URL.
        url: String,
        /// Request headers.
        headers: StringMap,
    },
}

/// The content of a `Transport`: texts, lists of texts and maps of texts.
pub enum TransportView {
    Stdio { command: Seq<char>, args: Seq<Seq<char>>, env: Map<Seq<char>, Seq<char>> },
    Http { url: Seq<char>, headers: Map<Seq<char>, Seq<char>> },
}

/// The texts of a list of strings.
pub open spec fn texts(v: Seq<String>) -> Seq<Seq<char>> {
    v.map_values(|s: String| s@)
}

impl View for Transport {
    type V = TransportView;

    open spec fn view(&self) -> TransportView {
        match self {
            Transport::Stdio { command, args, env } => TransportView::Stdio {
                command: command@,
                args: texts(args@),
                env: env@,
            },
            Transport::Http { url, headers } => TransportView::Http { url: url@, headers: headers@ },
        }
    }
}

impl Transport {
    /// The maps a transport holds are sorted by key.
    pub open spec fn wf(self) -> bool {
        match self {
            Transport::Stdio { env, .. } => env.wf(),
            Transport::Http { headers, .. } => headers.wf(),
        }
    }
}

/// `"  [<label>: k1, k2]"` for a non-empty list of keys, nothing for an empty one.
pub open spec fn key_note(label: Seq<char>, keys: Seq<Seq<char>>) -> Seq<char> {
    if keys.len() == 0 {
        Seq::empty()
    } else {
        label + join(keys, ", "@) + "]"@
    }
}

/// The short rendering of a transport: the command line followed by the names of
/// its environment variables, or the URL followed by the names of its headers.
pub open spec fn spec_summary(t: Transport) -> Seq<char> {
    match t {
        Transport::Stdio { command, args, env } => command@ + space_prefixed(texts(args@))
            + key_note("  [env: "@, env.keys()),
        Transport::Http { url, headers } => url@ + key_note("  [headers: "@, headers.keys()),
    }
}

/// Appends `label`, the keys of `m` separated by `, `, and `]`; nothing when `m` is empty.
fn append_key_note(out: &mut String, label: &str, m: &StringMap)
    ensures
        final(out)@ == old(out)@ + key_note(label@, m.keys()),
{
    let n = m.len();
    if n == 0 {
        assert(old(out)@ + key_note(label@, m.keys()) =~= old(out)@);
        return;
    }
    out.append(label);
    out.append(m.key_at(0));
    let mut i: usize = 1;
    assert(m.keys().take(1) =~= seq![m.keys()[0]]);
    while i < n
        invariant
            n == m.keys().len(),
            1 <= i <= n,
            out@ == old(out)@ + label@ + join(m.keys().take(i as int), ", "@),
        decreases n - i,
    {
        out.append(", ");
        out.append(m.key_at(i));
        assert(m.keys().take(i + 1).drop_last() =~= m.keys().take(i as int));
        i = i + 1;
    }
    out.append("]");
    assert(m.keys().take(n as int) =~= m.keys());
}

impl Transport {
    /// Short human-readable rendering, for drift reports.
    pub fn summary(&self) -> (s: String)
        ensures
            s@ == spec_summary(*self),
            match *self {
                Transport::Stdio { command, args, env } => {
                    &&& shows_command_line(
                        s@,
                        command@,
                        texts(args@),
                        key_note("  [env: "@, env.keys()),
                    )
                    &&& notes_keys(key_note("  [env: "@, env.keys()), "  [env: "@, env.keys())
                },
                Transport::Http { url, headers } => {
                    &&& s@.take(url@.len() as int) == url@
                    &&& notes_keys(s@.skip(url@.len() as int), "  [headers: "@, headers.keys())
                },
            },
    {
        proof {
            match self {
                Transport::Stdio { env, .. } => {
                    lemma_summary_shows_command_line(*self);
                    let env = *env;
                    lemma_key_note_lists_keys("  [env: "@, env.keys());
                },
                Transport::Http { url, headers } => {
                    let url = *url;
                    let headers = *headers;
                    lemma_key_note_lists_keys("  [headers: "@, headers.keys());
                    assert(spec_summary(*self).skip(url@.len() as int) =~= key_note(
                        "  [headers: "@,
                        headers.keys(),
                    ));
                },
            }
        }
        match self {
            Transport::Stdio { command, args, env } => {
                let mut out = command.clone();
                let mut i: usize = 0;
                while i < args.len()
                    invariant
                        i <= args@.len(),
                        out@ == command@ + space_prefixed(texts(args@).take(i as int)),
                    decreases args.len() - i,
                {
                    out.append(" ");
                    out.append(args[i].as_str());
                    assert(texts(args@).take(i + 1).drop_last() =~= texts(args@).take(i as int));
                    i = i + 1;
                }
                assert(texts(args@).take(args@.len() as int) =~= texts(args@));
                append_key_note(&mut out, "  [env: ", env);
                out
            },
            Transport::Http { url, headers } => {
                let mut out = url.clone();
                append_key_note(&mut out, "  [headers: ", headers);
                out
            },
        }
    }
}

/// A host's declared servers, in file order.
#[derive(Debug, Clone)]
pub struct Servers {
    /// Server name and normalized invocation, in the order the file declares them.
    pub entries: Vec<(String, Transport)>,
}

/// The transport of the first entry named `name`.
pub open spec fn first_named(entries: Seq<(String, Transport)>, name: Seq<char>) -> Option<Transport>
    decreases entries.len(),
{
    if entries.len() == 0 {
        None
    } else if entries[0].0@ == name {
        Some(entries[0].1)
    } else {
        first_named(entries.drop_first(), name)
    }
}

impl Servers {
    /// The declared names, in file order.
    pub open spec fn spec_names(self) -> Seq<Seq<char>> {
        self.entries@.map_values(|e: (String, Transport)| e.0@)
    }

    /// Looks up one server by name.
    pub fn get(&self, name: &str) -> (found: Option<&Transport>)
        ensures
            match found {
                Some(t) => first_named(self.entries@, name@) == Some(*t),
                None => first_named(self.entries@, name@) is None,
            },
            found matches Some(t) ==> exists|i: int|
                0 <= i < self.entries@.len() && self.entries@[i].0@ == name@
                    && self.entries@[i].1 == *t && forall|j: int|
                    0 <= j < i ==> #[trigger] self.entries@[j].0@ != name@,
            found is None ==> forall|i: int|
                0 <= i < self.entries@.len() ==> #[trigger] self.entries@[i].0@ != name@,
    {
        let mut i: usize = 0;
        assert(self.entries@.skip(0) =~= self.entries@);
        while i < self.entries.len()
            invariant
                i <= self.entries@.len(),
                first_named(self.entries@, name@) == first_named(self.entries@.skip(i as int), name@),
            decreases self.entries.len() - i,
        {
            assert(self.entries@.skip(i as int)[0] == self.entries@[i as int]);
            if text_eq(self.entries[i].0.as_str(), name) {
                proof {
                    lemma_first_named_is_first(self.entries@, name@);
                }
                return Some(&self.entries[i].1);
            }
            assert(self.entries@.skip(i as int).drop_first() =~= self.entries@.skip(i + 1));
            i = i + 1;
        }
        proof {
            lemma_first_named_is_first(self.entries@, name@);
        }
        None
    }

    /// Every declared server name, in file order.
    pub fn names(&self) -> (names: Vec<&str>)
        ensures
            names@.len() == self.entries@.len(),
            forall|i: int| 0 <= i < names@.len() ==> #[trigger] names@[i]@ == self.spec_names()[i],
    {
        let mut names: Vec<&str> = Vec::new();
        let mut i: usize = 0;
        while i < self.entries.len()
            invariant
                i <= self.entries@.len(),
                names@.len() == i,
                forall|j: int| 0 <= j < i ==> #[trigger] names@[j]@ == self.spec_names()[j],
            decreases self.entries.len() - i,
        {
            names.push(self.entries[i].0.as_str());
            i = i + 1;
        }
        names
    }
}

proof fn lemma_first_named(entries: Seq<(String, Transport)>, name: Seq<char>)
    ensures
        first_named(entries, name) is Some <==> exists|i: int|
            0 <= i < entries.len() && entries[i].0@ == name,
        first_named(entries, name) matches Some(t) ==> exists|i: int|
            0 <= i < entries.len() && entries[i].0@ == name && entries[i].1 == t,
    decreases entries.len(),
{
    if entries.len() > 0 {
        let rest = entries.drop_first();
        lemma_first_named(rest, name);
        if entries[0].0@ != name {
            if exists|i: int| 0 <= i < entries.len() && entries[i].0@ == name {
                let i = choose|i: int| 0 <= i < entries.len() && entries[i].0@ == name;
                assert(rest[i - 1] == entries[i]);
            }
            if first_named(rest, name) is Some {
                let i = choose|i: int| 0 <= i < rest.len() && rest[i].0@ == name && rest[i].1 == first_named(rest, name)->0;
                assert(entries[i + 1] == rest[i]);
            }
        }
    }
}

/// What `first_named` finds is the earliest entry with that name, and it finds
/// nothing only when no entry has that name.
proof fn lemma_first_named_is_first(entries: Seq<(String, Transport)>, name: Seq<char>)
    ensures
        first_named(entries, name) matches Some(t) ==> exists|i: int|
            0 <= i < entries.len() && entries[i].0@ == name && entries[i].1 == t && forall|j: int|
                0 <= j < i ==> #[trigger] entries[j].0@ != name,
        first_named(entries, name) is None ==> forall|i: int|
            0 <= i < entries.len() ==> #[trigger] entries[i].0@ != name,
    decreases entries.len(),
{
    if entries.len() > 0 {
        let rest = entries.drop_first();
        lemma_first_named_is_first(rest, name);
        if entries[0].0@ != name {
            if first_named(rest, name) is Some {
                let t = first_named(rest, name)->0;
                let i = choose|i: int|
                    0 <= i < rest.len() && rest[i].0@ == name && rest[i].1 == t && forall|j: int|
                        0 <= j < i ==> #[trigger] rest[j].0@ != name;
                assert(entries[i + 1] == rest[i]);
                assert forall|j: int| 0 <= j < i + 1 implies #[trigger] entries[j].0@ != name by {
                    if j > 0 {
                        assert(entries[j] == rest[j - 1]);
                    }
                }
            } else {
                assert forall|i: int| 0 <= i < entries.len() implies #[trigger] entries[i].0@ != name by {
                    if i > 0 {
                        assert(entries[i] == rest[i - 1]);
                    }
                }
            }
        }
    }
}

/// `get` finds a server exactly when `names` lists its name, and what it finds is
/// the transport declared under that name.
pub proof fn lemma_get_agrees_with_names(servers: Servers, name: Seq<char>)
    ensures
        first_named(servers.entries@, name) is Some <==> servers.spec_names().contains(name),
        first_named(servers.entries@, name) matches Some(t) ==> exists|i: int|
            0 <= i < servers.entries@.len() && servers.spec_names()[i] == name
                && servers.entries@[i].1 == t,
{
    lemma_first_named(servers.entries@, name);
    if servers.spec_names().contains(name) {
        let i = choose|i: int| 0 <= i < servers.spec_names().len() && servers.spec_names()[i] == name;
        assert(servers.entries@[i].0@ == name);
    }
    if exists|i: int| 0 <= i < servers.entries@.len() && servers.entries@[i].0@ == name {
        let i = choose|i: int| 0 <= i < servers.entries@.len() && servers.entries@[i].0@ == name;
        assert(servers.spec_names()[i] == name);
    }
    if first_named(servers.entries@, name) is Some {
        let t = first_named(servers.entries@, name)->0;
        let i = choose|i: int|
            0 <= i < servers.entries@.len() && servers.entries@[i].0@ == name
                && servers.entries@[i].1 == t;
        assert(servers.spec_names()[i] == name);
    }
}

/// How forgiving a parse should be.
#[derive(Debug, Clone, Copy, PartialEq, Eq, Structural)]
pub enum Strictness {
    /// Hold `.json` to the JSON grammar. Correct for tracked templates, which must be
    /// copyable verbatim into a host that may only accept strict JSON.
    Strict,
    /// Accept comments and trailing commas even in a `.json` file. Correct for live
    /// configs: a real VS Code `mcp.json` may carry trailing commas.
    Lenient,
}

/// The grammar a config file is read with.
#[derive(Debug, Clone, Copy, PartialEq, Eq, Structural)]
pub enum Syntax {
    /// Strict JSON.
    Json,
    /// JSON with comments and trailing commas.
    Jsonc,
    /// TOML.
    Toml,
    /// YAML.
    Yaml,
}

/// The grammar for a format at a strictness: `.json` is strict JSON only when the
/// parse is strict; otherwise JSON and JSONC files are both read as JSONC.
pub open spec fn spec_syntax_for(format: Format, strictness: Strictness) -> Syntax {
    match format {
        Format::Json => if strictness == Strictness::Strict {
            Syntax::Json
        } else {
            Syntax::Jsonc
        },
        Format::Jsonc => Syntax::Jsonc,
        Format::Toml => Syntax::Toml,
        Format::Yaml => Syntax::Yaml,
    }
}

/// Chooses the grammar that `parse` reads a file of `format` with.
pub fn syntax_for(format: Format, strictness: Strictness) -> (syntax: Syntax)
    ensures
        syntax == spec_syntax_for(format, strictness),
{
    match format {
        Format::Json => {
            if strictness == Strictness::Strict {
                Syntax::Json
            } else {
                Syntax::Jsonc
            }
        },
        Format::Jsonc => Syntax::Jsonc,
        Format::Toml => Syntax::Toml,
        Format::Yaml => Syntax::Yaml,
    }
}

/// Why an optional array of strings could not be read.
#[derive(Debug, Clone, Copy, PartialEq, Eq, Structural)]
pub enum ListError {
    /// The value is not an array ("expected an array of strings").
    NotArray,
    /// An element is not a string ("array contains a non-string element").
    NonString,
}

/// Why an optional string-to-string map could not be read.
#[derive(Debug, PartialEq, Eq)]
pub enum MapError {
    /// The value is not an object ("expected an object").
    NotObject,
    /// The value under `key` is null, an array or an object; the value is kept.
    NonScalar { key: String, value: Doc },
}

/// Why one server entry could not be normalized.
#[derive(Debug, PartialEq, Eq)]
pub enum EntryError {
    /// The entry is not an object.
    NotObject,
    /// Headers must be a string-to-string map.
    Headers(MapError),
    /// The environment must be a string-to-string map.
    Environment(MapError),
    /// Neither the URL key nor the command key holds a string.
    MissingCommand { url_field: &'static str, command_key: &'static str },
    /// The arguments, or a joined command, are not an array of strings.
    List(ListError),
    /// A joined `command` array is empty.
    EmptyCommand,
}

/// Why a document's server map could not be read.
#[derive(Debug, PartialEq, Eq)]
pub enum ServersError {
    /// The document has no block under the host's wrapper key.
    MissingBlock(&'static str),
    /// The server block is not an object.
    BlockNotObject,
    /// The server named `name` could not be normalized.
    Server { name: String, error: EntryError },
}

/// The content of a `MapError`.
pub enum MapErrorView {
    NotObject,
    NonScalar { key: Seq<char>, value: DocView },
}

/// The content of an `EntryError`.
pub enum EntryErrorView {
    NotObject,
    Headers(MapErrorView),
    Environment(MapErrorView),
    MissingCommand { url_field: Seq<char>, command_key: Seq<char> },
    List(ListError),
    EmptyCommand,
}

/// The content of a `ServersError`.
pub enum ServersErrorView {
    MissingBlock(Seq<char>),
    BlockNotObject,
    Server { name: Seq<char>, error: EntryErrorView },
}

impl View for MapError {
    type V = MapErrorView;

    open spec fn view(&self) -> MapErrorView {
        match self {
            MapError::NotObject => MapErrorView::NotObject,
            MapError::NonScalar { key, value } => MapErrorView::NonScalar {
                key: key@,
                value: doc_view(*value),
            },
        }
    }
}

impl View for EntryError {
    type V = EntryErrorView;

    open spec fn view(&self) -> EntryErrorView {
        match self {
            EntryError::NotObject => EntryErrorView::NotObject,
            EntryError::Headers(e) => EntryErrorView::Headers(e@),
            EntryError::Environment(e) => EntryErrorView::Environment(e@),
            EntryError::MissingCommand { url_field, command_key } => EntryErrorView::MissingCommand {
                url_field: url_field@,
                command_key: command_key@,
            },
            EntryError::List(e) => EntryErrorView::List(*e),
            EntryError::EmptyCommand => EntryErrorView::EmptyCommand,
        }
    }
}

impl View for ServersError {
    type V = ServersErrorView;

    open spec fn view(&self) -> ServersErrorView {
        match self {
            ServersError::MissingBlock(k) => ServersErrorView::MissingBlock(k@),
            ServersError::BlockNotObject => ServersErrorView::BlockNotObject,
            ServersError::Server { name, error } => ServersErrorView::Server {
                name: name@,
                error: error@,
            },
        }
    }
}

/// The text of a string value; empty for anything else.
pub open spec fn string_text(v: Doc) -> Seq<char> {
    match v {
        Doc::String(s) => s@,
        _ => Seq::empty(),
    }
}

/// The texts of the string elements of a sequence.
pub open spec fn string_texts(items: Seq<Doc>) -> Seq<Seq<char>> {
    items.map_values(|x: Doc| string_text(x))
}

/// Every element is a string.
pub open spec fn all_strings(items: Seq<Doc>) -> bool {
    forall|i: int| 0 <= i < items.len() ==> #[trigger] items[i] is String
}

/// An optional array of strings read as a list; a missing value is the empty list.
pub open spec fn spec_string_list(v: Option<Doc>) -> Result<Seq<Seq<char>>, ListError> {
    match v {
        None => Ok(Seq::empty()),
        Some(Doc::Array(items)) => if all_strings(items@) {
            Ok(string_texts(items@))
        } else {
            Err(ListError::NonString)
        },
        Some(_) => Err(ListError::NotArray),
    }
}

/// Object members read as a map of texts, member by member in declaration order:
/// the first member that is not a scalar is the error.
pub open spec fn scalar_members(entries: Seq<(String, Doc)>) -> Result<
    Map<Seq<char>, Seq<char>>,
    MapErrorView,
>
    decreases entries.len(),
{
    if entries.len() == 0 {
        Ok(Map::empty())
    } else {
        match scalar_members(entries.drop_last()) {
            Err(e) => Err(e),
            Ok(m) => match scalar_text(entries.last().1) {
                Some(t) => Ok(m.insert(entries.last().0@, t)),
                None => Err(
                    MapErrorView::NonScalar {
                        key: entries.last().0@,
                        value: doc_view(entries.last().1),
                    },
                ),
            },
        }
    }
}

/// Once a prefix of the members fails, the whole object fails the same way.
proof fn lemma_scalar_members_error_persists(entries: Seq<(String, Doc)>, n: int)
    requires
        0 <= n <= entries.len(),
        scalar_members(entries.take(n)) is Err,
    ensures
        scalar_members(entries) == scalar_members(entries.take(n)),
    decreases entries.len() - n,
{
    if n == entries.len() {
        assert(entries.take(n) =~= entries);
    } else {
        let longer = entries.take(n + 1);
        assert(longer.drop_last() =~= entries.take(n));
        assert(longer.take(n + 1) =~= longer);
        lemma_scalar_members_error_persists(entries, n + 1);
    }
}

/// An optional object read as a string-to-string map; a missing value is the empty
/// map. Numbers and booleans are accepted and stand for their text.
pub open spec fn spec_string_map(v: Option<Doc>) -> Result<Map<Seq<char>, Seq<char>>, MapErrorView> {
    match v {
        None => Ok(Map::empty()),
        Some(Doc::Object(entries)) => scalar_members(entries@),
        Some(_) => Err(MapErrorView::NotObject),
    }
}

/// Reads an optional array of strings, defaulting to empty.
pub fn string_list(value: Option<&Doc>) -> (r: Result<Vec<String>, ListError>)
    ensures
        match r {
            Ok(list) => spec_string_list(opt_doc(value)) == Ok::<_, ListError>(texts(list@)),
            Err(e) => spec_string_list(opt_doc(value)) == Err::<Seq<Seq<char>>, _>(e),
        },
{
    let v = match value {
        None => {
            let empty: Vec<String> = Vec::new();
            assert(texts(empty@) =~= Seq::<Seq<char>>::empty());
            return Ok(empty);
        },
        Some(v) => v,
    };
    let items = match v.as_array() {
        Some(items) => items,
        None => return Err(ListError::NotArray),
    };
    let mut out: Vec<String> = Vec::new();
    let mut i: usize = 0;
    while i < items.len()
        invariant
            opt_doc(value) == Some(Doc::Array(*items)),
            i <= items@.len(),
            out@.len() == i,
            forall|j: int| 0 <= j < i ==> #[trigger] items@[j] is String,
            forall|j: int| 0 <= j < i ==> #[trigger] out@[j]@ == string_text(items@[j]),
        decreases items.len() - i,
    {
        match items[i].as_str() {
            Some(s) => {
                out.push(s.to_owned());
            },
            None => {
                return Err(ListError::NonString);
            },
        }
        i = i + 1;
    }
    assert(texts(out@) =~= string_texts(items@));
    Ok(out)
}

/// Reads an optional string-to-string map, defaulting to empty.
///
/// Numbers and booleans are accepted and stringified: TOML and YAML round-trip
/// `NO_COLOR = "1"` inconsistently across hosts, and treating that as a type error
/// would report drift that does not exist.
pub fn string_map(value: Option<&Doc>) -> (r: Result<StringMap, MapError>)
    ensures
        match r {
            Ok(m) => m.wf() && spec_string_map(opt_doc(value)) == Ok::<_, MapErrorView>(m@),
            Err(e) => spec_string_map(opt_doc(value)) == Err::<Map<Seq<char>, Seq<char>>, _>(e@),
        },
{
    let v = match value {
        None => return Ok(StringMap::new()),
        Some(v) => v,
    };
    let entries = match v.as_object() {
        Some(entries) => entries,
        None => return Err(MapError::NotObject),
    };
    let mut out = StringMap::new();
    let mut i: usize = 0;
    assert(entries@.take(0) =~= Seq::<(String, Doc)>::empty());
    while i < entries.len()
        invariant
            opt_doc(value) == Some(Doc::Object(*entries)),
            i <= entries@.len(),
            out.wf(),
            scalar_members(entries@.take(i as int)) == Ok::<_, MapErrorView>(out@),
        decreases entries.len() - i,
    {
        let ghost prefix = entries@.take(i + 1);
        assert(prefix.drop_last() =~= entries@.take(i as int));
        assert(prefix.last() == entries@[i as int]);
        match entries[i].1.scalar_text() {
            Some(text) => {
                out.insert(entries[i].0.clone(), text);
            },
            None => {
                proof {
                    lemma_scalar_members_error_persists(entries@, i + 1);
                }
                return Err(
                    MapError::NonScalar {
                        key: entries[i].0.clone(),
                        value: entries[i].1.duplicate(),
                    },
                );
            },
        }
        i = i + 1;
    }
    assert(entries@.take(entries@.len() as int) =~= entries@);
    Ok(out)
}

/// The text of the member named `key`, when that member is a string.
pub open spec fn string_field(entries: Seq<(String, Doc)>, key: Seq<char>) -> Option<Seq<char>> {
    match member(entries, key) {
        Some(Doc::String(s)) => Some(s@),
        _ => None,
    }
}

/// A server entry in a host's dialect, normalized.
///
/// An entry whose URL key holds a string is a remote server, whatever else it holds;
/// otherwise it is a stdio server whose command line is spelled the host's way.
pub open spec fn spec_normalize(raw: Doc, host: Host) -> Result<TransportView, EntryErrorView> {
    match raw {
        Doc::Object(es) => {
            let entries = es@;
            match string_field(entries, host.url_field@) {
                Some(url) => match spec_string_map(member(entries, host.headers_field@)) {
                    Ok(headers) => Ok(TransportView::Http { url, headers }),
                    Err(e) => Err(EntryErrorView::Headers(e)),
                },
                None => match spec_string_map(member(entries, host.env_field@)) {
                    Err(e) => Err(EntryErrorView::Environment(e)),
                    Ok(env) => match host.command_shape {
                        CommandShape::Joined => match spec_string_list(member(entries, "command"@)) {
                            Err(e) => Err(EntryErrorView::List(e)),
                            Ok(parts) => if parts.len() == 0 {
                                Err(EntryErrorView::EmptyCommand)
                            } else {
                                Ok(
                                    TransportView::Stdio {
                                        command: parts[0],
                                        args: parts.drop_first(),
                                        env,
                                    },
                                )
                            },
                        },
                        _ => match string_field(entries, spec_command_key(host.command_shape)) {
                            None => Err(
                                EntryErrorView::MissingCommand {
                                    url_field: host.url_field@,
                                    command_key: spec_command_key(host.command_shape),
                                },
                            ),
                            Some(command) => match spec_string_list(member(entries, "args"@)) {
                                Err(e) => Err(EntryErrorView::List(e)),
                                Ok(args) => Ok(TransportView::Stdio { command, args, env }),
                            },
                        },
                    },
                },
            }
        },
        _ => Err(EntryErrorView::NotObject),
    }
}

/// The text of the string that `raw[key]` holds.
fn string_member<'a>(raw: &'a Doc, key: &str) -> (r: Option<&'a str>)
    requires
        raw is Object,
    ensures
        match r {
            Some(s) => string_field(raw->Object_0@, key@) == Some(s@),
            None => string_field(raw->Object_0@, key@) is None,
        },
{
    match raw.get(key) {
        Some(v) => v.as_str(),
        None => None,
    }
}

/// Converts one host-dialect server entry into its dialect-agnostic form.
pub fn normalize(raw: &Doc, host: &Host) -> (r: Result<Transport, EntryError>)
    ensures
        match r {
            Ok(t) => t.wf() && spec_normalize(*raw, *host) == Ok::<_, EntryErrorView>(t@),
            Err(e) => spec_normalize(*raw, *host) == Err::<TransportView, _>(e@),
        },
{
    if raw.as_object().is_none() {
        return Err(EntryError::NotObject);
    }
    if let Some(url) = string_member(raw, host.url_field) {
        return match string_map(raw.get(host.headers_field)) {
            Ok(headers) => Ok(Transport::Http { url: url.to_owned(), headers }),
            Err(e) => Err(EntryError::Headers(e)),
        };
    }
    let env = match string_map(raw.get(host.env_field)) {
        Ok(env) => env,
        Err(e) => return Err(EntryError::Environment(e)),
    };
    match host.command_shape {
        CommandShape::Split | CommandShape::Cmd => {
            let key = host.command_shape.command_key();
            let command = match string_member(raw, key) {
                Some(c) => c.to_owned(),
                None => {
                    return Err(
                        EntryError::MissingCommand { url_field: host.url_field, command_key: key },
                    )
                },
            };
            match string_list(raw.get("args")) {
                Ok(args) => Ok(Transport::Stdio { command, args, env }),
                Err(e) => Err(EntryError::List(e)),
            }
        },
        CommandShape::Joined => {
            let mut parts = match string_list(raw.get("command")) {
                Ok(parts) => parts,
                Err(e) => return Err(EntryError::List(e)),
            };
            if parts.len() == 0 {
                return Err(EntryError::EmptyCommand);
            }
            let ghost all = texts(parts@);
            let command = parts.remove(0);
            assert(texts(parts@) =~= all.drop_first());
            Ok(Transport::Stdio { command, args: parts, env })
        },
    }
}

/// Keys that sit beside the servers without being one: opencode carries `$schema`
/// and Gemini carries `_comment`.
pub open spec fn is_reserved_name(name: Seq<char>) -> bool {
    name.len() > 0 && (name[0] == '$' || name[0] == '_')
}

/// The servers of a block, member by member in declaration order: reserved keys
/// are skipped, and the first member that does not normalize is the error.
pub open spec fn collect_servers(entries: Seq<(String, Doc)>, host: Host) -> Result<
    Seq<(Seq<char>, TransportView)>,
    ServersErrorView,
>
    decreases entries.len(),
{
    if entries.len() == 0 {
        Ok(Seq::empty())
    } else {
        match collect_servers(entries.drop_last(), host) {
            Err(e) => Err(e),
            Ok(found) => {
                let name = entries.last().0@;
                if is_reserved_name(name) {
                    Ok(found)
                } else {
                    match spec_normalize(entries.last().1, host) {
                        Ok(t) => Ok(found.push((name, t))),
                        Err(e) => Err(ServersErrorView::Server { name, error: e }),
                    }
                }
            },
        }
    }
}

/// The block of a document that holds the servers: the member under the host's
/// wrapper key, or the whole document for a host without one.
pub open spec fn server_block(root: Doc, host: Host) -> Option<Doc> {
    match host.wrapper {
        Some(key) => match root {
            Doc::Object(es) => member(es@, key@),
            _ => None,
        },
        None => Some(root),
    }
}

/// The servers a document declares in a host's dialect.
pub open spec fn spec_servers_from_value(root: Doc, host: Host) -> Result<
    Seq<(Seq<char>, TransportView)>,
    ServersErrorView,
> {
    match server_block(root, host) {
        None => Err(ServersErrorView::MissingBlock(host.wrapper.unwrap()@)),
        Some(Doc::Object(es)) => collect_servers(es@, host),
        Some(_) => Err(ServersErrorView::BlockNotObject),
    }
}

impl Servers {
    /// The content of the servers: each name with its transport.
    pub open spec fn spec_entries(self) -> Seq<(Seq<char>, TransportView)> {
        self.entries@.map_values(|e: (String, Transport)| (e.0@, e.1@))
    }

    /// Every transport's maps are sorted by key.
    pub open spec fn wf(self) -> bool {
        forall|i: int| 0 <= i < self.entries@.len() ==> (#[trigger] self.entries@[i]).1.wf()
    }
}

/// Once a prefix of the members fails, the whole block fails the same way.
proof fn lemma_collect_servers_error_persists(entries: Seq<(String, Doc)>, host: Host, n: int)
    requires
        0 <= n <= entries.len(),
        collect_servers(entries.take(n), host) is Err,
    ensures
        collect_servers(entries, host) == collect_servers(entries.take(n), host),
    decreases entries.len() - n,
{
    if n == entries.len() {
        assert(entries.take(n) =~= entries);
    } else {
        let longer = entries.take(n + 1);
        assert(longer.drop_last() =~= entries.take(n));
        assert(longer.take(n + 1) =~= longer);
        lemma_collect_servers_error_persists(entries, host, n + 1);
    }
}

/// Extracts and normalizes the server map out of an already-parsed document.
pub fn servers_from_value(root: &Doc, host: &Host) -> (r: Result<Servers, ServersError>)
    ensures
        match r {
            Ok(servers) => servers.wf() && spec_servers_from_value(*root, *host) == Ok::<
                _,
                ServersErrorView,
            >(servers.spec_entries()),
            Err(e) => spec_servers_from_value(*root, *host) == Err::<
                Seq<(Seq<char>, TransportView)>,
                _,
            >(e@),
        },
        r matches Ok(servers) ==> (server_block(*root, *host) matches Some(Doc::Object(es))
            && servers.spec_names() == server_names(es@)),
{
    let block: &Doc = match host.wrapper {
        Some(key) => match root.get(key) {
            Some(b) => b,
            None => return Err(ServersError::MissingBlock(key)),
        },
        None => root,
    };
    let members = match block.as_object() {
        Some(members) => members,
        None => return Err(ServersError::BlockNotObject),
    };
    let mut entries: Vec<(String, Transport)> = Vec::new();
    let mut i: usize = 0;
    assert(members@.take(0) =~= Seq::<(String, Doc)>::empty());
    assert(entries@.map_values(|e: (String, Transport)| (e.0@, e.1@)) =~= Seq::<
        (Seq<char>, TransportView),
    >::empty());
    while i < members.len()
        invariant
            spec_servers_from_value(*root, *host) == collect_servers(members@, *host),
            i <= members@.len(),
            forall|j: int| 0 <= j < entries@.len() ==> (#[trigger] entries@[j]).1.wf(),
            collect_servers(members@.take(i as int), *host) == Ok::<_, ServersErrorView>(
                entries@.map_values(|e: (String, Transport)| (e.0@, e.1@)),
            ),
        decreases members.len() - i,
    {
        let ghost prefix = members@.take(i + 1);
        assert(prefix.drop_last() =~= members@.take(i as int));
        assert(prefix.last() == members@[i as int]);
        let name = &members[i].0;
        if !(starts_with_char(name.as_str(), '$') || starts_with_char(name.as_str(), '_')) {
            match normalize(&members[i].1, host) {
                Ok(transport) => {
                    let ghost before = entries@;
                    entries.push((name.clone(), transport));
                    assert(entries@.map_values(|e: (String, Transport)| (e.0@, e.1@)) =~= before.map_values(
                        |e: (String, Transport)| (e.0@, e.1@),
                    ).push((name@, transport@)));
                },
                Err(error) => {
                    proof {
                        lemma_collect_servers_error_persists(members@, *host, i + 1);
                    }
                    return Err(ServersError::Server { name: name.clone(), error });
                },
            }
        }
        i = i + 1;
    }
    assert(members@.take(members@.len() as int) =~= members@);
    let servers = Servers { entries };
    proof {
        lemma_servers_in_file_order(*root, *host);
        assert(servers.spec_entries().map_values(|p: (Seq<char>, TransportView)| p.0)
            =~= servers.spec_names());
    }
    Ok(servers)
}

/// The keys of a server block that name servers: every key whose first character
/// is neither `$` nor `_`, in declaration order.
pub open spec fn server_names(entries: Seq<(String, Doc)>) -> Seq<Seq<char>> {
    entries.map_values(|e: (String, Doc)| e.0@).filter(
        |n: Seq<char>| !(n.len() > 0 && (n[0] == '$' || n[0] == '_')),
    )
}

proof fn lemma_collected_names(entries: Seq<(String, Doc)>, host: Host)
    requires
        collect_servers(entries, host) is Ok,
    ensures
        collect_servers(entries, host)->Ok_0.map_values(|p: (Seq<char>, TransportView)| p.0)
            == server_names(entries),
    decreases entries.len(),
{
    reveal(Seq::filter);
    let names = entries.map_values(|e: (String, Doc)| e.0@);
    if entries.len() == 0 {
        assert(server_names(entries) =~= Seq::<Seq<char>>::empty());
        assert(collect_servers(entries, host)->Ok_0.map_values(|p: (Seq<char>, TransportView)| p.0)
            =~= Seq::<Seq<char>>::empty());
    } else {
        let front = entries.drop_last();
        lemma_collected_names(front, host);
        assert(names.drop_last() =~= front.map_values(|e: (String, Doc)| e.0@));
        let found = collect_servers(front, host)->Ok_0;
        if !is_reserved_name(entries.last().0@) {
            let t = spec_normalize(entries.last().1, host)->Ok_0;
            assert(found.push((entries.last().0@, t)).map_values(|p: (Seq<char>, TransportView)| p.0)
                =~= found.map_values(|p: (Seq<char>, TransportView)| p.0).push(entries.last().0@));
        }
    }
}

/// A document's servers are the members of its server block minus the reserved
/// keys (`$schema`, `_comment`), named in the order the file declares them.
pub proof fn lemma_servers_in_file_order(root: Doc, host: Host)
    requires
        spec_servers_from_value(root, host) is Ok,
    ensures
        server_block(root, host) matches Some(Doc::Object(es)) && spec_servers_from_value(
            root,
            host,
        )->Ok_0.map_values(|p: (Seq<char>, TransportView)| p.0) == server_names(es@),
{
    match server_block(root, host) {
        Some(Doc::Object(es)) => {
            lemma_collected_names(es@, host);
        },
        _ => {},
    }
}

/// With distinct keys and only scalars, the members read as the map that sends each
/// key to the text of its value.
proof fn lemma_scalar_members_contents(entries: Seq<(String, Doc)>)
    requires
        distinct_keys(entries),
        scalar_members(entries) is Ok,
    ensures
        forall|k: Seq<char>| #[trigger]
            scalar_members(entries)->Ok_0.contains_key(k) <==> member(entries, k) is Some,
        forall|k: Seq<char>| #[trigger] member(entries, k) is Some ==> scalar_text(
            member(entries, k)->0,
        ) == Some(scalar_members(entries)->Ok_0[k]),
    decreases entries.len(),
{
    if entries.len() > 0 {
        let front = entries.drop_last();
        let x = entries.last();
        assert(distinct_keys(front)) by {
            assert forall|i: int, j: int| 0 <= i < j < front.len() implies #[trigger] front[i].0@
                != #[trigger] front[j].0@ by {
                assert(front[i] == entries[i] && front[j] == entries[j]);
            }
        }
        lemma_scalar_members_contents(front);
        assert(entries =~= front.push(x));
        assert(member(front, x.0@) is None) by {
            crate::doc::lemma_member_exists(front, x.0@);
            if member(front, x.0@) is Some {
                let i = choose|i: int| 0 <= i < front.len() && front[i].0@ == x.0@;
                assert(entries[i].0@ != entries[entries.len() - 1].0@);
            }
        }
        assert forall|k: Seq<char>| true implies #[trigger] member(entries, k) == (if member(
            front,
            k,
        ) is Some {
            member(front, k)
        } else if x.0@ == k {
            Some(x.1)
        } else {
            None
        }) by {
            lemma_member_push(front, x, k);
        }
    }
}

/// Members that are all scalars read without error.
proof fn lemma_scalar_members_ok_when_scalar(entries: Seq<(String, Doc)>)
    requires
        forall|j: int| 0 <= j < entries.len() ==> scalar_text(#[trigger] entries[j].1) is Some,
    ensures
        scalar_members(entries) is Ok,
    decreases entries.len(),
{
    if entries.len() > 0 {
        let front = entries.drop_last();
        assert forall|j: int| 0 <= j < front.len() implies scalar_text(#[trigger] front[j].1) is Some by {
            assert(front[j] == entries[j]);
        }
        lemma_scalar_members_ok_when_scalar(front);
        assert(scalar_text(entries[entries.len() - 1].1) is Some);
    }
}

/// Member order does not matter: two objects with distinct keys whose members carry
/// the same scalar text under each key read as the same map.
pub proof fn lemma_string_map_order_independent(a: Seq<(String, Doc)>, b: Seq<(String, Doc)>)
    requires
        distinct_keys(a),
        distinct_keys(b),
        scalar_members(a) is Ok,
        forall|k: Seq<char>| #[trigger] member(a, k) is Some <==> member(b, k) is Some,
        forall|k: Seq<char>|
            #[trigger] member(a, k) is Some ==> scalar_text(member(a, k)->0) == scalar_text(
                member(b, k)->0,
            ),
    ensures
        scalar_members(a) == scalar_members(b),
{
    lemma_scalar_members_contents(a);
    assert(scalar_members(b) is Ok) by {
        assert forall|j: int| 0 <= j < b.len() implies scalar_text(#[trigger] b[j].1) is Some by {
            lemma_member_at(b, j);
            assert(member(a, b[j].0@) is Some);
        }
        lemma_scalar_members_ok_when_scalar(b);
    }
    lemma_scalar_members_contents(b);
    assert(scalar_members(a)->Ok_0 =~= scalar_members(b)->Ok_0);
}

/// A summary depends only on what a transport holds: two transports with the same
/// contents summarize identically, however their maps were filled in.
pub proof fn lemma_summary_depends_on_contents(a: Transport, b: Transport)
    requires
        a.wf(),
        b.wf(),
        a@ == b@,
    ensures
        spec_summary(a) == spec_summary(b),
{
    match (a, b) {
        (
            Transport::Stdio { command: c1, args: a1, env: e1 },
            Transport::Stdio { command: c2, args: a2, env: e2 },
        ) => {
            crate::string_map::lemma_same_contents_same_order(e1, e2);
        },
        (Transport::Http { url: u1, headers: h1 }, Transport::Http { url: u2, headers: h2 }) => {
            crate::string_map::lemma_same_contents_same_order(h1, h2);
        },
        _ => {},
    }
}

/// The document that `text` holds when read with `syntax`, or `None` when it does
/// not parse.
pub open spec fn parsed_document(syntax: Syntax, text: Seq<char>) -> Option<Doc> {
    match syntax {
        Syntax::Json => json_document(text),
        Syntax::Jsonc => jsonc_document(text),
        Syntax::Toml => toml_document(text),
        Syntax::Yaml => yaml_document(text),
    }
}

/// A config file that does not parse: the grammar it was read with, and the
/// parser's own message.
#[derive(Debug, Clone, PartialEq, Eq)]
pub struct ParseError {
    pub syntax: Syntax,
    pub message: String,
}

/// Parses any supported config format into a document, with the grammar that
/// `syntax_for` chooses.
pub fn parse(format: Format, text: &str, strictness: Strictness) -> (r: Result<Doc, ParseError>)
    ensures
        r is Ok <==> parsed_document(spec_syntax_for(format, strictness), text@) is Some,
        r matches Ok(d) ==> parsed_document(spec_syntax_for(format, strictness), text@) == Some(d),
        r matches Err(e) ==> e.syntax == spec_syntax_for(format, strictness),
{
    let syntax = syntax_for(format, strictness);
    let parsed = match syntax {
        Syntax::Json => parse_json(text),
        Syntax::Jsonc => parse_jsonc(text),
        Syntax::Toml => parse_toml(text),
        Syntax::Yaml => parse_yaml(text),
    };
    match parsed {
        Ok(doc) => Ok(doc),
        Err(message) => Err(ParseError { syntax, message }),
    }
}

/// Why a config file's text could not be read as servers.
#[derive(Debug, PartialEq, Eq)]
pub enum LoadError {
    /// The text does not parse.
    Parse(ParseError),
    /// The document does not hold servers in the host's dialect.
    Interpret(ServersError),
}

/// Parses a host's config text and normalizes every server it declares.
pub fn servers_from_text(text: &str, host: &Host, strictness: Strictness) -> (r: Result<
    Servers,
    LoadError,
>)
    ensures
        match r {
            Ok(servers) => servers.wf() && (parsed_document(
                spec_syntax_for(host.format, strictness),
                text@,
            ) matches Some(d) && spec_servers_from_value(d, *host) == Ok::<
                _,
                ServersErrorView,
            >(servers.spec_entries())),
            Err(LoadError::Parse(e)) => e.syntax == spec_syntax_for(host.format, strictness)
                && parsed_document(spec_syntax_for(host.format, strictness), text@) is None,
            Err(LoadError::Interpret(e)) => parsed_document(
                spec_syntax_for(host.format, strictness),
                text@,
            ) matches Some(d) && spec_servers_from_value(d, *host) == Err::<
                Seq<(Seq<char>, TransportView)>,
                _,
            >(e@),
        },
{
    let root = match parse(host.format, text, strictness) {
        Ok(root) => root,
        Err(e) => return Err(LoadError::Parse(e)),
    };
    match servers_from_value(&root, host) {
        Ok(servers) => Ok(servers),
        Err(e) => Err(LoadError::Interpret(e)),
    }
}

/// The transport of the first server named `name` in a list of named transports.
pub open spec fn first_named_view(found: Seq<(Seq<char>, TransportView)>, name: Seq<char>) -> Option<
    TransportView,
>
    decreases found.len(),
{
    if found.len() == 0 {
        None
    } else if found[0].0 == name {
        Some(found[0].1)
    } else {
        first_named_view(found.drop_first(), name)
    }
}

/// The member of a document's server block named `name`.
pub open spec fn block_member(root: Doc, host: Host, name: Seq<char>) -> Option<Doc> {
    match server_block(root, host) {
        Some(Doc::Object(es)) => member(es@, name),
        _ => None,
    }
}

proof fn lemma_first_named_view_push(
    found: Seq<(Seq<char>, TransportView)>,
    p: (Seq<char>, TransportView),
    name: Seq<char>,
)
    ensures
        first_named_view(found.push(p), name) == (if first_named_view(found, name) is Some {
            first_named_view(found, name)
        } else if p.0 == name {
            Some(p.1)
        } else {
            None
        }),
    decreases found.len(),
{
    if found.len() > 0 {
        assert(found.push(p)[0] == found[0]);
        assert(found.push(p).drop_first() =~= found.drop_first().push(p));
        lemma_first_named_view_push(found.drop_first(), p, name);
    } else {
        assert(found.push(p)[0] == p);
        assert(found.push(p).drop_first() =~= Seq::<(Seq<char>, TransportView)>::empty());
        assert(first_named_view(found.push(p).drop_first(), name) is None);
        assert(first_named_view(found, name) is None);
    }
}

/// `first_named` on the stored servers agrees with `first_named_view` on their content.
proof fn lemma_first_named_view_of(entries: Seq<(String, Transport)>, name: Seq<char>)
    ensures
        first_named_view(entries.map_values(|e: (String, Transport)| (e.0@, e.1@)), name) == (
        match first_named(entries, name) {
            Some(t) => Some(t@),
            None => None::<TransportView>,
        }),
    decreases entries.len(),
{
    let vs = entries.map_values(|e: (String, Transport)| (e.0@, e.1@));
    if entries.len() > 0 {
        assert(vs.drop_first() =~= entries.drop_first().map_values(
            |e: (String, Transport)| (e.0@, e.1@),
        ));
        lemma_first_named_view_of(entries.drop_first(), name);
    }
}

/// Only keys of the block can name a collected server.
proof fn lemma_collected_names_are_members(entries: Seq<(String, Doc)>, host: Host, name: Seq<char>)
    requires
        collect_servers(entries, host) is Ok,
        first_named_view(collect_servers(entries, host)->Ok_0, name) is Some,
    ensures
        member(entries, name) is Some,
    decreases entries.len(),
{
    if entries.len() > 0 {
        let front = entries.drop_last();
        let x = entries.last();
        assert(entries =~= front.push(x));
        lemma_member_push(front, x, name);
        let found = collect_servers(front, host)->Ok_0;
        if !is_reserved_name(x.0@) {
            let t = spec_normalize(x.1, host)->Ok_0;
            lemma_first_named_view_push(found, (x.0@, t), name);
        }
        if first_named_view(found, name) is Some {
            lemma_collected_names_are_members(front, host, name);
        }
    }
}

proof fn lemma_collected_member(entries: Seq<(String, Doc)>, host: Host, name: Seq<char>)
    requires
        collect_servers(entries, host) is Ok,
        member(entries, name) is Some,
        !is_reserved_name(name),
    ensures
        spec_normalize(member(entries, name)->0, host) is Ok,
        first_named_view(collect_servers(entries, host)->Ok_0, name) == Some(
            spec_normalize(member(entries, name)->0, host)->Ok_0,
        ),
    decreases entries.len(),
{
    let front = entries.drop_last();
    let x = entries.last();
    assert(entries =~= front.push(x));
    lemma_member_push(front, x, name);
    let found = collect_servers(front, host)->Ok_0;
    if member(front, name) is Some {
        lemma_collected_member(front, host, name);
        if !is_reserved_name(x.0@) {
            let t = spec_normalize(x.1, host)->Ok_0;
            lemma_first_named_view_push(found, (x.0@, t), name);
        }
    } else {
        assert(x.0@ == name);
        let t = spec_normalize(x.1, host)->Ok_0;
        lemma_first_named_view_push(found, (x.0@, t), name);
        if first_named_view(found, name) is Some {
            lemma_collected_names_are_members(front, host, name);
        }
    }
}

/// No declared server is lost on the way through its dialect: a member of the
/// server block that is not a reserved key is what `get` finds under its name, as
/// that member normalizes.
pub proof fn lemma_declared_server_found(root: Doc, host: Host, servers: Servers, name: Seq<char>)
    requires
        spec_servers_from_value(root, host) == Ok::<_, ServersErrorView>(servers.spec_entries()),
        block_member(root, host, name) is Some,
        !is_reserved_name(name),
    ensures
        spec_normalize(block_member(root, host, name)->0, host) is Ok,
        first_named(servers.entries@, name) matches Some(t) && spec_normalize(
            block_member(root, host, name)->0,
            host,
        ) == Ok::<_, EntryErrorView>(t@),
{
    match server_block(root, host) {
        Some(Doc::Object(es)) => {
            lemma_collected_member(es@, host, name);
            lemma_first_named_view_of(servers.entries@, name);
        },
        _ => {},
    }
}

/// `v` holds `list` as an array of strings, or is absent and `list` is empty.
pub open spec fn holds_text_list(v: Option<Doc>, list: Seq<Seq<char>>) -> bool {
    match v {
        None => list.len() == 0,
        Some(Doc::Array(items)) => all_strings(items@) && string_texts(items@)
            == list,
        Some(_) => false,
    }
}

/// `v` holds `m` as an object of string members with distinct keys, or is absent
/// and `m` is empty.
pub open spec fn holds_text_map(v: Option<Doc>, m: Map<Seq<char>, Seq<char>>) -> bool {
    match v {
        None => m == Map::<Seq<char>, Seq<char>>::empty(),
        Some(Doc::Object(members)) => {
            &&& distinct_keys(members@)
            &&& forall|j: int| 0 <= j < members@.len() ==> #[trigger] members@[j].1 is String
            &&& forall|k: Seq<char>| #[trigger] m.contains_key(k) <==> member(members@, k) is Some
            &&& forall|k: Seq<char>| #[trigger]
                m.contains_key(k) ==> string_field(members@, k) == Some(m[k])
        },
        Some(_) => false,
    }
}

/// `raw` is `t` written in `host`'s dialect: a remote server as its URL under the
/// URL key and its headers under the headers key; a stdio server with no URL key,
/// its environment under the environment key, and its command line spelled the
/// host's way. Empty headers, environments and argument lists may be left out, and
/// other keys (`type`, `enabled`, `timeout`, a repeated name) may stand beside them.
pub open spec fn written_in_dialect(raw: Doc, host: Host, t: TransportView) -> bool {
    match raw {
        Doc::Object(es) => {
            let entries = es@;
            match t {
                TransportView::Http { url, headers } => {
                    &&& string_field(entries, host.url_field@) == Some(url)
                    &&& holds_text_map(member(entries, host.headers_field@), headers)
                },
                TransportView::Stdio { command, args, env } => {
                    &&& member(entries, host.url_field@) is None
                    &&& holds_text_map(member(entries, host.env_field@), env)
                    &&& match host.command_shape {
                        CommandShape::Joined => holds_text_list(
                            member(entries, "command"@),
                            seq![command] + args,
                        ),
                        _ => {
                            &&& string_field(entries, spec_command_key(host.command_shape))
                                == Some(command)
                            &&& holds_text_list(member(entries, "args"@), args)
                        },
                    }
                },
            }
        },
        _ => false,
    }
}

proof fn lemma_text_map_reads_back(v: Option<Doc>, m: Map<Seq<char>, Seq<char>>)
    requires
        holds_text_map(v, m),
    ensures
        spec_string_map(v) == Ok::<_, MapErrorView>(m),
{
    match v {
        Some(Doc::Object(members)) => {
            let es = members@;
            assert forall|j: int| 0 <= j < es.len() implies scalar_text(#[trigger] es[j].1) is Some by {
                assert(es[j].1 is String);
            }
            lemma_scalar_members_ok_when_scalar(es);
            lemma_scalar_members_contents(es);
            let r = scalar_members(es)->Ok_0;
            assert forall|k: Seq<char>| #[trigger] r.contains_key(k) implies r[k] == m[k] by {
                assert(m.contains_key(k));
                assert(string_field(es, k) == Some(m[k]));
            }
            assert(r =~= m);
        },
        None => {},
        Some(_) => {},
    }
}

/// What a host's dialect writes reads back unchanged: a transport written in a
/// host's dialect normalizes to that same transport.
pub proof fn lemma_written_transport_reads_back(raw: Doc, host: Host, t: TransportView)
    requires
        written_in_dialect(raw, host, t),
    ensures
        spec_normalize(raw, host) == Ok::<_, EntryErrorView>(t),
{
    match raw {
        Doc::Object(es) => {
            let entries = es@;
            match t {
                TransportView::Http { url, headers } => {
                    lemma_text_map_reads_back(member(entries, host.headers_field@), headers);
                },
                TransportView::Stdio { command, args, env } => {
                    lemma_text_map_reads_back(member(entries, host.env_field@), env);
                    assert(string_field(entries, host.url_field@) is None);
                    if host.command_shape == CommandShape::Joined {
                        let parts = seq![command] + args;
                        assert(parts[0] == command);
                        assert(parts.drop_first() =~= args);
                    } else if member(entries, "args"@) is None {
                        assert(args =~= Seq::<Seq<char>>::empty());
                    }
                },
            }
        },
        _ => {},
    }
}

/// The file extension of a format.
pub open spec fn format_extension(format: Format) -> Seq<char> {
    match format {
        Format::Json => ".json"@,
        Format::Jsonc => ".jsonc"@,
        Format::Toml => ".toml"@,
        Format::Yaml => ".yaml"@,
    }
}

/// A template path lies in the directory named after its host and carries the
/// extension of its host's format.
pub open spec fn template_follows_host(h: Host) -> bool {
    let path = h.template@;
    let ext = format_extension(h.format);
    &&& path.len() > h.name@.len() + ext.len()
    &&& path.take(h.name@.len() as int + 1) == h.name@ + "/"@
    &&& path.skip(path.len() - ext.len()) == ext
}

/// Every host's template sits under the host's name and has its format's extension.
pub proof fn lemma_templates_follow_hosts()
    ensures
        forall|i: int| 0 <= i < host_table().len() ==> template_follows_host(#[trigger] host_table()[i]),
{
    reveal_strlit("Antigravity");
    reveal_strlit("VSCode");
    reveal_strlit("GitHubCopilotCLI");
    reveal_strlit("ClaudeCode");
    reveal_strlit("OpenClaude");
    reveal_strlit("Codex");
    reveal_strlit("Grok");
    reveal_strlit("Kimi");
    reveal_strlit("Gemini");
    reveal_strlit("Qwen");
    reveal_strlit("OpenCode");
    reveal_strlit("Mimo");
    reveal_strlit("Goose");
    reveal_strlit("Antigravity/mcp_config.json");
    reveal_strlit("VSCode/mcp.json");
    reveal_strlit("GitHubCopilotCLI/mcp-config.json");
    reveal_strlit("ClaudeCode/.mcp.json");
    reveal_strlit("OpenClaude/.mcp.json");
    reveal_strlit("Codex/config.toml");
    reveal_strlit("Grok/config.toml");
    reveal_strlit("Kimi/mcp.json");
    reveal_strlit("Gemini/settings.json");
    reveal_strlit("Qwen/settings.json");
    reveal_strlit("OpenCode/opencode.jsonc");
    reveal_strlit("Mimo/mimocode.jsonc");
    reveal_strlit("Goose/config.yaml");
    reveal_strlit("/");
    reveal_strlit(".json");
    reveal_strlit(".jsonc");
    reveal_strlit(".toml");
    reveal_strlit(".yaml");
    let t = host_table();
    assert forall|i: int| 0 <= i < t.len() implies template_follows_host(#[trigger] t[i]) by {
        let h = t[i];
        let path = h.template@;
        let ext = format_extension(h.format);
        assert(path.take(h.name@.len() as int + 1) =~= h.name@ + "/"@);
        assert(path.skip(path.len() - ext.len()) =~= ext);
    }
}

/// The host named `name` is found, and reads its servers under `wrapper`, a remote
/// server's endpoint under `url`, its headers under `headers`, a stdio server's
/// environment under `env`, in `format`, with its command line spelled as `shape`.
pub open spec fn documented_dialect(
    name: Seq<char>,
    wrapper: Seq<char>,
    url: Seq<char>,
    headers: Seq<char>,
    env: Seq<char>,
    format: Format,
    shape: CommandShape,
) -> bool {
    match find_host(host_table(), name) {
        Some(h) => {
            &&& h.name@ == name
            &&& h.wrapper matches Some(w) && w@ == wrapper
            &&& h.url_field@ == url
            &&& h.headers_field@ == headers
            &&& h.env_field@ == env
            &&& h.format == format
            &&& h.command_shape == shape
        },
        None => false,
    }
}

/// Each host's dialect, as its documentation gives it: where it keeps its servers,
/// how it spells a remote endpoint, headers and environment, its file format and
/// its command-line shape (Qwen's `httpUrl`, Codex's `http_headers`, opencode's
/// `environment` and joined command, goose's `cmd`/`envs`/`uri`).
pub proof fn lemma_documented_dialects()
    ensures
        documented_dialect("Antigravity"@, "mcpServers"@, "serverUrl"@, "headers"@, "env"@, Format::Json, CommandShape::Split),
        documented_dialect("VSCode"@, "servers"@, "url"@, "headers"@, "env"@, Format::Json, CommandShape::Split),
        documented_dialect("GitHubCopilotCLI"@, "mcpServers"@, "url"@, "headers"@, "env"@, Format::Json, CommandShape::Split),
        documented_dialect("ClaudeCode"@, "mcpServers"@, "url"@, "headers"@, "env"@, Format::Json, CommandShape::Split),
        documented_dialect("OpenClaude"@, "mcpServers"@, "url"@, "headers"@, "env"@, Format::Json, CommandShape::Split),
        documented_dialect("Codex"@, "mcp_servers"@, "url"@, "http_headers"@, "env"@, Format::Toml, CommandShape::Split),
        documented_dialect("Grok"@, "mcp_servers"@, "url"@, "headers"@, "env"@, Format::Toml, CommandShape::Split),
        documented_dialect("Kimi"@, "mcpServers"@, "url"@, "headers"@, "env"@, Format::Json, CommandShape::Split),
        documented_dialect("Gemini"@, "mcpServers"@, "url"@, "headers"@, "env"@, Format::Json, CommandShape::Split),
        documented_dialect("Qwen"@, "mcpServers"@, "httpUrl"@, "headers"@, "env"@, Format::Json, CommandShape::Split),
        documented_dialect("OpenCode"@, "mcp"@, "url"@, "headers"@, "environment"@, Format::Jsonc, CommandShape::Joined),
        documented_dialect("Mimo"@, "mcp"@, "url"@, "headers"@, "environment"@, Format::Jsonc, CommandShape::Joined),
        documented_dialect("Goose"@, "extensions"@, "uri"@, "headers"@, "envs"@, Format::Yaml, CommandShape::Cmd),
{
    lemma_host_by_name_finds_each_host(0);
    lemma_host_by_name_finds_each_host(1);
    lemma_host_by_name_finds_each_host(2);
    lemma_host_by_name_finds_each_host(3);
    lemma_host_by_name_finds_each_host(4);
    lemma_host_by_name_finds_each_host(5);
    lemma_host_by_name_finds_each_host(6);
    lemma_host_by_name_finds_each_host(7);
    lemma_host_by_name_finds_each_host(8);
    lemma_host_by_name_finds_each_host(9);
    lemma_host_by_name_finds_each_host(10);
    lemma_host_by_name_finds_each_host(11);
    lemma_host_by_name_finds_each_host(12);
}

/// Where the space before argument `i` falls in a command line that starts with a
/// command `start` characters long: after the command and after every earlier
/// argument, each of which takes its own length plus one leading space.
pub open spec fn argument_offset(start: int, args: Seq<Seq<char>>, i: int) -> int
    decreases i,
{
    if i <= 0 {
        start
    } else {
        argument_offset(start, args, i - 1) + 1 + args[i - 1].len()
    }
}

/// `s` is `command`, then every one of `args` in order with one space before each,
/// then `rest`.
pub open spec fn shows_command_line(
    s: Seq<char>,
    command: Seq<char>,
    args: Seq<Seq<char>>,
    rest: Seq<char>,
) -> bool {
    let end = argument_offset(command.len() as int, args, args.len() as int);
    &&& s.len() == end + rest.len()
    &&& s.take(command.len() as int) == command
    &&& forall|i: int|
        0 <= i < args.len() ==> #[trigger] shows_argument(s, command.len() as int, args, i)
    &&& s.skip(end) == rest
}

/// Argument `i` stands in `s` where a command line of `start` characters before the
/// arguments puts it, with one space before it.
pub open spec fn shows_argument(s: Seq<char>, start: int, args: Seq<Seq<char>>, i: int) -> bool {
    let at = argument_offset(start, args, i);
    &&& 0 <= at < s.len()
    &&& s[at] == ' '
    &&& s.subrange(at + 1, at + 1 + args[i].len()) == args[i]
}

proof fn lemma_argument_offset_shift(start: int, args: Seq<Seq<char>>, i: int)
    ensures
        argument_offset(start, args, i) == start + argument_offset(0, args, i),
    decreases i,
{
    if i > 0 {
        lemma_argument_offset_shift(start, args, i - 1);
    }
}

proof fn lemma_argument_offset_prefix(start: int, args: Seq<Seq<char>>, n: int, i: int)
    requires
        0 <= i <= n <= args.len(),
    ensures
        argument_offset(start, args.take(n), i) == argument_offset(start, args, i),
    decreases i,
{
    if i > 0 {
        lemma_argument_offset_prefix(start, args, n, i - 1);
    }
}

proof fn lemma_argument_offset_grows(start: int, args: Seq<Seq<char>>, i: int, j: int)
    requires
        0 <= i <= j,
    ensures
        argument_offset(start, args, i) <= argument_offset(start, args, j),
    decreases j,
{
    if j > i {
        lemma_argument_offset_grows(start, args, i, j - 1);
    }
}

/// The space-prefixed arguments alone form a command line with an empty command.
proof fn lemma_space_prefixed_layout(args: Seq<Seq<char>>)
    ensures
        shows_command_line(space_prefixed(args), Seq::empty(), args, Seq::empty()),
    decreases args.len(),
{
    let s = space_prefixed(args);
    let n = args.len() as int;
    if n == 0 {
        assert(s.take(0) =~= Seq::<char>::empty());
        assert(s.skip(0) =~= Seq::<char>::empty());
    } else {
        let front = args.drop_last();
        let last = args.last();
        let sf = space_prefixed(front);
        lemma_space_prefixed_layout(front);
        assert(front =~= args.take(n - 1));
        assert(s == sf + " "@ + last);
        reveal_strlit(" ");
        assert forall|i: int| 0 <= i <= n - 1 implies argument_offset(0, front, i)
            == argument_offset(0, args, i) by {
            lemma_argument_offset_prefix(0, args, n - 1, i);
        }
        let end_front = argument_offset(0, front, n - 1);
        assert(sf.len() == end_front);
        assert forall|i: int| 0 <= i < args.len() implies #[trigger] shows_argument(
            s,
            0,
            args,
            i,
        ) by {
            let at = argument_offset(0, args, i);
            lemma_argument_offset_grows(0, args, 0, i);
            if i < n - 1 {
                assert(front[i] == args[i]);
                lemma_argument_offset_prefix(0, args, n - 1, i);
                lemma_argument_offset_prefix(0, args, n - 1, i + 1);
                assert(argument_offset(0, front, i + 1) == argument_offset(0, front, i) + 1
                    + front[i].len());
                lemma_argument_offset_grows(0, front, i + 1, n - 1);
                assert(shows_argument(sf, 0, front, i));
                assert(at + 1 + args[i].len() <= sf.len());
                assert(s[at] == sf[at]);
                assert(s.subrange(at + 1, at + 1 + args[i].len()) =~= sf.subrange(
                    at + 1,
                    at + 1 + args[i].len(),
                ));
            } else {
                assert(at == sf.len());
                assert(s[at] == ' ');
                assert(s.subrange(at + 1, at + 1 + args[i].len()) =~= last);
            }
        }
        assert(s.take(0) =~= Seq::<char>::empty());
        assert(s.skip(argument_offset(0, args, n)) =~= Seq::<char>::empty());
    }
}

/// Argument `i` keeps its place when a command goes before the arguments and more
/// text after them, shifted by the command's length.
proof fn lemma_argument_shifted(command: Seq<char>, args: Seq<Seq<char>>, rest: Seq<char>, i: int)
    requires
        0 <= i < args.len(),
        shows_command_line(space_prefixed(args), Seq::empty(), args, Seq::empty()),
    ensures
        shows_argument(command + space_prefixed(args) + rest, command.len() as int, args, i),
{
    let sp = space_prefixed(args);
    let s = command + sp + rest;
    let c = command.len() as int;
    let at0 = argument_offset(0, args, i);
    lemma_argument_offset_shift(c, args, i);
    lemma_argument_offset_grows(0, args, 0, i);
    lemma_argument_offset_grows(0, args, i + 1, args.len() as int);
    assert(argument_offset(0, args, i + 1) == at0 + 1 + args[i].len());
    assert(shows_argument(sp, 0, args, i));
    assert(sp[at0] == ' ');
    assert(s[c + at0] == sp[at0]);
    assert(sp.subrange(at0 + 1, at0 + 1 + args[i].len()) == args[i]);
    assert(s.subrange(c + at0 + 1, c + at0 + 1 + args[i].len()) =~= sp.subrange(
        at0 + 1,
        at0 + 1 + args[i].len(),
    ));
}

/// Putting a command before a command line, and more text after it, keeps every
/// argument in its place, shifted by the command's length.
proof fn lemma_command_line_around(command: Seq<char>, args: Seq<Seq<char>>, rest: Seq<char>)
    ensures
        shows_command_line(command + space_prefixed(args) + rest, command, args, rest),
{
    let sp = space_prefixed(args);
    let s = command + sp + rest;
    let c = command.len() as int;
    lemma_space_prefixed_layout(args);
    let end = argument_offset(c, args, args.len() as int);
    lemma_argument_offset_shift(c, args, args.len() as int);
    assert(sp.len() == argument_offset(0, args, args.len() as int));
    assert(s.len() == end + rest.len());
    assert(s.take(c) =~= command);
    assert(s.skip(end) =~= rest);
    assert forall|i: int| 0 <= i < args.len() implies #[trigger] shows_argument(s, c, args, i) by {
        lemma_argument_shifted(command, args, rest, i);
    }
}

/// A stdio summary shows the whole command line: the command, then every argument
/// in order with one space before each, and only then the note on its environment.
pub proof fn lemma_summary_shows_command_line(t: Transport)
    requires
        t is Stdio,
    ensures
        match t {
            Transport::Stdio { command, args, env } => shows_command_line(
                spec_summary(t),
                command@,
                texts(args@),
                key_note("  [env: "@, env.keys()),
            ),
            _ => true,
        },
{
    match t {
        Transport::Stdio { command, args, env } => {
            lemma_command_line_around(command@, texts(args@), key_note("  [env: "@, env.keys()));
        },
        _ => {},
    }
}

/// Where part `i` of a list starts when every earlier part is followed by a
/// separator `sep_len` characters long.
pub open spec fn part_offset(parts: Seq<Seq<char>>, sep_len: int, i: int) -> int
    decreases i,
{
    if i <= 0 {
        0
    } else {
        part_offset(parts, sep_len, i - 1) + parts[i - 1].len() + sep_len
    }
}

/// Part `i` stands in `s` at its place, with `sep` right before it unless it is
/// the first part.
pub open spec fn shows_part(s: Seq<char>, parts: Seq<Seq<char>>, sep: Seq<char>, i: int) -> bool {
    let at = part_offset(parts, sep.len() as int, i);
    &&& sep.len() <= at || i == 0
    &&& 0 <= at && at + parts[i].len() <= s.len()
    &&& s.subrange(at, at + parts[i].len()) == parts[i]
    &&& i > 0 ==> s.subrange(at - sep.len(), at) == sep
}

/// `s` is `parts` in order with `sep` between consecutive parts, and nothing else.
pub open spec fn lists_in_order(s: Seq<char>, parts: Seq<Seq<char>>, sep: Seq<char>) -> bool {
    &&& s.len() == (if parts.len() == 0 {
        0
    } else {
        part_offset(parts, sep.len() as int, parts.len() as int) - sep.len()
    })
    &&& forall|i: int| 0 <= i < parts.len() ==> #[trigger] shows_part(s, parts, sep, i)
}

/// `note` is empty when there are no keys, and otherwise is `label`, the keys in
/// order separated by `, `, and a closing `]`.
pub open spec fn notes_keys(note: Seq<char>, label: Seq<char>, keys: Seq<Seq<char>>) -> bool {
    if keys.len() == 0 {
        note.len() == 0
    } else {
        &&& note.len() >= label.len() + 1
        &&& note.take(label.len() as int) == label
        &&& note.last() == ']'
        &&& lists_in_order(note.subrange(label.len() as int, note.len() - 1), keys, ", "@)
    }
}

proof fn lemma_part_offset_prefix(parts: Seq<Seq<char>>, k: int, n: int, i: int)
    requires
        0 <= i <= n <= parts.len(),
    ensures
        part_offset(parts.take(n), k, i) == part_offset(parts, k, i),
    decreases i,
{
    if i > 0 {
        lemma_part_offset_prefix(parts, k, n, i - 1);
    }
}

proof fn lemma_part_offset_grows(parts: Seq<Seq<char>>, k: int, i: int, j: int)
    requires
        0 <= k,
        0 <= i <= j,
    ensures
        part_offset(parts, k, i) <= part_offset(parts, k, j),
        i < j ==> part_offset(parts, k, i) + parts[i].len() + k <= part_offset(parts, k, j),
    decreases j,
{
    if j > i {
        lemma_part_offset_grows(parts, k, i, j - 1);
    }
}

/// `join` lists its parts in order with the separator between them.
proof fn lemma_join_layout(parts: Seq<Seq<char>>, sep: Seq<char>)
    ensures
        lists_in_order(join(parts, sep), parts, sep),
    decreases parts.len(),
{
    let s = join(parts, sep);
    let n = parts.len() as int;
    let k = sep.len() as int;
    if n == 1 {
        assert(shows_part(s, parts, sep, 0)) by {
            assert(s.subrange(0, parts[0].len() as int) =~= parts[0]);
        }
    } else if n >= 2 {
        let front = parts.drop_last();
        let last = parts.last();
        let jf = join(front, sep);
        lemma_join_layout(front, sep);
        assert(front =~= parts.take(n - 1));
        assert(s == jf + sep + last);
        lemma_part_offset_prefix(parts, k, n - 1, n - 1);
        lemma_part_offset_prefix(parts, k, n - 1, n - 2);
        assert(jf.len() == part_offset(parts, k, n - 1) - k);
        assert forall|i: int| 0 <= i < n implies #[trigger] shows_part(s, parts, sep, i) by {
            let at = part_offset(parts, k, i);
            lemma_part_offset_grows(parts, k, 0, i);
            if i > 0 {
                lemma_part_offset_grows(parts, k, 0, i);
                lemma_part_offset_grows(parts, k, i - 1, i);
            }
            if i < n - 1 {
                lemma_part_offset_prefix(parts, k, n - 1, i);
                assert(front[i] == parts[i]);
                assert(shows_part(jf, front, sep, i));
                assert(s.subrange(at, at + parts[i].len()) =~= jf.subrange(at, at + parts[i].len()));
                if i > 0 {
                    assert(s.subrange(at - k, at) =~= jf.subrange(at - k, at));
                }
            } else {
                assert(at == jf.len() + k);
                assert(s.subrange(at, at + parts[i].len()) =~= last);
                assert(s.subrange(at - k, at) =~= sep);
            }
        }
    }
}

/// A key note is empty without keys, and otherwise is its label, every key in
/// order separated by `, `, and `]`.
pub proof fn lemma_key_note_lists_keys(label: Seq<char>, keys: Seq<Seq<char>>)
    ensures
        notes_keys(key_note(label, keys), label, keys),
{
    if keys.len() > 0 {
        let j = join(keys, ", "@);
        let note = key_note(label, keys);
        reveal_strlit("]");
        lemma_join_layout(keys, ", "@);
        assert(note == label + j + "]"@);
        assert(note.take(label.len() as int) =~= label);
        assert(note.subrange(label.len() as int, note.len() - 1) =~= j);
    }
}

/// Which parser reads a file: strict JSON only for a `.json` file under a strict
/// parse; JSONC for every other JSON or JSONC file; TOML and YAML for their own.
pub proof fn lemma_parse_grammar(text: Seq<char>)
    ensures
        parsed_document(spec_syntax_for(Format::Json, Strictness::Strict), text) == json_document(text),
        parsed_document(spec_syntax_for(Format::Json, Strictness::Lenient), text) == jsonc_document(text),
        parsed_document(spec_syntax_for(Format::Jsonc, Strictness::Strict), text) == jsonc_document(text),
        parsed_document(spec_syntax_for(Format::Jsonc, Strictness::Lenient), text) == jsonc_document(
            text,
        ),
        parsed_document(spec_syntax_for(Format::Toml, Strictness::Strict), text) == toml_document(text),
        parsed_document(spec_syntax_for(Format::Toml, Strictness::Lenient), text) == toml_document(text),
        parsed_document(spec_syntax_for(Format::Yaml, Strictness::Strict), text) == yaml_document(text),
        parsed_document(spec_syntax_for(Format::Yaml, Strictness::Lenient), text) == yaml_document(text),
{
}

/// The executable sits under `cmd` for goose's shape and under `command` otherwise.
pub proof fn lemma_command_keys()
    ensures
        spec_command_key(CommandShape::Split) == "command"@,
        spec_command_key(CommandShape::Joined) == "command"@,
        spec_command_key(CommandShape::Cmd) == "cmd"@,
{
}

/// An object of scalars with distinct keys reads as the map from each key to its
/// value's text: a string as itself, a number as written, a boolean as `true` or
/// `false`.
pub proof fn lemma_string_map_reads_scalars(v: Doc)
    requires
        v matches Doc::Object(members) && distinct_keys(members@) && forall|j: int|
            0 <= j < members@.len() ==> (#[trigger] members@[j].1 is String || members@[j].1 is Number
                || members@[j].1 is Bool),
    ensures
        spec_string_map(Some(v)) is Ok,
        forall|k: Seq<char>| #[trigger]
            spec_string_map(Some(v))->Ok_0.contains_key(k) <==> spec_get(v, k) is Some,
        forall|k: Seq<char>|
            #[trigger] spec_string_map(Some(v))->Ok_0.contains_key(k) ==> spec_string_map(
                Some(v),
            )->Ok_0[k] == match spec_get(v, k)->0 {
                Doc::String(s) => s@,
                Doc::Number(n) => n@,
                Doc::Bool(b) => if b {
                    "true"@
                } else {
                    "false"@
                },
                _ => Seq::empty(),
            },
{
    let es = v->Object_0@;
    assert forall|j: int| 0 <= j < es.len() implies scalar_text(#[trigger] es[j].1) is Some by {
        assert(es[j].1 is String || es[j].1 is Number || es[j].1 is Bool);
    }
    lemma_scalar_members_ok_when_scalar(es);
    lemma_scalar_members_contents(es);
}

/// What an entry that cannot be a server is answered: anything but an object is
/// not an entry; an object with neither a URL nor a command names both keys it
/// looked for; a joined command that is an empty array is refused as empty.
pub proof fn lemma_normalize_refusals(raw: Doc, host: Host)
    ensures
        !(raw is Object) ==> spec_normalize(raw, host) == Err::<TransportView, _>(
            EntryErrorView::NotObject,
        ),
        raw matches Doc::Object(es) && member(es@, host.url_field@) is None && member(
            es@,
            host.env_field@,
        ) is None && host.command_shape != CommandShape::Joined && member(
            es@,
            if host.command_shape == CommandShape::Cmd {
                "cmd"@
            } else {
                "command"@
            },
        ) is None ==> spec_normalize(raw, host) == Err::<TransportView, _>(
            EntryErrorView::MissingCommand {
                url_field: host.url_field@,
                command_key: if host.command_shape == CommandShape::Cmd {
                    "cmd"@
                } else {
                    "command"@
                },
            },
        ),
        raw matches Doc::Object(es) && member(es@, host.url_field@) is None && member(
            es@,
            host.env_field@,
        ) is None && host.command_shape == CommandShape::Joined && member(es@, "command"@) is Some
            && member(es@, "command"@)->0 is Array && member(es@, "command"@)->0->Array_0@.len()
            == 0 ==> spec_normalize(raw, host) == Err::<TransportView, _>(
            EntryErrorView::EmptyCommand,
        ),
{
}

} // verus!

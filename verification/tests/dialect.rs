use mcpctl::dialect::{
    host_by_name, hosts, normalize, servers_from_value, string_list, string_map, syntax_for,
    CommandShape, EntryError, EnabledStyle, Format, Indent, ListError, MapError, Servers,
    ServersError, Strictness, Syntax, Transport,
};
use mcpctl::string_map::StringMap;
use mcpctl::text::{compare_text, TextOrder};
use mcpctl::doc::{Doc, DocKind};

fn s(text: &str) -> Doc {
    Doc::String(text.to_string())
}

fn num(text: &str) -> Doc {
    Doc::Number(text.to_string())
}

fn arr(items: Vec<Doc>) -> Doc {
    Doc::Array(items)
}

fn obj(members: Vec<(&str, Doc)>) -> Doc {
    Doc::Object(members.into_iter().map(|(k, v)| (k.to_string(), v)).collect())
}

fn map(pairs: &[(&str, &str)]) -> StringMap {
    let mut m = StringMap::new();
    for (k, v) in pairs {
        m.insert(k.to_string(), v.to_string());
    }
    m
}

fn stdio(command: &str, args: &[&str], env: &[(&str, &str)]) -> Transport {
    Transport::Stdio {
        command: command.to_string(),
        args: args.iter().map(|a| a.to_string()).collect(),
        env: map(env),
    }
}

fn http(url: &str, headers: &[(&str, &str)]) -> Transport {
    Transport::Http { url: url.to_string(), headers: map(headers) }
}

fn host(name: &str) -> mcpctl::dialect::Host {
    host_by_name(name).expect("host is in the table")
}

#[test]
fn command_key_per_shape() {
    assert_eq!(CommandShape::Split.command_key(), "command");
    assert_eq!(CommandShape::Joined.command_key(), "command");
    assert_eq!(CommandShape::Cmd.command_key(), "cmd");
}

#[test]
fn table_has_every_host_once() {
    let table = hosts();
    let names: Vec<&str> = table.iter().map(|h| h.name).collect();
    assert_eq!(
        names,
        vec![
            "Antigravity", "VSCode", "GitHubCopilotCLI", "ClaudeCode", "OpenClaude", "Codex",
            "Grok", "Kimi", "Gemini", "Qwen", "OpenCode", "Mimo", "Goose"
        ]
    );
    for (i, a) in table.iter().enumerate() {
        for b in &table[i + 1..] {
            assert_ne!(a.name, b.name);
            assert_ne!(a.template, b.template);
        }
    }
}

#[test]
fn documented_quirks_are_in_the_table() {
    assert_eq!(host("Qwen").url_field, "httpUrl");
    assert_eq!(host("Codex").headers_field, "http_headers");
    assert_eq!(host("Codex").tools_field, Some("tools"));
    assert_eq!(host("OpenCode").env_field, "environment");
    assert_eq!(host("OpenCode").command_shape, CommandShape::Joined);
    assert_eq!(host("Mimo").command_shape, CommandShape::Joined);
    let goose = host("Goose");
    assert_eq!(goose.command_shape, CommandShape::Cmd);
    assert_eq!(goose.env_field, "envs");
    assert_eq!(goose.url_field, "uri");
    assert!(goose.emit_name_field);
    assert_eq!(goose.timeout.map(|t| (t.key, t.value)), Some(("timeout", 300)));
    assert_eq!(host("OpenCode").timeout.map(|t| t.value), Some(60_000));
    assert_eq!(host("GitHubCopilotCLI").wrapper, Some("mcpServers"));
    assert_eq!(host("VSCode").indent, Indent::Tab);
    assert_eq!(host("Antigravity").url_field, "serverUrl");
    assert_eq!(host("Antigravity").enabled_style, EnabledStyle::Disabled("disabled"));
    assert_eq!(host("Gemini").stdio_type, None);
    assert_eq!(host("Gemini").http_type, Some("http"));
    assert_eq!(host("Codex").format, Format::Toml);
    assert_eq!(host("Goose").format, Format::Yaml);
    assert_eq!(host("OpenCode").format, Format::Jsonc);
}

#[test]
fn host_by_name_finds_each_host_by_its_own_name() {
    for h in hosts() {
        let found = host_by_name(h.name).expect("every host is found");
        assert_eq!(found.name, h.name);
        assert_eq!(found.template, h.template);
    }
}

#[test]
fn host_by_name_unknown_or_miscased() {
    assert!(host_by_name("Nope").is_none());
    assert!(host_by_name("").is_none());
    assert!(host_by_name("qwen").is_none());
    assert!(host_by_name("Qwen ").is_none());
}

#[test]
fn syntax_follows_format_and_strictness() {
    assert_eq!(syntax_for(Format::Json, Strictness::Strict), Syntax::Json);
    assert_eq!(syntax_for(Format::Json, Strictness::Lenient), Syntax::Jsonc);
    assert_eq!(syntax_for(Format::Jsonc, Strictness::Strict), Syntax::Jsonc);
    assert_eq!(syntax_for(Format::Jsonc, Strictness::Lenient), Syntax::Jsonc);
    assert_eq!(syntax_for(Format::Toml, Strictness::Strict), Syntax::Toml);
    assert_eq!(syntax_for(Format::Yaml, Strictness::Lenient), Syntax::Yaml);
}

#[test]
fn summary_of_stdio_lists_env_names_in_key_order() {
    let t = stdio("npx", &["-y", "pkg"], &[("TERM", "dumb"), ("NO_COLOR", "1"), ("RUST_LOG", "error")]);
    assert_eq!(t.summary(), "npx -y pkg  [env: NO_COLOR, RUST_LOG, TERM]");
}

#[test]
fn summary_of_bare_stdio_and_http() {
    assert_eq!(stdio("uvx", &[], &[]).summary(), "uvx");
    assert_eq!(stdio("npx", &["a"], &[]).summary(), "npx a");
    assert_eq!(http("https://mcp.context7.com/mcp", &[]).summary(), "https://mcp.context7.com/mcp");
    assert_eq!(
        http("https://x.example/mcp", &[("X-Key", "k"), ("Authorization", "a")]).summary(),
        "https://x.example/mcp  [headers: Authorization, X-Key]"
    );
}

#[test]
fn servers_get_and_names() {
    let servers = Servers {
        entries: vec![
            ("context7".to_string(), http("https://mcp.context7.com/mcp", &[])),
            ("memory".to_string(), stdio("npx", &["-y", "@modelcontextprotocol/server-memory"], &[])),
        ],
    };
    assert_eq!(servers.names(), vec!["context7", "memory"]);
    assert_eq!(servers.get("memory"), Some(&stdio("npx", &["-y", "@modelcontextprotocol/server-memory"], &[])));
    assert_eq!(servers.get("context7"), Some(&http("https://mcp.context7.com/mcp", &[])));
    assert_eq!(servers.get("fetch"), None);
}

#[test]
fn servers_get_takes_the_first_of_a_repeated_name() {
    let servers = Servers {
        entries: vec![
            ("a".to_string(), stdio("first", &[], &[])),
            ("a".to_string(), stdio("second", &[], &[])),
        ],
    };
    assert_eq!(servers.get("a"), Some(&stdio("first", &[], &[])));
    assert_eq!(servers.names(), vec!["a", "a"]);
}

#[test]
fn normalize_split_stdio() {
    let raw = obj(vec![
        ("command", s("npx")),
        ("args", arr(vec![s("-y"), s("@upstash/context7-mcp")])),
        ("env", obj(vec![("NO_COLOR", s("1"))])),
    ]);
    assert_eq!(
        normalize(&raw, &host("ClaudeCode")),
        Ok(stdio("npx", &["-y", "@upstash/context7-mcp"], &[("NO_COLOR", "1")]))
    );
}

#[test]
fn normalize_joined_stdio_splits_command_array() {
    let raw = obj(vec![
        ("type", s("local")),
        ("command", arr(vec![s("npx"), s("-y"), s("pkg")])),
        ("environment", obj(vec![("A", s("1"))])),
        ("enabled", Doc::Bool(true)),
    ]);
    assert_eq!(normalize(&raw, &host("OpenCode")), Ok(stdio("npx", &["-y", "pkg"], &[("A", "1")])));
}

#[test]
fn normalize_goose_cmd_envs_and_uri() {
    let h = host("Goose");
    let raw = obj(vec![("cmd", s("npx")), ("args", arr(vec![s("x")])), ("envs", obj(vec![("K", s("v"))]))]);
    assert_eq!(normalize(&raw, &h), Ok(stdio("npx", &["x"], &[("K", "v")])));
    let remote = obj(vec![("uri", s("https://mcp.context7.com/mcp")), ("type", s("streamable_http"))]);
    assert_eq!(normalize(&remote, &h), Ok(http("https://mcp.context7.com/mcp", &[])));
}

#[test]
fn normalize_remote_with_host_specific_keys() {
    let qwen = obj(vec![("httpUrl", s("https://u")), ("headers", obj(vec![("Authorization", s("t"))]))]);
    assert_eq!(normalize(&qwen, &host("Qwen")), Ok(http("https://u", &[("Authorization", "t")])));
    let codex = obj(vec![("url", s("https://u")), ("http_headers", obj(vec![("X", s("y"))]))]);
    assert_eq!(normalize(&codex, &host("Codex")), Ok(http("https://u", &[("X", "y")])));
    // Qwen has no `url` key: an entry spelled that way is read as a stdio server.
    let wrong = obj(vec![("url", s("https://u"))]);
    assert_eq!(
        normalize(&wrong, &host("Qwen")),
        Err(EntryError::MissingCommand { url_field: "httpUrl", command_key: "command" })
    );
}

#[test]
fn normalize_url_wins_over_command() {
    let raw = obj(vec![("url", s("https://u")), ("command", s("npx"))]);
    assert_eq!(normalize(&raw, &host("VSCode")), Ok(http("https://u", &[])));
}

#[test]
fn normalize_non_string_url_falls_back_to_stdio() {
    let raw = obj(vec![("url", num("3")), ("command", s("npx"))]);
    assert_eq!(normalize(&raw, &host("VSCode")), Ok(stdio("npx", &[], &[])));
}

#[test]
fn normalize_stringifies_numbers_and_booleans() {
    let raw = obj(vec![
        ("command", s("x")),
        ("env", obj(vec![("NO_COLOR", num("1")), ("DEBUG", Doc::Bool(false)), ("ON", Doc::Bool(true))])),
    ]);
    assert_eq!(
        normalize(&raw, &host("Grok")),
        Ok(stdio("x", &[], &[("DEBUG", "false"), ("NO_COLOR", "1"), ("ON", "true")]))
    );
}

#[test]
fn normalize_errors() {
    let claude = host("ClaudeCode");
    assert_eq!(normalize(&s("npx"), &claude), Err(EntryError::NotObject));
    assert_eq!(
        normalize(&obj(vec![("url", s("u")), ("headers", s("h"))]), &claude),
        Err(EntryError::Headers(MapError::NotObject))
    );
    assert_eq!(
        normalize(&obj(vec![("url", s("u")), ("headers", obj(vec![("A", arr(vec![]))]))]), &claude),
        Err(EntryError::Headers(MapError::NonScalar { key: "A".to_string(), value: arr(vec![]) }))
    );
    assert_eq!(
        normalize(&obj(vec![("command", s("x")), ("env", obj(vec![("OK", s("1")), ("N", Doc::Null)]))]), &claude),
        Err(EntryError::Environment(MapError::NonScalar { key: "N".to_string(), value: Doc::Null }))
    );
    assert_eq!(
        normalize(&obj(vec![("args", arr(vec![]))]), &claude),
        Err(EntryError::MissingCommand { url_field: "url", command_key: "command" })
    );
    assert_eq!(
        normalize(&obj(vec![("args", arr(vec![]))]), &host("Goose")),
        Err(EntryError::MissingCommand { url_field: "uri", command_key: "cmd" })
    );
    assert_eq!(
        normalize(&obj(vec![("command", s("x")), ("args", s("-y"))]), &claude),
        Err(EntryError::List(ListError::NotArray))
    );
    assert_eq!(
        normalize(&obj(vec![("command", s("x")), ("args", arr(vec![s("a"), num("1")]))]), &claude),
        Err(EntryError::List(ListError::NonString))
    );
    assert_eq!(
        normalize(&obj(vec![("command", arr(vec![]))]), &host("OpenCode")),
        Err(EntryError::EmptyCommand)
    );
    assert_eq!(
        normalize(&obj(vec![("command", s("npx"))]), &host("OpenCode")),
        Err(EntryError::List(ListError::NotArray))
    );
}

#[test]
fn string_list_and_string_map_defaults() {
    assert_eq!(string_list(None), Ok(vec![]));
    assert_eq!(string_list(Some(&arr(vec![s("a"), s("b")]))), Ok(vec!["a".to_string(), "b".to_string()]));
    assert_eq!(string_list(Some(&obj(vec![]))), Err(ListError::NotArray));
    assert_eq!(string_map(None), Ok(StringMap::new()));
    assert_eq!(string_map(Some(&arr(vec![]))), Err(MapError::NotObject));
    assert_eq!(
        string_map(Some(&obj(vec![("b", s("2")), ("a", num("1.5"))]))),
        Ok(map(&[("a", "1.5"), ("b", "2")]))
    );
}

#[test]
fn string_map_first_non_scalar_is_reported() {
    let v = obj(vec![("a", obj(vec![])), ("b", arr(vec![]))]);
    assert_eq!(
        string_map(Some(&v)),
        Err(MapError::NonScalar { key: "a".to_string(), value: obj(vec![]) })
    );
}

#[test]
fn env_member_order_does_not_change_the_transport() {
    let h = host("ClaudeCode");
    let one = obj(vec![
        ("command", s("npx")),
        ("env", obj(vec![("RUST_LOG", s("error")), ("NO_COLOR", num("1")), ("TERM", s("dumb"))])),
    ]);
    let two = obj(vec![
        ("env", obj(vec![("TERM", s("dumb")), ("RUST_LOG", s("error")), ("NO_COLOR", s("1"))])),
        ("command", s("npx")),
    ]);
    let a = normalize(&one, &h).unwrap();
    let b = normalize(&two, &h).unwrap();
    assert_eq!(a, b);
    assert_eq!(a.summary(), "npx  [env: NO_COLOR, RUST_LOG, TERM]");
}

#[test]
fn string_map_insert_replaces_and_keeps_order() {
    let mut m = StringMap::new();
    assert!(m.is_empty());
    m.insert("b".to_string(), "1".to_string());
    m.insert("a".to_string(), "2".to_string());
    m.insert("b".to_string(), "3".to_string());
    assert_eq!(m.len(), 2);
    assert_eq!(m.key_at(0), "a");
    assert_eq!(m.key_at(1), "b");
    assert_eq!(m.value_at(1), "3");
    assert_eq!(m.get("b").map(|v| v.as_str()), Some("3"));
    assert_eq!(m.get("c"), None);
    assert!(!m.is_empty());
    assert_eq!(m, map(&[("a", "2"), ("b", "3")]));
}

#[test]
fn string_map_orders_by_code_point() {
    let m = map(&[("é", "1"), ("z", "2"), ("Z", "3"), ("", "4")]);
    let keys: Vec<&str> = (0..m.len()).map(|i| m.key_at(i)).collect();
    assert_eq!(keys, vec!["", "Z", "z", "é"]);
}

#[test]
fn compare_text_orders_like_strings() {
    for (a, b) in [("", ""), ("", "a"), ("a", "b"), ("ab", "a"), ("é", "z"), ("abc", "abd"), ("x", "x")] {
        let expected = match a.cmp(b) {
            std::cmp::Ordering::Less => TextOrder::Less,
            std::cmp::Ordering::Equal => TextOrder::Equal,
            std::cmp::Ordering::Greater => TextOrder::Greater,
        };
        assert_eq!(compare_text(a, b), expected);
    }
}

#[test]
fn value_accessors() {
    let v = obj(vec![("a", s("x")), ("b", num("2")), ("a", s("shadowed"))]);
    assert_eq!(v.get("a"), Some(&s("x")));
    assert_eq!(v.get("c"), None);
    assert_eq!(s("x").get("a"), None);
    assert_eq!(s("x").as_str(), Some("x"));
    assert_eq!(num("2").as_str(), None);
    assert_eq!(num("2").scalar_text(), Some("2".to_string()));
    assert_eq!(Doc::Bool(true).scalar_text(), Some("true".to_string()));
    assert_eq!(Doc::Null.scalar_text(), None);
    assert_eq!(arr(vec![]).kind(), DocKind::Array);
    let nested = obj(vec![("a", arr(vec![s("x"), num("1"), Doc::Bool(true)])), ("b", Doc::Null)]);
    assert_eq!(nested.duplicate(), nested);
    assert!(obj(vec![]).as_object().is_some());
    assert!(obj(vec![]).as_array().is_none());
}

#[test]
fn servers_from_value_reads_block_in_file_order() {
    let doc = obj(vec![
        (
            "mcp",
            obj(vec![
                ("$schema", s("https://opencode.ai/config.json")),
                ("zeta", obj(vec![("type", s("remote")), ("url", s("https://z"))])),
                ("_comment", s("ignored")),
                ("alpha", obj(vec![("command", arr(vec![s("uvx"), s("mcp-server-fetch")]))])),
            ]),
        ),
        ("theme", s("dark")),
    ]);
    let servers = servers_from_value(&doc, &host("OpenCode")).unwrap();
    assert_eq!(servers.names(), vec!["zeta", "alpha"]);
    assert_eq!(servers.get("alpha"), Some(&stdio("uvx", &["mcp-server-fetch"], &[])));
    assert_eq!(servers.get("zeta"), Some(&http("https://z", &[])));
}

#[test]
fn servers_from_value_errors() {
    let h = host("VSCode");
    assert_eq!(servers_from_value(&obj(vec![]), &h).unwrap_err(), ServersError::MissingBlock("servers"));
    assert_eq!(servers_from_value(&s("x"), &h).unwrap_err(), ServersError::MissingBlock("servers"));
    assert_eq!(
        servers_from_value(&obj(vec![("servers", arr(vec![]))]), &h).unwrap_err(),
        ServersError::BlockNotObject
    );
    let bad = obj(vec![("servers", obj(vec![("ok", obj(vec![("command", s("x"))])), ("broken", s("x"))]))]);
    assert_eq!(
        servers_from_value(&bad, &h).unwrap_err(),
        ServersError::Server { name: "broken".to_string(), error: EntryError::NotObject }
    );
}

#[test]
fn servers_from_value_empty_block() {
    let doc = obj(vec![("mcpServers", obj(vec![]))]);
    let servers = servers_from_value(&doc, &host("Kimi")).unwrap();
    assert!(servers.names().is_empty());
}

#[test]
fn every_declared_server_is_found_as_it_normalizes() {
    let h = host("ClaudeCode");
    let block = vec![
        ("fetch", obj(vec![("command", s("uvx")), ("args", arr(vec![s("mcp-server-fetch")]))])),
        ("$schema", s("x")),
        ("context7", obj(vec![("url", s("https://mcp.context7.com/mcp"))])),
    ];
    let doc = obj(vec![("mcpServers", obj(block.iter().map(|(k, _)| (*k, Doc::Null)).collect()))]);
    assert!(servers_from_value(&doc, &h).is_err());
    let doc = obj(vec![(
        "mcpServers",
        obj(vec![
            ("fetch", obj(vec![("command", s("uvx")), ("args", arr(vec![s("mcp-server-fetch")]))])),
            ("$schema", s("x")),
            ("context7", obj(vec![("url", s("https://mcp.context7.com/mcp"))])),
        ]),
    )]);
    let servers = servers_from_value(&doc, &h).unwrap();
    let block = doc.get("mcpServers").unwrap();
    for name in ["fetch", "context7"] {
        let expected = normalize(block.get(name).unwrap(), &h).unwrap();
        assert_eq!(servers.get(name), Some(&expected));
    }
    assert_eq!(servers.get("$schema"), None);
}

#[test]
fn transports_and_servers_clone() {
    let t = stdio("npx", &["-y"], &[("B", "2"), ("A", "1")]);
    let c = t.clone();
    assert_eq!(c, t);
    assert_eq!(c.summary(), "npx -y  [env: A, B]");
    let servers = Servers { entries: vec![("x".to_string(), t)] };
    let copy = servers.clone();
    assert_eq!(copy.names(), vec!["x"]);
    assert_eq!(copy.get("x"), servers.get("x"));
}

#[test]
fn written_transports_read_back_on_every_host() {
    for h in hosts() {
        let env = obj(vec![("RUST_LOG", s("error")), ("NO_COLOR", s("1"))]);
        let raw = match h.command_shape {
            CommandShape::Joined => obj(vec![
                ("type", s("local")),
                ("command", arr(vec![s("npx"), s("-y"), s("pkg")])),
                (h.env_field, env),
                ("enabled", Doc::Bool(true)),
            ]),
            shape => obj(vec![
                ("name", s("pkg")),
                (shape.command_key(), s("npx")),
                ("args", arr(vec![s("-y"), s("pkg")])),
                (h.env_field, env),
            ]),
        };
        assert_eq!(
            normalize(&raw, &h),
            Ok(stdio("npx", &["-y", "pkg"], &[("NO_COLOR", "1"), ("RUST_LOG", "error")])),
            "{}",
            h.name
        );
        let remote = obj(vec![
            ("type", s("http")),
            (h.url_field, s("https://mcp.context7.com/mcp")),
            (h.headers_field, obj(vec![("CONTEXT7_API_KEY", s("k"))])),
        ]);
        assert_eq!(
            normalize(&remote, &h),
            Ok(http("https://mcp.context7.com/mcp", &[("CONTEXT7_API_KEY", "k")])),
            "{}",
            h.name
        );
    }
}

#[test]
fn templates_sit_under_host_names_with_format_extensions() {
    for h in hosts() {
        assert!(h.template.starts_with(&format!("{}/", h.name)), "{}", h.name);
        let ext = match h.format {
            Format::Json => ".json",
            Format::Jsonc => ".jsonc",
            Format::Toml => ".toml",
            Format::Yaml => ".yaml",
        };
        assert!(h.template.ends_with(ext), "{}", h.name);
    }
}

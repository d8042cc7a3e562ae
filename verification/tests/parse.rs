use mcpctl::dialect::{
    host_by_name, parse, servers_from_text, EntryError, Format, LoadError, ServersError, Strictness,
    Syntax, Transport,
};
use mcpctl::doc::Doc;
use mcpctl::string_map::StringMap;

fn host(name: &str) -> mcpctl::dialect::Host {
    host_by_name(name).expect("host is in the table")
}

fn stdio(command: &str, args: &[&str], env: &[(&str, &str)]) -> Transport {
    let mut m = StringMap::new();
    for (k, v) in env {
        m.insert(k.to_string(), v.to_string());
    }
    Transport::Stdio {
        command: command.to_string(),
        args: args.iter().map(|a| a.to_string()).collect(),
        env: m,
    }
}

#[test]
fn parse_strict_json_keeps_member_order() {
    let doc = parse(Format::Json, r#"{"b": 1, "a": [true, null, "x", 1.5]}"#, Strictness::Strict).unwrap();
    assert_eq!(
        doc,
        Doc::Object(vec![
            ("b".to_string(), Doc::Number("1".to_string())),
            (
                "a".to_string(),
                Doc::Array(vec![
                    Doc::Bool(true),
                    Doc::Null,
                    Doc::String("x".to_string()),
                    Doc::Number("1.5".to_string()),
                ])
            ),
        ])
    );
}

#[test]
fn strict_json_rejects_trailing_commas_that_lenient_accepts() {
    let text = "{\n  \"servers\": {},\n}\n";
    let err = parse(Format::Json, text, Strictness::Strict).unwrap_err();
    assert_eq!(err.syntax, Syntax::Json);
    assert!(!err.message.is_empty());
    let doc = parse(Format::Json, text, Strictness::Lenient).unwrap();
    assert_eq!(doc, Doc::Object(vec![("servers".to_string(), Doc::Object(vec![]))]));
}

#[test]
fn jsonc_accepts_comments() {
    let doc = parse(Format::Jsonc, "// c\n{\"a\": \"b\" /* d */}", Strictness::Strict).unwrap();
    assert_eq!(doc, Doc::Object(vec![("a".to_string(), Doc::String("b".to_string()))]));
}

#[test]
fn parse_toml_and_yaml() {
    let toml = parse(Format::Toml, "[mcp_servers.x]\ncommand = \"npx\"\n", Strictness::Strict).unwrap();
    assert_eq!(toml.get("mcp_servers").and_then(|b| b.get("x")).and_then(|x| x.get("command")).and_then(|c| c.as_str()), Some("npx"));
    let yaml = parse(Format::Yaml, "extensions:\n  x:\n    cmd: npx\n    n: 1\n", Strictness::Strict).unwrap();
    let x = yaml.get("extensions").and_then(|b| b.get("x")).unwrap();
    assert_eq!(x.get("cmd").and_then(|c| c.as_str()), Some("npx"));
    assert_eq!(x.get("n"), Some(&Doc::Number("1".to_string())));
    assert_eq!(parse(Format::Toml, "= broken", Strictness::Lenient).unwrap_err().syntax, Syntax::Toml);
    assert_eq!(parse(Format::Yaml, "a: [", Strictness::Lenient).unwrap_err().syntax, Syntax::Yaml);
}

#[test]
fn servers_from_text_for_each_grammar() {
    let json = r#"{"mcpServers": {"fetch": {"command": "uvx", "args": ["mcp-server-fetch"], "env": {"NO_COLOR": 1}}}}"#;
    let servers = servers_from_text(json, &host("ClaudeCode"), Strictness::Strict).unwrap();
    assert_eq!(servers.get("fetch"), Some(&stdio("uvx", &["mcp-server-fetch"], &[("NO_COLOR", "1")])));

    let codex = "[mcp_servers.crates]\ncommand = \"crates-mcp\"\nenv = { RUST_LOG = \"error\" }\n";
    let servers = servers_from_text(codex, &host("Codex"), Strictness::Strict).unwrap();
    assert_eq!(servers.get("crates"), Some(&stdio("crates-mcp", &[], &[("RUST_LOG", "error")])));

    let goose = "extensions:\n  terminal:\n    cmd: npx\n    args: [\"-y\", \"t\"]\n    envs:\n      NO_COLOR: \"1\"\n";
    let servers = servers_from_text(goose, &host("Goose"), Strictness::Strict).unwrap();
    assert_eq!(servers.get("terminal"), Some(&stdio("npx", &["-y", "t"], &[("NO_COLOR", "1")])));

    let opencode = "{\n  \"$schema\": \"https://opencode.ai/config.json\",\n  // servers\n  \"mcp\": {\"m\": {\"type\": \"local\", \"command\": [\"npx\", \"-y\", \"m\"]},},\n}";
    let servers = servers_from_text(opencode, &host("OpenCode"), Strictness::Strict).unwrap();
    assert_eq!(servers.names(), vec!["m"]);
    assert_eq!(servers.get("m"), Some(&stdio("npx", &["-y", "m"], &[])));
}

#[test]
fn servers_from_text_errors() {
    let vscode = host("VSCode");
    match servers_from_text("{", &vscode, Strictness::Strict) {
        Err(LoadError::Parse(e)) => assert_eq!(e.syntax, Syntax::Json),
        other => panic!("unexpected {other:?}"),
    }
    assert_eq!(
        servers_from_text("{}", &vscode, Strictness::Strict).unwrap_err(),
        LoadError::Interpret(ServersError::MissingBlock("servers"))
    );
    assert_eq!(
        servers_from_text(r#"{"servers": {"x": 1}}"#, &vscode, Strictness::Lenient).unwrap_err(),
        LoadError::Interpret(ServersError::Server { name: "x".to_string(), error: EntryError::NotObject })
    );
}

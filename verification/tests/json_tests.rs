use klaar::json::{can_register, register_server, server_entry, Json, Member};

fn member(key: &str, value: Json) -> Member {
    Member { key: key.to_string(), value }
}

fn text(s: &str) -> Json {
    Json::Text(s.to_string())
}

fn shown(v: &Json) -> String {
    match v {
        Json::Null => "null".to_string(),
        Json::Bool(b) => b.to_string(),
        Json::Number(n) => n.clone(),
        Json::Text(t) => format!("{t:?}"),
        Json::List(l) => format!("[{}]", l.iter().map(shown).collect::<Vec<_>>().join(",")),
        Json::Object(ms) => {
            let parts: Vec<String> =
                ms.iter().map(|m| format!("{}:{}", m.key, shown(&m.value))).collect();
            format!("{{{}}}", parts.join(","))
        }
    }
}

fn registered(config: Json, entry: Json) -> String {
    assert!(can_register(&config));
    shown(&register_server(config, "klaar".to_string(), entry))
}

#[test]
fn entries_start_the_server() {
    assert_eq!(
        shown(&server_entry("/bin/klaar")),
        "{command:\"/bin/klaar\",args:[\"serve\"],env:{}}"
    );
}

#[test]
fn a_server_is_entered_where_there_is_none() {
    assert_eq!(registered(Json::Null, text("e")), "{mcpServers:{klaar:\"e\"}}");
    let config = Json::Object(vec![member("theme", text("dark"))]);
    assert_eq!(
        registered(config, text("e")),
        "{theme:\"dark\",mcpServers:{klaar:\"e\"}}"
    );
    let config = Json::Object(vec![member("mcpServers", Json::Null), member("n", Json::Bool(true))]);
    assert_eq!(registered(config, text("e")), "{mcpServers:{klaar:\"e\"},n:true}");
}

#[test]
fn other_servers_stay() {
    let servers = Json::Object(vec![member("other", text("o")), member("klaar", text("old"))]);
    let config = Json::Object(vec![
        member("size", Json::Number("1.5".to_string())),
        member("mcpServers", servers),
        member("list", Json::List(Vec::new())),
    ]);
    assert_eq!(
        registered(config, text("new")),
        "{size:1.5,mcpServers:{other:\"o\",klaar:\"new\"},list:[]}"
    );
}

#[test]
fn only_objects_take_servers() {
    assert!(!can_register(&Json::List(Vec::new())));
    assert!(!can_register(&text("x")));
    assert!(!can_register(&Json::Object(vec![member("mcpServers", text("x"))])));
    assert!(can_register(&Json::Object(Vec::new())));
}

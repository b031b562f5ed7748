use automata::service::{
    content_type, convert, ends_with, route, serve, Action, ContentType, Method, Status,
};
use automata::{Nfa, Unsanitary};

fn names(value: &serde_json::Value) -> Option<Vec<String>> {
    let mut listed = Vec::new();
    for item in value.as_array()? {
        listed.push(item.as_str()?.to_owned());
    }
    Some(listed)
}

fn decode(input: &str) -> Option<Nfa<Unsanitary>> {
    let value: serde_json::Value = serde_json::from_str(input).ok()?;
    let object = value.as_object()?;
    let start = object.get("start")?.as_str()?.to_owned();
    let alphabet = names(object.get("alphabet")?)?;
    let final_states = names(object.get("final_states")?)?;
    let mut nodes = Vec::new();
    for (name, moves) in object.get("nodes")?.as_object()? {
        let mut listed = Vec::new();
        for (symbol, targets) in moves.as_object()? {
            listed.push((symbol.clone(), names(targets)?));
        }
        nodes.push((name.clone(), listed));
    }
    Some(Nfa::new(start, final_states, alphabet, nodes))
}

const PAGE: &str = "<!doctype html><html lang=\"en\"><head><title>NFA to DFA</title></head>\
<body><noscript>You need to enable JavaScript to run this app.</noscript>\
<div id=\"root\"></div></body></html>";

/// Test home page ("/" or "/index.html")
#[test]
fn test_index() {
    let path = match route(Method::Get, "/", false) {
        Action::Serve(path) => path,
        other => panic!("{:?}", other),
    };
    assert_eq!(path, "index.html");
    let response = serve(&path, Some(PAGE.as_bytes().to_vec()));

    assert_eq!(response.status, Status::Success);
    assert_eq!(response.status.code(), 200);
    assert_eq!(response.content_type, ContentType::Html);
    assert!(String::from_utf8(response.body).unwrap().contains("<noscript>You need to enable JavaScript to run this app.</noscript>"));

    let path = match route(Method::Get, "/index.html", false) {
        Action::Serve(path) => path,
        other => panic!("{:?}", other),
    };
    assert_eq!(path, "index.html");
    let response = serve(&path, Some(PAGE.as_bytes().to_vec()));
    assert_eq!(response.status, Status::Success);
    assert_eq!(response.content_type, ContentType::Html);
}

#[test]
fn test_not_found() {
    let path = match route(Method::Get, "/asdfasdfasdf", false) {
        Action::Serve(path) => path,
        other => panic!("{:?}", other),
    };
    assert_eq!(path, "asdfasdfasdf");
    let response = serve(&path, None);
    assert_eq!(response.status, Status::NotFound);
    assert_eq!(response.status.code(), 404);
    assert!(response.body.is_empty());
}

/// Test POSTing of NFA in JSON
#[test]
fn test_submit_nfa() {
    //Test good JSON
    let input = r#"{
        "start": "1",
        "alphabet": ["a", "b"],
        "nodes": {
            "1": {
                "a": ["1", "2"],
                "b": ["1"]
            },
            "2": {
                "a": ["3"],
                "b": ["3"]
            },
            "3": {
                "a": ["1"],
                "b": ["2"]
            }
        },
        "final_states": ["3"]
    }"#;

    assert!(matches!(route(Method::Post, "/submit", true), Action::Convert));
    let response = convert(decode(input));

    //Convert to DFA
    let dfa = response.unwrap();
    assert_eq!(dfa.start(), "1");
    assert_eq!(dfa.alphabet(), vec!["a".to_owned(), "b".to_owned()]);
    assert_eq!(dfa.len(), 4);
}

#[test]
fn test_empty_nfa() {
    assert!(matches!(route(Method::Post, "/submit", true), Action::Convert));
    let response = convert(decode("{}"));

    assert_eq!(response.unwrap_err(), Status::BadRequest);
    assert_eq!(Status::BadRequest.code(), 400);
}

#[test]
fn invalid_nfa_is_the_clients_error() {
    let input = r#"{
        "start": "1",
        "alphabet": ["a"],
        "nodes": { "1": { "a": ["2"] } },
        "final_states": []
    }"#;
    assert_eq!(convert(decode(input)).unwrap_err(), Status::BadRequest);
}

#[test]
fn only_json_posted_to_submit_is_converted() {
    assert!(matches!(route(Method::Post, "/submit", false), Action::Refuse));
    assert!(matches!(route(Method::Post, "/", true), Action::Refuse));
    assert!(matches!(route(Method::Post, "/submit/more", true), Action::Refuse));
    assert!(matches!(route(Method::Other, "/", false), Action::Refuse));
    assert!(matches!(route(Method::Get, "", false), Action::Refuse));
    assert!(matches!(route(Method::Get, "index.html", false), Action::Refuse));
    match route(Method::Get, "/submit", true) {
        Action::Serve(path) => assert_eq!(path, "submit"),
        other => panic!("{:?}", other),
    }
    match route(Method::Get, "/static/js/main.js", false) {
        Action::Serve(path) => assert_eq!(path, "static/js/main.js"),
        other => panic!("{:?}", other),
    }
}

#[test]
fn content_type_goes_by_the_ending() {
    assert_eq!(content_type("index.html"), ContentType::Html);
    assert_eq!(content_type("static/css/main.css"), ContentType::Css);
    assert_eq!(content_type("static/js/main.js"), ContentType::JavaScript);
    assert_eq!(content_type("data.json"), ContentType::Json);
    assert_eq!(content_type("favicon.ico"), ContentType::Binary);
    assert_eq!(content_type("html"), ContentType::Binary);
    assert_eq!(content_type(".js"), ContentType::JavaScript);
    assert_eq!(content_type(""), ContentType::Binary);
    assert!(ends_with("übung.html", ".html"));
    assert!(ends_with("a", ""));
    assert!(!ends_with("a", "ab"));
    assert!(!ends_with("page.htm", ".html"));
    let reply = serve("logo.svg", Some(vec![1, 2, 3]));
    assert_eq!(reply.status, Status::Success);
    assert_eq!(reply.content_type, ContentType::Binary);
    assert_eq!(reply.body, vec![1, 2, 3]);
    assert_eq!(Status::InternalServerError.code(), 500);
}

use automata::{Dfa, Nfa, NfaError, Unsanitary};
use std::collections::{HashMap, HashSet};

fn names(value: &serde_json::Value) -> Option<Vec<String>> {
    let mut listed = Vec::new();
    for item in value.as_array()? {
        listed.push(item.as_str()?.to_owned());
    }
    Some(listed)
}

fn decode(input: &str) -> Option<Nfa<Unsanitary>> {
    let value: serde_json::Value = serde_json::from_str(input).ok()?;
    let object = value.as_object()?;
    let start = object.get("start")?.as_str()?.to_owned();
    let alphabet = names(object.get("alphabet")?)?;
    let final_states = names(object.get("final_states")?)?;
    let mut nodes = Vec::new();
    for (name, moves) in object.get("nodes")?.as_object()? {
        let mut listed = Vec::new();
        for (symbol, targets) in moves.as_object()? {
            listed.push((symbol.clone(), names(targets)?));
        }
        nodes.push((name.clone(), listed));
    }
    Some(Nfa::new(start, final_states, alphabet, nodes))
}

fn table(dfa: &Dfa) -> HashMap<String, HashMap<String, String>> {
    dfa.nodes()
        .into_iter()
        .map(|(name, moves)| (name, moves.into_iter().collect()))
        .collect()
}

#[test]
fn automata_valid_nfa() {
    let input = r#"{
        "start": "1",
        "alphabet": ["a", "b"],
        "nodes": {
            "1": {
                "a": ["1", "2"],
                "b": ["1"]
            },
            "2": {
                "a": ["3"],
                "b": ["3"]
            },
            "3": {
                "a": ["1"],
                "b": ["2"]
            }
        },
        "final_states": ["3"]
    }"#;
    let unsanitary = decode(input).unwrap();
    unsanitary.check().unwrap();
}

#[test]
fn automata_invalid_nfa_final_state() {
    let input = r#"{
        "start": "1",
        "alphabet": ["a", "b"],
        "nodes": {
            "1": {
                "a": ["1", "2"],
                "b": ["1"]
            },
            "2": {
                "a": ["3"],
                "b": ["3"]
            },
            "3": {
                "a": ["1"],
                "b": ["2"]
            }
        },
        "final_states": ["3", "4"]
    }"#;
    let unsanitary = decode(input).unwrap();
    match unsanitary.check().unwrap_err() {
        NfaError::UnknownState(err) => assert_eq!(err, "4"),
        err => panic!("{:?}", err),
    }
}

#[test]
fn automata_invalid_nfa_state_transition() {
    let input = r#"{
        "start": "1",
        "alphabet": ["a", "b"],
        "nodes": {
            "1": {
                "a": ["1", "2"],
                "b": ["1"]
            },
            "2": {
                "a": ["3"],
                "b": ["3"]
            },
            "3": {
                "a": ["1"],
                "b": ["2", "4"]
            }
        },
        "final_states": ["3"]
    }"#;
    let unsanitary = decode(input).unwrap();
    match unsanitary.check().unwrap_err() {
        NfaError::UnknownState(err) => assert_eq!(err, "4"),
        err => panic!("{:?}", err),
    }
}

#[test]
fn automata_invalid_nfa_alphabet() {
    let input = r#"{
        "start": "1",
        "alphabet": ["a", "b"],
        "nodes": {
            "1": {
                "a": ["1", "2"],
                "b": ["1"],
                "c": ["1"]
            },
            "2": {
                "a": ["3"],
                "b": ["3"]
            },
            "3": {
                "a": ["1"],
                "b": ["2"]
            }
        },
        "final_states": ["3"]
    }"#;
    let unsanitary = decode(input).unwrap();
    match unsanitary.check().unwrap_err() {
        NfaError::UnknownSymbol(err) => assert_eq!(err, "c"),
        err => panic!("{:?}", err),
    }
}

#[test]
fn invalid_nfa_start_state() {
    let input = r#"{
        "start": "4",
        "alphabet": ["a", "b"],
        "nodes": {
            "1": {
                "a": ["1", "2"],
                "b": ["1"]
            },
            "2": {
                "a": ["3"],
                "b": ["3"]
            },
            "3": {
                "a": ["1"],
                "b": ["2"]
            }
        },
        "final_states": ["3"]
    }"#;
    let unsanitary = decode(input).unwrap();
    match unsanitary.check().unwrap_err() {
        NfaError::UnknownState(err) => assert_eq!(err, "4"),
        err => panic!("{:?}", err),
    }
}

#[test]
fn basic_deterministic_conversion() {
    let input = r#"{
        "start": "1",
        "alphabet": ["a", "b"],
        "nodes": {
            "1": {
                "a": ["1", "2"],
                "b": ["1"]
            },
            "2": {
                "a": ["3"],
                "b": ["3"]
            },
            "3": {}
        },
        "final_states": ["3"]
        }"#;
    let unsanitary = decode(input).unwrap();
    let nfa = unsanitary.check().unwrap();
    let dfa = nfa.make_deterministic();
    let final_states: HashSet<String> = dfa.final_states().into_iter().collect();
    let start = dfa.start();
    let alphabet: HashSet<String> = dfa.alphabet().into_iter().collect();
    let nodes = table(&dfa);
    assert_eq!(
        final_states,
        vec!["1 + 2 + 3".into(), "1 + 3".into()]
            .into_iter()
            .collect()
    );
    assert_eq!(start, "1".to_owned());
    assert_eq!(alphabet, vec!["a".into(), "b".into()].into_iter().collect());
    assert_eq!(
        nodes,
        vec![
            (
                "1".into(),
                vec![("a".into(), "1 + 2".into()), ("b".into(), "1".into())]
                    .into_iter()
                    .collect(),
            ),
            (
                "1 + 2".into(),
                vec![
                    ("a".into(), "1 + 2 + 3".into()),
                    ("b".into(), "1 + 3".into()),
                ].into_iter()
                    .collect(),
            ),
            (
                "1 + 2 + 3".into(),
                vec![
                    ("a".into(), "1 + 2 + 3".into()),
                    ("b".into(), "1 + 3".into()),
                ].into_iter()
                    .collect(),
            ),
            (
                "1 + 3".into(),
                vec![("a".into(), "1 + 2".into()), ("b".into(), "1".into())]
                    .into_iter()
                    .collect(),
            ),
        ].into_iter()
            .collect()
    );
}

#[test]
pub fn lint_dfa_minimised() {
    let input = r#"{
        "start": "1",
        "alphabet": ["a", "b"],
        "nodes": {
            "1": {
                "a": ["1", "2"],
                "b": ["1"]
            },
            "2": {
                "a": ["3"],
                "b": ["3"]
            },
            "3": {}
        },
        "final_states": ["3"]
        }"#;
    let unsanitary = decode(input).unwrap();
    let nfa = unsanitary.check().unwrap();
    let dfa = nfa.make_deterministic();
    assert!(dfa.lint_states().is_empty())
}

#[test]
pub fn lint_dfa_unminimised() {
    let input = r#"{
        "start": "1",
        "alphabet": ["a", "b"],
        "nodes": {
            "1": {
                "a": ["2"],
                "b": ["3"]
            },
            "2": {},
            "3": {
                "a": ["4"],
                "b": ["1"]
            },
            "4": {}
        },
        "final_states": ["2", "4"]
    }"#;
    let unsanitary = decode(input).unwrap();
    let nfa = unsanitary.check().unwrap();
    let dfa = nfa.make_deterministic();
    assert_eq!(
        dfa.lint_states()
            .into_iter()
            .map(|(x, y)| (x.to_owned(), y.to_owned()))
            .collect::<HashSet<_>>(),
        vec![("1".into(), "3".into()), ("2".into(), "4".into())]
            .into_iter()
            .collect()
    )
}

#[test]
pub fn optimise_dfa() {
    let input = r#"{
        "start": "1",
        "alphabet": ["a", "b"],
        "nodes": {
            "1": {
                "a": ["2"],
                "b": ["3"]
            },
            "2": {},
            "3": {
                "a": ["4"],
                "b": ["1"]
            },
            "4": {}
        },
        "final_states": ["2", "4"]
    }"#;
    let unsanitary = decode(input).unwrap();
    let nfa = unsanitary.check().unwrap();
    let dfa = nfa.make_deterministic();
    let minimal = dfa.minimise();
    println!("Output: {:?}", minimal);
    assert_eq!(minimal.len(), 2);
    assert_eq!(minimal.start(), "1 | 3");
    assert_eq!(minimal.final_states(), vec!["2 | 4".to_owned()]);
    assert_eq!(
        table(&minimal),
        vec![
            (
                "1 | 3".to_owned(),
                vec![("a".to_owned(), "2 | 4".to_owned()), ("b".to_owned(), "1 | 3".to_owned())]
                    .into_iter()
                    .collect::<HashMap<String, String>>(),
            ),
            (
                "2 | 4".to_owned(),
                vec![("a".to_owned(), String::new()), ("b".to_owned(), String::new())]
                    .into_iter()
                    .collect(),
            ),
        ].into_iter()
            .collect()
    );
}

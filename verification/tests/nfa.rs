use automata::{Nfa, NfaError, Unsanitary};

fn names(value: &serde_json::Value) -> Option<Vec<String>> {
    let mut listed = Vec::new();
    for item in value.as_array()? {
        listed.push(item.as_str()?.to_owned());
    }
    Some(listed)
}

/// Decodes a description that names no start state; the automaton starts in
/// the state that is listed first.
fn decode(input: &str) -> Option<Nfa<Unsanitary>> {
    let value: serde_json::Value = serde_json::from_str(input).ok()?;
    let object = value.as_object()?;
    let alphabet = names(object.get("alphabet")?)?;
    let final_states = names(object.get("final_states")?)?;
    let mut nodes = Vec::new();
    for (name, moves) in object.get("nodes")?.as_object()? {
        let mut listed = Vec::new();
        for (symbol, targets) in moves.as_object()? {
            listed.push((symbol.clone(), names(targets)?));
        }
        nodes.push((name.clone(), listed));
    }
    let start = nodes.first()?.0.clone();
    Some(Nfa::new(start, final_states, alphabet, nodes))
}

#[test]
fn nfa_valid_nfa() {
    let input = r#"{
        "alphabet": ["a", "b"],
        "nodes": {
            "1": {
                "a": ["1", "2"],
                "b": ["1"]
            },
            "2": {
                "a": ["3"],
                "b": ["3"]
            },
            "3": {
                "a": ["1"],
                "b": ["2"]
            }
        },
        "final_states": ["3"]
    }"#;
    let unsanitary = decode(input).unwrap();
    unsanitary.check().unwrap();
}

#[test]
fn nfa_invalid_nfa_final_state() {
    let input = r#"{
        "alphabet": ["a", "b"],
        "nodes": {
            "1": {
                "a": ["1", "2"],
                "b": ["1"]
            },
            "2": {
                "a": ["3"],
                "b": ["3"]
            },
            "3": {
                "a": ["1"],
                "b": ["2"]
            }
        },
        "final_states": ["3", "4"]
    }"#;
    let unsanitary = decode(input).unwrap();
    match unsanitary.check().unwrap_err() {
        NfaError::UnknownState(err) => assert_eq!(err, "4"),
        err => panic!("{:?}", err),
    }
}

#[test]
fn nfa_invalid_nfa_state_transition() {
    let input = r#"{
        "alphabet": ["a", "b"],
        "nodes": {
            "1": {
                "a": ["1", "2"],
                "b": ["1"]
            },
            "2": {
                "a": ["3"],
                "b": ["3"]
            },
            "3": {
                "a": ["1"],
                "b": ["2", "4"]
            }
        },
        "final_states": ["3"]
    }"#;
    let unsanitary = decode(input).unwrap();
    match unsanitary.check().unwrap_err() {
        NfaError::UnknownState(err) => assert_eq!(err, "4"),
        err => panic!("{:?}", err),
    }
}

#[test]
fn nfa_invalid_nfa_alphabet() {
    let input = r#"{
        "alphabet": ["a", "b"],
        "nodes": {
            "1": {
                "a": ["1", "2"],
                "b": ["1"],
                "c": ["1"]
            },
            "2": {
                "a": ["3"],
                "b": ["3"]
            },
            "3": {
                "a": ["1"],
                "b": ["2"]
            }
        },
        "final_states": ["3"]
    }"#;
    let unsanitary = decode(input).unwrap();
    match unsanitary.check().unwrap_err() {
        NfaError::UnknownSymbol(err) => assert_eq!(err, "c"),
        err => panic!("{:?}", err),
    }
}

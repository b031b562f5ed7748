use automata::names::{copy_names, name_le_exec, position};
use automata::{hash_states, Dfa, Nfa, NfaError, Unsanitary};
use std::collections::{BTreeSet, HashMap, HashSet};

/// A description of an automaton in plain values, with a reading of words
/// that is independent of the library.
struct Plain {
    start: &'static str,
    finals: Vec<&'static str>,
    alphabet: Vec<&'static str>,
    nodes: Vec<(&'static str, Vec<(&'static str, Vec<&'static str>)>)>,
}

impl Plain {
    fn build(&self) -> Nfa<Unsanitary> {
        Nfa::new(
            self.start.to_owned(),
            self.finals.iter().map(|s| s.to_string()).collect(),
            self.alphabet.iter().map(|s| s.to_string()).collect(),
            self.nodes
                .iter()
                .map(|(name, moves)| {
                    (
                        name.to_string(),
                        moves
                            .iter()
                            .map(|(symbol, targets)| {
                                (symbol.to_string(), targets.iter().map(|t| t.to_string()).collect())
                            })
                            .collect(),
                    )
                })
                .collect(),
        )
    }

    fn accepts(&self, word: &[&str]) -> bool {
        let mut current: BTreeSet<&str> = BTreeSet::new();
        current.insert(self.start);
        for symbol in word {
            let mut next = BTreeSet::new();
            for (name, moves) in &self.nodes {
                if current.contains(name) {
                    for (on, targets) in moves {
                        if on == symbol {
                            next.extend(targets.iter().copied());
                        }
                    }
                }
            }
            current = next;
        }
        self.finals.iter().any(|f| current.contains(f))
    }
}

fn words(symbols: &[&'static str], longest: usize) -> Vec<Vec<&'static str>> {
    let mut all: Vec<Vec<&'static str>> = vec![vec![]];
    let mut last: Vec<Vec<&'static str>> = vec![vec![]];
    for _ in 0..longest {
        let mut longer = Vec::new();
        for word in &last {
            for symbol in symbols {
                let mut next = word.clone();
                next.push(*symbol);
                longer.push(next);
            }
        }
        all.extend(longer.iter().cloned());
        last = longer;
    }
    all
}

fn owned(word: &[&str]) -> Vec<String> {
    word.iter().map(|s| s.to_string()).collect()
}

fn table(dfa: &Dfa) -> HashMap<String, HashMap<String, String>> {
    dfa.nodes()
        .into_iter()
        .map(|(name, moves)| (name, moves.into_iter().collect()))
        .collect()
}

fn row(moves: &[(&str, &str)]) -> HashMap<String, String> {
    moves.iter().map(|(x, t)| (x.to_string(), t.to_string())).collect()
}

fn looping() -> Plain {
    Plain {
        start: "1",
        finals: vec!["3"],
        alphabet: vec!["a", "b"],
        nodes: vec![
            ("1", vec![("a", vec!["1", "2"]), ("b", vec!["1"])]),
            ("2", vec![("a", vec!["3"]), ("b", vec!["3"])]),
            ("3", vec![("a", vec!["1"]), ("b", vec!["2"])]),
        ],
    }
}

fn mirrored() -> Plain {
    Plain {
        start: "1",
        finals: vec!["2", "4"],
        alphabet: vec!["a", "b"],
        nodes: vec![
            ("1", vec![("a", vec!["2"]), ("b", vec!["3"])]),
            ("2", vec![]),
            ("3", vec![("a", vec!["4"]), ("b", vec!["1"])]),
            ("4", vec![]),
        ],
    }
}

/// Final states can be reached on one path and missed on another.
fn branching() -> Plain {
    Plain {
        start: "s",
        finals: vec!["f"],
        alphabet: vec!["a", "b"],
        nodes: vec![
            ("s", vec![("a", vec!["p"]), ("b", vec!["q"])]),
            ("p", vec![("a", vec!["f"])]),
            ("q", vec![]),
            ("f", vec![]),
        ],
    }
}

/// The third symbol from the end is an `a`.
fn third_from_end() -> Plain {
    Plain {
        start: "0",
        finals: vec!["3"],
        alphabet: vec!["b", "a"],
        nodes: vec![
            ("3", vec![]),
            ("0", vec![("a", vec!["0", "1"]), ("b", vec!["0"])]),
            ("2", vec![("a", vec!["3"]), ("b", vec!["3"])]),
            ("1", vec![("a", vec!["2"]), ("b", vec!["2"])]),
        ],
    }
}

fn same_language(plain: &Plain, longest: usize) {
    let nfa = plain.build().check().unwrap();
    let mut symbols = plain.alphabet.clone();
    symbols.push("undeclared");
    let all = words(&symbols, longest);
    for word in &all {
        assert_eq!(nfa.accepts(&owned(word)), plain.accepts(word), "{:?}", word);
    }
    let dfa = nfa.make_deterministic();
    for word in &all {
        assert_eq!(dfa.accepts(&owned(word)), plain.accepts(word), "{:?}", word);
    }
    let states = dfa.len();
    let minimal = dfa.minimise();
    assert!(minimal.len() <= states);
    for word in &all {
        assert_eq!(minimal.accepts(&owned(word)), plain.accepts(word), "{:?}", word);
    }
    assert!(minimal.lint_states().is_empty());
    let states = minimal.len();
    let again = minimal.minimise();
    assert_eq!(again.len(), states);
    for word in &all {
        assert_eq!(again.accepts(&owned(word)), plain.accepts(word), "{:?}", word);
    }
}

#[test]
fn determinising_the_looping_automaton_gives_four_states() {
    let dfa = looping().build().check().unwrap().make_deterministic();
    assert_eq!(dfa.len(), 4);
    assert_eq!(dfa.start(), "1");
    let finals: HashSet<String> = dfa.final_states().into_iter().collect();
    assert_eq!(finals, vec!["1 + 2 + 3".to_owned(), "1 + 3".to_owned()].into_iter().collect());
    let expected: HashMap<String, HashMap<String, String>> = vec![
        ("1".to_owned(), row(&[("a", "1 + 2"), ("b", "1")])),
        ("1 + 2".to_owned(), row(&[("a", "1 + 2 + 3"), ("b", "1 + 3")])),
        ("1 + 2 + 3".to_owned(), row(&[("a", "1 + 2 + 3"), ("b", "1 + 2 + 3")])),
        ("1 + 3".to_owned(), row(&[("a", "1 + 2"), ("b", "1 + 2")])),
    ].into_iter().collect();
    assert_eq!(table(&dfa), expected);
}

#[test]
fn minimising_the_mirrored_automaton_merges_two_pairs() {
    let dfa = mirrored().build().check().unwrap().make_deterministic();
    assert_eq!(dfa.len(), 4);
    let names: Vec<String> = dfa.nodes().into_iter().map(|(name, _)| name).collect();
    assert_eq!(names, vec!["1", "2", "3", "4"]);
    let pairs: HashSet<(String, String)> = dfa.lint_states().into_iter().collect();
    assert_eq!(
        pairs,
        vec![("1".to_owned(), "3".to_owned()), ("2".to_owned(), "4".to_owned())]
            .into_iter()
            .collect()
    );
    let minimal = dfa.minimise();
    assert_eq!(minimal.len(), 2);
    let names: HashSet<String> = minimal.nodes().into_iter().map(|(name, _)| name).collect();
    assert_eq!(names, vec!["1 | 3".to_owned(), "2 | 4".to_owned()].into_iter().collect());
    assert_eq!(minimal.start(), "1 | 3");
    assert_eq!(minimal.final_states(), vec!["2 | 4".to_owned()]);
}

#[test]
fn undeclared_final_state_is_reported_and_nothing_is_converted() {
    let mut plain = looping();
    plain.finals = vec!["3", "7"];
    match plain.build().check() {
        Err(NfaError::UnknownState(name)) => assert_eq!(name, "7"),
        other => panic!("{:?}", other),
    }
}

#[test]
fn the_determinised_and_the_minimal_automaton_accept_the_same_words() {
    same_language(&looping(), 6);
    same_language(&mirrored(), 6);
    same_language(&branching(), 5);
    same_language(&third_from_end(), 7);
}

#[test]
fn the_looping_automaton_accepts_what_ends_in_a_final_state() {
    let nfa = looping().build().check().unwrap();
    assert!(!nfa.accepts(&Vec::new()));
    assert!(!nfa.accepts(&owned(&["a"])));
    assert!(nfa.accepts(&owned(&["a", "a"])));
    assert!(nfa.accepts(&owned(&["a", "b"])));
    assert!(nfa.accepts(&owned(&["b", "a", "b"])));
    assert!(!nfa.accepts(&owned(&["b", "b"])));
    assert!(!nfa.accepts(&owned(&["a", "c"])));
    let dfa = nfa.make_deterministic();
    assert!(!dfa.accepts(&Vec::new()));
    assert!(dfa.accepts(&owned(&["a", "a"])));
    assert!(dfa.accepts(&owned(&["a", "b"])));
    assert!(!dfa.accepts(&owned(&["b", "b"])));
    assert!(!dfa.accepts(&owned(&["a", "c"])));
    assert!(!dfa.accepts(&owned(&["a", "c", "a", "a"])));
}

#[test]
fn third_from_end_needs_eight_states() {
    let dfa = third_from_end().build().check().unwrap().make_deterministic();
    assert_eq!(dfa.len(), 8);
    assert_eq!(dfa.alphabet(), vec!["a".to_owned(), "b".to_owned()]);
    assert!(dfa.lint_states().is_empty());
    assert_eq!(dfa.minimise().len(), 8);
}

#[test]
fn states_are_told_apart_by_a_way_that_only_one_of_them_has() {
    // From `p` a final state can be reached, from `q` nothing can.
    let dfa = branching().build().check().unwrap().make_deterministic();
    assert_eq!(dfa.len(), 4);
    assert!(dfa.lint_states().is_empty());
    let minimal = dfa.minimise();
    assert_eq!(minimal.len(), 4);
    assert!(minimal.accepts(&owned(&["a", "a"])));
    assert!(!minimal.accepts(&owned(&["b", "a"])));
}

#[test]
fn the_dead_state_is_shown_by_the_empty_name() {
    let dfa = branching().build().check().unwrap().make_deterministic();
    let shown = table(&dfa);
    assert_eq!(shown["q"], row(&[("a", ""), ("b", "")]));
    assert_eq!(shown["p"], row(&[("a", "f"), ("b", "")]));
    assert_eq!(shown["s"], row(&[("a", "p"), ("b", "q")]));
    assert!(!shown.contains_key(""));
    assert!(!dfa.accepts(&owned(&["b", "b", "a"])));
}

#[test]
fn validation_looks_at_the_start_state_first() {
    let plain = Plain {
        start: "nowhere",
        finals: vec!["gone"],
        alphabet: vec!["a"],
        nodes: vec![("1", vec![("z", vec!["lost"])])],
    };
    match plain.build().check() {
        Err(NfaError::UnknownState(name)) => assert_eq!(name, "nowhere"),
        other => panic!("{:?}", other),
    }
}

#[test]
fn validation_looks_at_final_states_before_transitions() {
    let plain = Plain {
        start: "1",
        finals: vec!["1", "gone", "away"],
        alphabet: vec!["a"],
        nodes: vec![("1", vec![("z", vec!["lost"])])],
    };
    match plain.build().check() {
        Err(NfaError::UnknownState(name)) => assert_eq!(name, "gone"),
        other => panic!("{:?}", other),
    }
}

#[test]
fn validation_looks_at_all_symbols_before_any_destination() {
    let plain = Plain {
        start: "1",
        finals: vec![],
        alphabet: vec!["a"],
        nodes: vec![
            ("1", vec![("a", vec!["lost"])]),
            ("2", vec![("a", vec!["1"]), ("y", vec!["1"]), ("z", vec!["1"])]),
        ],
    };
    match plain.build().check() {
        Err(NfaError::UnknownSymbol(symbol)) => assert_eq!(symbol, "y"),
        other => panic!("{:?}", other),
    }
}

#[test]
fn validation_reports_the_first_unknown_destination() {
    let plain = Plain {
        start: "1",
        finals: vec![],
        alphabet: vec!["a", "b"],
        nodes: vec![
            ("1", vec![("a", vec!["1"]), ("b", vec!["1", "lost", "gone"])]),
            ("2", vec![("a", vec!["away"])]),
        ],
    };
    match plain.build().check() {
        Err(NfaError::UnknownState(name)) => assert_eq!(name, "lost"),
        other => panic!("{:?}", other),
    }
}

#[test]
fn a_valid_automaton_comes_back_as_it_was() {
    let plain = looping();
    let nfa = plain.build().check().unwrap();
    assert_eq!(nfa.start(), "1");
    assert_eq!(nfa.final_states(), &vec!["3".to_owned()]);
    assert_eq!(nfa.alphabet(), &vec!["a".to_owned(), "b".to_owned()]);
    assert_eq!(nfa.nodes().len(), 3);
    assert_eq!(nfa.nodes()[0].0, "1");
    assert_eq!(nfa.nodes()[0].1[0], ("a".to_owned(), vec!["1".to_owned(), "2".to_owned()]));
    assert!(nfa.has_state(&"2".to_owned()));
    assert!(!nfa.has_state(&"4".to_owned()));
}

#[test]
fn an_automaton_with_one_state_and_no_symbols_is_valid() {
    let plain = Plain { start: "only", finals: vec!["only"], alphabet: vec![], nodes: vec![("only", vec![])] };
    let dfa = plain.build().check().unwrap().make_deterministic();
    assert_eq!(dfa.len(), 1);
    assert_eq!(dfa.start(), "only");
    assert!(dfa.alphabet().is_empty());
    assert!(dfa.accepts(&Vec::new()));
    assert!(!dfa.accepts(&owned(&["a"])));
    let minimal = dfa.minimise();
    assert_eq!(minimal.len(), 1);
    assert_eq!(minimal.start(), "only");
    assert_eq!(minimal.final_states(), vec!["only".to_owned()]);
}

#[test]
fn an_automaton_without_states_is_rejected() {
    let plain = Plain { start: "1", finals: vec![], alphabet: vec!["a"], nodes: vec![] };
    match plain.build().check() {
        Err(NfaError::UnknownState(name)) => assert_eq!(name, "1"),
        other => panic!("{:?}", other),
    }
}

#[test]
fn errors_are_put_in_words() {
    assert_eq!(NfaError::UnknownState("4".to_owned()).message(), "unknown state: 4");
    assert_eq!(NfaError::UnknownSymbol("c".to_owned()).message(), "unknown symbol: c");
}

#[test]
fn a_set_is_named_by_its_members_in_ascending_order() {
    assert_eq!(hash_states(&vec![]), "");
    assert_eq!(hash_states(&vec!["1".to_owned()]), "1");
    assert_eq!(hash_states(&vec!["1".to_owned(), "2".to_owned(), "3".to_owned()]), "1 + 2 + 3");
    assert_eq!(hash_states(&vec!["b".to_owned(), "a".to_owned()]), "a + b");
    assert_eq!(hash_states(&vec!["2".to_owned(), "1".to_owned()]), "1 + 2");
    assert_eq!(
        hash_states(&vec!["2".to_owned(), "1".to_owned()]),
        hash_states(&vec!["1".to_owned(), "2".to_owned()])
    );
}

#[test]
fn a_member_listed_twice_is_named_once() {
    assert_eq!(hash_states(&vec!["2".to_owned(), "1".to_owned(), "2".to_owned()]), "1 + 2");
    assert_eq!(hash_states(&vec!["x".to_owned(), "x".to_owned()]), "x");
    assert_eq!(
        hash_states(&vec!["9".to_owned(), "10".to_owned(), "9".to_owned(), "é".to_owned()]),
        "10 + 9 + é"
    );
}

#[test]
fn names_are_ordered_byte_by_byte() {
    assert!(name_le_exec("", ""));
    assert!(name_le_exec("", "a"));
    assert!(!name_le_exec("a", ""));
    assert!(name_le_exec("a", "a"));
    assert!(name_le_exec("a", "ab"));
    assert!(!name_le_exec("ab", "a"));
    assert!(name_le_exec("10", "9"));
    assert!(!name_le_exec("9", "10"));
    assert!(name_le_exec("Z", "a"));
    assert!(name_le_exec("z", "é"));
    assert!(!name_le_exec("é", "z"));
    assert!(name_le_exec("é", "日"));
}

#[test]
fn the_members_of_a_set_are_named_in_ascending_order_whatever_the_listing() {
    let plain = Plain {
        start: "9",
        finals: vec!["10"],
        alphabet: vec!["x"],
        nodes: vec![
            ("9", vec![("x", vec!["9", "2", "10"])]),
            ("2", vec![]),
            ("10", vec![]),
        ],
    };
    let dfa = plain.build().check().unwrap().make_deterministic();
    let names: HashSet<String> = dfa.nodes().into_iter().map(|(name, _)| name).collect();
    assert_eq!(names, vec!["9".to_owned(), "10 + 2 + 9".to_owned()].into_iter().collect());
    assert_eq!(dfa.final_states(), vec!["10 + 2 + 9".to_owned()]);
}

#[test]
fn what_is_listed_twice_adds_up() {
    let plain = Plain {
        start: "1",
        finals: vec!["2", "2"],
        alphabet: vec!["a", "a", "b"],
        nodes: vec![
            ("1", vec![("a", vec!["1"])]),
            ("2", vec![]),
            ("1", vec![("a", vec!["2", "2"]), ("b", vec!["2"]), ("a", vec!["1"])]),
        ],
    };
    let dfa = plain.build().check().unwrap().make_deterministic();
    assert_eq!(dfa.alphabet(), vec!["a".to_owned(), "b".to_owned()]);
    let expected: HashMap<String, HashMap<String, String>> = vec![
        ("1".to_owned(), row(&[("a", "1 + 2"), ("b", "2")])),
        ("1 + 2".to_owned(), row(&[("a", "1 + 2"), ("b", "2")])),
        ("2".to_owned(), row(&[("a", ""), ("b", "")])),
    ].into_iter().collect();
    assert_eq!(table(&dfa), expected);
    same_language(&plain, 5);
}

#[test]
fn sets_with_the_same_display_name_stay_different_states() {
    // The set of `1` and `2` and the state `1 + 2` are shown alike.
    let plain = Plain {
        start: "0",
        finals: vec!["1 + 2"],
        alphabet: vec!["a", "b"],
        nodes: vec![
            ("0", vec![("a", vec!["1", "2"]), ("b", vec!["1 + 2"])]),
            ("1", vec![]),
            ("2", vec![]),
            ("1 + 2", vec![]),
        ],
    };
    let dfa = plain.build().check().unwrap().make_deterministic();
    assert_eq!(dfa.len(), 3);
    let names: Vec<String> = dfa.nodes().into_iter().map(|(name, _)| name).collect();
    assert_eq!(names.iter().filter(|name| name.as_str() == "1 + 2").count(), 2);
    assert!(!dfa.accepts(&owned(&["a"])));
    assert!(dfa.accepts(&owned(&["b"])));
    same_language(&plain, 4);
}

#[test]
fn a_class_is_named_by_all_its_members_in_listing_order() {
    let plain = Plain {
        start: "s",
        finals: vec!["c", "a", "b"],
        alphabet: vec!["x", "y", "z"],
        nodes: vec![
            ("s", vec![("x", vec!["c"]), ("y", vec!["a"]), ("z", vec!["b"])]),
            ("a", vec![]),
            ("b", vec![]),
            ("c", vec![]),
        ],
    };
    let dfa = plain.build().check().unwrap().make_deterministic();
    assert_eq!(dfa.len(), 4);
    let pairs = dfa.lint_states();
    assert_eq!(pairs.len(), 3);
    let found: HashSet<(String, String)> = pairs.into_iter().collect();
    assert_eq!(
        found,
        vec![
            ("a".to_owned(), "b".to_owned()),
            ("a".to_owned(), "c".to_owned()),
            ("b".to_owned(), "c".to_owned()),
        ].into_iter().collect()
    );
    let minimal = dfa.minimise();
    assert_eq!(minimal.len(), 2);
    assert_eq!(minimal.final_states(), vec!["a | b | c".to_owned()]);
    assert_eq!(table(&minimal)["s"], row(&[("x", "a | b | c"), ("y", "a | b | c"), ("z", "a | b | c")]));
}

#[test]
fn the_start_state_takes_the_name_of_its_class() {
    let plain = Plain {
        start: "t",
        finals: vec![],
        alphabet: vec!["x"],
        nodes: vec![("t", vec![("x", vec!["s"])]), ("s", vec![("x", vec!["t"])])],
    };
    let minimal = plain.build().check().unwrap().make_deterministic().minimise();
    assert_eq!(minimal.len(), 1);
    assert_eq!(minimal.start(), "s | t");
    assert!(minimal.final_states().is_empty());
    assert_eq!(table(&minimal)["s | t"], row(&[("x", "s | t")]));
}

#[test]
fn names_are_looked_up_and_copied() {
    let listed = vec!["b".to_owned(), "a".to_owned(), "b".to_owned()];
    assert_eq!(position(&listed, &"b".to_owned()), Some(0));
    assert_eq!(position(&listed, &"a".to_owned()), Some(1));
    assert_eq!(position(&listed, &"c".to_owned()), None);
    assert_eq!(copy_names(&listed), listed);
}

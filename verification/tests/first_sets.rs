use item_sets::builder::ParseItemSetBuilder;
use item_sets::grammar::{
    ExternalToken, LexicalGrammar, LexicalVariable, Production, ProductionStep, SyntaxGrammar,
    SyntaxVariable,
};
use item_sets::item::InlinedProductionMap;
use item_sets::lookahead::LookaheadSet;
use item_sets::symbol::Symbol;

fn production(symbols: Vec<Symbol>) -> Production {
    Production { steps: symbols.into_iter().map(|symbol| ProductionStep { symbol }).collect() }
}

fn variable(name: &str, productions: Vec<Production>) -> SyntaxVariable {
    SyntaxVariable { name: name.to_string(), productions }
}

fn lexical(names: &[&str]) -> LexicalGrammar {
    LexicalGrammar {
        variables: names.iter().map(|name| LexicalVariable { name: name.to_string() }).collect(),
    }
}

fn externals(names: &[&str]) -> Vec<ExternalToken> {
    names.iter().map(|name| ExternalToken { name: name.to_string() }).collect()
}

fn set_of(symbols: &[Symbol]) -> LookaheadSet {
    let mut set = LookaheadSet::new();
    for symbol in symbols {
        set.insert(*symbol);
    }
    set
}

fn t(index: usize) -> Symbol {
    Symbol::terminal(index)
}

fn n(index: usize) -> Symbol {
    Symbol::non_terminal(index)
}

#[test]
fn first_set_collects_the_leading_token_of_each_alternative() {
    // A -> 'x' B | 'y',  B -> 'z'
    let grammar = SyntaxGrammar {
        variables: vec![
            variable("A", vec![production(vec![t(0), n(1)]), production(vec![t(1)])]),
            variable("B", vec![production(vec![t(2)])]),
        ],
        external_tokens: vec![],
        variables_to_inline: vec![],
    };
    let builder = ParseItemSetBuilder::new(
        &grammar,
        &lexical(&["x", "y", "z"]),
        InlinedProductionMap::new(),
    );
    let first = builder.first_set(&n(0));
    assert!(first.equals(&set_of(&[t(0), t(1)])));
    assert!(first.contains(&t(0)));
    assert!(first.contains(&t(1)));
    assert!(!first.contains(&t(2)));
    assert!(builder.first_set(&n(1)).equals(&set_of(&[t(2)])));
}

#[test]
fn first_set_of_a_sequence_is_that_of_its_head() {
    // A -> B C,  B -> 'b',  C -> 'c'
    let grammar = SyntaxGrammar {
        variables: vec![
            variable("A", vec![production(vec![n(1), n(2)])]),
            variable("B", vec![production(vec![t(0)])]),
            variable("C", vec![production(vec![t(1)])]),
        ],
        external_tokens: vec![],
        variables_to_inline: vec![],
    };
    let builder =
        ParseItemSetBuilder::new(&grammar, &lexical(&["b", "c"]), InlinedProductionMap::new());
    assert!(builder.first_set(&n(0)).equals(&set_of(&[t(0)])));
    assert!(builder.first_set(&n(1)).equals(&set_of(&[t(0)])));
    assert!(!builder.first_set(&n(0)).contains(&t(1)));

    // The same with another C: FIRST(A) does not depend on it.
    let other = SyntaxGrammar {
        variables: vec![
            variable("A", vec![production(vec![n(1), n(2)])]),
            variable("B", vec![production(vec![t(0)])]),
            variable("C", vec![production(vec![t(1), t(0)]), production(vec![n(0)])]),
        ],
        external_tokens: vec![],
        variables_to_inline: vec![],
    };
    let other_builder =
        ParseItemSetBuilder::new(&other, &lexical(&["b", "c"]), InlinedProductionMap::new());
    assert!(other_builder.first_set(&n(0)).equals(builder.first_set(&n(0))));
}

#[test]
fn last_set_of_a_sequence_is_that_of_its_tail() {
    // A -> B C,  B -> 'b',  C -> 'c' | A
    let grammar = SyntaxGrammar {
        variables: vec![
            variable("A", vec![production(vec![n(1), n(2)])]),
            variable("B", vec![production(vec![t(0)])]),
            variable("C", vec![production(vec![t(1)]), production(vec![n(0)])]),
        ],
        external_tokens: vec![],
        variables_to_inline: vec![],
    };
    let builder =
        ParseItemSetBuilder::new(&grammar, &lexical(&["b", "c"]), InlinedProductionMap::new());
    assert!(builder.last_set(&n(0)).equals(&set_of(&[t(1)])));
    assert!(builder.last_set(&n(1)).equals(&set_of(&[t(0)])));
    assert!(builder.last_set(&n(2)).equals(&set_of(&[t(1)])));
}

#[test]
fn tokens_are_their_own_first_and_last_sets() {
    let grammar = SyntaxGrammar {
        variables: vec![variable("A", vec![production(vec![t(0), Symbol::external(1)])])],
        external_tokens: externals(&["indent", "dedent"]),
        variables_to_inline: vec![],
    };
    let builder =
        ParseItemSetBuilder::new(&grammar, &lexical(&["x", "y"]), InlinedProductionMap::new());
    for index in 0..2 {
        let terminal = Symbol::terminal(index);
        assert!(builder.first_set(&terminal).equals(&set_of(&[terminal])));
        assert!(builder.last_set(&terminal).equals(&set_of(&[terminal])));
        let external = Symbol::external(index);
        assert!(builder.first_set(&external).equals(&set_of(&[external])));
        assert!(builder.last_set(&external).equals(&set_of(&[external])));
    }
    assert!(builder.first_set(&n(0)).equals(&set_of(&[t(0)])));
    assert!(builder.last_set(&n(0)).equals(&set_of(&[Symbol::external(1)])));
}

#[test]
fn recursive_grammars_have_exact_sets() {
    // A -> A 'x' | 'y',  B -> 'z' B | A
    let grammar = SyntaxGrammar {
        variables: vec![
            variable("A", vec![production(vec![n(0), t(0)]), production(vec![t(1)])]),
            variable("B", vec![production(vec![t(2), n(1)]), production(vec![n(0)])]),
        ],
        external_tokens: vec![],
        variables_to_inline: vec![],
    };
    let builder = ParseItemSetBuilder::new(
        &grammar,
        &lexical(&["x", "y", "z"]),
        InlinedProductionMap::new(),
    );
    assert!(builder.first_set(&n(0)).equals(&set_of(&[t(1)])));
    assert!(builder.last_set(&n(0)).equals(&set_of(&[t(0), t(1)])));
    assert!(builder.first_set(&n(1)).equals(&set_of(&[t(1), t(2)])));
    assert!(builder.last_set(&n(1)).equals(&set_of(&[t(0), t(1)])));
}

#[test]
fn empty_productions_contribute_nothing() {
    // A -> (nothing) | B,  B -> B
    let grammar = SyntaxGrammar {
        variables: vec![
            variable("A", vec![production(vec![]), production(vec![n(1)])]),
            variable("B", vec![production(vec![n(1)])]),
        ],
        external_tokens: vec![],
        variables_to_inline: vec![],
    };
    let builder = ParseItemSetBuilder::new(&grammar, &lexical(&["x"]), InlinedProductionMap::new());
    assert!(builder.first_set(&n(0)).equals(&LookaheadSet::new()));
    assert!(builder.last_set(&n(0)).equals(&LookaheadSet::new()));
    assert!(builder.first_set(&n(1)).equals(&LookaheadSet::new()));
}

#[test]
fn lookahead_sets_insert_and_unite() {
    let mut set = LookaheadSet::new();
    assert!(!set.contains(&t(3)));
    set.insert(t(3));
    set.insert(Symbol::external(0));
    set.insert(Symbol::end());
    assert!(set.contains(&t(3)));
    assert!(set.contains(&Symbol::external(0)));
    assert!(set.contains(&Symbol::end()));
    assert!(!set.contains(&t(0)));
    assert!(!set.contains(&Symbol::external(3)));
    assert!(!set.contains(&n(3)));

    let mut other = set_of(&[t(3)]);
    // Nothing new: no change.
    assert!(!set.insert_all(&other));
    // Something new: a change, reported once.
    other.insert(t(7));
    assert!(set.insert_all(&other));
    assert!(!set.insert_all(&other));
    assert!(set.equals(&set_of(&[t(3), t(7), Symbol::external(0), Symbol::end()])));
    assert!(!set.equals(&other));
    assert!(set.clone().equals(&set));

    // Sets that hold the same tokens are equal however they were built.
    let mut grown = set_of(&[t(9)]);
    let mut small = LookaheadSet::new();
    assert!(!grown.insert_all(&small));
    assert!(small.insert_all(&grown));
    assert!(small.equals(&grown));
    grown = set_of(&[t(1)]);
    assert!(!grown.equals(&set_of(&[Symbol::external(1)])));
}

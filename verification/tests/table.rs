use item_sets::additions::{find_or_push, FollowSetInfo, TransitiveClosureAddition};
use item_sets::builder::ParseItemSetBuilder;
use item_sets::follow::follow_sets;
use item_sets::grammar::{
    LexicalGrammar, LexicalVariable, Production, ProductionStep, SyntaxGrammar, SyntaxVariable,
};
use item_sets::item::{InlinedItems, InlinedProductionMap, ParseItem, ParseItemSet};
use item_sets::lookahead::LookaheadSet;
use item_sets::symbol::Symbol;
use item_sets::symbol_sets::{traverse, SymbolSets};
use item_sets::table::{collect_additions, expansion_additions};

fn production(symbols: Vec<Symbol>) -> Production {
    Production { steps: symbols.into_iter().map(|symbol| ProductionStep { symbol }).collect() }
}

fn variable(name: &str, productions: Vec<Production>) -> SyntaxVariable {
    SyntaxVariable { name: name.to_string(), productions }
}

fn lexical(names: &[&str]) -> LexicalGrammar {
    LexicalGrammar {
        variables: names.iter().map(|name| LexicalVariable { name: name.to_string() }).collect(),
    }
}

fn set_of(symbols: &[Symbol]) -> LookaheadSet {
    let mut set = LookaheadSet::new();
    for symbol in symbols {
        set.insert(*symbol);
    }
    set
}

fn t(index: usize) -> Symbol {
    Symbol::terminal(index)
}

fn n(index: usize) -> Symbol {
    Symbol::non_terminal(index)
}

fn addition(item: ParseItem, lookaheads: &[Symbol], propagates: bool) -> TransitiveClosureAddition {
    TransitiveClosureAddition {
        item,
        info: FollowSetInfo { lookaheads: set_of(lookaheads), propagates_lookaheads: propagates },
    }
}

/// Whether the two lists hold the same additions, each once.
fn same_additions(left: &[TransitiveClosureAddition], right: &[TransitiveClosureAddition]) -> bool {
    left.len() == right.len()
        && left.iter().all(|a| right.iter().filter(|b| a.equals(b)).count() == 1)
}

/// E -> E '+' T | T,  T -> T '*' F | F,  F -> '(' E ')' | 'id'
fn expression_grammar() -> (SyntaxGrammar, LexicalGrammar) {
    let grammar = SyntaxGrammar {
        variables: vec![
            variable("E", vec![production(vec![n(0), t(0), n(1)]), production(vec![n(1)])]),
            variable("T", vec![production(vec![n(1), t(1), n(2)]), production(vec![n(2)])]),
            variable("F", vec![production(vec![t(2), n(0), t(3)]), production(vec![t(4)])]),
        ],
        external_tokens: vec![],
        variables_to_inline: vec![],
    };
    (grammar, lexical(&["+", "*", "(", ")", "id"]))
}

#[test]
fn find_or_push_appends_what_is_new() {
    let mut list = Vec::new();
    find_or_push(&mut list, addition(ParseItem::normal(0, 0, 0), &[t(0)], true));
    find_or_push(&mut list, addition(ParseItem::normal(0, 1, 0), &[t(0)], true));
    assert_eq!(list.len(), 2);
    // An equal addition is not added again, however its set was built.
    let mut united = LookaheadSet::new();
    united.insert_all(&set_of(&[t(0)]));
    find_or_push(
        &mut list,
        TransitiveClosureAddition {
            item: ParseItem::normal(0, 0, 0),
            info: FollowSetInfo { lookaheads: united, propagates_lookaheads: true },
        },
    );
    assert_eq!(list.len(), 2);
    // Another item, other tokens or another mark make another addition.
    find_or_push(&mut list, addition(ParseItem::inlined(0, 0, 0), &[t(0)], true));
    find_or_push(&mut list, addition(ParseItem::normal(0, 0, 0), &[t(1)], true));
    find_or_push(&mut list, addition(ParseItem::normal(0, 0, 0), &[t(0)], false));
    assert_eq!(list.len(), 5);
    assert!(list[0].equals(&addition(ParseItem::normal(0, 0, 0), &[t(0)], true)));
    assert!(list[4].equals(&addition(ParseItem::normal(0, 0, 0), &[t(0)], false)));
    assert!(!list[0].equals(&list[4]));
}

#[test]
fn traverse_finds_first_and_last_tokens() {
    let (grammar, lexical_grammar) = expression_grammar();
    for variable_index in 0..3 {
        assert!(traverse(&grammar, &lexical_grammar, variable_index, false)
            .equals(&set_of(&[t(2), t(4)])));
        assert!(traverse(&grammar, &lexical_grammar, variable_index, true)
            .equals(&set_of(&[t(3), t(4)])));
    }
}

#[test]
fn follow_sets_of_the_expression_grammar() {
    let (grammar, lexical_grammar) = expression_grammar();
    let first_sets = SymbolSets::build(&grammar, &lexical_grammar, false);

    // From E: E is followed by '+' and by what follows the expansion; T, besides, by '*'.
    let from_e = follow_sets(&grammar, &lexical_grammar, &first_sets, 0);
    assert_eq!(from_e.len(), 3);
    let e = from_e[0].as_ref().unwrap();
    assert!(e.lookaheads.equals(&set_of(&[t(0)])));
    assert!(e.propagates_lookaheads);
    let term = from_e[1].as_ref().unwrap();
    assert!(term.lookaheads.equals(&set_of(&[t(0), t(1)])));
    assert!(term.propagates_lookaheads);
    let factor = from_e[2].as_ref().unwrap();
    assert!(factor.lookaheads.equals(&set_of(&[t(0), t(1)])));
    assert!(factor.propagates_lookaheads);

    // From T: E is not come upon.
    let from_t = follow_sets(&grammar, &lexical_grammar, &first_sets, 1);
    assert!(from_t[0].is_none());
    assert!(from_t[1].as_ref().unwrap().lookaheads.equals(&set_of(&[t(1)])));
    assert!(from_t[1].as_ref().unwrap().propagates_lookaheads);
    assert!(from_t[2].as_ref().unwrap().lookaheads.equals(&set_of(&[t(1)])));
    assert!(from_t[2].as_ref().unwrap().propagates_lookaheads);

    // From F: only F itself, with nothing but what follows the expansion.
    let from_f = follow_sets(&grammar, &lexical_grammar, &first_sets, 2);
    assert!(from_f[0].is_none());
    assert!(from_f[1].is_none());
    assert!(from_f[2].as_ref().unwrap().lookaheads.equals(&LookaheadSet::new()));
    assert!(from_f[2].as_ref().unwrap().propagates_lookaheads);
}

#[test]
fn follow_sets_do_not_propagate_past_a_follower() {
    // S -> A 'x',  A -> B,  B -> 'b' | B 'y'
    let grammar = SyntaxGrammar {
        variables: vec![
            variable("S", vec![production(vec![n(1), t(0)])]),
            variable("A", vec![production(vec![n(2)])]),
            variable("B", vec![production(vec![t(1)]), production(vec![n(2), t(2)])]),
        ],
        external_tokens: vec![],
        variables_to_inline: vec![],
    };
    let lexical_grammar = lexical(&["x", "b", "y"]);
    let first_sets = SymbolSets::build(&grammar, &lexical_grammar, false);
    let infos = follow_sets(&grammar, &lexical_grammar, &first_sets, 0);
    let s = infos[0].as_ref().unwrap();
    assert!(s.propagates_lookaheads && s.lookaheads.equals(&LookaheadSet::new()));
    // A is followed by 'x'; B stands in A's place, and is followed by 'y' inside itself.
    let a = infos[1].as_ref().unwrap();
    assert!(!a.propagates_lookaheads && a.lookaheads.equals(&set_of(&[t(0)])));
    let b = infos[2].as_ref().unwrap();
    assert!(!b.propagates_lookaheads && b.lookaheads.equals(&set_of(&[t(0), t(2)])));
}

#[test]
fn additions_of_the_expression_grammar() {
    let (grammar, lexical_grammar) = expression_grammar();
    let first_sets = SymbolSets::build(&grammar, &lexical_grammar, false);
    let inlines = InlinedProductionMap::new();
    let from_e = expansion_additions(&grammar, &lexical_grammar, &first_sets, &inlines, 0);
    assert!(same_additions(
        &from_e,
        &[
            addition(ParseItem::normal(0, 0, 0), &[t(0)], true),
            addition(ParseItem::normal(0, 1, 0), &[t(0)], true),
            addition(ParseItem::normal(1, 0, 0), &[t(0), t(1)], true),
            addition(ParseItem::normal(1, 1, 0), &[t(0), t(1)], true),
            addition(ParseItem::normal(2, 0, 0), &[t(0), t(1)], true),
            addition(ParseItem::normal(2, 1, 0), &[t(0), t(1)], true),
        ]
    ));
    let from_f = expansion_additions(&grammar, &lexical_grammar, &first_sets, &inlines, 2);
    assert!(same_additions(
        &from_f,
        &[
            addition(ParseItem::normal(2, 0, 0), &[], true),
            addition(ParseItem::normal(2, 1, 0), &[], true),
        ]
    ));
}

#[test]
fn left_recursion_ends_with_tokens_of_the_alphabet() {
    // A -> A 'x' | 'y'
    let grammar = SyntaxGrammar {
        variables: vec![variable(
            "A",
            vec![production(vec![n(0), t(0)]), production(vec![t(1)])],
        )],
        external_tokens: vec![],
        variables_to_inline: vec![],
    };
    let lexical_grammar = lexical(&["x", "y"]);
    let first_sets = SymbolSets::build(&grammar, &lexical_grammar, false);
    let additions =
        expansion_additions(&grammar, &lexical_grammar, &first_sets, &InlinedProductionMap::new(), 0);
    assert!(same_additions(
        &additions,
        &[
            addition(ParseItem::normal(0, 0, 0), &[t(0)], true),
            addition(ParseItem::normal(0, 1, 0), &[t(0)], true),
        ]
    ));
    for addition in &additions {
        let mut alphabet = set_of(&[t(0), t(1)]);
        assert!(!alphabet.insert_all(&addition.info.lookaheads));
    }
    let builder = ParseItemSetBuilder::new(&grammar, &lexical_grammar, InlinedProductionMap::new());
    let mut kernel = ParseItemSet::new();
    kernel.insert(ParseItem::normal(0, 0, 0), set_of(&[Symbol::end()]));
    let closure = builder.transitive_closure(&kernel, &grammar);
    assert_eq!(closure.len(), 2);
    assert!(closure.get(&ParseItem::normal(0, 0, 0)).unwrap().equals(&set_of(&[Symbol::end()])));
    assert!(closure.get(&ParseItem::normal(0, 1, 0)).unwrap().equals(&set_of(&[t(0)])));
}

#[test]
fn additions_skip_inlined_variables_and_use_substitutes() {
    // S -> 'a' I 'c' | I,  I -> 'b' | 'd' S,  with I inlined.
    let grammar = SyntaxGrammar {
        variables: vec![
            variable("S", vec![production(vec![t(0), n(1), t(2)]), production(vec![n(1)])]),
            variable("I", vec![production(vec![t(1)]), production(vec![t(3), n(0)])]),
        ],
        external_tokens: vec![],
        variables_to_inline: vec![n(1)],
    };
    let lexical_grammar = lexical(&["a", "b", "c", "d"]);
    let inlines = InlinedProductionMap {
        inlined_productions: vec![
            production(vec![t(0), t(1), t(2)]),
            production(vec![t(0), t(3), n(0), t(2)]),
            production(vec![t(1)]),
            production(vec![t(3), n(0)]),
        ],
        item_map: vec![
            InlinedItems { item: ParseItem::normal(0, 0, 1), production_indices: vec![0, 1] },
            InlinedItems { item: ParseItem::normal(0, 1, 0), production_indices: vec![2, 3] },
        ],
    };
    let first_sets = SymbolSets::build(&grammar, &lexical_grammar, false);
    let infos = follow_sets(&grammar, &lexical_grammar, &first_sets, 0);
    // S comes upon I through S -> I, in the same context.
    assert!(infos[1].as_ref().unwrap().propagates_lookaheads);
    let collected = collect_additions(&grammar, &inlines, &infos);
    let expected = [
        addition(ParseItem::normal(0, 0, 0), &[], true),
        addition(ParseItem::inlined(0, 2, 0), &[], true),
        addition(ParseItem::inlined(0, 3, 0), &[], true),
    ];
    assert!(same_additions(&collected, &expected));
    let additions = expansion_additions(&grammar, &lexical_grammar, &first_sets, &inlines, 0);
    assert!(same_additions(&additions, &expected));
    assert!(additions.iter().all(|addition| addition.item.variable_index != 1));
}

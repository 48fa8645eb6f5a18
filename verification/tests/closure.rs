use item_sets::builder::ParseItemSetBuilder;
use item_sets::grammar::{
    LexicalGrammar, LexicalVariable, Production, ProductionStep, SyntaxGrammar, SyntaxVariable,
};
use item_sets::item::{InlinedItems, InlinedProductionMap, ParseItem, ParseItemSet};
use item_sets::lookahead::LookaheadSet;
use item_sets::symbol::Symbol;

fn production(symbols: Vec<Symbol>) -> Production {
    Production { steps: symbols.into_iter().map(|symbol| ProductionStep { symbol }).collect() }
}

fn variable(name: &str, productions: Vec<Production>) -> SyntaxVariable {
    SyntaxVariable { name: name.to_string(), productions }
}

fn lexical(names: &[&str]) -> LexicalGrammar {
    LexicalGrammar {
        variables: names.iter().map(|name| LexicalVariable { name: name.to_string() }).collect(),
    }
}

fn set_of(symbols: &[Symbol]) -> LookaheadSet {
    let mut set = LookaheadSet::new();
    for symbol in symbols {
        set.insert(*symbol);
    }
    set
}

fn kernel_of(entries: &[(ParseItem, &[Symbol])]) -> ParseItemSet {
    let mut set = ParseItemSet::new();
    for (item, lookaheads) in entries {
        set.insert(*item, set_of(lookaheads));
    }
    set
}

fn t(index: usize) -> Symbol {
    Symbol::terminal(index)
}

fn n(index: usize) -> Symbol {
    Symbol::non_terminal(index)
}

fn assert_entry(set: &ParseItemSet, item: ParseItem, expected: &[Symbol]) {
    match set.get(&item) {
        Some(lookaheads) => assert!(
            lookaheads.equals(&set_of(expected)),
            "{:?} has {:?}, not {:?}",
            item,
            lookaheads,
            expected
        ),
        None => panic!("no entry for {:?}", item),
    }
}

fn same_sets(left: &ParseItemSet, right: &ParseItemSet) -> bool {
    left.len() == right.len()
        && left.entries.iter().all(|entry| match right.get(&entry.item) {
            Some(lookaheads) => lookaheads.equals(&entry.lookaheads),
            None => false,
        })
}

/// S -> A,  A -> 'a' A | 'b'
fn tail_grammar() -> (SyntaxGrammar, LexicalGrammar) {
    let grammar = SyntaxGrammar {
        variables: vec![
            variable("S", vec![production(vec![n(1)])]),
            variable("A", vec![production(vec![t(0), n(1)]), production(vec![t(1)])]),
        ],
        external_tokens: vec![],
        variables_to_inline: vec![],
    };
    (grammar, lexical(&["a", "b"]))
}

/// E -> E '+' T | T,  T -> T '*' F | F,  F -> '(' E ')' | 'id'
fn expression_grammar() -> (SyntaxGrammar, LexicalGrammar) {
    let grammar = SyntaxGrammar {
        variables: vec![
            variable("E", vec![production(vec![n(0), t(0), n(1)]), production(vec![n(1)])]),
            variable("T", vec![production(vec![n(1), t(1), n(2)]), production(vec![n(2)])]),
            variable("F", vec![production(vec![t(2), n(0), t(3)]), production(vec![t(4)])]),
        ],
        external_tokens: vec![],
        variables_to_inline: vec![],
    };
    (grammar, lexical(&["+", "*", "(", ")", "id"]))
}

#[test]
fn closure_propagates_the_end_of_input_to_a_tail() {
    let (grammar, lexical_grammar) = tail_grammar();
    let builder = ParseItemSetBuilder::new(&grammar, &lexical_grammar, InlinedProductionMap::new());
    let kernel = kernel_of(&[(ParseItem::normal(0, 0, 0), &[Symbol::end()])]);
    let closure = builder.transitive_closure(&kernel, &grammar);
    assert_eq!(closure.len(), 3);
    assert_entry(&closure, ParseItem::normal(0, 0, 0), &[Symbol::end()]);
    assert_entry(&closure, ParseItem::normal(1, 0, 0), &[Symbol::end()]);
    assert_entry(&closure, ParseItem::normal(1, 1, 0), &[Symbol::end()]);
}

#[test]
fn closure_of_an_item_before_a_token_is_the_item() {
    let (grammar, lexical_grammar) = tail_grammar();
    let builder = ParseItemSetBuilder::new(&grammar, &lexical_grammar, InlinedProductionMap::new());
    // A -> . 'a' A   and   A -> 'a' A .
    let kernel = kernel_of(&[
        (ParseItem::normal(1, 0, 0), &[t(0)]),
        (ParseItem::normal(1, 0, 2), &[t(1)]),
    ]);
    let closure = builder.transitive_closure(&kernel, &grammar);
    assert!(same_sets(&closure, &kernel));
}

#[test]
fn closure_of_the_empty_set_is_empty() {
    let (grammar, lexical_grammar) = tail_grammar();
    let builder = ParseItemSetBuilder::new(&grammar, &lexical_grammar, InlinedProductionMap::new());
    let closure = builder.transitive_closure(&ParseItemSet::new(), &grammar);
    assert_eq!(closure.len(), 0);
}

#[test]
fn closure_uses_the_first_set_of_what_follows() {
    let (grammar, lexical_grammar) = expression_grammar();
    let builder = ParseItemSetBuilder::new(&grammar, &lexical_grammar, InlinedProductionMap::new());
    // F -> '(' . E ')'  with lookahead '+'
    let kernel = kernel_of(&[(ParseItem::normal(2, 0, 1), &[t(0)])]);
    let closure = builder.transitive_closure(&kernel, &grammar);
    assert_eq!(closure.len(), 7);
    assert_entry(&closure, ParseItem::normal(2, 0, 1), &[t(0)]);
    // E is followed by ')' here, and by '+' inside E -> E '+' T.
    assert_entry(&closure, ParseItem::normal(0, 0, 0), &[t(0), t(3)]);
    assert_entry(&closure, ParseItem::normal(0, 1, 0), &[t(0), t(3)]);
    // T is followed by what follows E, and by '*'.
    assert_entry(&closure, ParseItem::normal(1, 0, 0), &[t(0), t(1), t(3)]);
    assert_entry(&closure, ParseItem::normal(1, 1, 0), &[t(0), t(1), t(3)]);
    assert_entry(&closure, ParseItem::normal(2, 0, 0), &[t(0), t(1), t(3)]);
    assert_entry(&closure, ParseItem::normal(2, 1, 0), &[t(0), t(1), t(3)]);
}

#[test]
fn closure_of_a_left_recursive_start() {
    let (grammar, lexical_grammar) = expression_grammar();
    let builder = ParseItemSetBuilder::new(&grammar, &lexical_grammar, InlinedProductionMap::new());
    // E -> . T  with the end of input: T's items get '*' and the end, F's too.
    let kernel = kernel_of(&[(ParseItem::normal(0, 1, 0), &[Symbol::end()])]);
    let closure = builder.transitive_closure(&kernel, &grammar);
    assert_eq!(closure.len(), 5);
    assert_entry(&closure, ParseItem::normal(0, 1, 0), &[Symbol::end()]);
    assert_entry(&closure, ParseItem::normal(1, 0, 0), &[t(1), Symbol::end()]);
    assert_entry(&closure, ParseItem::normal(1, 1, 0), &[t(1), Symbol::end()]);
    assert_entry(&closure, ParseItem::normal(2, 0, 0), &[t(1), Symbol::end()]);
    assert_entry(&closure, ParseItem::normal(2, 1, 0), &[t(1), Symbol::end()]);
}

#[test]
fn closure_is_idempotent() {
    let (grammar, lexical_grammar) = expression_grammar();
    let builder = ParseItemSetBuilder::new(&grammar, &lexical_grammar, InlinedProductionMap::new());
    let kernel = kernel_of(&[
        (ParseItem::normal(2, 0, 1), &[t(0)]),
        (ParseItem::normal(0, 0, 2), &[Symbol::end()]),
    ]);
    let once = builder.transitive_closure(&kernel, &grammar);
    let twice = builder.transitive_closure(&once, &grammar);
    assert!(same_sets(&once, &twice));
}

#[test]
fn closure_is_monotone_in_the_lookaheads() {
    let (grammar, lexical_grammar) = expression_grammar();
    let builder = ParseItemSetBuilder::new(&grammar, &lexical_grammar, InlinedProductionMap::new());
    let small = kernel_of(&[(ParseItem::normal(0, 1, 0), &[Symbol::end()])]);
    let large = kernel_of(&[(ParseItem::normal(0, 1, 0), &[Symbol::end(), t(3)])]);
    let small_closure = builder.transitive_closure(&small, &grammar);
    let large_closure = builder.transitive_closure(&large, &grammar);
    assert_eq!(small_closure.len(), large_closure.len());
    for entry in &small_closure.entries {
        let mut larger = large_closure.get(&entry.item).unwrap().clone();
        // Nothing of the smaller closure is missing in the larger one.
        assert!(!larger.insert_all(&entry.lookaheads));
    }
    assert_entry(&large_closure, ParseItem::normal(2, 1, 0), &[t(1), t(3), Symbol::end()]);
}

#[test]
fn closure_does_not_depend_on_the_order_of_the_kernel() {
    let (grammar, lexical_grammar) = expression_grammar();
    let builder = ParseItemSetBuilder::new(&grammar, &lexical_grammar, InlinedProductionMap::new());
    let first = (ParseItem::normal(2, 0, 1), &[t(0)][..]);
    let second = (ParseItem::normal(0, 0, 2), &[Symbol::end()][..]);
    let third = (ParseItem::normal(1, 0, 2), &[t(3), t(1)][..]);
    let forward = builder.transitive_closure(&kernel_of(&[first, second, third]), &grammar);
    let backward = builder.transitive_closure(&kernel_of(&[third, second, first]), &grammar);
    let rotated = builder.transitive_closure(&kernel_of(&[second, third, first]), &grammar);
    assert!(same_sets(&forward, &backward));
    assert!(same_sets(&forward, &rotated));
}

#[test]
fn kernel_items_keep_their_own_lookaheads() {
    let (grammar, lexical_grammar) = expression_grammar();
    let builder = ParseItemSetBuilder::new(&grammar, &lexical_grammar, InlinedProductionMap::new());
    // E -> . E '+' T is its own addition; as a kernel item it keeps what it came with,
    // whichever kernel entry is processed first.
    let own = (ParseItem::normal(0, 0, 0), &[t(4)][..]);
    let other = (ParseItem::normal(2, 0, 1), &[t(2)][..]);
    for kernel in [kernel_of(&[own, other]), kernel_of(&[other, own])] {
        let closure = builder.transitive_closure(&kernel, &grammar);
        assert_entry(&closure, ParseItem::normal(0, 0, 0), &[t(4)]);
        assert_entry(&closure, ParseItem::normal(2, 0, 1), &[t(2)]);
        assert_entry(&closure, ParseItem::normal(0, 1, 0), &[t(0), t(3)]);
    }
}

#[test]
fn an_empty_following_first_set_adds_nothing() {
    // S -> A,  A -> B C,  B -> D 'x',  C -> C,  D -> 'd'
    let grammar = SyntaxGrammar {
        variables: vec![
            variable("S", vec![production(vec![n(1)])]),
            variable("A", vec![production(vec![n(2), n(3)])]),
            variable("B", vec![production(vec![n(4), t(0)])]),
            variable("C", vec![production(vec![n(3)])]),
            variable("D", vec![production(vec![t(1)])]),
        ],
        external_tokens: vec![],
        variables_to_inline: vec![],
    };
    let builder =
        ParseItemSetBuilder::new(&grammar, &lexical(&["x", "d"]), InlinedProductionMap::new());
    let kernel = kernel_of(&[(ParseItem::normal(0, 0, 0), &[Symbol::end()])]);
    let closure = builder.transitive_closure(&kernel, &grammar);
    // B is reached with nothing to follow it, so its item has no lookahead and D is not expanded.
    assert_eq!(closure.len(), 3);
    assert_entry(&closure, ParseItem::normal(0, 0, 0), &[Symbol::end()]);
    assert_entry(&closure, ParseItem::normal(1, 0, 0), &[Symbol::end()]);
    assert_entry(&closure, ParseItem::normal(2, 0, 0), &[]);
    // Closing again expands D: on such a grammar the closure is not idempotent.
    let again = builder.transitive_closure(&closure, &grammar);
    assert_eq!(again.len(), 4);
    assert_entry(&again, ParseItem::normal(4, 0, 0), &[t(0)]);
}

/// S -> 'a' I 'c' | I,  I -> 'b' | 'd' S,  with I inlined.
fn inlined_grammar() -> (SyntaxGrammar, LexicalGrammar, InlinedProductionMap) {
    let grammar = SyntaxGrammar {
        variables: vec![
            variable("S", vec![production(vec![t(0), n(1), t(2)]), production(vec![n(1)])]),
            variable("I", vec![production(vec![t(1)]), production(vec![t(3), n(0)])]),
        ],
        external_tokens: vec![],
        variables_to_inline: vec![n(1)],
    };
    let inlines = InlinedProductionMap {
        inlined_productions: vec![
            production(vec![t(0), t(1), t(2)]),
            production(vec![t(0), t(3), n(0), t(2)]),
            production(vec![t(1)]),
            production(vec![t(3), n(0)]),
        ],
        item_map: vec![
            InlinedItems { item: ParseItem::normal(0, 0, 1), production_indices: vec![0, 1] },
            InlinedItems { item: ParseItem::normal(0, 1, 0), production_indices: vec![2, 3] },
        ],
    };
    (grammar, lexical(&["a", "b", "c", "d"]), inlines)
}

#[test]
fn inlined_items_replace_the_items_of_inlined_variables() {
    let (grammar, lexical_grammar, inlines) = inlined_grammar();
    let builder = ParseItemSetBuilder::new(&grammar, &lexical_grammar, inlines);
    assert_eq!(
        builder.inlines.inlined_items(ParseItem::normal(0, 1, 0)),
        Some(vec![ParseItem::inlined(0, 2, 0), ParseItem::inlined(0, 3, 0)])
    );
    assert_eq!(builder.inlines.inlined_items(ParseItem::normal(0, 0, 0)), None);

    // S -> 'a' 'd' . S 'c'  (an inlined production), with the end of input.
    let kernel = kernel_of(&[(ParseItem::inlined(0, 1, 2), &[Symbol::end()])]);
    let closure = builder.transitive_closure(&kernel, &grammar);
    assert_eq!(closure.len(), 4);
    assert_entry(&closure, ParseItem::inlined(0, 1, 2), &[Symbol::end()]);
    // S's own items, with S -> . I replaced by the two inlined productions; S is followed by 'c'.
    assert_entry(&closure, ParseItem::normal(0, 0, 0), &[t(2)]);
    assert_entry(&closure, ParseItem::inlined(0, 2, 0), &[t(2)]);
    assert_entry(&closure, ParseItem::inlined(0, 3, 0), &[t(2)]);
    // No item of the inlined variable I appears.
    assert!(closure.entries.iter().all(|entry| entry.item.variable_index != 1));
    assert!(closure.get(&ParseItem::normal(0, 1, 0)).is_none());
}

#[test]
fn kernel_items_are_processed_as_their_substitutes() {
    let (grammar, lexical_grammar, inlines) = inlined_grammar();
    let builder = ParseItemSetBuilder::new(&grammar, &lexical_grammar, inlines);
    // S -> 'a' . I 'c'  has to be expanded: its two substitutes take its place.
    let kernel = kernel_of(&[(ParseItem::normal(0, 0, 1), &[Symbol::end()])]);
    let closure = builder.transitive_closure(&kernel, &grammar);
    assert_eq!(closure.len(), 2);
    assert_entry(&closure, ParseItem::inlined(0, 0, 1), &[Symbol::end()]);
    assert_entry(&closure, ParseItem::inlined(0, 1, 1), &[Symbol::end()]);
    assert!(closure.get(&ParseItem::normal(0, 0, 1)).is_none());
}

#[test]
fn item_sets_keep_one_entry_for_each_item() {
    let mut set = ParseItemSet::new();
    assert_eq!(set.len(), 0);
    assert!(set.get(&ParseItem::normal(0, 0, 0)).is_none());
    set.insert(ParseItem::normal(0, 0, 0), set_of(&[t(0)]));
    set.insert(ParseItem::inlined(0, 0, 0), set_of(&[t(1)]));
    set.insert(ParseItem::normal(0, 0, 0), set_of(&[t(2)]));
    assert_eq!(set.len(), 2);
    assert_eq!(set.position(&ParseItem::normal(0, 0, 0)), Some(0));
    assert_eq!(set.position(&ParseItem::inlined(0, 0, 0)), Some(1));
    assert_eq!(set.position(&ParseItem::normal(0, 0, 1)), None);
    assert_eq!(set.search(&ParseItem::normal(0, 0, 1)), 1);
    assert_eq!(set.search(&ParseItem::inlined(7, 0, 0)), 2);
    assert_entry(&set, ParseItem::normal(0, 0, 0), &[t(2)]);
    assert_entry(&set, ParseItem::inlined(0, 0, 0), &[t(1)]);
    set.merge(ParseItem::normal(0, 0, 0), &set_of(&[t(5)]));
    set.merge(ParseItem::normal(3, 0, 0), &set_of(&[t(6)]));
    assert_eq!(set.len(), 3);
    assert_entry(&set, ParseItem::normal(0, 0, 0), &[t(2), t(5)]);
    assert_entry(&set, ParseItem::normal(3, 0, 0), &[t(6)]);
    // The entries stand in the order of their items, not in that of their making.
    let items: Vec<ParseItem> = set.entries.iter().map(|entry| entry.item).collect();
    assert_eq!(
        items,
        vec![ParseItem::normal(0, 0, 0), ParseItem::normal(3, 0, 0), ParseItem::inlined(0, 0, 0)]
    );
}

#[test]
fn items_are_ordered_by_kind_variable_production_and_dot() {
    let ordered = [
        ParseItem::normal(0, 0, 0),
        ParseItem::normal(0, 0, 1),
        ParseItem::normal(0, 1, 0),
        ParseItem::normal(1, 0, 0),
        ParseItem::inlined(0, 0, 0),
        ParseItem::inlined(0, 0, 2),
        ParseItem::inlined(0, 3, 0),
        ParseItem::inlined(2, 0, 0),
    ];
    for (i, left) in ordered.iter().enumerate() {
        for (j, right) in ordered.iter().enumerate() {
            assert_eq!(left.precedes(right), i < j);
            assert_eq!(left.precedes(right), left < right);
        }
    }
}

#[test]
fn item_sets_do_not_depend_on_the_order_of_insertion() {
    let entries = [
        (ParseItem::inlined(1, 0, 0), &[t(0)][..]),
        (ParseItem::normal(2, 1, 0), &[t(1)][..]),
        (ParseItem::normal(0, 0, 3), &[t(2), t(3)][..]),
        (ParseItem::normal(2, 0, 5), &[][..]),
    ];
    let forward = kernel_of(&entries);
    let mut reversed = entries;
    reversed.reverse();
    let backward = kernel_of(&reversed);
    assert_eq!(forward.len(), 4);
    for (left, right) in forward.entries.iter().zip(backward.entries.iter()) {
        assert_eq!(left.item, right.item);
        assert!(left.lookaheads.equals(&right.lookaheads));
    }
    for pair in forward.entries.windows(2) {
        assert!(pair[0].item.precedes(&pair[1].item));
    }
}

#[test]
fn an_item_processed_for_two_entries_keeps_the_lookaheads_of_the_later() {
    let (grammar, lexical_grammar, inlines) = inlined_grammar();
    let builder = ParseItemSetBuilder::new(&grammar, &lexical_grammar, inlines);
    // S -> 'a' . I 'c' is processed as its two substitutes, of which the first is
    // a kernel item of its own, and comes later in the order of items.
    let expanded = (ParseItem::normal(0, 0, 1), &[t(0)][..]);
    let substitute = (ParseItem::inlined(0, 0, 1), &[t(1)][..]);
    for kernel in [kernel_of(&[expanded, substitute]), kernel_of(&[substitute, expanded])] {
        let closure = builder.transitive_closure(&kernel, &grammar);
        assert_eq!(closure.len(), 2);
        assert_entry(&closure, ParseItem::inlined(0, 0, 1), &[t(1)]);
        assert_entry(&closure, ParseItem::inlined(0, 1, 1), &[t(0)]);
    }
}

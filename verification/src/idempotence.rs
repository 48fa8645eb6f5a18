use vstd::prelude::*;
use crate::symbol::{Symbol, SymbolType};
use crate::grammar::{LexicalGrammar, SyntaxGrammar};
use crate::item::{InlinedProductionMap, ParseItem, ParseItemSet};
use crate::symbol_sets::{
    first_tokens, is_chain, leads_via, lemma_reaches_self, lemma_reaches_step,
    lemma_reaches_transitive, link, reaches,
};
use crate::additions::{
    Addition, Entry, addition_from, child, derivation_link, derives, effective, follow_info,
    is_addition, is_derivation, lemma_derives_child, present, seed,
};
use crate::builder::ParseItemSetBuilder;
use crate::closure::{
    closure, dot_additions, gathered_has, hits, last_seed, lemma_dot_symbol_registered,
    lemma_last_seed, work,
};

verus! {

/// Wherever a production begins with a non-terminal and goes on, some
/// token can follow that non-terminal: the FIRST set of the second symbol
/// is not empty.
pub open spec fn followers_productive(grammar: &SyntaxGrammar) -> bool {
    forall|j: int, p: int|
        0 <= j < grammar.variables@.len() && 0 <= p < grammar.variables@[j].productions@.len() ==> {
            let steps = (#[trigger] grammar.variables@[j].productions@[p]).steps@;
            steps.len() > 1 && steps[0].symbol.kind == SymbolType::NonTerminal ==> exists|
                t: Symbol,
            |
                first_tokens(grammar, steps[1].symbol).contains(t)
        }
}

/// No item that replaces another has to be expanded itself.
pub open spec fn substitutes_final(inlines: &InlinedProductionMap) -> bool {
    forall|item: ParseItem, x: int|
        inlines.expands(item) && 0 <= x < inlines.expansion(item).len() ==> !inlines.expands(
            #[trigger] inlines.expansion(item)[x],
        )
}

/// Where a non-terminal stands behind the dot of `substitute`, it is
/// found from the symbol behind the dot of `item` by going from a
/// non-terminal to the first symbol of one of its productions.
pub open spec fn leads_on(
    grammar: &SyntaxGrammar,
    inlines: &InlinedProductionMap,
    item: ParseItem,
    substitute: ParseItem,
) -> bool {
    match substitute.next_symbol(grammar, inlines) {
        Some(symbol) => symbol.kind == SymbolType::NonTerminal ==> match item.next_symbol(
            grammar,
            inlines,
        ) {
            Some(origin) => reaches(grammar, false, origin, symbol),
            None => false,
        },
        None => true,
    }
}

/// Every item that replaces another begins, behind the dot, with a
/// production of the non-terminal that was inlined there.
pub open spec fn substitutes_lead_on(grammar: &SyntaxGrammar, inlines: &InlinedProductionMap) -> bool {
    forall|item: ParseItem, x: int|
        inlines.expands(item) && 0 <= x < inlines.expansion(item).len() ==> leads_on(
            grammar,
            inlines,
            item,
            #[trigger] inlines.expansion(item)[x],
        )
}

/// Every non-terminal that the expansion of `origin` comes upon is found
/// from `origin` through the first symbols of productions.
proof fn lemma_derivation_reaches(
    grammar: &SyntaxGrammar,
    terminals: nat,
    origin: int,
    entries: Seq<Entry>,
    last: Entry,
    k: int,
)
    requires
        grammar.wf(terminals),
        0 <= origin < grammar.variables@.len(),
        is_derivation(grammar, entries, origin, last),
        0 <= k < entries.len(),
    ensures
        0 <= entries[k].variable < grammar.variables@.len(),
        reaches(
            grammar,
            false,
            Symbol::non_terminal(origin as usize),
            Symbol::non_terminal(entries[k].variable as usize),
        ),
    decreases k,
{
    assert(grammar.variables@.len() == grammar.variables.len());
    let start = Symbol::non_terminal(origin as usize);
    if k == 0 {
        lemma_reaches_self(grammar, false, start);
    } else {
        lemma_derivation_reaches(grammar, terminals, origin, entries, last, k - 1);
        assert(derivation_link(grammar, entries, k - 1));
        let p = choose|p: int| #[trigger] child(grammar, entries[k - 1], p) == Some(entries[k]);
        let j = entries[k - 1].variable;
        let production = grammar.variables@[j].productions@[p];
        assert(grammar.variables@[j].wf(grammar, terminals));
        assert(production.wf(grammar, terminals));
        let symbol = production.steps@[0].symbol;
        assert(grammar.registers(terminals, symbol));
        assert(symbol == Symbol::non_terminal(entries[k].variable as usize));
        assert(leads_via(grammar, false, Symbol::non_terminal(j as usize), p, symbol));
        lemma_reaches_step(grammar, false, start, Symbol::non_terminal(j as usize), p, symbol);
    }
}

/// In a grammar whose followers are productive, the expansion of `origin`
/// comes upon every non-terminal along a chain from `origin`, with an
/// entry that is effective.
proof fn lemma_chain_present(
    grammar: &SyntaxGrammar,
    origin: int,
    chain: Seq<Symbol>,
    to: Symbol,
    k: int,
)
    requires
        followers_productive(grammar),
        0 <= origin < grammar.variables@.len(),
        is_chain(grammar, false, chain, Symbol::non_terminal(origin as usize), to),
        0 <= k < chain.len(),
        chain[k].kind == SymbolType::NonTerminal,
    ensures
        exists|entry: Entry| #[trigger]
            derives(grammar, origin, entry) && effective(entry) && entry.variable
                == chain[k].index,
    decreases k,
{
    assert(grammar.variables@.len() == grammar.variables.len());
    if k == 0 {
        assert(is_derivation(grammar, seq![seed(origin)], origin, seed(origin)));
        assert(derives(grammar, origin, seed(origin)) && effective(seed(origin)));
        assert(seed(origin).variable == chain[k].index);
    } else {
        assert(link(grammar, false, chain, k - 1));
        let p = choose|p: int| #[trigger] leads_via(grammar, false, chain[k - 1], p, chain[k]);
        lemma_chain_present(grammar, origin, chain, to, k - 1);
        let entry = choose|entry: Entry| #[trigger]
            derives(grammar, origin, entry) && effective(entry) && entry.variable == chain[k
                - 1].index;
        let next = child(grammar, entry, p).unwrap();
        let steps = grammar.variables@[entry.variable].productions@[p].steps@;
        assert(steps == grammar.variables@[entry.variable].productions@[p].steps@);
        lemma_derives_child(grammar, origin, entry, p, next);
        if steps.len() > 1 {
            let t = choose|t: Symbol| first_tokens(grammar, steps[1].symbol).contains(t);
            assert(next.lookaheads.contains(t));
        } else if !entry.propagates {
            let t = choose|t: Symbol| entry.lookaheads.contains(t);
            assert(next.lookaheads.contains(t));
        }
        assert(child(grammar, entry, p) is Some);
        assert(steps[0].symbol == chain[k]);
        assert(next.variable == chain[k].index);
        assert(derives(grammar, origin, next) && effective(next));
    }
}

/// In a grammar whose followers are productive, the expansion of a
/// non-terminal comes upon every non-terminal that is found from it
/// through the first symbols of productions.
pub proof fn lemma_reaches_present(grammar: &SyntaxGrammar, origin: int, target: int)
    requires
        followers_productive(grammar),
        0 <= origin < grammar.variables@.len(),
        0 <= target < grammar.variables@.len(),
        reaches(
            grammar,
            false,
            Symbol::non_terminal(origin as usize),
            Symbol::non_terminal(target as usize),
        ),
    ensures
        present(grammar, origin, target),
{
    assert(grammar.variables@.len() == grammar.variables.len());
    let to = Symbol::non_terminal(target as usize);
    let chain = choose|chain: Seq<Symbol>| #[trigger]
        is_chain(grammar, false, chain, Symbol::non_terminal(origin as usize), to);
    lemma_chain_present(grammar, origin, chain, to, chain.len() - 1);
}

/// The expansion of a non-terminal comes upon nothing but non-terminals
/// that are found from it through the first symbols of productions.
pub proof fn lemma_present_reaches(grammar: &SyntaxGrammar, terminals: nat, origin: int, target: int)
    requires
        grammar.wf(terminals),
        0 <= origin < grammar.variables@.len(),
        present(grammar, origin, target),
    ensures
        0 <= target < grammar.variables@.len(),
        reaches(
            grammar,
            false,
            Symbol::non_terminal(origin as usize),
            Symbol::non_terminal(target as usize),
        ),
{
    let entry = choose|entry: Entry| #[trigger]
        derives(grammar, origin, entry) && entry.variable == target;
    let entries = choose|entries: Seq<Entry>| #[trigger]
        is_derivation(grammar, entries, origin, entry);
    lemma_derivation_reaches(grammar, terminals, origin, entries, entry, entries.len() - 1);
}

/// The non-terminal behind the dot of the item of an addition is found
/// from the non-terminal in whose production the item stands.
proof fn lemma_addition_leads_on(
    grammar: &SyntaxGrammar,
    inlines: &InlinedProductionMap,
    origin: int,
    variable: int,
    p: int,
    addition: Addition,
    symbol: Symbol,
)
    requires
        substitutes_lead_on(grammar, inlines),
        addition_from(grammar, inlines, origin, variable, p, addition),
        addition.item.next_symbol(grammar, inlines) == Some(symbol),
        symbol.kind == SymbolType::NonTerminal,
    ensures
        reaches(grammar, false, Symbol::non_terminal(variable as usize), symbol),
{
    assert(grammar.variables@.len() == grammar.variables.len());
    assert(grammar.variables@[variable].productions@.len()
        == grammar.variables@[variable].productions.len());
    let from = Symbol::non_terminal(variable as usize);
    let item = ParseItem::normal(variable as usize, p as usize, 0);
    let expansion = inlines.expansion(item);
    let x = choose|x: int| 0 <= x < expansion.len() && expansion[x] == addition.item;
    lemma_reaches_self(grammar, false, from);
    if inlines.expands(item) {
        assert(leads_on(grammar, inlines, item, expansion[x]));
        let first = item.next_symbol(grammar, inlines).unwrap();
        assert(leads_via(grammar, false, from, p, first));
        lemma_reaches_step(grammar, false, from, from, p, first);
        lemma_reaches_transitive(grammar, false, from, first, symbol);
    } else {
        assert(expansion[x] == item);
        assert(leads_via(grammar, false, from, p, symbol));
        lemma_reaches_step(grammar, false, from, from, p, symbol);
    }
}

/// The additions of a non-terminal include, for each of their items with
/// a non-terminal behind the dot, the items of the additions of that
/// non-terminal.
pub proof fn lemma_table_transitive(
    builder: &ParseItemSetBuilder,
    grammar: &SyntaxGrammar,
    lexical_grammar: &LexicalGrammar,
    outer: int,
    k0: int,
    inner: int,
    k: int,
)
    requires
        builder.describes(grammar, lexical_grammar),
        followers_productive(grammar),
        substitutes_lead_on(grammar, &builder.inline_map()),
        0 <= outer < builder.additions().len(),
        0 <= k0 < builder.additions()[outer].len(),
        0 <= inner < builder.additions().len(),
        0 <= k < builder.additions()[inner].len(),
        builder.additions()[outer][k0].item.next_symbol(grammar, &builder.inline_map()) == Some(
            Symbol::non_terminal(inner as usize),
        ),
    ensures
        exists|c: int|
            0 <= c < builder.additions()[outer].len() && (#[trigger] builder.additions()[outer][c]).item
                == builder.additions()[inner][k].item,
{
    let inlines = builder.inline_map();
    let terminals = lexical_grammar.variables@.len();
    let first = builder.additions()[outer][k0];
    let second = builder.additions()[inner][k];
    assert(builder.additions()[outer].contains(first));
    assert(builder.additions()[inner].contains(second));
    assert(is_addition(grammar, &inlines, outer, first));
    assert(is_addition(grammar, &inlines, inner, second));
    let (j0, p0) = choose|j0: int, p0: int| #[trigger]
        addition_from(grammar, &inlines, outer, j0, p0, first);
    let (j, p) = choose|j: int, p: int| #[trigger]
        addition_from(grammar, &inlines, inner, j, p, second);
    let from = Symbol::non_terminal(outer as usize);
    let mid = Symbol::non_terminal(inner as usize);
    lemma_present_reaches(grammar, terminals, outer, j0);
    lemma_addition_leads_on(grammar, &inlines, outer, j0, p0, first, mid);
    lemma_present_reaches(grammar, terminals, inner, j);
    lemma_reaches_transitive(grammar, false, from, Symbol::non_terminal(j0 as usize), mid);
    lemma_reaches_transitive(grammar, false, from, mid, Symbol::non_terminal(j as usize));
    lemma_reaches_present(grammar, outer, j);
    let third = Addition {
        item: second.item,
        lookaheads: follow_info(grammar, outer, j).lookaheads,
        propagates: follow_info(grammar, outer, j).propagates,
    };
    assert(addition_from(grammar, &inlines, outer, j, p, third));
    assert(is_addition(grammar, &inlines, outer, third));
    assert(builder.additions()[outer].contains(third));
    let c = choose|c: int|
        0 <= c < builder.additions()[outer].len() && builder.additions()[outer][c] == third;
    assert(builder.additions()[outer][c].item == second.item);
}

/// The item of an addition does not have to be expanded, where no item
/// that replaces another has to be.
proof fn lemma_addition_final(
    builder: &ParseItemSetBuilder,
    grammar: &SyntaxGrammar,
    lexical_grammar: &LexicalGrammar,
    origin: int,
    k: int,
)
    requires
        builder.describes(grammar, lexical_grammar),
        substitutes_final(&builder.inline_map()),
        0 <= origin < builder.additions().len(),
        0 <= k < builder.additions()[origin].len(),
    ensures
        !builder.inline_map().expands(builder.additions()[origin][k].item),
{
    let inlines = builder.inline_map();
    let addition = builder.additions()[origin][k];
    assert(builder.additions()[origin].contains(addition));
    assert(is_addition(grammar, &inlines, origin, addition));
    let (j, p) = choose|j: int, p: int| #[trigger]
        addition_from(grammar, &inlines, origin, j, p, addition);
    let item = ParseItem::normal(j as usize, p as usize, 0);
    let expansion = inlines.expansion(item);
    let x = choose|x: int| 0 <= x < expansion.len() && expansion[x] == addition.item;
    if inlines.expands(item) {
        assert(!inlines.expands(expansion[x]));
    } else {
        assert(expansion[x] == item);
    }
}

/// The non-terminal behind the dot of a processed item, where additions
/// are applied for it.
proof fn lemma_hit_symbol(
    builder: &ParseItemSetBuilder,
    grammar: &SyntaxGrammar,
    item: ParseItem,
) -> (symbol: Symbol)
    requires
        builder.wf(grammar),
        item.valid(grammar, &builder.inline_map()),
        dot_additions(builder, grammar, item).len() > 0,
    ensures
        item.next_symbol(grammar, &builder.inline_map()) == Some(symbol),
        symbol.kind == SymbolType::NonTerminal,
        symbol.index < builder.additions().len(),
        dot_additions(builder, grammar, item) == builder.additions()[symbol.index as int],
{
    lemma_dot_symbol_registered(builder, grammar, item);
    let symbol = item.next_symbol(grammar, &builder.inline_map()).unwrap();
    assert(item.symbol_after(grammar, &builder.inline_map(), 0) == Some(symbol));
    assert(grammar.registers(builder.terminal_count(), symbol));
    symbol
}

/// The closure of a closure is that closure: closing an item set that is
/// the closure of a kernel gives the same items with the same lookaheads.
/// This holds where the FIRST set of every symbol that follows a leading
/// non-terminal is not empty, no item that replaces another has to be
/// expanded itself, and every such item begins, behind the dot, with a
/// production of the non-terminal that was inlined.
pub proof fn law_closure_idempotent(
    builder: &ParseItemSetBuilder,
    grammar: &SyntaxGrammar,
    lexical_grammar: &LexicalGrammar,
    kernel: Seq<(ParseItem, Set<Symbol>)>,
    closed: ParseItemSet,
)
    requires
        builder.describes(grammar, lexical_grammar),
        forall|i: int|
            0 <= i < kernel.len() ==> (#[trigger] kernel[i]).0.valid(grammar, &builder.inline_map()),
        closed.wf(),
        closed@ == closure(builder, grammar, kernel),
        followers_productive(grammar),
        substitutes_final(&builder.inline_map()),
        substitutes_lead_on(grammar, &builder.inline_map()),
    ensures
        closure(builder, grammar, closed.kernel()) == closed@,
{
    let inlines = builder.inline_map();
    let terminals = builder.terminal_count();
    let first = closed@;
    let again = closed.kernel();
    let second = closure(builder, grammar, again);
    let len = kernel.len() as int;
    let len2 = again.len() as int;
    // No item of the closure has to be expanded.
    assert forall|item: ParseItem| first.contains_key(item) implies !inlines.expands(item)
        && item.valid(grammar, &inlines) by {
        crate::closure::lemma_closure_valid(builder, grammar, kernel, item);
        lemma_last_seed(&inlines, kernel, len, item);
        let seed = last_seed(&inlines, kernel, len, item);
        if seed >= 0 {
            let expansion = inlines.expansion(kernel[seed].0);
            let x = choose|x: int| 0 <= x < expansion.len() && expansion[x] == item;
            if inlines.expands(kernel[seed].0) {
                assert(!inlines.expands(expansion[x]));
            } else {
                assert(expansion[x] == kernel[seed].0);
            }
        } else {
            let (i, x) = choose|i: int, x: int| #[trigger]
                hits(builder, grammar, kernel, i, x, item) && i < len;
            let processed = work(&inlines, kernel, i, x);
            inlines.lemma_expansion_valid(grammar, terminals, kernel[i].0);
            assert(inlines.expansion(kernel[i].0)[x].valid(grammar, &inlines));
            let additions = dot_additions(builder, grammar, processed);
            let k = choose|k: int|
                0 <= k < additions.len() && (#[trigger] additions[k]).item == item;
            let symbol = lemma_hit_symbol(builder, grammar, processed);
            lemma_addition_final(builder, grammar, lexical_grammar, symbol.index as int, k);
        }
    }
    assert forall|i: int| 0 <= i < len2 implies first.contains_key((#[trigger] again[i]).0)
        && first[again[i].0] == again[i].1 && inlines.expansion(again[i].0) == seq![again[i].0] by {
        closed.lemma_entry(i);
    }
    // What the additions give in the second closure, they gave in the first.
    assert forall|item: ParseItem|
        gathered_has(builder, grammar, again, len2, item) implies first.contains_key(item) by {
        let (i, x) = choose|i: int, x: int| #[trigger]
            hits(builder, grammar, again, i, x, item) && i < len2;
        let processed = again[i].0;
        assert(inlines.expansion(again[i].0) == seq![again[i].0]);
        assert(work(&inlines, again, i, x) == processed);
        assert(first.contains_key(processed));
        let additions = dot_additions(builder, grammar, processed);
        let k = choose|k: int| 0 <= k < additions.len() && (#[trigger] additions[k]).item == item;
        lemma_last_seed(&inlines, kernel, len, processed);
        let seed = last_seed(&inlines, kernel, len, processed);
        if seed >= 0 {
            let expansion = inlines.expansion(kernel[seed].0);
            let x0 = choose|x0: int| 0 <= x0 < expansion.len() && expansion[x0] == processed;
            assert(hits(builder, grammar, kernel, seed, x0, item));
        } else {
            let (i0, x0) = choose|i0: int, x0: int| #[trigger]
                hits(builder, grammar, kernel, i0, x0, processed) && i0 < len;
            let earlier = work(&inlines, kernel, i0, x0);
            inlines.lemma_expansion_valid(grammar, terminals, kernel[i0].0);
            assert(inlines.expansion(kernel[i0].0)[x0].valid(grammar, &inlines));
            let outer_additions = dot_additions(builder, grammar, earlier);
            let k0 = choose|k0: int|
                0 <= k0 < outer_additions.len() && (#[trigger] outer_additions[k0]).item
                    == processed;
            let outer = lemma_hit_symbol(builder, grammar, earlier);
            let inner = lemma_hit_symbol(builder, grammar, processed);
            assert(inner == Symbol::non_terminal(inner.index as int as usize));
            lemma_table_transitive(
                builder,
                grammar,
                lexical_grammar,
                outer.index as int,
                k0,
                inner.index as int,
                k,
            );
            let c = choose|c: int|
                0 <= c < builder.additions()[outer.index as int].len() && (
                #[trigger] builder.additions()[outer.index as int][c]).item == item;
            assert(outer_additions[c].item == item);
            assert(hits(builder, grammar, kernel, i0, x0, item));
        }
    }
    assert forall|item: ParseItem| #[trigger]
        second.contains_key(item) == first.contains_key(item) && (first.contains_key(item)
            ==> second[item] == first[item]) by {
        lemma_last_seed(&inlines, again, len2, item);
        let seed = last_seed(&inlines, again, len2, item);
        if seed >= 0 {
            assert(inlines.expansion(again[seed].0) == seq![again[seed].0]);
            assert(again[seed].0 == item);
        }
        if first.contains_key(item) {
            let i = closed.index_of(item);
            closed.lemma_entry(i);
            assert(again[i].0 == item);
            assert(inlines.expansion(again[i].0) == seq![again[i].0]);
            assert(inlines.expansion(again[i].0)[0] == item);
            assert(inlines.expansion(again[i].0).contains(item));
            assert(seed >= i);
            closed.lemma_entry(seed);
        }
    }
    assert(second =~= first);
}

} // verus!

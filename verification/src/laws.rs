use vstd::prelude::*;
use crate::symbol::{Symbol, SymbolType};
use crate::grammar::{LexicalGrammar, SyntaxGrammar};
use crate::item::{InlinedProductionMap, ParseItem, ParseItemSet};
use crate::symbol_sets::{
    edge_set, is_chain, leads_via, lemma_reaches_self, lemma_reaches_step, lemma_reaches_transitive,
    lemma_token_edge_set, link,
};
use crate::additions::{addition_from, is_addition};
use crate::builder::ParseItemSetBuilder;
use crate::closure::{
    addition_tokens, brings_token, closure, dot_additions, gathered_has, gathered_token, hits,
    in_work, last_seed, lemma_dot_symbol_registered, lemma_last_seed, work, yields,
};

verus! {

/// The FIRST set and the LAST set of a terminal or of an external token
/// of the grammar hold that token and nothing else.
pub proof fn law_token_sets(
    builder: &ParseItemSetBuilder,
    grammar: &SyntaxGrammar,
    lexical_grammar: &LexicalGrammar,
    token: Symbol,
)
    requires
        builder.describes(grammar, lexical_grammar),
        token.kind == SymbolType::Terminal || token.kind == SymbolType::External,
        grammar.registers(lexical_grammar.variables@.len(), token),
    ensures
        builder.firsts().spec_get(token) == set![token],
        builder.lasts().spec_get(token) == set![token],
{
    lemma_token_edge_set(grammar, false, token);
    lemma_token_edge_set(grammar, true, token);
    assert(builder.firsts().registers(token));
    assert(builder.lasts().registers(token));
}

/// The FIRST set of a non-terminal holds the tokens of the FIRST sets of
/// the first symbols of its productions, and no others, whatever else the
/// productions hold; the LAST set likewise, with the last symbols.
pub proof fn law_edge_set_of_non_terminal(
    grammar: &SyntaxGrammar,
    from_end: bool,
    variable: Symbol,
    t: Symbol,
)
    requires
        variable.kind == SymbolType::NonTerminal,
    ensures
        edge_set(grammar, from_end, variable).contains(t) <==> exists|p: int, symbol: Symbol|
            #[trigger] leads_via(grammar, from_end, variable, p, symbol) && edge_set(
                grammar,
                from_end,
                symbol,
            ).contains(t),
{
    if edge_set(grammar, from_end, variable).contains(t) {
        let chain = choose|chain: Seq<Symbol>| #[trigger]
            is_chain(grammar, from_end, chain, variable, t);
        assert(chain.len() > 1);
        assert(link(grammar, from_end, chain, 0));
        let p = choose|p: int| #[trigger] leads_via(grammar, from_end, chain[0], p, chain[1]);
        let rest = chain.subrange(1, chain.len() as int);
        assert forall|k: int| 0 <= k < rest.len() - 1 implies #[trigger] link(
            grammar,
            from_end,
            rest,
            k,
        ) by {
            assert(link(grammar, from_end, chain, k + 1));
        }
        assert(is_chain(grammar, from_end, rest, chain[1], t));
        assert(leads_via(grammar, from_end, variable, p, chain[1]) && edge_set(
            grammar,
            from_end,
            chain[1],
        ).contains(t));
    }
    if exists|p: int, symbol: Symbol| #[trigger]
        leads_via(grammar, from_end, variable, p, symbol) && edge_set(
            grammar,
            from_end,
            symbol,
        ).contains(t) {
        let (p, symbol) = choose|p: int, symbol: Symbol| #[trigger]
            leads_via(grammar, from_end, variable, p, symbol) && edge_set(
                grammar,
                from_end,
                symbol,
            ).contains(t);
        lemma_reaches_self(grammar, from_end, variable);
        lemma_reaches_step(grammar, from_end, variable, variable, p, symbol);
        lemma_reaches_transitive(grammar, from_end, variable, symbol, t);
    }
}

/// No addition is for an item of a non-terminal that is marked for
/// inlining: each stands in a production of a non-terminal that is not.
pub proof fn law_additions_avoid_inlined(
    builder: &ParseItemSetBuilder,
    grammar: &SyntaxGrammar,
    lexical_grammar: &LexicalGrammar,
    origin: int,
    k: int,
)
    requires
        builder.describes(grammar, lexical_grammar),
        0 <= origin < builder.additions().len(),
        0 <= k < builder.additions()[origin].len(),
    ensures
        !grammar.spec_is_inlined(
            Symbol::non_terminal(builder.additions()[origin][k].item.variable_index),
        ),
{
    let inlines = builder.inline_map();
    let addition = builder.additions()[origin][k];
    assert(builder.additions()[origin].contains(addition));
    assert(is_addition(grammar, &inlines, origin, addition));
    let (j, p) = choose|j: int, p: int| #[trigger]
        addition_from(grammar, &inlines, origin, j, p, addition);
    assert(grammar.variables@.len() == grammar.variables.len());
    let item = ParseItem::normal(j as usize, p as usize, 0);
    let expansion = inlines.expansion(item);
    let x = choose|x: int| 0 <= x < expansion.len() && expansion[x] == addition.item;
    assert(expansion[x].variable_index == j);
}

/// An item of a closure that is no processed kernel item is no item of a
/// non-terminal that is marked for inlining.
pub proof fn law_closure_avoids_inlined(
    builder: &ParseItemSetBuilder,
    grammar: &SyntaxGrammar,
    lexical_grammar: &LexicalGrammar,
    kernel: Seq<(ParseItem, Set<Symbol>)>,
    item: ParseItem,
)
    requires
        builder.describes(grammar, lexical_grammar),
        forall|i: int|
            0 <= i < kernel.len() ==> (#[trigger] kernel[i]).0.valid(grammar, &builder.inline_map()),
        closure(builder, grammar, kernel).contains_key(item),
        forall|i: int|
            0 <= i < kernel.len() ==> !builder.inline_map().expansion((#[trigger] kernel[i]).0).contains(
                item,
            ),
    ensures
        !grammar.spec_is_inlined(Symbol::non_terminal(item.variable_index)),
{
    let inlines = builder.inline_map();
    lemma_last_seed(&inlines, kernel, kernel.len() as int, item);
    let seed = last_seed(&inlines, kernel, kernel.len() as int, item);
    if seed >= 0 {
        assert(inlines.expansion(kernel[seed].0).contains(item));
    }
    let (i, x) = choose|i: int, x: int| #[trigger]
        hits(builder, grammar, kernel, i, x, item) && i < kernel.len();
    let processed = work(&inlines, kernel, i, x);
    inlines.lemma_expansion_valid(grammar, builder.terminal_count(), kernel[i].0);
    assert(inlines.expansion(kernel[i].0)[x].valid(grammar, &inlines));
    lemma_dot_symbol_registered(builder, grammar, processed);
    let additions = dot_additions(builder, grammar, processed);
    let k = choose|k: int| 0 <= k < additions.len() && (#[trigger] additions[k]).item == item;
    let symbol = processed.next_symbol(grammar, &inlines).unwrap();
    law_additions_avoid_inlined(builder, grammar, lexical_grammar, symbol.index as int, k);
}

/// The kernels hold the same items in the same order, and each entry of
/// `larger` holds at least the lookaheads of the entry of `smaller`.
pub open spec fn extends_lookaheads(
    larger: Seq<(ParseItem, Set<Symbol>)>,
    smaller: Seq<(ParseItem, Set<Symbol>)>,
) -> bool {
    &&& larger.len() == smaller.len()
    &&& forall|i: int|
        0 <= i < smaller.len() ==> (#[trigger] larger[i]).0 == smaller[i].0
            && smaller[i].1.subset_of(larger[i].1)
}

/// Kernels that hold the same items place by place have each item
/// processed last for the same entry.
proof fn lemma_last_seed_same_items(
    inlines: &InlinedProductionMap,
    left: Seq<(ParseItem, Set<Symbol>)>,
    right: Seq<(ParseItem, Set<Symbol>)>,
    upto: int,
    target: ParseItem,
)
    requires
        left.len() == right.len(),
        forall|i: int| 0 <= i < left.len() ==> (#[trigger] left[i]).0 == right[i].0,
    ensures
        last_seed(inlines, left, upto, target) == last_seed(inlines, right, upto, target),
    decreases upto,
{
    if upto > 0 {
        lemma_last_seed_same_items(inlines, left, right, upto - 1, target);
        if upto <= left.len() {
            assert(left[upto - 1].0 == right[upto - 1].0);
        }
    }
}

/// The closure grows with the lookaheads of the kernel: where two kernels
/// hold the same items and the lookaheads of the one include those of the
/// other, their closures hold the same items, and the lookaheads of the
/// one closure include those of the other, item by item.
pub proof fn law_closure_monotone(
    builder: &ParseItemSetBuilder,
    grammar: &SyntaxGrammar,
    larger: Seq<(ParseItem, Set<Symbol>)>,
    smaller: Seq<(ParseItem, Set<Symbol>)>,
)
    requires
        extends_lookaheads(larger, smaller),
    ensures
        closure(builder, grammar, larger).dom() == closure(builder, grammar, smaller).dom(),
        forall|item: ParseItem| #[trigger]
            closure(builder, grammar, smaller).contains_key(item) ==> closure(
                builder,
                grammar,
                smaller,
            )[item].subset_of(closure(builder, grammar, larger)[item]),
{
    let inlines = builder.inline_map();
    let len = smaller.len() as int;
    let large = closure(builder, grammar, larger);
    let small = closure(builder, grammar, smaller);
    assert forall|i: int, x: int|
        in_work(&inlines, larger, i, x) == in_work(&inlines, smaller, i, x) && (in_work(
            &inlines,
            smaller,
            i,
            x,
        ) ==> work(&inlines, larger, i, x) == work(&inlines, smaller, i, x)) by {
        if 0 <= i < len {
            assert(larger[i].0 == smaller[i].0);
        }
    }
    assert forall|item: ParseItem| large.contains_key(item) == small.contains_key(item) by {
        lemma_last_seed_same_items(&inlines, larger, smaller, len, item);
        if gathered_has(builder, grammar, larger, len, item) {
            let (i, x) = choose|i: int, x: int| #[trigger]
                hits(builder, grammar, larger, i, x, item) && i < len;
            assert(hits(builder, grammar, smaller, i, x, item));
        }
        if gathered_has(builder, grammar, smaller, len, item) {
            let (i, x) = choose|i: int, x: int| #[trigger]
                hits(builder, grammar, smaller, i, x, item) && i < len;
            assert(hits(builder, grammar, larger, i, x, item));
        }
    }
    assert(large.dom() =~= small.dom());
    assert forall|item: ParseItem| #[trigger] small.contains_key(item) implies small[item].subset_of(
        large[item],
    ) by {
        lemma_last_seed_same_items(&inlines, larger, smaller, len, item);
        lemma_last_seed(&inlines, smaller, len, item);
        let seed = last_seed(&inlines, smaller, len, item);
        if seed >= 0 {
            assert(larger[seed].0 == smaller[seed].0);
        } else {
            assert forall|t: Symbol| small[item].contains(t) implies large[item].contains(t) by {
                let (i, x) = choose|i: int, x: int| #[trigger]
                    yields(builder, grammar, smaller, i, x, item, t) && i < len;
                assert(larger[i].0 == smaller[i].0);
                lemma_brings_monotone(
                    builder,
                    grammar,
                    work(&inlines, smaller, i, x),
                    larger[i].1,
                    smaller[i].1,
                    item,
                    t,
                );
                assert(yields(builder, grammar, larger, i, x, item, t));
            }
        }
    }
}

/// What an item gives with some lookaheads it gives with more.
proof fn lemma_brings_monotone(
    builder: &ParseItemSetBuilder,
    grammar: &SyntaxGrammar,
    item: ParseItem,
    larger: Set<Symbol>,
    smaller: Set<Symbol>,
    target: ParseItem,
    t: Symbol,
)
    requires
        smaller.subset_of(larger),
        brings_token(builder, grammar, item, smaller, target, t),
    ensures
        brings_token(builder, grammar, item, larger, target, t),
{
    let additions = dot_additions(builder, grammar, item);
    let k = choose|k: int|
        0 <= k < additions.len() && k < additions.len() && (#[trigger] additions[k]).item == target
            && addition_tokens(builder, grammar, item, smaller, additions[k]).contains(t);
    assert(addition_tokens(builder, grammar, item, larger, additions[k]).contains(t));
}

/// The two kernels hold the same entries, whatever their order.
pub open spec fn same_entries(
    left: Seq<(ParseItem, Set<Symbol>)>,
    right: Seq<(ParseItem, Set<Symbol>)>,
) -> bool {
    forall|entry: (ParseItem, Set<Symbol>)| left.contains(entry) <==> right.contains(entry)
}

/// No item is processed for two kernel entries with different lookaheads.
pub open spec fn collision_free(
    inlines: &InlinedProductionMap,
    kernel: Seq<(ParseItem, Set<Symbol>)>,
) -> bool {
    forall|i: int, j: int, item: ParseItem|
        0 <= i < kernel.len() && 0 <= j < kernel.len() && #[trigger] inlines.expansion(
            kernel[i].0,
        ).contains(item) && #[trigger] inlines.expansion(kernel[j].0).contains(item) ==> kernel[i].1
            == kernel[j].1
}

/// The closure does not depend on the order of the kernel's entries:
/// kernels that hold the same entries have the same closure, as long as
/// no item is processed for two entries with different lookaheads.
pub proof fn law_closure_order_independent(
    builder: &ParseItemSetBuilder,
    grammar: &SyntaxGrammar,
    left: Seq<(ParseItem, Set<Symbol>)>,
    right: Seq<(ParseItem, Set<Symbol>)>,
)
    requires
        same_entries(left, right),
        collision_free(&builder.inline_map(), left),
    ensures
        closure(builder, grammar, left) == closure(builder, grammar, right),
{
    let inlines = builder.inline_map();
    let a = closure(builder, grammar, left);
    let b = closure(builder, grammar, right);
    assert forall|item: ParseItem| #[trigger]
        a.contains_key(item) == b.contains_key(item) && (a.contains_key(item) ==> a[item]
            == b[item]) by {
        lemma_closure_of_same_entries(builder, grammar, left, right, item);
        lemma_closure_of_same_entries(builder, grammar, right, left, item);
        lemma_last_seed(&inlines, left, left.len() as int, item);
        lemma_last_seed(&inlines, right, right.len() as int, item);
        let l = last_seed(&inlines, left, left.len() as int, item);
        let r = last_seed(&inlines, right, right.len() as int, item);
        if l >= 0 {
            assert(right.contains(left[l]));
            let r1 = choose|r1: int| 0 <= r1 < right.len() && right[r1] == left[l];
            assert(inlines.expansion(right[r1].0).contains(item));
            assert(r >= 0);
        }
        if r >= 0 {
            assert(right.contains(right[r]));
            assert(left.contains(right[r]));
            let l1 = choose|l1: int| 0 <= l1 < left.len() && left[l1] == right[r];
            assert(inlines.expansion(left[l1].0).contains(item));
            assert(l >= 0);
            assert(left[l1].1 == left[l].1);
        }
        if a.contains_key(item) && l < 0 {
            assert(a[item] =~= b[item]);
        }
    }
    assert(a =~= b);
}

/// What the additions of one kernel give, those of a kernel with the same
/// entries give.
proof fn lemma_closure_of_same_entries(
    builder: &ParseItemSetBuilder,
    grammar: &SyntaxGrammar,
    left: Seq<(ParseItem, Set<Symbol>)>,
    right: Seq<(ParseItem, Set<Symbol>)>,
    item: ParseItem,
)
    requires
        same_entries(left, right) || same_entries(right, left),
    ensures
        gathered_has(builder, grammar, left, left.len() as int, item) ==> gathered_has(
            builder,
            grammar,
            right,
            right.len() as int,
            item,
        ),
        forall|t: Symbol|
            gathered_token(builder, grammar, left, left.len() as int, item, t)
                ==> #[trigger] gathered_token(
                builder,
                grammar,
                right,
                right.len() as int,
                item,
                t,
            ),
{
    let inlines = builder.inline_map();
    if gathered_has(builder, grammar, left, left.len() as int, item) {
        let (i, x) = choose|i: int, x: int| #[trigger]
            hits(builder, grammar, left, i, x, item) && i < left.len();
        assert(left.contains(left[i]));
        assert(right.contains(left[i]));
        let j = choose|j: int| 0 <= j < right.len() && right[j] == left[i];
        assert(hits(builder, grammar, right, j, x, item));
    }
    assert forall|t: Symbol|
        gathered_token(
            builder,
            grammar,
            left,
            left.len() as int,
            item,
            t,
        ) implies #[trigger] gathered_token(builder, grammar, right, right.len() as int, item, t) by {
        let (i, x) = choose|i: int, x: int| #[trigger]
            yields(builder, grammar, left, i, x, item, t) && i < left.len();
        assert(left.contains(left[i]));
        assert(right.contains(left[i]));
        let j = choose|j: int| 0 <= j < right.len() && right[j] == left[i];
        assert(yields(builder, grammar, right, j, x, item, t));
    }
}

/// A processed item is an item of the closure, and holds there the
/// lookaheads of its kernel entry, unless a later kernel entry is
/// processed as the same item.
pub proof fn law_closure_keeps_processed(
    builder: &ParseItemSetBuilder,
    grammar: &SyntaxGrammar,
    kernel: Seq<(ParseItem, Set<Symbol>)>,
    i: int,
    x: int,
)
    requires
        in_work(&builder.inline_map(), kernel, i, x),
        forall|j: int|
            i < j < kernel.len() ==> !builder.inline_map().expansion((#[trigger] kernel[j]).0).contains(
                work(&builder.inline_map(), kernel, i, x),
            ),
    ensures
        closure(builder, grammar, kernel).contains_key(work(&builder.inline_map(), kernel, i, x)),
        closure(builder, grammar, kernel)[work(&builder.inline_map(), kernel, i, x)] == kernel[i].1,
{
    let inlines = builder.inline_map();
    let item = work(&inlines, kernel, i, x);
    lemma_last_seed(&inlines, kernel, kernel.len() as int, item);
    let seed = last_seed(&inlines, kernel, kernel.len() as int, item);
    assert(inlines.expansion(kernel[i].0)[x] == item);
    assert(inlines.expansion(kernel[i].0).contains(item));
    assert(seed >= i);
}

/// Every addition behind the dot of a processed item has its item in the
/// closure, and that item holds there the tokens of the addition unless
/// it is itself processed for a kernel entry.
pub proof fn law_closure_holds_additions(
    builder: &ParseItemSetBuilder,
    grammar: &SyntaxGrammar,
    kernel: Seq<(ParseItem, Set<Symbol>)>,
    i: int,
    x: int,
    k: int,
)
    requires
        in_work(&builder.inline_map(), kernel, i, x),
        0 <= k < dot_additions(
            builder,
            grammar,
            work(&builder.inline_map(), kernel, i, x),
        ).len(),
    ensures
        ({
            let processed = work(&builder.inline_map(), kernel, i, x);
            let addition = dot_additions(builder, grammar, processed)[k];
            &&& closure(builder, grammar, kernel).contains_key(addition.item)
            &&& (forall|j: int|
                0 <= j < kernel.len() ==> !builder.inline_map().expansion(
                    (#[trigger] kernel[j]).0,
                ).contains(addition.item)) ==> addition_tokens(
                builder,
                grammar,
                processed,
                kernel[i].1,
                addition,
            ).subset_of(closure(builder, grammar, kernel)[addition.item])
        }),
{
    let inlines = builder.inline_map();
    let processed = work(&inlines, kernel, i, x);
    let additions = dot_additions(builder, grammar, processed);
    let addition = additions[k];
    let len = kernel.len() as int;
    assert(additions[k].item == addition.item);
    assert(hits(builder, grammar, kernel, i, x, addition.item));
    assert(gathered_has(builder, grammar, kernel, len, addition.item));
    lemma_last_seed(&inlines, kernel, len, addition.item);
    let seed = last_seed(&inlines, kernel, len, addition.item);
    if forall|j: int|
        0 <= j < kernel.len() ==> !inlines.expansion((#[trigger] kernel[j]).0).contains(
            addition.item,
        ) {
        if seed >= 0 {
            assert(!inlines.expansion(kernel[seed].0).contains(addition.item));
        }
        assert forall|t: Symbol|
            addition_tokens(builder, grammar, processed, kernel[i].1, addition).contains(
                t,
            ) implies closure(builder, grammar, kernel)[addition.item].contains(t) by {
            assert(yields(builder, grammar, kernel, i, x, addition.item, t));
        }
    }
}

/// The closure of an item set depends on nothing but the items that the
/// set holds and their lookaheads: the order in which its entries were
/// made leaves no trace.
pub proof fn law_closure_of_equal_sets(
    builder: &ParseItemSetBuilder,
    grammar: &SyntaxGrammar,
    left: &ParseItemSet,
    right: &ParseItemSet,
)
    requires
        left.wf(),
        right.wf(),
        left@ == right@,
    ensures
        closure(builder, grammar, left.kernel()) == closure(builder, grammar, right.kernel()),
{
    left.lemma_same_kernel(right);
}

} // verus!

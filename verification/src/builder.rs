use vstd::prelude::*;
use crate::symbol::Symbol;
use crate::lookahead::LookaheadSet;
use crate::grammar::{LexicalGrammar, SyntaxGrammar};
use crate::item::{InlinedProductionMap, ParseItem, ParseItemSet};
use crate::closure::{
    addition_tokens, after_additions, after_item, closure, dot_additions, following_tokens,
    gathered, gathered_within, lemma_additions_start, lemma_additions_step, lemma_closure_valid,
    lemma_dot_symbol_registered, lemma_gathered_enter, lemma_gathered_leave, lemma_gathered_start,
    lemma_gathered_step, lemma_overlaid_start, lemma_overlaid_step, lemma_with_items_start,
    lemma_with_items_step, overlaid, with_items,
};
use crate::symbol_sets::SymbolSets;
use crate::additions::{
    Addition, TransitiveClosureAddition, addition_from, additions_of, additions_view, is_addition,
};
use crate::table::expansion_additions;

verus! {

/// The tables from which the closure of an item set is computed: the
/// FIRST and LAST sets of every symbol of a grammar, and for every
/// non-terminal the additions that its expansion makes to an item set.
pub struct ParseItemSetBuilder {
    first_sets: SymbolSets,
    last_sets: SymbolSets,
    transitive_closure_additions: Vec<Vec<TransitiveClosureAddition>>,
    pub inlines: InlinedProductionMap,
}

impl ParseItemSetBuilder {
    /// The table of FIRST sets.
    pub closed spec fn firsts(&self) -> SymbolSets {
        self.first_sets
    }

    /// The table of LAST sets.
    pub closed spec fn lasts(&self) -> SymbolSets {
        self.last_sets
    }

    /// The inline expansions that the tables were built with.
    pub closed spec fn inline_map(&self) -> InlinedProductionMap {
        self.inlines
    }

    /// The additions of every non-terminal, in the order in which they are
    /// applied.
    pub closed spec fn additions(&self) -> Seq<Seq<Addition>> {
        self.transitive_closure_additions@.map_values(
            |list: Vec<TransitiveClosureAddition>| additions_view(list@),
        )
    }

    /// The number of terminals of the grammar that the tables were built
    /// for.
    pub open spec fn terminal_count(&self) -> nat {
        self.firsts().terminals@.len()
    }

    /// The tables fit `grammar`: they have an entry for each of its
    /// symbols, and the items that they name exist.
    pub open spec fn wf(&self, grammar: &SyntaxGrammar) -> bool {
        &&& grammar.wf(self.terminal_count())
        &&& self.inline_map().wf(grammar, self.terminal_count())
        &&& self.firsts().externals@.len() == grammar.external_tokens@.len()
        &&& self.firsts().non_terminals@.len() == grammar.variables@.len()
        &&& self.lasts().terminals@.len() == self.terminal_count()
        &&& self.lasts().externals@.len() == grammar.external_tokens@.len()
        &&& self.lasts().non_terminals@.len() == grammar.variables@.len()
        &&& self.additions().len() == grammar.variables@.len()
        &&& forall|i: int, k: int|
            0 <= i < self.additions().len() && 0 <= k < self.additions()[i].len() ==> (
            #[trigger] self.additions()[i][k]).item.valid(grammar, &self.inline_map())
    }

    /// The tables are those of `grammar`: the FIRST and LAST sets are the
    /// exact ones, the additions of each non-terminal are those of its
    /// expansion, each once, and their tokens are tokens of the grammar.
    pub open spec fn describes(&self, grammar: &SyntaxGrammar, lexical_grammar: &LexicalGrammar) -> bool {
        &&& self.wf(grammar)
        &&& self.firsts().describes(grammar, lexical_grammar.variables@.len(), false)
        &&& self.lasts().describes(grammar, lexical_grammar.variables@.len(), true)
        &&& forall|i: int|
            0 <= i < self.additions().len() ==> additions_of(
                grammar,
                &self.inline_map(),
                i,
                #[trigger] self.additions()[i],
            )
        &&& forall|i: int, k: int|
            0 <= i < self.additions().len() && 0 <= k < self.additions()[i].len() ==> (
            #[trigger] self.additions()[i][k]).lookaheads.subset_of(
                grammar.alphabet(lexical_grammar.variables@.len()),
            )
    }

    /// Builds the tables of a grammar: the FIRST and LAST set of every
    /// symbol and the additions of every non-terminal.
    pub fn new(
        syntax_grammar: &SyntaxGrammar,
        lexical_grammar: &LexicalGrammar,
        inlines: InlinedProductionMap,
    ) -> (builder: ParseItemSetBuilder)
        requires
            syntax_grammar.wf(lexical_grammar.variables@.len()),
            inlines.wf(syntax_grammar, lexical_grammar.variables@.len()),
        ensures
            builder.describes(syntax_grammar, lexical_grammar),
            builder.inline_map() == inlines,
    {
        let ghost terminals = lexical_grammar.variables@.len();
        let first_sets = SymbolSets::build(syntax_grammar, lexical_grammar, false);
        let last_sets = SymbolSets::build(syntax_grammar, lexical_grammar, true);
        let mut transitive_closure_additions: Vec<Vec<TransitiveClosureAddition>> = Vec::new();
        let mut i: usize = 0;
        while i < syntax_grammar.variables.len()
            invariant
                i <= syntax_grammar.variables.len(),
                terminals == lexical_grammar.variables@.len(),
                syntax_grammar.wf(terminals),
                inlines.wf(syntax_grammar, terminals),
                first_sets.describes(syntax_grammar, terminals, false),
                transitive_closure_additions@.len() == i,
                forall|j: int|
                    0 <= j < i ==> additions_of(
                        syntax_grammar,
                        &inlines,
                        j,
                        additions_view((#[trigger] transitive_closure_additions@[j])@),
                    ),
                forall|j: int, k: int|
                    0 <= j < i && 0 <= k < transitive_closure_additions@[j]@.len() ==> (
                    #[trigger] transitive_closure_additions@[j]@[k])@.lookaheads.subset_of(
                        syntax_grammar.alphabet(terminals),
                    ),
            decreases syntax_grammar.variables.len() - i,
        {
            let additions = expansion_additions(
                syntax_grammar,
                lexical_grammar,
                &first_sets,
                &inlines,
                i,
            );
            transitive_closure_additions.push(additions);
            i += 1;
        }
        let builder = ParseItemSetBuilder {
            first_sets,
            last_sets,
            transitive_closure_additions,
            inlines,
        };
        proof {
            assert forall|i: int, k: int|
                0 <= i < builder.additions().len() && 0 <= k
                    < builder.additions()[i].len() implies (#[trigger] builder.additions()[i][k]).item.valid(
                syntax_grammar,
                &builder.inlines,
            ) by {
                let addition = builder.additions()[i][k];
                assert(additions_of(
                    syntax_grammar,
                    &builder.inlines,
                    i,
                    additions_view(builder.transitive_closure_additions@[i]@),
                ));
                assert(builder.additions()[i].contains(addition));
                lemma_addition_valid(syntax_grammar, terminals, &builder.inlines, i, addition);
            }
            assert forall|i: int, k: int|
                0 <= i < builder.additions().len() && 0 <= k
                    < builder.additions()[i].len() implies (#[trigger] builder.additions()[i][k]).lookaheads.subset_of(
                syntax_grammar.alphabet(terminals),
            ) by {
                assert(builder.additions()[i][k] == builder.transitive_closure_additions@[i]@[k]@);
            }
        }
        builder
    }

    /// Processes `item` with `lookaheads`: where a non-terminal stands
    /// behind its dot, every addition of that non-terminal gives its
    /// tokens to the entry of its item in `set`, together with the tokens
    /// that follow the non-terminal where the addition propagates.
    pub fn add_item(
        &self,
        set: &mut ParseItemSet,
        item: ParseItem,
        lookaheads: &LookaheadSet,
        grammar: &SyntaxGrammar,
    )
        requires
            self.wf(grammar),
            old(set).wf(),
            item.valid(grammar, &self.inline_map()),
        ensures
            final(set).wf(),
            final(set)@ == after_item(self, grammar, old(set)@, item, lookaheads@),
    {
        proof {
            lemma_dot_symbol_registered(self, grammar, item);
            lemma_additions_start(self, grammar, set@, item, lookaheads@);
            assert(item.symbol_after(grammar, &self.inline_map(), 0) is Some ==> grammar.registers(
                self.terminal_count(),
                item.symbol_after(grammar, &self.inline_map(), 0).unwrap(),
            ));
            assert(item.symbol_after(grammar, &self.inline_map(), 1) is Some ==> grammar.registers(
                self.terminal_count(),
                item.symbol_after(grammar, &self.inline_map(), 1).unwrap(),
            ));
        }
        if let Some(step) = item.step(grammar, &self.inlines) {
            if step.symbol.is_non_terminal() {
                let production = item.production(grammar, &self.inlines);
                // The tokens that can follow this non-terminal.
                assert(item.step_index < production.steps@.len());
                let following = if production.steps.len() - item.step_index > 1 {
                    self.first_sets.get(&production.steps[item.step_index + 1].symbol)
                } else {
                    lookaheads
                };
                assert(following@ == following_tokens(self, grammar, item, lookaheads@));
                // The additions that were computed for the non-terminal expand it.
                let additions = &self.transitive_closure_additions[step.symbol.index];
                assert(additions_view(additions@) == dot_additions(self, grammar, item));
                let mut k: usize = 0;
                while k < additions.len()
                    invariant
                        k <= additions.len(),
                        set.wf(),
                        additions_view(additions@) == dot_additions(self, grammar, item),
                        following@ == following_tokens(self, grammar, item, lookaheads@),
                        set@ == after_additions(
                            self,
                            grammar,
                            old(set)@,
                            item,
                            lookaheads@,
                            k as int,
                        ),
                    decreases additions.len() - k,
                {
                    let addition = &additions[k];
                    let ghost current = set@;
                    assert(addition@ == dot_additions(self, grammar, item)[k as int]);
                    set.merge(addition.item, &addition.info.lookaheads);
                    if addition.info.propagates_lookaheads {
                        set.merge(addition.item, following);
                    }
                    proof {
                        let tokens = addition_tokens(self, grammar, item, lookaheads@, addition@);
                        let entry = if current.contains_key(addition.item) {
                            current[addition.item].union(tokens)
                        } else {
                            tokens
                        };
                        assert(set@[addition.item] =~= entry);
                        assert(set@ =~= current.insert(addition.item, entry));
                        lemma_additions_step(
                            self,
                            grammar,
                            old(set)@,
                            item,
                            lookaheads@,
                            k as int,
                            set@,
                        );
                    }
                    k += 1;
                }
            } else {
                assert(dot_additions(self, grammar, item).len() == 0);
            }
        } else {
            assert(dot_additions(self, grammar, item).len() == 0);
        }
    }

    /// Computes the transitive closure of a kernel item set.  Each kernel
    /// item is processed, as the items that replace it where it has to be
    /// expanded; then each processed item is entered with the lookaheads
    /// of its kernel entry, in place of whatever the additions gave it.
    pub fn transitive_closure(&self, item_set: &ParseItemSet, grammar: &SyntaxGrammar) -> (result:
        ParseItemSet)
        requires
            self.wf(grammar),
            item_set.wf(),
            forall|item: ParseItem| #[trigger]
                item_set@.contains_key(item) ==> item.valid(grammar, &self.inline_map()),
        ensures
            result.wf(),
            result@ == closure(self, grammar, item_set.kernel()),
            forall|item: ParseItem| #[trigger]
                result@.contains_key(item) ==> item.valid(grammar, &self.inline_map()),
    {
        let ghost kernel = item_set.kernel();
        let mut result = ParseItemSet::new();
        proof {
            lemma_gathered_start(self, grammar, kernel);
        }
        let mut i: usize = 0;
        while i < item_set.entries.len()
            invariant
                i <= item_set.entries.len(),
                kernel == item_set.kernel(),
                self.wf(grammar),
                item_set.wf(),
                forall|item: ParseItem| #[trigger]
                    item_set@.contains_key(item) ==> item.valid(grammar, &self.inline_map()),
                result.wf(),
                result@ == gathered(self, grammar, kernel, i as int),
            decreases item_set.entries.len() - i,
        {
            let entry = &item_set.entries[i];
            proof {
                lemma_gathered_enter(self, grammar, kernel, i as int);
                assert(kernel[i as int] == (entry.item, entry.lookaheads@));
                item_set.lemma_entry(i as int);
                assert(entry.item.valid(grammar, &self.inline_map()));
                self.inline_map().lemma_expansion_valid(grammar, self.terminal_count(), entry.item);
            }
            match self.inlines.inlined_items(entry.item) {
                Some(items) => {
                    let mut x: usize = 0;
                    while x < items.len()
                        invariant
                            x <= items.len(),
                            i < item_set.entries.len(),
                            kernel == item_set.kernel(),
                            kernel[i as int] == (entry.item, entry.lookaheads@),
                            self.wf(grammar),
                            items@ == self.inline_map().expansion(entry.item),
                            forall|k: int|
                                0 <= k < items@.len() ==> (#[trigger] items@[k]).valid(
                                    grammar,
                                    &self.inline_map(),
                                ),
                            result.wf(),
                            result@ == gathered_within(self, grammar, kernel, i as int, x as int),
                        decreases items.len() - x,
                    {
                        proof {
                            lemma_gathered_step(self, grammar, kernel, i as int, x as int);
                        }
                        self.add_item(&mut result, items[x], &entry.lookaheads, grammar);
                        x += 1;
                    }
                },
                None => {
                    proof {
                        assert(self.inline_map().expansion(entry.item) =~= seq![entry.item]);
                        lemma_gathered_step(self, grammar, kernel, i as int, 0);
                    }
                    self.add_item(&mut result, entry.item, &entry.lookaheads, grammar);
                },
            }
            proof {
                lemma_gathered_leave(self, grammar, kernel, i as int);
            }
            i += 1;
        }
        proof {
            lemma_overlaid_start(self, grammar, kernel);
        }
        let mut i: usize = 0;
        while i < item_set.entries.len()
            invariant
                i <= item_set.entries.len(),
                kernel == item_set.kernel(),
                result.wf(),
                result@ == overlaid(self, grammar, kernel, i as int),
            decreases item_set.entries.len() - i,
        {
            let entry = &item_set.entries[i];
            let ghost base = result@;
            proof {
                assert(kernel[i as int] == (entry.item, entry.lookaheads@));
                lemma_with_items_start(base, entry.lookaheads@);
            }
            match self.inlines.inlined_items(entry.item) {
                Some(items) => {
                    let mut x: usize = 0;
                    assert(items@.take(0) =~= Seq::<ParseItem>::empty());
                    while x < items.len()
                        invariant
                            x <= items.len(),
                            result.wf(),
                            result@ == with_items(base, items@.take(x as int), entry.lookaheads@),
                        decreases items.len() - x,
                    {
                        proof {
                            lemma_with_items_step(base, items@, entry.lookaheads@, x as int);
                        }
                        result.insert(items[x], entry.lookaheads.clone());
                        x += 1;
                    }
                    assert(items@.take(x as int) =~= items@);
                },
                None => {
                    let ghost items = seq![entry.item];
                    proof {
                        assert(self.inline_map().expansion(entry.item) =~= items);
                        assert(items.take(0) =~= Seq::<ParseItem>::empty());
                        assert(items.take(1) =~= items);
                        lemma_with_items_step(base, items, entry.lookaheads@, 0);
                    }
                    result.insert(entry.item, entry.lookaheads.clone());
                },
            }
            proof {
                lemma_overlaid_step(self, grammar, kernel, i as int);
            }
            i += 1;
        }
        proof {
            assert forall|item: ParseItem| #[trigger] result@.contains_key(item) implies item.valid(
                grammar,
                &self.inline_map(),
            ) by {
                assert forall|i: int| 0 <= i < kernel.len() implies (#[trigger] kernel[i]).0.valid(
                    grammar,
                    &self.inline_map(),
                ) by {
                    item_set.lemma_entry(i);
                }
                lemma_closure_valid(self, grammar, kernel, item);
            }
        }
        result
    }

    /// The FIRST set of `symbol`: the tokens with which its derivations
    /// begin.
    pub fn first_set(&self, symbol: &Symbol) -> (set: &LookaheadSet)
        requires
            self.firsts().registers(*symbol),
        ensures
            set@ == self.firsts().spec_get(*symbol),
    {
        self.first_sets.get(symbol)
    }

    /// The LAST set of `symbol`: the tokens with which its derivations
    /// end.
    pub fn last_set(&self, symbol: &Symbol) -> (set: &LookaheadSet)
        requires
            self.lasts().registers(*symbol),
        ensures
            set@ == self.lasts().spec_get(*symbol),
    {
        self.last_sets.get(symbol)
    }
}

/// The item of an addition names a production that exists.
pub proof fn lemma_addition_valid(
    grammar: &SyntaxGrammar,
    terminals: nat,
    inlines: &InlinedProductionMap,
    origin: int,
    addition: Addition,
)
    requires
        inlines.wf(grammar, terminals),
        is_addition(grammar, inlines, origin, addition),
    ensures
        addition.item.valid(grammar, inlines),
{
    let (j, p) = choose|j: int, p: int| #[trigger]
        addition_from(grammar, inlines, origin, j, p, addition);
    let item = ParseItem::normal(j as usize, p as usize, 0);
    assert(grammar.variables@.len() == grammar.variables.len());
    assert(grammar.variables@[j].productions@.len() == grammar.variables@[j].productions.len());
    inlines.lemma_expansion_valid(grammar, terminals, item);
    let x = choose|x: int|
        0 <= x < inlines.expansion(item).len() && inlines.expansion(item)[x] == addition.item;
    assert(inlines.expansion(item)[x].valid(grammar, inlines));
}

} // verus!

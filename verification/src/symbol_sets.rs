use vstd::prelude::*;
use crate::symbol::{Symbol, SymbolType};
use crate::lookahead::LookaheadSet;
use crate::grammar::{LexicalGrammar, SyntaxGrammar};

verus! {

/// Production `p` of the non-terminal `from` has `to` at its chosen end:
/// as its last symbol where `from_end` holds, as its first otherwise.
pub open spec fn leads_via(
    grammar: &SyntaxGrammar,
    from_end: bool,
    from: Symbol,
    p: int,
    to: Symbol,
) -> bool {
    &&& from.kind == SymbolType::NonTerminal
    &&& from.index < grammar.variables@.len()
    &&& 0 <= p < grammar.variables@[from.index as int].productions@.len()
    &&& grammar.variables@[from.index as int].productions@[p].spec_edge_symbol(from_end) == Some(
        to,
    )
}

/// Some production of the non-terminal `from` has `to` at its chosen end.
pub open spec fn leads_to(grammar: &SyntaxGrammar, from_end: bool, from: Symbol, to: Symbol) -> bool {
    exists|p: int| #[trigger] leads_via(grammar, from_end, from, p, to)
}

/// In `chain`, the symbol at `k` leads to the one behind it.
pub open spec fn link(grammar: &SyntaxGrammar, from_end: bool, chain: Seq<Symbol>, k: int) -> bool {
    leads_to(grammar, from_end, chain[k], chain[k + 1])
}

/// `chain` starts at `from`, ends at `to`, and each of its symbols leads
/// to the next.
pub open spec fn is_chain(
    grammar: &SyntaxGrammar,
    from_end: bool,
    chain: Seq<Symbol>,
    from: Symbol,
    to: Symbol,
) -> bool {
    &&& chain.len() > 0
    &&& chain[0] == from
    &&& chain[chain.len() - 1] == to
    &&& forall|k: int| 0 <= k < chain.len() - 1 ==> #[trigger] link(grammar, from_end, chain, k)
}

/// `to` is found from `from` by going, any number of times, from a
/// non-terminal to the symbol at the chosen end of one of its productions.
pub open spec fn reaches(grammar: &SyntaxGrammar, from_end: bool, from: Symbol, to: Symbol) -> bool {
    exists|chain: Seq<Symbol>| #[trigger] is_chain(grammar, from_end, chain, from, to)
}

/// The terminals and external tokens with which a derivation of `symbol`
/// can end (where `from_end` holds) or begin (where it does not).
pub open spec fn edge_set(grammar: &SyntaxGrammar, from_end: bool, symbol: Symbol) -> Set<Symbol> {
    Set::new(
        |t: Symbol|
            (t.kind == SymbolType::Terminal || t.kind == SymbolType::External) && reaches(
                grammar,
                from_end,
                symbol,
                t,
            ),
    )
}

/// The tokens with which a derivation of `symbol` can begin.
pub open spec fn first_tokens(grammar: &SyntaxGrammar, symbol: Symbol) -> Set<Symbol> {
    edge_set(grammar, false, symbol)
}

/// The tokens with which a derivation of `symbol` can end.
pub open spec fn last_tokens(grammar: &SyntaxGrammar, symbol: Symbol) -> Set<Symbol> {
    edge_set(grammar, true, symbol)
}

/// What is found from a symbol is found, one step further, from there.
pub proof fn lemma_reaches_step(
    grammar: &SyntaxGrammar,
    from_end: bool,
    from: Symbol,
    mid: Symbol,
    p: int,
    to: Symbol,
)
    requires
        reaches(grammar, from_end, from, mid),
        leads_via(grammar, from_end, mid, p, to),
    ensures
        reaches(grammar, from_end, from, to),
{
    let chain = choose|chain: Seq<Symbol>| #[trigger] is_chain(grammar, from_end, chain, from, mid);
    let longer = chain.push(to);
    assert forall|k: int| 0 <= k < longer.len() - 1 implies #[trigger] link(
        grammar,
        from_end,
        longer,
        k,
    ) by {
        if k < chain.len() - 1 {
            assert(link(grammar, from_end, chain, k));
        }
    }
    assert(is_chain(grammar, from_end, longer, from, to));
}

/// Every symbol is found from itself.
pub proof fn lemma_reaches_self(grammar: &SyntaxGrammar, from_end: bool, symbol: Symbol)
    ensures
        reaches(grammar, from_end, symbol, symbol),
{
    assert(is_chain(grammar, from_end, seq![symbol], symbol, symbol));
}

/// What is found from one symbol, and what is found from there, is found
/// from the first.
pub proof fn lemma_reaches_transitive(
    grammar: &SyntaxGrammar,
    from_end: bool,
    from: Symbol,
    mid: Symbol,
    to: Symbol,
)
    requires
        reaches(grammar, from_end, from, mid),
        reaches(grammar, from_end, mid, to),
    ensures
        reaches(grammar, from_end, from, to),
{
    let head = choose|chain: Seq<Symbol>| #[trigger] is_chain(grammar, from_end, chain, from, mid);
    let tail = choose|chain: Seq<Symbol>| #[trigger] is_chain(grammar, from_end, chain, mid, to);
    let whole = head.drop_last() + tail;
    assert forall|k: int| 0 <= k < whole.len() - 1 implies #[trigger] link(
        grammar,
        from_end,
        whole,
        k,
    ) by {
        if k < head.len() - 1 {
            assert(link(grammar, from_end, head, k));
        } else {
            assert(link(grammar, from_end, tail, k - (head.len() - 1)));
        }
    }
    assert(is_chain(grammar, from_end, whole, from, to));
}

/// A chain that starts at a symbol which is no non-terminal stays there.
pub proof fn lemma_chain_from_leaf(
    grammar: &SyntaxGrammar,
    from_end: bool,
    chain: Seq<Symbol>,
    from: Symbol,
    to: Symbol,
    k: int,
)
    requires
        from.kind != SymbolType::NonTerminal,
        is_chain(grammar, from_end, chain, from, to),
        0 <= k < chain.len(),
    ensures
        chain[k] == from,
    decreases k,
{
    if k > 0 {
        lemma_chain_from_leaf(grammar, from_end, chain, from, to, k - 1);
        assert(link(grammar, from_end, chain, k - 1));
        let p = choose|p: int| #[trigger] leads_via(grammar, from_end, chain[k - 1], p, chain[k]);
    }
}

/// The FIRST set and the LAST set of a terminal or of an external token
/// hold the token itself and nothing else.
pub proof fn lemma_token_edge_set(grammar: &SyntaxGrammar, from_end: bool, token: Symbol)
    requires
        token.kind == SymbolType::Terminal || token.kind == SymbolType::External,
    ensures
        edge_set(grammar, from_end, token) == set![token],
{
    lemma_reaches_self(grammar, from_end, token);
    assert forall|t: Symbol| edge_set(grammar, from_end, token).contains(t) implies t == token by {
        let chain = choose|chain: Seq<Symbol>| #[trigger]
            is_chain(grammar, from_end, chain, token, t);
        lemma_chain_from_leaf(grammar, from_end, chain, token, t, chain.len() - 1);
    }
    assert(edge_set(grammar, from_end, token) =~= set![token]);
}

/// Along a chain that starts at a symbol which the grammar registers,
/// every symbol is registered.
pub proof fn lemma_chain_registered(
    grammar: &SyntaxGrammar,
    terminals: nat,
    from_end: bool,
    chain: Seq<Symbol>,
    from: Symbol,
    to: Symbol,
    k: int,
)
    requires
        grammar.wf(terminals),
        grammar.registers(terminals, from),
        is_chain(grammar, from_end, chain, from, to),
        0 <= k < chain.len(),
    ensures
        grammar.registers(terminals, chain[k]),
    decreases k,
{
    if k > 0 {
        assert(link(grammar, from_end, chain, k - 1));
        let p = choose|p: int| #[trigger] leads_via(grammar, from_end, chain[k - 1], p, chain[k]);
        lemma_edge_registered(grammar, terminals, from_end, chain[k - 1], p, chain[k]);
    }
}

/// The symbol at the end of a production is one that the grammar
/// registers.
pub proof fn lemma_edge_registered(
    grammar: &SyntaxGrammar,
    terminals: nat,
    from_end: bool,
    from: Symbol,
    p: int,
    to: Symbol,
)
    requires
        grammar.wf(terminals),
        leads_via(grammar, from_end, from, p, to),
    ensures
        grammar.registers(terminals, to),
{
    let variable = grammar.variables@[from.index as int];
    assert(variable.wf(grammar, terminals));
    let production = variable.productions@[p];
    assert(production.wf(grammar, terminals));
    let k = if from_end {
        production.steps@.len() - 1
    } else {
        0
    };
    assert(grammar.registers(terminals, production.steps@[k].symbol));
}

/// The FIRST and LAST sets of a symbol that the grammar registers lie in
/// the grammar's alphabet.
pub proof fn lemma_edge_set_in_alphabet(
    grammar: &SyntaxGrammar,
    terminals: nat,
    from_end: bool,
    symbol: Symbol,
)
    requires
        grammar.wf(terminals),
        grammar.registers(terminals, symbol),
    ensures
        edge_set(grammar, from_end, symbol).subset_of(grammar.alphabet(terminals)),
{
    assert forall|t: Symbol| edge_set(grammar, from_end, symbol).contains(t) implies grammar.alphabet(
        terminals,
    ).contains(t) by {
        let chain = choose|chain: Seq<Symbol>| #[trigger]
            is_chain(grammar, from_end, chain, symbol, t);
        lemma_chain_registered(
            grammar,
            terminals,
            from_end,
            chain,
            symbol,
            t,
            chain.len() - 1,
        );
    }
}

/// The number of unset positions of `marks`.
spec fn count_unset(marks: Seq<bool>) -> nat
    decreases marks.len(),
{
    if marks.len() == 0 {
        0
    } else {
        count_unset(marks.drop_last()) + if marks.last() {
            0nat
        } else {
            1nat
        }
    }
}

/// Setting an unset position leaves one unset position fewer.
proof fn lemma_count_unset_update(marks: Seq<bool>, i: int)
    requires
        0 <= i < marks.len(),
        !marks[i],
    ensures
        count_unset(marks.update(i, true)) == count_unset(marks) - 1,
    decreases marks.len(),
{
    if i == marks.len() - 1 {
        assert(marks.update(i, true).drop_last() =~= marks.drop_last());
    } else {
        assert(marks.update(i, true).drop_last() =~= marks.drop_last().update(i, true));
        lemma_count_unset_update(marks.drop_last(), i);
    }
}

/// `symbol` has been dealt with or waits on the stack: it is a token in
/// `found`, a non-terminal marked in `visited`, or an element of `stack`.
spec fn covered(found: Set<Symbol>, visited: Seq<bool>, stack: Seq<Symbol>, symbol: Symbol) -> bool {
    ||| (symbol.kind == SymbolType::Terminal || symbol.kind == SymbolType::External)
        && found.contains(symbol)
    ||| symbol.kind == SymbolType::NonTerminal && symbol.index < visited.len()
        && visited[symbol.index as int]
    ||| stack.contains(symbol)
}

/// The symbol at the end of production `p` of variable `j` is covered.
spec fn edge_covered(
    grammar: &SyntaxGrammar,
    from_end: bool,
    found: Set<Symbol>,
    visited: Seq<bool>,
    stack: Seq<Symbol>,
    j: int,
    p: int,
) -> bool {
    match grammar.variables@[j].productions@[p].spec_edge_symbol(from_end) {
        Some(symbol) => covered(found, visited, stack, symbol),
        None => true,
    }
}

/// Every visited variable has the ends of its productions covered, but
/// for the productions of variable `current` from `upto` on.
spec fn closed_upto(
    grammar: &SyntaxGrammar,
    from_end: bool,
    found: Set<Symbol>,
    visited: Seq<bool>,
    stack: Seq<Symbol>,
    current: int,
    upto: int,
) -> bool {
    forall|j: int, p: int|
        0 <= j < visited.len() && visited[j] && 0 <= p < grammar.variables@[j].productions@.len()
            && (j != current || p < upto) ==> #[trigger] edge_covered(
            grammar,
            from_end,
            found,
            visited,
            stack,
            j,
            p,
        )
}

/// Where nothing waits any more, every symbol of a chain that starts at
/// a covered symbol is covered.
proof fn lemma_closed_covers(
    grammar: &SyntaxGrammar,
    from_end: bool,
    found: Set<Symbol>,
    visited: Seq<bool>,
    chain: Seq<Symbol>,
    start: Symbol,
    to: Symbol,
    k: int,
)
    requires
        visited.len() == grammar.variables@.len(),
        covered(found, visited, Seq::empty(), start),
        closed_upto(grammar, from_end, found, visited, Seq::empty(), -1, 0),
        is_chain(grammar, from_end, chain, start, to),
        0 <= k < chain.len(),
    ensures
        covered(found, visited, Seq::empty(), chain[k]),
    decreases k,
{
    if k > 0 {
        let mid = chain[k - 1];
        lemma_closed_covers(grammar, from_end, found, visited, chain, start, to, k - 1);
        assert(link(grammar, from_end, chain, k - 1));
        let p = choose|p: int| #[trigger] leads_via(grammar, from_end, mid, p, chain[k]);
        assert(edge_covered(
            grammar,
            from_end,
            found,
            visited,
            Seq::empty(),
            mid.index as int,
            p,
        ));
    }
}

/// Computes the FIRST set (or, where `from_end` holds, the LAST set) of
/// the non-terminal `start` with an explicit stack.
pub fn traverse(
    grammar: &SyntaxGrammar,
    lexical_grammar: &LexicalGrammar,
    start: usize,
    from_end: bool,
) -> (result: LookaheadSet)
    requires
        grammar.wf(lexical_grammar.variables@.len()),
        start < grammar.variables@.len(),
    ensures
        result@ == edge_set(grammar, from_end, Symbol::non_terminal(start)),
{
    let terminal_count: usize = lexical_grammar.variables.len();
    let ghost terminals = lexical_grammar.variables@.len();
    let ghost origin = Symbol::non_terminal(start);
    let variable_count: usize = grammar.variables.len();
    let mut visited: Vec<bool> = Vec::new();
    while visited.len() < variable_count
        invariant
            visited@.len() <= variable_count,
            forall|j: int| 0 <= j < visited@.len() ==> !#[trigger] visited@[j],
        decreases variable_count - visited.len(),
    {
        visited.push(false);
    }
    let mut result = LookaheadSet::new();
    let mut stack: Vec<Symbol> = Vec::new();
    stack.push(Symbol::non_terminal(start));
    proof {
        lemma_reaches_self(grammar, from_end, origin);
        assert(stack@[0] == origin);
        assert(stack@.contains(origin));
    }
    while stack.len() > 0
        invariant
            terminals == terminal_count,
            variable_count == grammar.variables@.len(),
            origin == Symbol::non_terminal(start),
            grammar.wf(terminals),
            visited@.len() == variable_count,
            forall|k: int|
                0 <= k < stack@.len() ==> grammar.registers(terminals, #[trigger] stack@[k])
                    && reaches(grammar, from_end, origin, stack@[k]),
            forall|t: Symbol| #[trigger]
                result@.contains(t) ==> edge_set(grammar, from_end, origin).contains(t),
            covered(result@, visited@, stack@, origin),
            closed_upto(grammar, from_end, result@, visited@, stack@, -1, 0),
        decreases count_unset(visited@), stack@.len(),
    {
        let ghost found_before = result@;
        let ghost visited_before = visited@;
        let ghost stack_before = stack@;
        let current = stack.pop().unwrap();
        assert(current == stack_before[stack_before.len() - 1]);
        assert(grammar.registers(terminals, current));
        if current.is_terminal() || current.is_external() {
            assert(grammar.external_tokens@.len() == grammar.external_tokens.len());
            result.insert(current);
            proof {
                assert forall|y: Symbol|
                    covered(found_before, visited_before, stack_before, y) implies covered(
                    result@,
                    visited@,
                    stack@,
                    y,
                ) by {
                    lemma_covered_after_pop(found_before, result@, visited@, stack_before, y);
                }
                assert forall|j: int, p: int|
                    0 <= j < visited@.len() && visited@[j] && 0 <= p
                        < grammar.variables@[j].productions@.len() implies #[trigger] edge_covered(
                    grammar,
                    from_end,
                    result@,
                    visited@,
                    stack@,
                    j,
                    p,
                ) by {
                    assert(edge_covered(
                        grammar,
                        from_end,
                        found_before,
                        visited_before,
                        stack_before,
                        j,
                        p,
                    ));
                }
            }
        } else if !visited[current.index] {
            visited.set(current.index, true);
            proof {
                lemma_count_unset_update(visited_before, current.index as int);
                assert forall|y: Symbol|
                    covered(found_before, visited_before, stack_before, y) implies covered(
                    result@,
                    visited@,
                    stack@,
                    y,
                ) by {
                    lemma_covered_after_pop(found_before, result@, visited@, stack_before, y);
                }
                assert forall|j: int, p: int|
                    0 <= j < visited@.len() && visited@[j] && 0 <= p
                        < grammar.variables@[j].productions@.len() && j
                        != current.index implies #[trigger] edge_covered(
                    grammar,
                    from_end,
                    result@,
                    visited@,
                    stack@,
                    j,
                    p,
                ) by {
                    assert(edge_covered(
                        grammar,
                        from_end,
                        found_before,
                        visited_before,
                        stack_before,
                        j,
                        p,
                    ));
                }
            }
            let productions = &grammar.variables[current.index].productions;
            let mut p: usize = 0;
            while p < productions.len()
                invariant
                    p <= productions.len(),
                    current.kind == SymbolType::NonTerminal,
                    current.index < grammar.variables@.len(),
                    *productions == grammar.variables@[current.index as int].productions,
                    reaches(grammar, from_end, origin, current),
                    grammar.wf(terminals),
                    visited@.len() == grammar.variables@.len(),
                    forall|k: int|
                        0 <= k < stack@.len() ==> grammar.registers(
                            terminals,
                            #[trigger] stack@[k],
                        ) && reaches(grammar, from_end, origin, stack@[k]),
                    covered(result@, visited@, stack@, origin),
                    closed_upto(
                        grammar,
                        from_end,
                        result@,
                        visited@,
                        stack@,
                        current.index as int,
                        p as int,
                    ),
                decreases productions.len() - p,
            {
                let ghost stack_then = stack@;
                match productions[p].edge_symbol(from_end) {
                    Some(symbol) => {
                        proof {
                            assert(leads_via(grammar, from_end, current, p as int, symbol));
                            lemma_reaches_step(
                                grammar,
                                from_end,
                                origin,
                                current,
                                p as int,
                                symbol,
                            );
                            lemma_edge_registered(
                                grammar,
                                terminals,
                                from_end,
                                current,
                                p as int,
                                symbol,
                            );
                        }
                        stack.push(symbol);
                        proof {
                            assert(stack@[stack@.len() - 1] == symbol);
                            assert(stack@.contains(symbol));
                        }
                    },
                    None => {},
                }
                proof {
                    assert forall|y: Symbol|
                        covered(result@, visited@, stack_then, y) implies covered(
                        result@,
                        visited@,
                        stack@,
                        y,
                    ) by {
                        if stack_then.contains(y) {
                            let k = choose|k: int| 0 <= k < stack_then.len() && stack_then[k] == y;
                            assert(stack@[k] == y);
                        }
                    }
                    assert forall|j: int, q: int|
                        0 <= j < visited@.len() && visited@[j] && 0 <= q
                            < grammar.variables@[j].productions@.len() && (j != current.index || q
                            < p + 1) implies #[trigger] edge_covered(
                        grammar,
                        from_end,
                        result@,
                        visited@,
                        stack@,
                        j,
                        q,
                    ) by {
                        if j != current.index || q < p {
                            assert(edge_covered(
                                grammar,
                                from_end,
                                result@,
                                visited@,
                                stack_then,
                                j,
                                q,
                            ));
                        }
                    }
                }
                p += 1;
            }
        } else {
            proof {
                assert forall|y: Symbol|
                    covered(found_before, visited_before, stack_before, y) implies covered(
                    result@,
                    visited@,
                    stack@,
                    y,
                ) by {
                    lemma_covered_after_pop(found_before, result@, visited@, stack_before, y);
                }
                assert forall|j: int, p: int|
                    0 <= j < visited@.len() && visited@[j] && 0 <= p
                        < grammar.variables@[j].productions@.len() implies #[trigger] edge_covered(
                    grammar,
                    from_end,
                    result@,
                    visited@,
                    stack@,
                    j,
                    p,
                ) by {
                    assert(edge_covered(
                        grammar,
                        from_end,
                        found_before,
                        visited_before,
                        stack_before,
                        j,
                        p,
                    ));
                }
            }
        }
    }
    proof {
        assert(stack@ =~= Seq::<Symbol>::empty());
        assert forall|t: Symbol|
            edge_set(grammar, from_end, origin).contains(t) implies result@.contains(t) by {
            let chain = choose|chain: Seq<Symbol>| #[trigger]
                is_chain(grammar, from_end, chain, origin, t);
            lemma_closed_covers(
                grammar,
                from_end,
                result@,
                visited@,
                chain,
                origin,
                t,
                chain.len() - 1,
            );
        }
        assert(result@ =~= edge_set(grammar, from_end, origin));
    }
    result
}

/// A symbol that was covered before the top of the stack was popped is
/// covered afterwards, where the popped symbol itself is covered then.
proof fn lemma_covered_after_pop(
    found_before: Set<Symbol>,
    found: Set<Symbol>,
    visited: Seq<bool>,
    stack_before: Seq<Symbol>,
    symbol: Symbol,
)
    requires
        stack_before.len() > 0,
        found_before.subset_of(found),
        covered(found, visited, stack_before.drop_last(), stack_before.last()),
        covered(found_before, visited, stack_before, symbol) || (symbol.kind
            == SymbolType::NonTerminal && symbol.index < visited.len()
            && visited[symbol.index as int]),
    ensures
        covered(found, visited, stack_before.drop_last(), symbol),
{
    if stack_before.contains(symbol) {
        let k = choose|k: int| 0 <= k < stack_before.len() && stack_before[k] == symbol;
        if k < stack_before.len() - 1 {
            assert(stack_before.drop_last()[k] == symbol);
        }
    }
}

/// The FIRST sets, or the LAST sets, of all symbols of a grammar, each
/// kept at the index of its symbol.
#[derive(Debug)]
pub struct SymbolSets {
    pub terminals: Vec<LookaheadSet>,
    pub externals: Vec<LookaheadSet>,
    pub non_terminals: Vec<LookaheadSet>,
}

impl SymbolSets {
    /// Whether the table holds a set for `symbol`.
    pub open spec fn registers(&self, symbol: Symbol) -> bool {
        match symbol.kind {
            SymbolType::Terminal => symbol.index < self.terminals@.len(),
            SymbolType::External => symbol.index < self.externals@.len(),
            SymbolType::NonTerminal => symbol.index < self.non_terminals@.len(),
            SymbolType::End => false,
        }
    }

    /// The set that the table holds for `symbol`.
    pub open spec fn spec_get(&self, symbol: Symbol) -> Set<Symbol> {
        match symbol.kind {
            SymbolType::Terminal => self.terminals@[symbol.index as int]@,
            SymbolType::External => self.externals@[symbol.index as int]@,
            SymbolType::NonTerminal => self.non_terminals@[symbol.index as int]@,
            SymbolType::End => Set::empty(),
        }
    }

    /// The table holds, for each symbol that the grammar registers, the
    /// tokens with which its derivations begin (or end, where `from_end`
    /// holds).
    pub open spec fn describes(&self, grammar: &SyntaxGrammar, terminals: nat, from_end: bool) -> bool {
        &&& self.terminals@.len() == terminals
        &&& self.externals@.len() == grammar.external_tokens@.len()
        &&& self.non_terminals@.len() == grammar.variables@.len()
        &&& forall|symbol: Symbol|
            self.registers(symbol) ==> #[trigger] self.spec_get(symbol) == edge_set(
                grammar,
                from_end,
                symbol,
            )
    }

    /// Computes the sets of all symbols of the grammar.
    pub fn build(grammar: &SyntaxGrammar, lexical_grammar: &LexicalGrammar, from_end: bool) -> (sets:
        SymbolSets)
        requires
            grammar.wf(lexical_grammar.variables@.len()),
        ensures
            sets.describes(grammar, lexical_grammar.variables@.len(), from_end),
    {
        let mut terminals: Vec<LookaheadSet> = Vec::new();
        let mut i: usize = 0;
        while i < lexical_grammar.variables.len()
            invariant
                i <= lexical_grammar.variables.len(),
                terminals@.len() == i,
                forall|k: int|
                    0 <= k < i ==> (#[trigger] terminals@[k])@ == edge_set(
                        grammar,
                        from_end,
                        Symbol::terminal(k as usize),
                    ),
            decreases lexical_grammar.variables.len() - i,
        {
            let symbol = Symbol::terminal(i);
            let mut set = LookaheadSet::new();
            set.insert(symbol);
            proof {
                lemma_token_edge_set(grammar, from_end, symbol);
                assert(set@ =~= set![symbol]);
            }
            terminals.push(set);
            i += 1;
        }
        let mut externals: Vec<LookaheadSet> = Vec::new();
        let mut i: usize = 0;
        while i < grammar.external_tokens.len()
            invariant
                i <= grammar.external_tokens.len(),
                externals@.len() == i,
                forall|k: int|
                    0 <= k < i ==> (#[trigger] externals@[k])@ == edge_set(
                        grammar,
                        from_end,
                        Symbol::external(k as usize),
                    ),
            decreases grammar.external_tokens.len() - i,
        {
            let symbol = Symbol::external(i);
            let mut set = LookaheadSet::new();
            set.insert(symbol);
            proof {
                lemma_token_edge_set(grammar, from_end, symbol);
                assert(set@ =~= set![symbol]);
            }
            externals.push(set);
            i += 1;
        }
        let mut non_terminals: Vec<LookaheadSet> = Vec::new();
        let mut i: usize = 0;
        while i < grammar.variables.len()
            invariant
                i <= grammar.variables.len(),
                grammar.wf(lexical_grammar.variables@.len()),
                non_terminals@.len() == i,
                forall|k: int|
                    0 <= k < i ==> (#[trigger] non_terminals@[k])@ == edge_set(
                        grammar,
                        from_end,
                        Symbol::non_terminal(k as usize),
                    ),
            decreases grammar.variables.len() - i,
        {
            let set = traverse(grammar, lexical_grammar, i, from_end);
            non_terminals.push(set);
            i += 1;
        }
        let sets = SymbolSets { terminals, externals, non_terminals };
        proof {
            assert forall|symbol: Symbol| sets.registers(symbol) implies #[trigger] sets.spec_get(
                symbol,
            ) == edge_set(grammar, from_end, symbol) by {
                let k = symbol.index as int;
                match symbol.kind {
                    SymbolType::Terminal => {
                        assert(symbol == Symbol::terminal(k as usize));
                        assert(sets.terminals@[k]@ == edge_set(grammar, from_end, symbol));
                    },
                    SymbolType::External => {
                        assert(symbol == Symbol::external(k as usize));
                        assert(sets.externals@[k]@ == edge_set(grammar, from_end, symbol));
                    },
                    SymbolType::NonTerminal => {
                        assert(symbol == Symbol::non_terminal(k as usize));
                        assert(sets.non_terminals@[k]@ == edge_set(grammar, from_end, symbol));
                    },
                    SymbolType::End => {},
                }
            }
        }
        sets
    }

    /// The set of `symbol`.
    pub fn get(&self, symbol: &Symbol) -> (set: &LookaheadSet)
        requires
            self.registers(*symbol),
        ensures
            set@ == self.spec_get(*symbol),
    {
        match symbol.kind {
            SymbolType::Terminal => &self.terminals[symbol.index],
            SymbolType::External => &self.externals[symbol.index],
            _ => &self.non_terminals[symbol.index],
        }
    }
}

} // verus!

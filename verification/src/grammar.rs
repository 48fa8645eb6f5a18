use vstd::prelude::*;
use crate::symbol::{Symbol, SymbolType, tokens_below, lemma_tokens_below_finite};

verus! {

/// One step of a production: the symbol that is matched there.
#[derive(Debug)]
pub struct ProductionStep {
    pub symbol: Symbol,
}

/// One alternative of a non-terminal: an ordered sequence of steps.
#[derive(Debug)]
pub struct Production {
    pub steps: Vec<ProductionStep>,
}

/// A non-terminal of the syntax grammar with its ordered productions.
#[derive(Debug)]
pub struct SyntaxVariable {
    pub name: String,
    pub productions: Vec<Production>,
}

/// A token that an external scanner recognises.
#[derive(Debug)]
pub struct ExternalToken {
    pub name: String,
}

/// A token of the lexical grammar.
#[derive(Debug)]
pub struct LexicalVariable {
    pub name: String,
}

/// The ordered terminals of a grammar.
#[derive(Debug)]
pub struct LexicalGrammar {
    pub variables: Vec<LexicalVariable>,
}

/// The ordered non-terminals of a grammar, its external tokens, and the
/// non-terminals that are to be inlined.
#[derive(Debug)]
pub struct SyntaxGrammar {
    pub variables: Vec<SyntaxVariable>,
    pub external_tokens: Vec<ExternalToken>,
    pub variables_to_inline: Vec<Symbol>,
}

/// The tokens that a grammar with `terminals` terminals and `externals`
/// external tokens can produce.
pub open spec fn token_alphabet(terminals: nat, externals: nat) -> Set<Symbol> {
    tokens_below(SymbolType::Terminal, terminals).union(
        tokens_below(SymbolType::External, externals),
    )
}

/// The alphabet is finite, with no more members than there are terminals
/// and external tokens.
pub proof fn lemma_token_alphabet_finite(terminals: nat, externals: nat)
    ensures
        token_alphabet(terminals, externals).finite(),
        token_alphabet(terminals, externals).len() <= terminals + externals,
{
    lemma_tokens_below_finite(SymbolType::Terminal, terminals);
    lemma_tokens_below_finite(SymbolType::External, externals);
    vstd::set_lib::lemma_len_union(
        tokens_below(SymbolType::Terminal, terminals),
        tokens_below(SymbolType::External, externals),
    );
}

impl Production {
    /// The symbol of the first step, if the production has a step.
    pub open spec fn spec_first_symbol(&self) -> Option<Symbol> {
        if self.steps@.len() > 0 {
            Some(self.steps@[0].symbol)
        } else {
            None
        }
    }

    /// The symbol of the last step, if the production has a step.
    pub open spec fn spec_last_symbol(&self) -> Option<Symbol> {
        if self.steps@.len() > 0 {
            Some(self.steps@[self.steps@.len() - 1].symbol)
        } else {
            None
        }
    }

    /// The symbol at the chosen end of the production: the last one where
    /// `from_end` holds, the first one otherwise.
    pub open spec fn spec_edge_symbol(&self, from_end: bool) -> Option<Symbol> {
        if from_end {
            self.spec_last_symbol()
        } else {
            self.spec_first_symbol()
        }
    }

    /// The symbol of the first step, if the production has a step.
    #[verifier::when_used_as_spec(spec_first_symbol)]
    pub fn first_symbol(&self) -> (symbol: Option<Symbol>)
        ensures
            symbol == self.spec_first_symbol(),
    {
        if self.steps.len() > 0 {
            Some(self.steps[0].symbol)
        } else {
            None
        }
    }

    /// The symbol of the last step, if the production has a step.
    #[verifier::when_used_as_spec(spec_last_symbol)]
    pub fn last_symbol(&self) -> (symbol: Option<Symbol>)
        ensures
            symbol == self.spec_last_symbol(),
    {
        if self.steps.len() > 0 {
            Some(self.steps[self.steps.len() - 1].symbol)
        } else {
            None
        }
    }

    /// The symbol at the chosen end of the production: the last one where
    /// `from_end` holds, the first one otherwise.
    #[verifier::when_used_as_spec(spec_edge_symbol)]
    pub fn edge_symbol(&self, from_end: bool) -> (symbol: Option<Symbol>)
        ensures
            symbol == self.spec_edge_symbol(from_end),
    {
        if from_end {
            self.last_symbol()
        } else {
            self.first_symbol()
        }
    }

    /// Every step names a symbol that the grammar registers.
    pub open spec fn wf(&self, grammar: &SyntaxGrammar, terminals: nat) -> bool {
        forall|k: int|
            0 <= k < self.steps@.len() ==> grammar.registers(
                terminals,
                (#[trigger] self.steps@[k]).symbol,
            )
    }
}

impl SyntaxVariable {
    /// Every production of the variable is well formed.
    pub open spec fn wf(&self, grammar: &SyntaxGrammar, terminals: nat) -> bool {
        forall|p: int|
            0 <= p < self.productions@.len() ==> (#[trigger] self.productions@[p]).wf(
                grammar,
                terminals,
            )
    }
}

impl SyntaxGrammar {
    /// Whether `symbol` is a terminal, an external token or a non-terminal
    /// of this grammar, where the lexical grammar has `terminals` tokens.
    pub open spec fn registers(&self, terminals: nat, symbol: Symbol) -> bool {
        match symbol.kind {
            SymbolType::Terminal => symbol.index < terminals,
            SymbolType::External => symbol.index < self.external_tokens@.len(),
            SymbolType::NonTerminal => symbol.index < self.variables@.len(),
            SymbolType::End => false,
        }
    }

    /// The grammar refers only to symbols that it registers.
    pub open spec fn wf(&self, terminals: nat) -> bool {
        forall|j: int|
            0 <= j < self.variables@.len() ==> (#[trigger] self.variables@[j]).wf(self, terminals)
    }

    /// The tokens that the grammar can produce.
    pub open spec fn alphabet(&self, terminals: nat) -> Set<Symbol> {
        token_alphabet(terminals, self.external_tokens@.len())
    }

    /// Whether the non-terminal `symbol` is marked for inlining.
    pub open spec fn spec_is_inlined(&self, symbol: Symbol) -> bool {
        self.variables_to_inline@.contains(symbol)
    }

    /// Whether the non-terminal `symbol` is marked for inlining.
    #[verifier::when_used_as_spec(spec_is_inlined)]
    pub fn is_inlined(&self, symbol: Symbol) -> (result: bool)
        ensures
            result == self.spec_is_inlined(symbol),
    {
        let mut i: usize = 0;
        while i < self.variables_to_inline.len()
            invariant
                i <= self.variables_to_inline.len(),
                forall|k: int| 0 <= k < i ==> #[trigger] self.variables_to_inline@[k] != symbol,
            decreases self.variables_to_inline.len() - i,
        {
            if self.variables_to_inline[i] == symbol {
                return true;
            }
            i += 1;
        }
        false
    }
}

} // verus!

use vstd::prelude::*;

verus! {

/// The kind of a grammar symbol.
#[derive(Clone, Copy, Debug, PartialEq, Eq, Hash, PartialOrd, Ord, Structural)]
pub enum SymbolType {
    /// A token produced by an external scanner.
    External,
    /// The end of the input.
    End,
    /// A token of the lexical grammar.
    Terminal,
    /// A variable of the syntax grammar.
    NonTerminal,
}

/// A grammar symbol: a kind together with a dense index among the symbols
/// of that kind.
#[derive(Clone, Copy, Debug, PartialEq, Eq, Hash, PartialOrd, Ord, Structural)]
pub struct Symbol {
    pub kind: SymbolType,
    pub index: usize,
}

impl Symbol {
    /// The terminal with the given index.
    pub open spec fn spec_terminal(index: usize) -> Symbol {
        Symbol { kind: SymbolType::Terminal, index }
    }

    /// The external token with the given index.
    pub open spec fn spec_external(index: usize) -> Symbol {
        Symbol { kind: SymbolType::External, index }
    }

    /// The non-terminal with the given index.
    pub open spec fn spec_non_terminal(index: usize) -> Symbol {
        Symbol { kind: SymbolType::NonTerminal, index }
    }

    /// The end of the input.
    pub open spec fn spec_end() -> Symbol {
        Symbol { kind: SymbolType::End, index: 0 }
    }

    /// Whether the symbol is a terminal.
    pub open spec fn spec_is_terminal(&self) -> bool {
        self.kind == SymbolType::Terminal
    }

    /// Whether the symbol is an external token.
    pub open spec fn spec_is_external(&self) -> bool {
        self.kind == SymbolType::External
    }

    /// Whether the symbol is a non-terminal.
    pub open spec fn spec_is_non_terminal(&self) -> bool {
        self.kind == SymbolType::NonTerminal
    }

    /// Whether the symbol is the end of the input.
    pub open spec fn spec_is_eof(&self) -> bool {
        self.kind == SymbolType::End
    }

    /// A symbol that a lookahead set can hold: a terminal, an external
    /// token, or the end-of-input marker.
    pub open spec fn is_token(&self) -> bool {
        self.kind == SymbolType::Terminal || self.kind == SymbolType::External || *self
            == Symbol::spec_end()
    }

    /// The terminal with the given index.
    #[verifier::when_used_as_spec(spec_terminal)]
    pub fn terminal(index: usize) -> (symbol: Symbol)
        ensures
            symbol == Symbol::spec_terminal(index),
    {
        Symbol { kind: SymbolType::Terminal, index }
    }

    /// The external token with the given index.
    #[verifier::when_used_as_spec(spec_external)]
    pub fn external(index: usize) -> (symbol: Symbol)
        ensures
            symbol == Symbol::spec_external(index),
    {
        Symbol { kind: SymbolType::External, index }
    }

    /// The non-terminal with the given index.
    #[verifier::when_used_as_spec(spec_non_terminal)]
    pub fn non_terminal(index: usize) -> (symbol: Symbol)
        ensures
            symbol == Symbol::spec_non_terminal(index),
    {
        Symbol { kind: SymbolType::NonTerminal, index }
    }

    /// The end of the input.
    #[verifier::when_used_as_spec(spec_end)]
    pub fn end() -> (symbol: Symbol)
        ensures
            symbol == Symbol::spec_end(),
    {
        Symbol { kind: SymbolType::End, index: 0 }
    }

    /// Whether the symbol is a terminal.
    #[verifier::when_used_as_spec(spec_is_terminal)]
    pub fn is_terminal(&self) -> (result: bool)
        ensures
            result == self.spec_is_terminal(),
    {
        self.kind == SymbolType::Terminal
    }

    /// Whether the symbol is an external token.
    #[verifier::when_used_as_spec(spec_is_external)]
    pub fn is_external(&self) -> (result: bool)
        ensures
            result == self.spec_is_external(),
    {
        self.kind == SymbolType::External
    }

    /// Whether the symbol is a non-terminal.
    #[verifier::when_used_as_spec(spec_is_non_terminal)]
    pub fn is_non_terminal(&self) -> (result: bool)
        ensures
            result == self.spec_is_non_terminal(),
    {
        self.kind == SymbolType::NonTerminal
    }

    /// Whether the symbol is the end of the input.
    #[verifier::when_used_as_spec(spec_is_eof)]
    pub fn is_eof(&self) -> (result: bool)
        ensures
            result == self.spec_is_eof(),
    {
        self.kind == SymbolType::End
    }
}

/// The tokens of one kind whose index lies below `bound`.
pub open spec fn tokens_below(kind: SymbolType, bound: nat) -> Set<Symbol> {
    Set::new(|s: Symbol| s.kind == kind && s.index < bound)
}

/// There are at most `bound` tokens of one kind below `bound`.
pub proof fn lemma_tokens_below_finite(kind: SymbolType, bound: nat)
    ensures
        tokens_below(kind, bound).finite(),
        tokens_below(kind, bound).len() <= bound,
    decreases bound,
{
    if bound == 0 {
        assert(tokens_below(kind, bound) =~= Set::<Symbol>::empty());
    } else {
        let below = (bound - 1) as nat;
        lemma_tokens_below_finite(kind, below);
        if below <= usize::MAX {
            let top = Symbol { kind, index: below as usize };
            assert(tokens_below(kind, bound) =~= tokens_below(kind, below).insert(top));
        } else {
            assert(tokens_below(kind, bound) =~= tokens_below(kind, below));
        }
    }
}

} // verus!

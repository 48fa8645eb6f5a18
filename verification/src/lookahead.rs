use vstd::prelude::*;
use crate::symbol::{Symbol, SymbolType, tokens_below, lemma_tokens_below_finite};

verus! {

/// A set of tokens, kept as one bit per terminal, one bit per external
/// token, and a flag for the end of the input.
#[derive(Debug)]
pub struct LookaheadSet {
    terminal_bits: Vec<bool>,
    external_bits: Vec<bool>,
    eof: bool,
}

/// The bit at position `i`, where every position past the end is unset.
spec fn bit_at(bits: Seq<bool>, i: int) -> bool {
    0 <= i < bits.len() && bits[i]
}

impl View for LookaheadSet {
    type V = Set<Symbol>;

    closed spec fn view(&self) -> Set<Symbol> {
        Set::new(|s: Symbol| self.holds(s))
    }
}

/// Sets every bit of `bits` that is set in `other`, growing `bits` to the
/// length of `other` where it is shorter.
fn merge_bits(bits: &mut Vec<bool>, other: &Vec<bool>) -> (changed: bool)
    ensures
        final(bits)@.len() >= old(bits)@.len(),
        forall|i: int|
            #![all_triggers]
            bit_at(final(bits)@, i) == (bit_at(old(bits)@, i) || bit_at(other@, i)),
        changed == exists|i: int| #[trigger] bit_at(other@, i) && !bit_at(old(bits)@, i),
{
    let ghost initial = bits@;
    while bits.len() < other.len()
        invariant
            bits@.len() >= initial.len(),
            forall|k: int| 0 <= k < initial.len() ==> #[trigger] bits@[k] == initial[k],
            forall|k: int| initial.len() <= k < bits@.len() ==> !#[trigger] bits@[k],
        decreases other.len() - bits.len(),
    {
        bits.push(false);
    }
    let ghost padded = bits@;
    let mut changed = false;
    let mut i: usize = 0;
    while i < other.len()
        invariant
            i <= other.len() <= bits.len(),
            bits@.len() == padded.len(),
            forall|k: int| 0 <= k < i ==> #[trigger] bits@[k] == (padded[k] || other@[k]),
            forall|k: int| i <= k < bits@.len() ==> #[trigger] bits@[k] == padded[k],
            changed == exists|k: int| 0 <= k < i && #[trigger] other@[k] && !padded[k],
        decreases other.len() - i,
    {
        if other[i] {
            if !bits[i] {
                changed = true;
            }
            bits.set(i, true);
        }
        i += 1;
    }
    proof {
        assert forall|k: int| bit_at(bits@, k) == (bit_at(initial, k) || bit_at(other@, k)) by {
            if 0 <= k < padded.len() {
                assert(bit_at(initial, k) == padded[k]);
            }
        }
        if changed {
            let k = choose|k: int| 0 <= k < other@.len() && #[trigger] other@[k] && !padded[k];
            assert(bit_at(other@, k) && !bit_at(initial, k));
        } else {
            assert forall|k: int| #[trigger] bit_at(other@, k) implies bit_at(initial, k) by {
                assert(!(other@[k] && !padded[k]));
            }
        }
    }
    changed
}

/// Whether two bit vectors set the same positions.
fn same_bits(a: &Vec<bool>, b: &Vec<bool>) -> (same: bool)
    ensures
        same == forall|i: int| #![all_triggers] bit_at(a@, i) == bit_at(b@, i),
{
    let mut i: usize = 0;
    while i < a.len() || i < b.len()
        invariant
            forall|k: int| 0 <= k < i ==> #[trigger] bit_at(a@, k) == bit_at(b@, k),
        decreases (if a.len() > b.len() { a.len() - i } else { b.len() - i }),
    {
        let x = i < a.len() && a[i];
        let y = i < b.len() && b[i];
        if x != y {
            assert(bit_at(a@, i as int) != bit_at(b@, i as int));
            return false;
        }
        i += 1;
    }
    true
}

impl LookaheadSet {
    /// Whether the bit of `s` is set.
    closed spec fn holds(&self, s: Symbol) -> bool {
        match s.kind {
            SymbolType::Terminal => bit_at(self.terminal_bits@, s.index as int),
            SymbolType::External => bit_at(self.external_bits@, s.index as int),
            SymbolType::End => self.eof && s.index == 0,
            SymbolType::NonTerminal => false,
        }
    }

    /// The empty set.
    pub fn new() -> (set: LookaheadSet)
        ensures
            set@ == Set::<Symbol>::empty(),
    {
        let set = LookaheadSet { terminal_bits: Vec::new(), external_bits: Vec::new(), eof: false };
        assert(set@ =~= Set::<Symbol>::empty());
        set
    }

    /// Whether `symbol` is in the set.
    pub fn contains(&self, symbol: &Symbol) -> (result: bool)
        ensures
            result == self@.contains(*symbol),
            result ==> symbol.is_token(),
    {
        proof {
            self.lemma_members_are_tokens();
        }
        match symbol.kind {
            SymbolType::Terminal => symbol.index < self.terminal_bits.len()
                && self.terminal_bits[symbol.index],
            SymbolType::External => symbol.index < self.external_bits.len()
                && self.external_bits[symbol.index],
            SymbolType::End => self.eof && symbol.index == 0,
            SymbolType::NonTerminal => false,
        }
    }

    /// Adds one token to the set.
    pub fn insert(&mut self, symbol: Symbol)
        requires
            symbol.is_token(),
            symbol.index < usize::MAX,
        ensures
            final(self)@ == old(self)@.insert(symbol),
    {
        match symbol.kind {
            SymbolType::Terminal => {
                while self.terminal_bits.len() <= symbol.index
                    invariant
                        self.external_bits == old(self).external_bits,
                        self.eof == old(self).eof,
                        forall|i: int|
                            #![all_triggers]
                            bit_at(self.terminal_bits@, i) == bit_at(old(self).terminal_bits@, i),
                    decreases symbol.index + 1 - self.terminal_bits.len(),
                {
                    self.terminal_bits.push(false);
                }
                self.terminal_bits.set(symbol.index, true);
            },
            SymbolType::External => {
                while self.external_bits.len() <= symbol.index
                    invariant
                        self.terminal_bits == old(self).terminal_bits,
                        self.eof == old(self).eof,
                        forall|i: int|
                            #![all_triggers]
                            bit_at(self.external_bits@, i) == bit_at(old(self).external_bits@, i),
                    decreases symbol.index + 1 - self.external_bits.len(),
                {
                    self.external_bits.push(false);
                }
                self.external_bits.set(symbol.index, true);
            },
            _ => {
                self.eof = true;
            },
        }
        assert(self@ =~= old(self)@.insert(symbol));
    }

    /// Adds every token of `other` to the set, and reports whether the set
    /// grew.
    pub fn insert_all(&mut self, other: &LookaheadSet) -> (changed: bool)
        ensures
            final(self)@ == old(self)@.union(other@),
            changed == !other@.subset_of(old(self)@),
    {
        let terminals_changed = merge_bits(&mut self.terminal_bits, &other.terminal_bits);
        let externals_changed = merge_bits(&mut self.external_bits, &other.external_bits);
        let eof_changed = other.eof && !self.eof;
        if other.eof {
            self.eof = true;
        }
        proof {
            assert forall|s: Symbol| self.holds(s) == (old(self).holds(s) || other.holds(s)) by {
                let i = s.index as int;
                assert(bit_at(self.terminal_bits@, i) == (bit_at(old(self).terminal_bits@, i)
                    || bit_at(other.terminal_bits@, i)));
                assert(bit_at(self.external_bits@, i) == (bit_at(old(self).external_bits@, i)
                    || bit_at(other.external_bits@, i)));
            }
            assert(self@ =~= old(self)@.union(other@));
            assert(other.terminal_bits@.len() == other.terminal_bits.len());
            assert(other.external_bits@.len() == other.external_bits.len());
            if terminals_changed {
                let i = choose|i: int|
                    bit_at(other.terminal_bits@, i) && !bit_at(old(self).terminal_bits@, i);
                let witness = Symbol { kind: SymbolType::Terminal, index: i as usize };
                assert(other@.contains(witness) && !old(self)@.contains(witness));
            }
            if externals_changed {
                let i = choose|i: int|
                    bit_at(other.external_bits@, i) && !bit_at(old(self).external_bits@, i);
                let witness = Symbol { kind: SymbolType::External, index: i as usize };
                assert(other@.contains(witness) && !old(self)@.contains(witness));
            }
            if eof_changed {
                assert(other@.contains(Symbol::spec_end()) && !old(self)@.contains(
                    Symbol::spec_end(),
                ));
            }
            if !terminals_changed && !externals_changed && !eof_changed {
                assert forall|s: Symbol| other@.contains(s) implies old(self)@.contains(s) by {
                    assert(other.holds(s));
                }
            }
        }
        terminals_changed || externals_changed || eof_changed
    }

    /// Whether the two sets hold the same tokens.
    pub fn equals(&self, other: &LookaheadSet) -> (result: bool)
        ensures
            result == (self@ == other@),
    {
        let same_terminals = same_bits(&self.terminal_bits, &other.terminal_bits);
        let same_externals = same_bits(&self.external_bits, &other.external_bits);
        let same_eof = self.eof == other.eof;
        proof {
            if same_terminals && same_externals && same_eof {
                assert(self@ =~= other@);
            }
            if self@ == other@ {
                assert(self.terminal_bits@.len() == self.terminal_bits.len());
                assert(self.external_bits@.len() == self.external_bits.len());
                assert(other.terminal_bits@.len() == other.terminal_bits.len());
                assert(other.external_bits@.len() == other.external_bits.len());
                assert forall|i: int|
                    bit_at(self.terminal_bits@, i) == bit_at(other.terminal_bits@, i) by {
                    if 0 <= i <= usize::MAX {
                        let s = Symbol { kind: SymbolType::Terminal, index: i as usize };
                        assert(self@.contains(s) == other@.contains(s));
                        assert(self.holds(s) == other.holds(s));
                    }
                }
                assert forall|i: int|
                    bit_at(self.external_bits@, i) == bit_at(other.external_bits@, i) by {
                    if 0 <= i <= usize::MAX {
                        let s = Symbol { kind: SymbolType::External, index: i as usize };
                        assert(self@.contains(s) == other@.contains(s));
                        assert(self.holds(s) == other.holds(s));
                    }
                }
                assert(self@.contains(Symbol::spec_end()) == other@.contains(Symbol::spec_end()));
            }
        }
        same_terminals && same_externals && same_eof
    }

    /// Every member of a lookahead set is a token, and there are finitely
    /// many of them.
    pub proof fn lemma_members_are_tokens(&self)
        ensures
            self@.finite(),
            forall|s: Symbol| self@.contains(s) ==> s.is_token(),
    {
        let terminals = tokens_below(SymbolType::Terminal, self.terminal_bits@.len());
        let externals = tokens_below(SymbolType::External, self.external_bits@.len());
        lemma_tokens_below_finite(SymbolType::Terminal, self.terminal_bits@.len());
        lemma_tokens_below_finite(SymbolType::External, self.external_bits@.len());
        let all = terminals.union(externals).insert(Symbol::spec_end());
        assert(self@.subset_of(all));
        vstd::set_lib::lemma_len_subset(self@, all);
    }
}

impl Clone for LookaheadSet {
    fn clone(&self) -> (copy: LookaheadSet)
        ensures
            copy@ == self@,
    {
        let copy = LookaheadSet {
            terminal_bits: self.terminal_bits.clone(),
            external_bits: self.external_bits.clone(),
            eof: self.eof,
        };
        assert(copy@ =~= self@);
        copy
    }
}

} // verus!

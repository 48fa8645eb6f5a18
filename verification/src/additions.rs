use vstd::prelude::*;
use crate::symbol::{Symbol, SymbolType};
use crate::lookahead::LookaheadSet;
use crate::grammar::SyntaxGrammar;
use crate::item::{InlinedProductionMap, ParseItem};
use crate::symbol_sets::first_tokens;

verus! {

/// The tokens that can follow the items of one non-terminal where they
/// arise from the expansion of another.
#[derive(Debug)]
pub struct FollowSetInfo {
    /// Tokens that always can follow.
    pub lookaheads: LookaheadSet,
    /// Whether, besides, whatever follows the expanded non-terminal can
    /// follow.
    pub propagates_lookaheads: bool,
}

/// An item that the expansion of a non-terminal adds to an item set, with
/// what follows it.
#[derive(Debug)]
pub struct TransitiveClosureAddition {
    pub item: ParseItem,
    pub info: FollowSetInfo,
}

/// A `FollowSetInfo` as contracts see it.
pub struct FollowInfo {
    pub lookaheads: Set<Symbol>,
    pub propagates: bool,
}

/// A `TransitiveClosureAddition` as contracts see it.
pub struct Addition {
    pub item: ParseItem,
    pub lookaheads: Set<Symbol>,
    pub propagates: bool,
}

impl View for FollowSetInfo {
    type V = FollowInfo;

    open spec fn view(&self) -> FollowInfo {
        FollowInfo { lookaheads: self.lookaheads@, propagates: self.propagates_lookaheads }
    }
}

impl View for TransitiveClosureAddition {
    type V = Addition;

    open spec fn view(&self) -> Addition {
        Addition {
            item: self.item,
            lookaheads: self.info.lookaheads@,
            propagates: self.info.propagates_lookaheads,
        }
    }
}

impl Clone for FollowSetInfo {
    fn clone(&self) -> (copy: FollowSetInfo)
        ensures
            copy@ == self@,
    {
        FollowSetInfo {
            lookaheads: self.lookaheads.clone(),
            propagates_lookaheads: self.propagates_lookaheads,
        }
    }
}

impl TransitiveClosureAddition {
    /// Whether the two additions name the same item with the same tokens.
    pub fn equals(&self, other: &TransitiveClosureAddition) -> (result: bool)
        ensures
            result == (self@ == other@),
    {
        self.item == other.item && self.info.propagates_lookaheads
            == other.info.propagates_lookaheads && self.info.lookaheads.equals(
            &other.info.lookaheads,
        )
    }
}

/// The additions of a list as contracts see them.
pub open spec fn additions_view(additions: Seq<TransitiveClosureAddition>) -> Seq<Addition> {
    additions.map_values(|addition: TransitiveClosureAddition| addition@)
}

/// Appends `value` to `vector` unless the vector holds an equal addition.
pub fn find_or_push(vector: &mut Vec<TransitiveClosureAddition>, value: TransitiveClosureAddition)
    ensures
        additions_view(final(vector)@) == if additions_view(old(vector)@).contains(value@) {
            additions_view(old(vector)@)
        } else {
            additions_view(old(vector)@).push(value@)
        },
{
    let ghost before = additions_view(vector@);
    let mut i: usize = 0;
    while i < vector.len()
        invariant
            i <= vector.len(),
            vector@ == old(vector)@,
            before == additions_view(vector@),
            forall|k: int| 0 <= k < i ==> (#[trigger] vector@[k])@ != value@,
        decreases vector.len() - i,
    {
        if vector[i].equals(&value) {
            assert(before[i as int] == value@);
            return ;
        }
        i += 1;
    }
    proof {
        if before.contains(value@) {
            let k = choose|k: int| 0 <= k < before.len() && before[k] == value@;
            assert(vector@[k]@ == value@);
        }
    }
    vector.push(value);
    assert(additions_view(vector@) =~= before.push(value@));
}

/// An entry of the worklist from which the follow sets are computed: a
/// non-terminal, with tokens that follow its items or with the mark that
/// what follows the expanded non-terminal follows them.
pub struct Entry {
    pub variable: int,
    pub lookaheads: Set<Symbol>,
    pub propagates: bool,
}

/// The entry from which the computation for the non-terminal `origin`
/// starts.
pub open spec fn seed(origin: int) -> Entry {
    Entry { variable: origin, lookaheads: Set::empty(), propagates: true }
}

/// An entry that changes what is known of its non-terminal when it is the
/// first to be merged.
pub open spec fn effective(entry: Entry) -> bool {
    entry.propagates || exists|t: Symbol| entry.lookaheads.contains(t)
}

/// The entry that `entry` gives rise to through production `p` of its
/// non-terminal, if that production begins with a non-terminal.  Where
/// the production has one step, the new entry stands in the same context;
/// otherwise it is followed by the FIRST set of the second step.
pub open spec fn child(grammar: &SyntaxGrammar, entry: Entry, p: int) -> Option<Entry> {
    if 0 <= entry.variable < grammar.variables@.len() && 0 <= p
        < grammar.variables@[entry.variable].productions@.len() {
        let steps = grammar.variables@[entry.variable].productions@[p].steps@;
        if steps.len() > 0 && steps[0].symbol.kind == SymbolType::NonTerminal {
            if steps.len() == 1 {
                Some(
                    Entry {
                        variable: steps[0].symbol.index as int,
                        lookaheads: entry.lookaheads,
                        propagates: entry.propagates,
                    },
                )
            } else {
                Some(
                    Entry {
                        variable: steps[0].symbol.index as int,
                        lookaheads: first_tokens(grammar, steps[1].symbol),
                        propagates: false,
                    },
                )
            }
        } else {
            None
        }
    } else {
        None
    }
}

/// In `entries`, the entry at `k` is effective and gives rise to the one
/// behind it.
pub open spec fn derivation_link(grammar: &SyntaxGrammar, entries: Seq<Entry>, k: int) -> bool {
    &&& effective(entries[k])
    &&& exists|p: int| #[trigger] child(grammar, entries[k], p) == Some(entries[k + 1])
}

/// `entries` leads from the seed of `origin` to `last`.
pub open spec fn is_derivation(
    grammar: &SyntaxGrammar,
    entries: Seq<Entry>,
    origin: int,
    last: Entry,
) -> bool {
    &&& entries.len() > 0
    &&& entries[0] == seed(origin)
    &&& entries[entries.len() - 1] == last
    &&& forall|k: int| 0 <= k < entries.len() - 1 ==> #[trigger] derivation_link(grammar, entries, k)
}

/// The computation for the non-terminal `origin` comes upon `entry`.
pub open spec fn derives(grammar: &SyntaxGrammar, origin: int, entry: Entry) -> bool {
    exists|entries: Seq<Entry>| #[trigger] is_derivation(grammar, entries, origin, entry)
}

/// The expansion of `origin` comes upon the non-terminal `variable`.
pub open spec fn present(grammar: &SyntaxGrammar, origin: int, variable: int) -> bool {
    exists|entry: Entry| #[trigger] derives(grammar, origin, entry) && entry.variable == variable
}

/// What follows `origin` follows the items of `variable` in its
/// expansion.
pub open spec fn propagates_to(grammar: &SyntaxGrammar, origin: int, variable: int) -> bool {
    exists|entry: Entry| #[trigger]
        derives(grammar, origin, entry) && entry.variable == variable && entry.propagates
}

/// The token `t` always follows the items of `variable` in the expansion
/// of `origin`.
pub open spec fn follows(grammar: &SyntaxGrammar, origin: int, variable: int, t: Symbol) -> bool {
    exists|entry: Entry| #[trigger]
        derives(grammar, origin, entry) && entry.variable == variable && !entry.propagates
            && entry.lookaheads.contains(t)
}

/// What the expansion of `origin` says of the items of `variable`.
pub open spec fn follow_info(grammar: &SyntaxGrammar, origin: int, variable: int) -> FollowInfo {
    FollowInfo {
        lookaheads: Set::new(|t: Symbol| follows(grammar, origin, variable, t)),
        propagates: propagates_to(grammar, origin, variable),
    }
}

/// `addition` stands for production `p` of the non-terminal `variable` in
/// the expansion of `origin`: its item is the item of that production
/// with the dot at the start, or one of the items that replace it, and
/// its tokens are those of `variable`.
pub open spec fn addition_from(
    grammar: &SyntaxGrammar,
    inlines: &InlinedProductionMap,
    origin: int,
    variable: int,
    p: int,
    addition: Addition,
) -> bool {
    &&& 0 <= variable < grammar.variables@.len()
    &&& present(grammar, origin, variable)
    &&& !grammar.spec_is_inlined(Symbol::non_terminal(variable as usize))
    &&& 0 <= p < grammar.variables@[variable].productions@.len()
    &&& inlines.expansion(ParseItem::normal(variable as usize, p as usize, 0)).contains(
        addition.item,
    )
    &&& addition.lookaheads == follow_info(grammar, origin, variable).lookaheads
    &&& addition.propagates == follow_info(grammar, origin, variable).propagates
}

/// `addition` belongs to the expansion of `origin`.
pub open spec fn is_addition(
    grammar: &SyntaxGrammar,
    inlines: &InlinedProductionMap,
    origin: int,
    addition: Addition,
) -> bool {
    exists|variable: int, p: int| #[trigger]
        addition_from(grammar, inlines, origin, variable, p, addition)
}

/// `additions` holds the additions of the expansion of `origin`, each
/// once.
pub open spec fn additions_of(
    grammar: &SyntaxGrammar,
    inlines: &InlinedProductionMap,
    origin: int,
    additions: Seq<Addition>,
) -> bool {
    &&& additions.no_duplicates()
    &&& forall|addition: Addition| #[trigger]
        additions.contains(addition) <==> is_addition(grammar, inlines, origin, addition)
}

/// What the computation comes upon through a production of an effective
/// entry that it came upon, it comes upon.
pub proof fn lemma_derives_child(grammar: &SyntaxGrammar, origin: int, entry: Entry, p: int, next: Entry)
    requires
        derives(grammar, origin, entry),
        effective(entry),
        child(grammar, entry, p) == Some(next),
    ensures
        derives(grammar, origin, next),
{
    let entries = choose|entries: Seq<Entry>| #[trigger]
        is_derivation(grammar, entries, origin, entry);
    let longer = entries.push(next);
    assert forall|k: int| 0 <= k < longer.len() - 1 implies #[trigger] derivation_link(
        grammar,
        longer,
        k,
    ) by {
        if k < entries.len() - 1 {
            assert(derivation_link(grammar, entries, k));
            let q = choose|q: int| #[trigger] child(grammar, entries[k], q) == Some(entries[k + 1]);
            assert(child(grammar, longer[k], q) == Some(longer[k + 1]));
        } else {
            assert(child(grammar, longer[k], p) == Some(longer[k + 1]));
        }
    }
    assert(is_derivation(grammar, longer, origin, next));
}

} // verus!

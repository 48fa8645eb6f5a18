use vstd::prelude::*;
use crate::symbol::{Symbol, SymbolType};
use crate::lookahead::LookaheadSet;
use crate::grammar::{LexicalGrammar, SyntaxGrammar, lemma_token_alphabet_finite};
use crate::symbol_sets::{SymbolSets, first_tokens, lemma_edge_set_in_alphabet};
use crate::additions::{
    Entry, FollowInfo, FollowSetInfo, child, derivation_link, derives, effective, follow_info,
    follows, is_derivation, lemma_derives_child, present, propagates_to, seed,
};

verus! {

/// An entry of the worklist: a non-terminal, with the tokens that follow
/// its items or with the mark that what follows the expanded non-terminal
/// follows them.
struct PendingEntry<'a> {
    variable_index: usize,
    lookaheads: &'a LookaheadSet,
    propagates_lookaheads: bool,
}

impl<'a> View for PendingEntry<'a> {
    type V = Entry;

    closed spec fn view(&self) -> Entry {
        Entry {
            variable: self.variable_index as int,
            lookaheads: self.lookaheads@,
            propagates: self.propagates_lookaheads,
        }
    }
}

/// What is known of a non-terminal to which no entry has been merged.
spec fn nothing() -> FollowInfo {
    FollowInfo { lookaheads: Set::empty(), propagates: false }
}

/// What is known of the non-terminal `k`.
spec fn known(infos: Seq<Option<FollowSetInfo>>, k: int) -> FollowInfo {
    if 0 <= k < infos.len() && infos[k] is Some {
        infos[k].unwrap()@
    } else {
        nothing()
    }
}

/// What is known after `entry` has been merged into `info`: a propagating
/// entry sets the mark, another one adds its tokens.
spec fn merged(info: FollowInfo, entry: Entry) -> FollowInfo {
    if entry.propagates {
        FollowInfo { lookaheads: info.lookaheads, propagates: true }
    } else {
        FollowInfo { lookaheads: info.lookaheads.union(entry.lookaheads), propagates: info.propagates }
    }
}

/// Whether merging `entry` into `info` changes it.
spec fn changes(info: FollowInfo, entry: Entry) -> bool {
    if entry.propagates {
        !info.propagates
    } else {
        !entry.lookaheads.subset_of(info.lookaheads)
    }
}

/// Merges an entry into what is known of its non-terminal, and reports
/// whether that changed anything.
fn merge_entry(
    infos: &mut Vec<Option<FollowSetInfo>>,
    variable_index: usize,
    lookaheads: &LookaheadSet,
    propagates_lookaheads: bool,
) -> (changed: bool)
    requires
        variable_index < old(infos)@.len(),
    ensures
        final(infos)@.len() == old(infos)@.len(),
        forall|j: int|
            0 <= j < old(infos)@.len() && j != variable_index ==> #[trigger] final(infos)@[j]
                == old(infos)@[j],
        final(infos)@[variable_index as int] is Some,
        known(final(infos)@, variable_index as int) == merged(
            known(old(infos)@, variable_index as int),
            Entry {
                variable: variable_index as int,
                lookaheads: lookaheads@,
                propagates: propagates_lookaheads,
            },
        ),
        changed == changes(
            known(old(infos)@, variable_index as int),
            Entry {
                variable: variable_index as int,
                lookaheads: lookaheads@,
                propagates: propagates_lookaheads,
            },
        ),
{
    let mut slot: Option<FollowSetInfo> = None;
    infos.set_and_swap(variable_index, &mut slot);
    let mut info = match slot {
        Some(info) => info,
        None => FollowSetInfo { lookaheads: LookaheadSet::new(), propagates_lookaheads: false },
    };
    let ghost before = info@;
    assert(before == known(old(infos)@, variable_index as int));
    let changed;
    if propagates_lookaheads {
        changed = !info.propagates_lookaheads;
        info.propagates_lookaheads = true;
    } else {
        changed = info.lookaheads.insert_all(lookaheads);
    }
    infos.set(variable_index, Some(info));
    changed
}

/// The parts of what is known of a non-terminal: that it occurs, that it
/// propagates, or that it holds a token.
enum Demand {
    Presence,
    Propagation,
    Token(Symbol),
}

/// Whether `info`, once it is there, meets the demand.
spec fn meets(info: FollowInfo, demand: Demand) -> bool {
    match demand {
        Demand::Presence => true,
        Demand::Propagation => info.propagates,
        Demand::Token(t) => info.lookaheads.contains(t),
    }
}

/// Whether merging `entry` makes the demand met.
spec fn brings(entry: Entry, demand: Demand) -> bool {
    match demand {
        Demand::Presence => true,
        Demand::Propagation => entry.propagates,
        Demand::Token(t) => !entry.propagates && entry.lookaheads.contains(t),
    }
}

/// The demand on the non-terminal `k` is met, or an entry that will make
/// it met waits in the worklist.
spec fn awaits(
    infos: Seq<Option<FollowSetInfo>>,
    pending: Seq<PendingEntry>,
    k: int,
    demand: Demand,
) -> bool {
    ||| 0 <= k < infos.len() && infos[k] is Some && meets(infos[k].unwrap()@, demand)
    ||| exists|m: int|
        0 <= m < pending.len() && (#[trigger] pending[m]).variable_index == k && brings(
            pending[m]@,
            demand,
        )
}

/// Whatever was awaited in the first state is awaited in the second.
spec fn advances(
    infos: Seq<Option<FollowSetInfo>>,
    pending: Seq<PendingEntry>,
    infos2: Seq<Option<FollowSetInfo>>,
    pending2: Seq<PendingEntry>,
) -> bool {
    forall|k: int, demand: Demand| #[trigger]
        awaits(infos, pending, k, demand) ==> awaits(infos2, pending2, k, demand)
}

/// `info` says something of its non-terminal.
spec fn active(info: FollowInfo) -> bool {
    info.propagates || exists|t: Symbol| info.lookaheads.contains(t)
}

/// What `info`, known of the non-terminal `j`, demands through production
/// `p` of `j` is awaited.
spec fn settled(
    grammar: &SyntaxGrammar,
    infos: Seq<Option<FollowSetInfo>>,
    pending: Seq<PendingEntry>,
    info: FollowInfo,
    j: int,
    p: int,
) -> bool {
    let steps = grammar.variables@[j].productions@[p].steps@;
    steps.len() > 0 && steps[0].symbol.kind == SymbolType::NonTerminal ==> {
        let k = steps[0].symbol.index as int;
        &&& active(info) ==> awaits(infos, pending, k, Demand::Presence)
        &&& steps.len() == 1 && info.propagates ==> awaits(infos, pending, k, Demand::Propagation)
        &&& steps.len() == 1 ==> forall|t: Symbol| #[trigger]
            info.lookaheads.contains(t) ==> awaits(infos, pending, k, Demand::Token(t))
        &&& steps.len() > 1 && active(info) ==> forall|t: Symbol| #[trigger]
            first_tokens(grammar, steps[1].symbol).contains(t) ==> awaits(
                infos,
                pending,
                k,
                Demand::Token(t),
            )
    }
}

/// Production `p` of `j` is settled: for the productions of `current`
/// from `upto` on with regard to `stale`, which was known of it before
/// the last merge, for all others with regard to what is known now.
spec fn settled_at(
    grammar: &SyntaxGrammar,
    infos: Seq<Option<FollowSetInfo>>,
    pending: Seq<PendingEntry>,
    current: int,
    upto: int,
    stale: FollowInfo,
    j: int,
    p: int,
) -> bool {
    settled(
        grammar,
        infos,
        pending,
        if j == current && p >= upto {
            stale
        } else {
            known(infos, j)
        },
        j,
        p,
    )
}

/// Every production of a non-terminal of which something is known is
/// settled.
spec fn closed(
    grammar: &SyntaxGrammar,
    infos: Seq<Option<FollowSetInfo>>,
    pending: Seq<PendingEntry>,
    current: int,
    upto: int,
    stale: FollowInfo,
) -> bool {
    forall|j: int, p: int|
        0 <= j < infos.len() && infos[j] is Some && 0 <= p
            < grammar.variables@[j].productions@.len() ==> #[trigger] settled_at(
            grammar,
            infos,
            pending,
            current,
            upto,
            stale,
            j,
            p,
        )
}

/// What is known of `j` in the expansion of `origin` is true of it.
spec fn sound(grammar: &SyntaxGrammar, terminals: nat, origin: int, j: int, info: FollowInfo) -> bool {
    &&& present(grammar, origin, j)
    &&& info.propagates ==> propagates_to(grammar, origin, j)
    &&& forall|t: Symbol| #[trigger] info.lookaheads.contains(t) ==> follows(grammar, origin, j, t)
    &&& info.lookaheads.subset_of(grammar.alphabet(terminals))
}

/// What has been merged of `entry` is known.
spec fn absorbed(infos: Seq<Option<FollowSetInfo>>, entry: Entry) -> bool {
    &&& 0 <= entry.variable < infos.len()
    &&& infos[entry.variable] is Some
    &&& entry.propagates ==> infos[entry.variable].unwrap()@.propagates
    &&& !entry.propagates ==> entry.lookaheads.subset_of(
        infos[entry.variable].unwrap()@.lookaheads,
    )
}

/// Merging the last entry of the worklist into what is known loses
/// nothing that was awaited.
proof fn lemma_advances_merge(
    infos: Seq<Option<FollowSetInfo>>,
    pending: Seq<PendingEntry>,
    infos2: Seq<Option<FollowSetInfo>>,
)
    requires
        pending.len() > 0,
        pending.last().variable_index < infos.len(),
        infos2.len() == infos.len(),
        forall|j: int|
            0 <= j < infos.len() && j != pending.last().variable_index ==> #[trigger] infos2[j]
                == infos[j],
        infos2[pending.last().variable_index as int] is Some,
        known(infos2, pending.last().variable_index as int) == merged(
            known(infos, pending.last().variable_index as int),
            pending.last()@,
        ),
    ensures
        advances(infos, pending, infos2, pending.drop_last()),
{
    let last = pending.len() - 1;
    let k0 = pending.last().variable_index as int;
    assert forall|k: int, demand: Demand| #[trigger]
        awaits(infos, pending, k, demand) implies awaits(
        infos2,
        pending.drop_last(),
        k,
        demand,
    ) by {
        if 0 <= k < infos.len() && infos[k] is Some && meets(infos[k].unwrap()@, demand) {
            if k != k0 {
                assert(infos2[k] == infos[k]);
            }
        } else {
            let m = choose|m: int|
                0 <= m < pending.len() && (#[trigger] pending[m]).variable_index == k && brings(
                    pending[m]@,
                    demand,
                );
            if m < last {
                assert(pending.drop_last()[m] == pending[m]);
            }
        }
    }
}

/// Pushing an entry loses nothing that was awaited.
proof fn lemma_advances_push(
    infos: Seq<Option<FollowSetInfo>>,
    pending: Seq<PendingEntry>,
    entry: PendingEntry,
)
    ensures
        advances(infos, pending, infos, pending.push(entry)),
{
    assert forall|k: int, demand: Demand| #[trigger]
        awaits(infos, pending, k, demand) implies awaits(
        infos,
        pending.push(entry),
        k,
        demand,
    ) by {
        if !(0 <= k < infos.len() && infos[k] is Some && meets(infos[k].unwrap()@, demand)) {
            let m = choose|m: int|
                0 <= m < pending.len() && (#[trigger] pending[m]).variable_index == k && brings(
                    pending[m]@,
                    demand,
                );
            assert(pending.push(entry)[m] == pending[m]);
        }
    }
}

/// A production that was settled stays settled where nothing that was
/// awaited is lost.
proof fn lemma_settled_advances(
    grammar: &SyntaxGrammar,
    infos: Seq<Option<FollowSetInfo>>,
    pending: Seq<PendingEntry>,
    infos2: Seq<Option<FollowSetInfo>>,
    pending2: Seq<PendingEntry>,
    info: FollowInfo,
    j: int,
    p: int,
)
    requires
        advances(infos, pending, infos2, pending2),
        settled(grammar, infos, pending, info, j, p),
    ensures
        settled(grammar, infos2, pending2, info, j, p),
{
    let steps = grammar.variables@[j].productions@[p].steps@;
    if steps.len() > 0 && steps[0].symbol.kind == SymbolType::NonTerminal {
        let k = steps[0].symbol.index as int;
        if active(info) {
            assert(awaits(infos, pending, k, Demand::Presence));
        }
        if steps.len() == 1 {
            if info.propagates {
                assert(awaits(infos, pending, k, Demand::Propagation));
            }
            assert forall|t: Symbol| #[trigger] info.lookaheads.contains(t) implies awaits(
                infos2,
                pending2,
                k,
                Demand::Token(t),
            ) by {
                assert(awaits(infos, pending, k, Demand::Token(t)));
            }
        } else if active(info) {
            assert forall|t: Symbol| #[trigger]
                first_tokens(grammar, steps[1].symbol).contains(t) implies awaits(
                infos2,
                pending2,
                k,
                Demand::Token(t),
            ) by {
                assert(awaits(infos, pending, k, Demand::Token(t)));
            }
        }
    }
}

/// After the last entry of the worklist has been merged, every
/// production is settled, those of the entry's non-terminal with regard
/// to what was known of it before.
proof fn lemma_closed_after_merge(
    grammar: &SyntaxGrammar,
    infos: Seq<Option<FollowSetInfo>>,
    pending: Seq<PendingEntry>,
    infos2: Seq<Option<FollowSetInfo>>,
)
    requires
        pending.len() > 0,
        pending.last().variable_index < infos.len(),
        infos2.len() == infos.len(),
        forall|j: int|
            0 <= j < infos.len() && j != pending.last().variable_index ==> #[trigger] infos2[j]
                == infos[j],
        infos2[pending.last().variable_index as int] is Some,
        known(infos2, pending.last().variable_index as int) == merged(
            known(infos, pending.last().variable_index as int),
            pending.last()@,
        ),
        closed(grammar, infos, pending, -1, 0, nothing()),
    ensures
        advances(infos, pending, infos2, pending.drop_last()),
        closed(
            grammar,
            infos2,
            pending.drop_last(),
            pending.last().variable_index as int,
            0,
            known(infos, pending.last().variable_index as int),
        ),
{
    let k0 = pending.last().variable_index as int;
    let stale = known(infos, k0);
    let pending2 = pending.drop_last();
    lemma_advances_merge(infos, pending, infos2);
    assert forall|j: int, p: int|
        0 <= j < infos2.len() && infos2[j] is Some && 0 <= p
            < grammar.variables@[j].productions@.len() implies #[trigger] settled_at(
        grammar,
        infos2,
        pending2,
        k0,
        0,
        stale,
        j,
        p,
    ) by {
        if j != k0 {
            assert(infos2[j] == infos[j]);
            assert(settled_at(grammar, infos, pending, -1, 0, nothing(), j, p));
            lemma_settled_advances(grammar, infos, pending, infos2, pending2, known(infos, j), j, p);
        } else if infos[j] is Some {
            assert(settled_at(grammar, infos, pending, -1, 0, nothing(), j, p));
            lemma_settled_advances(grammar, infos, pending, infos2, pending2, stale, j, p);
        } else {
            assert(!active(stale));
        }
    }
}

/// Once every production of `current` has been dealt with, or where the
/// merge changed nothing, every production is settled with regard to what
/// is known now.
proof fn lemma_closed_done(
    grammar: &SyntaxGrammar,
    infos: Seq<Option<FollowSetInfo>>,
    pending: Seq<PendingEntry>,
    current: int,
    upto: int,
    stale: FollowInfo,
)
    requires
        closed(grammar, infos, pending, current, upto, stale),
        stale == known(infos, current) || (0 <= current < infos.len() && upto
            >= grammar.variables@[current].productions@.len()),
    ensures
        closed(grammar, infos, pending, -1, 0, nothing()),
{
    assert forall|j: int, p: int|
        0 <= j < infos.len() && infos[j] is Some && 0 <= p
            < grammar.variables@[j].productions@.len() implies #[trigger] settled_at(
        grammar,
        infos,
        pending,
        -1,
        0,
        nothing(),
        j,
        p,
    ) by {
        assert(settled_at(grammar, infos, pending, current, upto, stale, j, p));
    }
}

/// Pushing what `entry` gives rise to through production `upto` of its
/// non-terminal settles that production with regard to what is known now.
proof fn lemma_closed_next(
    grammar: &SyntaxGrammar,
    infos: Seq<Option<FollowSetInfo>>,
    pending: Seq<PendingEntry>,
    pending2: Seq<PendingEntry>,
    current: int,
    upto: int,
    stale: FollowInfo,
    entry: Entry,
)
    requires
        0 <= current < infos.len(),
        infos.len() == grammar.variables@.len(),
        0 <= upto < grammar.variables@[current].productions@.len(),
        closed(grammar, infos, pending, current, upto, stale),
        entry.variable == current,
        known(infos, current) == merged(stale, entry),
        match child(grammar, entry, upto) {
            Some(next) => pending2.len() == pending.len() + 1 && pending2.drop_last() == pending
                && pending2.last()@ == next,
            None => pending2 == pending,
        },
    ensures
        advances(infos, pending, infos, pending2),
        closed(grammar, infos, pending2, current, upto + 1, stale),
{
    if child(grammar, entry, upto) is Some {
        lemma_advances_push(infos, pending, pending2.last());
        assert(pending2 =~= pending.push(pending2.last()));
    }
    assert forall|j: int, p: int|
        0 <= j < infos.len() && infos[j] is Some && 0 <= p
            < grammar.variables@[j].productions@.len() implies #[trigger] settled_at(
        grammar,
        infos,
        pending2,
        current,
        upto + 1,
        stale,
        j,
        p,
    ) by {
        assert(settled_at(grammar, infos, pending, current, upto, stale, j, p));
        if j == current && p == upto {
            lemma_settled_advances(grammar, infos, pending, infos, pending2, stale, j, p);
            let steps = grammar.variables@[j].productions@[p].steps@;
            if steps.len() > 0 && steps[0].symbol.kind == SymbolType::NonTerminal {
                let k = steps[0].symbol.index as int;
                let last = pending2.len() - 1;
                let next = pending2[last];
                assert(next.variable_index == k);
                assert(awaits(infos, pending2, k, Demand::Presence));
                let now = merged(stale, entry);
                if steps.len() == 1 {
                    if now.propagates {
                        if entry.propagates {
                            assert(brings(next@, Demand::Propagation));
                        }
                        assert(awaits(infos, pending2, k, Demand::Propagation));
                    }
                    assert forall|t: Symbol| #[trigger] now.lookaheads.contains(t) implies awaits(
                        infos,
                        pending2,
                        k,
                        Demand::Token(t),
                    ) by {
                        if !stale.lookaheads.contains(t) {
                            assert(brings(next@, Demand::Token(t)));
                        }
                    }
                } else {
                    assert forall|t: Symbol| #[trigger]
                        first_tokens(grammar, steps[1].symbol).contains(t) implies awaits(
                        infos,
                        pending2,
                        k,
                        Demand::Token(t),
                    ) by {
                        assert(brings(next@, Demand::Token(t)));
                    }
                }
            }
        } else {
            let info = if j == current && p >= upto {
                stale
            } else {
                known(infos, j)
            };
            lemma_settled_advances(grammar, infos, pending, infos, pending2, info, j, p);
        }
    }
}

/// What is known of a non-terminal stays true of it when an entry that
/// the computation comes upon is merged.
proof fn lemma_sound_merge(
    grammar: &SyntaxGrammar,
    terminals: nat,
    origin: int,
    stale: FollowInfo,
    entry: Entry,
)
    requires
        derives(grammar, origin, entry),
        entry.lookaheads.subset_of(grammar.alphabet(terminals)),
        stale == nothing() || sound(grammar, terminals, origin, entry.variable, stale),
    ensures
        sound(grammar, terminals, origin, entry.variable, merged(stale, entry)),
{
}

/// Once nothing waits, whatever the computation comes upon is known.
proof fn lemma_complete(
    grammar: &SyntaxGrammar,
    infos: Seq<Option<FollowSetInfo>>,
    origin: int,
    entries: Seq<Entry>,
    last: Entry,
    k: int,
)
    requires
        infos.len() == grammar.variables@.len(),
        awaits(infos, Seq::empty(), origin, Demand::Propagation),
        closed(grammar, infos, Seq::empty(), -1, 0, nothing()),
        is_derivation(grammar, entries, origin, last),
        0 <= k < entries.len(),
    ensures
        absorbed(infos, entries[k]),
    decreases k,
{
    let none = Seq::<PendingEntry>::empty();
    if k > 0 {
        lemma_complete(grammar, infos, origin, entries, last, k - 1);
        let entry = entries[k - 1];
        let next = entries[k];
        assert(derivation_link(grammar, entries, k - 1));
        let p = choose|p: int| #[trigger] child(grammar, entry, p) == Some(next);
        let j = entry.variable;
        let info = known(infos, j);
        assert(settled_at(grammar, infos, none, -1, 0, nothing(), j, p));
        let steps = grammar.variables@[j].productions@[p].steps@;
        if !entry.propagates {
            let t = choose|t: Symbol| entry.lookaheads.contains(t);
            assert(info.lookaheads.contains(t));
        }
        assert(active(info));
        assert(awaits(infos, none, next.variable, Demand::Presence));
        if next.propagates {
            assert(awaits(infos, none, next.variable, Demand::Propagation));
        } else {
            assert forall|t: Symbol| next.lookaheads.contains(t) implies infos[next.variable].unwrap()@.lookaheads.contains(
                t,
            ) by {
                if steps.len() == 1 {
                    assert(info.lookaheads.contains(t));
                } else {
                    assert(first_tokens(grammar, steps[1].symbol).contains(t));
                }
                assert(awaits(infos, none, next.variable, Demand::Token(t)));
            }
        }
    }
}

/// The number of facts that are known: the tokens of all non-terminals,
/// and their marks.
spec fn weight(slot: Option<FollowSetInfo>) -> nat {
    match slot {
        Some(info) => info.lookaheads@.len() + if info.propagates_lookaheads {
            1nat
        } else {
            0nat
        },
        None => 0,
    }
}

/// The number of facts that are known of all non-terminals together.
spec fn total_weight(infos: Seq<Option<FollowSetInfo>>) -> nat
    decreases infos.len(),
{
    if infos.len() == 0 {
        0
    } else {
        total_weight(infos.drop_last()) + weight(infos.last())
    }
}

/// Where one non-terminal changes, the total changes by as much.
proof fn lemma_total_weight_update(
    infos: Seq<Option<FollowSetInfo>>,
    infos2: Seq<Option<FollowSetInfo>>,
    j: int,
)
    requires
        0 <= j < infos.len(),
        infos2.len() == infos.len(),
        forall|k: int| 0 <= k < infos.len() && k != j ==> #[trigger] infos2[k] == infos[k],
    ensures
        total_weight(infos2) == total_weight(infos) - weight(infos[j]) + weight(infos2[j]),
    decreases infos.len(),
{
    if j == infos.len() - 1 {
        assert(infos2.drop_last() =~= infos.drop_last());
    } else {
        assert(infos2.last() == infos.last());
        lemma_total_weight_update(infos.drop_last(), infos2.drop_last(), j);
    }
}

/// The total is at most the number of non-terminals times a bound on
/// what is known of each.
proof fn lemma_total_weight_bound(infos: Seq<Option<FollowSetInfo>>, bound: nat)
    requires
        forall|k: int| 0 <= k < infos.len() ==> weight(#[trigger] infos[k]) <= bound,
    ensures
        total_weight(infos) <= infos.len() * bound,
    decreases infos.len(),
{
    if infos.len() > 0 {
        lemma_total_weight_bound(infos.drop_last(), bound);
        assert(weight(infos.last()) <= bound);
        assert((infos.len() - 1) * bound + bound == infos.len() * bound) by (nonlinear_arith);
    } else {
        assert(0 * bound == 0) by (nonlinear_arith);
    }
}

/// The invariant of the worklist on what waits: every entry is one that
/// the computation comes upon, for a non-terminal of the grammar, with
/// tokens of the grammar's alphabet.
spec fn pending_sound(
    grammar: &SyntaxGrammar,
    terminals: nat,
    origin: int,
    pending: Seq<PendingEntry>,
) -> bool {
    forall|m: int|
        0 <= m < pending.len() ==> {
            &&& (#[trigger] pending[m]).variable_index < grammar.variables@.len()
            &&& derives(grammar, origin, pending[m]@)
            &&& pending[m].lookaheads@.subset_of(grammar.alphabet(terminals))
        }
}

/// The invariant of the worklist on what is known.
spec fn infos_sound(
    grammar: &SyntaxGrammar,
    terminals: nat,
    origin: int,
    infos: Seq<Option<FollowSetInfo>>,
) -> bool {
    forall|j: int|
        0 <= j < infos.len() && (#[trigger] infos[j]) is Some ==> sound(
            grammar,
            terminals,
            origin,
            j,
            infos[j].unwrap()@,
        )
}

/// As long as what is known is true, every lookahead set is finite and
/// the total stays below a bound that the grammar fixes.
proof fn lemma_weights_bounded(
    grammar: &SyntaxGrammar,
    terminals: nat,
    origin: int,
    infos: Seq<Option<FollowSetInfo>>,
)
    requires
        infos_sound(grammar, terminals, origin, infos),
    ensures
        total_weight(infos) <= infos.len() * (grammar.alphabet(terminals).len() + 1),
        forall|j: int|
            0 <= j < infos.len() && (#[trigger] infos[j]) is Some
                ==> infos[j].unwrap()@.lookaheads.finite(),
{
    let alphabet = grammar.alphabet(terminals);
    lemma_token_alphabet_finite(terminals, grammar.external_tokens@.len());
    assert forall|j: int| 0 <= j < infos.len() implies weight(#[trigger] infos[j]) <= alphabet.len()
        + 1 && (infos[j] is Some ==> infos[j].unwrap()@.lookaheads.finite()) by {
        if infos[j] is Some {
            assert(sound(grammar, terminals, origin, j, infos[j].unwrap()@));
            vstd::set_lib::lemma_len_subset(infos[j].unwrap()@.lookaheads, alphabet);
        }
    }
    lemma_total_weight_bound(infos, alphabet.len() + 1);
}

/// Computes, for the expansion of the non-terminal `origin`, what follows
/// the items of each non-terminal that the expansion comes upon, as the
/// fixed point of a worklist.
pub fn follow_sets(
    grammar: &SyntaxGrammar,
    lexical_grammar: &LexicalGrammar,
    first_sets: &SymbolSets,
    origin: usize,
) -> (infos: Vec<Option<FollowSetInfo>>)
    requires
        grammar.wf(lexical_grammar.variables@.len()),
        first_sets.describes(grammar, lexical_grammar.variables@.len(), false),
        origin < grammar.variables@.len(),
    ensures
        infos@.len() == grammar.variables@.len(),
        forall|j: int|
            0 <= j < infos@.len() ==> ((#[trigger] infos@[j]) is Some) == present(
                grammar,
                origin as int,
                j,
            ),
        forall|j: int|
            0 <= j < infos@.len() && (#[trigger] infos@[j]) is Some ==> infos@[j].unwrap()@
                == follow_info(grammar, origin as int, j),
        forall|j: int|
            0 <= j < infos@.len() && (#[trigger] infos@[j]) is Some
                ==> infos@[j].unwrap()@.lookaheads.subset_of(
                grammar.alphabet(lexical_grammar.variables@.len()),
            ),
{
    let ghost terminals = lexical_grammar.variables@.len();
    let ghost start = origin as int;
    let variable_count: usize = grammar.variables.len();
    let empty_lookaheads = LookaheadSet::new();
    let mut infos: Vec<Option<FollowSetInfo>> = Vec::new();
    while infos.len() < variable_count
        invariant
            infos@.len() <= variable_count,
            forall|j: int| 0 <= j < infos@.len() ==> (#[trigger] infos@[j]) is None,
        decreases variable_count - infos.len(),
    {
        infos.push(None);
    }
    let mut pending: Vec<PendingEntry> = Vec::new();
    pending.push(
        PendingEntry {
            variable_index: origin,
            lookaheads: &empty_lookaheads,
            propagates_lookaheads: true,
        },
    );
    let ghost bound = variable_count * (grammar.alphabet(terminals).len() + 1);
    proof {
        assert(pending@[0]@ == seed(start));
        assert(is_derivation(grammar, seq![seed(start)], start, seed(start)));
        assert(brings(pending@[0]@, Demand::Propagation));
        assert(awaits(infos@, pending@, start, Demand::Propagation));
    }
    while pending.len() > 0
        invariant
            terminals == lexical_grammar.variables@.len(),
            start == origin,
            variable_count == grammar.variables@.len(),
            bound == variable_count * (grammar.alphabet(terminals).len() + 1),
            grammar.wf(terminals),
            first_sets.describes(grammar, terminals, false),
            infos@.len() == variable_count,
            pending_sound(grammar, terminals, start, pending@),
            infos_sound(grammar, terminals, start, infos@),
            awaits(infos@, pending@, start, Demand::Propagation),
            closed(grammar, infos@, pending@, -1, 0, nothing()),
        decreases bound - total_weight(infos@), pending@.len(),
    {
        let ghost infos_before = infos@;
        let ghost pending_before = pending@;
        let entry = pending.pop().unwrap();
        let ghost stale = known(infos_before, entry.variable_index as int);
        assert(entry == pending_before[pending_before.len() - 1]);
        let changed = merge_entry(
            &mut infos,
            entry.variable_index,
            entry.lookaheads,
            entry.propagates_lookaheads,
        );
        proof {
            assert(entry@ == Entry {
                variable: entry.variable_index as int,
                lookaheads: entry.lookaheads@,
                propagates: entry.propagates_lookaheads,
            });
            assert(pending@ == pending_before.drop_last());
            lemma_closed_after_merge(grammar, infos_before, pending_before, infos@);
            assert(awaits(infos@, pending@, start, Demand::Propagation));
            if infos_before[entry.variable_index as int] is Some {
                assert(sound(grammar, terminals, start, entry.variable_index as int, stale));
            }
            lemma_sound_merge(grammar, terminals, start, stale, entry@);
            assert forall|j: int| 0 <= j < infos@.len() && (#[trigger] infos@[j]) is Some implies sound(
                grammar,
                terminals,
                start,
                j,
                infos@[j].unwrap()@,
            ) by {
                if j != entry.variable_index {
                    assert(infos@[j] == infos_before[j]);
                }
            }
            lemma_weights_bounded(grammar, terminals, start, infos_before);
            lemma_weights_bounded(grammar, terminals, start, infos@);
            lemma_total_weight_update(infos_before, infos@, entry.variable_index as int);
            let now = known(infos@, entry.variable_index as int);
            if changed {
                if !entry.propagates_lookaheads {
                    let t = choose|t: Symbol|
                        entry.lookaheads@.contains(t) && !stale.lookaheads.contains(t);
                    assert(now.lookaheads.contains(t));
                    if infos_before[entry.variable_index as int] is Some {
                        vstd::set_lib::lemma_len_subset(stale.lookaheads, now.lookaheads);
                        stale.lookaheads.lemma_subset_not_in_lt(now.lookaheads, t);
                    }
                    assert(effective(entry@));
                }
                assert(total_weight(infos@) > total_weight(infos_before));
            } else {
                assert(now.lookaheads =~= stale.lookaheads);
                assert(now == stale);
                assert(total_weight(infos@) == total_weight(infos_before));
                lemma_closed_done(
                    grammar,
                    infos@,
                    pending@,
                    entry.variable_index as int,
                    0,
                    stale,
                );
            }
        }
        if changed {
            let productions = &grammar.variables[entry.variable_index].productions;
            let mut p: usize = 0;
            while p < productions.len()
                invariant
                    p <= productions.len(),
                    terminals == lexical_grammar.variables@.len(),
                    variable_count == grammar.variables@.len(),
                    entry.variable_index < variable_count,
                    *productions == grammar.variables@[entry.variable_index as int].productions,
                    grammar.wf(terminals),
                    first_sets.describes(grammar, terminals, false),
                    infos@.len() == variable_count,
                    derives(grammar, start, entry@),
                    effective(entry@),
                    entry.lookaheads@.subset_of(grammar.alphabet(terminals)),
                    known(infos@, entry.variable_index as int) == merged(stale, entry@),
                    pending_sound(grammar, terminals, start, pending@),
                    awaits(infos@, pending@, start, Demand::Propagation),
                    closed(
                        grammar,
                        infos@,
                        pending@,
                        entry.variable_index as int,
                        p as int,
                        stale,
                    ),
                decreases productions.len() - p,
            {
                let ghost pending_then = pending@;
                let production = &productions[p];
                proof {
                    assert(grammar.variables@[entry.variable_index as int].wf(grammar, terminals));
                    assert(production.wf(grammar, terminals));
                }
                if production.steps.len() > 0 && production.steps[0].symbol.is_non_terminal() {
                    let symbol = production.steps[0].symbol;
                    proof {
                        assert(grammar.registers(terminals, production.steps@[0].symbol));
                    }
                    if production.steps.len() == 1 {
                        pending.push(
                            PendingEntry {
                                variable_index: symbol.index,
                                lookaheads: entry.lookaheads,
                                propagates_lookaheads: entry.propagates_lookaheads,
                            },
                        );
                    } else {
                        proof {
                            assert(grammar.registers(terminals, production.steps@[1].symbol));
                            lemma_edge_set_in_alphabet(
                                grammar,
                                terminals,
                                false,
                                production.steps@[1].symbol,
                            );
                        }
                        let following = first_sets.get(&production.steps[1].symbol);
                        pending.push(
                            PendingEntry {
                                variable_index: symbol.index,
                                lookaheads: following,
                                propagates_lookaheads: false,
                            },
                        );
                    }
                    proof {
                        let next = pending@[pending@.len() - 1];
                        assert(child(grammar, entry@, p as int) == Some(next@));
                        assert(pending@.drop_last() =~= pending_then);
                        lemma_derives_child(grammar, start, entry@, p as int, next@);
                        assert forall|m: int| 0 <= m < pending@.len() implies {
                            &&& (#[trigger] pending@[m]).variable_index < grammar.variables@.len()
                            &&& derives(grammar, start, pending@[m]@)
                            &&& pending@[m].lookaheads@.subset_of(grammar.alphabet(terminals))
                        } by {
                            if m < pending_then.len() {
                                assert(pending@[m] == pending_then[m]);
                            }
                        }
                    }
                } else {
                    assert(child(grammar, entry@, p as int) is None);
                }
                proof {
                    lemma_closed_next(
                        grammar,
                        infos@,
                        pending_then,
                        pending@,
                        entry.variable_index as int,
                        p as int,
                        stale,
                        entry@,
                    );
                    assert(awaits(infos@, pending@, start, Demand::Propagation));
                }
                p += 1;
            }
            proof {
                lemma_closed_done(
                    grammar,
                    infos@,
                    pending@,
                    entry.variable_index as int,
                    p as int,
                    stale,
                );
            }
        }
    }
    proof {
        assert(pending@ =~= Seq::<PendingEntry>::empty());
        assert forall|j: int| 0 <= j < infos@.len() implies ((#[trigger] infos@[j]) is Some)
            == present(grammar, start, j) by {
            if infos@[j] is Some {
                assert(sound(grammar, terminals, start, j, infos@[j].unwrap()@));
            }
            if present(grammar, start, j) {
                let entry = choose|entry: Entry| #[trigger]
                    derives(grammar, start, entry) && entry.variable == j;
                let entries = choose|entries: Seq<Entry>| #[trigger]
                    is_derivation(grammar, entries, start, entry);
                lemma_complete(grammar, infos@, start, entries, entry, entries.len() - 1);
            }
        }
        assert forall|j: int| 0 <= j < infos@.len() && (#[trigger] infos@[j]) is Some implies infos@[j]
            .unwrap()@ == follow_info(grammar, start, j) by {
            let info = infos@[j].unwrap()@;
            assert(sound(grammar, terminals, start, j, info));
            if propagates_to(grammar, start, j) {
                let entry = choose|entry: Entry| #[trigger]
                    derives(grammar, start, entry) && entry.variable == j && entry.propagates;
                let entries = choose|entries: Seq<Entry>| #[trigger]
                    is_derivation(grammar, entries, start, entry);
                lemma_complete(grammar, infos@, start, entries, entry, entries.len() - 1);
            }
            assert forall|t: Symbol| follows(grammar, start, j, t) implies info.lookaheads.contains(
                t,
            ) by {
                let entry = choose|entry: Entry| #[trigger]
                    derives(grammar, start, entry) && entry.variable == j && !entry.propagates
                        && entry.lookaheads.contains(t);
                let entries = choose|entries: Seq<Entry>| #[trigger]
                    is_derivation(grammar, entries, start, entry);
                lemma_complete(grammar, infos@, start, entries, entry, entries.len() - 1);
            }
            assert(info.lookaheads =~= follow_info(grammar, start, j).lookaheads);
        }
        assert forall|j: int| 0 <= j < infos@.len() && (#[trigger] infos@[j]) is Some implies infos@[j]
            .unwrap()@.lookaheads.subset_of(grammar.alphabet(terminals)) by {
            assert(sound(grammar, terminals, start, j, infos@[j].unwrap()@));
        }
    }
    infos
}

} // verus!

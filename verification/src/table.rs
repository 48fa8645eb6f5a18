use vstd::prelude::*;
use crate::symbol::Symbol;
use crate::grammar::{LexicalGrammar, SyntaxGrammar};
use crate::item::{InlinedProductionMap, ParseItem};
use crate::symbol_sets::SymbolSets;
use crate::additions::{
    Addition, FollowSetInfo, TransitiveClosureAddition, addition_from, additions_of, additions_view,
    find_or_push, is_addition,
};
use crate::follow::follow_sets;

verus! {

/// `addition` is the addition for place `x` in the expansion of the item
/// of production `p` of the non-terminal `j`, with what `infos` knows of
/// `j`; `j` is not marked for inlining.
pub open spec fn collected_at(
    grammar: &SyntaxGrammar,
    inlines: &InlinedProductionMap,
    infos: Seq<Option<FollowSetInfo>>,
    j: int,
    p: int,
    x: int,
    addition: Addition,
) -> bool {
    &&& 0 <= j < infos.len()
    &&& infos[j] is Some
    &&& !grammar.spec_is_inlined(Symbol::non_terminal(j as usize))
    &&& 0 <= p < grammar.variables@[j].productions@.len()
    &&& 0 <= x < inlines.expansion(ParseItem::normal(j as usize, p as usize, 0)).len()
    &&& inlines.expansion(ParseItem::normal(j as usize, p as usize, 0))[x] == addition.item
    &&& addition.lookaheads == infos[j].unwrap()@.lookaheads
    &&& addition.propagates == infos[j].unwrap()@.propagates
}

/// `addition` is the addition for some place.
pub open spec fn collected(
    grammar: &SyntaxGrammar,
    inlines: &InlinedProductionMap,
    infos: Seq<Option<FollowSetInfo>>,
    addition: Addition,
) -> bool {
    exists|j: int, p: int, x: int| #[trigger]
        collected_at(grammar, inlines, infos, j, p, x, addition)
}

/// Place `(j1, p1, x1)` comes before place `(j, p, x)`.
spec fn earlier(j1: int, p1: int, x1: int, j: int, p: int, x: int) -> bool {
    j1 < j || (j1 == j && (p1 < p || (p1 == p && x1 < x)))
}

/// `addition` is the addition for a place before `(j, p, x)`.
spec fn reached(
    grammar: &SyntaxGrammar,
    inlines: &InlinedProductionMap,
    infos: Seq<Option<FollowSetInfo>>,
    j: int,
    p: int,
    x: int,
    addition: Addition,
) -> bool {
    exists|j1: int, p1: int, x1: int| #[trigger]
        collected_at(grammar, inlines, infos, j1, p1, x1, addition) && earlier(j1, p1, x1, j, p, x)
}

/// `additions` holds, each once, the additions for the places before
/// `(j, p, x)`.
spec fn collected_upto(
    grammar: &SyntaxGrammar,
    inlines: &InlinedProductionMap,
    infos: Seq<Option<FollowSetInfo>>,
    additions: Seq<Addition>,
    j: int,
    p: int,
    x: int,
) -> bool {
    &&& additions.no_duplicates()
    &&& forall|addition: Addition| #[trigger]
        additions.contains(addition) <==> reached(grammar, inlines, infos, j, p, x, addition)
}

/// Moving the place forward over nothing leaves what is collected as it
/// is.
proof fn lemma_collected_skip(
    grammar: &SyntaxGrammar,
    inlines: &InlinedProductionMap,
    infos: Seq<Option<FollowSetInfo>>,
    additions: Seq<Addition>,
    j: int,
    p: int,
    x: int,
    j2: int,
    p2: int,
    x2: int,
)
    requires
        collected_upto(grammar, inlines, infos, additions, j, p, x),
        forall|j1: int, p1: int, x1: int, addition: Addition| #[trigger]
            collected_at(grammar, inlines, infos, j1, p1, x1, addition) ==> (earlier(
                j1,
                p1,
                x1,
                j,
                p,
                x,
            ) <==> earlier(j1, p1, x1, j2, p2, x2)),
    ensures
        collected_upto(grammar, inlines, infos, additions, j2, p2, x2),
{
    assert forall|addition: Addition| #[trigger]
        additions.contains(addition) <==> reached(
            grammar,
            inlines,
            infos,
            j2,
            p2,
            x2,
            addition,
        ) by {
        if reached(grammar, inlines, infos, j2, p2, x2, addition) {
            let (j1, p1, x1) = choose|j1: int, p1: int, x1: int| #[trigger]
                collected_at(grammar, inlines, infos, j1, p1, x1, addition) && earlier(
                    j1,
                    p1,
                    x1,
                    j2,
                    p2,
                    x2,
                );
            assert(earlier(j1, p1, x1, j, p, x));
            assert(reached(grammar, inlines, infos, j, p, x, addition));
        }
        if additions.contains(addition) {
            assert(reached(grammar, inlines, infos, j, p, x, addition));
            let (j1, p1, x1) = choose|j1: int, p1: int, x1: int| #[trigger]
                collected_at(grammar, inlines, infos, j1, p1, x1, addition) && earlier(
                    j1,
                    p1,
                    x1,
                    j,
                    p,
                    x,
                );
            assert(earlier(j1, p1, x1, j2, p2, x2));
        }
    }
}

/// After the addition for place `(j, p, x)` has been found or pushed, the
/// additions up to the next place are collected.
proof fn lemma_collected_step(
    grammar: &SyntaxGrammar,
    inlines: &InlinedProductionMap,
    infos: Seq<Option<FollowSetInfo>>,
    additions: Seq<Addition>,
    additions2: Seq<Addition>,
    j: int,
    p: int,
    x: int,
    value: Addition,
)
    requires
        collected_upto(grammar, inlines, infos, additions, j, p, x),
        collected_at(grammar, inlines, infos, j, p, x, value),
        additions2 == if additions.contains(value) {
            additions
        } else {
            additions.push(value)
        },
    ensures
        collected_upto(grammar, inlines, infos, additions2, j, p, x + 1),
{
    assert(earlier(j, p, x, j, p, x + 1));
    assert forall|addition: Addition| #[trigger]
        additions2.contains(addition) <==> reached(
            grammar,
            inlines,
            infos,
            j,
            p,
            x + 1,
            addition,
        ) by {
        if reached(grammar, inlines, infos, j, p, x + 1, addition) {
            let (j1, p1, x1) = choose|j1: int, p1: int, x1: int| #[trigger]
                collected_at(grammar, inlines, infos, j1, p1, x1, addition) && earlier(
                    j1,
                    p1,
                    x1,
                    j,
                    p,
                    x + 1,
                );
            if earlier(j1, p1, x1, j, p, x) {
                assert(reached(grammar, inlines, infos, j, p, x, addition));
                assert(additions.contains(addition));
                let k = choose|k: int| 0 <= k < additions.len() && additions[k] == addition;
                assert(additions2[k] == addition);
            } else {
                assert(addition.lookaheads =~= value.lookaheads);
                assert(addition == value);
                if additions.contains(value) {
                } else {
                    assert(additions2[additions.len() as int] == value);
                }
            }
        }
        if additions2.contains(addition) {
            let k = choose|k: int| 0 <= k < additions2.len() && additions2[k] == addition;
            if k < additions.len() {
                assert(additions[k] == addition);
                assert(additions.contains(addition));
                assert(reached(grammar, inlines, infos, j, p, x, addition));
                let (j1, p1, x1) = choose|j1: int, p1: int, x1: int| #[trigger]
                    collected_at(grammar, inlines, infos, j1, p1, x1, addition) && earlier(
                        j1,
                        p1,
                        x1,
                        j,
                        p,
                        x,
                    );
                assert(earlier(j1, p1, x1, j, p, x + 1));
            } else {
                assert(addition == value);
            }
        }
    }
    if !additions.contains(value) {
        assert forall|a: int, b: int|
            0 <= a < additions2.len() && 0 <= b < additions2.len() && a != b implies additions2[a]
            != additions2[b] by {
            if a < additions.len() && b < additions.len() {
            } else if a < additions.len() {
                assert(additions.contains(additions[a]));
            } else {
                assert(additions.contains(additions[b]));
            }
        }
    }
}

/// Lists, for every non-terminal of which `infos` knows something and
/// which is not marked for inlining, the items of its productions with
/// the dot at the start (or the items that replace them), each with what
/// is known of the non-terminal and none twice.
pub fn collect_additions(
    grammar: &SyntaxGrammar,
    inlines: &InlinedProductionMap,
    infos: &Vec<Option<FollowSetInfo>>,
) -> (additions: Vec<TransitiveClosureAddition>)
    requires
        infos@.len() == grammar.variables@.len(),
    ensures
        additions_view(additions@).no_duplicates(),
        forall|addition: Addition| #[trigger]
            additions_view(additions@).contains(addition) <==> collected(
                grammar,
                inlines,
                infos@,
                addition,
            ),
{
    let mut additions: Vec<TransitiveClosureAddition> = Vec::new();
    let mut j: usize = 0;
    proof {
        assert(additions_view(additions@) =~= Seq::<Addition>::empty());
    }
    while j < grammar.variables.len()
        invariant
            j <= grammar.variables.len(),
            infos@.len() == grammar.variables@.len(),
            collected_upto(grammar, inlines, infos@, additions_view(additions@), j as int, 0, 0),
        decreases grammar.variables.len() - j,
    {
        let mut p: usize = 0;
        match &infos[j] {
            Some(info) => {
                if !grammar.is_inlined(Symbol::non_terminal(j)) {
                    let productions = &grammar.variables[j].productions;
                    while p < productions.len()
                        invariant
                            p <= productions.len(),
                            j < grammar.variables.len(),
                            infos@.len() == grammar.variables@.len(),
                            *productions == grammar.variables@[j as int].productions,
                            infos@[j as int] == Some(*info),
                            !grammar.spec_is_inlined(Symbol::non_terminal(j)),
                            collected_upto(
                                grammar,
                                inlines,
                                infos@,
                                additions_view(additions@),
                                j as int,
                                p as int,
                                0,
                            ),
                        decreases productions.len() - p,
                    {
                        let item = ParseItem::normal(j, p, 0);
                        match inlines.inlined_items(item) {
                            Some(inlined_items) => {
                                let mut x: usize = 0;
                                while x < inlined_items.len()
                                    invariant
                                        x <= inlined_items.len(),
                                        j < grammar.variables.len(),
                                        p < productions.len(),
                                        infos@.len() == grammar.variables@.len(),
                                        *productions == grammar.variables@[j as int].productions,
                                        infos@[j as int] == Some(*info),
                                        !grammar.spec_is_inlined(Symbol::non_terminal(j)),
                                        item == ParseItem::normal(j, p, 0),
                                        inlines.expansion(item) == inlined_items@,
                                        collected_upto(
                                            grammar,
                                            inlines,
                                            infos@,
                                            additions_view(additions@),
                                            j as int,
                                            p as int,
                                            x as int,
                                        ),
                                    decreases inlined_items.len() - x,
                                {
                                    let ghost before = additions_view(additions@);
                                    let value = TransitiveClosureAddition {
                                        item: inlined_items[x],
                                        info: info.clone(),
                                    };
                                    proof {
                                        assert(value@.lookaheads == info@.lookaheads);
                                        assert(collected_at(
                                            grammar,
                                            inlines,
                                            infos@,
                                            j as int,
                                            p as int,
                                            x as int,
                                            value@,
                                        ));
                                    }
                                    let ghost added = value@;
                                    find_or_push(&mut additions, value);
                                    proof {
                                        lemma_collected_step(
                                            grammar,
                                            inlines,
                                            infos@,
                                            before,
                                            additions_view(additions@),
                                            j as int,
                                            p as int,
                                            x as int,
                                            added,
                                        );
                                    }
                                    x += 1;
                                }
                            },
                            None => {
                                let ghost before = additions_view(additions@);
                                let value = TransitiveClosureAddition { item, info: info.clone() };
                                proof {
                                    assert(value@.lookaheads == info@.lookaheads);
                                    assert(inlines.expansion(item) =~= seq![item]);
                                    assert(collected_at(
                                        grammar,
                                        inlines,
                                        infos@,
                                        j as int,
                                        p as int,
                                        0,
                                        value@,
                                    ));
                                }
                                let ghost added = value@;
                                find_or_push(&mut additions, value);
                                proof {
                                    lemma_collected_step(
                                        grammar,
                                        inlines,
                                        infos@,
                                        before,
                                        additions_view(additions@),
                                        j as int,
                                        p as int,
                                        0,
                                        added,
                                    );
                                }
                            },
                        }
                        proof {
                            let len = inlines.expansion(item).len() as int;
                            lemma_collected_skip(
                                grammar,
                                inlines,
                                infos@,
                                additions_view(additions@),
                                j as int,
                                p as int,
                                len,
                                j as int,
                                p + 1,
                                0,
                            );
                        }
                        p += 1;
                    }
                }
            },
            None => {},
        }
        proof {
            lemma_collected_skip(
                grammar,
                inlines,
                infos@,
                additions_view(additions@),
                j as int,
                p as int,
                0,
                j + 1,
                0,
                0,
            );
        }
        j += 1;
    }
    proof {
        let view = additions_view(additions@);
        let n = grammar.variables@.len() as int;
        assert forall|addition: Addition| #[trigger]
            view.contains(addition) <==> collected(grammar, inlines, infos@, addition) by {
            if view.contains(addition) {
                assert(reached(grammar, inlines, infos@, n, 0, 0, addition));
            }
            if collected(grammar, inlines, infos@, addition) {
                let (j1, p1, x1) = choose|j1: int, p1: int, x1: int| #[trigger]
                    collected_at(grammar, inlines, infos@, j1, p1, x1, addition);
                assert(earlier(j1, p1, x1, n, 0, 0));
                assert(reached(grammar, inlines, infos@, n, 0, 0, addition));
            }
        }
    }
    additions
}

/// Computes the additions of the expansion of the non-terminal `origin`.
pub fn expansion_additions(
    grammar: &SyntaxGrammar,
    lexical_grammar: &LexicalGrammar,
    first_sets: &SymbolSets,
    inlines: &InlinedProductionMap,
    origin: usize,
) -> (additions: Vec<TransitiveClosureAddition>)
    requires
        grammar.wf(lexical_grammar.variables@.len()),
        first_sets.describes(grammar, lexical_grammar.variables@.len(), false),
        origin < grammar.variables@.len(),
    ensures
        additions_of(grammar, inlines, origin as int, additions_view(additions@)),
        forall|k: int|
            0 <= k < additions@.len() ==> (#[trigger] additions@[k])@.lookaheads.subset_of(
                grammar.alphabet(lexical_grammar.variables@.len()),
            ),
{
    let infos = follow_sets(grammar, lexical_grammar, first_sets, origin);
    let additions = collect_additions(grammar, inlines, &infos);
    proof {
        let view = additions_view(additions@);
        let n = grammar.variables@.len() as int;
        assert forall|addition: Addition| #[trigger]
            view.contains(addition) <==> is_addition(
                grammar,
                inlines,
                origin as int,
                addition,
            ) by {
            if view.contains(addition) {
                assert(collected(grammar, inlines, infos@, addition));
                let (j1, p1, x1) = choose|j1: int, p1: int, x1: int| #[trigger]
                    collected_at(grammar, inlines, infos@, j1, p1, x1, addition);
                assert(infos@[j1] is Some);
                assert(addition_from(grammar, inlines, origin as int, j1, p1, addition));
            }
            if is_addition(grammar, inlines, origin as int, addition) {
                let (j1, p1) = choose|j1: int, p1: int| #[trigger]
                    addition_from(grammar, inlines, origin as int, j1, p1, addition);
                let expansion = inlines.expansion(ParseItem::normal(j1 as usize, p1 as usize, 0));
                let x1 = choose|x1: int| 0 <= x1 < expansion.len() && expansion[x1] == addition.item;
                assert(infos@[j1] is Some);
                assert(collected_at(grammar, inlines, infos@, j1, p1, x1, addition));
            }
        }
        assert forall|k: int| 0 <= k < additions@.len() implies (#[trigger] additions@[k])@.lookaheads.subset_of(
            grammar.alphabet(lexical_grammar.variables@.len()),
        ) by {
            let addition = view[k];
            assert(view.contains(addition));
            assert(collected(grammar, inlines, infos@, addition));
            let (j1, p1, x1) = choose|j1: int, p1: int, x1: int| #[trigger]
                collected_at(grammar, inlines, infos@, j1, p1, x1, addition);
            assert(infos@[j1] is Some);
        }
    }
    additions
}

} // verus!

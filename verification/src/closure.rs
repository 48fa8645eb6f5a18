use vstd::prelude::*;
use crate::symbol::{Symbol, SymbolType};
use crate::grammar::SyntaxGrammar;
use crate::item::{InlinedProductionMap, ParseItem};
use crate::additions::Addition;
use crate::builder::ParseItemSetBuilder;

verus! {

/// The additions of the non-terminal behind the dot of `item`; none where
/// no non-terminal stands behind the dot.
pub open spec fn dot_additions(
    builder: &ParseItemSetBuilder,
    grammar: &SyntaxGrammar,
    item: ParseItem,
) -> Seq<Addition> {
    match item.next_symbol(grammar, &builder.inline_map()) {
        Some(symbol) => if symbol.kind == SymbolType::NonTerminal {
            builder.additions()[symbol.index as int]
        } else {
            Seq::empty()
        },
        None => Seq::empty(),
    }
}

/// The tokens that can follow the non-terminal behind the dot of `item`:
/// the FIRST set of the symbol behind that non-terminal, or, where the
/// non-terminal ends the production, the lookaheads of the item itself.
pub open spec fn following_tokens(
    builder: &ParseItemSetBuilder,
    grammar: &SyntaxGrammar,
    item: ParseItem,
    lookaheads: Set<Symbol>,
) -> Set<Symbol> {
    match item.symbol_after(grammar, &builder.inline_map(), 1) {
        Some(symbol) => builder.firsts().spec_get(symbol),
        None => lookaheads,
    }
}

/// The tokens that `addition` gives to its item where `item` with
/// `lookaheads` is processed: its own, and the following tokens where it
/// propagates.
pub open spec fn addition_tokens(
    builder: &ParseItemSetBuilder,
    grammar: &SyntaxGrammar,
    item: ParseItem,
    lookaheads: Set<Symbol>,
    addition: Addition,
) -> Set<Symbol> {
    if addition.propagates {
        addition.lookaheads.union(following_tokens(builder, grammar, item, lookaheads))
    } else {
        addition.lookaheads
    }
}

/// One of the first `upto` additions behind the dot of `item` is for
/// `target`.
pub open spec fn targets_upto(
    builder: &ParseItemSetBuilder,
    grammar: &SyntaxGrammar,
    item: ParseItem,
    upto: int,
    target: ParseItem,
) -> bool {
    exists|k: int|
        0 <= k < upto && k < dot_additions(builder, grammar, item).len() && (
        #[trigger] dot_additions(builder, grammar, item)[k]).item == target
}

/// One of the first `upto` additions behind the dot of `item` is for
/// `target` and gives it the token `t`.
pub open spec fn brings_upto(
    builder: &ParseItemSetBuilder,
    grammar: &SyntaxGrammar,
    item: ParseItem,
    lookaheads: Set<Symbol>,
    upto: int,
    target: ParseItem,
    t: Symbol,
) -> bool {
    exists|k: int|
        0 <= k < upto && k < dot_additions(builder, grammar, item).len() && (
        #[trigger] dot_additions(builder, grammar, item)[k]).item == target && addition_tokens(
            builder,
            grammar,
            item,
            lookaheads,
            dot_additions(builder, grammar, item)[k],
        ).contains(t)
}

/// Processing `item` touches the entry of `target`.
pub open spec fn targets(
    builder: &ParseItemSetBuilder,
    grammar: &SyntaxGrammar,
    item: ParseItem,
    target: ParseItem,
) -> bool {
    targets_upto(
        builder,
        grammar,
        item,
        dot_additions(builder, grammar, item).len() as int,
        target,
    )
}

/// Processing `item` with `lookaheads` gives the token `t` to `target`.
pub open spec fn brings_token(
    builder: &ParseItemSetBuilder,
    grammar: &SyntaxGrammar,
    item: ParseItem,
    lookaheads: Set<Symbol>,
    target: ParseItem,
    t: Symbol,
) -> bool {
    brings_upto(
        builder,
        grammar,
        item,
        lookaheads,
        dot_additions(builder, grammar, item).len() as int,
        target,
        t,
    )
}

/// The item set `set` after the first `upto` additions behind the dot of
/// `item` have been applied: each addition's item has an entry, which
/// holds what it held before and the tokens of the addition.
pub open spec fn after_additions(
    builder: &ParseItemSetBuilder,
    grammar: &SyntaxGrammar,
    set: Map<ParseItem, Set<Symbol>>,
    item: ParseItem,
    lookaheads: Set<Symbol>,
    upto: int,
) -> Map<ParseItem, Set<Symbol>> {
    Map::new(
        |target: ParseItem|
            set.contains_key(target) || targets_upto(builder, grammar, item, upto, target),
        |target: ParseItem|
            Set::new(
                |t: Symbol|
                    (set.contains_key(target) && set[target].contains(t)) || brings_upto(
                        builder,
                        grammar,
                        item,
                        lookaheads,
                        upto,
                        target,
                        t,
                    ),
            ),
    )
}

/// The item set `set` after `item` with `lookaheads` has been processed.
pub open spec fn after_item(
    builder: &ParseItemSetBuilder,
    grammar: &SyntaxGrammar,
    set: Map<ParseItem, Set<Symbol>>,
    item: ParseItem,
    lookaheads: Set<Symbol>,
) -> Map<ParseItem, Set<Symbol>> {
    after_additions(
        builder,
        grammar,
        set,
        item,
        lookaheads,
        dot_additions(builder, grammar, item).len() as int,
    )
}

/// Place `x` in the expansion of kernel entry `i` exists.
pub open spec fn in_work(
    inlines: &InlinedProductionMap,
    kernel: Seq<(ParseItem, Set<Symbol>)>,
    i: int,
    x: int,
) -> bool {
    0 <= i < kernel.len() && 0 <= x < inlines.expansion(kernel[i].0).len()
}

/// The item that is processed at place `x` of kernel entry `i`.
pub open spec fn work(
    inlines: &InlinedProductionMap,
    kernel: Seq<(ParseItem, Set<Symbol>)>,
    i: int,
    x: int,
) -> ParseItem {
    inlines.expansion(kernel[i].0)[x]
}

/// Processing the item at place `x` of kernel entry `i` touches the entry
/// of `target`.
pub open spec fn hits(
    builder: &ParseItemSetBuilder,
    grammar: &SyntaxGrammar,
    kernel: Seq<(ParseItem, Set<Symbol>)>,
    i: int,
    x: int,
    target: ParseItem,
) -> bool {
    in_work(&builder.inline_map(), kernel, i, x) && targets(
        builder,
        grammar,
        work(&builder.inline_map(), kernel, i, x),
        target,
    )
}

/// Processing the item at place `x` of kernel entry `i` gives the token
/// `t` to `target`.
pub open spec fn yields(
    builder: &ParseItemSetBuilder,
    grammar: &SyntaxGrammar,
    kernel: Seq<(ParseItem, Set<Symbol>)>,
    i: int,
    x: int,
    target: ParseItem,
    t: Symbol,
) -> bool {
    in_work(&builder.inline_map(), kernel, i, x) && brings_token(
        builder,
        grammar,
        work(&builder.inline_map(), kernel, i, x),
        kernel[i].1,
        target,
        t,
    )
}

/// Processing one of the first `upto` kernel entries touches the entry of
/// `target`.
pub open spec fn gathered_has(
    builder: &ParseItemSetBuilder,
    grammar: &SyntaxGrammar,
    kernel: Seq<(ParseItem, Set<Symbol>)>,
    upto: int,
    target: ParseItem,
) -> bool {
    exists|i: int, x: int| #[trigger] hits(builder, grammar, kernel, i, x, target) && i < upto
}

/// Processing one of the first `upto` kernel entries gives the token `t`
/// to `target`.
pub open spec fn gathered_token(
    builder: &ParseItemSetBuilder,
    grammar: &SyntaxGrammar,
    kernel: Seq<(ParseItem, Set<Symbol>)>,
    upto: int,
    target: ParseItem,
    t: Symbol,
) -> bool {
    exists|i: int, x: int| #[trigger] yields(builder, grammar, kernel, i, x, target, t) && i < upto
}

/// What the additions of the first `upto` kernel entries make of the
/// empty item set.
pub open spec fn gathered(
    builder: &ParseItemSetBuilder,
    grammar: &SyntaxGrammar,
    kernel: Seq<(ParseItem, Set<Symbol>)>,
    upto: int,
) -> Map<ParseItem, Set<Symbol>> {
    Map::new(
        |target: ParseItem| gathered_has(builder, grammar, kernel, upto, target),
        |target: ParseItem|
            Set::new(|t: Symbol| gathered_token(builder, grammar, kernel, upto, target, t)),
    )
}

/// The last of the first `upto` kernel entries in whose expansion `target`
/// occurs, or -1 where it occurs in none of them.
pub open spec fn last_seed(
    inlines: &InlinedProductionMap,
    kernel: Seq<(ParseItem, Set<Symbol>)>,
    upto: int,
    target: ParseItem,
) -> int
    decreases upto,
{
    if upto <= 0 {
        -1
    } else if upto <= kernel.len() && inlines.expansion(kernel[upto - 1].0).contains(target) {
        upto - 1
    } else {
        last_seed(inlines, kernel, upto - 1, target)
    }
}

/// `set` with an entry for each of `items` that holds `lookaheads`.
pub open spec fn with_items(
    set: Map<ParseItem, Set<Symbol>>,
    items: Seq<ParseItem>,
    lookaheads: Set<Symbol>,
) -> Map<ParseItem, Set<Symbol>> {
    Map::new(
        |target: ParseItem| items.contains(target) || set.contains_key(target),
        |target: ParseItem|
            if items.contains(target) {
                lookaheads
            } else {
                set[target]
            },
    )
}

/// What all additions make of the empty item set, with the processed
/// items of the first `upto` kernel entries put on top, each with the
/// lookaheads of its kernel entry.
pub open spec fn overlaid(
    builder: &ParseItemSetBuilder,
    grammar: &SyntaxGrammar,
    kernel: Seq<(ParseItem, Set<Symbol>)>,
    upto: int,
) -> Map<ParseItem, Set<Symbol>> {
    let base = gathered(builder, grammar, kernel, kernel.len() as int);
    Map::new(
        |target: ParseItem|
            last_seed(&builder.inline_map(), kernel, upto, target) >= 0 || base.contains_key(
                target,
            ),
        |target: ParseItem|
            if last_seed(&builder.inline_map(), kernel, upto, target) >= 0 {
                kernel[last_seed(&builder.inline_map(), kernel, upto, target)].1
            } else {
                base[target]
            },
    )
}

/// The transitive closure of a kernel.  Each kernel entry is processed as
/// the items of its expansion.  An item that is processed keeps the
/// lookaheads of the last kernel entry from which it comes.  Any other
/// item has an entry where an addition behind the dot of a processed item
/// is for it, and holds the tokens that those additions give to it.
pub open spec fn closure(
    builder: &ParseItemSetBuilder,
    grammar: &SyntaxGrammar,
    kernel: Seq<(ParseItem, Set<Symbol>)>,
) -> Map<ParseItem, Set<Symbol>> {
    overlaid(builder, grammar, kernel, kernel.len() as int)
}

/// Processing one more item after the additions of the first `i` kernel
/// entries and of the first `x` items of entry `i`.
pub open spec fn gathered_within(
    builder: &ParseItemSetBuilder,
    grammar: &SyntaxGrammar,
    kernel: Seq<(ParseItem, Set<Symbol>)>,
    i: int,
    x: int,
) -> Map<ParseItem, Set<Symbol>> {
    Map::new(
        |target: ParseItem|
            gathered_has(builder, grammar, kernel, i, target) || exists|x1: int|
                0 <= x1 < x && #[trigger] hits(builder, grammar, kernel, i, x1, target),
        |target: ParseItem|
            Set::new(
                |t: Symbol|
                    gathered_token(builder, grammar, kernel, i, target, t) || exists|x1: int|
                        0 <= x1 < x && #[trigger] yields(builder, grammar, kernel, i, x1, target, t),
            ),
    )
}

/// The additions of no kernel entry leave the empty item set empty.
pub proof fn lemma_gathered_start(
    builder: &ParseItemSetBuilder,
    grammar: &SyntaxGrammar,
    kernel: Seq<(ParseItem, Set<Symbol>)>,
)
    ensures
        gathered(builder, grammar, kernel, 0) == Map::<ParseItem, Set<Symbol>>::empty(),
{
    assert(gathered(builder, grammar, kernel, 0) =~= Map::<ParseItem, Set<Symbol>>::empty());
}

/// Before the first item of kernel entry `i` is processed, the additions
/// of the entries before it have been applied.
pub proof fn lemma_gathered_enter(
    builder: &ParseItemSetBuilder,
    grammar: &SyntaxGrammar,
    kernel: Seq<(ParseItem, Set<Symbol>)>,
    i: int,
)
    ensures
        gathered_within(builder, grammar, kernel, i, 0) == gathered(builder, grammar, kernel, i),
{
    assert(gathered_within(builder, grammar, kernel, i, 0) =~~= gathered(
        builder,
        grammar,
        kernel,
        i,
    ));
}

/// Once all items of kernel entry `i` are processed, the additions of
/// the entries up to it have been applied.
pub proof fn lemma_gathered_leave(
    builder: &ParseItemSetBuilder,
    grammar: &SyntaxGrammar,
    kernel: Seq<(ParseItem, Set<Symbol>)>,
    i: int,
)
    requires
        0 <= i < kernel.len(),
    ensures
        gathered_within(
            builder,
            grammar,
            kernel,
            i,
            builder.inline_map().expansion(kernel[i].0).len() as int,
        ) == gathered(builder, grammar, kernel, i + 1),
{
    let len = builder.inline_map().expansion(kernel[i].0).len() as int;
    let left = gathered_within(builder, grammar, kernel, i, len);
    let right = gathered(builder, grammar, kernel, i + 1);
    assert forall|target: ParseItem| left.contains_key(target) == right.contains_key(target) by {
        if gathered_has(builder, grammar, kernel, i + 1, target) {
            let (i1, x1) = choose|i1: int, x1: int| #[trigger]
                hits(builder, grammar, kernel, i1, x1, target) && i1 < i + 1;
            if i1 < i {
                assert(gathered_has(builder, grammar, kernel, i, target));
            }
        }
        if left.contains_key(target) {
            if gathered_has(builder, grammar, kernel, i, target) {
                let (i1, x1) = choose|i1: int, x1: int| #[trigger]
                    hits(builder, grammar, kernel, i1, x1, target) && i1 < i;
                assert(hits(builder, grammar, kernel, i1, x1, target) && i1 < i + 1);
            } else {
                let x1 = choose|x1: int|
                    0 <= x1 < len && #[trigger] hits(builder, grammar, kernel, i, x1, target);
                assert(hits(builder, grammar, kernel, i, x1, target) && i < i + 1);
            }
        }
    }
    assert forall|target: ParseItem, t: Symbol|
        left.contains_key(target) implies left[target].contains(t) == right[target].contains(t) by {
        if gathered_token(builder, grammar, kernel, i + 1, target, t) {
            let (i1, x1) = choose|i1: int, x1: int| #[trigger]
                yields(builder, grammar, kernel, i1, x1, target, t) && i1 < i + 1;
            if i1 < i {
                assert(gathered_token(builder, grammar, kernel, i, target, t));
            }
        }
        if left[target].contains(t) {
            if gathered_token(builder, grammar, kernel, i, target, t) {
                let (i1, x1) = choose|i1: int, x1: int| #[trigger]
                    yields(builder, grammar, kernel, i1, x1, target, t) && i1 < i;
                assert(yields(builder, grammar, kernel, i1, x1, target, t) && i1 < i + 1);
            } else {
                let x1 = choose|x1: int|
                    0 <= x1 < len && #[trigger] yields(builder, grammar, kernel, i, x1, target, t);
                assert(yields(builder, grammar, kernel, i, x1, target, t) && i < i + 1);
            }
        }
    }
    assert(left =~~= right);
}

/// A token that an addition gives to an item is given through an
/// addition for that item.
pub proof fn lemma_brings_targets(
    builder: &ParseItemSetBuilder,
    grammar: &SyntaxGrammar,
    item: ParseItem,
    lookaheads: Set<Symbol>,
    upto: int,
    target: ParseItem,
    t: Symbol,
)
    requires
        brings_upto(builder, grammar, item, lookaheads, upto, target, t),
    ensures
        targets_upto(builder, grammar, item, upto, target),
{
}

/// Processing the item at place `x` of kernel entry `i` leads from what
/// the places before it gave to what the places up to it give.
pub proof fn lemma_gathered_step(
    builder: &ParseItemSetBuilder,
    grammar: &SyntaxGrammar,
    kernel: Seq<(ParseItem, Set<Symbol>)>,
    i: int,
    x: int,
)
    requires
        in_work(&builder.inline_map(), kernel, i, x),
    ensures
        after_item(
            builder,
            grammar,
            gathered_within(builder, grammar, kernel, i, x),
            work(&builder.inline_map(), kernel, i, x),
            kernel[i].1,
        ) == gathered_within(builder, grammar, kernel, i, x + 1),
{
    let inlines = builder.inline_map();
    let item = work(&inlines, kernel, i, x);
    let before = gathered_within(builder, grammar, kernel, i, x);
    let left = after_item(builder, grammar, before, item, kernel[i].1);
    let right = gathered_within(builder, grammar, kernel, i, x + 1);
    assert forall|target: ParseItem| left.contains_key(target) == right.contains_key(target) by {
        if right.contains_key(target) && !gathered_has(builder, grammar, kernel, i, target) {
            let x1 = choose|x1: int|
                0 <= x1 < x + 1 && #[trigger] hits(builder, grammar, kernel, i, x1, target);
            if x1 < x {
                assert(before.contains_key(target));
            }
        }
        if left.contains_key(target) {
            if before.contains_key(target) {
                if !gathered_has(builder, grammar, kernel, i, target) {
                    let x1 = choose|x1: int|
                        0 <= x1 < x && #[trigger] hits(builder, grammar, kernel, i, x1, target);
                    assert(0 <= x1 < x + 1 && hits(builder, grammar, kernel, i, x1, target));
                }
            } else {
                assert(hits(builder, grammar, kernel, i, x, target));
            }
        }
    }
    assert forall|target: ParseItem, t: Symbol|
        left.contains_key(target) implies left[target].contains(t) == right[target].contains(t) by {
        if right[target].contains(t) && !gathered_token(builder, grammar, kernel, i, target, t) {
            let x1 = choose|x1: int|
                0 <= x1 < x + 1 && #[trigger] yields(builder, grammar, kernel, i, x1, target, t);
            if x1 < x {
                lemma_brings_targets(
                    builder,
                    grammar,
                    work(&inlines, kernel, i, x1),
                    kernel[i].1,
                    dot_additions(builder, grammar, work(&inlines, kernel, i, x1)).len() as int,
                    target,
                    t,
                );
                assert(hits(builder, grammar, kernel, i, x1, target));
                assert(before.contains_key(target));
                assert(before[target].contains(t));
            }
        }
        if right[target].contains(t) && gathered_token(builder, grammar, kernel, i, target, t) {
            let (i1, x1) = choose|i1: int, x1: int| #[trigger]
                yields(builder, grammar, kernel, i1, x1, target, t) && i1 < i;
            lemma_brings_targets(
                builder,
                grammar,
                work(&inlines, kernel, i1, x1),
                kernel[i1].1,
                dot_additions(builder, grammar, work(&inlines, kernel, i1, x1)).len() as int,
                target,
                t,
            );
            assert(hits(builder, grammar, kernel, i1, x1, target) && i1 < i);
            assert(before.contains_key(target));
            assert(before[target].contains(t));
        }
        if left[target].contains(t) {
            if before.contains_key(target) && before[target].contains(t) {
                if !gathered_token(builder, grammar, kernel, i, target, t) {
                    let x1 = choose|x1: int|
                        0 <= x1 < x && #[trigger] yields(builder, grammar, kernel, i, x1, target, t);
                    assert(0 <= x1 < x + 1 && yields(builder, grammar, kernel, i, x1, target, t));
                }
            } else {
                assert(yields(builder, grammar, kernel, i, x, target, t));
            }
        }
    }
    assert(left =~~= right);
}

/// Putting the processed items of kernel entry `i` on top of what the
/// entries before it gave is what the entries up to `i` give.
pub proof fn lemma_overlaid_step(
    builder: &ParseItemSetBuilder,
    grammar: &SyntaxGrammar,
    kernel: Seq<(ParseItem, Set<Symbol>)>,
    i: int,
)
    requires
        0 <= i < kernel.len(),
    ensures
        with_items(
            overlaid(builder, grammar, kernel, i),
            builder.inline_map().expansion(kernel[i].0),
            kernel[i].1,
        ) == overlaid(builder, grammar, kernel, i + 1),
{
    let inlines = builder.inline_map();
    let left = with_items(
        overlaid(builder, grammar, kernel, i),
        inlines.expansion(kernel[i].0),
        kernel[i].1,
    );
    let right = overlaid(builder, grammar, kernel, i + 1);
    assert forall|target: ParseItem| left.contains_key(target) == right.contains_key(target) by {
        assert(last_seed(&inlines, kernel, i + 1, target) == if inlines.expansion(
            kernel[i].0,
        ).contains(target) {
            i
        } else {
            last_seed(&inlines, kernel, i, target)
        });
    }
    assert forall|target: ParseItem| left.contains_key(target) implies left[target]
        == right[target] by {
        assert(last_seed(&inlines, kernel, i + 1, target) == if inlines.expansion(
            kernel[i].0,
        ).contains(target) {
            i
        } else {
            last_seed(&inlines, kernel, i, target)
        });
    }
    assert(left =~= right);
}

/// Before any processed item is put on top, the item set is what the
/// additions gave.
pub proof fn lemma_overlaid_start(
    builder: &ParseItemSetBuilder,
    grammar: &SyntaxGrammar,
    kernel: Seq<(ParseItem, Set<Symbol>)>,
)
    ensures
        overlaid(builder, grammar, kernel, 0) == gathered(
            builder,
            grammar,
            kernel,
            kernel.len() as int,
        ),
{
    assert(overlaid(builder, grammar, kernel, 0) =~= gathered(
        builder,
        grammar,
        kernel,
        kernel.len() as int,
    ));
}

/// What `last_seed` finds is the last entry in whose expansion `target`
/// occurs.
pub proof fn lemma_last_seed(
    inlines: &InlinedProductionMap,
    kernel: Seq<(ParseItem, Set<Symbol>)>,
    upto: int,
    target: ParseItem,
)
    requires
        0 <= upto <= kernel.len(),
    ensures
        -1 <= last_seed(inlines, kernel, upto, target) < upto,
        last_seed(inlines, kernel, upto, target) >= 0 ==> inlines.expansion(
            kernel[last_seed(inlines, kernel, upto, target)].0,
        ).contains(target),
        forall|i: int|
            last_seed(inlines, kernel, upto, target) < i < upto ==> !inlines.expansion(
                (#[trigger] kernel[i]).0,
            ).contains(target),
    decreases upto,
{
    if upto > 0 {
        lemma_last_seed(inlines, kernel, upto - 1, target);
    }
}

/// Before any addition has been applied the item set is as it was.
pub proof fn lemma_additions_start(
    builder: &ParseItemSetBuilder,
    grammar: &SyntaxGrammar,
    set: Map<ParseItem, Set<Symbol>>,
    item: ParseItem,
    lookaheads: Set<Symbol>,
)
    ensures
        after_additions(builder, grammar, set, item, lookaheads, 0) == set,
{
    assert(after_additions(builder, grammar, set, item, lookaheads, 0) =~~= set);
}

/// Giving the item of addition `k` its tokens leads from the item set
/// after `k` additions to the one after `k + 1`.
pub proof fn lemma_additions_step(
    builder: &ParseItemSetBuilder,
    grammar: &SyntaxGrammar,
    set: Map<ParseItem, Set<Symbol>>,
    item: ParseItem,
    lookaheads: Set<Symbol>,
    k: int,
    next: Map<ParseItem, Set<Symbol>>,
)
    requires
        0 <= k < dot_additions(builder, grammar, item).len(),
        ({
            let addition = dot_additions(builder, grammar, item)[k];
            let current = after_additions(builder, grammar, set, item, lookaheads, k);
            let tokens = addition_tokens(builder, grammar, item, lookaheads, addition);
            next == current.insert(
                addition.item,
                if current.contains_key(addition.item) {
                    current[addition.item].union(tokens)
                } else {
                    tokens
                },
            )
        }),
    ensures
        next == after_additions(builder, grammar, set, item, lookaheads, k + 1),
{
    let additions = dot_additions(builder, grammar, item);
    let addition = additions[k];
    let current = after_additions(builder, grammar, set, item, lookaheads, k);
    let tokens = addition_tokens(builder, grammar, item, lookaheads, addition);
    let right = after_additions(builder, grammar, set, item, lookaheads, k + 1);
    assert forall|target: ParseItem| next.contains_key(target) == right.contains_key(target) by {
        if targets_upto(builder, grammar, item, k + 1, target) {
            let k1 = choose|k1: int|
                0 <= k1 < k + 1 && k1 < additions.len() && (#[trigger] additions[k1]).item
                    == target;
            if k1 < k {
                assert(targets_upto(builder, grammar, item, k, target));
            }
        }
        if targets_upto(builder, grammar, item, k, target) {
            let k1 = choose|k1: int|
                0 <= k1 < k && k1 < additions.len() && (#[trigger] additions[k1]).item == target;
            assert(0 <= k1 < k + 1 && additions[k1].item == target);
        }
        if target == addition.item {
            assert(0 <= k < k + 1 && additions[k].item == target);
        }
    }
    assert forall|target: ParseItem, t: Symbol|
        next.contains_key(target) implies next[target].contains(t) == right[target].contains(t) by {
        if brings_upto(builder, grammar, item, lookaheads, k + 1, target, t) {
            let k1 = choose|k1: int|
                0 <= k1 < k + 1 && k1 < additions.len() && (#[trigger] additions[k1]).item
                    == target && addition_tokens(
                    builder,
                    grammar,
                    item,
                    lookaheads,
                    additions[k1],
                ).contains(t);
            if k1 < k {
                assert(brings_upto(builder, grammar, item, lookaheads, k, target, t));
                lemma_brings_targets(builder, grammar, item, lookaheads, k, target, t);
            }
        }
        if brings_upto(builder, grammar, item, lookaheads, k, target, t) {
            let k1 = choose|k1: int|
                0 <= k1 < k && k1 < additions.len() && (#[trigger] additions[k1]).item == target
                    && addition_tokens(builder, grammar, item, lookaheads, additions[k1]).contains(
                    t,
                );
            assert(0 <= k1 < k + 1 && additions[k1].item == target);
        }
        if target == addition.item && tokens.contains(t) {
            assert(0 <= k < k + 1 && additions[k].item == target);
        }
    }
    assert(next =~~= right);
}

/// Nothing is put on top of an item set where there are no items.
pub proof fn lemma_with_items_start(set: Map<ParseItem, Set<Symbol>>, lookaheads: Set<Symbol>)
    ensures
        with_items(set, Seq::empty(), lookaheads) == set,
{
    assert(with_items(set, Seq::empty(), lookaheads) =~= set);
}

/// Inserting the next item puts it on top.
pub proof fn lemma_with_items_step(
    set: Map<ParseItem, Set<Symbol>>,
    items: Seq<ParseItem>,
    lookaheads: Set<Symbol>,
    x: int,
)
    requires
        0 <= x < items.len(),
    ensures
        with_items(set, items.take(x), lookaheads).insert(items[x], lookaheads) == with_items(
            set,
            items.take(x + 1),
            lookaheads,
        ),
{
    let shorter = items.take(x);
    let longer = items.take(x + 1);
    let left = with_items(set, shorter, lookaheads).insert(items[x], lookaheads);
    let right = with_items(set, longer, lookaheads);
    assert forall|target: ParseItem|
        longer.contains(target) == (shorter.contains(target) || target == items[x]) by {
        if longer.contains(target) {
            let k = choose|k: int| 0 <= k < longer.len() && longer[k] == target;
            if k < x {
                assert(shorter[k] == target);
            }
        }
        if shorter.contains(target) {
            let k = choose|k: int| 0 <= k < shorter.len() && shorter[k] == target;
            assert(longer[k] == target);
        }
        if target == items[x] {
            assert(longer[x] == target);
        }
    }
    assert(left =~= right);
}

/// Every item of a closure names a production that exists, where the
/// items of the kernel do.
pub proof fn lemma_closure_valid(
    builder: &ParseItemSetBuilder,
    grammar: &SyntaxGrammar,
    kernel: Seq<(ParseItem, Set<Symbol>)>,
    target: ParseItem,
)
    requires
        builder.wf(grammar),
        forall|i: int|
            0 <= i < kernel.len() ==> (#[trigger] kernel[i]).0.valid(grammar, &builder.inline_map()),
        closure(builder, grammar, kernel).contains_key(target),
    ensures
        target.valid(grammar, &builder.inline_map()),
{
    let inlines = builder.inline_map();
    let terminals = builder.terminal_count();
    let seed = last_seed(&inlines, kernel, kernel.len() as int, target);
    if seed >= 0 {
        lemma_last_seed(&inlines, kernel, kernel.len() as int, target);
        assert(kernel[seed].0.valid(grammar, &inlines));
        inlines.lemma_expansion_valid(grammar, terminals, kernel[seed].0);
        let expansion = inlines.expansion(kernel[seed].0);
        let x = choose|x: int| 0 <= x < expansion.len() && expansion[x] == target;
        assert(expansion[x].valid(grammar, &inlines));
    } else {
        let (i, x) = choose|i: int, x: int| #[trigger]
            hits(builder, grammar, kernel, i, x, target) && i < kernel.len();
        let item = work(&inlines, kernel, i, x);
        assert(kernel[i].0.valid(grammar, &inlines));
        inlines.lemma_expansion_valid(grammar, terminals, kernel[i].0);
        assert(inlines.expansion(kernel[i].0)[x].valid(grammar, &inlines));
        lemma_dot_symbol_registered(builder, grammar, item);
        let additions = dot_additions(builder, grammar, item);
        let k = choose|k: int| 0 <= k < additions.len() && (#[trigger] additions[k]).item == target;
        let symbol = item.next_symbol(grammar, &inlines).unwrap();
        assert(builder.additions()[symbol.index as int][k].item.valid(grammar, &inlines));
    }
}

/// The symbols behind the dot of an item that exists are symbols of the
/// grammar.
pub proof fn lemma_dot_symbol_registered(
    builder: &ParseItemSetBuilder,
    grammar: &SyntaxGrammar,
    item: ParseItem,
)
    requires
        builder.wf(grammar),
        item.valid(grammar, &builder.inline_map()),
    ensures
        forall|offset: int|
            0 <= offset ==> match #[trigger] item.symbol_after(
                grammar,
                &builder.inline_map(),
                offset,
            ) {
                Some(symbol) => grammar.registers(builder.terminal_count(), symbol),
                None => true,
            },
{
    let inlines = builder.inline_map();
    let terminals = builder.terminal_count();
    let production = item.spec_production(grammar, &inlines);
    if item.inlined {
        assert(inlines.inlined_productions@[item.production_index as int].wf(grammar, terminals));
    } else {
        assert(grammar.variables@[item.variable_index as int].wf(grammar, terminals));
        assert(grammar.variables@[item.variable_index as int].productions@[item.production_index as int].wf(
            grammar,
            terminals,
        ));
    }
    assert(production.wf(grammar, terminals));
    assert forall|offset: int| 0 <= offset implies match #[trigger] item.symbol_after(
        grammar,
        &inlines,
        offset,
    ) {
        Some(symbol) => grammar.registers(terminals, symbol),
        None => true,
    } by {
        if item.step_index + offset < production.steps@.len() {
            assert(grammar.registers(
                terminals,
                production.steps@[item.step_index + offset].symbol,
            ));
        }
    }
}

} // verus!

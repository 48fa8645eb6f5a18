use vstd::prelude::*;
use crate::symbol::Symbol;
use crate::lookahead::LookaheadSet;
use crate::grammar::{Production, ProductionStep, SyntaxGrammar};

verus! {

/// A production together with a dot position in it.  The production is
/// either a production of the grammar, named by its variable and its place
/// among that variable's productions, or an inlined production, named by
/// its place in the table of inlined productions.
#[derive(Clone, Copy, Debug, PartialEq, Eq, Hash, PartialOrd, Ord, Structural)]
pub struct ParseItem {
    pub inlined: bool,
    pub variable_index: usize,
    pub production_index: usize,
    pub step_index: usize,
}

/// The inline expansions that are known for a grammar: the productions that
/// inlining has created, and for each item that has to be expanded the
/// inlined productions that take its place.
#[derive(Debug)]
pub struct InlinedProductionMap {
    pub inlined_productions: Vec<Production>,
    pub item_map: Vec<InlinedItems>,
}

/// One entry of the expansion table: an item and the inlined productions
/// that replace it.
#[derive(Debug)]
pub struct InlinedItems {
    pub item: ParseItem,
    pub production_indices: Vec<usize>,
}

impl ParseItem {
    /// The item of production `production_index` of variable
    /// `variable_index`, with the dot before step `step_index`.
    pub open spec fn spec_normal(
        variable_index: usize,
        production_index: usize,
        step_index: usize,
    ) -> ParseItem {
        ParseItem { inlined: false, variable_index, production_index, step_index }
    }

    /// The item of inlined production `production_index`, which stands in a
    /// production of variable `variable_index`, with the dot before step
    /// `step_index`.
    pub open spec fn spec_inlined(
        variable_index: usize,
        production_index: usize,
        step_index: usize,
    ) -> ParseItem {
        ParseItem { inlined: true, variable_index, production_index, step_index }
    }

    /// The item of production `production_index` of variable
    /// `variable_index`, with the dot before step `step_index`.
    #[verifier::when_used_as_spec(spec_normal)]
    pub fn normal(variable_index: usize, production_index: usize, step_index: usize) -> (item:
        ParseItem)
        ensures
            item == ParseItem::spec_normal(variable_index, production_index, step_index),
    {
        ParseItem { inlined: false, variable_index, production_index, step_index }
    }

    /// The item of inlined production `production_index`, which stands in a
    /// production of variable `variable_index`, with the dot before step
    /// `step_index`.
    #[verifier::when_used_as_spec(spec_inlined)]
    pub fn inlined(variable_index: usize, production_index: usize, step_index: usize) -> (item:
        ParseItem)
        ensures
            item == ParseItem::spec_inlined(variable_index, production_index, step_index),
    {
        ParseItem { inlined: true, variable_index, production_index, step_index }
    }

    /// The order in which item sets keep their items: items of the
    /// grammar's productions before items of inlined productions, then by
    /// variable, by production and by dot position.
    pub open spec fn spec_precedes(&self, other: &ParseItem) -> bool {
        if self.inlined != other.inlined {
            !self.inlined
        } else if self.variable_index != other.variable_index {
            self.variable_index < other.variable_index
        } else if self.production_index != other.production_index {
            self.production_index < other.production_index
        } else {
            self.step_index < other.step_index
        }
    }

    /// Whether this item comes before `other` in the order of item sets.
    #[verifier::when_used_as_spec(spec_precedes)]
    pub fn precedes(&self, other: &ParseItem) -> (result: bool)
        ensures
            result == self.spec_precedes(other),
    {
        if self.inlined != other.inlined {
            !self.inlined
        } else if self.variable_index != other.variable_index {
            self.variable_index < other.variable_index
        } else if self.production_index != other.production_index {
            self.production_index < other.production_index
        } else {
            self.step_index < other.step_index
        }
    }

    /// The item names a production that exists.
    pub open spec fn valid(&self, grammar: &SyntaxGrammar, inlines: &InlinedProductionMap) -> bool {
        if self.inlined {
            self.production_index < inlines.inlined_productions@.len()
        } else {
            &&& self.variable_index < grammar.variables@.len()
            &&& self.production_index
                < grammar.variables@[self.variable_index as int].productions@.len()
        }
    }

    /// The production that the item is about.
    pub open spec fn spec_production(
        &self,
        grammar: &SyntaxGrammar,
        inlines: &InlinedProductionMap,
    ) -> Production {
        if self.inlined {
            inlines.inlined_productions@[self.production_index as int]
        } else {
            grammar.variables@[self.variable_index as int].productions@[self.production_index as int]
        }
    }

    /// The symbol `offset` steps behind the dot, if the production is that
    /// long.
    pub open spec fn symbol_after(
        &self,
        grammar: &SyntaxGrammar,
        inlines: &InlinedProductionMap,
        offset: int,
    ) -> Option<Symbol> {
        let steps = self.spec_production(grammar, inlines).steps@;
        if self.step_index + offset < steps.len() {
            Some(steps[self.step_index + offset].symbol)
        } else {
            None
        }
    }

    /// The symbol behind the dot.
    pub open spec fn next_symbol(
        &self,
        grammar: &SyntaxGrammar,
        inlines: &InlinedProductionMap,
    ) -> Option<Symbol> {
        self.symbol_after(grammar, inlines, 0)
    }

    /// The production that the item is about.
    pub fn production<'a>(
        &self,
        grammar: &'a SyntaxGrammar,
        inlines: &'a InlinedProductionMap,
    ) -> (production: &'a Production)
        requires
            self.valid(grammar, inlines),
        ensures
            *production == self.spec_production(grammar, inlines),
    {
        if self.inlined {
            &inlines.inlined_productions[self.production_index]
        } else {
            &grammar.variables[self.variable_index].productions[self.production_index]
        }
    }

    /// The step behind the dot, if the dot is not at the end.
    pub fn step<'a>(&self, grammar: &'a SyntaxGrammar, inlines: &'a InlinedProductionMap) -> (step:
        Option<&'a ProductionStep>)
        requires
            self.valid(grammar, inlines),
        ensures
            match step {
                Some(step) => self.next_symbol(grammar, inlines) == Some(step.symbol),
                None => self.next_symbol(grammar, inlines) is None,
            },
    {
        let production = self.production(grammar, inlines);
        if self.step_index < production.steps.len() {
            Some(&production.steps[self.step_index])
        } else {
            None
        }
    }
}

impl InlinedProductionMap {
    /// The item that takes the place of `item` where inlined production
    /// `production_index` replaces its production: it keeps the variable
    /// and the dot position.
    pub open spec fn substitute(item: ParseItem, production_index: usize) -> ParseItem {
        ParseItem {
            inlined: true,
            variable_index: item.variable_index,
            production_index,
            step_index: item.step_index,
        }
    }

    /// Entry `i` of the table is the first one for `item`.
    pub open spec fn first_entry_for(&self, item: ParseItem, i: int) -> bool {
        &&& 0 <= i < self.item_map@.len()
        &&& self.item_map@[i].item == item
        &&& forall|k: int| 0 <= k < i ==> (#[trigger] self.item_map@[k]).item != item
    }

    /// Whether `item` has to be expanded.
    pub open spec fn expands(&self, item: ParseItem) -> bool {
        exists|i: int| self.first_entry_for(item, i)
    }

    /// The items that replace `item`, in order, where it has to be
    /// expanded.
    pub open spec fn spec_inlined_items(&self, item: ParseItem) -> Option<Seq<ParseItem>> {
        if self.expands(item) {
            let i = choose|i: int| self.first_entry_for(item, i);
            Some(
                self.item_map@[i].production_indices@.map_values(
                    |production_index: usize| Self::substitute(item, production_index),
                ),
            )
        } else {
            None
        }
    }

    /// The items that are processed for `item`: its substitutes where it
    /// has to be expanded, the item itself where it has not.
    pub open spec fn expansion(&self, item: ParseItem) -> Seq<ParseItem> {
        match self.spec_inlined_items(item) {
            Some(items) => items,
            None => seq![item],
        }
    }

    /// The inlined productions refer only to symbols that the grammar
    /// registers, and the table refers only to inlined productions that
    /// exist.
    pub open spec fn wf(&self, grammar: &SyntaxGrammar, terminals: nat) -> bool {
        &&& forall|q: int|
            0 <= q < self.inlined_productions@.len() ==> (#[trigger] self.inlined_productions@[q]).wf(
                grammar,
                terminals,
            )
        &&& forall|i: int, k: int|
            0 <= i < self.item_map@.len() && 0 <= k < self.item_map@[i].production_indices@.len()
                ==> #[trigger] self.item_map@[i].production_indices@[k]
                < self.inlined_productions@.len()
    }

    /// A table without expansions.
    pub fn new() -> (map: InlinedProductionMap)
        ensures
            map.inlined_productions@.len() == 0,
            map.item_map@.len() == 0,
            forall|item: ParseItem| !map.expands(item),
    {
        InlinedProductionMap { inlined_productions: Vec::new(), item_map: Vec::new() }
    }

    /// The items that replace `item`, or `None` where `item` stands as it
    /// is.
    pub fn inlined_items(&self, item: ParseItem) -> (result: Option<Vec<ParseItem>>)
        ensures
            match result {
                Some(items) => self.spec_inlined_items(item) == Some(items@),
                None => self.spec_inlined_items(item) is None,
            },
    {
        let mut i: usize = 0;
        while i < self.item_map.len()
            invariant
                i <= self.item_map.len(),
                forall|k: int| 0 <= k < i ==> (#[trigger] self.item_map@[k]).item != item,
            decreases self.item_map.len() - i,
        {
            if self.item_map[i].item == item {
                proof {
                    assert(self.first_entry_for(item, i as int));
                    let chosen = choose|c: int| self.first_entry_for(item, c);
                    assert(chosen == i);
                }
                let indices = &self.item_map[i].production_indices;
                let mut items: Vec<ParseItem> = Vec::new();
                let mut k: usize = 0;
                while k < indices.len()
                    invariant
                        k <= indices.len(),
                        items@.len() == k,
                        forall|j: int|
                            0 <= j < k ==> #[trigger] items@[j] == Self::substitute(
                                item,
                                indices@[j],
                            ),
                    decreases indices.len() - k,
                {
                    items.push(ParseItem::inlined(item.variable_index, indices[k], item.step_index));
                    k += 1;
                }
                assert(items@ =~= indices@.map_values(
                    |production_index: usize| Self::substitute(item, production_index),
                ));
                return Some(items);
            }
            i += 1;
        }
        proof {
            assert forall|c: int| !self.first_entry_for(item, c) by {}
        }
        None
    }

    /// Every item of an expansion is valid, where the item itself is.
    pub proof fn lemma_expansion_valid(&self, grammar: &SyntaxGrammar, terminals: nat, item: ParseItem)
        requires
            self.wf(grammar, terminals),
            item.valid(grammar, self),
        ensures
            forall|k: int|
                0 <= k < self.expansion(item).len() ==> (#[trigger] self.expansion(item)[k]).valid(
                    grammar,
                    self,
                ),
    {
        if self.expands(item) {
            let i = choose|i: int| self.first_entry_for(item, i);
            assert forall|k: int| 0 <= k < self.expansion(item).len() implies (
            #[trigger] self.expansion(item)[k]).valid(grammar, self) by {
                assert(self.item_map@[i].production_indices@[k] < self.inlined_productions@.len());
            }
        }
    }
}

/// One entry of an item set.
#[derive(Debug)]
pub struct ParseItemSetEntry {
    pub item: ParseItem,
    pub lookaheads: LookaheadSet,
}

/// A mapping from items to lookahead sets, kept as a list of entries in
/// the order of their items.  The order in which the entries were made
/// leaves no trace.
#[derive(Debug)]
pub struct ParseItemSet {
    pub entries: Vec<ParseItemSetEntry>,
}

impl View for ParseItemSet {
    type V = Map<ParseItem, Set<Symbol>>;

    open spec fn view(&self) -> Map<ParseItem, Set<Symbol>> {
        Map::new(
            |item: ParseItem| self.has(item),
            |item: ParseItem| self.entries@[self.index_of(item)].lookaheads@,
        )
    }
}

impl ParseItemSet {
    /// The entries stand in the order of their items, so that no item
    /// occurs twice.
    pub open spec fn wf(&self) -> bool {
        forall|i: int, j: int|
            0 <= i < j < self.entries@.len() ==> (#[trigger] self.entries@[i]).item.spec_precedes(
                &(#[trigger] self.entries@[j]).item,
            )
    }

    /// Whether the set has an entry for `item`.
    pub open spec fn has(&self, item: ParseItem) -> bool {
        exists|i: int| 0 <= i < self.entries@.len() && (#[trigger] self.entries@[i]).item == item
    }

    /// The place of the entry for `item`.
    pub open spec fn index_of(&self, item: ParseItem) -> int {
        choose|i: int| 0 <= i < self.entries@.len() && (#[trigger] self.entries@[i]).item == item
    }

    /// The entries in their order, each as an item with its set of tokens.
    pub open spec fn kernel(&self) -> Seq<(ParseItem, Set<Symbol>)> {
        self.entries@.map_values(|entry: ParseItemSetEntry| (entry.item, entry.lookaheads@))
    }

    /// The empty item set.
    pub fn new() -> (set: ParseItemSet)
        ensures
            set.wf(),
            set.entries@.len() == 0,
            set@ == Map::<ParseItem, Set<Symbol>>::empty(),
    {
        let set = ParseItemSet { entries: Vec::new() };
        assert(set@ =~= Map::<ParseItem, Set<Symbol>>::empty());
        set
    }

    /// The number of entries.
    pub fn len(&self) -> (len: usize)
        ensures
            len == self.entries@.len(),
    {
        self.entries.len()
    }

    /// The place where the entry for `item` stands or would stand: every
    /// entry before it has an item that precedes `item`, and no other
    /// has.
    pub fn search(&self, item: &ParseItem) -> (place: usize)
        requires
            self.wf(),
        ensures
            place <= self.entries@.len(),
            forall|k: int| 0 <= k < place ==> (#[trigger] self.entries@[k]).item.spec_precedes(item),
            forall|k: int|
                place <= k < self.entries@.len() ==> !(#[trigger] self.entries@[k]).item.spec_precedes(
                    item,
                ),
    {
        let mut low: usize = 0;
        let mut high: usize = self.entries.len();
        while low < high
            invariant
                low <= high <= self.entries@.len(),
                self.wf(),
                forall|k: int|
                    0 <= k < low ==> (#[trigger] self.entries@[k]).item.spec_precedes(item),
                forall|k: int|
                    high <= k < self.entries@.len() ==> !(#[trigger] self.entries@[k]).item.spec_precedes(
                        item,
                    ),
            decreases high - low,
        {
            let mid: usize = low + (high - low) / 2;
            if self.entries[mid].item.precedes(item) {
                assert forall|k: int| 0 <= k < mid + 1 implies (#[trigger] self.entries@[k]).item.spec_precedes(
                    item,
                ) by {
                    if k < mid {
                        assert(self.entries@[k].item.spec_precedes(&self.entries@[mid as int].item));
                    }
                }
                low = mid + 1;
            } else {
                assert forall|k: int| mid <= k < self.entries@.len() implies !(
                #[trigger] self.entries@[k]).item.spec_precedes(item) by {
                    if k > mid {
                        assert(self.entries@[mid as int].item.spec_precedes(&self.entries@[k].item));
                    }
                }
                high = mid;
            }
        }
        low
    }

    /// The place of the entry for `item`, if there is one.
    pub fn position(&self, item: &ParseItem) -> (result: Option<usize>)
        requires
            self.wf(),
        ensures
            match result {
                Some(i) => i < self.entries@.len() && self.entries@[i as int].item == *item,
                None => !self.has(*item),
            },
    {
        let place = self.search(item);
        if place < self.entries.len() && self.entries[place].item == *item {
            Some(place)
        } else {
            proof {
                assert forall|k: int| 0 <= k < self.entries@.len() implies (
                #[trigger] self.entries@[k]).item != *item by {
                    if k > place {
                        assert(self.entries@[place as int].item.spec_precedes(
                            &self.entries@[k].item,
                        ));
                    }
                }
            }
            None
        }
    }

    /// The lookahead set of `item`, if the set has an entry for it.
    pub fn get(&self, item: &ParseItem) -> (result: Option<&LookaheadSet>)
        requires
            self.wf(),
        ensures
            match result {
                Some(lookaheads) => self@.contains_key(*item) && self@[*item] == lookaheads@,
                None => !self@.contains_key(*item),
            },
    {
        match self.position(item) {
            Some(i) => {
                proof {
                    self.lemma_entry(i as int);
                }
                Some(&self.entries[i].lookaheads)
            },
            None => None,
        }
    }

    /// Entry `i` is the entry of its item.
    pub proof fn lemma_entry(&self, i: int)
        requires
            self.wf(),
            0 <= i < self.entries@.len(),
        ensures
            self.has(self.entries@[i].item),
            self.index_of(self.entries@[i].item) == i,
            self@.contains_key(self.entries@[i].item),
            self@[self.entries@[i].item] == self.entries@[i].lookaheads@,
    {
        let item = self.entries@[i].item;
        assert(self.has(item));
        let j = self.index_of(item);
        if i < j {
            assert(self.entries@[i].item.spec_precedes(&self.entries@[j].item));
        }
        if j < i {
            assert(self.entries@[j].item.spec_precedes(&self.entries@[i].item));
        }
    }

    /// Sets the lookahead set of `item`, replacing the entry that the set
    /// has for it or making one.
    pub fn insert(&mut self, item: ParseItem, lookaheads: LookaheadSet)
        requires
            old(self).wf(),
        ensures
            final(self).wf(),
            final(self)@ == old(self)@.insert(item, lookaheads@),
    {
        let place = self.search(&item);
        if place < self.entries.len() && self.entries[place].item == item {
            proof {
                self.lemma_entry(place as int);
            }
            self.entries.set(place, ParseItemSetEntry { item, lookaheads });
            proof {
                Self::lemma_view_after_update(*old(self), *self, place as int);
            }
        } else {
            self.entries.insert(place, ParseItemSetEntry { item, lookaheads });
            proof {
                Self::lemma_view_after_insert(*old(self), *self, place as int);
            }
        }
    }

    /// Adds the tokens of `lookaheads` to the lookahead set of `item`,
    /// which starts out empty where the set has no entry for the item.
    pub fn merge(&mut self, item: ParseItem, lookaheads: &LookaheadSet)
        requires
            old(self).wf(),
        ensures
            final(self).wf(),
            final(self)@ == old(self)@.insert(
                item,
                if old(self)@.contains_key(item) {
                    old(self)@[item].union(lookaheads@)
                } else {
                    lookaheads@
                },
            ),
    {
        let place = self.search(&item);
        if place < self.entries.len() && self.entries[place].item == item {
            proof {
                self.lemma_entry(place as int);
            }
            let entry = &mut self.entries[place];
            entry.lookaheads.insert_all(lookaheads);
            proof {
                Self::lemma_view_after_update(*old(self), *self, place as int);
            }
        } else {
            let copy = lookaheads.clone();
            self.entries.insert(place, ParseItemSetEntry { item, lookaheads: copy });
            proof {
                Self::lemma_view_after_insert(*old(self), *self, place as int);
                assert(!old(self).has(item));
            }
        }
    }

    /// Replacing the lookaheads of entry `i` sets the lookaheads of its item
    /// and keeps the order.
    proof fn lemma_view_after_update(before: ParseItemSet, after: ParseItemSet, i: int)
        requires
            before.wf(),
            0 <= i < before.entries@.len(),
            after.entries@.len() == before.entries@.len(),
            after.entries@[i].item == before.entries@[i].item,
            forall|k: int|
                0 <= k < before.entries@.len() && k != i ==> #[trigger] after.entries@[k]
                    == before.entries@[k],
        ensures
            after.wf(),
            after@ == before@.insert(after.entries@[i].item, after.entries@[i].lookaheads@),
    {
        assert forall|a: int, b: int| 0 <= a < b < after.entries@.len() implies (
        #[trigger] after.entries@[a]).item.spec_precedes(&(#[trigger] after.entries@[b]).item) by {
            assert(before.entries@[a].item.spec_precedes(&before.entries@[b].item));
        }
        let item = after.entries@[i].item;
        let target = before@.insert(item, after.entries@[i].lookaheads@);
        assert forall|x: ParseItem| after@.contains_key(x) == target.contains_key(x) by {
            if after.has(x) {
                let k = after.index_of(x);
                assert(before.entries@[k].item == x);
            }
            if before.has(x) {
                let k = before.index_of(x);
                assert(after.entries@[k].item == x);
            }
            if x == item {
                assert(after.entries@[i].item == x);
            }
        }
        assert forall|x: ParseItem| after@.contains_key(x) implies after@[x] == target[x] by {
            let k = after.index_of(x);
            after.lemma_entry(k);
            if k != i {
                before.lemma_entry(k);
            }
        }
        assert(after@ =~= target);
    }

    /// Putting a new entry at the place of its item makes an entry for that
    /// item and keeps the order.
    proof fn lemma_view_after_insert(before: ParseItemSet, after: ParseItemSet, i: int)
        requires
            before.wf(),
            0 <= i <= before.entries@.len(),
            after.entries@.len() == before.entries@.len() + 1,
            forall|k: int| 0 <= k < i ==> #[trigger] after.entries@[k] == before.entries@[k],
            forall|k: int|
                i <= k < before.entries@.len() ==> #[trigger] before.entries@[k]
                    == after.entries@[k + 1],
            forall|k: int|
                0 <= k < i ==> (#[trigger] before.entries@[k]).item.spec_precedes(
                    &after.entries@[i].item,
                ),
            forall|k: int|
                i <= k < before.entries@.len() ==> !(#[trigger] before.entries@[k]).item.spec_precedes(
                    &after.entries@[i].item,
                ) && before.entries@[k].item != after.entries@[i].item,
        ensures
            after.wf(),
            !before.has(after.entries@[i].item),
            after@ == before@.insert(after.entries@[i].item, after.entries@[i].lookaheads@),
    {
        let item = after.entries@[i].item;
        assert forall|a: int, b: int| 0 <= a < b < after.entries@.len() implies (
        #[trigger] after.entries@[a]).item.spec_precedes(&(#[trigger] after.entries@[b]).item) by {
            if b < i {
                assert(before.entries@[a].item.spec_precedes(&before.entries@[b].item));
            } else if b == i {
                assert(before.entries@[a].item.spec_precedes(&item));
            } else if a < i {
                assert(before.entries@[a].item.spec_precedes(&before.entries@[b - 1].item));
            } else if a == i {
                assert(!before.entries@[b - 1].item.spec_precedes(&item));
            } else {
                assert(before.entries@[a - 1].item.spec_precedes(&before.entries@[b - 1].item));
            }
        }
        assert(!before.has(item)) by {
            if before.has(item) {
                let k = before.index_of(item);
                assert(before.entries@[k].item == item);
            }
        }
        let target = before@.insert(item, after.entries@[i].lookaheads@);
        assert forall|x: ParseItem| after@.contains_key(x) == target.contains_key(x) by {
            if after.has(x) {
                let k = after.index_of(x);
                if k < i {
                    assert(before.entries@[k].item == x);
                } else if k > i {
                    assert(before.entries@[k - 1].item == x);
                }
            }
            if before.has(x) {
                let k = before.index_of(x);
                if k < i {
                    assert(after.entries@[k].item == x);
                } else {
                    assert(after.entries@[k + 1].item == x);
                }
            }
            if x == item {
                assert(after.entries@[i].item == x);
            }
        }
        assert forall|x: ParseItem| after@.contains_key(x) implies after@[x] == target[x] by {
            let k = after.index_of(x);
            after.lemma_entry(k);
            if k < i {
                before.lemma_entry(k);
            } else if k > i {
                before.lemma_entry(k - 1);
            }
        }
        assert(after@ =~= target);
    }

    /// Item sets that hold the same items with the same lookaheads hold
    /// the same entries in the same order.
    pub proof fn lemma_same_kernel(&self, other: &ParseItemSet)
        requires
            self.wf(),
            other.wf(),
            self@ == other@,
        ensures
            self.kernel() == other.kernel(),
    {
        self.lemma_same_items(other, self.entries@.len() as int);
        other.lemma_same_items(self, other.entries@.len() as int);
        assert forall|i: int| 0 <= i < self.entries@.len() implies self.kernel()[i]
            == other.kernel()[i] by {
            self.lemma_entry(i);
            other.lemma_entry(i);
        }
        assert(self.kernel() =~= other.kernel());
    }

    /// Up to place `upto`, two item sets with the same items hold them at
    /// the same places.
    proof fn lemma_same_items(&self, other: &ParseItemSet, upto: int)
        requires
            self.wf(),
            other.wf(),
            self@ == other@,
            0 <= upto <= self.entries@.len(),
        ensures
            upto <= other.entries@.len(),
            forall|i: int|
                0 <= i < upto ==> (#[trigger] self.entries@[i]).item == other.entries@[i].item,
        decreases upto,
    {
        if upto > 0 {
            let i = upto - 1;
            self.lemma_same_items(other, i);
            let item = self.entries@[i].item;
            self.lemma_entry(i);
            assert(other@.contains_key(item));
            let j = other.index_of(item);
            if j < i {
                assert(self.entries@[j].item == other.entries@[j].item);
                assert(self.entries@[j].item.spec_precedes(&self.entries@[i].item));
            }
            if j > i {
                let between = other.entries@[i].item;
                other.lemma_entry(i);
                assert(self@.contains_key(between));
                let k = self.index_of(between);
                assert(other.entries@[i].item.spec_precedes(&other.entries@[j].item));
                if k < i {
                    assert(self.entries@[k].item == other.entries@[k].item);
                    assert(other.entries@[k].item.spec_precedes(&other.entries@[i].item));
                } else if k > i {
                    assert(self.entries@[i].item.spec_precedes(&self.entries@[k].item));
                }
            }
            assert(j == i);
        }
    }
}

} // verus!

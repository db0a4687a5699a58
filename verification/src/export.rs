//! What a vector document of a finished search holds: one symbol for each
//! vector source that a placement uses, numbered as the sources are first
//! used, and one reference to its symbol for each placement, in the order of
//! the placements.

use vstd::prelude::*;
use std::collections::HashMap;
use crate::placement::Placement;

verus! {

broadcast use vstd::std_specs::hash::group_hash_axioms;

/// The sources of the placements, in their order.
pub open spec fn sources_of(history: Seq<Placement>) -> Seq<usize> {
    Seq::new(history.len(), |i: int| history[i].source)
}

/// The values of `sources` without repetition, each where it first occurs.
pub open spec fn distinct(sources: Seq<usize>) -> Seq<usize>
    decreases sources.len(),
{
    if sources.len() == 0 {
        Seq::empty()
    } else {
        let before = distinct(sources.drop_last());
        if before.contains(sources.last()) {
            before
        } else {
            before.push(sources.last())
        }
    }
}

/// `sources[i]` does not occur before `i`.
pub open spec fn first_use(sources: Seq<usize>, i: int) -> bool {
    forall|j: int| 0 <= j < i ==> sources[j] != sources[i]
}

/// `distinct` holds what `sources` holds, each value once.
pub proof fn lemma_distinct(sources: Seq<usize>)
    ensures
        distinct(sources).no_duplicates(),
        distinct(sources).len() <= sources.len(),
        forall|v: usize| distinct(sources).contains(v) <==> sources.contains(v),
    decreases sources.len(),
{
    if sources.len() > 0 {
        let front = sources.drop_last();
        let last = sources.last();
        lemma_distinct(front);
        let before = distinct(front);
        assert forall|v: usize| distinct(sources).contains(v) <==> sources.contains(v) by {
            if sources.contains(v) {
                let i = choose|i: int| 0 <= i < sources.len() && sources[i] == v;
                if i < front.len() {
                    assert(front[i] == v);
                    assert(front.contains(v));
                    assert(before.contains(v));
                    let k = choose|k: int| 0 <= k < before.len() && before[k] == v;
                    assert(distinct(sources)[k] == v);
                } else {
                    if !before.contains(last) {
                        assert(distinct(sources)[before.len() as int] == v);
                    }
                }
            }
            if distinct(sources).contains(v) {
                let k = choose|k: int| 0 <= k < distinct(sources).len() && distinct(sources)[k] == v;
                if k < before.len() {
                    assert(before[k] == v);
                    assert(before.contains(v));
                    assert(front.contains(v));
                    let i = choose|i: int| 0 <= i < front.len() && front[i] == v;
                    assert(sources[i] == v);
                } else {
                    assert(sources[sources.len() - 1] == v);
                }
            }
        }
    }
}

/// Symbols are numbered as their sources are first used: the values that
/// `distinct` gives for the first `n` sources come first, in the same order,
/// in what it gives for all of them.
pub proof fn lemma_distinct_grows(sources: Seq<usize>, n: int)
    requires
        0 <= n <= sources.len(),
    ensures
        distinct(sources.take(n)).len() <= distinct(sources).len(),
        forall|k: int|
            0 <= k < distinct(sources.take(n)).len() ==> distinct(sources)[k] == #[trigger] distinct(
                sources.take(n),
            )[k],
    decreases sources.len(),
{
    if n == sources.len() {
        assert(sources.take(n) =~= sources);
    } else {
        let front = sources.drop_last();
        assert(front.take(n) =~= sources.take(n));
        lemma_distinct_grows(front, n);
    }
}

/// The symbol of a source that is used for the first time: the number of
/// distinct sources used before.
pub proof fn lemma_first_use_is_next_symbol(sources: Seq<usize>, i: int)
    requires
        0 <= i < sources.len(),
        first_use(sources, i),
    ensures
        distinct(sources.take(i)).len() < distinct(sources).len(),
        distinct(sources)[distinct(sources.take(i)).len() as int] == sources[i],
{
    let upto = sources.take(i + 1);
    assert(upto.drop_last() =~= sources.take(i));
    assert(upto.last() == sources[i]);
    lemma_distinct(sources.take(i));
    if sources.take(i).contains(sources[i]) {
        let j = choose|j: int| 0 <= j < i && sources.take(i)[j] == sources[i];
        assert(sources[j] == sources[i]);
    }
    assert(distinct(upto) == distinct(sources.take(i)).push(sources[i]));
    lemma_distinct_grows(sources, i + 1);
    let at = distinct(sources.take(i)).len() as int;
    assert(distinct(upto)[at] == sources[i]);
}

/// The reference of one placement to its symbol.
#[derive(Clone, Copy, Debug, PartialEq, Eq, Structural)]
pub struct Reference {
    /// The number of the symbol.
    pub symbol: usize,
    /// This is the first reference to the symbol, which is to be defined
    /// before it.
    pub defines: bool,
    /// The placement that refers to the symbol.
    pub placement: Placement,
}

/// The symbols and references of a vector document.
pub struct Plan {
    /// The source of each symbol, by the symbol's number.
    pub symbols: Vec<usize>,
    /// One reference for each placement, in the order of the placements.
    pub references: Vec<Reference>,
}

/// `reference` is the reference of placement `i` of `history`, with symbols
/// numbered as `symbols` lists their sources.
pub open spec fn refers(
    reference: Reference,
    symbols: Seq<usize>,
    history: Seq<Placement>,
    i: int,
) -> bool {
    &&& reference.placement == history[i]
    &&& reference.symbol < symbols.len()
    &&& symbols[reference.symbol as int] == history[i].source
    &&& reference.defines == first_use(sources_of(history), i)
}

impl Plan {
    /// The plan is that for `history`: one symbol for each distinct source,
    /// numbered as the sources are first used, and for each placement a
    /// reference to the symbol of its source.
    pub open spec fn is_for(self, history: Seq<Placement>) -> bool {
        &&& self.symbols@ == distinct(sources_of(history))
        &&& self.references@.len() == history.len()
        &&& forall|i: int|
            0 <= i < history.len() ==> refers(#[trigger] self.references@[i], self.symbols@, history, i)
    }
}

/// The plan of the vector document for `history`: a symbol for each source
/// when a placement first uses it, and a reference for each placement.
pub fn plan(history: &Vec<Placement>) -> (plan: Plan)
    ensures
        plan.is_for(history@),
{
    let ghost sources = sources_of(history@);
    let mut symbols: Vec<usize> = Vec::new();
    let mut references: Vec<Reference> = Vec::new();
    let mut numbers: HashMap<usize, usize> = HashMap::new();
    let mut i: usize = 0;
    assert(sources.take(0) =~= Seq::<usize>::empty());
    while i < history.len()
        invariant
            i <= history.len(),
            sources == sources_of(history@),
            symbols@ == distinct(sources.take(i as int)),
            references@.len() == i,
            forall|k: int|
                0 <= k < symbols@.len() ==> numbers@.contains_key(#[trigger] symbols@[k])
                    && numbers@[symbols@[k]] == k,
            forall|v: usize| numbers@.contains_key(v) ==> symbols@.contains(v),
            forall|j: int|
                0 <= j < i ==> refers(#[trigger] references@[j], symbols@, history@, j),
        decreases history.len() - i,
    {
        let placement = history[i];
        let source: usize = placement.source;
        let ghost upto = sources.take(i + 1);
        proof {
            assert(upto.drop_last() =~= sources.take(i as int));
            assert(upto.last() == source);
            lemma_distinct(sources.take(i as int));
            lemma_distinct(upto);
            let earlier = sources.take(i as int);
            assert(symbols@.contains(source) <==> earlier.contains(source));
            if first_use(sources, i as int) {
                if earlier.contains(source) {
                    let j = choose|j: int| 0 <= j < earlier.len() && earlier[j] == source;
                    assert(sources[j] == sources[i as int]);
                    assert(false);
                }
            } else {
                let j = choose|j: int| 0 <= j < i && sources[j] == sources[i as int];
                assert(earlier[j] == source);
                assert(earlier.contains(source));
            }
            assert(first_use(sources, i as int) <==> !symbols@.contains(source));
        }
        let known: Option<&usize> = numbers.get(&source);
        let reference = match known {
            Some(number) => Reference { symbol: *number, defines: false, placement },
            None => {
                let number: usize = symbols.len();
                assert(number < upto.len() <= history.len());
                let ghost before = symbols@;
                symbols.push(source);
                numbers.insert(source, number);
                assert forall|k: int| 0 <= k < symbols@.len() implies numbers@.contains_key(
                    #[trigger] symbols@[k],
                ) && numbers@[symbols@[k]] == k by {
                    if k < before.len() {
                        assert(before[k] == symbols@[k]);
                        assert(before.contains(before[k]));
                    }
                }
                assert forall|v: usize| numbers@.contains_key(v) implies symbols@.contains(v) by {
                    if v == source {
                        assert(symbols@[number as int] == v);
                    } else {
                        assert(before.contains(v));
                        let k = choose|k: int| 0 <= k < before.len() && before[k] == v;
                        assert(symbols@[k] == v);
                    }
                }
                assert forall|j: int| 0 <= j < i implies refers(
                    #[trigger] references@[j],
                    symbols@,
                    history@,
                    j,
                ) by {
                    assert(refers(references@[j], before, history@, j));
                    assert(symbols@[references@[j].symbol as int] == before[references@[
                        j
                    ].symbol as int]);
                }
                Reference { symbol: number, defines: true, placement }
            },
        };
        references.push(reference);
        i = i + 1;
    }
    assert(sources.take(i as int) =~= sources);
    Plan { symbols, references }
}

} // verus!

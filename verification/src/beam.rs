//! The frontier of one search depth: the states kept for expansion, ranked
//! by their heuristic score and bounded in number.
//!
//! The ranking is a `min_max_heap::MinMaxHeap` of `(score, index)` pairs;
//! the states themselves stand in a vector, found again by index. The heap
//! is not verified here: the functions that call into it state what its
//! documentation promises, over the multiset of pairs it holds.
use vstd::prelude::*;
use vstd::multiset::Multiset;
use min_max_heap::MinMaxHeap;
use crate::search_state::SearchState;

verus! {

/// `min_max_heap::MinMaxHeap`, carried through opaquely.
#[verifier::external_type_specification]
#[verifier::external_body]
#[verifier::reject_recursive_types(T)]
pub struct ExMinMaxHeap<T>(MinMaxHeap<T>);

/// The pairs a `min_max_heap::MinMaxHeap` holds, each as often as it was
/// pushed and not yet popped.
pub uninterp spec fn heap_items(heap: MinMaxHeap<(i64, usize)>) -> Multiset<(i64, usize)>;

/// The order of pairs: by score, then by index.
pub open spec fn ranked_le(a: (i64, usize), b: (i64, usize)) -> bool {
    a.0 < b.0 || (a.0 == b.0 && a.1 <= b.1)
}

/// Of the pairs offered, `item` is held fewer times among the pairs kept:
/// it was given up at least once.
pub open spec fn given_up(
    offered: Multiset<(i64, usize)>,
    kept: Multiset<(i64, usize)>,
    item: (i64, usize),
) -> bool {
    kept.count(item) < offered.count(item)
}

/// `item` ranks highest among the pairs kept.
pub open spec fn is_top(kept: Multiset<(i64, usize)>, item: (i64, usize)) -> bool {
    kept.contains(item) && forall|other: (i64, usize)| #[trigger]
        kept.contains(other) ==> ranked_le(other, item)
}

/// `item` ranks lowest among the pairs kept.
pub open spec fn is_least(kept: Multiset<(i64, usize)>, item: (i64, usize)) -> bool {
    kept.contains(item) && forall|other: (i64, usize)| #[trigger]
        kept.contains(other) ==> ranked_le(item, other)
}

/// The pair that ranks highest among the pairs kept.
pub open spec fn top_pair(kept: Multiset<(i64, usize)>) -> (i64, usize) {
    choose|item: (i64, usize)| is_top(kept, item)
}

/// The pair that ranks lowest among the pairs kept.
pub open spec fn least_pair(kept: Multiset<(i64, usize)>) -> (i64, usize) {
    choose|item: (i64, usize)| is_least(kept, item)
}

/// The pairs left once the lowest-ranked have been given up, one after the
/// other, until no more than `width` are kept.
pub open spec fn evicted(kept: Multiset<(i64, usize)>, width: nat) -> Multiset<(i64, usize)>
    decreases kept.len(),
{
    if kept.len() > width && kept.contains(least_pair(kept)) {
        evicted(kept.remove(least_pair(kept)), width)
    } else {
        kept
    }
}

/// A frontier as mathematics: every state it was ever offered, in order,
/// and the pairs of score and index of the states still kept.
pub struct Frontier {
    pub states: Seq<SearchState>,
    pub kept: Multiset<(i64, usize)>,
}

impl Frontier {
    /// The frontier that was offered nothing.
    pub open spec fn empty() -> Frontier {
        Frontier { states: Seq::empty(), kept: Multiset::empty() }
    }

    /// The highest-ranked state kept: the one with the highest score, and
    /// among states of that score the one offered last.
    pub open spec fn top(self) -> SearchState {
        self.states[top_pair(self.kept).1 as int]
    }

    /// The frontier with its highest-ranked state taken out.
    pub open spec fn without_top(self) -> Frontier {
        Frontier { states: self.states, kept: self.kept.remove(top_pair(self.kept)) }
    }

    /// The frontier after `state` was offered to it at the given width.
    pub open spec fn pushed(self, state: SearchState, width: nat) -> Frontier {
        Frontier {
            states: self.states.push(state),
            kept: evicted(self.kept.insert((state.search_score, self.states.len() as usize)), width),
        }
    }
}

/// The pair that ranks highest, and the pair that ranks lowest, are the
/// only ones that do.
pub proof fn lemma_extremes_unique(kept: Multiset<(i64, usize)>, item: (i64, usize))
    ensures
        is_top(kept, item) ==> top_pair(kept) == item,
        is_least(kept, item) ==> least_pair(kept) == item,
{
    if is_top(kept, item) {
        let other = top_pair(kept);
        assert(is_top(kept, other));
        assert(ranked_le(other, item) && ranked_le(item, other));
    }
    if is_least(kept, item) {
        let other = least_pair(kept);
        assert(is_least(kept, other));
        assert(ranked_le(other, item) && ranked_le(item, other));
    }
}

/// `min_max_heap::MinMaxHeap::new`: a new heap holds nothing.
#[verifier::external_body]
fn heap_new() -> (heap: MinMaxHeap<(i64, usize)>)
    ensures
        heap_items(heap) == Multiset::<(i64, usize)>::empty(),
{
    MinMaxHeap::new()
}

/// `min_max_heap::MinMaxHeap::len`: the number of pairs held.
#[verifier::external_body]
fn heap_len(heap: &MinMaxHeap<(i64, usize)>) -> (r: usize)
    ensures
        r == heap_items(*heap).len(),
{
    heap.len()
}

/// `min_max_heap::MinMaxHeap::push`: afterwards the heap holds the pair beside what it
/// held.
#[verifier::external_body]
fn heap_push(heap: &mut MinMaxHeap<(i64, usize)>, item: (i64, usize))
    ensures
        heap_items(*final(heap)) == heap_items(*old(heap)).insert(item),
{
    heap.push(item)
}

/// `min_max_heap::MinMaxHeap::pop_max`: nothing comes out of an empty heap; otherwise a
/// pair that no pair held exceeds comes out and is held once less.
#[verifier::external_body]
fn heap_pop_max(heap: &mut MinMaxHeap<(i64, usize)>) -> (r: Option<(i64, usize)>)
    ensures
        r is None ==> heap_items(*old(heap)).len() == 0 && heap_items(*final(heap)) == heap_items(
            *old(heap),
        ),
        r is Some ==> heap_items(*old(heap)).contains(r->0) && heap_items(*final(heap))
            == heap_items(*old(heap)).remove(r->0),
        r is Some ==> forall|other: (i64, usize)|
            heap_items(*old(heap)).contains(other) ==> ranked_le(other, r->0),
{
    heap.pop_max()
}

/// `min_max_heap::MinMaxHeap::pop_min`: nothing comes out of an empty heap; otherwise a
/// pair that exceeds no pair held comes out and is held once less.
#[verifier::external_body]
fn heap_pop_min(heap: &mut MinMaxHeap<(i64, usize)>) -> (r: Option<(i64, usize)>)
    ensures
        r is None ==> heap_items(*old(heap)).len() == 0 && heap_items(*final(heap)) == heap_items(
            *old(heap),
        ),
        r is Some ==> heap_items(*old(heap)).contains(r->0) && heap_items(*final(heap))
            == heap_items(*old(heap)).remove(r->0),
        r is Some ==> forall|other: (i64, usize)|
            heap_items(*old(heap)).contains(other) ==> ranked_le(r->0, other),
{
    heap.pop_min()
}

pub struct Beam {
    heap: MinMaxHeap<(i64, usize)>,
    states: Vec<SearchState>,
}

impl View for Beam {
    type V = Frontier;

    open spec fn view(&self) -> Frontier {
        Frontier { states: self.states(), kept: self.kept() }
    }
}

impl Beam {
    /// Every state ever pushed, in pushing order.
    pub closed spec fn states(&self) -> Seq<SearchState> {
        self.states@
    }

    /// The states still kept, each as its score and its index in `states`.
    pub closed spec fn kept(&self) -> Multiset<(i64, usize)> {
        heap_items(self.heap)
    }

    /// The highest-ranked state kept: the one with the highest score, and
    /// among states of that score the one pushed last.
    pub open spec fn top(&self) -> SearchState {
        let item = choose|item: (i64, usize)| is_top(self.kept(), item);
        self.states()[item.1 as int]
    }

    /// Every kept pair names a pushed state and carries its score.
    pub open spec fn wf(&self) -> bool {
        forall|item: (i64, usize)| #[trigger]
            self.kept().contains(item) ==> item.1 < self.states().len()
                && self.states()[item.1 as int].search_score == item.0
    }

    pub fn new() -> (r: Beam)
        ensures
            r.wf(),
            r@ == Frontier::empty(),
            r.states().len() == 0,
            r.kept().len() == 0,
    {
        let r = Beam { heap: heap_new(), states: Vec::new() };
        assert(r.states() =~= Seq::empty());
        r
    }

    /// The number of states kept.
    pub fn len(&self) -> (r: usize)
        ensures
            r == self.kept().len(),
    {
        heap_len(&self.heap)
    }

    /// Keeps a state, then gives up the lowest-ranked states until no more
    /// than `width` are kept: whatever is given up ranks no higher than
    /// anything that stays.
    pub fn push(&mut self, state: SearchState, width: usize)
        requires
            old(self).wf(),
        ensures
            final(self).wf(),
            final(self)@ == old(self)@.pushed(state, width as nat),
            final(self).states() == old(self).states().push(state),
            final(self).kept().len() == if old(self).kept().len() < width {
                old(self).kept().len() + 1
            } else {
                width as nat
            },
            final(self).kept().subset_of(
                old(self).kept().insert((state.search_score, old(self).states().len() as usize)),
            ),
            old(self).kept().len() < width ==> final(self).kept() == old(self).kept().insert(
                (state.search_score, old(self).states().len() as usize),
            ),
            forall|stays: (i64, usize), goes: (i64, usize)|
                final(self).kept().contains(stays) && given_up(
                    old(self).kept().insert((state.search_score, old(self).states().len() as usize)),
                    final(self).kept(),
                    goes,
                ) ==> ranked_le(goes, stays),
    {
        let index = self.states.len();
        self.states.push(state);
        heap_push(&mut self.heap, (state.search_score, index));
        let ghost offered = self.kept();
        proof {
            assert forall|item: (i64, usize)| #[trigger] self.kept().contains(item) implies item.1
                < self.states().len() && self.states()[item.1 as int].search_score == item.0 by {
                if item != (state.search_score, index) {
                    assert(old(self).kept().contains(item));
                }
            }
        }
        while heap_len(&self.heap) > width
            invariant
                self.wf(),
                self.states() == old(self).states().push(state),
                evicted(offered, width as nat) == evicted(self.kept(), width as nat),
                offered == old(self).kept().insert((state.search_score, index)),
                offered.len() == old(self).kept().len() + 1,
                self.kept().subset_of(offered),
                self.kept().len() <= offered.len(),
                old(self).kept().len() < width ==> self.kept() == offered,
                self.kept().len() >= width || self.kept() == offered,
                forall|stays: (i64, usize), goes: (i64, usize)|
                    self.kept().contains(stays) && given_up(offered, self.kept(), goes)
                        ==> ranked_le(goes, stays),
            decreases self.kept().len(),
        {
            let ghost before = self.kept();
            let popped = heap_pop_min(&mut self.heap);
            proof {
                assert(popped is Some);
                let least = popped->0;
                assert(is_least(before, least));
                lemma_extremes_unique(before, least);
                assert forall|item: (i64, usize)| #[trigger] self.kept().contains(item) implies item.1
                    < self.states().len() && self.states()[item.1 as int].search_score
                    == item.0 by {
                    assert(before.contains(item));
                }
                assert forall|item: (i64, usize)| self.kept().count(item) <= before.count(item) by {}
                assert(self.kept().subset_of(offered)) by {
                    assert forall|item: (i64, usize)| self.kept().count(item) <= offered.count(
                        item,
                    ) by {
                        assert(before.count(item) <= offered.count(item));
                    }
                }
                assert forall|stays: (i64, usize), goes: (i64, usize)|
                    self.kept().contains(stays) && given_up(
                        offered,
                        self.kept(),
                        goes,
                    ) implies ranked_le(goes, stays) by {
                    assert(before.contains(stays));
                    if given_up(offered, before, goes) {
                    } else {
                        assert(goes == least);
                    }
                }
            }
        }
    }

    /// Takes out the highest-ranked state kept, if any is kept.
    pub fn pop_max(&mut self) -> (r: Option<SearchState>)
        requires
            old(self).wf(),
        ensures
            final(self).wf(),
            final(self).states() == old(self).states(),
            r is None <==> old(self).kept().len() == 0,
            r is None ==> final(self).kept().len() == 0,
            r is Some ==> r->0 == old(self).top() && r->0 == old(self)@.top() && final(self)@ == old(
                self,
            )@.without_top(),
            r is None ==> final(self)@ == old(self)@,
            r is Some ==> final(self).kept().len() + 1 == old(self).kept().len(),
            r is Some ==> exists|i: int|
                0 <= i < old(self).states().len() && #[trigger] old(self).states()[i] == r->0
                    && is_top(old(self).kept(), (r->0.search_score, i as usize))
                    && final(self).kept() == old(self).kept().remove(
                    (r->0.search_score, i as usize),
                ),
            r is Some ==> forall|item: (i64, usize)| #[trigger]
                old(self).kept().contains(item) ==> item.0 <= r->0.search_score,
    {
        let ghost before = self.kept();
        match heap_pop_max(&mut self.heap) {
            None => None,
            Some((score, index)) => {
                proof {
                    assert(before.contains((score, index)));
                    assert(is_top(before, (score, index)));
                    let chosen = choose|item: (i64, usize)| is_top(before, item);
                    assert(ranked_le(chosen, (score, index)));
                    assert(ranked_le((score, index), chosen));
                    assert(chosen == (score, index));
                    lemma_extremes_unique(before, (score, index));
                    assert forall|item: (i64, usize)| #[trigger]
                        self.kept().contains(item) implies item.1 < self.states().len()
                        && self.states()[item.1 as int].search_score == item.0 by {
                        assert(before.contains(item));
                    }
                    assert forall|item: (i64, usize)| #[trigger] before.contains(item) implies item.0
                        <= score by {
                        assert(ranked_le(item, (score, index)));
                    }
                    assert(old(self).states()[index as int].search_score == score);
                }
                Some(self.states[index])
            },
        }
    }
}

} // verus!

use vstd::prelude::*;
use vstd::pervasive::cloned;
use std::fmt::Debug;
use std::hash::Hash;
use crate::choice::Choice;
use crate::graph::link_at;
use crate::graph::obeys_state_model;
use crate::graph::Graph;
use crate::link::ascending;
use crate::link::count_up_to;
use crate::link::lemma_count_splits_ascending;

verus! {

/// A cursor on a graph: the state it stands on, and the graph it walks.
/// Several cursors may walk one graph.
#[derive(Debug)]
pub struct Traversal<'a, T> {
    pub current: T,
    pub graph: &'a Graph<T>,
}

/// How many choices at the head of `list` weigh at most `threshold`, one
/// after another: the scan of a step stops at the first choice that weighs
/// more. Each choice is held against the threshold by its own weight, not by
/// a running sum.
pub open spec fn scan_length<T>(list: Seq<Choice<T>>, threshold: int) -> nat
    decreases list.len(),
{
    if list.len() == 0 || list[0].weight > threshold {
        0
    } else {
        1 + scan_length(list.skip(1), threshold)
    }
}

/// The position of the choice that a step takes from a list that is not
/// empty: the last one that the scan passed, or the first choice where the
/// scan passed none.
pub open spec fn selected_index<T>(list: Seq<Choice<T>>, threshold: int) -> int {
    if scan_length(list, threshold) == 0 {
        0
    } else {
        scan_length(list, threshold) - 1
    }
}

/// The state that a step at `threshold` takes from `list`; none where `list`
/// is empty.
pub open spec fn selected<T>(list: Seq<Choice<T>>, threshold: int) -> Option<T> {
    if list.len() == 0 {
        None
    } else {
        Some(list[selected_index(list, threshold)].value)
    }
}

/// The scan stops at `k` if the first `k` choices weigh at most `threshold`
/// and the list ends there or goes on with a choice that weighs more.
pub proof fn lemma_scan_stops_at<T>(list: Seq<Choice<T>>, threshold: int, k: int)
    requires
        0 <= k <= list.len(),
        forall|i: int| 0 <= i < k ==> list[i].weight <= threshold,
        k < list.len() ==> list[k].weight > threshold,
    ensures
        scan_length(list, threshold) == k,
    decreases k,
{
    if k > 0 {
        lemma_scan_stops_at(list.skip(1), threshold, k - 1);
    }
}

/// On an ascending list the scan misses nothing by stopping early: it passes
/// every choice that weighs at most `threshold`.
pub proof fn lemma_scan_passes_all<T>(list: Seq<Choice<T>>, threshold: int)
    requires
        ascending(list),
    ensures
        scan_length(list, threshold) == count_up_to(list, threshold),
{
    lemma_count_splits_ascending(list, threshold);
    lemma_scan_stops_at(list, threshold, count_up_to(list, threshold) as int);
}

impl<'a, T> Traversal<'a, T> {
    /// The alternatives of the current state, lightest first; none where the
    /// state has no link.
    pub open spec fn alternatives(&self) -> Seq<Choice<T>> {
        link_at(self.graph@, self.current).list
    }

    /// The state that a step at `threshold` leads to; none where the current
    /// state has no link or an empty one.
    pub open spec fn next_state(&self, threshold: int) -> Option<T> {
        selected(self.alternatives(), threshold)
    }
}

/// On a well-formed graph a step takes the last alternative that weighs at
/// most `threshold`, which is the heaviest such, and the first alternative of
/// all where every one weighs more.
pub proof fn lemma_step_on_ascending<T>(traversal: Traversal<T>, threshold: int)
    requires
        traversal.graph.wf(),
        traversal.alternatives().len() > 0,
    ensures
        ({
            let list = traversal.alternatives();
            let taken = selected_index(list, threshold);
            &&& 0 <= taken < list.len()
            &&& traversal.next_state(threshold) == Some(list[taken].value)
            &&& list[0].weight > threshold ==> taken == 0
            &&& list[0].weight <= threshold ==> list[taken].weight <= threshold
            &&& forall|i: int| taken < i < list.len() ==> (#[trigger] list[i]).weight > threshold
            &&& forall|i: int| 0 <= i <= taken ==> (#[trigger] list[i]).weight <= list[taken].weight
        }),
{
    let list = traversal.alternatives();
    lemma_scan_passes_all(list, threshold);
    lemma_count_splits_ascending(list, threshold);
}

/// A step at threshold 0, to which a random sample of 0 is scaled whatever
/// the total weight, takes an alternative of the smallest weight; it takes
/// the first of the list where at most one alternative weighs 0 or less, as
/// where all weights are positive. This is stated of the links in which no
/// alternative weighs more than the lightest and yet at most 0: in the
/// others the step passes the lightest by.
pub proof fn lemma_step_at_zero<T>(traversal: Traversal<T>)
    requires
        traversal.graph.wf(),
        traversal.alternatives().len() > 0,
        ({
            let list = traversal.alternatives();
            forall|i: int|
                0 <= i < list.len() && (#[trigger] list[i]).weight <= 0 ==> list[i].weight
                    == list[0].weight
        }),
    ensures
        ({
            let list = traversal.alternatives();
            let taken = selected_index(list, 0);
            &&& 0 <= taken < list.len()
            &&& traversal.next_state(0) == Some(list[taken].value)
            &&& forall|i: int|
                0 <= i < list.len() ==> list[taken].weight <= (#[trigger] list[i]).weight
            &&& (list.len() == 1 || list[1].weight > 0) ==> taken == 0
        }),
{
    let list = traversal.alternatives();
    lemma_scan_passes_all(list, 0);
    lemma_count_splits_ascending(list, 0);
}

/// A step at a threshold that no alternative outweighs takes the last
/// alternative of the list, which is one of the largest weight.
pub proof fn lemma_step_above_all<T>(traversal: Traversal<T>, threshold: int)
    requires
        traversal.graph.wf(),
        traversal.alternatives().len() > 0,
        forall|i: int|
            0 <= i < traversal.alternatives().len() ==> (#[trigger] traversal.alternatives()[i]).weight
                <= threshold,
    ensures
        traversal.next_state(threshold) == Some(traversal.alternatives().last().value),
        forall|i: int|
            0 <= i < traversal.alternatives().len() ==> (#[trigger] traversal.alternatives()[i]).weight
                <= traversal.alternatives().last().weight,
{
    let list = traversal.alternatives();
    lemma_scan_stops_at(list, threshold, list.len() as int);
}

impl<'a, T: Clone + Eq + Hash + Debug> Traversal<'a, T> {
    /// A cursor on `graph` that stands on `current`.
    pub fn new(current: T, graph: &'a Graph<T>) -> (traversal: Traversal<'a, T>)
        ensures
            traversal.current == current,
            traversal.graph == graph,
    {
        Traversal { current, graph }
    }

    /// The total weight of the link of the current state, by which the
    /// caller scales a random sample to the threshold of the next step; none
    /// where the current state has no link, and then no sample need be drawn.
    pub fn total_weight(&self) -> (total: Option<i32>)
        requires
            obeys_state_model::<T>(),
        ensures
            match total {
                Some(weight) => self.graph@.contains_key(self.current) && weight
                    == self.graph@[self.current].total_weight,
                None => !self.graph@.contains_key(self.current),
            },
    {
        match self.graph.value_to_link.get(&self.current) {
            Some(link) => Some(link.total_weight),
            None => None,
        }
    }

    /// Takes one step. The alternatives of the current state are scanned
    /// from the lightest on, as long as they weigh at most `threshold`; the
    /// last one passed gives the next state, or the first alternative where
    /// none was passed. The cursor moves there and the state is returned.
    /// Where the current state has no link, or an empty one, there is no next
    /// state and the cursor stays where it is.
    pub fn advance(&mut self, threshold: i32) -> (next: Option<T>)
        requires
            obeys_state_model::<T>(),
        ensures
            next == old(self).next_state(threshold as int),
            next is None <==> old(self).alternatives().len() == 0,
            final(self).current == (match next {
                Some(state) => state,
                None => old(self).current,
            }),
            final(self).graph == old(self).graph,
            !old(self).graph@.contains_key(old(self).current) ==> {
                &&& next is None
                &&& final(self).current == old(self).current
            },
    {
        let link = match self.graph.value_to_link.get(&self.current) {
            Some(link) => link,
            None => { return None; },
        };
        let list = &link.list;
        if list.len() == 0 {
            return None;
        }
        let mut pick: usize = 0;
        let mut at: usize = 0;
        while at < list.len() && list[at].weight <= threshold
            invariant
                at <= list.len(),
                forall|i: int| 0 <= i < at ==> list@[i].weight <= threshold,
                pick == (if at == 0 { 0 } else { at - 1 }),
            decreases list.len() - at,
        {
            pick = at;
            at += 1;
        }
        proof {
            lemma_scan_stops_at(list@, threshold as int, at as int);
        }
        let value = list[pick].value.clone();
        assert(cloned(list@[pick as int].value, value));
        let state = value.clone();
        assert(cloned(value, state));
        self.current = state;
        Some(value)
    }
}

} // verus!

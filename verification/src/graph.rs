use vstd::prelude::*;
use vstd::pervasive::cloned;
use vstd::std_specs::hash::obeys_key_model;
use std::collections::HashMap;
use std::fmt::Debug;
use std::hash::Hash;
use crate::choice::Choice;
use crate::edge::Edge;
use crate::link::is_stable_sort;
use crate::link::lemma_with_choices;
use crate::link::weight_sum;
use crate::link::Link;
use crate::link::LinkView;
use crate::traversal::Traversal;

verus! {

/// The states of a graph and, for each state that has one, its link. A state
/// is its value: equal values are one state.
#[derive(Debug)]
pub struct Graph<T> {
    pub value_to_link: HashMap<T, Link<T>>,
}

/// What the library assumes of the type of the states: hashing and `==` go
/// by the value (the key model of the standard hash map), and a clone of a
/// state is that state.
pub open spec fn obeys_state_model<T: Clone>() -> bool {
    &&& obeys_key_model::<T>()
    &&& forall|a: T, b: T| #[trigger] cloned(a, b) ==> a == b
}

/// The mathematical content of the stored links.
pub open spec fn links_view<T>(links: Map<T, Link<T>>) -> Map<T, LinkView<T>> {
    links.map_values(|link: Link<T>| link@)
}

/// Every link is well formed.
pub open spec fn links_wf<T>(links: Map<T, LinkView<T>>) -> bool {
    forall|state: T| #[trigger] links.contains_key(state) ==> links[state].wf()
}

/// The link of `state`; the empty link where `state` has none.
pub open spec fn link_at<T>(links: Map<T, LinkView<T>>, state: T) -> LinkView<T> {
    if links.contains_key(state) {
        links[state]
    } else {
        LinkView::empty()
    }
}

/// The links after `choice` has been added to the alternatives of `source`:
/// the link of `source`, made if there was none, has taken the choice, and no
/// other link has changed.
pub open spec fn with_edge<T>(links: Map<T, LinkView<T>>, source: T, choice: Choice<T>) -> Map<
    T,
    LinkView<T>,
> {
    links.insert(source, link_at(links, source).with_choice(choice))
}

/// The links after the choices of `added` have been added to the
/// alternatives of `source` one after another, the first of them first.
pub open spec fn with_edges<T>(
    links: Map<T, LinkView<T>>,
    source: T,
    added: Seq<Choice<T>>,
) -> Map<T, LinkView<T>>
    decreases added.len(),
{
    if added.len() == 0 {
        links
    } else {
        with_edge(with_edges(links, source, added.drop_last()), source, added.last())
    }
}

/// Whatever alternatives are added to one source state, and in whatever
/// order: afterwards the total weight of its link has grown by exactly the
/// sum of the weights given (and is that sum where the state had no link),
/// the list of the link is sorted ascending by weight, holding the old
/// choices and the new ones with equal weights in the order of their
/// addition, and every other link is as it was.
pub proof fn lemma_with_edges<T>(links: Map<T, LinkView<T>>, source: T, added: Seq<Choice<T>>)
    requires
        link_at(links, source).wf(),
    ensures
        ({
            let before = link_at(links, source);
            let after = link_at(with_edges(links, source, added), source);
            &&& after == before.with_choices(added)
            &&& after.wf()
            &&& after.total_weight == before.total_weight + weight_sum(added)
            &&& !links.contains_key(source) ==> after.total_weight == weight_sum(added)
            &&& is_stable_sort(after.list, before.list + added)
        }),
        added.len() > 0 ==> with_edges(links, source, added).contains_key(source),
        forall|other: T|
            other != source ==> (#[trigger] with_edges(links, source, added).contains_key(other)
                <==> links.contains_key(other)),
        forall|other: T|
            other != source ==> #[trigger] link_at(with_edges(links, source, added), other)
                == link_at(links, other),
        links_wf(links) ==> links_wf(with_edges(links, source, added)),
    decreases added.len(),
{
    lemma_with_choices(link_at(links, source), added);
    if added.len() > 0 {
        let front = added.drop_last();
        lemma_with_edges(links, source, front);
        let inner = with_edges(links, source, front);
        assert forall|other: T| other != source implies #[trigger] link_at(
            with_edges(links, source, added),
            other,
        ) == link_at(links, other) by {
            assert(link_at(inner, other) == link_at(links, other));
        }
    }
}

impl<T> View for Graph<T> {
    type V = Map<T, LinkView<T>>;

    open spec fn view(&self) -> Map<T, LinkView<T>> {
        links_view(self.value_to_link@)
    }
}

impl<T> Graph<T> {
    /// Every link of the graph is well formed.
    pub open spec fn wf(&self) -> bool {
        links_wf(self@)
    }
}

impl<T> Default for Graph<T> {
    /// A graph in which no state has a link.
    fn default() -> (graph: Self)
        ensures
            graph@ == Map::<T, LinkView<T>>::empty(),
            graph.wf(),
    {
        Graph { value_to_link: HashMap::new() }
    }
}

impl<T: Clone + Eq + Hash + Debug> Graph<T> {
    /// A handle that adds alternatives to the link of `value`. It sees the
    /// links of the graph as they are, and the graph ends up with the links
    /// that the handle leaves behind. Until the handle is used nothing
    /// changes: a link for `value` is made only by the first addition.
    pub fn new_edge(&mut self, value: T) -> (edge: Edge<'_, T>)
        ensures
            edge.value == value,
            edge.links() == old(self)@,
            *edge.value_to_link == old(self).value_to_link,
            final(self).value_to_link == *final(edge.value_to_link),
    {
        Edge { value_to_link: &mut self.value_to_link, value }
    }

    /// A cursor on this graph that stands on `start_value`.
    pub fn new_traversal(&self, start_value: T) -> (traversal: Traversal<'_, T>)
        ensures
            traversal.current == start_value,
            traversal.graph == self,
    {
        Traversal::new(start_value, self)
    }
}

} // verus!

use vstd::prelude::*;
use vstd::pervasive::cloned;
use std::collections::HashMap;
use std::hash::Hash;
use crate::choice::Choice;
use crate::graph::link_at;
use crate::graph::links_view;
use crate::graph::links_wf;
use crate::graph::obeys_state_model;
use crate::graph::with_edge;
use crate::link::is_stable_sort;
use crate::link::Link;
use crate::link::LinkView;

verus! {

/// A handle on the links of a graph, bound to one source state, through
/// which alternatives are added to the link of that state. It is made by
/// [`crate::graph::Graph::new_edge`] and dropped after use.
#[derive(Debug)]
pub struct Edge<'a, T> {
    pub value_to_link: &'a mut HashMap<T, Link<T>>,
    pub value: T,
}

impl<'a, T> Edge<'a, T> {
    /// The links as the handle sees them now.
    pub open spec fn links(&self) -> Map<T, LinkView<T>> {
        links_view((*self.value_to_link)@)
    }
}

impl<'a, T: Clone + Eq + Hash> Edge<'a, T> {
    /// Adds the alternative `value`, with `weight`, to the link of the source
    /// state; the link is made if the state had none. The list of the link
    /// stays sorted ascending by weight, the new choice behind those of equal
    /// weight, and the total grows by `weight`. No weight is refused: zero
    /// and negative ones are taken like any other. The handle comes back for
    /// the next call.
    pub fn towards(&mut self, weight: i32, value: T) -> (edge: &mut Edge<'a, T>)
        requires
            obeys_state_model::<T>(),
            link_at(old(self).links(), old(self).value).wf(),
            i32::MIN <= link_at(old(self).links(), old(self).value).total_weight + weight
                <= i32::MAX,
        ensures
            edge.value == old(self).value,
            edge.links() == with_edge(old(self).links(), old(self).value, Choice { weight, value }),
            link_at(edge.links(), edge.value).wf(),
            link_at(edge.links(), edge.value).total_weight == link_at(
                old(self).links(),
                old(self).value,
            ).total_weight + weight,
            is_stable_sort(
                link_at(edge.links(), edge.value).list,
                link_at(old(self).links(), old(self).value).list.push(Choice { weight, value }),
            ),
            links_wf(old(self).links()) ==> links_wf(edge.links()),
            *final(edge.value_to_link) == *final(old(self).value_to_link),
            *final(self) == *final(edge),
    {
        let key = self.value.clone();
        assert(cloned(self.value, key));
        let link = self.value_to_link.entry(key).or_insert(Link::default());
        link.insert(Choice { weight, value });
        self
    }
}

} // verus!

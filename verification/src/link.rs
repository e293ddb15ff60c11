use vstd::prelude::*;
use vstd::pervasive::cloned;
use vstd::std_specs::cmp::PartialEqSpec;
use vstd::std_specs::cmp::PartialEqSpecImpl;
use crate::choice::Choice;

verus! {

/// The alternatives that can follow one state, lightest first, and the sum of
/// their weights.
#[derive(Debug, Eq)]
pub struct Link<T> {
    pub list: Vec<Choice<T>>,
    pub total_weight: i32,
}

/// The mathematical content of a [`Link`].
pub struct LinkView<T> {
    pub list: Seq<Choice<T>>,
    pub total_weight: int,
}

impl<T> View for Link<T> {
    type V = LinkView<T>;

    open spec fn view(&self) -> LinkView<T> {
        LinkView { list: self.list@, total_weight: self.total_weight as int }
    }
}

/// No choice is heavier than one that comes after it.
pub open spec fn ascending<T>(list: Seq<Choice<T>>) -> bool {
    forall|i: int, j: int| 0 <= i <= j < list.len() ==> list[i].weight <= list[j].weight
}

/// The sum of the weights of all choices in `list`.
pub open spec fn weight_sum<T>(list: Seq<Choice<T>>) -> int
    decreases list.len(),
{
    if list.len() == 0 {
        0
    } else {
        weight_sum(list.drop_last()) + list.last().weight
    }
}

/// How many choices in `list` weigh at most `weight`.
pub open spec fn count_up_to<T>(list: Seq<Choice<T>>, weight: int) -> nat
    decreases list.len(),
{
    if list.len() == 0 {
        0
    } else {
        count_up_to(list.drop_last(), weight) + if list.last().weight <= weight {
            1nat
        } else {
            0nat
        }
    }
}

/// The test that a choice weighs exactly `weight`.
pub open spec fn weighs<T>(weight: int) -> spec_fn(Choice<T>) -> bool {
    |choice: Choice<T>| choice.weight == weight
}

/// `sorted` holds the choices of `list` in ascending order of weight, and
/// those of one weight in the order in which they stand in `list`.
pub open spec fn is_stable_sort<T>(sorted: Seq<Choice<T>>, list: Seq<Choice<T>>) -> bool {
    &&& ascending(sorted)
    &&& forall|weight: int| #[trigger]
        sorted.filter(weighs(weight)) == list.filter(weighs(weight))
}

impl<T> LinkView<T> {
    /// A link without alternatives.
    pub open spec fn empty() -> Self {
        LinkView { list: Seq::empty(), total_weight: 0 }
    }

    /// The invariant of a link: its choices ascend by weight, and the total is
    /// the sum of their weights.
    pub open spec fn wf(self) -> bool {
        &&& ascending(self.list)
        &&& self.total_weight == weight_sum(self.list)
    }

    /// The link after `choice` has been appended: the others keep their
    /// order, `choice` stands behind as many of them as are not heavier than
    /// it, and the total has grown by its weight. In a list that ascends
    /// these are the choices before the first heavier one, so that the list
    /// is the one that `choice` pushed at the end and a stable sort by weight
    /// give ([`lemma_with_choice_sorts`]).
    pub open spec fn with_choice(self, choice: Choice<T>) -> Self {
        LinkView {
            list: self.list.insert(count_up_to(self.list, choice.weight as int) as int, choice),
            total_weight: self.total_weight + choice.weight,
        }
    }

    /// The link after the choices of `added` have been appended one after
    /// another, the first of them first.
    pub open spec fn with_choices(self, added: Seq<Choice<T>>) -> Self
        decreases added.len(),
    {
        if added.len() == 0 {
            self
        } else {
            self.with_choices(added.drop_last()).with_choice(added.last())
        }
    }
}

/// If the first `k` choices of `list` weigh at most `weight` and all later
/// ones weigh more, then `k` is the number of choices that weigh at most
/// `weight`.
pub proof fn lemma_count_at_boundary<T>(list: Seq<Choice<T>>, weight: int, k: int)
    requires
        0 <= k <= list.len(),
        forall|i: int| 0 <= i < k ==> list[i].weight <= weight,
        forall|i: int| k <= i < list.len() ==> list[i].weight > weight,
    ensures
        count_up_to(list, weight) == k,
    decreases list.len(),
{
    if list.len() > 0 {
        let front = list.drop_last();
        if k == list.len() {
            lemma_count_at_boundary(front, weight, k - 1);
        } else {
            lemma_count_at_boundary(front, weight, k);
        }
    }
}

/// In an ascending list the choices that weigh at most `weight` are exactly
/// the first `count_up_to(list, weight)` ones.
pub proof fn lemma_count_splits_ascending<T>(list: Seq<Choice<T>>, weight: int)
    requires
        ascending(list),
    ensures
        count_up_to(list, weight) <= list.len(),
        forall|i: int| 0 <= i < count_up_to(list, weight) ==> list[i].weight <= weight,
        forall|i: int| count_up_to(list, weight) <= i < list.len() ==> list[i].weight > weight,
    decreases list.len(),
{
    if list.len() > 0 {
        let front = list.drop_last();
        lemma_count_splits_ascending(front, weight);
        assert forall|i: int| 0 <= i < front.len() implies front[i] == list[i] by {}
    }
}

/// Inserting a choice anywhere adds its weight to the sum.
pub proof fn lemma_weight_sum_insert<T>(list: Seq<Choice<T>>, at: int, choice: Choice<T>)
    requires
        0 <= at <= list.len(),
    ensures
        weight_sum(list.insert(at, choice)) == weight_sum(list) + choice.weight,
    decreases list.len(),
{
    let longer = list.insert(at, choice);
    if at == list.len() {
        assert(longer.drop_last() =~= list);
    } else {
        lemma_weight_sum_insert(list.drop_last(), at, choice);
        assert(longer.drop_last() =~= list.drop_last().insert(at, choice));
    }
}

/// No choice of `list` weighs `weight`, so the filter for that weight keeps
/// nothing.
proof fn lemma_none_weighs<T>(list: Seq<Choice<T>>, weight: int)
    requires
        forall|i: int| 0 <= i < list.len() ==> list[i].weight != weight,
    ensures
        list.filter(weighs(weight)) == Seq::<Choice<T>>::empty(),
    decreases list.len(),
{
    reveal(Seq::filter);
    if list.len() > 0 {
        lemma_none_weighs(list.drop_last(), weight);
    }
}

/// Appending a choice to an ascending list, as [`LinkView::with_choice`]
/// does, gives what a stable sort by weight makes of the list with the choice
/// pushed at its end.
pub proof fn lemma_with_choice_sorts<T>(link: LinkView<T>, choice: Choice<T>)
    requires
        ascending(link.list),
    ensures
        is_stable_sort(link.with_choice(choice).list, link.list.push(choice)),
{
    let list = link.list;
    let at = count_up_to(list, choice.weight as int) as int;
    lemma_count_splits_ascending(list, choice.weight as int);
    let longer = link.with_choice(choice).list;
    let head = list.subrange(0, at);
    let tail = list.subrange(at, list.len() as int);
    let one = seq![choice];
    assert(longer =~= (head + one) + tail);
    assert(list.push(choice) =~= (head + tail) + one);
    assert forall|weight: int| #[trigger]
        longer.filter(weighs(weight)) == list.push(choice).filter(weighs(weight)) by {
        let test = weighs::<T>(weight);
        if weight == choice.weight {
            lemma_none_weighs(tail, weight);
        } else {
            lemma_none_weighs(one, weight);
        }
        assert((head.filter(test) + one.filter(test)) + tail.filter(test) =~= (head.filter(test)
            + tail.filter(test)) + one.filter(test));
    }
}

/// Appending a choice keeps a link well formed.
pub proof fn lemma_with_choice_wf<T>(link: LinkView<T>, choice: Choice<T>)
    requires
        link.wf(),
    ensures
        link.with_choice(choice).wf(),
{
    lemma_count_splits_ascending(link.list, choice.weight as int);
    lemma_weight_sum_insert(link.list, count_up_to(link.list, choice.weight as int) as int, choice);
}

/// A choice inserted anywhere is counted where it weighs at most `weight`,
/// and the count of the others stays.
pub proof fn lemma_count_insert<T>(list: Seq<Choice<T>>, at: int, choice: Choice<T>, weight: int)
    requires
        0 <= at <= list.len(),
    ensures
        count_up_to(list.insert(at, choice), weight) == count_up_to(list, weight) + if choice.weight
            <= weight {
            1nat
        } else {
            0nat
        },
    decreases list.len(),
{
    let longer = list.insert(at, choice);
    if at == list.len() {
        assert(longer.drop_last() =~= list);
    } else {
        lemma_count_insert(list.drop_last(), at, choice, weight);
        assert(longer.drop_last() =~= list.drop_last().insert(at, choice));
    }
}

/// The count grows with the weight up to which it counts.
pub proof fn lemma_count_monotone<T>(list: Seq<Choice<T>>, lower: int, upper: int)
    requires
        lower <= upper,
    ensures
        count_up_to(list, lower) <= count_up_to(list, upper) <= list.len(),
    decreases list.len(),
{
    if list.len() > 0 {
        lemma_count_monotone(list.drop_last(), lower, upper);
    }
}

/// Two choices of different weights may be appended in either order: the
/// link that results is the same.
pub proof fn lemma_with_choice_commutes<T>(link: LinkView<T>, first: Choice<T>, second: Choice<T>)
    requires
        first.weight != second.weight,
    ensures
        link.with_choice(first).with_choice(second) == link.with_choice(second).with_choice(first),
{
    let list = link.list;
    let at_first = count_up_to(list, first.weight as int) as int;
    let at_second = count_up_to(list, second.weight as int) as int;
    lemma_count_monotone(list, first.weight as int, first.weight as int);
    lemma_count_monotone(list, second.weight as int, second.weight as int);
    lemma_count_insert(list, at_first, first, second.weight as int);
    lemma_count_insert(list, at_second, second, first.weight as int);
    if first.weight < second.weight {
        lemma_count_monotone(list, first.weight as int, second.weight as int);
    } else {
        lemma_count_monotone(list, second.weight as int, first.weight as int);
    }
    assert(link.with_choice(first).with_choice(second).list =~= link.with_choice(
        second,
    ).with_choice(first).list);
}

/// Whatever choices are appended to a well-formed link, and in whatever
/// order: the link stays well formed, its total has grown by exactly the sum
/// of their weights, and its list is the stable sort by weight of the old
/// list followed by the appended choices.
pub proof fn lemma_with_choices<T>(link: LinkView<T>, added: Seq<Choice<T>>)
    requires
        link.wf(),
    ensures
        link.with_choices(added).wf(),
        link.with_choices(added).total_weight == link.total_weight + weight_sum(added),
        is_stable_sort(link.with_choices(added).list, link.list + added),
    decreases added.len(),
{
    if added.len() > 0 {
        let front = added.drop_last();
        let before = link.with_choices(front);
        let one = seq![added.last()];
        lemma_with_choices(link, front);
        lemma_with_choice_wf(before, added.last());
        lemma_with_choice_sorts(before, added.last());
        assert(before.list.push(added.last()) =~= before.list + one);
        assert(link.list + added =~= (link.list + front) + one);
    }
}

impl<T> Default for Link<T> {
    /// A link without alternatives, of total weight 0.
    fn default() -> (link: Self)
        ensures
            link@ == LinkView::<T>::empty(),
    {
        Link { list: Vec::default(), total_weight: 0 }
    }
}

impl<T: PartialEq> PartialEq for Link<T> {
    /// Two links are equal when their totals are and their lists hold equal
    /// choices in the same order.
    fn eq(&self, other: &Self) -> (equal: bool) {
        if self.total_weight != other.total_weight || self.list.len() != other.list.len() {
            return false;
        }
        let mut at: usize = 0;
        while at < self.list.len()
            invariant
                at <= self.list.len(),
                self.list.len() == other.list.len(),
                T::obeys_eq_spec() ==> forall|i: int|
                    0 <= i < at ==> PartialEqSpec::eq_spec(
                        #[trigger] &self.list@[i],
                        &other.list@[i],
                    ),
            decreases self.list.len() - at,
        {
            if self.list[at] != other.list[at] {
                return false;
            }
            at += 1;
        }
        true
    }
}

impl<T: PartialEq> PartialEqSpecImpl for Link<T> {
    open spec fn obeys_eq_spec() -> bool {
        T::obeys_eq_spec()
    }

    open spec fn eq_spec(&self, other: &Self) -> bool {
        &&& self.total_weight == other.total_weight
        &&& self.list@.len() == other.list@.len()
        &&& forall|i: int|
            0 <= i < self.list@.len() ==> PartialEqSpec::eq_spec(
                #[trigger] &self.list@[i],
                &other.list@[i],
            )
    }
}

impl<T: Clone> Clone for Link<T> {
    /// A link of the same total, with a clone of each choice in its place.
    fn clone(&self) -> (copy: Self)
        ensures
            copy.total_weight == self.total_weight,
            copy.list@.len() == self.list@.len(),
            forall|i: int|
                0 <= i < self.list@.len() ==> cloned(self.list@[i], #[trigger] copy.list@[i]),
    {
        Link { list: self.list.clone(), total_weight: self.total_weight }
    }
}

impl<T> Link<T> {
    /// Adds `choice` and keeps the list sorted: the list becomes what
    /// appending `choice` and sorting stably by weight gives, and the total
    /// grows by the weight of `choice`.
    pub fn insert(&mut self, choice: Choice<T>)
        requires
            old(self)@.wf(),
            i32::MIN <= old(self).total_weight + choice.weight <= i32::MAX,
        ensures
            final(self)@ == old(self)@.with_choice(choice),
            final(self)@.wf(),
            final(self).total_weight == old(self).total_weight + choice.weight,
            is_stable_sort(final(self)@.list, old(self)@.list.push(choice)),
    {
        let weight = choice.weight;
        let mut at: usize = 0;
        while at < self.list.len() && self.list[at].weight <= weight
            invariant
                at <= self.list.len(),
                forall|i: int| 0 <= i < at ==> self.list@[i].weight <= weight,
            decreases self.list.len() - at,
        {
            at += 1;
        }
        proof {
            lemma_count_at_boundary(self.list@, weight as int, at as int);
            lemma_with_choice_wf(self@, choice);
            lemma_with_choice_sorts(self@, choice);
        }
        self.list.insert(at, choice);
        self.total_weight += weight;
    }
}

} // verus!

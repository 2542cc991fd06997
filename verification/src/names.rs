//! Sets of names: digests, file names, reported files.
use crate::text::texts;
use vstd::hash_set::StringHashSet;
use vstd::prelude::*;

verus! {

/// A set of names that keeps the order in which they came in.
pub struct NameSet {
    items: Vec<String>,
    index: StringHashSet,
}

impl View for NameSet {
    type V = Set<Seq<char>>;

    closed spec fn view(&self) -> Set<Seq<char>> {
        self.index@
    }
}

impl NameSet {
    /// The names in the order in which they came in.
    pub closed spec fn order(self) -> Seq<Seq<char>> {
        texts(self.items@)
    }

    /// No name occurs twice, and the order lists the set.
    pub open spec fn wf(self) -> bool {
        &&& self.order().no_duplicates()
        &&& forall|name: Seq<char>| self@.contains(name) <==> self.order().contains(name)
    }

    /// The empty set.
    pub fn new() -> (res: NameSet)
        ensures
            res.wf(),
            res.order() == Seq::<Seq<char>>::empty(),
            res@ == Set::<Seq<char>>::empty(),
    {
        let res = NameSet { items: Vec::new(), index: StringHashSet::new() };
        assert(res.order() =~= Seq::<Seq<char>>::empty());
        res
    }

    /// Whether a name is in the set.
    pub fn contains(&self, name: &str) -> (res: bool)
        ensures
            res == self@.contains(name@),
    {
        self.index.contains(name)
    }

    /// Whether the set is empty.
    pub fn is_empty(&self) -> (res: bool)
        requires
            self.wf(),
        ensures
            res == (self.order().len() == 0),
            res == (self@ == Set::<Seq<char>>::empty()),
    {
        let res: bool = self.items.len() == 0;
        proof {
            if res {
                assert(self@ =~= Set::<Seq<char>>::empty());
            } else {
                assert(self.order().contains(self.order()[0]));
            }
        }
        res
    }

    /// How many names there are.
    pub fn len(&self) -> (res: usize)
        ensures
            res == self.order().len(),
    {
        self.items.len()
    }

    /// The names, in the order in which they came in.
    pub fn items(&self) -> (res: &Vec<String>)
        ensures
            texts(res@) == self.order(),
    {
        &self.items
    }

    /// Puts a name into the set. A name that is there already changes nothing.
    pub fn insert(&mut self, name: String) -> (res: bool)
        requires
            old(self).wf(),
        ensures
            final(self).wf(),
            final(self)@ == old(self)@.insert(name@),
            res == !old(self)@.contains(name@),
            final(self).order() == if res {
                old(self).order().push(name@)
            } else {
                old(self).order()
            },
    {
        let ghost before = self.order();
        if self.index.contains(name.as_str()) {
            assert(self@ =~= self@.insert(name@));
            false
        } else {
            let _ = self.index.insert(name.clone());
            self.items.push(name);
            proof {
                assert(self.order() =~= before.push(name@));
                assert forall|other: Seq<char>|
                    self@.contains(other) <==> self.order().contains(other) by {
                    if before.contains(other) {
                        let i = before.index_of(other);
                        assert(self.order()[i] == other);
                    }
                    if self.order().contains(other) && other != name@ {
                        let i = self.order().index_of(other);
                        assert(before[i] == other);
                    }
                    if other == name@ {
                        assert(self.order()[before.len() as int] == other);
                    }
                }
                assert(self.order().no_duplicates()) by {
                    assert forall|i: int, j: int|
                        0 <= i < self.order().len() && 0 <= j < self.order().len() && i
                            != j implies self.order()[i] != self.order()[j] by {
                        if i < before.len() {
                            assert(before.contains(before[i]));
                        }
                        if j < before.len() {
                            assert(before.contains(before[j]));
                        }
                    }
                }
            }
            true
        }
    }
}

/// The names of a list that are in a set, or those that are not, in the order of the list.
pub open spec fn selected(names: Seq<Seq<char>>, from: Set<Seq<char>>, present: bool) -> Seq<
    Seq<char>,
> {
    names.filter(|name: Seq<char>| from.contains(name) == present)
}

/// Selects from one set the names that are in another, or those that are not.
fn select(names: &NameSet, from: &NameSet, present: bool) -> (res: NameSet)
    requires
        names.wf(),
        from.wf(),
    ensures
        res.wf(),
        res.order() == selected(names.order(), from@, present),
        forall|name: Seq<char>|
            res@.contains(name) <==> names@.contains(name) && from@.contains(name) == present,
{
    let mut res = NameSet::new();
    let items = names.items();
    let ghost pred = |name: Seq<char>| from@.contains(name) == present;
    let ghost order = names.order();
    assert(order.take(0).filter(pred) =~= Seq::empty()) by {
        reveal(Seq::filter);
    }
    let mut i: usize = 0;
    while i < items.len()
        invariant
            i <= items@.len(),
            texts(items@) == order,
            order == names.order(),
            names.wf(),
            pred == (|name: Seq<char>| from@.contains(name) == present),
            res.wf(),
            res.order() == order.take(i as int).filter(pred),
            forall|name: Seq<char>|
                res@.contains(name) <==> order.take(i as int).contains(name) && from@.contains(name)
                    == present,
        decreases items@.len() - i,
    {
        let ghost before = order.take(i as int);
        let ghost after = order.take(i + 1);
        let ghost old_res = res@;
        assert(order[i as int] == items@[i as int]@);
        assert(after.drop_last() =~= before);
        assert(after.last() == order[i as int]);
        assert(after.filter(pred) == if pred(after.last()) {
            before.filter(pred).push(after.last())
        } else {
            before.filter(pred)
        }) by {
            reveal(Seq::filter);
        }
        if from.contains(items[i].as_str()) == present {
            let fresh = res.insert(items[i].clone());
            assert(fresh) by {
                if old_res.contains(order[i as int]) {
                    let j = before.index_of(order[i as int]);
                    assert(order[j] == order[i as int]);
                }
            }
        }
        i = i + 1;
        proof {
            assert forall|name: Seq<char>|
                after.contains(name) <==> before.contains(name) || name == after.last() by {
                if before.contains(name) {
                    let j = before.index_of(name);
                    assert(after[j] == name);
                }
                if after.contains(name) && name != after.last() {
                    let j = after.index_of(name);
                    assert(before[j] == name);
                }
                assert(after[i - 1] == after.last());
            }
        }
    }
    assert(order.take(items@.len() as int) =~= order);
    res
}

impl NameSet {
    /// The names of this set that are in another.
    pub fn intersection(&self, other: &NameSet) -> (res: NameSet)
        requires
            self.wf(),
            other.wf(),
        ensures
            res.wf(),
            res@ == self@.intersect(other@),
            res.order() == selected(self.order(), other@, true),
    {
        let res = select(self, other, true);
        assert(res@ =~= self@.intersect(other@));
        res
    }

    /// The names of this set that are not in another.
    pub fn difference(&self, other: &NameSet) -> (res: NameSet)
        requires
            self.wf(),
            other.wf(),
        ensures
            res.wf(),
            res@ == self@.difference(other@),
            res.order() == selected(self.order(), other@, false),
    {
        let res = select(self, other, false);
        assert(res@ =~= self@.difference(other@));
        res
    }
}

/// Of a list, those names are selected that are in the set, or those that are not, and no others.
/// What is selected of two lists, one behind the other, is what is selected of each, in that order.
pub proof fn law_selected(
    names: Seq<Seq<char>>,
    more: Seq<Seq<char>>,
    from: Set<Seq<char>>,
    name: Seq<char>,
)
    ensures
        selected(names, from, true).contains(name) <==> names.contains(name) && from.contains(name),
        selected(names, from, false).contains(name) <==> names.contains(name) && !from.contains(
            name,
        ),
        selected(names + more, from, true) == selected(names, from, true) + selected(
            more,
            from,
            true,
        ),
        selected(names + more, from, false) == selected(names, from, false) + selected(
            more,
            from,
            false,
        ),
        selected(seq![name], from, from.contains(name)) == seq![name],
{
    let there = |n: Seq<char>| from.contains(n) == true;
    let missing = |n: Seq<char>| from.contains(n) == false;
    lemma_filter(names, there, name);
    lemma_filter(names, missing, name);
    Seq::filter_distributes_over_add(names, more, there);
    Seq::filter_distributes_over_add(names, more, missing);
    assert(seq![name].drop_last() =~= Seq::empty());
    reveal(Seq::filter);
    reveal_with_fuel(Seq::filter, 2);
    if from.contains(name) {
        assert(seq![name].filter(there) =~= seq![name]);
    } else {
        assert(seq![name].filter(missing) =~= seq![name]);
    }
}

proof fn lemma_filter(names: Seq<Seq<char>>, pred: spec_fn(Seq<char>) -> bool, name: Seq<char>)
    ensures
        names.filter(pred).contains(name) <==> names.contains(name) && pred(name),
    decreases names.len(),
{
    reveal(Seq::filter);
    if names.len() > 0 {
        let rest = names.drop_last();
        lemma_filter(rest, pred, name);
        let out = rest.filter(pred);
        assert(names =~= rest.push(names.last()));
        if names.contains(name) && name != names.last() {
            let i = names.index_of(name);
            assert(rest[i] == name);
        }
        if rest.contains(name) {
            let i = rest.index_of(name);
            assert(names[i] == name);
        }
        assert(names.contains(names[names.len() - 1]));
        if out.contains(name) {
            let i = out.index_of(name);
            assert(out.push(names.last())[i] == name);
        }
        assert(out.push(names.last())[out.len() as int] == names.last());
        if out.push(names.last()).contains(name) && name != names.last() {
            let i = out.push(names.last()).index_of(name);
            assert(out[i] == name);
        }
    }
}

} // verus!

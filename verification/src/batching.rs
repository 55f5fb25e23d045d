//! Batching: a long input is handed on in groups of bounded size.
//!
//! Items are pushed one by one. As soon as a full group has come together it
//! is handed out; what is left at the end is handed out by `finish`. Only
//! one group is ever held, whatever the length of the input.

use vstd::prelude::*;

verus! {

/// The state of a batcher, as contracts see it.
pub struct Batching<T> {
    /// The size of a full group.
    pub size: nat,
    /// The items pushed since the last group was handed out.
    pub pending: Seq<T>,
}

impl<T> Batching<T> {
    /// The state of a batcher that has taken nothing yet.
    pub open spec fn start(size: nat) -> Batching<T> {
        Batching { size, pending: Seq::empty() }
    }

    /// Fewer items are held than make a full group.
    pub open spec fn consistent(self) -> bool {
        self.pending.len() < self.size || (self.size == 0 && self.pending.len() == 0)
    }

    /// The state after `item` was pushed. With size 0 no group can form and
    /// the item is dropped.
    pub open spec fn pushed(self, item: T) -> Batching<T> {
        if self.size == 0 || self.pending.len() + 1 >= self.size {
            Batching { pending: Seq::empty(), ..self }
        } else {
            Batching { pending: self.pending.push(item), ..self }
        }
    }

    /// The group that pushing `item` completes, if it completes one.
    pub open spec fn completed(self, item: T) -> Option<Seq<T>> {
        if self.size != 0 && self.pending.len() + 1 >= self.size {
            Some(self.pending.push(item))
        } else {
            None
        }
    }

    /// The state after all of `items` were pushed, in order.
    pub open spec fn fed(self, items: Seq<T>) -> Batching<T>
        decreases items.len(),
    {
        if items.len() == 0 {
            self
        } else {
            self.fed(items.drop_last()).pushed(items.last())
        }
    }

    /// The groups handed out while all of `items` were pushed, in order.
    pub open spec fn emitted(self, items: Seq<T>) -> Seq<Seq<T>>
        decreases items.len(),
    {
        if items.len() == 0 {
            Seq::empty()
        } else {
            let before = self.emitted(items.drop_last());
            match self.fed(items.drop_last()).completed(items.last()) {
                Some(group) => before.push(group),
                None => before,
            }
        }
    }
}

/// The items of a sequence of groups, in order.
pub open spec fn concat<T>(groups: Seq<Seq<T>>) -> Seq<T>
    decreases groups.len(),
{
    if groups.len() == 0 {
        Seq::empty()
    } else {
        concat(groups.drop_last()) + groups.last()
    }
}

/// Gathers items into groups of a given size.
pub struct Batcher<T> {
    size: usize,
    pending: Vec<T>,
}

impl<T> View for Batcher<T> {
    type V = Batching<T>;

    closed spec fn view(&self) -> Batching<T> {
        Batching { size: self.size as nat, pending: self.pending@ }
    }
}

impl<T> Batcher<T> {
    #[verifier::type_invariant]
    spec fn inv(&self) -> bool {
        self@.consistent()
    }

    /// A batcher that hands out groups of `size` items.
    pub fn new(size: usize) -> (batcher: Self)
        ensures
            batcher@ == Batching::<T>::start(size as nat),
    {
        Batcher { size, pending: Vec::new() }
    }

    /// Takes one more item. If it completes a group of the full size, the
    /// group is handed out, its items in the order in which they came, and
    /// the batcher holds nothing. Otherwise the item is held.
    pub fn push(&mut self, item: T) -> (group: Option<Vec<T>>)
        ensures
            final(self)@ == old(self)@.pushed(item),
            group is Some <==> old(self)@.completed(item) is Some,
            group matches Some(items) ==> old(self)@.completed(item) == Some(items@),
    {
        proof {
            use_type_invariant(&*self);
        }
        if self.size == 0 {
            assert(self@.pending =~= Seq::empty());
            return None;
        }
        let mut batcher = Batcher::new(self.size);
        core::mem::swap(self, &mut batcher);
        let Batcher { size, mut pending } = batcher;
        pending.push(item);
        if pending.len() >= size {
            Some(pending)
        } else {
            *self = Batcher { size, pending };
            None
        }
    }

    /// Ends the input: hands out what is held, if anything is.
    pub fn finish(self) -> (group: Option<Vec<T>>)
        ensures
            group is Some <==> self@.pending.len() > 0,
            group matches Some(items) ==> items@ == self@.pending,
    {
        if self.pending.len() == 0 {
            None
        } else {
            Some(self.pending)
        }
    }
}

/// Batching loses nothing and keeps the order. Whatever is pushed into a
/// batcher of a size above 0: the groups handed out, followed by what is
/// still held, are the items pushed, in their order; every group handed out
/// on the way has exactly the full size; and what is held is less than a
/// full group.
pub proof fn law_batching<T>(size: nat, items: Seq<T>)
    requires
        size > 0,
    ensures
        Batching::<T>::start(size).fed(items).size == size,
        concat(Batching::<T>::start(size).emitted(items)) + Batching::<T>::start(size).fed(
            items,
        ).pending == items,
        forall|k: int|
            0 <= k < Batching::<T>::start(size).emitted(items).len() ==> (
            #[trigger] Batching::<T>::start(size).emitted(items)[k]).len() == size,
        Batching::<T>::start(size).fed(items).pending.len() < size,
    decreases items.len(),
{
    let start = Batching::<T>::start(size);
    if items.len() > 0 {
        let before = items.drop_last();
        law_batching(size, before);
        let state = start.fed(before);
        let out = start.emitted(before);
        match state.completed(items.last()) {
            Some(group) => {
                assert(out.push(group).drop_last() =~= out);
                assert(concat(out.push(group)) == concat(out) + group);
                assert(concat(out) + (state.pending.push(items.last())) =~= (concat(out)
                    + state.pending).push(items.last()));
                assert(before.push(items.last()) =~= items);
                assert(concat(start.emitted(items)) + start.fed(items).pending =~= items);
            },
            None => {
                assert(concat(out) + (state.pending.push(items.last())) =~= (concat(out)
                    + state.pending).push(items.last()));
                assert(before.push(items.last()) =~= items);
            },
        }
    } else {
        assert(concat(start.emitted(items)) + start.fed(items).pending =~= items);
    }
}

} // verus!

use vstd::prelude::*;

verus! {

/// A list with at least one element: its first element and the rest. A chunk's contents are
/// held in one: a content item can hold chunks in turn, and Verus accepts no container of the
/// `nonempty` crate inside a type that the container's elements contain.
#[derive(Debug, PartialEq, Eq)]
pub struct NonEmptyVec<T> {
    pub head: T,
    pub tail: Vec<T>,
}

impl<T> NonEmptyVec<T> {
    /// The elements, in order.
    pub open spec fn spec_elements(&self) -> Seq<T> {
        seq![self.head] + self.tail@
    }

    /// A list of one element.
    pub fn new(head: T) -> (r: Self)
        ensures
            r.spec_elements() == seq![head],
            r.head == head,
            r.tail@ == Seq::<T>::empty(),
    {
        let r = NonEmptyVec { head, tail: Vec::new() };
        proof {
            assert(r.spec_elements() =~= seq![head]);
        }
        r
    }

    /// The number of elements.
    pub fn len(&self) -> (n: usize)
        requires
            self.tail.len() < usize::MAX,
        ensures
            n == self.spec_elements().len(),
    {
        self.tail.len() + 1
    }

    /// Appends an element.
    pub fn push(&mut self, x: T)
        ensures
            final(self).spec_elements() == old(self).spec_elements().push(x),
            final(self).head == old(self).head,
            final(self).tail@ == old(self).tail@.push(x),
    {
        self.tail.push(x);
        proof {
            assert(self.spec_elements() =~= old(self).spec_elements().push(x));
        }
    }

    /// The first element.
    pub fn first(&self) -> (r: &T)
        ensures
            *r == self.spec_elements()[0],
    {
        &self.head
    }

    /// The last element.
    pub fn last(&self) -> (r: &T)
        ensures
            *r == self.spec_elements().last(),
    {
        if self.tail.len() == 0 {
            &self.head
        } else {
            &self.tail[self.tail.len() - 1]
        }
    }

    /// The element at `i`.
    pub fn get(&self, i: usize) -> (r: &T)
        requires
            i < self.spec_elements().len(),
        ensures
            *r == self.spec_elements()[i as int],
    {
        if i == 0 {
            &self.head
        } else {
            &self.tail[i - 1]
        }
    }
}

} // verus!

//! Finite lists, made to grow at the front.
use vstd::prelude::*;

verus! {

/// A list of items. The head is the first of them.
pub struct List<T> {
    items: Vec<T>,
}

impl<T: View> View for List<T> {
    type V = Seq<T::V>;

    closed spec fn view(&self) -> Seq<T::V> {
        Seq::new(self.items@.len(), |i: int| self.items@[i]@)
    }
}

impl<T: View> List<T> {
    /// The empty list.
    pub fn nil() -> (r: List<T>)
        ensures
            r@ == Seq::<T::V>::empty(),
    {
        let r: List<T> = List { items: Vec::new() };
        assert(r@ =~= Seq::<T::V>::empty());
        r
    }

    /// The list of one item.
    pub fn singleton(x: T) -> (r: List<T>)
        ensures
            r@ == seq![x@],
    {
        let mut r: List<T> = List::nil();
        r.cons(x);
        assert(r@ =~= seq![x@]);
        r
    }

    /// The number of items.
    pub fn len(&self) -> (n: usize)
        ensures
            n == self@.len(),
    {
        self.items.len()
    }

    /// Whether there is no item.
    pub fn is_empty(&self) -> (b: bool)
        ensures
            b == (self@.len() == 0),
    {
        self.items.len() == 0
    }

    /// The head, if there is one.
    pub fn hd(&self) -> (r: Option<&T>)
        ensures
            r matches Some(x) ==> self@.len() > 0 && x@ == self@[0],
            r is None ==> self@.len() == 0,
    {
        if self.items.len() == 0 {
            None
        } else {
            Some(&self.items[0])
        }
    }

    /// The item at position `i`, counted from the head.
    pub fn at(&self, i: usize) -> (x: &T)
        requires
            i < self@.len(),
        ensures
            x@ == self@[i as int],
    {
        &self.items[i]
    }

    /// Puts `x` in front.
    pub fn cons(&mut self, x: T)
        ensures
            final(self)@ == seq![x@] + old(self)@,
    {
        self.items.insert(0, x);
        assert(self@ =~= seq![x@] + old(self)@);
    }

    /// Puts `x` behind the last item.
    pub fn snoc(&mut self, x: T)
        ensures
            final(self)@ == old(self)@.push(x@),
    {
        self.items.push(x);
        assert(self@ =~= old(self)@.push(x@));
    }

    /// Drops the last item, if there is one.
    pub fn init(&mut self)
        ensures
            old(self)@.len() > 0 ==> final(self)@ == old(self)@.drop_last(),
            old(self)@.len() == 0 ==> final(self)@ == old(self)@,
    {
        if self.items.len() > 0 {
            let n: usize = self.items.len() - 1;
            self.items.truncate(n);
            assert(self@ =~= old(self)@.drop_last());
        }
    }

    /// Drops the first `n` items, or all where there are fewer.
    pub fn drop(&mut self, n: usize)
        ensures
            n <= old(self)@.len() ==> final(self)@ == old(self)@.skip(n as int),
            n > old(self)@.len() ==> final(self)@ == Seq::<T::V>::empty(),
    {
        if n <= self.items.len() {
            let kept = self.items.split_off(n);
            self.items = kept;
            assert(self@ =~= old(self)@.skip(n as int));
        } else {
            self.items.clear();
            assert(self@ =~= Seq::<T::V>::empty());
        }
    }

    /// Moves the items of `other` behind those of this list.
    pub fn append(&mut self, other: List<T>)
        ensures
            final(self)@ == old(self)@ + other@,
    {
        let mut rest = other.items;
        self.items.append(&mut rest);
        assert(self@ =~= old(self)@ + other@);
    }

    /// Takes out the item at position `i`.
    pub fn remove(&mut self, i: usize) -> (x: T)
        requires
            i < old(self)@.len(),
        ensures
            x@ == old(self)@[i as int],
            final(self)@ == old(self)@.remove(i as int),
    {
        let x = self.items.remove(i);
        assert(self@ =~= old(self)@.remove(i as int));
        x
    }

    /// Replaces the item at position `i`.
    pub fn replace(&mut self, i: usize, x: T)
        requires
            i < old(self)@.len(),
        ensures
            final(self)@ == old(self)@.update(i as int, x@),
    {
        self.items[i] = x;
        assert(self@ =~= old(self)@.update(i as int, x@));
    }
}

impl<T: View> List<T> {
    /// A list has no more items than a machine can count.
    pub proof fn lemma_len(&self)
        ensures
            self@.len() <= usize::MAX,
    {
        vstd::std_specs::vec::axiom_spec_len(&self.items);
    }

    /// What stands at a position of the model is the model of an item.
    pub proof fn lemma_item(&self, i: int) -> (x: T)
        requires
            0 <= i < self@.len(),
        ensures
            x@ == self@[i],
    {
        self.items@[i]
    }
}

impl<T: View + Copy> Clone for List<T> {
    fn clone(&self) -> (r: List<T>)
        ensures
            r@ == self@,
    {
        let mut r: List<T> = List::nil();
        let n: usize = self.items.len();
        let mut i: usize = 0;
        while i < n
            invariant
                n == self@.len(),
                i <= n,
                r@ == self@.take(i as int),
            decreases n - i,
        {
            let x: T = *self.at(i);
            r.snoc(x);
            assert(self@.take(i as int).push(self@[i as int]) =~= self@.take(i + 1));
            i = i + 1;
        }
        assert(self@.take(n as int) =~= self@);
        r
    }
}

} // verus!

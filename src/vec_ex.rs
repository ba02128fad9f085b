//! Pushing onto a vector and keeping hold of the new element.
use vstd::prelude::*;

verus! {

pub trait VecPushGetMut<T>: Sized {
    spec fn items(&self) -> Seq<T>;

    /// Appends `value` and gives access to it in place.
    fn push_get_mut(&mut self, value: T) -> (r: &mut T)
        ensures
            *r == value,
            final(self).items() == old(self).items().push(*final(r)),
    ;

    /// Gives access in place to the first element that `cond` accepts, or,
    /// where it accepts none, to `get_val()` appended.
    fn find_or_push<F: Fn(&T) -> bool, G: FnOnce() -> T>(&mut self, cond: F, get_val: G) -> (r:
        &mut T)
        requires
            forall|i: int| 0 <= i < old(self).items().len() ==> cond.requires((&old(self).items()[i],)),
            get_val.requires(()),
        ensures
            ({
                let items = old(self).items();
                ||| exists|i: int|
                    0 <= i < items.len() && cond.ensures((&items[i],), true) && (forall|j: int|
                        0 <= j < i ==> cond.ensures((&items[j],), false)) && *r == items[i]
                        && final(self).items() == items.update(i, *final(r))
                ||| (forall|j: int| 0 <= j < items.len() ==> cond.ensures((&items[j],), false))
                    && get_val.ensures((), *r) && final(self).items() == items.push(*final(r))
            }),
    ;
}

impl<T> VecPushGetMut<T> for Vec<T> {
    open spec fn items(&self) -> Seq<T> {
        self@
    }

    fn push_get_mut(&mut self, value: T) -> (r: &mut T) {
        self.push(value);
        let n = self.len() - 1;
        &mut self[n]
    }

    fn find_or_push<F: Fn(&T) -> bool, G: FnOnce() -> T>(&mut self, cond: F, get_val: G) -> (r:
        &mut T) {
        let mut i: usize = 0;
        assert forall|k: int| 0 <= k < self@.len() implies cond.requires((&self@[k],)) by {
            assert(self@[k] == old(self).items()[k]);
        }
        while i < self.len()
            invariant
                i <= self@.len(),
                self@ == old(self)@,
                forall|k: int| 0 <= k < self@.len() ==> cond.requires((&self@[k],)),
                forall|j: int| 0 <= j < i ==> cond.ensures((&self@[j],), false),
            decreases self@.len() - i,
        {
            if cond(&self[i]) {
                return &mut self[i];
            }
            i = i + 1;
        }
        self.push(get_val());
        let n = self.len() - 1;
        &mut self[n]
    }
}

} // verus!

use vstd::prelude::*;

use arraydeque::{ArrayDeque, CapacityError};

use crate::state_change::StateChange;

verus! {

#[verifier::external_type_specification]
#[verifier::external_body]
#[verifier::reject_recursive_types(T)]
pub struct ExCapacityError<T>(CapacityError<T>);

/// How many state changes the cache holds at most.
pub const STATE_CHANGE_CACHE_CAPACITY: usize = 150;

/// The recent state changes, newest at the front, at most
/// `STATE_CHANGE_CACHE_CAPACITY` of them: a saturating `ArrayDeque`.
#[verifier::external_body]
pub struct StateChangeCache {
    deque: ArrayDeque<StateChange, 150>,
}

/// The state changes that the cache holds, front first.
pub uninterp spec fn cache_changes(cache: StateChangeCache) -> Seq<StateChange>;

impl View for StateChangeCache {
    type V = Seq<StateChange>;

    open spec fn view(&self) -> Seq<StateChange> {
        cache_changes(*self)
    }
}

impl StateChangeCache {
    /// `ArrayDeque::new`: an empty deque.
    #[verifier::external_body]
    pub(crate) fn empty() -> (r: StateChangeCache)
        ensures
            cache_changes(r) == Seq::<StateChange>::empty(),
    {
        StateChangeCache { deque: ArrayDeque::new() }
    }

    /// `ArrayDeque::is_full`: whether the deque holds as many items as its
    /// capacity (the deque never holds more).
    #[verifier::external_body]
    pub(crate) fn is_full(&self) -> (r: bool)
        ensures
            r == (cache_changes(*self).len() == STATE_CHANGE_CACHE_CAPACITY),
            r || cache_changes(*self).len() < STATE_CHANGE_CACHE_CAPACITY,
    {
        self.deque.is_full()
    }

    /// `ArrayDeque::get`: the item at the index, counted from the front, if
    /// there is one.
    #[verifier::external_body]
    pub(crate) fn get(&self, index: usize) -> (r: Option<&StateChange>)
        ensures
            index < cache_changes(*self).len() ==> r == Some(&cache_changes(*self)[index as int]),
            index >= cache_changes(*self).len() ==> r is None,
    {
        self.deque.get(index)
    }

    /// `ArrayDeque::pop_front`: removes and returns the front item, if any.
    #[verifier::external_body]
    pub(crate) fn pop_front(&mut self) -> (r: Option<StateChange>)
        ensures
            cache_changes(*old(self)).len() > 0 ==> r == Some(cache_changes(*old(self)).first())
                && cache_changes(*final(self)) == cache_changes(*old(self)).drop_first(),
            cache_changes(*old(self)).len() == 0 ==> r is None && cache_changes(*final(self))
                == cache_changes(*old(self)),
    {
        self.deque.pop_front()
    }

    /// `ArrayDeque::pop_back`: removes and returns the back item, if any.
    #[verifier::external_body]
    pub(crate) fn pop_back(&mut self) -> (r: Option<StateChange>)
        ensures
            cache_changes(*old(self)).len() > 0 ==> r == Some(cache_changes(*old(self)).last())
                && cache_changes(*final(self)) == cache_changes(*old(self)).drop_last(),
            cache_changes(*old(self)).len() == 0 ==> r is None && cache_changes(*final(self))
                == cache_changes(*old(self)),
    {
        self.deque.pop_back()
    }

    /// `ArrayDeque::push_front` of a saturating deque: puts the item at the
    /// front unless the deque is full, in which case it hands the item back
    /// and leaves the deque as it was.
    #[verifier::external_body]
    pub(crate) fn push_front(&mut self, element: StateChange) -> (r: Result<
        (),
        CapacityError<StateChange>,
    >)
        ensures
            cache_changes(*old(self)).len() != STATE_CHANGE_CACHE_CAPACITY ==> r is Ok
                && cache_changes(*final(self)) == seq![element] + cache_changes(*old(self)),
            cache_changes(*old(self)).len() == STATE_CHANGE_CACHE_CAPACITY ==> r is Err
                && cache_changes(*final(self)) == cache_changes(*old(self)),
    {
        self.deque.push_front(element)
    }
}

impl StateChangeCache {
    /// An empty cache.
    pub fn new() -> (r: StateChangeCache)
        ensures
            r@ == Seq::<StateChange>::empty(),
    {
        StateChangeCache::empty()
    }

    /// The state change at the index, counted from the front (the newest),
    /// if there is one.
    pub fn state_change(&self, index: usize) -> (r: Option<&StateChange>)
        ensures
            index < self@.len() ==> r == Some(&self@[index as int]),
            index >= self@.len() ==> r is None,
    {
        self.get(index)
    }

    /// How many state changes the cache holds.
    pub fn len(&self) -> (r: usize)
        ensures
            r == self@.len(),
            r <= STATE_CHANGE_CACHE_CAPACITY,
    {
        let _full = self.is_full();
        let mut n: usize = 0;
        while self.get(n).is_some()
            invariant
                n <= self@.len(),
                self@.len() <= STATE_CHANGE_CACHE_CAPACITY,
            decreases self@.len() - n,
        {
            n = n + 1;
        }
        n
    }

    /// The block numbers of the state changes, front first.
    pub fn block_numbers(&self) -> (r: Vec<u64>)
        ensures
            r@ == self@.map_values(|c: StateChange| c.block_number),
    {
        let n = self.len();
        let mut r: Vec<u64> = Vec::new();
        let mut i: usize = 0;
        while i < n
            invariant
                n == self@.len(),
                0 <= i <= n,
                r@ == self@.take(i as int).map_values(|c: StateChange| c.block_number),
            decreases n - i,
        {
            if let Some(state_change) = self.get(i) {
                r.push(state_change.block_number);
            }
            assert(self@.take(i + 1) =~= self@.take(i as int).push(self@[i as int]));
            i = i + 1;
        }
        assert(self@.take(n as int) =~= self@);
        r
    }
}

} // verus!

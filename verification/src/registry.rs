//! A registry keeps values and hands out handles to them.

use vstd::prelude::*;

verus! {

/// The name under which a registry keeps a value.
#[derive(Clone, Copy, Debug, PartialEq, Eq, Structural)]
pub struct Handle {
    /// The position of the value in the registry.
    pub index: usize,
}

/// Values in the order in which they were added.
pub struct Registry<T> {
    items: Vec<T>,
}

impl<T> Registry<T> {
    /// The values in the order in which they were added.
    pub closed spec fn items(&self) -> Seq<T> {
        self.items@
    }

    /// Whether `handle` names a value of this registry.
    pub open spec fn contains(&self, handle: Handle) -> bool {
        handle.index < self.items().len()
    }

    /// A registry without values.
    pub fn new() -> (registry: Self)
        ensures
            registry.items() == Seq::<T>::empty(),
    {
        Self { items: Vec::new() }
    }

    /// Adds `item` and returns its handle; the values added before keep theirs.
    pub fn add(&mut self, item: T) -> (handle: Handle)
        ensures
            final(self).items() == old(self).items().push(item),
            handle.index == old(self).items().len(),
    {
        let index = self.items.len();
        self.items.push(item);
        Handle { index }
    }

    /// The value that `handle` names, if it names one.
    pub fn get(&self, handle: &Handle) -> (item: Option<&T>)
        ensures
            match item {
                Some(value) => self.contains(*handle) && *value == self.items()[handle.index as int],
                None => !self.contains(*handle),
            },
    {
        if handle.index < self.items.len() {
            Some(&self.items[handle.index])
        } else {
            None
        }
    }

    /// The number of values.
    pub fn len(&self) -> (n: usize)
        ensures
            n == self.items().len(),
    {
        self.items.len()
    }
}

} // verus!

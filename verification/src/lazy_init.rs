//! A value that is set once, after construction, and read afterwards.
use vstd::prelude::*;

verus! {

/// A cell that starts empty and is initialised exactly once.
pub struct LazyInit<T> {
    value: Option<T>,
}

impl<T> LazyInit<T> {
    /// The value, once initialised.
    pub closed spec fn contents(&self) -> Option<T> {
        self.value
    }

    /// Whether the cell has been initialised.
    pub open spec fn initialized(&self) -> bool {
        self.contents() is Some
    }

    /// An empty cell.
    pub fn new() -> (r: Self)
        ensures
            r.contents() is None,
    {
        LazyInit { value: None }
    }

    /// Initialises the cell with `v`; the cell must still be empty.
    pub fn init_by(&mut self, v: T)
        requires
            !old(self).initialized(),
        ensures
            final(self).contents() == Some(v),
    {
        self.value = Some(v);
    }

    /// Whether the cell has been initialised.
    pub fn is_initialized(&self) -> (r: bool)
        ensures
            r == self.initialized(),
    {
        self.value.is_some()
    }

    /// The value of an initialised cell.
    pub fn get(&self) -> (r: &T)
        requires
            self.initialized(),
        ensures
            Some(*r) == self.contents(),
    {
        self.check_init();
        self.value.as_ref().unwrap()
    }

    /// The value of an initialised cell, to be changed in place.
    pub fn get_mut(&mut self) -> (r: &mut T)
        requires
            old(self).initialized(),
        ensures
            Some(*r) == old(self).contents(),
            final(self).contents() == Some(*final(r)),
    {
        self.check_init();
        self.value.as_mut().unwrap()
    }

    /// Checks that the cell has been initialised; reading an empty cell is
    /// an error that callers must rule out.
    pub fn check_init(&self)
        requires
            self.initialized(),
    {
    }
}

} // verus!

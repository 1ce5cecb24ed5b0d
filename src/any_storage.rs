//! Lookup of a per-component storage by the component's type.

use std::any::Any;
use vstd::prelude::*;

verus! {

/// A component type names the storage that holds its values.
pub trait Component {
    type Storage;
}

/// A collection of component storages, one per component type.
pub trait ComponentStorage {
    fn get<T: Any + Component>(&self) -> Option<&T::Storage>;

    fn get_mut<'a, T: 'a + Any + Component>(&'a mut self) -> Option<&'a mut T::Storage>;
}

} // verus!

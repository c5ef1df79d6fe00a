//! The page-table pages of physical memory, by the address at which the kernel reaches them.
//!
//! A page table refers to the next level by a physical address; this store holds the table
//! found at each such address, so that a walk follows addresses as values.
use vstd::prelude::*;
use std::collections::HashMap;

verus! {

/// Page tables of type `T` held in memory, by address.
pub struct TableMemory<T> {
    tables: HashMap<usize, T>,
}

impl<T: Copy> TableMemory<T> {
    /// The table stored at each address.
    pub closed spec fn view(&self) -> Map<usize, T> {
        self.tables@
    }

    /// Memory holding no page table.
    pub fn new() -> (m: Self)
        ensures
            m@ == Map::<usize, T>::empty(),
    {
        TableMemory { tables: HashMap::new() }
    }

    /// The table at `addr`, if one is stored there.
    pub fn read(&self, addr: usize) -> (r: Option<T>)
        ensures
            r == (if self@.contains_key(addr) {
                Some(self@[addr])
            } else {
                None
            }),
    {
        match self.tables.get(&addr) {
            Some(t) => Some(*t),
            None => None,
        }
    }

    /// Stores `table` at `addr`, replacing what was there.
    pub fn write(&mut self, addr: usize, table: T)
        ensures
            final(self)@ == old(self)@.insert(addr, table),
    {
        self.tables.insert(addr, table);
    }

    /// Whether a table is stored at `addr`.
    pub fn contains(&self, addr: usize) -> (r: bool)
        ensures
            r == self@.contains_key(addr),
    {
        self.tables.contains_key(&addr)
    }
}

} // verus!

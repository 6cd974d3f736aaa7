//! Which row of a list is selected, and how far the list is scrolled.
use vstd::prelude::*;

verus! {

/// The selected index, if there is one, and the first index on the screen.
#[derive(Debug, Clone, Copy)]
pub struct ListState {
    pub selected: Option<usize>,
    pub offset: usize,
}

/// The state after selecting `index`: selecting nothing scrolls back to the top.
pub open spec fn selecting(state: ListState, index: Option<usize>) -> ListState {
    ListState {
        selected: index,
        offset: if index is None {
            0
        } else {
            state.offset
        },
    }
}

impl ListState {
    /// Nothing selected, at the top.
    pub fn new() -> (state: ListState)
        ensures
            state == (ListState { selected: None, offset: 0 }),
    {
        ListState { selected: None, offset: 0 }
    }

    /// Selects an index, or nothing.
    pub fn select(&mut self, index: Option<usize>)
        ensures
            *final(self) == selecting(*old(self), index),
    {
        self.selected = index;
        if index.is_none() {
            self.offset = 0;
        }
    }
}

} // verus!

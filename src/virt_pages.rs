use vstd::prelude::*;

verus! {

/// A page-table entry that names its frame by physical page number.
#[derive(Debug, Clone, Copy)]
pub struct Page {
    pub presence: bool,
    pub reference: bool,
    pub modification: bool,
    /// Physical page number.
    pub ppn: usize,
}

impl Page {
    /// An entry for frame `ppn` with every status bit clear.
    pub fn new(ppn: usize) -> (r: Page)
        ensures
            !r.presence,
            !r.reference,
            !r.modification,
            r.ppn == ppn,
    {
        Page { presence: false, reference: false, modification: false, ppn }
    }
}

} // verus!

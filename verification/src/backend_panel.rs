use vstd::prelude::*;

verus! {

/// The debug side panel's persisted state: whether it is open. What the
/// panel shows is owned by the shell that draws it.
pub struct BackendPanel {
    pub open: bool,
}

impl Default for BackendPanel {
    /// The panel starts closed.
    fn default() -> (p: BackendPanel)
        ensures
            !p.open,
    {
        BackendPanel { open: false }
    }
}

} // verus!

//! Selection of an external single-parameter edge collapser.  Running the
//! chosen executable and parsing its output is process-handling glue that
//! lives outside this library; the choice itself is plain data.

use vstd::prelude::*;

verus! {

/// Which external single-parameter edge collapser to invoke.
#[derive(Debug, PartialEq, Eq, Copy, Clone)]
pub enum SingleCollapser {
    Giotto,
    Glisse,
}

impl SingleCollapser {
    /// The name of the executable that runs the chosen collapser.
    pub open spec fn spec_command_name(&self) -> Seq<char> {
        match self {
            SingleCollapser::Giotto => "giotto_collapser"@,
            SingleCollapser::Glisse => "glisse_collapser"@,
        }
    }

    /// The name of the executable that runs the chosen collapser.
    pub fn command_name(&self) -> (r: &'static str)
        ensures
            r@ == self.spec_command_name(),
    {
        match self {
            SingleCollapser::Giotto => "giotto_collapser",
            SingleCollapser::Glisse => "glisse_collapser",
        }
    }
}

} // verus!

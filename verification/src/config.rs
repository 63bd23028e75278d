//! The configuration of one container: a name followed by zero or more
//! directives.

use vstd::prelude::*;
use crate::config_item::ConfigItem;

verus! {

/// A container's parsed configuration: its name and the directives read from
/// its block, in order.
#[derive(Debug)]
pub struct Configuration {
    pub name: String,
    pub directives: Vec<ConfigItem>,
}

impl Configuration {
    /// Every directive item holds pairwise-distinct value keys.
    pub open spec fn well_formed(&self) -> bool {
        forall|i: int| 0 <= i < self.directives@.len() ==> (#[trigger] self.directives@[i]).well_formed()
    }

    /// Sets the container name.
    pub fn set_name(&mut self, name: &str)
        ensures
            final(self).name@ == name@,
            final(self).directives == old(self).directives,
    {
        self.name = name.to_owned();
    }

    /// Appends a directive to the container.
    pub fn add_directive(&mut self, directive: ConfigItem)
        ensures
            final(self).directives@ == old(self).directives@.push(directive),
            final(self).name == old(self).name,
    {
        self.directives.push(directive);
    }
}

impl Default for Configuration {
    /// An unnamed configuration with no directives.
    fn default() -> (r: Configuration)
        ensures
            r.well_formed(),
            r.name@ == Seq::<char>::empty(),
            r.directives@ == Seq::<ConfigItem>::empty(),
    {
        Configuration { name: String::new(), directives: Vec::new() }
    }
}

} // verus!

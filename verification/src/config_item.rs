//! One container's configuration item: its name, its keyed values and its
//! raw directives.

use vstd::prelude::*;
use crate::str_map::StrMap;

verus! {

/// The value shapes a configuration key can carry.  Besides a plain string
/// and a boolean flag, a comma-separated or `+=` assignment yields an ordered
/// list of strings.
#[derive(Debug, PartialEq)]
pub enum ConfigValue {
    String(String),
    Boolean(bool),
    Array(Vec<String>),
}

/// A named configuration item: keyed values plus bare directives.  `raw`
/// accumulates the directive text while the block tokenizer is reading it.
#[derive(Debug, PartialEq)]
pub struct ConfigItem {
    pub name: String,
    pub values: StrMap<ConfigValue>,
    pub directives: Vec<String>,
    pub raw: String,
}

impl ConfigItem {
    /// The keyed values hold pairwise-distinct keys.
    pub open spec fn well_formed(&self) -> bool {
        self.values.well_formed()
    }

    /// A fresh item with the given name and nothing else.
    pub fn new(name: &str) -> (r: ConfigItem)
        ensures
            r.well_formed(),
            r.name@ == name@,
            r.values@ == Map::<Seq<char>, ConfigValue>::empty(),
            r.directives@ == Seq::<String>::empty(),
            r.raw@ == Seq::<char>::empty(),
    {
        ConfigItem {
            name: name.to_owned(),
            values: StrMap::new(),
            directives: Vec::new(),
            raw: String::new(),
        }
    }

    /// Stores `value` under `key`; an existing entry for `key` is replaced.
    pub fn add_value(&mut self, key: &str, value: ConfigValue)
        requires
            old(self).well_formed(),
        ensures
            final(self).well_formed(),
            final(self).values@ == old(self).values@.insert(key@, value),
            final(self).name == old(self).name,
            final(self).directives == old(self).directives,
            final(self).raw == old(self).raw,
    {
        self.values.insert(key.to_owned(), value);
    }

    /// Appends one bare directive.
    pub fn add_directive(&mut self, directive: &str)
        ensures
            final(self).directives.deep_view() == old(self).directives.deep_view().push(
                directive@,
            ),
            final(self).name == old(self).name,
            final(self).values == old(self).values,
            final(self).raw == old(self).raw,
    {
        self.directives.push(directive.to_owned());
        proof {
            assert(self.directives.deep_view() =~= old(self).directives.deep_view().push(
                directive@,
            ));
        }
    }
}

} // verus!

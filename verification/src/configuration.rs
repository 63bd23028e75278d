//! The name-indexed configuration built from classified parameters.

use vstd::prelude::*;
use crate::jls::{Parameters, spec_param_name};
use crate::str_map::StrMap;

verus! {

/// The map an ordered parameter list builds: each parameter is keyed by its
/// name, and a later parameter with the same name overwrites an earlier one.
pub open spec fn build_map(s: Seq<Parameters>) -> Map<Seq<char>, Parameters>
    decreases s.len(),
{
    if s.len() == 0 {
        Map::empty()
    } else {
        build_map(s.drop_last()).insert(spec_param_name(s.last()), s.last())
    }
}

/// A container's classified configuration: its parameters keyed by name.
#[derive(Debug)]
pub struct Configuration {
    pub directives: StrMap<Parameters>,
}

impl Configuration {
    /// The keys of the parameter map are pairwise distinct.
    pub open spec fn well_formed(&self) -> bool {
        self.directives.well_formed()
    }

    /// Builds the configuration from an ordered parameter list: each
    /// parameter is stored under its name, and duplicate names overwrite —
    /// the last write wins.
    pub fn new(data: Vec<Parameters>) -> (r: Configuration)
        ensures
            r.well_formed(),
            r.directives@ == build_map(data@),
    {
        let ghost data0 = data@;
        let mut data = data;
        let mut directives: StrMap<Parameters> = StrMap::new();
        let ghost k: int = 0;
        while data.len() > 0
            invariant
                0 <= k <= data0.len(),
                data@ == data0.skip(k),
                directives.well_formed(),
                directives@ == build_map(data0.take(k)),
            decreases data@.len(),
        {
            let p = data.remove(0);
            let key = p.name().clone();
            directives.insert(key, p);
            proof {
                assert(data@ =~= data0.skip(k + 1));
                assert(p == data0[k]);
                assert(data0.take(k + 1).drop_last() =~= data0.take(k));
                assert(data0.take(k + 1).last() == data0[k]);
                assert(build_map(data0.take(k + 1)) == build_map(data0.take(k)).insert(
                    spec_param_name(p),
                    p,
                ));
            }
            proof {
                k = k + 1;
            }
        }
        proof {
            assert(data0.take(k) =~= data0);
        }
        Configuration { directives }
    }

    /// Direct lookup by name.  The name must be present: callers either
    /// pre-check with [`Self::lookup`] or accept that absence is a defect.
    pub fn get(&self, name: &str) -> (r: &Parameters)
        requires
            self.well_formed(),
            self.directives@.dom().contains(name@),
        ensures
            *r == self.directives@[name@],
    {
        match self.directives.get(name) {
            Some(p) => p,
            None => vstd::pervasive::unreached(),
        }
    }

    /// Safe lookup by name.
    pub fn lookup(&self, name: &str) -> (r: Option<&Parameters>)
        requires
            self.well_formed(),
        ensures
            match r {
                Some(p) => self.directives@.dom().contains(name@) && *p
                    == self.directives@[name@],
                None => !self.directives@.dom().contains(name@),
            },
    {
        self.directives.get(name)
    }
}

} // verus!

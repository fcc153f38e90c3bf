//! Walks the levels of a slice.

use crate::basic_orderbook::Level;
use vstd::prelude::*;
use vstd::std_specs::iter::{IteratorSpec, IteratorSpecImpl};

verus! {

/// The levels of a slice, one after the other.
pub struct LevelIter<'a> {
    levels: &'a [Level],
    at: usize,
}

impl<'a> LevelIter<'a> {
    #[verifier::type_invariant]
    spec fn inv(self) -> bool {
        self.at <= self.levels@.len()
    }

    /// The levels still to come.
    pub closed spec fn levels(&self) -> Seq<Level> {
        self.levels@.skip(self.at as int)
    }

    pub(crate) fn new(levels: &'a [Level]) -> (r: Self)
        ensures
            r.levels() == levels@,
            IteratorSpec::obeys_prophetic_iter_laws(&r),
            IteratorSpec::remaining(&r) == levels@,
            IteratorSpec::decrease(&r) is Some,
    {
        let r = LevelIter { levels, at: 0 };
        assert(r.levels() =~= levels@);
        r
    }
}

impl<'a> IteratorSpecImpl for LevelIter<'a> {
    open spec fn obeys_prophetic_iter_laws(&self) -> bool {
        true
    }

    open spec fn remaining(&self) -> Seq<Level> {
        self.levels()
    }

    open spec fn will_return_none(&self) -> bool {
        true
    }

    open spec fn decrease(&self) -> Option<nat> {
        Some(self.levels().len())
    }

    open spec fn initial_value_relation(&self, init: &Self) -> bool {
        init.levels() == self.levels()
    }

    open spec fn peek(&self, index: int) -> Option<Level> {
        if 0 <= index < self.levels().len() {
            Some(self.levels()[index])
        } else {
            None
        }
    }
}

impl<'a> Iterator for LevelIter<'a> {
    type Item = Level;

    fn next(&mut self) -> (ret: Option<Level>) {
        proof {
            use_type_invariant(&*self);
        }
        if self.at < self.levels.len() {
            let ghost before = self.levels();
            let at: usize = self.at;
            *self = LevelIter { levels: self.levels, at: at + 1 };
            assert(self.levels() =~= before.drop_first());
            Some(self.levels[at])
        } else {
            None
        }
    }
}

} // verus!

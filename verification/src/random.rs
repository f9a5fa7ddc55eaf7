//! A cache of samples that is read round and round.

use vstd::arithmetic::div_mod::*;
use vstd::prelude::*;

verus! {

/// What a cache holds: its samples, and the place of the one that is handed out
/// next.
pub struct CacheView<T> {
    pub samples: Seq<T>,
    pub cursor: nat,
}

impl<T> CacheView<T> {
    pub open spec fn wf(self) -> bool {
        self.cursor < self.samples.len()
    }

    /// The sample that is handed out next.
    pub open spec fn current(self) -> T {
        self.samples[self.cursor as int]
    }

    /// The cache once a sample was handed out: behind the last sample the first
    /// one comes again.
    pub open spec fn advanced(self) -> CacheView<T> {
        CacheView {
            cursor: if self.cursor + 1 >= self.samples.len() {
                0
            } else {
                self.cursor + 1
            },
            ..self
        }
    }

    /// The cache once `count` samples were handed out.
    pub open spec fn advanced_by(self, count: nat) -> CacheView<T>
        decreases count,
    {
        if count == 0 {
            self
        } else {
            self.advanced_by((count - 1) as nat).advanced()
        }
    }

    /// The samples come round: after `count` samples the next one is the one
    /// `count` places on, counted round the cache.
    pub proof fn lemma_round(self, count: nat)
        requires
            self.wf(),
        ensures
            self.advanced_by(count).wf(),
            self.advanced_by(count).samples == self.samples,
            self.advanced_by(count).cursor == (self.cursor + count) as int % (self.samples.len() as int),
        decreases count,
    {
        let len = self.samples.len() as int;
        if count == 0 {
            lemma_small_mod(self.cursor, len as nat);
        } else {
            self.lemma_round((count - 1) as nat);
            let before = self.cursor + count - 1;
            lemma_fundamental_div_mod(before, len);
            lemma_mod_bound(before, len);
            let quotient = before / len;
            let rest = before % len;
            if rest + 1 >= len {
                assert(before + 1 == len * (quotient + 1) + 0) by (nonlinear_arith)
                    requires
                        before == len * quotient + rest,
                        rest + 1 == len,
                ;
                lemma_fundamental_div_mod_converse(before + 1, len, quotient + 1, 0);
            } else {
                lemma_fundamental_div_mod_converse(before + 1, len, quotient, rest + 1);
            }
        }
    }
}

/// Samples drawn once and handed out round and round.
pub struct CachedRandom<T> {
    curr_index: usize,
    slice: Vec<T>,
}

impl<T> View for CachedRandom<T> {
    type V = CacheView<T>;

    closed spec fn view(&self) -> CacheView<T> {
        CacheView { samples: self.slice@, cursor: self.curr_index as nat }
    }
}

impl<T> CachedRandom<T> {
    #[verifier::type_invariant]
    spec fn well_formed(&self) -> bool {
        self.curr_index < self.slice@.len()
    }

    /// A cache of the given samples that starts at the first one; `None` where
    /// there is no sample.
    pub fn new(samples: Vec<T>) -> (cache: Option<Self>)
        ensures
            cache is Some <==> samples@.len() > 0,
            cache matches Some(c) ==> c@ == (CacheView { samples: samples@, cursor: 0 }),
    {
        if samples.len() == 0 {
            None
        } else {
            Some(CachedRandom { curr_index: 0, slice: samples })
        }
    }

    /// The number of samples in the cache.
    pub fn len(&self) -> (count: usize)
        ensures
            count == self@.samples.len(),
            count > 0,
    {
        proof {
            use_type_invariant(self);
        }
        self.slice.len()
    }

    /// Hands out the next sample.
    pub fn get_next(&mut self) -> (sample: T) where T: Copy
        ensures
            old(self)@.wf(),
            sample == old(self)@.current(),
            final(self)@ == old(self)@.advanced(),
    {
        proof {
            use_type_invariant(&*self);
        }
        let sample = self.slice[self.curr_index];
        if self.curr_index >= self.slice.len() - 1 {
            self.curr_index = 0;
        } else {
            self.curr_index = self.curr_index + 1;
        }
        sample
    }
}

} // verus!

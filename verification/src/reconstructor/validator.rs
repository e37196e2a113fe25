//! How far estimates were from what the index turned out to be.

use crate::numeric::binary64::Binary64;
use std::collections::VecDeque;
use vstd::prelude::*;

verus! {

/// The errors that are kept.
pub const KEPT_ERRORS: usize = 100;

/// The latest errors, oldest first.
pub struct BrtiValidator {
    errors: VecDeque<Binary64>,
}

/// A row with one more error, without its oldest where it would be too long.
pub open spec fn recorded(errors: Seq<Binary64>, error: Binary64) -> Seq<Binary64> {
    let all = errors.push(error);
    if all.len() > KEPT_ERRORS {
        all.skip(1)
    } else {
        all
    }
}

/// The sum of the sizes of a row of errors, added up from the left.
pub open spec fn total_error(errors: Seq<Binary64>) -> Binary64
    decreases errors.len(),
{
    if errors.len() == 0 {
        Binary64::make(true, 0)
    } else {
        total_error(errors.drop_last()).sum(errors.last().absolute())
    }
}

impl View for BrtiValidator {
    type V = Seq<Binary64>;

    closed spec fn view(&self) -> Seq<Binary64> {
        self.errors@
    }
}

impl BrtiValidator {
    /// At most a hundred errors are kept.
    pub open spec fn wf(self) -> bool {
        self@.len() <= KEPT_ERRORS
    }

    /// No errors yet.
    pub fn new() -> (r: Self)
        ensures
            r.wf(),
            r@ == Seq::<Binary64>::empty(),
    {
        BrtiValidator { errors: VecDeque::new() }
    }

    /// Keeps the error of an estimate, where the actual value is known.
    pub fn record(&mut self, estimate: Binary64, actual: Option<Binary64>)
        requires
            old(self).wf(),
        ensures
            final(self).wf(),
            final(self)@ == (match actual {
                Some(value) => recorded(old(self)@, value.difference(estimate)),
                None => old(self)@,
            }),
    {
        match actual {
            Some(value) => {
                self.errors.push_back(value.sub(estimate));
                if self.errors.len() > KEPT_ERRORS {
                    self.errors.pop_front();
                    proof {
                        assert(self@ =~= recorded(old(self)@, value.difference(estimate)));
                    }
                }
            },
            None => {},
        }
    }

    /// The mean size of the errors; zero where there are none.
    pub fn mean_absolute_error(&self) -> (r: Binary64)
        requires
            self.wf(),
        ensures
            r == (if self@.len() == 0 {
                Binary64::whole(0)
            } else {
                total_error(self@).quotient(Binary64::whole(self@.len() as int))
            }),
    {
        if self.errors.len() == 0 {
            return Binary64::from_u64(0);
        }
        let mut sum: Binary64 = Binary64::from_sign_and_magnitude(true, 0);
        let mut i: usize = 0;
        proof {
            assert(self.errors@.take(0) == Seq::<Binary64>::empty());
        }
        while i < self.errors.len()
            invariant
                i <= self.errors@.len(),
                sum == total_error(self.errors@.take(i as int)),
            decreases self.errors@.len() - i,
        {
            proof {
                assert(self.errors@.take(i + 1).drop_last() == self.errors@.take(i as int));
            }
            sum = sum.add(self.errors[i].abs());
            i = i + 1;
        }
        proof {
            assert(self.errors@.take(i as int) == self.errors@);
        }
        sum.div(Binary64::from_u64(self.errors.len() as u64))
    }
}

impl Default for BrtiValidator {
    fn default() -> (r: Self)
        ensures
            r.wf(),
            r@ == Seq::<Binary64>::empty(),
    {
        BrtiValidator::new()
    }
}

} // verus!

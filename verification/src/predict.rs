//! Predictors for the residual stage.  The windowed-median predictor keeps
//! the last few values and predicts their median.

use vstd::prelude::*;
use crate::numutil::{sort_i64, sorted_i64};

verus! {

/// The rounded midpoint of two values, rounding halves away from zero.
pub open spec fn round_half(m2: int) -> int {
    if m2 >= 0 {
        (m2 + 1) / 2
    } else {
        -((-m2 + 1) / 2)
    }
}

/// Predicts the median of the last `window_size` values.
pub struct WindowMedianPredictor {
    pub window_size: usize,
    pub buffer: Vec<i64>,
}

impl WindowMedianPredictor {
    pub fn new(window_size: usize) -> (r: Self)
        ensures
            r.window_size == window_size,
            r.buffer@.len() == 0,
    {
        Self { window_size, buffer: Vec::new() }
    }

    /// Remembers a value, forgetting the oldest once the window is full.
    pub fn push_value(&mut self, value: i64)
        ensures
            ({
                let b = old(self).buffer@.push(value);
                final(self).buffer@ == if b.len() > old(self).window_size {
                    b.subrange(1, b.len() as int)
                } else {
                    b
                }
            }),
            final(self).window_size == old(self).window_size,
    {
        self.buffer.push(value);
        if self.buffer.len() > self.window_size {
            self.buffer.remove(0);
            proof {
                assert(self.buffer@ =~= old(self).buffer@.push(value).subrange(
                    1,
                    old(self).buffer@.push(value).len() as int,
                ));
            }
        }
    }

    /// The median of the remembered values, halves rounded away from zero;
    /// nothing when no value has been seen.
    pub fn predict(&mut self) -> (r: Option<i64>)
        ensures
            *final(self) == *old(self),
            r is None <==> old(self).buffer@.len() == 0,
            old(self).buffer@.len() == 1 ==> r == Some(old(self).buffer@[0]),
            old(self).buffer@.len() > 1 ==> (exists|m: Seq<i64>|
                sorted_i64(m) && #[trigger] m.to_multiset() == old(self).buffer@.to_multiset()
                    && m.len() == old(self).buffer@.len() && r == Some(
                    round_half(m[(m.len() - 1) as int / 2] + m[m.len() as int / 2]) as i64,
                )),
    {
        let blen = self.buffer.len();
        if blen == 0 {
            None
        } else if blen == 1 {
            Some(self.buffer[0])
        } else {
            let v = sort_i64(&self.buffer);
            let i1 = (blen - 1) / 2;
            let i2 = blen / 2;
            let m2: i128 = v[i1] as i128 + v[i2] as i128;
            let med: i128 = if m2 >= 0 {
                (m2 + 1) / 2
            } else {
                -((-m2 + 1) / 2)
            };
            proof {
                let a = v@[i1 as int] as int;
                let b = v@[i2 as int] as int;
                assert(i1 <= i2 < v@.len());
                assert(a <= b);
                assert(a <= round_half(a + b) <= b) by (nonlinear_arith)
                    requires
                        a <= b,
                        round_half(a + b) == if a + b >= 0 {
                            (a + b + 1) / 2
                        } else {
                            -((-(a + b) + 1) / 2)
                        },
                ;
            }
            Some(med as i64)
        }
    }
}

/// Placeholder for a predictor drawing on several recent streams.
pub struct MultivariatePredictor {}

/// Placeholder for a predictor mixing others together.
pub struct MixPredictor {}

} // verus!

//! The residual corrector: a value is either carried raw, when no prediction
//! exists, or as its difference from the predicted value.

use vstd::prelude::*;

verus! {

/// How a value was carried.
#[derive(Debug, PartialEq, Eq, Clone, Copy, Structural)]
pub enum ValueType {
    Raw,
    Corrected,
}

/// A carried value and how to read it.
#[derive(Debug, PartialEq, Eq, Clone, Copy, Structural)]
pub struct DiffValue {
    pub qtype: ValueType,
    pub value: i64,
}

impl DiffValue {
    pub fn new_raw(value: i64) -> (r: Self)
        ensures
            r == (DiffValue { qtype: ValueType::Raw, value }),
    {
        Self { qtype: ValueType::Raw, value }
    }

    pub fn new_corrected(value: i64) -> (r: Self)
        ensures
            r == (DiffValue { qtype: ValueType::Corrected, value }),
    {
        Self { qtype: ValueType::Corrected, value }
    }
}

/// Turns values into residuals against a prediction and back.
pub struct BasicCorrector {}

impl BasicCorrector {
    pub fn new() -> (r: Self) {
        Self {  }
    }

    /// The residual of `qval` against the prediction, or the raw value when
    /// there is none.
    pub fn diff(&self, qval: i64, predicted: Option<i64>) -> (r: DiffValue)
        requires
            predicted matches Some(p) ==> i64::MIN <= qval - p <= i64::MAX,
        ensures
            match predicted {
                None => r == (DiffValue { qtype: ValueType::Raw, value: qval }),
                Some(p) => r == (DiffValue { qtype: ValueType::Corrected, value: (qval - p) as i64 }),
            },
    {
        match predicted {
            None => DiffValue::new_raw(qval),
            Some(p) => DiffValue::new_corrected(qval - p),
        }
    }

    /// Undoes `diff`: a raw value stands alone, a corrected one leans on the
    /// prediction, which must exist.
    pub fn undiff(&self, last_pred: Option<i64>, diff: DiffValue) -> (r: i64)
        requires
            diff.qtype == ValueType::Corrected ==> (last_pred matches Some(p) && i64::MIN <= p
                + diff.value <= i64::MAX),
        ensures
            match diff.qtype {
                ValueType::Raw => r == diff.value,
                ValueType::Corrected => r == last_pred.unwrap() + diff.value,
            },
    {
        match diff.qtype {
            ValueType::Raw => diff.value,
            ValueType::Corrected => {
                let p = match last_pred {
                    Some(p) => p,
                    None => unreached(),
                };
                p + diff.value
            },
        }
    }
}

/// With the same prediction on both sides, the corrector is lossless.
pub proof fn lemma_corrector_round_trip(qval: int, p: int)
    ensures
        p + (qval - p) == qval,
{
}

} // verus!

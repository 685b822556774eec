use vstd::prelude::*;
use vstd::string::StringExecFns;

use std::sync::atomic::{AtomicI64, Ordering};

verus! {

/// Why a counter update was rejected.
#[derive(Clone, Copy, Debug, PartialEq, Eq, Structural)]
pub enum MetricsError {
    KeyNotFound,
}

/// A fixed family of named counters, safe for concurrent increment: the
/// set of names is immutable after construction and each name owns one
/// atomic counter, so sharing the table lets any number of threads
/// increment at once without locking.
pub struct AMapMetrics {
    pub names: Vec<String>,
    pub counters: Vec<AtomicI64>,
}

impl AMapMetrics {
    /// The names the table was built over, in registration order.
    pub open spec fn spec_names(self) -> Seq<Seq<char>> {
        self.names@.map_values(|s: String| s@)
    }

    /// One counter per name.
    pub open spec fn well_formed(self) -> bool {
        self.names@.len() == self.counters@.len()
    }

    /// Builds one zeroed counter per name.
    pub fn new(metric_names: &[&'static str]) -> (m: AMapMetrics)
        ensures
            m.well_formed(),
            m.spec_names().len() == metric_names@.len(),
            forall|k: int| 0 <= k < metric_names@.len() ==> m.spec_names()[k]
                == #[trigger] metric_names@[k]@,
    {
        let mut names: Vec<String> = Vec::new();
        let mut counters: Vec<AtomicI64> = Vec::new();
        let mut i: usize = 0;
        while i < metric_names.len()
            invariant
                i <= metric_names@.len(),
                names@.len() == i,
                counters@.len() == i,
                forall|k: int| 0 <= k < i ==> names@[k]@ == #[trigger] metric_names@[k]@,
            decreases metric_names@.len() - i,
        {
            names.push(<String as StringExecFns>::from_str(metric_names[i]));
            counters.push(AtomicI64::new(0));
            i = i + 1;
        }
        AMapMetrics { names, counters }
    }

    /// Increments the counter registered under `key`. A name that was
    /// never registered is reported, not silently created.
    pub fn inc(&self, key: &str) -> (r: Result<(), MetricsError>)
        requires
            self.well_formed(),
        ensures
            r is Ok <==> self.spec_names().contains(key@),
            r is Err ==> r == Err::<(), MetricsError>(MetricsError::KeyNotFound),
    {
        let k = <String as StringExecFns>::from_str(key);
        let mut i: usize = 0;
        while i < self.names.len()
            invariant
                self.well_formed(),
                i <= self.names@.len(),
                k@ == key@,
                forall|m: int| 0 <= m < i ==> #[trigger] self.names@[m]@ != key@,
            decreases self.names@.len() - i,
        {
            if self.names[i] == k {
                self.counters[i].fetch_add(1, Ordering::Relaxed);
                proof {
                    assert(self.spec_names()[i as int] == key@);
                    assert(self.spec_names().contains(key@));
                }
                return Ok(());
            }
            i = i + 1;
        }
        proof {
            assert forall|m: int| 0 <= m < self.spec_names().len() implies #[trigger] self
                .spec_names()[m] != key@ by {
                assert(self.names@[m]@ != key@);
            }
            assert(!self.spec_names().contains(key@));
        }
        Err(MetricsError::KeyNotFound)
    }
}

} // verus!

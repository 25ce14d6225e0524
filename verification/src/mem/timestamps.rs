//! Wall-clock timestamp series with millisecond granularity.

use vstd::prelude::*;

use super::int_deltabuf::byte_len;
use super::int_deltabuf::DeltaBuf;
use super::Timestamps;
use crate::ByteSize;

verus! {

/// Timestamp series with millisecond granularity.
///
/// Holds the most recent wall timestamp, the current age (one tick per
/// pushed timestamp, starting at 0), and the delta-encoded history of all
/// earlier timestamps.
pub struct TimestampsMs {
    last: u64,
    age: u64,
    buf: DeltaBuf,
}

/// The wall-clock reading mechanism is an external collaborator.
#[verifier::external_type_specification]
#[verifier::external_body]
pub struct ExSystemTime(std::time::SystemTime);

/// Relies on `std::time::SystemTime::now`: the current system time.  The
/// result depends on the machine's clock, so nothing is promised of it.
#[verifier::external_body]
fn system_now() -> (r: std::time::SystemTime) {
    std::time::SystemTime::now()
}

/// Relies on `std::time::SystemTime::duration_since` and
/// `std::time::Duration::as_millis`: milliseconds between the Unix epoch
/// and `time`, or 0 for a time before the epoch.
#[verifier::external_body]
fn time_to_ms(time: std::time::SystemTime) -> (r: u64) {
    match time.duration_since(std::time::UNIX_EPOCH) {
        Ok(d) => d.as_millis() as u64,
        Err(_) => 0,
    }
}

impl TimestampsMs {
    /// Internal consistency: the buffer bytes encode the entry sequence,
    /// and exactly one entry was recorded per elapsed tick.
    pub closed spec fn inv(&self) -> bool {
        &&& self.buf.wf()
        &&& self.buf@.len() == self.age
    }

    /// The most recently pushed wall timestamp.
    pub closed spec fn last_spec(&self) -> u64 {
        self.last
    }

    /// New timestamp history starting with a specified timestamp.
    pub fn new(timestamp: u64) -> (r: TimestampsMs)
        ensures
            r.inv(),
            r.age_spec() == 0,
            r.last_spec() == timestamp,
            r.size_spec() == vstd::layout::size_of::<TimestampsMs>(),
    {
        TimestampsMs { age: 0, last: timestamp, buf: DeltaBuf::new() }
    }

    /// Same as [`TimestampsMs::new`] but with the current system time.
    pub fn new_now() -> (r: TimestampsMs)
        ensures
            r.inv(),
            r.age_spec() == 0,
            r.size_spec() == vstd::layout::size_of::<TimestampsMs>(),
    {
        TimestampsMs::new(time_to_ms(system_now()))
    }

    /// Push the next timestamp into the history, advancing the age by
    /// exactly 1 whatever the wall value is: a repeated or backward wall
    /// timestamp is accepted and encoded like any other change.
    ///
    /// Push the timestamp first, before pushing values into the metrics
    /// that depend on this timestamp storage.
    pub fn push(&mut self, timestamp: u64)
        requires
            old(self).inv(),
            old(self).age_spec() < u64::MAX,
        ensures
            final(self).inv(),
            final(self).age_spec() == old(self).age_spec() + 1,
            final(self).last_spec() == timestamp,
            final(self).size_spec() == old(self).size_spec() + 1 + byte_len(
                (if timestamp >= old(self).last_spec() {
                    timestamp - old(self).last_spec()
                } else {
                    old(self).last_spec() - timestamp
                }) as nat,
            ),
    {
        let (positive, magnitude) = if timestamp >= self.last {
            (true, timestamp - self.last)
        } else {
            (false, self.last - timestamp)
        };
        self.buf.push(positive, magnitude, 1);
        self.last = timestamp;
        self.age = self.age + 1;
        proof {
            assert(self.buf@.len() == old(self).buf@.len() + 1);
        }
    }

    /// Same as [`TimestampsMs::push`] but with the current system time.
    pub fn push_now(&mut self)
        requires
            old(self).inv(),
            old(self).age_spec() < u64::MAX,
        ensures
            final(self).inv(),
            final(self).age_spec() == old(self).age_spec() + 1,
            old(self).size_spec() + 1 <= final(self).size_spec() <= old(self).size_spec() + 9,
    {
        let ms = time_to_ms(system_now());
        proof {
            super::int_deltabuf::lemma_byte_len_u64(
                if ms >= self.last {
                    (ms - self.last) as u64
                } else {
                    (self.last - ms) as u64
                },
            );
        }
        self.push(ms);
    }
}

impl Timestamps for TimestampsMs {
    closed spec fn age_spec(&self) -> u64 {
        self.age
    }

    fn current_age(&self) -> (r: u64) {
        self.age
    }
}

impl ByteSize for TimestampsMs {
    closed spec fn size_spec(&self) -> nat {
        vstd::layout::size_of::<TimestampsMs>() + self.buf.heap_spec()
    }

    fn size(&self) -> (r: usize) {
        core::mem::size_of::<TimestampsMs>() + self.buf.heap_size()
    }
}

} // verus!

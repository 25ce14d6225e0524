//! In-memory data structures.
//!
//! All structures here rely on the [`Timestamps`] trait for timestamp
//! bookkeeping.  Metrics are scanned at regular intervals, and at each scan
//! many metrics share the same timestamp, so it would be wasteful to store a
//! timestamp per metric.  A `Timestamps` value holds the shared timestamps
//! and an ever-incrementing `age` counter.
//!
//! When a metric is updated it remembers the current age.  On a read the
//! difference between the current age and the remembered age tells how many
//! ticks went by without an update, and those ticks are rendered as "no
//! observation" markers, so a rarely updated metric never drifts out of sync
//! with the shared timestamps.

use vstd::prelude::*;

mod int_deltabuf;
mod int_series;
mod timestamps;

pub use self::int_series::IntSeries;
pub use self::timestamps::TimestampsMs;

verus! {

/// The capability a metric's value type must supply: a view into the
/// mathematical integers, together with the handful of operations the delta
/// encoding needs (signed difference, adding back a magnitude).  The range
/// of representable values must span at most `u64::MAX`, so that any
/// difference of two values fits into one unsigned 64-bit magnitude.
pub trait Integer: Sized + Copy {
    /// The mathematical integer this value stands for.
    spec fn as_int(&self) -> int;

    /// The value standing for a mathematical integer (meaningful only for
    /// integers inside the representable range).
    spec fn from_int(x: int) -> Self;

    /// Whether a mathematical integer is representable in this type.
    spec fn in_range(x: int) -> bool;

    /// Every value is inside the representable range.
    proof fn lemma_in_range(&self)
        ensures
            Self::in_range(self.as_int()),
    ;

    /// `from_int` inverts `as_int`.
    proof fn lemma_from_int(&self)
        ensures
            Self::from_int(self.as_int()) == *self,
    ;

    /// The representable range spans at most `u64::MAX`, so a difference of
    /// two representable values always fits in a `u64` magnitude.
    proof fn lemma_span(a: int, b: int)
        requires
            Self::in_range(a),
            Self::in_range(b),
            a >= b,
        ensures
            a - b <= u64::MAX as int,
    ;

    /// Signed difference `self - prev`, as a sign and a magnitude.
    /// A zero difference counts as non-negative.
    fn diff_mag(self, prev: Self) -> (r: (bool, u64))
        ensures
            r.0 == (self.as_int() >= prev.as_int()),
            r.0 ==> self.as_int() - prev.as_int() == r.1 as int,
            !r.0 ==> prev.as_int() - self.as_int() == r.1 as int,
    ;

    /// The value standing for `self + m`.
    fn add_mag(self, m: u64) -> (r: Self)
        requires
            Self::in_range(self.as_int() + m as int),
        ensures
            r == Self::from_int(self.as_int() + m as int),
            r.as_int() == self.as_int() + m as int,
    ;

    /// The value standing for `self - m`.
    fn sub_mag(self, m: u64) -> (r: Self)
        requires
            Self::in_range(self.as_int() - m as int),
        ensures
            r == Self::from_int(self.as_int() - m as int),
            r.as_int() == self.as_int() - m as int,
    ;
}

impl Integer for u64 {
    open spec fn as_int(&self) -> int {
        *self as int
    }

    open spec fn from_int(x: int) -> Self {
        x as u64
    }

    open spec fn in_range(x: int) -> bool {
        0 <= x <= u64::MAX as int
    }

    proof fn lemma_in_range(&self) {
    }

    proof fn lemma_from_int(&self) {
    }

    proof fn lemma_span(a: int, b: int) {
    }

    fn diff_mag(self, prev: Self) -> (r: (bool, u64)) {
        if self >= prev {
            (true, self - prev)
        } else {
            (false, prev - self)
        }
    }

    fn add_mag(self, m: u64) -> (r: Self) {
        self + m
    }

    fn sub_mag(self, m: u64) -> (r: Self) {
        self - m
    }
}

impl Integer for i64 {
    open spec fn as_int(&self) -> int {
        *self as int
    }

    open spec fn from_int(x: int) -> Self {
        x as i64
    }

    open spec fn in_range(x: int) -> bool {
        i64::MIN as int <= x <= i64::MAX as int
    }

    proof fn lemma_in_range(&self) {
    }

    proof fn lemma_from_int(&self) {
    }

    proof fn lemma_span(a: int, b: int) {
    }

    fn diff_mag(self, prev: Self) -> (r: (bool, u64)) {
        let a: i128 = self as i128;
        let b: i128 = prev as i128;
        if a >= b {
            (true, (a - b) as u64)
        } else {
            (false, (b - a) as u64)
        }
    }

    fn add_mag(self, m: u64) -> (r: Self) {
        (self as i128 + m as i128) as i64
    }

    fn sub_mag(self, m: u64) -> (r: Self) {
        (self as i128 - m as i128) as i64
    }
}

/// Holder of the shared timestamps: exposes the age of the most recent
/// timestamp, an ever-incrementing counter starting at 0.
pub trait Timestamps {
    /// Model of the current age.
    spec fn age_spec(&self) -> u64;

    /// Age of the current (most recent) timestamp.
    fn current_age(&self) -> (r: u64)
        ensures
            r == self.age_spec(),
    ;
}

/// Error when pushing a value into a metric buffer.
#[derive(Clone, Copy, Debug, PartialEq, Eq, Structural)]
pub enum PushError {
    /// A value arrived for the same timestamp twice.
    DuplicateValue,
}

/// Number of stored entries remaining after truncating a series whose head
/// gap is `diff` down to `num` retained slots, when `len` entries were
/// stored before the call.
pub open spec fn trunc_len(len: nat, diff: nat, num: nat) -> nat {
    if diff < num {
        if len <= num - diff {
            len
        } else {
            (num - diff) as nat
        }
    } else {
        0
    }
}

/// Truncating to `num` and then to a smaller or equal `num2` retains exactly
/// as many entries as a single truncation to `num2` would have.
pub proof fn lemma_truncate_idempotent(len: nat, diff: nat, num: nat, num2: nat)
    requires
        num2 <= num,
    ensures
        trunc_len(trunc_len(len, diff, num), diff, num2) == trunc_len(len, diff, num2),
{
}

/// The reconstruction a metric's contracts promise after a sequence of
/// ticks, most recent slot first.  A fresh series reads back as its initial
/// value alone.  Each tick prepends one "no observation" slot
/// ([`IntSeries`]'s `lemma_read_model_tick`), and a push on that tick
/// replaces the fresh slot with the pushed value ([`Metric::push`]'s
/// contract), so a tick carrying `Some(v)` contributes `Some(v)` and a tick
/// without a push contributes `None`.
pub open spec fn evolve<V>(v0: V, updates: Seq<Option<V>>) -> Seq<Option<V>>
    decreases updates.len(),
{
    if updates.len() == 0 {
        seq![Some(v0)]
    } else {
        match updates.last() {
            Some(v) => seq![Some(v)] + evolve(v0, updates.drop_last()),
            None => seq![None::<V>] + evolve(v0, updates.drop_last()),
        }
    }
}

/// Round trip: after any number of ticks, each carrying a pushed value or
/// not, the reconstruction read back most-recent-first and then reversed is
/// exactly the chronological history — the initial value followed by one
/// slot per tick.
pub proof fn lemma_round_trip<V>(v0: V, updates: Seq<Option<V>>)
    ensures
        evolve(v0, updates) == (seq![Some(v0)] + updates).reverse(),
    decreases updates.len(),
{
    if updates.len() == 0 {
        assert(seq![Some(v0)] + updates =~= seq![Some(v0)]);
        assert((seq![Some(v0)] + updates).reverse() =~= seq![Some(v0)]);
    } else {
        lemma_round_trip(v0, updates.drop_last());
        let prev_full = seq![Some(v0)] + updates.drop_last();
        assert(seq![Some(v0)] + updates =~= prev_full.push(updates.last()));
        assert(prev_full.push(updates.last()).reverse() =~= seq![updates.last()]
            + prev_full.reverse());
        assert(evolve(v0, updates) =~= seq![updates.last()] + evolve(v0, updates.drop_last()));
    }
}

/// Generic interface for storing the history of a single metric.
///
/// A metric is bound at compile time to one `Timestamps` type `S`; the
/// caller must advance the timestamps first and then push values referencing
/// that same tick.
pub trait Metric<S: Timestamps>: Sized {
    /// Single value type.
    type Value;

    /// Internal consistency of the stored history.
    spec fn inv(&self) -> bool;

    /// The age at which the most recent value was recorded.
    spec fn last_age(&self) -> u64;

    /// How many history entries are physically stored.
    spec fn stored(&self) -> nat;

    /// Model of the memory footprint: fixed fields plus the bytes consumed
    /// by the encoded history.
    spec fn footprint(&self) -> nat;

    /// The full reconstruction of this metric's history at clock age `now`,
    /// most recent slot first: one `None` per tick more recent than the last
    /// recorded update, then one slot per stored entry (a value, or `None`
    /// for a tick without an update), and finally the value the series was
    /// created with.
    spec fn read_model(&self, now: u64) -> Seq<Option<Self::Value>>;

    /// The reconstruction covers every tick since creation plus the initial
    /// value: one slot per head-gap tick, one per stored entry, one initial.
    proof fn lemma_read_model_len(&self, now: u64)
        requires
            self.inv(),
            self.last_age() <= now,
        ensures
            self.read_model(now).len() == now - self.last_age() + self.stored() + 1,
    ;

    /// Push a new value.
    ///
    /// Fails with [`PushError::DuplicateValue`], leaving the history
    /// unchanged, exactly when the timestamps were not advanced since the
    /// last recorded update; otherwise replaces the newest "no observation"
    /// slot of the reconstruction with the new value.
    fn push(&mut self, timestamps: &S, value: Self::Value) -> (r: Result<(), PushError>)
        requires
            old(self).inv(),
            old(self).last_age() <= timestamps.age_spec(),
        ensures
            final(self).inv(),
            r is Err <==> timestamps.age_spec() == old(self).last_age(),
            r is Err ==> *final(self) == *old(self) && r == Result::<(), PushError>::Err(
                PushError::DuplicateValue,
            ),
            r is Ok ==> final(self).last_age() == timestamps.age_spec() && final(self).stored()
                == old(self).stored() + (timestamps.age_spec() - old(self).last_age()) && final(
                self).read_model(timestamps.age_spec()) == seq![Some(value)] + old(
                self).read_model(timestamps.age_spec()).skip(1),
            r is Ok ==> final(self).footprint() >= old(self).footprint() + (timestamps.age_spec()
                - old(self).last_age()),
    ;

    /// Push the most recent values of this metric into a vector, most
    /// recent first, appending at most `max` slots.
    fn into_vec(&self, timestamps: &S, dest: &mut Vec<Option<Self::Value>>, max: usize)
        requires
            self.inv(),
            self.last_age() <= timestamps.age_spec(),
        ensures
            final(dest)@ == old(dest)@ + self.read_model(timestamps.age_spec()).take(
                vstd::math::min(max as int, self.read_model(timestamps.age_spec()).len() as int),
            ),
            final(dest)@.len() <= old(dest)@.len() + max,
    ;

    /// Truncate the history to at most `num` retained slots, the head gap
    /// included.
    ///
    /// Returns `true` exactly when some stored data may remain, that is when
    /// the head gap alone does not exhaust the retention window.  The slots
    /// that survive reconstruct exactly as before; only the oldest retained
    /// slot changes, becoming the new initial value.
    fn truncate(&mut self, timestamps: &S, num: usize) -> (r: bool)
        requires
            old(self).inv(),
            old(self).last_age() <= timestamps.age_spec(),
        ensures
            final(self).inv(),
            final(self).last_age() == old(self).last_age(),
            final(self).footprint() <= old(self).footprint(),
            r == (timestamps.age_spec() - old(self).last_age() < num as int),
            final(self).stored() == trunc_len(
                old(self).stored(),
                (timestamps.age_spec() - old(self).last_age()) as nat,
                num as nat,
            ),
            final(self).read_model(timestamps.age_spec()).take(
                final(self).read_model(timestamps.age_spec()).len() - 1,
            ) == old(self).read_model(timestamps.age_spec()).take(
                final(self).read_model(timestamps.age_spec()).len() - 1,
            ),
            final(self).stored() == old(self).stored() ==> final(self).read_model(
                timestamps.age_spec()) == old(self).read_model(timestamps.age_spec()),
    ;
}

} // verus!


//! History of a single integer metric.

use core::marker::PhantomData;

use vstd::prelude::*;

use super::int_deltabuf::byte_len;
use super::int_deltabuf::enc_seq;
use super::int_deltabuf::lemma_enc_seq_len;
use super::int_deltabuf::Delta;
use super::int_deltabuf::DeltaBuf;
use super::trunc_len;
use super::Integer;
use super::Metric;
use super::PushError;
use super::Timestamps;
use crate::ByteSize;

verus! {

/// Whether every value reached while unwinding the entries backwards from
/// `tip` stays inside `T`'s representable range.  `tip` is the value after
/// the newest entry; each signed entry steps back to the value recorded
/// just before it.
pub(crate) open spec fn values_ok<T: Integer>(tip: int, es: Seq<Delta>) -> bool
    decreases es.len(),
{
    &&& T::in_range(tip)
    &&& (es.len() > 0 ==> (match es.last() {
        Delta::Positive(m) => values_ok::<T>(tip - m, es.drop_last()),
        Delta::Negative(m) => values_ok::<T>(tip + m, es.drop_last()),
        Delta::Skip => values_ok::<T>(tip, es.drop_last()),
    }))
}

/// The reconstruction of a history, most recent slot first: one slot per
/// entry (the value at that tick, or `None` for a gap), then the value
/// recorded before the oldest entry.
pub(crate) open spec fn read_seq<T: Integer>(tip: int, es: Seq<Delta>) -> Seq<Option<T>>
    decreases es.len(),
{
    if es.len() == 0 {
        seq![Some(T::from_int(tip))]
    } else {
        match es.last() {
            Delta::Positive(m) => seq![Some(T::from_int(tip))] + read_seq::<T>(
                tip - m,
                es.drop_last(),
            ),
            Delta::Negative(m) => seq![Some(T::from_int(tip))] + read_seq::<T>(
                tip + m,
                es.drop_last(),
            ),
            Delta::Skip => seq![None::<T>] + read_seq::<T>(tip, es.drop_last()),
        }
    }
}

/// The reconstruction holds one slot per entry plus the initial value.
pub(crate) proof fn lemma_read_seq_len<T: Integer>(tip: int, es: Seq<Delta>)
    ensures
        read_seq::<T>(tip, es).len() == es.len() + 1,
    decreases es.len(),
{
    if es.len() > 0 {
        match es.last() {
            Delta::Positive(m) => lemma_read_seq_len::<T>(tip - m, es.drop_last()),
            Delta::Negative(m) => lemma_read_seq_len::<T>(tip + m, es.drop_last()),
            Delta::Skip => lemma_read_seq_len::<T>(tip, es.drop_last()),
        }
    }
}

/// Gap entries reconstruct as "no observation" slots and change no value.
pub(crate) proof fn lemma_read_seq_skips<T: Integer>(tip: int, es: Seq<Delta>, g: nat)
    ensures
        read_seq::<T>(tip, es + Seq::new(g, |q: int| Delta::Skip)) == Seq::new(
            g,
            |q: int| None::<T>,
        ) + read_seq::<T>(tip, es),
        values_ok::<T>(tip, es + Seq::new(g, |q: int| Delta::Skip)) == values_ok::<T>(tip, es),
    decreases g,
{
    let skips = Seq::new(g, |q: int| Delta::Skip);
    if g == 0 {
        assert(es + skips =~= es);
        assert(Seq::new(0, |q: int| None::<T>) + read_seq::<T>(tip, es) =~= read_seq::<T>(tip, es));
    } else {
        let fewer = Seq::new((g - 1) as nat, |q: int| Delta::Skip);
        assert((es + skips).last() == Delta::Skip);
        assert((es + skips).drop_last() =~= es + fewer);
        lemma_read_seq_skips::<T>(tip, es, (g - 1) as nat);
        assert(seq![None::<T>] + (Seq::new((g - 1) as nat, |q: int| None::<T>) + read_seq::<T>(
            tip,
            es,
        )) =~= Seq::new(g, |q: int| None::<T>) + read_seq::<T>(tip, es));
    }
}

/// The slots reconstructed from the `k` newest entries do not depend on
/// the older entries: a truncated history reads back unchanged up to (and
/// excluding) its new initial value.
pub(crate) proof fn lemma_read_seq_suffix<T: Integer>(tip: int, es: Seq<Delta>, k: int)
    requires
        0 <= k <= es.len(),
    ensures
        read_seq::<T>(tip, es.skip(es.len() - k)).take(k) == read_seq::<T>(tip, es).take(k),
        values_ok::<T>(tip, es) ==> values_ok::<T>(tip, es.skip(es.len() - k)),
    decreases k,
{
    let kept = es.skip(es.len() - k);
    lemma_read_seq_len::<T>(tip, es);
    lemma_read_seq_len::<T>(tip, kept);
    if k == 0 {
        assert(read_seq::<T>(tip, kept).take(0) =~= read_seq::<T>(tip, es).take(0));
        assert(kept =~= Seq::<Delta>::empty());
    } else {
        assert(kept.last() == es.last());
        assert(kept.drop_last() =~= es.drop_last().skip(es.drop_last().len() - (k - 1)));
        let tip2 = match es.last() {
            Delta::Positive(m) => tip - m,
            Delta::Negative(m) => tip + m,
            Delta::Skip => tip,
        };
        lemma_read_seq_suffix::<T>(tip2, es.drop_last(), k - 1);
        let rest_es = read_seq::<T>(tip2, es.drop_last());
        let rest_kept = read_seq::<T>(tip2, kept.drop_last());
        assert(rest_kept == read_seq::<T>(
            tip2,
            es.drop_last().skip(es.drop_last().len() - (k - 1)),
        ));
        lemma_read_seq_len::<T>(tip2, es.drop_last());
        lemma_read_seq_len::<T>(tip2, kept.drop_last());
        assert forall|q: int| 0 <= q < k implies read_seq::<T>(tip, kept).take(k)[q]
            == read_seq::<T>(tip, es).take(k)[q] by {
            if q > 0 {
                assert(read_seq::<T>(tip, kept)[q] == rest_kept[q - 1]);
                assert(read_seq::<T>(tip, es)[q] == rest_es[q - 1]);
                assert(rest_kept.take(k - 1)[q - 1] == rest_es.take(k - 1)[q - 1]);
            }
        }
        assert(read_seq::<T>(tip, kept).take(k) =~= read_seq::<T>(tip, es).take(k));
    }
}

/// One more elapsed tick prepends exactly one fresh "no observation" slot
/// to a series' reconstruction, whatever the series holds.
pub proof fn lemma_read_model_tick<S: Timestamps, T: Integer>(s: &IntSeries<S, T>, now: u64)
    requires
        s.last_age() <= now,
        now < u64::MAX,
    ensures
        s.read_model((now + 1) as u64) == seq![None::<T>] + s.read_model(now),
{
    assert(s.read_model((now + 1) as u64) =~= seq![None::<T>] + s.read_model(now));
}

/// The byte size a series reports is exactly its metric footprint, so the
/// footprint clauses of [`Metric::push`] and [`Metric::truncate`] speak of
/// the same quantity as [`ByteSize::size`]: the footprint never decreases
/// except through a truncation.
pub proof fn lemma_size_is_footprint<S: Timestamps, T: Integer>(s: &IntSeries<S, T>)
    ensures
        s.size_spec() == s.footprint(),
{
}

/// One metric's full history: the most recent value (the tip), the age at
/// which it was recorded, and the delta-encoded prior transitions.  Bound
/// at compile time to one [`Timestamps`] type.
pub struct IntSeries<S: Timestamps, T: Integer> {
    tip: T,
    age: u64,
    buf: DeltaBuf,
    phantom: PhantomData<S>,
}

impl<S: Timestamps, T: Integer> IntSeries<S, T> {
    /// A fresh series holding one value, recorded at the current age.
    pub fn new(timestamps: &S, value: T) -> (r: IntSeries<S, T>)
        ensures
            r.inv(),
            r.last_age() == timestamps.age_spec(),
            r.stored() == 0,
            r.read_model(timestamps.age_spec()) == seq![Some(value)],
            r.size_spec() == vstd::layout::size_of::<IntSeries<S, T>>(),
    {
        let r = IntSeries {
            tip: value,
            age: timestamps.current_age(),
            buf: DeltaBuf::new(),
            phantom: PhantomData,
        };
        proof {
            value.lemma_in_range();
            value.lemma_from_int();
            assert(r.read_model(timestamps.age_spec()) =~= seq![Some(value)]);
        }
        r
    }
}

impl<S: Timestamps, T: Integer> Metric<S> for IntSeries<S, T> {
    type Value = T;

    closed spec fn inv(&self) -> bool {
        &&& self.buf.wf()
        &&& values_ok::<T>(self.tip.as_int(), self.buf@)
    }

    closed spec fn last_age(&self) -> u64 {
        self.age
    }

    closed spec fn stored(&self) -> nat {
        self.buf@.len()
    }

    closed spec fn footprint(&self) -> nat {
        vstd::layout::size_of::<IntSeries<S, T>>() + self.buf.heap_spec()
    }

    closed spec fn read_model(&self, now: u64) -> Seq<Option<T>> {
        Seq::new((now - self.age) as nat, |q: int| None::<T>) + read_seq::<T>(
            self.tip.as_int(),
            self.buf@,
        )
    }

    proof fn lemma_read_model_len(&self, now: u64) {
        lemma_read_seq_len::<T>(self.tip.as_int(), self.buf@);
    }

    #[verifier::loop_isolation(false)]
    fn push(&mut self, timestamps: &S, value: T) -> (r: Result<(), PushError>) {
        let now = timestamps.current_age();
        let diff: u64 = now - self.age;
        if diff == 0 {
            return Err(PushError::DuplicateValue);
        }
        let (positive, magnitude) = value.diff_mag(self.tip);
        let ghost t0 = self.tip.as_int();
        let ghost t1 = value.as_int();
        let ghost es = self.buf@;
        let ghost d = if positive {
            Delta::Positive(magnitude)
        } else {
            Delta::Negative(magnitude)
        };
        self.buf.push(positive, magnitude, diff);
        self.tip = value;
        self.age = now;
        proof {
            value.lemma_in_range();
            value.lemma_from_int();
            let skips = Seq::new((diff - 1) as nat, |q: int| Delta::Skip);
            lemma_read_seq_skips::<T>(t0, es, (diff - 1) as nat);
            let grown = es + skips;
            assert(self.buf@ =~= grown.push(d));
            assert(grown.push(d).drop_last() == grown);
            assert(grown.push(d).last() == d);
            assert(values_ok::<T>(t1, grown.push(d)));
            assert(read_seq::<T>(t1, grown.push(d)) == seq![Some(value)] + read_seq::<T>(
                t0,
                grown,
            ));
            assert(self.read_model(now) =~= seq![Some(value)] + old(self).read_model(now).skip(
                1,
            ));
        }
        Ok(())
    }

    #[verifier::loop_isolation(false)]
    #[verifier::rlimit(100)]
    fn into_vec(&self, timestamps: &S, dest: &mut Vec<Option<T>>, max: usize) {
        let now = timestamps.current_age();
        let ghost model = self.read_model(now);
        let ghost es = self.buf@;
        let ghost t0 = self.tip.as_int();
        proof {
            lemma_read_seq_len::<T>(t0, es);
        }
        let diff64: u64 = now - self.age;
        let head: usize = if diff64 >= max as u64 {
            max
        } else {
            diff64 as usize
        };
        let mut c: usize = 0;
        while c < head
            invariant
                c <= head,
                dest@ == old(dest)@ + Seq::new(c as nat, |q: int| None::<T>),
            decreases head - c,
        {
            dest.push(None);
            proof {
                assert(dest@ =~= old(dest)@ + Seq::new((c + 1) as nat, |q: int| None::<T>));
            }
            c = c + 1;
        }
        if diff64 >= max as u64 {
            proof {
                assert(model.take(max as int) =~= Seq::new(max as nat, |q: int| None::<T>));
            }
            return ;
        }
        let mut num: usize = max - head;
        let mut value: T = self.tip;
        let mut i: usize = self.buf.heap_size();
        let ghost mut k: int = es.len() as int;
        proof {
            assert(es.take(k) =~= es);
            self.buf.lemma_heap_is_enc();
            lemma_enc_seq_len(es);
            value.lemma_from_int();
            assert(model.take(head as int) =~= Seq::new(head as nat, |q: int| None::<T>));
            assert(read_seq::<T>(t0, es).skip(es.len() - k) == read_seq::<T>(
                value.as_int(),
                es.take(k),
            ));
        }
        while i > 0
            invariant
                0 <= k <= es.len(),
                k > 0 ==> i > 0,
                i as int == enc_seq(es.take(k)).len(),
                num == max - head - (es.len() - k),
                head + (es.len() - k) <= max,
                values_ok::<T>(value.as_int(), es.take(k)),
                T::from_int(value.as_int()) == value,
                dest@ == old(dest)@ + model.take(head + (es.len() - k)),
                read_seq::<T>(t0, es).skip(es.len() - k) == read_seq::<T>(
                    value.as_int(),
                    es.take(k),
                ),
            decreases i,
        {
            if num == 0 {
                proof {
                    assert(head + (es.len() - k) == max);
                }
                return ;
            }
            let ghost produced = (head + (es.len() - k)) as int;
            let (d, i2) = self.buf.decode_at(i, Ghost(k));
            let ghost taken = es.take(k);
            proof {
                assert(taken.len() == k);
                assert(taken.last() == es[k - 1]);
                assert(taken.drop_last() =~= es.take(k - 1));
                lemma_read_seq_len::<T>(value.as_int(), taken);
                assert(model[produced] == read_seq::<T>(t0, es)[es.len() - k]);
                assert(read_seq::<T>(t0, es)[es.len() - k] == read_seq::<T>(
                    value.as_int(),
                    taken,
                )[0]);
            }
            match d {
                Delta::Positive(m) => {
                    proof {
                        assert(values_ok::<T>((value.as_int() - m) as int, es.take(k - 1)));
                    }
                    dest.push(Some(value));
                    value = value.sub_mag(m);
                },
                Delta::Negative(m) => {
                    proof {
                        assert(values_ok::<T>((value.as_int() + m) as int, es.take(k - 1)));
                    }
                    dest.push(Some(value));
                    value = value.add_mag(m);
                },
                Delta::Skip => {
                    dest.push(None);
                },
            }
            proof {
                value.lemma_from_int();
                assert(model.take(produced + 1) =~= model.take(produced).push(model[produced]));
                assert(dest@ =~= old(dest)@ + model.take(produced + 1));
                assert(read_seq::<T>(t0, es).skip(es.len() - (k - 1)) =~= read_seq::<T>(
                    t0,
                    es,
                ).skip(es.len() - k).skip(1));
                assert(read_seq::<T>(value.as_int(), es.take(k - 1)) =~= read_seq::<T>(
                    t0,
                    es,
                ).skip(es.len() - (k - 1)));
                k = k - 1;
            }
            proof {
                lemma_enc_seq_len(es.take(k));
            }
            i = i2;
            num = num - 1;
        }
        proof {
            assert(k == 0);
            assert(es.take(0) =~= Seq::<Delta>::empty());
        }
        if num == 0 {
            proof {
                assert(head + es.len() == max);
            }
            return ;
        }
        dest.push(Some(value));
        proof {
            assert(read_seq::<T>(value.as_int(), es.take(0)) == seq![Some(value)]);
            assert(read_seq::<T>(t0, es).skip(es.len() as int)[0] == read_seq::<T>(
                t0,
                es,
            )[es.len() as int]);
            assert(model[head + es.len()] == read_seq::<T>(t0, es)[es.len() as int]);
            assert(model[head + es.len()] == Some(value));
            assert(model.take(model.len() as int) == model);
            assert(dest@ =~= old(dest)@ + model);
        }
    }

    #[verifier::loop_isolation(false)]
    fn truncate(&mut self, timestamps: &S, num: usize) -> (r: bool) {
        let now = timestamps.current_age();
        let diff: u64 = now - self.age;
        let ghost es = self.buf@;
        let ghost t0 = self.tip.as_int();
        proof {
            lemma_read_seq_len::<T>(t0, es);
        }
        if diff < num as u64 {
            let keep: usize = num - diff as usize;
            self.buf.truncate(keep);
            proof {
                self.lemma_truncate_post(timestamps, num as nat, keep as nat, es, t0);
            }
            true
        } else {
            self.buf.truncate(0);
            proof {
                self.lemma_truncate_post(timestamps, num as nat, 0, es, t0);
            }
            false
        }
    }
}

impl<S: Timestamps, T: Integer> IntSeries<S, T> {
    /// After the buffer kept its `keep` newest entries, the series is still
    /// consistent and reads back unchanged up to its new initial value.
    proof fn lemma_truncate_post(
        &self,
        timestamps: &S,
        num: nat,
        keep: nat,
        es: Seq<Delta>,
        t0: int,
    )
        requires
            self.buf.wf(),
            values_ok::<T>(t0, es),
            t0 == self.tip.as_int(),
            keep < es.len() ==> self.buf@ == es.skip(es.len() - keep),
            keep >= es.len() ==> self.buf@ == es,
            self.age <= timestamps.age_spec(),
        ensures
            self.inv(),
            self.stored() == (if keep <= es.len() {
                keep
            } else {
                es.len()
            }),
            self.read_model(timestamps.age_spec()).take(
                self.read_model(timestamps.age_spec()).len() - 1,
            ) == (Seq::new(
                (timestamps.age_spec() - self.age) as nat,
                |q: int| None::<T>,
            ) + read_seq::<T>(t0, es)).take(self.read_model(timestamps.age_spec()).len() - 1),
            self.stored() == es.len() ==> self.read_model(timestamps.age_spec()) == Seq::new(
                (timestamps.age_spec() - self.age) as nat,
                |q: int| None::<T>,
            ) + read_seq::<T>(t0, es),
    {
        let now = timestamps.age_spec();
        let hd = (now - self.age) as nat;
        let old_model = Seq::new(hd, |q: int| None::<T>) + read_seq::<T>(t0, es);
        lemma_read_seq_len::<T>(t0, es);
        if keep < es.len() {
            let k = keep as int;
            lemma_read_seq_suffix::<T>(t0, es, k);
            lemma_read_seq_len::<T>(t0, self.buf@);
            let kept = es.skip(es.len() - k);
            assert(self.buf@ == kept);
            assert forall|q: int| 0 <= q < hd + k implies self.read_model(now)[q]
                == old_model[q] by {
                if q >= hd {
                    assert(self.read_model(now)[q] == read_seq::<T>(t0, kept)[q - hd]);
                    assert(old_model[q] == read_seq::<T>(t0, es)[q - hd]);
                    assert(read_seq::<T>(t0, kept).take(k)[q - hd] == read_seq::<T>(
                        t0,
                        es,
                    ).take(k)[q - hd]);
                }
            }
            assert(self.read_model(now).take(self.read_model(now).len() - 1) =~= old_model.take(
                hd + k,
            ));
            assert(old_model.take(hd + k) =~= old_model.take(self.read_model(now).len() - 1));
        } else {
            assert(self.buf@ == es);
            lemma_read_seq_len::<T>(t0, es);
            assert(self.read_model(now) =~= old_model);
        }
    }
}

impl<S: Timestamps, T: Integer> ByteSize for IntSeries<S, T> {
    closed spec fn size_spec(&self) -> nat {
        vstd::layout::size_of::<IntSeries<S, T>>() + self.buf.heap_spec()
    }

    fn size(&self) -> (r: usize) {
        core::mem::size_of::<IntSeries<S, T>>() + self.buf.heap_size()
    }
}

} // verus!

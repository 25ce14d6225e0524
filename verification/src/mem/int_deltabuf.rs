//! Compact byte encoding for a sequence of integer transitions.
//!
//! A [`DeltaBuf`] stores one entry per elapsed clock tick: a signed
//! magnitude (the value rose or fell), or a gap marker (no observation that
//! tick).  Entries are appended in chronological order and consumed most
//! recent first.
//!
//! Byte layout, per entry, appended to one growing byte vector:
//! the magnitude's little-endian payload bytes (as many as the magnitude
//! needs, none for a zero magnitude), then one marker byte.  The marker is
//! `64 + n` for a rise, `128 + n` for a fall (`n` the payload length, at
//! most 8), and `192` for a gap.  Decoding walks backwards from the end of
//! the vector: the marker gives the kind and the exact payload length, so
//! the encoding is unambiguous and lossless, and a gap is distinct from a
//! legitimate zero-magnitude entry.

use vstd::prelude::*;

verus! {

/// One encoded tick: the value rose by a magnitude, fell by a magnitude, or
/// was not observed.  A zero magnitude is legal and counts as a rise.
#[derive(Clone, Copy, Debug, PartialEq, Eq, Structural)]
pub enum Delta {
    /// The value rose by the given magnitude on this tick.
    Positive(u64),
    /// The value fell by the given magnitude on this tick.
    Negative(u64),
    /// No observation on this tick.
    Skip,
}

/// How many base-256 digits a magnitude needs: none for zero.
pub open spec fn byte_len(m: nat) -> nat
    decreases m,
{
    if m == 0 {
        0
    } else {
        1 + byte_len(m / 256)
    }
}

/// The `n` low-order base-256 digits of `m`, least significant first.
pub open spec fn le_bytes(m: nat, n: nat) -> Seq<u8>
    decreases n,
{
    if n == 0 {
        Seq::empty()
    } else {
        seq![(m % 256) as u8] + le_bytes(m / 256, (n - 1) as nat)
    }
}

/// A payload of `n` digits is `n` bytes long.
pub proof fn lemma_le_bytes_len(m: nat, n: nat)
    ensures
        le_bytes(m, n).len() == n,
    decreases n,
{
    if n > 0 {
        lemma_le_bytes_len(m / 256, (n - 1) as nat);
    }
}

/// The magnitude a little-endian digit sequence stands for.
pub open spec fn le_val(s: Seq<u8>) -> nat
    decreases s.len(),
{
    if s.len() == 0 {
        0
    } else {
        (s[0] + 256 * le_val(s.skip(1))) as nat
    }
}

/// The marker byte closing one encoded entry.
pub open spec fn marker(d: Delta) -> u8 {
    match d {
        Delta::Positive(m) => (64 + byte_len(m as nat)) as u8,
        Delta::Negative(m) => (128 + byte_len(m as nat)) as u8,
        Delta::Skip => 192u8,
    }
}

/// The bytes of one encoded entry: payload first, marker last.
pub open spec fn enc(d: Delta) -> Seq<u8> {
    match d {
        Delta::Positive(m) => le_bytes(m as nat, byte_len(m as nat)) + seq![marker(d)],
        Delta::Negative(m) => le_bytes(m as nat, byte_len(m as nat)) + seq![marker(d)],
        Delta::Skip => seq![marker(d)],
    }
}

/// The bytes of a whole entry sequence, oldest entry first.
pub open spec fn enc_seq(es: Seq<Delta>) -> Seq<u8>
    decreases es.len(),
{
    if es.len() == 0 {
        Seq::empty()
    } else {
        enc_seq(es.drop_last()) + enc(es.last())
    }
}

/// Powers of 256.
pub open spec fn pow256(k: nat) -> nat
    decreases k,
{
    if k == 0 {
        1
    } else {
        256 * pow256((k - 1) as nat)
    }
}

/// A magnitude below `pow256(k)` needs at most `k` digits.
proof fn lemma_byte_len_le(m: nat, k: nat)
    requires
        m < pow256(k),
    ensures
        byte_len(m) <= k,
    decreases k,
{
    if m > 0 {
        if k == 0 {
        } else {
            assert(m / 256 < pow256((k - 1) as nat)) by (nonlinear_arith)
                requires
                    m < 256 * pow256((k - 1) as nat),
            ;
            lemma_byte_len_le(m / 256, (k - 1) as nat);
        }
    }
}

/// A `u64` magnitude needs at most 8 payload bytes.
pub proof fn lemma_byte_len_u64(m: u64)
    ensures
        byte_len(m as nat) <= 8,
{
    assert(pow256(8) == 0x1_0000_0000_0000_0000) by {
        reveal_with_fuel(pow256, 9);
    }
    lemma_byte_len_le(m as nat, 8);
}

/// Encoding a magnitude with exactly the digits it needs loses nothing.
pub proof fn lemma_le_round_trip(m: nat)
    ensures
        le_val(le_bytes(m, byte_len(m))) == m,
    decreases m,
{
    if m == 0 {
    } else {
        let s = le_bytes(m, byte_len(m));
        let rest = le_bytes(m / 256, byte_len(m / 256));
        assert(s == seq![(m % 256) as u8] + rest);
        assert(s.skip(1) == rest);
        lemma_le_round_trip(m / 256);
        assert(le_val(s) == m % 256 + 256 * (m / 256));
        vstd::arithmetic::div_mod::lemma_fundamental_div_mod(m as int, 256);
    }
}

/// A suffix of a digit sequence stands for at most the whole sequence's
/// magnitude.
pub proof fn lemma_le_val_skip(s: Seq<u8>, j: int)
    requires
        0 <= j <= s.len(),
    ensures
        le_val(s.skip(j)) <= le_val(s),
    decreases j,
{
    if j == 0 {
        assert(s.skip(0) =~= s);
    } else {
        assert(s.skip(1).skip(j - 1) =~= s.skip(j));
        lemma_le_val_skip(s.skip(1), j - 1);
        assert(le_val(s.skip(j)) == le_val(s.skip(1).skip(j - 1)));
        assert(le_val(s.skip(1).skip(j - 1)) <= le_val(s.skip(1)));
        assert(le_val(s) == s[0] + 256 * le_val(s.skip(1)));
        assert(256 * le_val(s.skip(1)) >= le_val(s.skip(1))) by (nonlinear_arith);
        assert(le_val(s.skip(1)) <= le_val(s));
    }
}

/// One decoding step: the last digit consumed is the most significant one
/// remaining.
pub proof fn lemma_le_val_step(s: Seq<u8>, j: int)
    requires
        0 <= j < s.len(),
    ensures
        le_val(s.skip(j)) == s[j] + 256 * le_val(s.skip(j + 1)),
{
    assert(s.skip(j)[0] == s[j]);
    assert(s.skip(j).skip(1) == s.skip(j + 1));
}

/// The encoded form of one more entry extends the encoded sequence.
pub proof fn lemma_enc_seq_push(es: Seq<Delta>, d: Delta)
    ensures
        enc_seq(es.push(d)) == enc_seq(es) + enc(d),
{
    assert(es.push(d).drop_last() == es);
    assert(es.push(d).last() == d);
}

/// Taking one more entry appends exactly that entry's bytes.
pub proof fn lemma_enc_seq_take_succ(es: Seq<Delta>, k: int)
    requires
        0 <= k < es.len(),
    ensures
        enc_seq(es.take(k + 1)) == enc_seq(es.take(k)) + enc(es[k]),
{
    assert(es.take(k + 1).drop_last() == es.take(k));
    assert(es.take(k + 1).last() == es[k]);
}

/// The encoded bytes split at any entry boundary.
pub proof fn lemma_enc_seq_split(es: Seq<Delta>, k: int)
    requires
        0 <= k <= es.len(),
    ensures
        enc_seq(es) == enc_seq(es.take(k)) + enc_seq(es.skip(k)),
    decreases es.len(),
{
    if k == es.len() {
        assert(es.take(k) == es);
        assert(es.skip(k) =~= Seq::<Delta>::empty());
        assert(enc_seq(es) + Seq::<u8>::empty() =~= enc_seq(es));
    } else {
        let dl = es.drop_last();
        lemma_enc_seq_split(dl, k);
        assert(dl.take(k) =~= es.take(k));
        assert(dl.skip(k).push(es.last()) =~= es.skip(k));
        lemma_enc_seq_push(dl.skip(k), es.last());
        assert((enc_seq(es.take(k)) + enc_seq(dl.skip(k))) + enc(es.last()) =~= enc_seq(es.take(k))
            + (enc_seq(dl.skip(k)) + enc(es.last())));
    }
}

/// Each entry takes at least one byte, so the encoding is at least as long
/// as the entry sequence.
pub proof fn lemma_enc_seq_len(es: Seq<Delta>)
    ensures
        enc_seq(es).len() >= es.len(),
    decreases es.len(),
{
    if es.len() > 0 {
        lemma_enc_seq_len(es.drop_last());
    }
}

/// An append-only, delta-encoded entry buffer.
///
/// The ghost `entries` field holds the entry sequence the bytes stand for,
/// oldest first; [`DeltaBuf::wf`] ties the two together.
pub struct DeltaBuf {
    bytes: Vec<u8>,
    entries: Ghost<Seq<Delta>>,
}

impl View for DeltaBuf {
    type V = Seq<Delta>;

    closed spec fn view(&self) -> Seq<Delta> {
        self.entries@
    }
}

impl DeltaBuf {
    /// The bytes are exactly the encoding of the entries.
    pub closed spec fn wf(&self) -> bool {
        self.bytes@ == enc_seq(self.entries@)
    }

    /// Bytes currently consumed by stored entries.
    pub closed spec fn heap_spec(&self) -> nat {
        self.bytes@.len() as nat
    }

    /// The stored bytes are exactly the entries' encoding.
    pub proof fn lemma_heap_is_enc(&self)
        requires
            self.wf(),
        ensures
            self.heap_spec() == enc_seq(self@).len(),
    {
    }

    /// An empty buffer.
    pub fn new() -> (r: DeltaBuf)
        ensures
            r.wf(),
            r@ == Seq::<Delta>::empty(),
            r.heap_spec() == 0,
    {
        DeltaBuf { bytes: Vec::new(), entries: Ghost(Seq::empty()) }
    }

    /// Bytes currently consumed by stored entries.
    pub fn heap_size(&self) -> (r: usize)
        ensures
            r as nat == self.heap_spec(),
    {
        self.bytes.len()
    }

    /// Append the little-endian payload of `m`, returning its digit count.
    fn push_payload(&mut self, m: u64) -> (n: usize)
        ensures
            final(self).bytes@ == old(self).bytes@ + le_bytes(m as nat, byte_len(m as nat)),
            final(self).entries@ == old(self).entries@,
            n as nat == byte_len(m as nat),
            n <= 8,
    {
        proof {
            lemma_byte_len_u64(m);
        }
        let ghost m0 = m as nat;
        let ghost mut app = Seq::<u8>::empty();
        let mut rest: u64 = m;
        let mut n: usize = 0;
        while rest > 0
            invariant
                n as nat + byte_len(rest as nat) == byte_len(m0),
                byte_len(m0) <= 8,
                n as nat == app.len(),
                self.bytes@ == old(self).bytes@ + app,
                le_bytes(m0, byte_len(m0)) == app + le_bytes(rest as nat, byte_len(rest as nat)),
                self.entries@ == old(self).entries@,
            decreases rest,
        {
            let ghost old_rest = rest as nat;
            let b: u8 = (rest % 256) as u8;
            self.bytes.push(b);
            rest = rest / 256;
            n = n + 1;
            proof {
                assert(byte_len(old_rest) == 1 + byte_len(old_rest / 256));
                assert(le_bytes(old_rest, byte_len(old_rest)) == seq![(old_rest % 256) as u8]
                    + le_bytes(old_rest / 256, byte_len(old_rest / 256)));
                assert(app + (seq![(old_rest % 256) as u8] + le_bytes(
                    old_rest / 256,
                    byte_len(old_rest / 256),
                )) =~= app.push((old_rest % 256) as u8) + le_bytes(
                    old_rest / 256,
                    byte_len(old_rest / 256),
                ));
                app = app.push(b);
                assert(self.bytes@ =~= old(self).bytes@ + app);
            }
        }
        proof {
            assert(le_bytes(m0, byte_len(m0)) == app + le_bytes(0, 0));
            assert(app + Seq::<u8>::empty() =~= app);
        }
        n
    }

    /// Record that after `gap` elapsed ticks the value changed by the given
    /// signed magnitude: `gap - 1` gap entries, then the change itself.
    pub fn push(&mut self, positive: bool, magnitude: u64, gap: u64) -> (growth: usize)
        requires
            old(self).wf(),
            gap >= 1,
        ensures
            final(self).wf(),
            final(self)@ == old(self)@ + Seq::new((gap - 1) as nat, |i: int| Delta::Skip) + seq![
                if positive {
                    Delta::Positive(magnitude)
                } else {
                    Delta::Negative(magnitude)
                },
            ],
            final(self).heap_spec() == old(self).heap_spec() + (gap - 1) + 1 + byte_len(
                magnitude as nat,
            ),
    {
        let ghost skips = Seq::new((gap - 1) as nat, |i: int| Delta::Skip);
        let mut k: u64 = 1;
        while k < gap
            invariant
                old(self).wf(),
                1 <= k <= gap,
                self.bytes@ == old(self).bytes@ + Seq::new(
                    (k - 1) as nat,
                    |i: int| 192u8,
                ),
                self.entries@ == old(self).entries@ + Seq::new(
                    (k - 1) as nat,
                    |i: int| Delta::Skip,
                ),
                self.wf(),
            decreases gap - k,
        {
            let ghost before = self.entries@;
            self.bytes.push(192u8);
            proof {
                self.entries@ = before.push(Delta::Skip);
                lemma_enc_seq_push(before, Delta::Skip);
                assert(enc(Delta::Skip) == seq![192u8]);
                assert(self.bytes@ =~= enc_seq(self.entries@));
                assert(self.bytes@ =~= old(self).bytes@ + Seq::new(k as nat, |i: int| 192u8));
                assert(before.push(Delta::Skip) =~= old(self).entries@ + Seq::new(
                    k as nat,
                    |i: int| Delta::Skip,
                ));
            }
            k = k + 1;
        }
        let d = if positive {
            Delta::Positive(magnitude)
        } else {
            Delta::Negative(magnitude)
        };
        let ghost before = self.entries@;
        let n = self.push_payload(magnitude);
        let tag: u8 = if positive {
            64
        } else {
            128
        };
        proof {
            lemma_byte_len_u64(magnitude);
        }
        let mk: u8 = tag + (n as u8);
        self.bytes.push(mk);
        proof {
            self.entries@ = before.push(d);
            lemma_enc_seq_push(before, d);
            lemma_le_bytes_len(magnitude as nat, byte_len(magnitude as nat));
            assert(mk == marker(d));
            assert(enc(d) == le_bytes(magnitude as nat, byte_len(magnitude as nat)) + seq![
                marker(d),
            ]);
            assert(self.bytes@ =~= enc_seq(before) + enc(d));
            assert(self.entries@ =~= old(self).entries@ + skips + seq![d]);
        }
        n + 1
    }

    /// Decode the entry whose encoding ends at byte `i`, walking backwards.
    ///
    /// `k` is the (ghost) number of entries encoded in the first `i` bytes;
    /// the decoded entry is the `k`-th one, and the returned index is the
    /// end of the entry before it.
    #[verifier::loop_isolation(false)]
    #[verifier::rlimit(60)]
    pub fn decode_at(&self, i: usize, Ghost(k): Ghost<int>) -> (r: (Delta, usize))
        requires
            self.wf(),
            0 < k <= self@.len(),
            i as int == enc_seq(self@.take(k)).len(),
        ensures
            r.0 == self@[k - 1],
            r.1 as int == enc_seq(self@.take(k - 1)).len(),
            r.1 < i,
    {
        let ghost es = self.entries@;
        proof {
            lemma_enc_seq_take_succ(es, k - 1);
            lemma_enc_seq_split(es, k);
            assert(self.bytes@.take(i as int) == enc_seq(es.take(k)));
            assert(enc_seq(es.take(k)) == enc_seq(es.take(k - 1)) + enc(es[k - 1]));
            match es[k - 1] {
                Delta::Positive(m) => lemma_byte_len_u64(m),
                Delta::Negative(m) => lemma_byte_len_u64(m),
                Delta::Skip => (),
            }
            assert(enc(es[k - 1]).last() == marker(es[k - 1]));
            assert(self.bytes@[i - 1] == marker(es[k - 1]));
        }
        let ghost d = es[k - 1];
        let mk: u8 = self.bytes[i - 1];
        if mk >= 192 {
            assert(d is Skip);
            assert(enc(d).len() == 1);
            (Delta::Skip, i - 1)
        } else {
            let n: usize = if mk >= 128 {
                (mk - 128) as usize
            } else {
                (mk - 64) as usize
            };
            let ghost mag: u64 = if d is Negative {
                d->Negative_0
            } else {
                d->Positive_0
            };
            proof {
                lemma_le_bytes_len(mag as nat, byte_len(mag as nat));
                assert(n as nat == byte_len(mag as nat));
                assert(enc(d).len() == n + 1);
            }
            let start: usize = i - 1 - n;
            let ghost payload = le_bytes(mag as nat, byte_len(mag as nat));
            proof {
                lemma_le_round_trip(mag as nat);
                assert(enc(d) == payload + seq![marker(d)]);
                assert forall|q: int| 0 <= q < n implies self.bytes@[start + q] == payload[q] by {
                    assert(enc_seq(es.take(k))[start + q] == enc(d)[q]);
                }
            }
            let mut val: u64 = 0;
            let mut j: usize = n;
            while j > 0
                invariant
                    j <= n,
                    val as nat == le_val(payload.skip(j as int)),
                decreases j,
            {
                proof {
                    lemma_le_val_step(payload, j - 1);
                    lemma_le_val_skip(payload, j - 1);
                }
                j = j - 1;
                let b: u8 = self.bytes[start + j];
                assert(b == payload[j as int]);
                val = val * 256 + (b as u64);
            }
            proof {
                assert(payload.skip(0) == payload);
                assert(val == mag);
            }
            if mk >= 128 {
                assert(d is Negative);
                (Delta::Negative(val), start)
            } else {
                assert(d is Positive);
                (Delta::Positive(val), start)
            }
        }
    }

    /// Retain only the `keep` most recently appended entries, discarding
    /// all older ones.  Keeping at least as many entries as are stored
    /// leaves the buffer unchanged.
    #[verifier::loop_isolation(false)]
    pub fn truncate(&mut self, keep: usize)
        requires
            old(self).wf(),
        ensures
            final(self).wf(),
            keep < old(self)@.len() ==> final(self)@ == old(self)@.skip(old(self)@.len() - keep),
            keep >= old(self)@.len() ==> final(self)@ == old(self)@,
            final(self).heap_spec() <= old(self).heap_spec(),
    {
        let ghost es = self.entries@;
        let mut i: usize = self.bytes.len();
        let mut cnt: usize = 0;
        let ghost mut k: int = es.len() as int;
        proof {
            assert(es.take(k) == es);
        }
        while cnt < keep && i > 0
            invariant
                0 <= k <= es.len(),
                cnt == es.len() - k,
                cnt <= keep,
                i as int == enc_seq(es.take(k)).len(),
            decreases i,
        {
            proof {
                lemma_enc_seq_len(es.take(k));
            }
            let (_d, i2) = self.decode_at(i, Ghost(k));
            i = i2;
            cnt = cnt + 1;
            proof {
                k = k - 1;
            }
        }
        proof {
            lemma_enc_seq_len(es.take(k));
            if i == 0 {
                assert(es.take(k).len() == 0);
                assert(k == 0);
            }
        }
        proof {
            lemma_enc_seq_split(es, k);
            assert(self.bytes@.len() == enc_seq(es.take(k)).len() + enc_seq(es.skip(k)).len());
        }
        let mut nb: Vec<u8> = Vec::new();
        proof {
            assert(nb@ =~= self.bytes@.subrange(i as int, i as int));
        }
        let mut j: usize = i;
        while j < self.bytes.len()
            invariant
                i <= j <= self.bytes@.len(),
                nb@ == self.bytes@.subrange(i as int, j as int),
            decreases self.bytes@.len() - j,
        {
            let b: u8 = self.bytes[j];
            nb.push(b);
            j = j + 1;
            assert(nb@ =~= self.bytes@.subrange(i as int, j as int));
        }
        self.bytes = nb;
        proof {
            self.entries@ = es.skip(k);
            lemma_enc_seq_split(es, k);
            assert(old(self).bytes@ == enc_seq(es.take(k)) + enc_seq(es.skip(k)));
            assert(self.bytes@ =~= enc_seq(es.skip(k)));
            if keep < es.len() {
                assert(cnt == keep);
                assert(k == es.len() - keep);
            } else {
                assert(es.skip(k) =~= es);
            }
        }
    }
}

} // verus!

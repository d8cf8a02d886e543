use vstd::prelude::*;

use crate::wire::{be128, be16, be32, bytes_eq, copy_bytes, lemma_be16, lemma_be32, pow256};

verus! {

/// A name suffix that was written, and where.
pub struct LabelOffset {
    pub text: Vec<u8>,
    pub offset: usize,
}

/// Name suffixes written so far, with their offsets, in the order written.
pub type Memo = Seq<(Seq<u8>, usize)>;

/// The offset stored for the first entry of `m` whose text is `t`.
pub open spec fn memo_find(m: Memo, t: Seq<u8>) -> Option<usize>
    decreases m.len(),
{
    if m.len() == 0 {
        None
    } else {
        match memo_find(m.drop_last(), t) {
            Some(o) => Some(o),
            None => if m.last().0 == t {
                Some(m.last().1)
            } else {
                None
            },
        }
    }
}

/// `m` with `(t, off)` added, unless it already holds `lk` entries.
pub open spec fn memo_push(m: Memo, t: Seq<u8>, off: usize, lk: nat) -> Memo {
    if m.len() < lk {
        m.push((t, off))
    } else {
        m
    }
}

/// Where a length field was left open, to be filled in later.
pub struct Reservation {
    pub start: usize,
    pub len: usize,
}

/// A bounded output buffer with a sticky overflow flag and a memo of the
/// name suffixes written, for name compression.
pub struct Writer<const LK: usize> {
    pub bytes: Vec<u8>,
    pub cap: usize,
    pub overflow: bool,
    pub lookup: Vec<LabelOffset>,
}

impl<const LK: usize> Writer<LK> {
    pub open spec fn memo(&self) -> Memo {
        self.lookup@.map_values(|e: LabelOffset| (e.text@, e.offset))
    }

    pub open spec fn pos(&self) -> int {
        self.bytes@.len() as int
    }

    pub open spec fn wf(&self) -> bool {
        &&& self.bytes@.len() <= self.cap
        &&& self.lookup@.len() <= LK
    }

    /// From `w0` to `w1` the writer took the bytes `e` and ended with the memo
    /// `m`, or, when they did not fit, it overflowed. Either way what it holds
    /// is a start of what it held followed by `e`, and once overflowed it
    /// takes nothing more.
    pub open spec fn emits(w0: Writer<LK>, w1: Writer<LK>, e: Seq<u8>, m: Memo) -> bool {
        &&& w1.wf()
        &&& w1.cap == w0.cap
        &&& w1.overflow == (w0.overflow || w0.bytes@.len() + e.len() > w0.cap)
        &&& !w1.overflow ==> w1.bytes@ == w0.bytes@ + e && w1.memo() == m
        &&& w0.overflow ==> w1.bytes@ == w0.bytes@
        &&& w0.bytes@.len() <= w1.bytes@.len()
        &&& w1.bytes@.is_prefix_of(w0.bytes@ + e)
    }

    /// An empty writer into a buffer of `cap` bytes.
    pub fn new(cap: usize) -> (r: Self)
        ensures
            r.wf(),
            r.cap == cap,
            !r.overflow,
            r.bytes@ == Seq::<u8>::empty(),
            r.memo() == Seq::<(Seq<u8>, usize)>::empty(),
    {
        let r = Writer { bytes: Vec::new(), cap, overflow: false, lookup: Vec::new() };
        assert(r.memo() =~= Seq::<(Seq<u8>, usize)>::empty());
        r
    }

    /// Whether a write did not fit.
    pub fn is_overflow(&self) -> (r: bool)
        ensures
            r == self.overflow,
    {
        self.overflow
    }

    /// The number of bytes written.
    pub fn len(&self) -> (r: usize)
        ensures
            r == self.bytes@.len(),
    {
        self.bytes.len()
    }

    /// The bytes written.
    pub fn into_inner(self) -> (r: Vec<u8>)
        ensures
            r@ == self.bytes@,
    {
        self.bytes
    }

    /// Appends `data`, or sets the overflow flag when it does not fit.
    pub fn write(&mut self, data: &[u8])
        requires
            old(self).wf(),
        ensures
            Self::emits(*old(self), *final(self), data@, old(self).memo()),
    {
        if self.overflow || data.len() > self.cap - self.bytes.len() {
            self.overflow = true;
            return;
        }
        let ghost b0 = self.bytes@;
        let mut i: usize = 0;
        while i < data.len()
            invariant
                i <= data@.len(),
                self.bytes@ == b0 + data@.subrange(0, i as int),
                self.cap == old(self).cap,
                self.lookup == old(self).lookup,
                self.overflow == old(self).overflow,
                b0 == old(self).bytes@,
            decreases data.len() - i,
        {
            self.bytes.push(data[i]);
            i = i + 1;
            assert(self.bytes@ =~= b0 + data@.subrange(0, i as int));
        }
        assert(data@.subrange(0, data@.len() as int) =~= data@);
    }

    /// Appends one byte.
    pub fn write_u8(&mut self, b: u8)
        requires
            old(self).wf(),
        ensures
            Self::emits(*old(self), *final(self), seq![b], old(self).memo()),
    {
        let a = [b];
        assert(a@ =~= seq![b]);
        self.write(&a);
    }

    /// Appends a 16-bit value, most significant byte first.
    pub fn write_u16(&mut self, v: u16)
        requires
            old(self).wf(),
        ensures
            Self::emits(*old(self), *final(self), be16(v), old(self).memo()),
    {
        let a = [(v / 256) as u8, (v % 256) as u8];
        proof {
            lemma_be16(v);
        }
        assert(a@ =~= be16(v));
        self.write(&a);
    }

    /// Appends a 32-bit value, most significant byte first.
    pub fn write_u32(&mut self, v: u32)
        requires
            old(self).wf(),
        ensures
            Self::emits(*old(self), *final(self), be32(v), old(self).memo()),
    {
        let a = [
            (v / 0x1000000) as u8,
            ((v / 0x10000) % 256) as u8,
            ((v / 0x100) % 256) as u8,
            (v % 256) as u8,
        ];
        proof {
            lemma_be32(v);
        }
        assert(a@ =~= be32(v));
        self.write(&a);
    }

    /// Appends a 128-bit value, most significant byte first.
    pub fn write_u128(&mut self, v: u128)
        requires
            old(self).wf(),
        ensures
            Self::emits(*old(self), *final(self), be128(v), old(self).memo()),
    {
        let mut a: [u8; 16] = [0u8; 16];
        let mut rest: u128 = v;
        let mut i: usize = 16;
        proof {
            reveal_with_fuel(pow256, 17);
            assert(a@.subrange(16, 16) =~= Seq::<u8>::empty());
            assert(be_bytes(v as nat, 16) + a@.subrange(16, 16) =~= be_bytes(v as nat, 16));
        }
        while i > 0
            invariant
                i <= 16,
                a@.len() == 16,
                be_bytes_split(v as nat, i as nat, rest as nat, a@),
            decreases i,
        {
            proof {
                lemma_split_step(v as nat, i as nat, rest as nat, a@);
            }
            a[i - 1] = (rest % 256) as u8;
            rest = rest / 256;
            i = i - 1;
        }
        proof {
            lemma_split_done(v as nat, a@);
        }
        self.write(&a);
    }

    /// The offset at which the suffix `text` was first written, if the memo has it.
    pub fn find_label(&self, text: &[u8]) -> (r: Option<usize>)
        requires
            self.wf(),
        ensures
            match memo_find(self.memo(), text@) {
                Some(o) => r == Some(o),
                None => r is None,
            },
    {
        let mut i: usize = 0;
        while i < self.lookup.len()
            invariant
                self.wf(),
                i <= self.lookup@.len(),
                memo_find(self.memo().take(i as int), text@) is None,
            decreases self.lookup.len() - i,
        {
            let ghost m = self.memo();
            assert(m.take(i + 1).drop_last() =~= m.take(i as int));
            if bytes_eq(self.lookup[i].text.as_slice(), text) {
                proof {
                    lemma_memo_find_prefix(m, i + 1, text@);
                }
                return Some(self.lookup[i].offset);
            }
            i = i + 1;
        }
        assert(self.memo().take(i as int) =~= self.memo());
        None
    }

    /// Records that the suffix `text` starts at the current position; does
    /// nothing when the memo is full or the writer has overflowed.
    pub fn push_label(&mut self, text: &[u8])
        requires
            old(self).wf(),
        ensures
            final(self).wf(),
            final(self).bytes == old(self).bytes,
            final(self).cap == old(self).cap,
            final(self).overflow == old(self).overflow,
            !old(self).overflow ==> final(self).memo() == memo_push(
                old(self).memo(),
                text@,
                old(self).bytes@.len() as usize,
                LK as nat,
            ),
    {
        if self.overflow || self.lookup.len() >= LK {
            return;
        }
        let t = copy_bytes(text);
        let off = self.bytes.len();
        self.lookup.push(LabelOffset { text: t, offset: off });
        assert(self.memo() =~= old(self).memo().push((text@, off)));
    }

    /// Leaves `n` zero bytes to be filled in later.
    pub fn reserve(&mut self, n: usize) -> (r: Reservation)
        requires
            old(self).wf(),
        ensures
            Self::emits(*old(self), *final(self), Seq::new(n as nat, |i: int| 0u8), old(self).memo()),
            r.start == old(self).pos(),
            r.len == n,
    {
        let r = Reservation { start: self.bytes.len(), len: n };
        let mut z: Vec<u8> = Vec::new();
        let mut i: usize = 0;
        while i < n
            invariant
                i <= n,
                z@ == Seq::new(i as nat, |k: int| 0u8),
            decreases n - i,
        {
            z.push(0u8);
            i = i + 1;
            assert(z@ =~= Seq::new(i as nat, |k: int| 0u8));
        }
        self.write(z.as_slice());
        r
    }

    /// Drops what was written after the first `len` bytes.
    pub fn rewind(&mut self, len: usize)
        requires
            old(self).wf(),
            len <= old(self).bytes@.len(),
        ensures
            final(self).wf(),
            final(self).bytes@ == old(self).bytes@.subrange(0, len as int),
            final(self).cap == old(self).cap,
            final(self).overflow == old(self).overflow,
            final(self).lookup == old(self).lookup,
    {
        self.bytes.truncate(len);
    }

    /// Bytes written since the start of `r`.
    pub fn distance_from_reservation(&self, r: &Reservation) -> (d: usize)
        requires
            r.start <= self.pos(),
        ensures
            d == self.pos() - r.start,
    {
        self.bytes.len() - r.start
    }

    /// Fills in the two bytes of `r` with `v`; does nothing after an overflow.
    pub fn write_reservation(&mut self, r: Reservation, v: u16)
        requires
            old(self).wf(),
            !old(self).overflow ==> r.start + 2 <= old(self).pos(),
            r.len == 2,
        ensures
            final(self).wf(),
            final(self).cap == old(self).cap,
            final(self).overflow == old(self).overflow,
            final(self).lookup == old(self).lookup,
            !old(self).overflow ==> final(self).bytes@ == old(self).bytes@.update(
                r.start as int,
                be16(v)[0],
            ).update(r.start + 1, be16(v)[1]),
    {
        if self.overflow {
            return;
        }
        proof {
            lemma_be16(v);
        }
        self.bytes.set(r.start, (v / 256) as u8);
        self.bytes.set(r.start + 1, (v % 256) as u8);
    }
}

/// `a` holds in its last `16 - i` places the low bytes of `v`, and `rest` is
/// what is left of `v` for the first `i` places.
pub open spec fn be_bytes_split(v: nat, i: nat, rest: nat, a: Seq<u8>) -> bool {
    &&& a.len() == 16
    &&& i <= 16
    &&& v < pow256(16)
    &&& rest < pow256(i)
    &&& be_bytes(v, 16) == be_bytes(rest, i) + a.subrange(i as int, 16)
}

use crate::wire::be_bytes;

proof fn lemma_split_step(v: nat, i: nat, rest: nat, a: Seq<u8>)
    requires
        be_bytes_split(v, i, rest, a),
        i > 0,
    ensures
        be_bytes_split(v, (i - 1) as nat, rest / 256, a.update(i - 1, (rest % 256) as u8)),
{
    let a2 = a.update(i - 1, (rest % 256) as u8);
    let m = (i - 1) as nat;
    assert(be_bytes(rest, i) == be_bytes(rest / 256, m).push((rest % 256) as u8));
    assert(a2.subrange(m as int, 16) =~= seq![(rest % 256) as u8] + a.subrange(i as int, 16));
    assert(be_bytes(rest / 256, m) + a2.subrange(m as int, 16) =~= be_bytes(rest, i) + a.subrange(i as int, 16));
    crate::wire::lemma_pow256_pos(m);
    assert(rest / 256 < pow256(m)) by (nonlinear_arith)
        requires
            rest < 256 * pow256(m),
            pow256(m) > 0,
    ;
}

proof fn lemma_split_done(v: nat, a: Seq<u8>)
    requires
        be_bytes_split(v, 0, 0, a),
    ensures
        a == be_bytes(v, 16),
{
    assert(be_bytes(0, 0) =~= Seq::<u8>::empty());
    assert(a.subrange(0, 16) =~= a);
}

/// What the memo answers for all of `m` it answered already for a prefix.
pub proof fn lemma_memo_find_prefix(m: Memo, k: int, t: Seq<u8>)
    requires
        0 <= k <= m.len(),
        memo_find(m.take(k), t) is Some,
    ensures
        memo_find(m, t) == memo_find(m.take(k), t),
    decreases m.len() - k,
{
    if k < m.len() {
        assert(m.take(k + 1).drop_last() =~= m.take(k));
        lemma_memo_find_prefix(m, k + 1, t);
    } else {
        assert(m.take(k) =~= m);
    }
}

} // verus!

use vstd::prelude::*;
use vstd::slice::slice_subrange;
use vstd::string::{StrSliceExecFns, StringSliceAdditionalSpecFns};
use vstd::utf8::valid_utf8;

use crate::wire::{be16, copy_bytes, copy_range, is_utf8, ParseError};
use crate::writer::{memo_find, memo_push, Memo, Writer};

verus! {

/// The byte of a dot.
pub const DOT: u8 = 46;

/// The index of the first dot in `s`, or its length when it has none.
pub open spec fn dot_index(s: Seq<u8>) -> int
    decreases s.len(),
{
    if s.len() == 0 {
        0
    } else if s[0] == DOT {
        0
    } else {
        1 + dot_index(s.subrange(1, s.len() as int))
    }
}

/// `s` cut at every dot, as `str::split('.')` cuts it: never empty.
pub open spec fn split_dots(s: Seq<u8>) -> Seq<Seq<u8>>
    decreases s.len(),
{
    let k = dot_index(s);
    if 0 <= k < s.len() {
        seq![s.subrange(0, k)] + split_dots(s.subrange(k + 1, s.len() as int))
    } else {
        seq![s]
    }
}

/// The segments of a dotted text: none for the empty text, and a final dot
/// adds no empty segment.
pub open spec fn str_segments(s: Seq<u8>) -> Seq<Seq<u8>> {
    if s.len() == 0 {
        Seq::empty()
    } else if s.last() == DOT {
        split_dots(s.drop_last())
    } else {
        split_dots(s)
    }
}

/// All the sequences of `ss`, one after the other.
pub open spec fn concat_all(ss: Seq<Seq<Seq<u8>>>) -> Seq<Seq<u8>>
    decreases ss.len(),
{
    if ss.len() == 0 {
        Seq::empty()
    } else {
        concat_all(ss.drop_last()) + ss.last()
    }
}

/// A part of a name, as a value.
pub enum PartView {
    /// Segments read from a packet.
    Run(Seq<Seq<u8>>),
    /// A dotted text given by the caller.
    Str(Seq<u8>),
}

/// The segments that a part stands for.
pub open spec fn part_segments(p: PartView) -> Seq<Seq<u8>> {
    match p {
        PartView::Run(segs) => concat_all(segs.map_values(|s: Seq<u8>| split_dots(s))),
        PartView::Str(s) => str_segments(s),
    }
}

/// The segments of a name made of `parts`.
pub open spec fn name_segments(parts: Seq<PartView>) -> Seq<Seq<u8>> {
    concat_all(parts.map_values(|p: PartView| part_segments(p)))
}

/// A part of a name.
#[derive(Debug)]
pub enum LabelPart {
    /// Segments read from a packet, each as it stood on the wire.
    Run(Vec<Vec<u8>>),
    /// A dotted text.
    Str(Vec<u8>),
}

impl View for LabelPart {
    type V = PartView;

    open spec fn view(&self) -> PartView {
        match self {
            LabelPart::Run(segs) => PartView::Run(byte_seqs(segs@)),
            LabelPart::Str(s) => PartView::Str(s@),
        }
    }
}

/// A domain name: parts in order, at most `LLEN` of them.
#[derive(Debug)]
pub struct Label<const LLEN: usize> {
    pub parts: Vec<LabelPart>,
}

/// The length-prefixed wire form of `segs`, without a terminator.
pub open spec fn enc_segs(segs: Seq<Seq<u8>>) -> Seq<u8>
    decreases segs.len(),
{
    if segs.len() == 0 {
        Seq::empty()
    } else {
        enc_segs(segs.drop_last()) + seq![(segs.last().len() % 256) as u8] + segs.last()
    }
}

/// The compression pointer to offset `o`.
pub open spec fn pointer_bytes(o: usize) -> Seq<u8> {
    be16(0xc000u16 | ((o % 0x10000) as u16))
}

/// The wire form of the dotted text `rest` written at offset `pos` with the
/// memo `m`, and the memo after it. Only the last part of a name may end in a
/// pointer to an earlier suffix, and it ends with the terminating zero when it
/// does not.
pub open spec fn enc_str(rest: Seq<u8>, is_last: bool, m: Memo, pos: int, lk: nat) -> (Seq<u8>, Memo)
    decreases rest.len(),
{
    if rest.len() == 0 {
        (if is_last { seq![0u8] } else { Seq::empty() }, m)
    } else if is_last && memo_find(m, rest) is Some {
        (pointer_bytes(memo_find(m, rest)->Some_0), m)
    } else {
        let k = dot_index(rest);
        let seg = if 0 <= k < rest.len() { rest.subrange(0, k) } else { rest };
        let head = seq![(seg.len() % 256) as u8] + seg;
        let m1 = memo_push(m, rest, pos as usize, lk);
        if 0 <= k < rest.len() {
            let (e, m2) = enc_str(rest.subrange(k + 1, rest.len() as int), is_last, m1, pos + head.len(), lk);
            (head + e, m2)
        } else {
            (head + if is_last { seq![0u8] } else { Seq::empty() }, m1)
        }
    }
}

/// The wire form of one part.
pub open spec fn enc_part(p: PartView, is_last: bool, m: Memo, pos: int, lk: nat) -> (Seq<u8>, Memo) {
    match p {
        PartView::Run(segs) => (enc_segs(segs), m),
        PartView::Str(s) => enc_str(s, is_last, m, pos, lk),
    }
}

/// The wire form of the parts from `i` on; a name that ends in a run of
/// packet segments gets the terminating zero after it.
pub open spec fn enc_parts_from(parts: Seq<PartView>, i: int, m: Memo, pos: int, lk: nat) -> (Seq<u8>, Memo)
    decreases parts.len() - i,
{
    if i < 0 || i >= parts.len() {
        if parts.len() > 0 && parts.last() is Run {
            (seq![0u8], m)
        } else {
            (Seq::empty(), m)
        }
    } else {
        let (e1, m1) = enc_part(parts[i], i == parts.len() - 1, m, pos, lk);
        let (e2, m2) = enc_parts_from(parts, i + 1, m1, pos + e1.len(), lk);
        (e1 + e2, m2)
    }
}

/// The wire form of a name written at offset `pos` with the memo `m`.
pub open spec fn enc_label(parts: Seq<PartView>, m: Memo, pos: int, lk: nat) -> (Seq<u8>, Memo) {
    enc_parts_from(parts, 0, m, pos, lk)
}

/// What reading a name at `pos` of the packet `ctx` gives: the parts read,
/// and the offset after the name in place. `acc` holds the parts read so far
/// and `run` the segments of the current run. A pointer is followed at most
/// `limit` more times; it must land inside the packet on two bytes other than
/// its own.
pub open spec fn name_from(
    ctx: Seq<u8>,
    pos: int,
    limit: nat,
    llen: nat,
    acc: Seq<PartView>,
    run: Seq<Seq<u8>>,
) -> Result<(Seq<PartView>, int), ParseError>
    decreases limit, ctx.len() - pos,
{
    if pos < 0 || pos >= ctx.len() {
        Err(ParseError::Incomplete)
    } else {
        let len = ctx[pos];
        if len == 0 {
            if acc.len() >= llen {
                Err(ParseError::TooLarge)
            } else {
                Ok((acc.push(PartView::Run(run)), pos + 1))
            }
        } else if len >= 64 {
            if run.len() > 0 && acc.len() >= llen {
                Err(ParseError::TooLarge)
            } else if pos + 1 >= ctx.len() {
                Err(ParseError::Incomplete)
            } else {
                let acc2 = if run.len() > 0 { acc.push(PartView::Run(run)) } else { acc };
                let off = (len % 64) * 256 + ctx[pos + 1];
                if off > ctx.len() || ctx.len() - off < 2 || (ctx[off] == ctx[pos] && ctx[off + 1]
                    == ctx[pos + 1]) || limit == 0 {
                    Err(ParseError::LengthValue)
                } else {
                    match name_from(ctx, off, (limit - 1) as nat, llen, acc2, Seq::empty()) {
                        Ok((parts, _)) => Ok((parts, pos + 2)),
                        Err(e) => Err(e),
                    }
                }
            }
        } else if pos + 1 + len > ctx.len() {
            Err(ParseError::Incomplete)
        } else {
            let seg = ctx.subrange(pos + 1, pos + 1 + len);
            if !valid_utf8(seg) {
                Err(ParseError::AlphaNumeric)
            } else {
                name_from(ctx, pos + 1 + len, limit, llen, acc, run.push(seg))
            }
        }
    }
}

/// What reading a name at `pos` of `ctx` gives, with at most four pointers
/// followed and at most `llen` parts.
pub open spec fn parse_name(ctx: Seq<u8>, pos: int, llen: nat) -> Result<(Seq<PartView>, int), ParseError> {
    name_from(ctx, pos, 4, llen, Seq::empty(), Seq::empty())
}

proof fn lemma_dot_index(s: Seq<u8>, k: int)
    requires
        0 <= k <= s.len(),
        forall|j: int| 0 <= j < k ==> s[j] != DOT,
        k == s.len() || s[k] == DOT,
    ensures
        dot_index(s) == k,
    decreases k,
{
    if k > 0 {
        let t = s.subrange(1, s.len() as int);
        lemma_dot_index(t, k - 1);
    }
}

/// The index of the first dot in `s` at or after `start`, or its length.
fn next_dot(s: &[u8], start: usize) -> (j: usize)
    requires
        start <= s@.len(),
    ensures
        start <= j <= s@.len(),
        dot_index(s@.subrange(start as int, s@.len() as int)) == j - start,
        j < s@.len() ==> s@[j as int] == DOT,
{
    let mut j = start;
    while j < s.len() && s[j] != DOT
        invariant
            start <= j <= s@.len(),
            forall|i: int| start <= i < j ==> s@[i] != DOT,
        decreases s.len() - j,
    {
        j = j + 1;
    }
    proof {
        let t = s@.subrange(start as int, s@.len() as int);
        lemma_dot_index(t, j - start);
    }
    j
}

/// The byte strings of `v`.
pub open spec fn byte_seqs(v: Seq<Vec<u8>>) -> Seq<Seq<u8>> {
    v.map_values(|x: Vec<u8>| x@)
}

/// Appends the pieces of `s` cut at every dot to `out`.
fn split_into(s: &[u8], out: &mut Vec<Vec<u8>>)
    ensures
        byte_seqs(final(out)@) == byte_seqs(old(out)@) + split_dots(s@),
{
    let mut start: usize = 0;
    let ghost full = split_dots(s@);
    assert(s@.subrange(0, s@.len() as int) =~= s@);
    loop
        invariant_except_break
            start <= s@.len(),
            byte_seqs(old(out)@) + full == byte_seqs(out@) + split_dots(
                s@.subrange(start as int, s@.len() as int),
            ),
        invariant
            full == split_dots(s@),
        ensures
            byte_seqs(old(out)@) + full == byte_seqs(out@),
        decreases s@.len() - start,
    {
        let j = next_dot(s, start);
        let piece = copy_range(s, start, j);
        let ghost t = s@.subrange(start as int, s@.len() as int);
        let ghost before = byte_seqs(out@);
        out.push(piece);
        assert(byte_seqs(out@) =~= before.push(s@.subrange(start as int, j as int)));
        assert(t.subrange(0, j - start) =~= s@.subrange(start as int, j as int));
        if j == s.len() {
            assert(t =~= s@.subrange(start as int, j as int));
            assert(split_dots(t) == seq![t]);
            assert(before + split_dots(t) =~= byte_seqs(out@));
            break;
        }
        assert(t.subrange(j - start + 1, t.len() as int) =~= s@.subrange(j + 1, s@.len() as int));
        assert(split_dots(t) == seq![s@.subrange(start as int, j as int)] + split_dots(
            s@.subrange(j + 1, s@.len() as int),
        ));
        assert(before + split_dots(t) =~= byte_seqs(out@) + split_dots(
            s@.subrange(j + 1, s@.len() as int),
        ));
        start = j + 1;
    }
}

/// A writer that overflowed part way still overflowed for the whole output.
pub proof fn lemma_emits_longer<const LK: usize>(
    w0: Writer<LK>,
    w1: Writer<LK>,
    e: Seq<u8>,
    m: Memo,
    e_full: Seq<u8>,
    m_full: Memo,
)
    requires
        Writer::<LK>::emits(w0, w1, e, m),
        w1.overflow,
        e.is_prefix_of(e_full),
    ensures
        Writer::<LK>::emits(w0, w1, e_full, m_full),
{
    lemma_prefix_extend(w1.bytes@, w0.bytes@, e, e_full);
}

/// A start of `a + e` is a start of `a + f` when `e` is a start of `f`.
pub proof fn lemma_prefix_extend(b: Seq<u8>, a: Seq<u8>, e: Seq<u8>, f: Seq<u8>)
    requires
        b.is_prefix_of(a + e),
        e.is_prefix_of(f),
    ensures
        b.is_prefix_of(a + f),
{
    assert forall|i: int| 0 <= i < b.len() implies b[i] == (a + f)[i] by {
        assert(b[i] == (a + e).subrange(0, b.len() as int)[i]);
        if i >= a.len() {
            assert(e[i - a.len()] == f.subrange(0, e.len() as int)[i - a.len()]);
        }
    }
    assert(b =~= (a + f).subrange(0, b.len() as int));
}

/// Two steps of a writer make one.
pub proof fn lemma_emits_join<const LK: usize>(
    w0: Writer<LK>,
    w1: Writer<LK>,
    w2: Writer<LK>,
    e1: Seq<u8>,
    m1: Memo,
    e2: Seq<u8>,
    m2: Memo,
)
    requires
        Writer::<LK>::emits(w0, w1, e1, m1),
        Writer::<LK>::emits(w1, w2, e2, m2),
    ensures
        Writer::<LK>::emits(w0, w2, e1 + e2, m2),
{
    assert(e1.is_prefix_of(e1 + e2));
    if !w1.overflow {
        assert(w0.bytes@ + (e1 + e2) =~= w1.bytes@ + e2);
    } else {
        lemma_prefix_extend(w1.bytes@, w0.bytes@, e1, e1 + e2);
    }
}

/// Writes the segments `segs` with their length bytes.
pub fn serialize_run<const LK: usize>(segs: &Vec<Vec<u8>>, w: &mut Writer<LK>)
    requires
        old(w).wf(),
    ensures
        Writer::<LK>::emits(*old(w), *final(w), enc_segs(byte_seqs(segs@)), old(w).memo()),
{
    let ghost w0 = *w;
    let ghost all = byte_seqs(segs@);
    let mut i: usize = 0;
    assert(all.take(0) =~= Seq::<Seq<u8>>::empty());
    assert(w0.bytes@ + enc_segs(all.take(0)) =~= w0.bytes@);
    while i < segs.len()
        invariant
            i <= segs@.len(),
            all == byte_seqs(segs@),
            Writer::<LK>::emits(w0, *w, enc_segs(all.take(i as int)), w0.memo()),
        decreases segs.len() - i,
    {
        let ghost w1 = *w;
        let seg = &segs[i];
        w.write_u8((seg.len() % 256) as u8);
        let ghost w2 = *w;
        w.write(seg.as_slice());
        proof {
            lemma_emits_join(w1, w2, *w, seq![(seg@.len() % 256) as u8], w0.memo(), seg@, w0.memo());
            lemma_emits_join(w0, w1, *w, enc_segs(all.take(i as int)), w0.memo(), seq![(seg@.len() % 256) as u8] + seg@, w0.memo());
            assert(all.take(i + 1).drop_last() =~= all.take(i as int));
            assert(enc_segs(all.take(i as int)) + (seq![(seg@.len() % 256) as u8] + seg@) =~= enc_segs(all.take(i + 1)));
        }
        i = i + 1;
    }
    assert(all.take(i as int) =~= all);
}

/// Writes the dotted text `v`; when it is the last part of a name, it ends in
/// a pointer to an earlier suffix where the memo has one, else in a zero.
pub fn serialize_str<const LK: usize>(v: &[u8], w: &mut Writer<LK>, is_last: bool)
    requires
        old(w).wf(),
    ensures
        Writer::<LK>::emits(
            *old(w),
            *final(w),
            enc_str(v@, is_last, old(w).memo(), old(w).pos(), LK as nat).0,
            enc_str(v@, is_last, old(w).memo(), old(w).pos(), LK as nat).1,
        ),
{
    let ghost w0 = *w;
    let ghost full = enc_str(v@, is_last, w0.memo(), w0.pos(), LK as nat);
    if w.overflow {
        return;
    }
    let mut start: usize = 0;
    let ghost mut produced: Seq<u8> = Seq::empty();
    assert(v@.subrange(0, v@.len() as int) =~= v@);
    assert(w0.bytes@ + produced =~= w0.bytes@);
    while start < v.len()
        invariant
            start <= v@.len(),
            !w.overflow,
            Writer::<LK>::emits(w0, *w, produced, w.memo()),
            full.0 == produced + enc_str(v@.subrange(start as int, v@.len() as int), is_last, w.memo(), w.pos(), LK as nat).0,
            full.1 == enc_str(v@.subrange(start as int, v@.len() as int), is_last, w.memo(), w.pos(), LK as nat).1,
            full == enc_str(v@, is_last, w0.memo(), w0.pos(), LK as nat),
            w0 == *old(w),
        decreases v.len() - start,
    {
        let ghost rest = v@.subrange(start as int, v@.len() as int);
        let ghost w1 = *w;
        let ghost st = enc_str(rest, is_last, w1.memo(), w1.pos(), LK as nat);
        if is_last {
            if let Some(off) = w.find_label(slice_subrange(v, start, v.len())) {
                let p: u16 = 0xc000u16 | ((off % 0x10000) as u16);
                w.write_u16(p);
                proof {
                    lemma_emits_join(w0, w1, *w, produced, w1.memo(), pointer_bytes(off), w1.memo());
                    assert(st == (pointer_bytes(off), w1.memo()));
                    assert(produced + pointer_bytes(off) == full.0);
                }
                return;
            }
        }
        let j = next_dot(v, start);
        let ghost seg = v@.subrange(start as int, j as int);
        let ghost head = seq![((j - start) % 256) as u8] + seg;
        proof {
            assert(rest.subrange(0, j - start) =~= seg);
            if j == v@.len() {
                assert(rest =~= seg);
            }
            assert(!(is_last && memo_find(w1.memo(), rest) is Some));
            let m1 = memo_push(w1.memo(), rest, w1.pos() as usize, LK as nat);
            if j < v@.len() {
                let (e, m2) = enc_str(rest.subrange(j - start + 1, rest.len() as int), is_last, m1, w1.pos() + head.len(), LK as nat);
                assert(st == (head + e, m2));
            } else {
                assert(st == (head + if is_last { seq![0u8] } else { Seq::empty() }, m1));
            }
            assert(st.0.len() >= head.len());
        }
        w.push_label(slice_subrange(v, start, v.len()));
        let ghost w2 = *w;
        let n = j - start;
        w.write_u8((n % 256) as u8);
        let ghost w3 = *w;
        w.write(slice_subrange(v, start, j));
        proof {
            assert(v@.subrange(start as int, j as int) == seg);
            lemma_emits_join(w2, w3, *w, seq![(n % 256) as u8], w2.memo(), seg, w2.memo());
            lemma_emits_join(w0, w2, *w, produced, w2.memo(), seq![(n % 256) as u8] + seg, w2.memo());
            produced = produced + (seq![(n % 256) as u8] + seg);
        }
        if w.overflow {
            proof {
                lemma_emits_longer(w0, *w, produced, w2.memo(), full.0, full.1);
            }
            return;
        }
        if j == v.len() {
            start = j;
            proof {
                assert(v@.subrange(start as int, v@.len() as int) =~= Seq::<u8>::empty());
            }
        } else {
            proof {
                assert(rest.subrange(j - start + 1, rest.len() as int) =~= v@.subrange(j + 1, v@.len() as int));
            }
            start = j + 1;
        }
    }
    if is_last {
        let ghost w1 = *w;
        w.write_u8(0);
        proof {
            lemma_emits_join(w0, w1, *w, produced, w1.memo(), seq![0u8], w1.memo());
        }
    } else {
        assert(produced + Seq::<u8>::empty() =~= produced);
    }
}

/// The values of the parts in `v`.
pub open spec fn part_views(v: Seq<LabelPart>) -> Seq<PartView> {
    v.map_values(|p: LabelPart| p@)
}

impl<const LLEN: usize> View for Label<LLEN> {
    type V = Seq<PartView>;

    open spec fn view(&self) -> Seq<PartView> {
        part_views(self.parts@)
    }
}

proof fn lemma_concat_step<A>(xs: Seq<A>, f: spec_fn(A) -> Seq<Seq<u8>>, i: int)
    requires
        0 <= i < xs.len(),
    ensures
        concat_all(xs.take(i + 1).map_values(f)) == concat_all(xs.take(i).map_values(f)) + f(xs[i]),
{
    assert(xs.take(i + 1).map_values(f).drop_last() =~= xs.take(i).map_values(f));
}

impl<const LLEN: usize> Label<LLEN> {
    /// A name of one part, the dotted text `s`; `s` must not end in a dot.
    /// With no room for a part the name stays empty.
    pub fn new(s: &str) -> (r: Self)
        requires
            !(s.spec_bytes().len() > 0 && s.spec_bytes().last() == DOT),
        ensures
            LLEN > 0 ==> r@ == seq![PartView::Str(s.spec_bytes())],
            LLEN == 0 ==> r@ == Seq::<PartView>::empty(),
    {
        let mut l = Label { parts: Vec::new() };
        l.push_back(s);
        l
    }

    /// A name without parts.
    pub fn empty() -> (r: Self)
        ensures
            r@ == Seq::<PartView>::empty(),
    {
        let r = Label { parts: Vec::new() };
        assert(r@ =~= Seq::<PartView>::empty());
        r
    }

    /// Puts the dotted text `part` in front, if a part fits.
    pub fn push_front(&mut self, part: &str) -> (r: bool)
        ensures
            r == (old(self).parts@.len() < LLEN),
            r ==> final(self)@ == seq![PartView::Str(part.spec_bytes())] + old(self)@,
            !r ==> final(self)@ == old(self)@,
    {
        if self.parts.len() >= LLEN {
            return false;
        }
        self.parts.insert(0, LabelPart::Str(part.as_bytes_vec()));
        assert(self@ =~= seq![PartView::Str(part.spec_bytes())] + old(self)@);
        true
    }

    /// Puts the dotted text `part` at the end, if a part fits.
    pub fn push_back(&mut self, part: &str) -> (r: bool)
        ensures
            r == (old(self).parts@.len() < LLEN),
            r ==> final(self)@ == old(self)@.push(PartView::Str(part.spec_bytes())),
            !r ==> final(self)@ == old(self)@,
    {
        if self.parts.len() >= LLEN {
            return false;
        }
        self.parts.push(LabelPart::Str(part.as_bytes_vec()));
        assert(self@ =~= old(self)@.push(PartView::Str(part.spec_bytes())));
        true
    }

    /// A copy of this name.
    pub fn duplicate(&self) -> (r: Self)
        ensures
            r@ == self@,
    {
        let mut parts: Vec<LabelPart> = Vec::new();
        let mut i: usize = 0;
        while i < self.parts.len()
            invariant
                i <= self.parts@.len(),
                parts@.len() == i,
                part_views(parts@) == part_views(self.parts@).take(i as int),
            decreases self.parts.len() - i,
        {
            let p = match &self.parts[i] {
                LabelPart::Run(segs) => {
                    let mut c: Vec<Vec<u8>> = Vec::new();
                    let mut k: usize = 0;
                    while k < segs.len()
                        invariant
                            k <= segs@.len(),
                            c@.len() == k,
                            byte_seqs(c@) == byte_seqs(segs@).take(k as int),
                        decreases segs.len() - k,
                    {
                        let cp = copy_bytes(segs[k].as_slice());
                        let ghost c0 = c@;
                        c.push(cp);
                        assert(c@ == c0.push(cp));
                        k = k + 1;
                        assert(byte_seqs(c@) =~= byte_seqs(segs@).take(k as int));
                    }
                    assert(byte_seqs(segs@).take(k as int) =~= byte_seqs(segs@));
                    LabelPart::Run(c)
                },
                LabelPart::Str(t) => LabelPart::Str(copy_bytes(t.as_slice())),
            };
            assert(p@ == self.parts@[i as int]@);
            let ghost p0 = parts@;
            parts.push(p);
            assert(parts@ == p0.push(p));
            i = i + 1;
            assert(part_views(parts@) =~= part_views(self.parts@).take(i as int));
        }
        assert(part_views(self.parts@).take(i as int) =~= part_views(self.parts@));
        Label { parts }
    }

    /// The segments of this name, in order.
    pub fn iter(&self) -> (r: Vec<Vec<u8>>)
        ensures
            byte_seqs(r@) == name_segments(self@),
    {
        let mut out: Vec<Vec<u8>> = Vec::new();
        let ghost pv = self@;
        let ghost f = |p: PartView| part_segments(p);
        let mut i: usize = 0;
        assert(byte_seqs(out@) =~= concat_all(pv.take(0).map_values(f)));
        while i < self.parts.len()
            invariant
                i <= self.parts@.len(),
                pv == self@,
                f == (|p: PartView| part_segments(p)),
                byte_seqs(out@) == concat_all(pv.take(i as int).map_values(f)),
            decreases self.parts.len() - i,
        {
            let ghost before = byte_seqs(out@);
            match &self.parts[i] {
                LabelPart::Run(segs) => {
                    let ghost g = |t: Seq<u8>| split_dots(t);
                    let ghost ss = byte_seqs(segs@);
                    let mut k: usize = 0;
                    assert(concat_all(ss.take(0).map_values(g)) =~= Seq::<Seq<u8>>::empty());
                    assert(before + concat_all(ss.take(0).map_values(g)) =~= byte_seqs(out@));
                    while k < segs.len()
                        invariant
                            k <= segs@.len(),
                            ss == byte_seqs(segs@),
                            g == (|t: Seq<u8>| split_dots(t)),
                            byte_seqs(out@) == before + concat_all(ss.take(k as int).map_values(g)),
                        decreases segs.len() - k,
                    {
                        split_into(segs[k].as_slice(), &mut out);
                        proof {
                            lemma_concat_step(ss, g, k as int);
                        }
                        k = k + 1;
                        assert(byte_seqs(out@) =~= before + concat_all(ss.take(k as int).map_values(g)));
                    }
                    assert(ss.take(k as int) =~= ss);
                    assert(ss.map_values(g) == ss.map_values(|s: Seq<u8>| split_dots(s)));
                },
                LabelPart::Str(t) => {
                    let n = t.len();
                    if n == 0 {
                        assert(byte_seqs(out@) =~= before + str_segments(t@));
                    } else if t[n - 1] == DOT {
                        split_into(slice_subrange(t.as_slice(), 0, n - 1), &mut out);
                        assert(t@.subrange(0, n - 1) =~= t@.drop_last());
                    } else {
                        split_into(t.as_slice(), &mut out);
                    }
                },
            }
            proof {
                lemma_concat_step(pv, f, i as int);
            }
            i = i + 1;
        }
        assert(pv.take(i as int) =~= pv);
        out
    }

    /// Whether the name has no segments.
    pub fn is_empty(&self) -> (r: bool)
        ensures
            r == (name_segments(self@).len() == 0),
    {
        let segs = self.iter();
        segs.len() == 0
    }

    /// Whether the segments of this name are those of the dotted text `s`.
    pub fn eq_str(&self, s: &str) -> (r: bool)
        ensures
            r == (name_segments(self@) == split_dots(s.spec_bytes())),
    {
        let mine = self.iter();
        let mut theirs: Vec<Vec<u8>> = Vec::new();
        let b = s.as_bytes_vec();
        split_into(b.as_slice(), &mut theirs);
        assert(byte_seqs(theirs@) =~= split_dots(s.spec_bytes()));
        segment_lists_eq(&mine, &theirs)
    }

    /// Whether two names have the same segments.
    pub fn same_as(&self, other: &Self) -> (r: bool)
        ensures
            r == (name_segments(self@) == name_segments(other@)),
    {
        let a = self.iter();
        let b = other.iter();
        segment_lists_eq(&a, &b)
    }
}

/// Whether two lists of byte strings are equal.
pub fn segment_lists_eq(a: &Vec<Vec<u8>>, b: &Vec<Vec<u8>>) -> (r: bool)
    ensures
        r == (byte_seqs(a@) == byte_seqs(b@)),
{
    if a.len() != b.len() {
        assert(byte_seqs(a@).len() != byte_seqs(b@).len());
        return false;
    }
    let mut i: usize = 0;
    while i < a.len()
        invariant
            a@.len() == b@.len(),
            i <= a@.len(),
            forall|j: int| 0 <= j < i ==> a@[j]@ == b@[j]@,
        decreases a.len() - i,
    {
        if !crate::wire::bytes_eq(a[i].as_slice(), b[i].as_slice()) {
            assert(byte_seqs(a@)[i as int] != byte_seqs(b@)[i as int]);
            return false;
        }
        i = i + 1;
    }
    assert(byte_seqs(a@) =~= byte_seqs(b@));
    true
}

impl<const LLEN: usize> Default for Label<LLEN> {
    fn default() -> (r: Self)
        ensures
            r@ == Seq::<PartView>::empty(),
    {
        Label::empty()
    }
}

impl<const LLEN: usize> PartialEq for Label<LLEN> {
    fn eq(&self, other: &Self) -> (r: bool) {
        self.same_as(other)
    }
}

impl<const LLEN: usize> vstd::std_specs::cmp::PartialEqSpecImpl for Label<LLEN> {
    open spec fn obeys_eq_spec() -> bool {
        true
    }

    open spec fn eq_spec(&self, other: &Self) -> bool {
        name_segments(self@) == name_segments(other@)
    }
}

impl<const LLEN: usize> Label<LLEN> {
    /// Writes this name: each part in order, the last one compressed
    /// against the writer's memo where it can be.
    pub fn serialize<const LK: usize>(&self, w: &mut Writer<LK>)
        requires
            old(w).wf(),
        ensures
            Writer::<LK>::emits(
                *old(w),
                *final(w),
                enc_label(self@, old(w).memo(), old(w).pos(), LK as nat).0,
                enc_label(self@, old(w).memo(), old(w).pos(), LK as nat).1,
            ),
    {
        let ghost w0 = *w;
        let ghost pv = self@;
        let ghost full = enc_label(pv, w0.memo(), w0.pos(), LK as nat);
        if w.overflow {
            return;
        }
        let n = self.parts.len();
        let mut i: usize = 0;
        let ghost mut produced: Seq<u8> = Seq::empty();
        assert(w0.bytes@ + produced =~= w0.bytes@);
        assert(produced + full.0 =~= full.0);
        while i < n
            invariant
                n == self.parts@.len(),
                pv == self@,
                i <= n,
                !w.overflow,
                w0 == *old(w),
                Writer::<LK>::emits(w0, *w, produced, w.memo()),
                full == enc_label(pv, w0.memo(), w0.pos(), LK as nat),
                full.0 == produced + enc_parts_from(pv, i as int, w.memo(), w.pos(), LK as nat).0,
                full.1 == enc_parts_from(pv, i as int, w.memo(), w.pos(), LK as nat).1,
            decreases n - i,
        {
            let ghost w1 = *w;
            let ghost ep = enc_part(pv[i as int], i == n - 1, w1.memo(), w1.pos(), LK as nat);
            match &self.parts[i] {
                LabelPart::Run(segs) => {
                    serialize_run(segs, w);
                },
                LabelPart::Str(t) => {
                    serialize_str(t.as_slice(), w, i == n - 1);
                },
            }
            proof {
                lemma_emits_join(w0, w1, *w, produced, w1.memo(), ep.0, ep.1);
                produced = produced + ep.0;
            }
            if w.overflow {
                proof {
                    lemma_emits_longer(w0, *w, produced, ep.1, full.0, full.1);
                }
                return;
            }
            i = i + 1;
        }
        if n > 0 {
            if let LabelPart::Run(_) = &self.parts[n - 1] {
                let ghost w1 = *w;
                w.write_u8(0);
                proof {
                    lemma_emits_join(w0, w1, *w, produced, w1.memo(), seq![0u8], w1.memo());
                }
                return;
            }
        }
        assert(produced + Seq::<u8>::empty() =~= produced);
    }

    /// Reads a name at `pos` of the packet `ctx`, following compression
    /// pointers into `ctx`.
    pub fn parse(ctx: &[u8], pos: usize) -> (r: Result<(Self, usize), ParseError>)
        ensures
            match parse_name(ctx@, pos as int, LLEN as nat) {
                Ok((parts, end)) => r matches Ok((l, e)) && l@ == parts && e == end,
                Err(err) => r == Err::<(Self, usize), ParseError>(err),
            },
            r is Ok ==> r->Ok_0.1 <= ctx@.len(),
    {
        let mut parts: Vec<LabelPart> = Vec::new();
        assert(part_views(parts@) =~= Seq::<PartView>::empty());
        match Self::parse_into(ctx, pos, 4, &mut parts) {
            Ok(end) => Ok((Label { parts }, end)),
            Err(e) => Err(e),
        }
    }

    fn parse_into(ctx: &[u8], pos: usize, limit: u8, parts: &mut Vec<LabelPart>) -> (r: Result<usize, ParseError>)
        ensures
            match name_from(ctx@, pos as int, limit as nat, LLEN as nat, part_views(old(parts)@), Seq::empty()) {
                Ok((acc, end)) => r matches Ok(e) && e == end && part_views(final(parts)@) == acc,
                Err(err) => r == Err::<usize, ParseError>(err),
            },
            r is Ok ==> r->Ok_0 <= ctx@.len(),
        decreases limit,
    {
        let ghost goal = name_from(ctx@, pos as int, limit as nat, LLEN as nat, part_views(parts@), Seq::empty());
        let mut p: usize = pos;
        let mut run: Vec<Vec<u8>> = Vec::new();
        assert(byte_seqs(run@) =~= Seq::<Seq<u8>>::empty());
        loop
            invariant
                goal == name_from(ctx@, pos as int, limit as nat, LLEN as nat, part_views(old(parts)@), Seq::empty()),
                goal == name_from(ctx@, p as int, limit as nat, LLEN as nat, part_views(parts@), byte_seqs(run@)),
            decreases ctx@.len() - p,
        {
            if p >= ctx.len() {
                return Err(ParseError::Incomplete);
            }
            let len = ctx[p];
            if len == 0 {
                if parts.len() >= LLEN {
                    return Err(ParseError::TooLarge);
                }
                let ghost before = part_views(parts@);
                let ghost rv = byte_seqs(run@);
                parts.push(LabelPart::Run(run));
                assert(part_views(parts@) =~= before.push(PartView::Run(rv)));
                return Ok(p + 1);
            }
            if len >= 64 {
                if run.len() > 0 && parts.len() >= LLEN {
                    return Err(ParseError::TooLarge);
                }
                if p + 1 >= ctx.len() {
                    return Err(ParseError::Incomplete);
                }
                if run.len() > 0 {
                    let ghost before = part_views(parts@);
                    let ghost rv = byte_seqs(run@);
                    parts.push(LabelPart::Run(run));
                    assert(part_views(parts@) =~= before.push(PartView::Run(rv)));
                }
                let off: usize = ((len % 64) as usize) * 256 + (ctx[p + 1] as usize);
                if off > ctx.len() || ctx.len() - off < 2 || (ctx[off] == ctx[p] && ctx[off + 1] == ctx[p + 1])
                    || limit == 0 {
                    return Err(ParseError::LengthValue);
                }
                return match Self::parse_into(ctx, off, limit - 1, parts) {
                    Ok(_) => Ok(p + 2),
                    Err(e) => Err(e),
                };
            }
            let l = len as usize;
            if l > ctx.len() - p - 1 {
                return Err(ParseError::Incomplete);
            }
            let seg = copy_range(ctx, p + 1, p + 1 + l);
            if !is_utf8(seg.as_slice()) {
                return Err(ParseError::AlphaNumeric);
            }
            let ghost r0 = byte_seqs(run@);
            run.push(seg);
            assert(byte_seqs(run@) =~= r0.push(ctx@.subrange(p + 1, p + 1 + l)));
            p = p + 1 + l;
        }
    }
}

/// A name built from one dotted text that is not empty and does not end in
/// a dot has exactly the pieces of that text cut at every dot as segments.
pub proof fn lemma_built_label_segments(s: Seq<u8>)
    requires
        s.len() > 0,
        s.last() != DOT,
    ensures
        name_segments(seq![PartView::Str(s)]) == split_dots(s),
{
    let ps = seq![PartView::Str(s)].map_values(|p: PartView| part_segments(p));
    assert(ps.drop_last() =~= Seq::<Seq<Seq<u8>>>::empty());
    assert(ps.last() == part_segments(PartView::Str(s)));
    assert(concat_all(ps.drop_last()) == Seq::<Seq<u8>>::empty());
    assert(concat_all(ps) == concat_all(ps.drop_last()) + ps.last());
    assert(concat_all(ps) =~= split_dots(s));
}

} // verus!

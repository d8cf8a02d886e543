use vstd::prelude::*;
use vstd::utf8::valid_utf8;

use crate::label::{enc_label, lemma_emits_join, parse_name, Label, PartView};
use crate::query::QType;
use crate::wire::{
    be128, be16, be32, be_value, copy_range, is_utf8, lemma_be16, read_u128, read_u16, read_u32,
    ParseError,
};
use crate::writer::{Memo, Writer};

verus! {

/// An IPv4 address record.
#[derive(Debug, Clone, Copy, PartialEq, Eq, Structural)]
pub struct A {
    pub address: u32,
}

/// An IPv6 address record.
#[derive(Debug, Clone, Copy, PartialEq, Eq, Structural)]
pub struct AAAA {
    pub address: u128,
}

/// A pointer record: the name it points to.
#[derive(Debug)]
pub struct PTR<const LLEN: usize> {
    pub name: Label<LLEN>,
}

/// A text record, kept whole as one UTF-8 string.
#[derive(Debug)]
pub struct TXT {
    pub text: Vec<u8>,
}

/// A service record.
#[derive(Debug)]
pub struct SRV<const LLEN: usize> {
    pub priority: u16,
    pub weight: u16,
    pub port: u16,
    pub target: Label<LLEN>,
}

/// The data of a resource record.
#[derive(Debug)]
pub enum Record<const LLEN: usize> {
    A(A),
    AAAA(AAAA),
    PTR(PTR<LLEN>),
    TXT(TXT),
    SRV(SRV<LLEN>),
}

/// The data of a resource record, as a value.
pub enum RecordView {
    A(u32),
    AAAA(u128),
    PTR(Seq<PartView>),
    TXT(Seq<u8>),
    SRV { priority: u16, weight: u16, port: u16, target: Seq<PartView> },
}

impl<const LLEN: usize> View for Record<LLEN> {
    type V = RecordView;

    open spec fn view(&self) -> RecordView {
        match self {
            Record::A(a) => RecordView::A(a.address),
            Record::AAAA(a) => RecordView::AAAA(a.address),
            Record::PTR(p) => RecordView::PTR(p.name@),
            Record::TXT(t) => RecordView::TXT(t.text@),
            Record::SRV(s) => RecordView::SRV {
                priority: s.priority,
                weight: s.weight,
                port: s.port,
                target: s.target@,
            },
        }
    }
}

/// The wire form of a record's data, its length field first, written at
/// offset `pos` with the memo `m`; and the memo after it.
pub open spec fn enc_record(r: RecordView, m: Memo, pos: int, lk: nat) -> (Seq<u8>, Memo) {
    match r {
        RecordView::A(a) => (be16(4) + be32(a), m),
        RecordView::AAAA(a) => (be16(16) + be128(a), m),
        RecordView::PTR(name) => {
            let (le, m1) = enc_label(name, m, pos + 2, lk);
            (be16((le.len() % 0x10000) as u16) + le, m1)
        },
        RecordView::TXT(t) => (be16((t.len() % 0x10000) as u16) + t, m),
        RecordView::SRV { priority, weight, port, target } => {
            let (le, m1) = enc_label(target, m, pos + 8, lk);
            (be16(((6 + le.len()) % 0x10000) as u16) + be16(priority) + be16(weight) + be16(port)
                + le, m1)
        },
    }
}

/// The big-endian value of the `n` bytes at `pos` of `ctx`.
pub open spec fn be_at(ctx: Seq<u8>, pos: int, n: int) -> nat {
    be_value(ctx.subrange(pos, pos + n))
}

/// What reading the data of a record of type `t` at `pos` of `ctx` gives,
/// with the offset after it. The length field is checked for A, AAAA and
/// TXT records; PTR and SRV records end where their name ends.
pub open spec fn record_from(ctx: Seq<u8>, pos: int, t: QType, llen: nat) -> Result<(RecordView, int), ParseError> {
    if pos < 0 || pos + 2 > ctx.len() {
        match t {
            QType::Any => Err(ParseError::Tag),
            QType::Unknown(_) => Err(ParseError::Tag),
            _ => Err(ParseError::Incomplete),
        }
    } else {
        let len = be_at(ctx, pos, 2) as int;
        let body = pos + 2;
        match t {
            QType::A => if body + len > ctx.len() {
                Err(ParseError::Incomplete)
            } else if len != 4 {
                Err(ParseError::Fail)
            } else {
                Ok((RecordView::A(be_at(ctx, body, 4) as u32), body + 4))
            },
            QType::AAAA => if body + len > ctx.len() {
                Err(ParseError::Incomplete)
            } else if len != 16 {
                Err(ParseError::LengthValue)
            } else {
                Ok((RecordView::AAAA(be_at(ctx, body, 16) as u128), body + 16))
            },
            QType::PTR => match parse_name(ctx, body, llen) {
                Ok((name, end)) => Ok((RecordView::PTR(name), end)),
                Err(e) => Err(e),
            },
            QType::TXT => if body + len > ctx.len() {
                Err(ParseError::Incomplete)
            } else if !valid_utf8(ctx.subrange(body, body + len)) {
                Err(ParseError::AlphaNumeric)
            } else {
                Ok((RecordView::TXT(ctx.subrange(body, body + len)), body + len))
            },
            QType::SRV => if body + 6 > ctx.len() {
                Err(ParseError::Incomplete)
            } else {
                match parse_name(ctx, body + 6, llen) {
                    Ok((target, end)) => Ok((
                        RecordView::SRV {
                            priority: be_at(ctx, body, 2) as u16,
                            weight: be_at(ctx, body + 2, 2) as u16,
                            port: be_at(ctx, body + 4, 2) as u16,
                            target,
                        },
                        end,
                    )),
                    Err(e) => Err(e),
                }
            },
            _ => Err(ParseError::Tag),
        }
    }
}

/// A writer step whose first part may have overflowed still makes one step
/// with what the second part would have written had it not.
pub proof fn lemma_emits_step<const LK: usize>(
    w0: Writer<LK>,
    w1: Writer<LK>,
    w2: Writer<LK>,
    e1: Seq<u8>,
    m1: Memo,
    e2: Seq<u8>,
    m2: Memo,
    e2_ideal: Seq<u8>,
    m2_ideal: Memo,
)
    requires
        Writer::<LK>::emits(w0, w1, e1, m1),
        Writer::<LK>::emits(w1, w2, e2, m2),
        !w1.overflow ==> e2 == e2_ideal && m2 == m2_ideal && w1.memo() == m1,
    ensures
        Writer::<LK>::emits(w0, w2, e1 + e2_ideal, m2_ideal),
{
    if !w1.overflow {
        lemma_emits_join(w0, w1, w2, e1, m1, e2, m2);
    }
}

impl<const LLEN: usize> Record<LLEN> {
    /// Writes the record data with its length field. When a PTR or SRV
    /// record does not fit, none of it is kept, so that no length field is
    /// left unfilled.
    #[verifier::spinoff_prover]
    #[verifier::rlimit(60)]
    pub fn serialize<const LK: usize>(&self, w: &mut Writer<LK>)
        requires
            old(w).wf(),
        ensures
            Writer::<LK>::emits(
                *old(w),
                *final(w),
                enc_record(self@, old(w).memo(), old(w).pos(), LK as nat).0,
                enc_record(self@, old(w).memo(), old(w).pos(), LK as nat).1,
            ),
    {
        let ghost w0 = *w;
        match self {
            Record::A(a) => {
                w.write_u16(4);
                let ghost w1 = *w;
                w.write_u32(a.address);
                proof {
                    lemma_emits_step(w0, w1, *w, be16(4), w0.memo(), be32(a.address), w0.memo(), be32(a.address), w0.memo());
                }
            },
            Record::AAAA(a) => {
                w.write_u16(16);
                let ghost w1 = *w;
                w.write_u128(a.address);
                proof {
                    lemma_emits_step(w0, w1, *w, be16(16), w0.memo(), be128(a.address), w0.memo(), be128(a.address), w0.memo());
                }
            },
            Record::PTR(p) => {
                let r = w.reserve(2);
                assert(Seq::new(2, |i: int| 0u8) =~= seq![0u8, 0u8]);
                let ghost w1 = *w;
                p.name.serialize(w);
                let ghost w2 = *w;
                let ghost le = enc_label(p.name@, w0.memo(), w0.pos() + 2, LK as nat);
                proof {
                    lemma_emits_step(w0, w1, w2, seq![0u8, 0u8], w0.memo(),
                        enc_label(p.name@, w1.memo(), w1.pos(), LK as nat).0,
                        enc_label(p.name@, w1.memo(), w1.pos(), LK as nat).1, le.0, le.1);
                }
                let ghost lv = (le.0.len() % 0x10000) as u16;
                proof {
                    lemma_be16(lv);
                }
                if !w.is_overflow() {
                    let d = w.distance_from_reservation(&r);
                    let v: u16 = ((d - 2) % 0x10000) as u16;
                    w.write_reservation(r, v);
                    proof {
                        assert(v == lv);
                        assert(w.bytes@ =~= w0.bytes@ + (be16(v) + le.0));
                    }
                } else {
                    w.rewind(r.start);
                    assert(w.bytes@ =~= w0.bytes@);
                }
                assert(Writer::<LK>::emits(w0, *w, be16(lv) + le.0, le.1));
            },
            Record::TXT(t) => {
                let n = t.text.len();
                w.write_u16((n % 0x10000) as u16);
                let ghost w1 = *w;
                w.write(t.text.as_slice());
                proof {
                    lemma_emits_step(w0, w1, *w, be16((n % 0x10000) as u16), w0.memo(), t.text@, w0.memo(), t.text@, w0.memo());
                }
            },
            Record::SRV(s) => {
                let r = w.reserve(2);
                assert(Seq::new(2, |i: int| 0u8) =~= seq![0u8, 0u8]);
                let ghost w1 = *w;
                w.write_u16(s.priority);
                let ghost w2 = *w;
                w.write_u16(s.weight);
                let ghost w3 = *w;
                w.write_u16(s.port);
                let ghost w4 = *w;
                s.target.serialize(w);
                let ghost w5 = *w;
                let ghost le = enc_label(s.target@, w0.memo(), w0.pos() + 8, LK as nat);
                let ghost hd = seq![0u8, 0u8] + be16(s.priority) + be16(s.weight) + be16(s.port);
                proof {
                    lemma_emits_step(w0, w1, w2, seq![0u8, 0u8], w0.memo(), be16(s.priority), w0.memo(), be16(s.priority), w0.memo());
                    lemma_emits_step(w0, w2, w3, seq![0u8, 0u8] + be16(s.priority), w0.memo(), be16(s.weight), w0.memo(), be16(s.weight), w0.memo());
                    lemma_emits_step(w0, w3, w4, seq![0u8, 0u8] + be16(s.priority) + be16(s.weight), w0.memo(), be16(s.port), w0.memo(), be16(s.port), w0.memo());
                    lemma_be16(s.priority);
                    lemma_be16(s.weight);
                    lemma_be16(s.port);
                    lemma_emits_step(w0, w4, w5, hd, w0.memo(),
                        enc_label(s.target@, w4.memo(), w4.pos(), LK as nat).0,
                        enc_label(s.target@, w4.memo(), w4.pos(), LK as nat).1, le.0, le.1);
                }
                let ghost lv = ((6 + le.0.len()) % 0x10000) as u16;
                let ghost full = be16(lv) + be16(s.priority) + be16(s.weight) + be16(s.port) + le.0;
                proof {
                    lemma_be16(lv);
                }
                if !w.is_overflow() {
                    let d = w.distance_from_reservation(&r);
                    let v: u16 = ((d - 2) % 0x10000) as u16;
                    w.write_reservation(r, v);
                    proof {
                        assert(v == lv);
                        assert(w.bytes@ =~= w0.bytes@ + full);
                    }
                } else {
                    w.rewind(r.start);
                    assert(w.bytes@ =~= w0.bytes@);
                }
                assert(Writer::<LK>::emits(w0, *w, full, le.1));
            },
        }
    }
}

impl<const LLEN: usize> Record<LLEN> {
    /// Reads the data of a record of type `t` at `pos` of the packet `ctx`.
    pub fn parse(ctx: &[u8], pos: usize, t: QType) -> (r: Result<(Self, usize), ParseError>)
        ensures
            match record_from(ctx@, pos as int, t, LLEN as nat) {
                Ok((rv, end)) => r matches Ok((rec, e)) && rec@ == rv && e == end,
                Err(err) => r == Err::<(Self, usize), ParseError>(err),
            },
            r is Ok ==> r->Ok_0.1 <= ctx@.len(),
    {
        let len = match read_u16(ctx, pos) {
            Ok(v) => v as usize,
            Err(e) => {
                return match t {
                    QType::Any => Err(ParseError::Tag),
                    QType::Unknown(_) => Err(ParseError::Tag),
                    _ => Err(e),
                };
            },
        };
        assert(pos + 2 <= ctx@.len());
        assert(ctx@.len() == ctx.len());
        let body = pos + 2;
        match t {
            QType::A => {
                if len > ctx.len() - body {
                    return Err(ParseError::Incomplete);
                }
                if len != 4 {
                    return Err(ParseError::Fail);
                }
                let a = match read_u32(ctx, body) {
                    Ok(v) => v,
                    Err(e) => return Err(e),
                };
                Ok((Record::A(A { address: a }), body + 4))
            },
            QType::AAAA => {
                if len > ctx.len() - body {
                    return Err(ParseError::Incomplete);
                }
                if len != 16 {
                    return Err(ParseError::LengthValue);
                }
                let a = match read_u128(ctx, body) {
                    Ok(v) => v,
                    Err(e) => return Err(e),
                };
                Ok((Record::AAAA(AAAA { address: a }), body + 16))
            },
            QType::PTR => match Label::parse(ctx, body) {
                Ok((name, end)) => Ok((Record::PTR(PTR { name }), end)),
                Err(e) => Err(e),
            },
            QType::TXT => {
                if len > ctx.len() - body {
                    return Err(ParseError::Incomplete);
                }
                let text = copy_range(ctx, body, body + len);
                if !is_utf8(text.as_slice()) {
                    return Err(ParseError::AlphaNumeric);
                }
                Ok((Record::TXT(TXT { text }), body + len))
            },
            QType::SRV => {
                if ctx.len() - body < 6 {
                    return Err(ParseError::Incomplete);
                }
                let priority = match read_u16(ctx, body) {
                    Ok(v) => v,
                    Err(e) => return Err(e),
                };
                let weight = match read_u16(ctx, body + 2) {
                    Ok(v) => v,
                    Err(e) => return Err(e),
                };
                let port = match read_u16(ctx, body + 4) {
                    Ok(v) => v,
                    Err(e) => return Err(e),
                };
                match Label::parse(ctx, body + 6) {
                    Ok((target, end)) => Ok((Record::SRV(SRV { priority, weight, port, target }), end)),
                    Err(e) => Err(e),
                }
            },
            _ => Err(ParseError::Tag),
        }
    }
}

/// Whether two records carry the same data; names compare by their segments.
pub open spec fn same_record(a: RecordView, b: RecordView) -> bool {
    match (a, b) {
        (RecordView::A(x), RecordView::A(y)) => x == y,
        (RecordView::AAAA(x), RecordView::AAAA(y)) => x == y,
        (RecordView::PTR(x), RecordView::PTR(y)) => crate::label::name_segments(x) == crate::label::name_segments(y),
        (RecordView::TXT(x), RecordView::TXT(y)) => x == y,
        (
            RecordView::SRV { priority: p1, weight: w1, port: o1, target: t1 },
            RecordView::SRV { priority: p2, weight: w2, port: o2, target: t2 },
        ) => p1 == p2 && w1 == w2 && o1 == o2 && crate::label::name_segments(t1)
            == crate::label::name_segments(t2),
        _ => false,
    }
}

impl<const LLEN: usize> Record<LLEN> {
    /// Whether two records carry the same data.
    pub fn same_as(&self, other: &Self) -> (r: bool)
        ensures
            r == same_record(self@, other@),
    {
        match (self, other) {
            (Record::A(x), Record::A(y)) => x.address == y.address,
            (Record::AAAA(x), Record::AAAA(y)) => x.address == y.address,
            (Record::PTR(x), Record::PTR(y)) => x.name.same_as(&y.name),
            (Record::TXT(x), Record::TXT(y)) => crate::wire::bytes_eq(x.text.as_slice(), y.text.as_slice()),
            (Record::SRV(x), Record::SRV(y)) => x.priority == y.priority && x.weight == y.weight && x.port
                == y.port && x.target.same_as(&y.target),
            _ => false,
        }
    }
}

impl<const LLEN: usize> PartialEq for Record<LLEN> {
    fn eq(&self, other: &Self) -> (r: bool) {
        self.same_as(other)
    }
}

impl<const LLEN: usize> vstd::std_specs::cmp::PartialEqSpecImpl for Record<LLEN> {
    open spec fn obeys_eq_spec() -> bool {
        true
    }

    open spec fn eq_spec(&self, other: &Self) -> bool {
        same_record(self@, other@)
    }
}

} // verus!

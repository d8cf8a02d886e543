use vstd::prelude::*;

use crate::label::{enc_label, parse_name, Label, PartView};
use crate::records::{be_at, enc_record, lemma_emits_step, record_from, Record, RecordView};
use crate::wire::{be16, be32, read_u16, read_u32, ParseError};
use crate::writer::{Memo, Writer};

verus! {

/// The type field of a question or a resource record.
#[derive(Debug, Clone, Copy, PartialEq, Eq, Structural)]
pub enum QType {
    A,
    AAAA,
    PTR,
    TXT,
    SRV,
    Any,
    Unknown(u16),
}

/// The class field of a question or a resource record.
#[derive(Debug, Clone, Copy, PartialEq, Eq, Structural)]
pub enum QClass {
    /// The Internet class, 1.
    IN,
    /// The Internet class with the cache-flush bit, 0x8001.
    Multicast,
    Unknown(u16),
}

/// The type that a wire value denotes.
pub open spec fn qtype_of(v: u16) -> QType {
    if v == 1 {
        QType::A
    } else if v == 28 {
        QType::AAAA
    } else if v == 12 {
        QType::PTR
    } else if v == 16 {
        QType::TXT
    } else if v == 33 {
        QType::SRV
    } else if v == 255 {
        QType::Any
    } else {
        QType::Unknown(v)
    }
}

/// The wire value of a type.
pub open spec fn qtype_value(t: QType) -> u16 {
    match t {
        QType::A => 1,
        QType::AAAA => 28,
        QType::PTR => 12,
        QType::TXT => 16,
        QType::SRV => 33,
        QType::Any => 255,
        QType::Unknown(v) => v,
    }
}

/// Whether a type is one that `qtype_of` can give: an `Unknown` never
/// carries the value of a named type.
pub open spec fn qtype_canonical(t: QType) -> bool {
    match t {
        QType::Unknown(v) => v != 1 && v != 28 && v != 12 && v != 16 && v != 33 && v != 255,
        _ => true,
    }
}

/// The class that a wire value denotes.
pub open spec fn qclass_of(v: u16) -> QClass {
    if v == 1 {
        QClass::IN
    } else if v == 0x8001 {
        QClass::Multicast
    } else {
        QClass::Unknown(v)
    }
}

/// The wire value of a class.
pub open spec fn qclass_value(c: QClass) -> u16 {
    match c {
        QClass::IN => 1,
        QClass::Multicast => 0x8001,
        QClass::Unknown(v) => v,
    }
}

/// Whether a class is one that `qclass_of` can give.
pub open spec fn qclass_canonical(c: QClass) -> bool {
    match c {
        QClass::Unknown(v) => v != 1 && v != 0x8001,
        _ => true,
    }
}

impl QType {
    /// The type that a wire value denotes.
    pub fn from_u16(value: u16) -> (r: QType)
        ensures
            r == qtype_of(value),
    {
        match value {
            1 => QType::A,
            28 => QType::AAAA,
            12 => QType::PTR,
            16 => QType::TXT,
            33 => QType::SRV,
            255 => QType::Any,
            _ => QType::Unknown(value),
        }
    }

    /// The wire value of this type.
    pub fn to_u16(&self) -> (r: u16)
        ensures
            r == qtype_value(*self),
    {
        match self {
            QType::A => 1,
            QType::AAAA => 28,
            QType::PTR => 12,
            QType::TXT => 16,
            QType::SRV => 33,
            QType::Any => 255,
            QType::Unknown(value) => *value,
        }
    }
}

impl QClass {
    /// The class that a wire value denotes.
    pub fn from_u16(value: u16) -> (r: QClass)
        ensures
            r == qclass_of(value),
    {
        match value {
            1 => QClass::IN,
            0x8001 => QClass::Multicast,
            _ => QClass::Unknown(value),
        }
    }

    /// The wire value of this class.
    pub fn to_u16(&self) -> (r: u16)
        ensures
            r == qclass_value(*self),
    {
        match self {
            QClass::IN => 1,
            QClass::Multicast => 0x8001,
            QClass::Unknown(value) => *value,
        }
    }
}

/// A question: a name with the type and class asked for.
#[derive(Debug)]
pub struct Query<const LLEN: usize> {
    pub name: Label<LLEN>,
    pub qtype: QType,
    pub qclass: QClass,
}

/// A question, as a value.
pub struct QueryView {
    pub name: Seq<PartView>,
    pub qtype: QType,
    pub qclass: QClass,
}

impl<const LLEN: usize> View for Query<LLEN> {
    type V = QueryView;

    open spec fn view(&self) -> QueryView {
        QueryView { name: self.name@, qtype: self.qtype, qclass: self.qclass }
    }
}

/// A resource record of the answer section.
#[derive(Debug)]
pub struct Answer<const LLEN: usize> {
    pub name: Label<LLEN>,
    pub atype: QType,
    pub aclass: QClass,
    pub ttl: u32,
    pub record: Record<LLEN>,
}

/// A resource record, as a value.
pub struct AnswerView {
    pub name: Seq<PartView>,
    pub atype: QType,
    pub aclass: QClass,
    pub ttl: u32,
    pub record: RecordView,
}

impl<const LLEN: usize> View for Answer<LLEN> {
    type V = AnswerView;

    open spec fn view(&self) -> AnswerView {
        AnswerView {
            name: self.name@,
            atype: self.atype,
            aclass: self.aclass,
            ttl: self.ttl,
            record: self.record@,
        }
    }
}

/// The wire form of a question written at `pos` with the memo `m`.
pub open spec fn enc_query(q: QueryView, m: Memo, pos: int, lk: nat) -> (Seq<u8>, Memo) {
    let (le, m1) = enc_label(q.name, m, pos, lk);
    (le + be16(qtype_value(q.qtype)) + be16(qclass_value(q.qclass)), m1)
}

/// The wire form of a resource record written at `pos` with the memo `m`.
pub open spec fn enc_answer(a: AnswerView, m: Memo, pos: int, lk: nat) -> (Seq<u8>, Memo) {
    let (le, m1) = enc_label(a.name, m, pos, lk);
    let (re, m2) = enc_record(a.record, m1, pos + le.len() + 8, lk);
    (le + be16(qtype_value(a.atype)) + be16(qclass_value(a.aclass)) + be32(a.ttl) + re, m2)
}

/// What reading a question at `pos` of `ctx` gives, with the offset after it.
pub open spec fn query_from(ctx: Seq<u8>, pos: int, llen: nat) -> Result<(QueryView, int), ParseError> {
    match parse_name(ctx, pos, llen) {
        Ok((name, p)) => if p + 4 > ctx.len() {
            Err(ParseError::Incomplete)
        } else {
            Ok((
                QueryView {
                    name,
                    qtype: qtype_of(be_at(ctx, p, 2) as u16),
                    qclass: qclass_of(be_at(ctx, p + 2, 2) as u16),
                },
                p + 4,
            ))
        },
        Err(e) => Err(e),
    }
}

/// What reading a resource record at `pos` of `ctx` gives, with the offset
/// after it.
pub open spec fn answer_from(ctx: Seq<u8>, pos: int, llen: nat) -> Result<(AnswerView, int), ParseError> {
    match parse_name(ctx, pos, llen) {
        Ok((name, p)) => if p + 8 > ctx.len() {
            Err(ParseError::Incomplete)
        } else {
            let atype = qtype_of(be_at(ctx, p, 2) as u16);
            match record_from(ctx, p + 8, atype, llen) {
                Ok((record, end)) => Ok((
                    AnswerView {
                        name,
                        atype,
                        aclass: qclass_of(be_at(ctx, p + 2, 2) as u16),
                        ttl: be_at(ctx, p + 4, 4) as u32,
                        record,
                    },
                    end,
                )),
                Err(e) => Err(e),
            }
        },
        Err(e) => Err(e),
    }
}

impl<const LLEN: usize> Query<LLEN> {
    /// Reads a question at `pos` of the packet `ctx`.
    pub fn parse(ctx: &[u8], pos: usize) -> (r: Result<(Self, usize), ParseError>)
        ensures
            match query_from(ctx@, pos as int, LLEN as nat) {
                Ok((q, end)) => r matches Ok((x, e)) && x@ == q && e == end,
                Err(err) => r == Err::<(Self, usize), ParseError>(err),
            },
            r is Ok ==> r->Ok_0.1 <= ctx@.len(),
    {
        let (name, p) = match Label::parse(ctx, pos) {
            Ok(v) => v,
            Err(e) => return Err(e),
        };
        if p > ctx.len() || ctx.len() - p < 4 {
            return Err(ParseError::Incomplete);
        }
        let t = match read_u16(ctx, p) {
            Ok(v) => v,
            Err(e) => return Err(e),
        };
        let c = match read_u16(ctx, p + 2) {
            Ok(v) => v,
            Err(e) => return Err(e),
        };
        Ok((Query { name, qtype: QType::from_u16(t), qclass: QClass::from_u16(c) }, p + 4))
    }

    /// Writes the question.
    pub fn serialize<const LK: usize>(&self, w: &mut Writer<LK>)
        requires
            old(w).wf(),
        ensures
            Writer::<LK>::emits(
                *old(w),
                *final(w),
                enc_query(self@, old(w).memo(), old(w).pos(), LK as nat).0,
                enc_query(self@, old(w).memo(), old(w).pos(), LK as nat).1,
            ),
    {
        let ghost w0 = *w;
        let ghost le = enc_label(self.name@, w0.memo(), w0.pos(), LK as nat);
        self.name.serialize(w);
        let ghost w1 = *w;
        w.write_u16(self.qtype.to_u16());
        let ghost w2 = *w;
        w.write_u16(self.qclass.to_u16());
        proof {
            let bt = be16(qtype_value(self.qtype));
            let bc = be16(qclass_value(self.qclass));
            lemma_emits_step(w0, w1, w2, le.0, le.1, bt, w1.memo(), bt, le.1);
            lemma_emits_step(w0, w2, *w, le.0 + bt, le.1, bc, w2.memo(), bc, le.1);
        }
    }
}

impl<const LLEN: usize> Answer<LLEN> {
    /// Reads a resource record at `pos` of the packet `ctx`.
    pub fn parse(ctx: &[u8], pos: usize) -> (r: Result<(Self, usize), ParseError>)
        ensures
            match answer_from(ctx@, pos as int, LLEN as nat) {
                Ok((a, end)) => r matches Ok((x, e)) && x@ == a && e == end,
                Err(err) => r == Err::<(Self, usize), ParseError>(err),
            },
            r is Ok ==> r->Ok_0.1 <= ctx@.len(),
    {
        let (name, p) = match Label::parse(ctx, pos) {
            Ok(v) => v,
            Err(e) => return Err(e),
        };
        if p > ctx.len() || ctx.len() - p < 8 {
            return Err(ParseError::Incomplete);
        }
        let t = match read_u16(ctx, p) {
            Ok(v) => v,
            Err(e) => return Err(e),
        };
        let c = match read_u16(ctx, p + 2) {
            Ok(v) => v,
            Err(e) => return Err(e),
        };
        let ttl = match read_u32(ctx, p + 4) {
            Ok(v) => v,
            Err(e) => return Err(e),
        };
        let atype = QType::from_u16(t);
        let (record, end) = match Record::parse(ctx, p + 8, atype) {
            Ok(v) => v,
            Err(e) => return Err(e),
        };
        Ok((Answer { name, atype, aclass: QClass::from_u16(c), ttl, record }, end))
    }

    /// Writes the resource record.
    pub fn serialize<const LK: usize>(&self, w: &mut Writer<LK>)
        requires
            old(w).wf(),
        ensures
            Writer::<LK>::emits(
                *old(w),
                *final(w),
                enc_answer(self@, old(w).memo(), old(w).pos(), LK as nat).0,
                enc_answer(self@, old(w).memo(), old(w).pos(), LK as nat).1,
            ),
    {
        let ghost w0 = *w;
        let ghost le = enc_label(self.name@, w0.memo(), w0.pos(), LK as nat);
        let ghost re = enc_record(self.record@, le.1, w0.pos() + le.0.len() + 8, LK as nat);
        self.name.serialize(w);
        let ghost w1 = *w;
        w.write_u16(self.atype.to_u16());
        let ghost w2 = *w;
        w.write_u16(self.aclass.to_u16());
        let ghost w3 = *w;
        w.write_u32(self.ttl);
        let ghost w4 = *w;
        self.record.serialize(w);
        proof {
            let bt = be16(qtype_value(self.atype));
            let bc = be16(qclass_value(self.aclass));
            let bl = be32(self.ttl);
            crate::wire::lemma_be16(qtype_value(self.atype));
            crate::wire::lemma_be16(qclass_value(self.aclass));
            crate::wire::lemma_be32(self.ttl);
            lemma_emits_step(w0, w1, w2, le.0, le.1, bt, w1.memo(), bt, le.1);
            lemma_emits_step(w0, w2, w3, le.0 + bt, le.1, bc, w2.memo(), bc, le.1);
            lemma_emits_step(w0, w3, w4, le.0 + bt + bc, le.1, bl, w3.memo(), bl, le.1);
            lemma_emits_step(w0, w4, *w, le.0 + bt + bc + bl, le.1,
                enc_record(self.record@, w4.memo(), w4.pos(), LK as nat).0,
                enc_record(self.record@, w4.memo(), w4.pos(), LK as nat).1, re.0, re.1);
        }
    }
}

/// Whether two questions are the same; names compare by their segments.
pub open spec fn same_query(a: QueryView, b: QueryView) -> bool {
    &&& crate::label::name_segments(a.name) == crate::label::name_segments(b.name)
    &&& a.qtype == b.qtype
    &&& a.qclass == b.qclass
}

/// Whether two resource records are the same; names compare by their segments.
pub open spec fn same_answer(a: AnswerView, b: AnswerView) -> bool {
    &&& crate::label::name_segments(a.name) == crate::label::name_segments(b.name)
    &&& a.atype == b.atype
    &&& a.aclass == b.aclass
    &&& a.ttl == b.ttl
    &&& crate::records::same_record(a.record, b.record)
}

impl<const LLEN: usize> Query<LLEN> {
    /// Whether two questions are the same.
    pub fn same_as(&self, other: &Self) -> (r: bool)
        ensures
            r == same_query(self@, other@),
    {
        self.name.same_as(&other.name) && self.qtype == other.qtype && self.qclass == other.qclass
    }
}

impl<const LLEN: usize> Answer<LLEN> {
    /// Whether two resource records are the same.
    pub fn same_as(&self, other: &Self) -> (r: bool)
        ensures
            r == same_answer(self@, other@),
    {
        self.name.same_as(&other.name) && self.atype == other.atype && self.aclass == other.aclass
            && self.ttl == other.ttl && self.record.same_as(&other.record)
    }
}

impl<const LLEN: usize> PartialEq for Query<LLEN> {
    fn eq(&self, other: &Self) -> (r: bool) {
        self.same_as(other)
    }
}

impl<const LLEN: usize> vstd::std_specs::cmp::PartialEqSpecImpl for Query<LLEN> {
    open spec fn obeys_eq_spec() -> bool {
        true
    }

    open spec fn eq_spec(&self, other: &Self) -> bool {
        same_query(self@, other@)
    }
}

impl<const LLEN: usize> PartialEq for Answer<LLEN> {
    fn eq(&self, other: &Self) -> (r: bool) {
        self.same_as(other)
    }
}

impl<const LLEN: usize> vstd::std_specs::cmp::PartialEqSpecImpl for Answer<LLEN> {
    open spec fn obeys_eq_spec() -> bool {
        true
    }

    open spec fn eq_spec(&self, other: &Self) -> bool {
        same_answer(self@, other@)
    }
}

} // verus!

use vstd::prelude::*;

use crate::flags::Flags;
use crate::label::{lemma_emits_join, lemma_emits_longer};
use crate::query::{answer_from, enc_answer, enc_query, query_from, Answer, AnswerView, Query, QueryView};
use crate::records::{be_at, lemma_emits_step};
use crate::wire::{be16, read_u16, ParseError};
use crate::writer::{Memo, Writer};

verus! {

/// A query message: QR clear.
#[derive(Debug)]
pub struct Request<const QLEN: usize, const LLEN: usize> {
    pub id: u16,
    pub flags: Flags,
    pub queries: Vec<Query<LLEN>>,
}

/// A response message: QR set.
#[derive(Debug)]
pub struct Response<const QLEN: usize, const ALEN: usize, const LLEN: usize> {
    pub id: u16,
    pub flags: Flags,
    pub queries: Vec<Query<LLEN>>,
    pub answers: Vec<Answer<LLEN>>,
}

/// A message of either kind.
#[derive(Debug)]
pub enum Message<const QLEN: usize, const ALEN: usize, const LLEN: usize> {
    Request(Request<QLEN, LLEN>),
    Response(Response<QLEN, ALEN, LLEN>),
}

/// A query message, as a value.
pub struct RequestView {
    pub id: u16,
    pub flags: u16,
    pub queries: Seq<QueryView>,
}

/// A response message, as a value.
pub struct ResponseView {
    pub id: u16,
    pub flags: u16,
    pub queries: Seq<QueryView>,
    pub answers: Seq<AnswerView>,
}

/// A message, as a value.
pub enum MessageView {
    Request(RequestView),
    Response(ResponseView),
}

/// The values of the questions in `v`.
pub open spec fn query_views<const LLEN: usize>(v: Seq<Query<LLEN>>) -> Seq<QueryView> {
    v.map_values(|q: Query<LLEN>| q@)
}

/// The values of the resource records in `v`.
pub open spec fn answer_views<const LLEN: usize>(v: Seq<Answer<LLEN>>) -> Seq<AnswerView> {
    v.map_values(|a: Answer<LLEN>| a@)
}

impl<const QLEN: usize, const LLEN: usize> View for Request<QLEN, LLEN> {
    type V = RequestView;

    open spec fn view(&self) -> RequestView {
        RequestView { id: self.id, flags: self.flags.0, queries: query_views(self.queries@) }
    }
}

impl<const QLEN: usize, const ALEN: usize, const LLEN: usize> View for Response<QLEN, ALEN, LLEN> {
    type V = ResponseView;

    open spec fn view(&self) -> ResponseView {
        ResponseView {
            id: self.id,
            flags: self.flags.0,
            queries: query_views(self.queries@),
            answers: answer_views(self.answers@),
        }
    }
}

impl<const QLEN: usize, const ALEN: usize, const LLEN: usize> View for Message<QLEN, ALEN, LLEN> {
    type V = MessageView;

    open spec fn view(&self) -> MessageView {
        match self {
            Message::Request(r) => MessageView::Request(r@),
            Message::Response(r) => MessageView::Response(r@),
        }
    }
}

/// The wire form of the questions from `i` on, written at `pos` with the memo `m`.
pub open spec fn enc_queries_from(qs: Seq<QueryView>, i: int, m: Memo, pos: int, lk: nat) -> (Seq<u8>, Memo)
    decreases qs.len() - i,
{
    if i < 0 || i >= qs.len() {
        (Seq::empty(), m)
    } else {
        let (e1, m1) = enc_query(qs[i], m, pos, lk);
        let (e2, m2) = enc_queries_from(qs, i + 1, m1, pos + e1.len(), lk);
        (e1 + e2, m2)
    }
}

/// The wire form of the resource records from `i` on, written at `pos` with the memo `m`.
pub open spec fn enc_answers_from(xs: Seq<AnswerView>, i: int, m: Memo, pos: int, lk: nat) -> (Seq<u8>, Memo)
    decreases xs.len() - i,
{
    if i < 0 || i >= xs.len() {
        (Seq::empty(), m)
    } else {
        let (e1, m1) = enc_answer(xs[i], m, pos, lk);
        let (e2, m2) = enc_answers_from(xs, i + 1, m1, pos + e1.len(), lk);
        (e1 + e2, m2)
    }
}

/// The twelve header bytes.
pub open spec fn enc_header(id: u16, flags: u16, qd: nat, an: nat) -> Seq<u8> {
    be16(id) + be16(flags) + be16((qd % 0x10000) as u16) + be16((an % 0x10000) as u16) + be16(0)
        + be16(0)
}

/// The wire form of a query message written at `pos` with the memo `m`;
/// the answer, authority and additional counts are zero.
pub open spec fn enc_request(r: RequestView, m: Memo, pos: int, lk: nat) -> (Seq<u8>, Memo) {
    let (qe, m1) = enc_queries_from(r.queries, 0, m, pos + 12, lk);
    (enc_header(r.id, r.flags, r.queries.len(), 0) + qe, m1)
}

/// The wire form of a response message written at `pos` with the memo `m`;
/// the authority and additional counts are zero.
pub open spec fn enc_response(r: ResponseView, m: Memo, pos: int, lk: nat) -> (Seq<u8>, Memo) {
    let (qe, m1) = enc_queries_from(r.queries, 0, m, pos + 12, lk);
    let (ae, m2) = enc_answers_from(r.answers, 0, m1, pos + 12 + qe.len(), lk);
    (enc_header(r.id, r.flags, r.queries.len(), r.answers.len()) + qe + ae, m2)
}

/// The wire form of a message at the start of a packet.
pub open spec fn enc_message(msg: MessageView, lk: nat) -> Seq<u8> {
    match msg {
        MessageView::Request(r) => enc_request(r, Seq::empty(), 0, lk).0,
        MessageView::Response(r) => enc_response(r, Seq::empty(), 0, lk).0,
    }
}

/// What reading `n` more questions at `pos` gives, after `acc`; more than
/// `cap` in all is too many.
pub open spec fn queries_from(ctx: Seq<u8>, pos: int, n: nat, cap: nat, llen: nat, acc: Seq<QueryView>) -> Result<(Seq<QueryView>, int), ParseError>
    decreases n,
{
    if n == 0 {
        Ok((acc, pos))
    } else {
        match query_from(ctx, pos, llen) {
            Ok((q, p)) => if acc.len() >= cap {
                Err(ParseError::TooLarge)
            } else {
                queries_from(ctx, p, (n - 1) as nat, cap, llen, acc.push(q))
            },
            Err(e) => Err(e),
        }
    }
}

/// What reading `n` more resource records at `pos` gives, after `acc`; more
/// than `cap` in all is too many.
pub open spec fn answers_from(ctx: Seq<u8>, pos: int, n: nat, cap: nat, llen: nat, acc: Seq<AnswerView>) -> Result<(Seq<AnswerView>, int), ParseError>
    decreases n,
{
    if n == 0 {
        Ok((acc, pos))
    } else {
        match answer_from(ctx, pos, llen) {
            Ok((a, p)) => if acc.len() >= cap {
                Err(ParseError::TooLarge)
            } else {
                answers_from(ctx, p, (n - 1) as nat, cap, llen, acc.push(a))
            },
            Err(e) => Err(e),
        }
    }
}

/// What reading a query message from the packet `ctx` gives: the header,
/// then as many questions as it counts. The other sections are not read.
pub open spec fn request_from(ctx: Seq<u8>, qlen: nat, llen: nat) -> Result<(RequestView, int), ParseError> {
    if ctx.len() < 12 {
        Err(ParseError::Incomplete)
    } else {
        match queries_from(ctx, 12, be_at(ctx, 4, 2), qlen, llen, Seq::empty()) {
            Ok((qs, end)) => Ok((
                RequestView { id: be_at(ctx, 0, 2) as u16, flags: be_at(ctx, 2, 2) as u16, queries: qs },
                end,
            )),
            Err(e) => Err(e),
        }
    }
}

/// What reading a response message from the packet `ctx` gives: the header,
/// the questions and the answers that it counts. The authority and
/// additional sections are not read.
pub open spec fn response_from(ctx: Seq<u8>, qlen: nat, alen: nat, llen: nat) -> Result<(ResponseView, int), ParseError> {
    if ctx.len() < 12 {
        Err(ParseError::Incomplete)
    } else {
        match queries_from(ctx, 12, be_at(ctx, 4, 2), qlen, llen, Seq::empty()) {
            Ok((qs, p)) => match answers_from(ctx, p, be_at(ctx, 6, 2), alen, llen, Seq::empty()) {
                Ok((xs, end)) => Ok((
                    ResponseView {
                        id: be_at(ctx, 0, 2) as u16,
                        flags: be_at(ctx, 2, 2) as u16,
                        queries: qs,
                        answers: xs,
                    },
                    end,
                )),
                Err(e) => Err(e),
            },
            Err(e) => Err(e),
        }
    }
}

/// What reading a message from the packet `ctx` gives: under four bytes is
/// an error; else the QR bit of the flags picks the kind.
pub open spec fn message_from(ctx: Seq<u8>, qlen: nat, alen: nat, llen: nat) -> Result<(MessageView, int), ParseError> {
    if ctx.len() < 4 {
        Err(ParseError::LengthValue)
    } else if (be_at(ctx, 2, 2) as u16) & 0x8000 == 0 {
        match request_from(ctx, qlen, llen) {
            Ok((r, end)) => Ok((MessageView::Request(r), end)),
            Err(e) => Err(e),
        }
    } else {
        match response_from(ctx, qlen, alen, llen) {
            Ok((r, end)) => Ok((MessageView::Response(r), end)),
            Err(e) => Err(e),
        }
    }
}

/// Reads `n` questions at `pos` onto `out`.
fn parse_queries<const LLEN: usize>(ctx: &[u8], pos: usize, n: u16, cap: usize, out: &mut Vec<Query<LLEN>>) -> (r: Result<usize, ParseError>)
    requires
        pos <= ctx@.len(),
    ensures
        match queries_from(ctx@, pos as int, n as nat, cap as nat, LLEN as nat, query_views(old(out)@)) {
            Ok((qs, end)) => r matches Ok(e) && e == end && query_views(final(out)@) == qs,
            Err(err) => r == Err::<usize, ParseError>(err),
        },
        r is Ok ==> r->Ok_0 <= ctx@.len(),
{
    let ghost goal = queries_from(ctx@, pos as int, n as nat, cap as nat, LLEN as nat, query_views(out@));
    let mut p = pos;
    let mut k: u16 = n;
    while k > 0
        invariant
            goal == queries_from(ctx@, pos as int, n as nat, cap as nat, LLEN as nat, query_views(old(out)@)),
            goal == queries_from(ctx@, p as int, k as nat, cap as nat, LLEN as nat, query_views(out@)),
            p <= ctx@.len(),
        decreases k,
    {
        let (q, np) = match Query::parse(ctx, p) {
            Ok(v) => v,
            Err(e) => return Err(e),
        };
        if out.len() >= cap {
            return Err(ParseError::TooLarge);
        }
        let ghost before = query_views(out@);
        out.push(q);
        assert(query_views(out@) =~= before.push(q@));
        p = np;
        k = k - 1;
    }
    Ok(p)
}

/// Reads `n` resource records at `pos` onto `out`.
fn parse_answers<const LLEN: usize>(ctx: &[u8], pos: usize, n: u16, cap: usize, out: &mut Vec<Answer<LLEN>>) -> (r: Result<usize, ParseError>)
    requires
        pos <= ctx@.len(),
    ensures
        match answers_from(ctx@, pos as int, n as nat, cap as nat, LLEN as nat, answer_views(old(out)@)) {
            Ok((xs, end)) => r matches Ok(e) && e == end && answer_views(final(out)@) == xs,
            Err(err) => r == Err::<usize, ParseError>(err),
        },
        r is Ok ==> r->Ok_0 <= ctx@.len(),
{
    let ghost goal = answers_from(ctx@, pos as int, n as nat, cap as nat, LLEN as nat, answer_views(out@));
    let mut p = pos;
    let mut k: u16 = n;
    while k > 0
        invariant
            goal == answers_from(ctx@, pos as int, n as nat, cap as nat, LLEN as nat, answer_views(old(out)@)),
            goal == answers_from(ctx@, p as int, k as nat, cap as nat, LLEN as nat, answer_views(out@)),
            p <= ctx@.len(),
        decreases k,
    {
        let (a, np) = match Answer::parse(ctx, p) {
            Ok(v) => v,
            Err(e) => return Err(e),
        };
        if out.len() >= cap {
            return Err(ParseError::TooLarge);
        }
        let ghost before = answer_views(out@);
        out.push(a);
        assert(answer_views(out@) =~= before.push(a@));
        p = np;
        k = k - 1;
    }
    Ok(p)
}

/// The header fields at the start of `ctx`: id, flags, question count and
/// answer count.
fn read_header(ctx: &[u8]) -> (r: Result<(u16, u16, u16, u16), ParseError>)
    ensures
        ctx@.len() < 12 ==> r == Err::<(u16, u16, u16, u16), ParseError>(ParseError::Incomplete),
        ctx@.len() >= 12 ==> r == Ok::<(u16, u16, u16, u16), ParseError>((
            be_at(ctx@, 0, 2) as u16,
            be_at(ctx@, 2, 2) as u16,
            be_at(ctx@, 4, 2) as u16,
            be_at(ctx@, 6, 2) as u16,
        )),
        ctx@.len() >= 12 ==> be_at(ctx@, 4, 2) < 0x10000 && be_at(ctx@, 6, 2) < 0x10000,
{
    if ctx.len() < 12 {
        return Err(ParseError::Incomplete);
    }
    let id = match read_u16(ctx, 0) {
        Ok(v) => v,
        Err(e) => return Err(e),
    };
    let flags = match read_u16(ctx, 2) {
        Ok(v) => v,
        Err(e) => return Err(e),
    };
    let qd = match read_u16(ctx, 4) {
        Ok(v) => v,
        Err(e) => return Err(e),
    };
    let an = match read_u16(ctx, 6) {
        Ok(v) => v,
        Err(e) => return Err(e),
    };
    Ok((id, flags, qd, an))
}

impl<const QLEN: usize, const LLEN: usize> Request<QLEN, LLEN> {
    /// Reads a query message from the packet `input`; at most `QLEN` questions.
    pub fn parse(input: &[u8]) -> (r: Result<(Self, usize), ParseError>)
        ensures
            match request_from(input@, QLEN as nat, LLEN as nat) {
                Ok((rv, end)) => r matches Ok((x, e)) && x@ == rv && e == end,
                Err(err) => r == Err::<(Self, usize), ParseError>(err),
            },
            r is Ok ==> r->Ok_0.1 <= input@.len(),
    {
        let (id, flags, qd, _an) = match read_header(input) {
            Ok(v) => v,
            Err(e) => return Err(e),
        };
        let mut queries: Vec<Query<LLEN>> = Vec::new();
        assert(query_views(queries@) =~= Seq::<QueryView>::empty());
        let end = match parse_queries(input, 12, qd, QLEN, &mut queries) {
            Ok(p) => p,
            Err(e) => return Err(e),
        };
        Ok((Request { id, flags: Flags(flags), queries }, end))
    }
}

impl<const QLEN: usize, const ALEN: usize, const LLEN: usize> Response<QLEN, ALEN, LLEN> {
    /// Reads a response message from the packet `input`; at most `QLEN`
    /// questions and `ALEN` answers.
    pub fn parse(input: &[u8]) -> (r: Result<(Self, usize), ParseError>)
        ensures
            match response_from(input@, QLEN as nat, ALEN as nat, LLEN as nat) {
                Ok((rv, end)) => r matches Ok((x, e)) && x@ == rv && e == end,
                Err(err) => r == Err::<(Self, usize), ParseError>(err),
            },
            r is Ok ==> r->Ok_0.1 <= input@.len(),
    {
        let (id, flags, qd, an) = match read_header(input) {
            Ok(v) => v,
            Err(e) => return Err(e),
        };
        let mut queries: Vec<Query<LLEN>> = Vec::new();
        assert(query_views(queries@) =~= Seq::<QueryView>::empty());
        let p = match parse_queries(input, 12, qd, QLEN, &mut queries) {
            Ok(p) => p,
            Err(e) => return Err(e),
        };
        let mut answers: Vec<Answer<LLEN>> = Vec::new();
        assert(answer_views(answers@) =~= Seq::<AnswerView>::empty());
        let end = match parse_answers(input, p, an, ALEN, &mut answers) {
            Ok(p) => p,
            Err(e) => return Err(e),
        };
        Ok((Response { id, flags: Flags(flags), queries, answers }, end))
    }
}

impl<const QLEN: usize, const ALEN: usize, const LLEN: usize> Message<QLEN, ALEN, LLEN> {
    /// Reads a message from the packet `input`, as a query or a response by
    /// its QR bit.
    pub fn parse(input: &[u8]) -> (r: Result<(Self, usize), ParseError>)
        ensures
            match message_from(input@, QLEN as nat, ALEN as nat, LLEN as nat) {
                Ok((mv, end)) => r matches Ok((x, e)) && x@ == mv && e == end,
                Err(err) => r == Err::<(Self, usize), ParseError>(err),
            },
            r is Ok ==> r->Ok_0.1 <= input@.len(),
    {
        if input.len() < 4 {
            return Err(ParseError::LengthValue);
        }
        let flags = match read_u16(input, 2) {
            Ok(v) => v,
            Err(e) => return Err(e),
        };
        if Flags(flags).is_query() {
            match Request::parse(input) {
                Ok((r, end)) => Ok((Message::Request(r), end)),
                Err(e) => Err(e),
            }
        } else {
            match Response::parse(input) {
                Ok((r, end)) => Ok((Message::Response(r), end)),
                Err(e) => Err(e),
            }
        }
    }
}

/// Writes the questions in order.
pub fn serialize_queries<const LLEN: usize, const LK: usize>(xs: &Vec<Query<LLEN>>, w: &mut Writer<LK>)
    requires
        old(w).wf(),
    ensures
        Writer::<LK>::emits(
            *old(w),
            *final(w),
            enc_queries_from(query_views(xs@), 0, old(w).memo(), old(w).pos(), LK as nat).0,
            enc_queries_from(query_views(xs@), 0, old(w).memo(), old(w).pos(), LK as nat).1,
        ),
{
    let ghost w0 = *w;
    let ghost xv = query_views(xs@);
    let ghost full = enc_queries_from(xv, 0, w0.memo(), w0.pos(), LK as nat);
    if w.overflow {
        return;
    }
    let n = xs.len();
    let mut i: usize = 0;
    let ghost mut produced: Seq<u8> = Seq::empty();
    assert(w0.bytes@ + produced =~= w0.bytes@);
    assert(produced + full.0 =~= full.0);
    while i < n
        invariant
            n == xs@.len(),
            xv == query_views(xs@),
            i <= n,
            !w.overflow,
            w0 == *old(w),
            Writer::<LK>::emits(w0, *w, produced, w.memo()),
            full == enc_queries_from(xv, 0, w0.memo(), w0.pos(), LK as nat),
            full.0 == produced + enc_queries_from(xv, i as int, w.memo(), w.pos(), LK as nat).0,
            full.1 == enc_queries_from(xv, i as int, w.memo(), w.pos(), LK as nat).1,
        decreases n - i,
    {
        let ghost w1 = *w;
        let ghost ep = enc_query(xv[i as int], w1.memo(), w1.pos(), LK as nat);
        xs[i].serialize(w);
        proof {
            lemma_emits_join(w0, w1, *w, produced, w1.memo(), ep.0, ep.1);
            produced = produced + ep.0;
        }
        if w.overflow {
            proof {
                lemma_emits_longer(w0, *w, produced, ep.1, full.0, full.1);
            }
            return;
        }
        i = i + 1;
    }
    assert(produced + Seq::<u8>::empty() =~= produced);
}

/// Writes the resource records in order.
pub fn serialize_answers<const LLEN: usize, const LK: usize>(xs: &Vec<Answer<LLEN>>, w: &mut Writer<LK>)
    requires
        old(w).wf(),
    ensures
        Writer::<LK>::emits(
            *old(w),
            *final(w),
            enc_answers_from(answer_views(xs@), 0, old(w).memo(), old(w).pos(), LK as nat).0,
            enc_answers_from(answer_views(xs@), 0, old(w).memo(), old(w).pos(), LK as nat).1,
        ),
{
    let ghost w0 = *w;
    let ghost xv = answer_views(xs@);
    let ghost full = enc_answers_from(xv, 0, w0.memo(), w0.pos(), LK as nat);
    if w.overflow {
        return;
    }
    let n = xs.len();
    let mut i: usize = 0;
    let ghost mut produced: Seq<u8> = Seq::empty();
    assert(w0.bytes@ + produced =~= w0.bytes@);
    assert(produced + full.0 =~= full.0);
    while i < n
        invariant
            n == xs@.len(),
            xv == answer_views(xs@),
            i <= n,
            !w.overflow,
            w0 == *old(w),
            Writer::<LK>::emits(w0, *w, produced, w.memo()),
            full == enc_answers_from(xv, 0, w0.memo(), w0.pos(), LK as nat),
            full.0 == produced + enc_answers_from(xv, i as int, w.memo(), w.pos(), LK as nat).0,
            full.1 == enc_answers_from(xv, i as int, w.memo(), w.pos(), LK as nat).1,
        decreases n - i,
    {
        let ghost w1 = *w;
        let ghost ep = enc_answer(xv[i as int], w1.memo(), w1.pos(), LK as nat);
        xs[i].serialize(w);
        proof {
            lemma_emits_join(w0, w1, *w, produced, w1.memo(), ep.0, ep.1);
            produced = produced + ep.0;
        }
        if w.overflow {
            proof {
                lemma_emits_longer(w0, *w, produced, ep.1, full.0, full.1);
            }
            return;
        }
        i = i + 1;
    }
    assert(produced + Seq::<u8>::empty() =~= produced);
}

/// Writes the header fields.
fn serialize_header<const LK: usize>(w: &mut Writer<LK>, id: u16, flags: u16, qd: usize, an: usize)
    requires
        old(w).wf(),
    ensures
        Writer::<LK>::emits(*old(w), *final(w), enc_header(id, flags, qd as nat, an as nat), old(w).memo()),
{
    let ghost w0 = *w;
    let ghost m = w0.memo();
    w.write_u16(id);
    let ghost w1 = *w;
    w.write_u16(flags);
    let ghost w2 = *w;
    w.write_u16((qd % 0x10000) as u16);
    let ghost w3 = *w;
    w.write_u16((an % 0x10000) as u16);
    let ghost w4 = *w;
    w.write_u16(0);
    let ghost w5 = *w;
    w.write_u16(0);
    proof {
        let b1 = be16(id);
        let b2 = be16(flags);
        let b3 = be16((qd % 0x10000) as u16);
        let b4 = be16((an % 0x10000) as u16);
        let b0 = be16(0);
        lemma_emits_step(w0, w1, w2, b1, m, b2, w1.memo(), b2, m);
        lemma_emits_step(w0, w2, w3, b1 + b2, m, b3, w2.memo(), b3, m);
        lemma_emits_step(w0, w3, w4, b1 + b2 + b3, m, b4, w3.memo(), b4, m);
        lemma_emits_step(w0, w4, w5, b1 + b2 + b3 + b4, m, b0, w4.memo(), b0, m);
        lemma_emits_step(w0, w5, *w, b1 + b2 + b3 + b4 + b0, m, b0, w5.memo(), b0, m);
    }
}

impl<const QLEN: usize, const LLEN: usize> Request<QLEN, LLEN> {
    /// Writes the query message: the header with a zero answer count, then
    /// the questions.
    pub fn serialize<const LK: usize>(&self, w: &mut Writer<LK>)
        requires
            old(w).wf(),
        ensures
            Writer::<LK>::emits(
                *old(w),
                *final(w),
                enc_request(self@, old(w).memo(), old(w).pos(), LK as nat).0,
                enc_request(self@, old(w).memo(), old(w).pos(), LK as nat).1,
            ),
    {
        let ghost w0 = *w;
        let ghost hd = enc_header(self.id, self.flags.0, self.queries@.len(), 0);
        let ghost qe = enc_queries_from(self@.queries, 0, w0.memo(), w0.pos() + 12, LK as nat);
        serialize_header(w, self.id, self.flags.0, self.queries.len(), 0);
        let ghost w1 = *w;
        proof {
            crate::wire::lemma_be16(0);
            crate::wire::lemma_be16(self.id);
            crate::wire::lemma_be16(self.flags.0);
            crate::wire::lemma_be16((self.queries@.len() % 0x10000) as u16);
        }
        serialize_queries(&self.queries, w);
        proof {
            lemma_emits_step(w0, w1, *w, hd, w0.memo(),
                enc_queries_from(self@.queries, 0, w1.memo(), w1.pos(), LK as nat).0,
                enc_queries_from(self@.queries, 0, w1.memo(), w1.pos(), LK as nat).1, qe.0, qe.1);
        }
    }
}

impl<const QLEN: usize, const ALEN: usize, const LLEN: usize> Response<QLEN, ALEN, LLEN> {
    /// Writes the response message: the header, the questions, the answers.
    pub fn serialize<const LK: usize>(&self, w: &mut Writer<LK>)
        requires
            old(w).wf(),
        ensures
            Writer::<LK>::emits(
                *old(w),
                *final(w),
                enc_response(self@, old(w).memo(), old(w).pos(), LK as nat).0,
                enc_response(self@, old(w).memo(), old(w).pos(), LK as nat).1,
            ),
    {
        let ghost w0 = *w;
        let ghost hd = enc_header(self.id, self.flags.0, self.queries@.len(), self.answers@.len());
        let ghost qe = enc_queries_from(self@.queries, 0, w0.memo(), w0.pos() + 12, LK as nat);
        let ghost ae = enc_answers_from(self@.answers, 0, qe.1, w0.pos() + 12 + qe.0.len(), LK as nat);
        serialize_header(w, self.id, self.flags.0, self.queries.len(), self.answers.len());
        let ghost w1 = *w;
        proof {
            crate::wire::lemma_be16(0);
            crate::wire::lemma_be16(self.id);
            crate::wire::lemma_be16(self.flags.0);
            crate::wire::lemma_be16((self.queries@.len() % 0x10000) as u16);
            crate::wire::lemma_be16((self.answers@.len() % 0x10000) as u16);
        }
        serialize_queries(&self.queries, w);
        let ghost w2 = *w;
        proof {
            lemma_emits_step(w0, w1, w2, hd, w0.memo(),
                enc_queries_from(self@.queries, 0, w1.memo(), w1.pos(), LK as nat).0,
                enc_queries_from(self@.queries, 0, w1.memo(), w1.pos(), LK as nat).1, qe.0, qe.1);
        }
        serialize_answers(&self.answers, w);
        proof {
            lemma_emits_step(w0, w2, *w, hd + qe.0, qe.1,
                enc_answers_from(self@.answers, 0, w2.memo(), w2.pos(), LK as nat).0,
                enc_answers_from(self@.answers, 0, w2.memo(), w2.pos(), LK as nat).1, ae.0, ae.1);
        }
    }
}

/// Copies what `w` holds to the front of `output`.
pub fn copy_out<const LK: usize>(w: &Writer<LK>, output: &mut [u8]) -> (n: usize)
    requires
        w.wf(),
        w.cap == old(output)@.len(),
    ensures
        n == w.bytes@.len(),
        final(output)@.len() == old(output)@.len(),
        final(output)@ == w.bytes@ + old(output)@.subrange(n as int, old(output)@.len() as int),
{
    let n = w.bytes.len();
    let mut i: usize = 0;
    while i < n
        invariant
            n == w.bytes@.len(),
            n <= output@.len(),
            i <= n,
            output@.len() == old(output)@.len(),
            forall|j: int| 0 <= j < i ==> output@[j] == w.bytes@[j],
            forall|j: int| i <= j < output@.len() ==> output@[j] == old(output)@[j],
        decreases n - i,
    {
        output[i] = w.bytes[i];
        i = i + 1;
    }
    assert(output@ =~= w.bytes@ + old(output)@.subrange(n as int, old(output)@.len() as int));
    n
}

impl<const QLEN: usize, const ALEN: usize, const LLEN: usize> Message<QLEN, ALEN, LLEN> {
    /// Writes the message to the front of `output` and returns how many bytes
    /// it took. When it does not fit, a start of it is written, and the count
    /// says how long that start is; the rest of `output` keeps its bytes.
    pub fn serialize<const LK: usize>(&self, output: &mut [u8]) -> (n: usize)
        ensures
            final(output)@.len() == old(output)@.len(),
            n <= old(output)@.len(),
            enc_message(self@, LK as nat).len() <= old(output)@.len() ==> n == enc_message(self@, LK as nat).len()
                && final(output)@ == enc_message(self@, LK as nat) + old(output)@.subrange(n as int, old(output)@.len() as int),
            enc_message(self@, LK as nat).len() > old(output)@.len() ==> n < enc_message(self@, LK as nat).len(),
            n <= enc_message(self@, LK as nat).len(),
            final(output)@.subrange(0, n as int) == enc_message(self@, LK as nat).subrange(0, n as int),
            final(output)@.subrange(n as int, old(output)@.len() as int) == old(output)@.subrange(n as int, old(output)@.len() as int),
    {
        let mut w: Writer<LK> = Writer::new(output.len());
        let ghost w0 = w;
        match self {
            Message::Request(r) => r.serialize(&mut w),
            Message::Response(r) => r.serialize(&mut w),
        }
        proof {
            assert(w0.bytes@ + enc_message(self@, LK as nat) =~= enc_message(self@, LK as nat));
        }
        let n = copy_out(&w, output);
        assert(output@.subrange(0, n as int) =~= w.bytes@);
        assert(output@.subrange(n as int, old(output)@.len() as int) =~= old(output)@.subrange(n as int, old(output)@.len() as int));
        n
    }
}

/// Whether two lists of questions are the same, item by item.
pub open spec fn same_queries(a: Seq<QueryView>, b: Seq<QueryView>) -> bool {
    a.len() == b.len() && forall|i: int| 0 <= i < a.len() ==> crate::query::same_query(#[trigger] a[i], b[i])
}

/// Whether two lists of resource records are the same, item by item.
pub open spec fn same_answers(a: Seq<AnswerView>, b: Seq<AnswerView>) -> bool {
    a.len() == b.len() && forall|i: int| 0 <= i < a.len() ==> crate::query::same_answer(#[trigger] a[i], b[i])
}

/// Whether two query messages are the same.
pub open spec fn same_request(a: RequestView, b: RequestView) -> bool {
    a.id == b.id && a.flags == b.flags && same_queries(a.queries, b.queries)
}

/// Whether two response messages are the same.
pub open spec fn same_response(a: ResponseView, b: ResponseView) -> bool {
    a.id == b.id && a.flags == b.flags && same_queries(a.queries, b.queries) && same_answers(a.answers, b.answers)
}

fn queries_same<const LLEN: usize>(a: &Vec<Query<LLEN>>, b: &Vec<Query<LLEN>>) -> (r: bool)
    ensures
        r == same_queries(query_views(a@), query_views(b@)),
{
    if a.len() != b.len() {
        assert(a@.len() != b@.len());
        return false;
    }
    let mut i: usize = 0;
    while i < a.len()
        invariant
            a@.len() == b@.len(),
            i <= a@.len(),
            forall|j: int| 0 <= j < i ==> crate::query::same_query(#[trigger] query_views(a@)[j], query_views(b@)[j]),
        decreases a.len() - i,
    {
        if !a[i].same_as(&b[i]) {
            assert(!crate::query::same_query(query_views(a@)[i as int], query_views(b@)[i as int]));
            return false;
        }
        i = i + 1;
    }
    true
}

fn answers_same<const LLEN: usize>(a: &Vec<Answer<LLEN>>, b: &Vec<Answer<LLEN>>) -> (r: bool)
    ensures
        r == same_answers(answer_views(a@), answer_views(b@)),
{
    if a.len() != b.len() {
        assert(a@.len() != b@.len());
        return false;
    }
    let mut i: usize = 0;
    while i < a.len()
        invariant
            a@.len() == b@.len(),
            i <= a@.len(),
            forall|j: int| 0 <= j < i ==> crate::query::same_answer(#[trigger] answer_views(a@)[j], answer_views(b@)[j]),
        decreases a.len() - i,
    {
        if !a[i].same_as(&b[i]) {
            assert(!crate::query::same_answer(answer_views(a@)[i as int], answer_views(b@)[i as int]));
            return false;
        }
        i = i + 1;
    }
    true
}

impl<const QLEN: usize, const LLEN: usize> PartialEq for Request<QLEN, LLEN> {
    fn eq(&self, other: &Self) -> (r: bool) {
        self.id == other.id && self.flags.0 == other.flags.0 && queries_same(&self.queries, &other.queries)
    }
}

impl<const QLEN: usize, const LLEN: usize> vstd::std_specs::cmp::PartialEqSpecImpl for Request<QLEN, LLEN> {
    open spec fn obeys_eq_spec() -> bool {
        true
    }

    open spec fn eq_spec(&self, other: &Self) -> bool {
        same_request(self@, other@)
    }
}

impl<const QLEN: usize, const ALEN: usize, const LLEN: usize> PartialEq for Response<QLEN, ALEN, LLEN> {
    fn eq(&self, other: &Self) -> (r: bool) {
        self.id == other.id && self.flags.0 == other.flags.0 && queries_same(&self.queries, &other.queries)
            && answers_same(&self.answers, &other.answers)
    }
}

impl<const QLEN: usize, const ALEN: usize, const LLEN: usize> vstd::std_specs::cmp::PartialEqSpecImpl for Response<QLEN, ALEN, LLEN> {
    open spec fn obeys_eq_spec() -> bool {
        true
    }

    open spec fn eq_spec(&self, other: &Self) -> bool {
        same_response(self@, other@)
    }
}

} // verus!

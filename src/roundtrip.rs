//! Reading back what was written: the wire form of a message, written
//! without name compression, reads back as the same message. A writer
//! compresses only the dotted texts of built names, and only when its memo
//! has room; the names of a message that was read from a packet are written
//! in full by any writer.
use vstd::prelude::*;
use vstd::utf8::valid_utf8;

use crate::label::{
    concat_all, dot_index, enc_label, enc_parts_from, enc_segs, enc_str, name_from, name_segments,
    part_segments, split_dots, PartView, DOT,
};
use crate::query::{
    answer_from, enc_answer, enc_query, qclass_canonical, qclass_value, qtype_canonical,
    qtype_of, qtype_value, query_from, same_answer, same_query, AnswerView, QType, QueryView,
};
use crate::reqres::{
    answers_from, enc_answers_from, enc_header, enc_message, enc_queries_from, enc_request,
    enc_response, message_from, queries_from, request_from, response_from, same_answers,
    same_queries, same_request, same_response, MessageView, RequestView, ResponseView,
};
use crate::records::{be_at, enc_record, record_from, same_record, RecordView};
use crate::wire::{be128, be16, be32, be_value, lemma_be_round_trip, pow256, ParseError};
use crate::server::{on_request, Outcome, ServerView};
use crate::writer::{memo_find, memo_push, Memo};

verus! {

/// The segments that a part puts on the wire when nothing is compressed.
pub open spec fn wire_segs_of(p: PartView) -> Seq<Seq<u8>> {
    match p {
        PartView::Run(segs) => segs,
        PartView::Str(s) => split_dots(s),
    }
}

/// The segments that a name puts on the wire when nothing is compressed.
pub open spec fn label_wire_segs(ps: Seq<PartView>) -> Seq<Seq<u8>> {
    concat_all(ps.map_values(|p: PartView| wire_segs_of(p)))
}

/// Whether a segment can stand on the wire: one to 63 bytes of UTF-8.
pub open spec fn good_seg(s: Seq<u8>) -> bool {
    1 <= s.len() <= 63 && valid_utf8(s)
}

/// Whether a name is written without compression by a writer whose memo
/// holds `lk` entries: the memo is off, or the name is made of packet runs
/// alone, which are always written in full.
pub open spec fn plain(ps: Seq<PartView>, lk: nat) -> bool {
    lk == 0 || forall|i: int| 0 <= i < ps.len() ==> #[trigger] ps[i] is Run
}

/// Whether a name can be written and read back: it has a part, no dotted
/// text is empty or ends in a dot, every segment can stand on the wire, and
/// it is written without compression.
pub open spec fn label_ok(ps: Seq<PartView>, lk: nat) -> bool {
    &&& ps.len() > 0
    &&& plain(ps, lk)
    &&& forall|i: int| 0 <= i < ps.len() ==> (#[trigger] ps[i] matches PartView::Str(s) ==> s.len() > 0 && s.last() != DOT)
    &&& forall|i: int| 0 <= i < label_wire_segs(ps).len() ==> good_seg(#[trigger] label_wire_segs(ps)[i])
}

/// Whether `s` holds no dot.
pub open spec fn dot_free(s: Seq<u8>) -> bool {
    forall|i: int| 0 <= i < s.len() ==> s[i] != DOT
}

pub proof fn lemma_concat_all_append(a: Seq<Seq<Seq<u8>>>, b: Seq<Seq<Seq<u8>>>)
    ensures
        concat_all(a + b) == concat_all(a) + concat_all(b),
    decreases b.len(),
{
    if b.len() == 0 {
        assert(a + b =~= a);
        assert(concat_all(a) + concat_all(b) =~= concat_all(a));
    } else {
        lemma_concat_all_append(a, b.drop_last());
        assert((a + b).drop_last() =~= a + b.drop_last());
        assert(concat_all(a) + concat_all(b) =~= concat_all(a) + concat_all(b.drop_last()) + b.last());
    }
}

pub proof fn lemma_enc_segs_append(a: Seq<Seq<u8>>, b: Seq<Seq<u8>>)
    ensures
        enc_segs(a + b) == enc_segs(a) + enc_segs(b),
    decreases b.len(),
{
    if b.len() == 0 {
        assert(a + b =~= a);
        assert(enc_segs(a) + enc_segs(b) =~= enc_segs(a));
    } else {
        lemma_enc_segs_append(a, b.drop_last());
        assert((a + b).drop_last() =~= a + b.drop_last());
        let x = b.last();
        assert(enc_segs(a) + enc_segs(b) =~= enc_segs(a) + enc_segs(b.drop_last()) + seq![(x.len() % 256) as u8] + x);
    }
}

pub proof fn lemma_dot_index_range(s: Seq<u8>)
    ensures
        0 <= dot_index(s) <= s.len(),
        dot_index(s) < s.len() ==> s[dot_index(s)] == DOT,
        forall|j: int| 0 <= j < dot_index(s) ==> s[j] != DOT,
    decreases s.len(),
{
    if s.len() > 0 && s[0] != DOT {
        let t = s.subrange(1, s.len() as int);
        lemma_dot_index_range(t);
        assert forall|j: int| 0 <= j < dot_index(s) implies s[j] != DOT by {
            if j > 0 {
                assert(s[j] == t[j - 1]);
            }
        }
    }
}

/// The pieces of a text cut at its dots hold no dot.
pub proof fn lemma_split_pieces_dot_free(s: Seq<u8>)
    ensures
        forall|i: int| 0 <= i < split_dots(s).len() ==> dot_free(#[trigger] split_dots(s)[i]),
        split_dots(s).len() >= 1,
    decreases s.len(),
{
    lemma_dot_index_range(s);
    let k = dot_index(s);
    if 0 <= k < s.len() {
        let rest = s.subrange(k + 1, s.len() as int);
        lemma_split_pieces_dot_free(rest);
        let head = s.subrange(0, k);
        assert(dot_free(head));
        assert forall|i: int| 0 <= i < split_dots(s).len() implies dot_free(#[trigger] split_dots(s)[i]) by {
            if i > 0 {
                assert(split_dots(s)[i] == split_dots(rest)[i - 1]);
            }
        }
    } else {
        assert(dot_free(s));
    }
}

/// A text without a dot is one piece.
pub proof fn lemma_split_dot_free(s: Seq<u8>)
    requires
        dot_free(s),
    ensures
        split_dots(s) == seq![s],
{
    lemma_dot_index_range(s);
}

/// The pieces of each segment of `w`, one segment after the other.
pub open spec fn pieces(w: Seq<Seq<u8>>) -> Seq<Seq<u8>> {
    concat_all(w.map_values(|x: Seq<u8>| split_dots(x)))
}

pub proof fn lemma_pieces_append(a: Seq<Seq<u8>>, b: Seq<Seq<u8>>)
    ensures
        pieces(a + b) == pieces(a) + pieces(b),
{
    let f = |x: Seq<u8>| split_dots(x);
    assert((a + b).map_values(f) =~= a.map_values(f) + b.map_values(f));
    lemma_concat_all_append(a.map_values(f), b.map_values(f));
}

pub proof fn lemma_pieces_dot_free(w: Seq<Seq<u8>>)
    requires
        forall|i: int| 0 <= i < w.len() ==> dot_free(#[trigger] w[i]),
    ensures
        pieces(w) == w,
    decreases w.len(),
{
    if w.len() > 0 {
        let f = |x: Seq<u8>| split_dots(x);
        lemma_pieces_dot_free(w.drop_last());
        assert(w.map_values(f).drop_last() =~= w.drop_last().map_values(f));
        lemma_split_dot_free(w.last());
        assert(pieces(w) =~= pieces(w.drop_last()) + seq![w.last()]);
        assert(w.drop_last().push(w.last()) =~= w);
    } else {
        assert(pieces(w) =~= w);
    }
}

/// Cutting the wire segments of a name at their dots gives its segments.
pub proof fn lemma_wire_segments(ps: Seq<PartView>)
    requires
        forall|i: int| 0 <= i < ps.len() ==> (#[trigger] ps[i] matches PartView::Str(s) ==> s.len() > 0 && s.last() != DOT),
    ensures
        pieces(label_wire_segs(ps)) == name_segments(ps),
    decreases ps.len(),
{
    let g = |p: PartView| wire_segs_of(p);
    let h = |p: PartView| part_segments(p);
    if ps.len() == 0 {
        assert(pieces(label_wire_segs(ps)) =~= name_segments(ps));
    } else {
        let init = ps.drop_last();
        let p = ps.last();
        assert forall|i: int| 0 <= i < init.len() implies (#[trigger] init[i] matches PartView::Str(s) ==> s.len() > 0 && s.last() != DOT) by {
            assert(init[i] == ps[i]);
        }
        lemma_wire_segments(init);
        assert(ps.map_values(g).drop_last() =~= init.map_values(g));
        assert(ps.map_values(h).drop_last() =~= init.map_values(h));
        assert(label_wire_segs(ps) == label_wire_segs(init) + wire_segs_of(p));
        lemma_pieces_append(label_wire_segs(init), wire_segs_of(p));
        assert(ps[ps.len() - 1] == p);
        match p {
            PartView::Run(segs) => {
            },
            PartView::Str(s) => {
                lemma_split_pieces_dot_free(s);
                lemma_pieces_dot_free(split_dots(s));
            },
        }
        assert(name_segments(ps) == name_segments(init) + part_segments(p));
    }
}

proof fn lemma_enc_segs_one(x: Seq<u8>)
    ensures
        enc_segs(seq![x]) == seq![(x.len() % 256) as u8] + x,
{
    let one = seq![x];
    assert(one.drop_last() =~= Seq::<Seq<u8>>::empty());
    assert(one.last() == x);
    assert(enc_segs(one.drop_last()) == Seq::<u8>::empty());
    assert(Seq::<u8>::empty() + seq![(x.len() % 256) as u8] + x =~= seq![(x.len() % 256) as u8] + x);
}

proof fn lemma_concat_all_one(x: Seq<Seq<u8>>)
    ensures
        concat_all(seq![x]) == x,
{
    let one = seq![x];
    assert(one.drop_last() =~= Seq::<Seq<Seq<u8>>>::empty());
    assert(one.last() == x);
    assert(concat_all(one.drop_last()) == Seq::<Seq<u8>>::empty());
    assert(Seq::<Seq<u8>>::empty() + x =~= x);
}

/// Without a memo, a dotted text is written as its pieces, and the last
/// part of a name adds the terminating zero.
pub proof fn lemma_enc_str_plain(s: Seq<u8>, is_last: bool, pos: int)
    requires
        s.len() > 0,
        s.last() != DOT,
    ensures
        enc_str(s, is_last, Seq::empty(), pos, 0) == (
            enc_segs(split_dots(s)) + if is_last { seq![0u8] } else { Seq::empty() },
            Seq::<(Seq<u8>, usize)>::empty(),
        ),
    decreases s.len(),
{
    lemma_dot_index_range(s);
    let k = dot_index(s);
    let m: Memo = Seq::empty();
    assert(memo_find(m, s) is None);
    assert(memo_push(m, s, pos as usize, 0) == m);
    let tail: Seq<u8> = if is_last { seq![0u8] } else { Seq::empty() };
    if k < s.len() {
        let seg = s.subrange(0, k);
        let rest = s.subrange(k + 1, s.len() as int);
        assert(rest.len() > 0) by {
            if rest.len() == 0 {
                assert(k == s.len() - 1);
            }
        }
        assert(rest.last() == s.last());
        let head = seq![(seg.len() % 256) as u8] + seg;
        lemma_enc_str_plain(rest, is_last, pos + head.len());
        lemma_enc_segs_append(seq![seg], split_dots(rest));
        lemma_enc_segs_one(seg);
        assert(split_dots(s) == seq![seg] + split_dots(rest));
        assert(head + (enc_segs(split_dots(rest)) + tail) =~= enc_segs(split_dots(s)) + tail);
    } else {
        assert(split_dots(s) == seq![s]);
        lemma_enc_segs_one(s);
    }
}

/// The wire segments of the parts of `ps` from `i` on.
pub open spec fn wire_segs_from(ps: Seq<PartView>, i: int) -> Seq<Seq<u8>> {
    label_wire_segs(ps.subrange(i, ps.len() as int))
}

proof fn lemma_wire_segs_step(ps: Seq<PartView>, i: int)
    requires
        0 <= i < ps.len(),
    ensures
        wire_segs_from(ps, i) == wire_segs_of(ps[i]) + wire_segs_from(ps, i + 1),
{
    let g = |p: PartView| wire_segs_of(p);
    let a = ps.subrange(i, ps.len() as int);
    let b = ps.subrange(i + 1, ps.len() as int);
    assert(a.map_values(g) =~= seq![wire_segs_of(ps[i])] + b.map_values(g));
    lemma_concat_all_append(seq![wire_segs_of(ps[i])], b.map_values(g));
    lemma_concat_all_one(wire_segs_of(ps[i]));
}

/// Without a memo, the parts from `i` on are written as their wire
/// segments and one terminating zero.
pub proof fn lemma_enc_parts_plain(ps: Seq<PartView>, i: int, pos: int, lk: nat)
    requires
        0 <= i < ps.len(),
        forall|j: int| 0 <= j < ps.len() ==> (#[trigger] ps[j] matches PartView::Str(s) ==> s.len() > 0 && s.last() != DOT),
        plain(ps, lk),
    ensures
        enc_parts_from(ps, i, Seq::empty(), pos, lk) == (
            enc_segs(wire_segs_from(ps, i)) + seq![0u8],
            Seq::<(Seq<u8>, usize)>::empty(),
        ),
    decreases ps.len() - i,
{
    let m: Memo = Seq::empty();
    let is_last = i == ps.len() - 1;
    lemma_wire_segs_step(ps, i);
    let e1 = match ps[i] {
        PartView::Run(segs) => enc_segs(segs),
        PartView::Str(s) => {
            assert(!(ps[i] is Run));
            assert(lk == 0);
            lemma_enc_str_plain(s, is_last, pos);
            enc_str(s, is_last, m, pos, 0).0
        },
    };
    if is_last {
        assert(ps.subrange(i + 1, ps.len() as int) =~= Seq::<PartView>::empty());
        let g = |p: PartView| wire_segs_of(p);
        assert(Seq::<PartView>::empty().map_values(g) =~= Seq::<Seq<Seq<u8>>>::empty());
        assert(wire_segs_from(ps, i + 1) =~= Seq::<Seq<u8>>::empty());
        assert(wire_segs_from(ps, i) =~= wire_segs_of(ps[i]));
        assert(ps.last() == ps[i]);
        let ep = crate::label::enc_part(ps[i], true, m, pos, lk);
        assert(ep.1 == m);
        assert(enc_parts_from(ps, i, m, pos, lk) == (ep.0 + enc_parts_from(ps, i + 1, m, pos + ep.0.len(), lk).0, m));
        match ps[i] {
            PartView::Run(segs) => {
                assert(enc_parts_from(ps, i + 1, m, pos + ep.0.len(), lk).0 == seq![0u8]);
                assert(enc_segs(segs) + seq![0u8] =~= enc_segs(wire_segs_from(ps, i)) + seq![0u8]);
            },
            PartView::Str(s) => {
                assert(enc_parts_from(ps, i + 1, m, pos + ep.0.len(), lk).0 == Seq::<u8>::empty());
                assert(enc_str(s, true, m, pos, 0).0 + Seq::<u8>::empty() =~= enc_segs(wire_segs_from(ps, i)) + seq![0u8]);
            },
        }
    } else {
        lemma_enc_parts_plain(ps, i + 1, pos + e1.len(), lk);
        lemma_enc_segs_append(wire_segs_of(ps[i]), wire_segs_from(ps, i + 1));
        let ep = crate::label::enc_part(ps[i], false, m, pos, lk);
        assert(ep.1 == m);
        assert(ep.0 == e1);
        assert(enc_parts_from(ps, i, m, pos, lk) == (ep.0 + enc_parts_from(ps, i + 1, m, pos + ep.0.len(), lk).0, m));
        match ps[i] {
            PartView::Run(segs) => {
                assert(enc_segs(segs) + (enc_segs(wire_segs_from(ps, i + 1)) + seq![0u8]) =~= enc_segs(wire_segs_from(ps, i)) + seq![0u8]);
            },
            PartView::Str(s) => {
                assert(enc_str(s, false, m, pos, 0).0 + (enc_segs(wire_segs_from(ps, i + 1)) + seq![0u8]) =~= enc_segs(wire_segs_from(ps, i)) + seq![0u8]);
            },
        }
    }
}

/// Without a memo, a name is written as its wire segments and a zero.
pub proof fn lemma_enc_label_plain(ps: Seq<PartView>, pos: int, lk: nat)
    requires
        label_ok(ps, lk),
    ensures
        enc_label(ps, Seq::empty(), pos, lk) == (
            enc_segs(label_wire_segs(ps)) + seq![0u8],
            Seq::<(Seq<u8>, usize)>::empty(),
        ),
{
    lemma_enc_parts_plain(ps, 0, pos, lk);
    assert(ps.subrange(0, ps.len() as int) =~= ps);
}

/// Reading length-prefixed segments and a zero gives them back as one run.
pub proof fn lemma_parse_segs(
    ctx: Seq<u8>,
    pos: int,
    w: Seq<Seq<u8>>,
    limit: nat,
    llen: nat,
    acc: Seq<PartView>,
    run: Seq<Seq<u8>>,
)
    requires
        0 <= pos,
        pos + enc_segs(w).len() + 1 <= ctx.len(),
        ctx.subrange(pos, pos + enc_segs(w).len() + 1) == enc_segs(w) + seq![0u8],
        forall|i: int| 0 <= i < w.len() ==> good_seg(#[trigger] w[i]),
        acc.len() < llen,
    ensures
        name_from(ctx, pos, limit, llen, acc, run) == Ok::<(Seq<PartView>, int), crate::wire::ParseError>((
            acc.push(PartView::Run(run + w)),
            pos + enc_segs(w).len() + 1,
        )),
    decreases w.len(),
{
    let e = enc_segs(w) + seq![0u8];
    assert(ctx[pos] == e[0]);
    if w.len() == 0 {
        assert(run + w =~= run);
    } else {
        let w0 = w[0];
        let rest = w.subrange(1, w.len() as int);
        assert(w =~= seq![w0] + rest);
        lemma_enc_segs_append(seq![w0], rest);
        lemma_enc_segs_one(w0);
        assert(good_seg(w[0]));
        let n = w0.len() as int;
        assert(ctx[pos] == (w0.len() % 256) as u8);
        assert(ctx[pos] == n);
        assert(ctx.subrange(pos + 1, pos + 1 + n) =~= w0) by {
            assert forall|j: int| 0 <= j < n implies ctx.subrange(pos + 1, pos + 1 + n)[j] == w0[j] by {
                assert(ctx[pos + 1 + j] == e[1 + j]);
            }
        }
        assert forall|i: int| 0 <= i < rest.len() implies good_seg(#[trigger] rest[i]) by {
            assert(rest[i] == w[i + 1]);
        }
        let p2 = pos + 1 + n;
        assert(ctx.subrange(p2, p2 + enc_segs(rest).len() + 1) =~= enc_segs(rest) + seq![0u8]) by {
            assert forall|j: int| 0 <= j < enc_segs(rest).len() + 1 implies ctx.subrange(p2, p2 + enc_segs(rest).len() + 1)[j] == (enc_segs(rest) + seq![0u8])[j] by {
                assert(ctx[p2 + j] == e[1 + n + j]);
            }
        }
        lemma_parse_segs(ctx, p2, rest, limit, llen, acc, run.push(w0));
        assert(run.push(w0) + rest =~= run + w);
    }
}

/// A name written without compression at `pos` of `ctx` reads back, as one
/// run, with the same segments.
pub proof fn lemma_label_round_trip(ps: Seq<PartView>, ctx: Seq<u8>, pos: int, llen: nat, lk: nat)
    requires
        label_ok(ps, lk),
        llen >= 1,
        0 <= pos,
        pos + enc_label(ps, Seq::empty(), pos, lk).0.len() <= ctx.len(),
        ctx.subrange(pos, pos + enc_label(ps, Seq::empty(), pos, lk).0.len()) == enc_label(ps, Seq::empty(), pos, lk).0,
    ensures
        crate::label::parse_name(ctx, pos, llen) matches Ok((parts, end)) && end == pos + enc_label(
            ps,
            Seq::empty(),
            pos,
            lk,
        ).0.len() && name_segments(parts) == name_segments(ps) && label_ok(parts, lk),
{
    lemma_enc_label_plain(ps, pos, lk);
    let w = label_wire_segs(ps);
    assert forall|i: int| 0 <= i < w.len() implies good_seg(#[trigger] w[i]) by {
    }
    lemma_parse_segs(ctx, pos, w, 4, llen, Seq::empty(), Seq::empty());
    assert(Seq::<Seq<u8>>::empty() + w =~= w);
    let parts = seq![PartView::Run(w)];
    assert(Seq::<PartView>::empty().push(PartView::Run(w)) =~= parts);
    lemma_wire_segments(ps);
    let h = |p: PartView| part_segments(p);
    assert(parts.map_values(h) =~= seq![part_segments(PartView::Run(w))]);
    lemma_concat_all_one(part_segments(PartView::Run(w)));
    let g = |p: PartView| wire_segs_of(p);
    assert(parts.map_values(g) =~= seq![w]);
    lemma_concat_all_one(w);
    assert(label_wire_segs(parts) == w);
}

/// The bytes of `a + b` at `pos` of `ctx` are those of `a`, then those of `b`.
pub proof fn lemma_sub_split(ctx: Seq<u8>, pos: int, a: Seq<u8>, b: Seq<u8>)
    requires
        0 <= pos,
        pos + a.len() + b.len() <= ctx.len(),
        ctx.subrange(pos, pos + a.len() + b.len()) == a + b,
    ensures
        ctx.subrange(pos, pos + a.len()) == a,
        ctx.subrange(pos + a.len(), pos + a.len() + b.len()) == b,
{
    assert forall|j: int| 0 <= j < a.len() implies ctx.subrange(pos, pos + a.len())[j] == a[j] by {
        assert(ctx[pos + j] == (a + b)[j]);
    }
    assert forall|j: int| 0 <= j < b.len() implies ctx.subrange(pos + a.len(), pos + a.len() + b.len())[j] == b[j] by {
        assert(ctx[pos + a.len() + j] == (a + b)[a.len() + j]);
    }
    assert(ctx.subrange(pos, pos + a.len()) =~= a);
    assert(ctx.subrange(pos + a.len(), pos + a.len() + b.len()) =~= b);
}

pub proof fn lemma_be16_back(v: u16)
    ensures
        be16(v).len() == 2,
        be_value(be16(v)) == v,
{
    reveal_with_fuel(pow256, 3);
    lemma_be_round_trip(v as nat, 2);
}

pub proof fn lemma_be32_back(v: u32)
    ensures
        be32(v).len() == 4,
        be_value(be32(v)) == v,
{
    reveal_with_fuel(pow256, 5);
    lemma_be_round_trip(v as nat, 4);
}

pub proof fn lemma_be128_back(v: u128)
    ensures
        be128(v).len() == 16,
        be_value(be128(v)) == v,
{
    reveal_with_fuel(pow256, 17);
    lemma_be_round_trip(v as nat, 16);
}

/// Whether a question can be written and read back.
pub open spec fn query_ok(q: QueryView, lk: nat) -> bool {
    label_ok(q.name, lk) && qtype_canonical(q.qtype) && qclass_canonical(q.qclass)
}

/// A question written without compression reads back as the same question.
pub proof fn lemma_query_round_trip(q: QueryView, ctx: Seq<u8>, pos: int, llen: nat, lk: nat)
    requires
        query_ok(q, lk),
        llen >= 1,
        0 <= pos,
        pos + enc_query(q, Seq::empty(), pos, lk).0.len() <= ctx.len(),
        ctx.subrange(pos, pos + enc_query(q, Seq::empty(), pos, lk).0.len()) == enc_query(q, Seq::empty(), pos, lk).0,
    ensures
        enc_query(q, Seq::empty(), pos, lk).1 == Seq::<(Seq<u8>, usize)>::empty(),
        query_from(ctx, pos, llen) matches Ok((q2, end)) && end == pos + enc_query(q, Seq::empty(), pos, lk).0.len()
            && same_query(q, q2) && query_ok(q2, lk),
{
    lemma_enc_label_plain(q.name, pos, lk);
    let le = enc_label(q.name, Seq::empty(), pos, lk).0;
    let bt = be16(qtype_value(q.qtype));
    let bc = be16(qclass_value(q.qclass));
    lemma_be16_back(qtype_value(q.qtype));
    lemma_be16_back(qclass_value(q.qclass));
    assert(enc_query(q, Seq::empty(), pos, lk).0 == le + bt + bc);
    lemma_sub_split(ctx, pos, le + bt, bc);
    lemma_sub_split(ctx, pos, le, bt);
    lemma_label_round_trip(q.name, ctx, pos, llen, lk);
    let p = pos + le.len();
    assert(be_at(ctx, p, 2) == qtype_value(q.qtype));
    assert(be_at(ctx, p + 2, 2) == qclass_value(q.qclass));
}

/// Whether record data can be written and read back.
pub open spec fn record_ok(r: RecordView, lk: nat) -> bool {
    match r {
        RecordView::PTR(name) => label_ok(name, lk),
        RecordView::TXT(t) => t.len() < 0x10000 && valid_utf8(t),
        RecordView::SRV { target, .. } => label_ok(target, lk),
        _ => true,
    }
}

/// The type that announces record data of the kind of `r`.
pub open spec fn record_type(r: RecordView) -> QType {
    match r {
        RecordView::A(_) => QType::A,
        RecordView::AAAA(_) => QType::AAAA,
        RecordView::PTR(_) => QType::PTR,
        RecordView::TXT(_) => QType::TXT,
        RecordView::SRV { .. } => QType::SRV,
    }
}

/// Record data written without compression reads back as the same data.
pub proof fn lemma_record_round_trip(r: RecordView, ctx: Seq<u8>, pos: int, llen: nat, lk: nat)
    requires
        record_ok(r, lk),
        llen >= 1,
        0 <= pos,
        pos + enc_record(r, Seq::empty(), pos, lk).0.len() <= ctx.len(),
        ctx.subrange(pos, pos + enc_record(r, Seq::empty(), pos, lk).0.len()) == enc_record(r, Seq::empty(), pos, lk).0,
    ensures
        enc_record(r, Seq::empty(), pos, lk).1 == Seq::<(Seq<u8>, usize)>::empty(),
        record_from(ctx, pos, record_type(r), llen) matches Ok((r2, end)) && end == pos + enc_record(
            r,
            Seq::empty(),
            pos,
            lk,
        ).0.len() && same_record(r, r2) && record_ok(r2, lk),
{
    let e = enc_record(r, Seq::empty(), pos, lk).0;
    match r {
        RecordView::A(a) => {
            lemma_be16_back(4);
            lemma_be32_back(a);
            lemma_sub_split(ctx, pos, be16(4), be32(a));
        },
        RecordView::AAAA(a) => {
            lemma_be16_back(16);
            lemma_be128_back(a);
            lemma_sub_split(ctx, pos, be16(16), be128(a));
        },
        RecordView::PTR(name) => {
            lemma_enc_label_plain(name, pos + 2, lk);
            let le = enc_label(name, Seq::empty(), pos + 2, lk).0;
            let lv = (le.len() % 0x10000) as u16;
            lemma_be16_back(lv);
            lemma_sub_split(ctx, pos, be16(lv), le);
            lemma_label_round_trip(name, ctx, pos + 2, llen, lk);
        },
        RecordView::TXT(t) => {
            let lv = (t.len() % 0x10000) as u16;
            lemma_be16_back(lv);
            lemma_sub_split(ctx, pos, be16(lv), t);
        },
        RecordView::SRV { priority, weight, port, target } => {
            lemma_enc_label_plain(target, pos + 8, lk);
            let le = enc_label(target, Seq::empty(), pos + 8, lk).0;
            let lv = ((6 + le.len()) % 0x10000) as u16;
            lemma_be16_back(lv);
            lemma_be16_back(priority);
            lemma_be16_back(weight);
            lemma_be16_back(port);
            let b0 = be16(lv);
            let b1 = be16(priority);
            let b2 = be16(weight);
            let b3 = be16(port);
            lemma_sub_split(ctx, pos, b0 + b1 + b2 + b3, le);
            lemma_sub_split(ctx, pos, b0 + b1 + b2, b3);
            lemma_sub_split(ctx, pos, b0 + b1, b2);
            lemma_sub_split(ctx, pos, b0, b1);
            lemma_label_round_trip(target, ctx, pos + 8, llen, lk);
            assert(be_at(ctx, pos + 2, 2) == priority);
            assert(be_at(ctx, pos + 4, 2) == weight);
            assert(be_at(ctx, pos + 6, 2) == port);
        },
    }
}

/// Whether a resource record can be written and read back.
pub open spec fn answer_ok(a: AnswerView, lk: nat) -> bool {
    &&& label_ok(a.name, lk)
    &&& a.atype == record_type(a.record)
    &&& qclass_canonical(a.aclass)
    &&& record_ok(a.record, lk)
}

/// A resource record written without compression reads back as the same record.
pub proof fn lemma_answer_round_trip(a: AnswerView, ctx: Seq<u8>, pos: int, llen: nat, lk: nat)
    requires
        answer_ok(a, lk),
        llen >= 1,
        0 <= pos,
        pos + enc_answer(a, Seq::empty(), pos, lk).0.len() <= ctx.len(),
        ctx.subrange(pos, pos + enc_answer(a, Seq::empty(), pos, lk).0.len()) == enc_answer(a, Seq::empty(), pos, lk).0,
    ensures
        enc_answer(a, Seq::empty(), pos, lk).1 == Seq::<(Seq<u8>, usize)>::empty(),
        answer_from(ctx, pos, llen) matches Ok((a2, end)) && end == pos + enc_answer(a, Seq::empty(), pos, lk).0.len()
            && same_answer(a, a2) && answer_ok(a2, lk),
{
    lemma_enc_label_plain(a.name, pos, lk);
    let le = enc_label(a.name, Seq::empty(), pos, lk).0;
    let bt = be16(qtype_value(a.atype));
    let bc = be16(qclass_value(a.aclass));
    let bl = be32(a.ttl);
    let rp = pos + le.len() + 8;
    let re = enc_record(a.record, Seq::empty(), rp, lk).0;
    lemma_be16_back(qtype_value(a.atype));
    lemma_be16_back(qclass_value(a.aclass));
    lemma_be32_back(a.ttl);
    assert(enc_answer(a, Seq::empty(), pos, lk).0 == le + bt + bc + bl + re);
    lemma_sub_split(ctx, pos, le + bt + bc + bl, re);
    lemma_sub_split(ctx, pos, le + bt + bc, bl);
    lemma_sub_split(ctx, pos, le + bt, bc);
    lemma_sub_split(ctx, pos, le, bt);
    lemma_label_round_trip(a.name, ctx, pos, llen, lk);
    lemma_record_round_trip(a.record, ctx, rp, llen, lk);
    let p = pos + le.len();
    assert(be_at(ctx, p, 2) == qtype_value(a.atype));
    assert(qtype_of(qtype_value(a.atype)) == a.atype);
    assert(be_at(ctx, p + 2, 2) == qclass_value(a.aclass));
    assert(be_at(ctx, p + 4, 4) == a.ttl);
}

proof fn lemma_query_memo(q: QueryView, pos: int, lk: nat)
    requires
        query_ok(q, lk),
    ensures
        enc_query(q, Seq::empty(), pos, lk).1 == Seq::<(Seq<u8>, usize)>::empty(),
{
    lemma_enc_label_plain(q.name, pos, lk);
}

proof fn lemma_answer_memo(a: AnswerView, pos: int, lk: nat)
    requires
        answer_ok(a, lk),
    ensures
        enc_answer(a, Seq::empty(), pos, lk).1 == Seq::<(Seq<u8>, usize)>::empty(),
{
    lemma_enc_label_plain(a.name, pos, lk);
    let le = enc_label(a.name, Seq::empty(), pos, lk).0;
    let rp = pos + le.len() + 8;
    match a.record {
        RecordView::PTR(name) => lemma_enc_label_plain(name, rp + 2, lk),
        RecordView::SRV { target, .. } => lemma_enc_label_plain(target, rp + 8, lk),
        _ => {},
    }
}

/// The questions from `i` on, written without compression, read back as the same questions.
#[verifier::spinoff_prover]
#[verifier::rlimit(40)]
pub proof fn lemma_queries_round_trip(
    xs: Seq<QueryView>,
    i: int,
    ctx: Seq<u8>,
    pos: int,
    cap: nat,
    llen: nat,
    acc: Seq<QueryView>,
    lk: nat,
)
    requires
        0 <= i <= xs.len(),
        forall|k: int| 0 <= k < xs.len() ==> query_ok(#[trigger] xs[k], lk),
        llen >= 1,
        0 <= pos,
        acc.len() + xs.len() - i <= cap,
        pos + enc_queries_from(xs, i, Seq::empty(), pos, lk).0.len() <= ctx.len(),
        ctx.subrange(pos, pos + enc_queries_from(xs, i, Seq::empty(), pos, lk).0.len()) == enc_queries_from(xs, i, Seq::empty(), pos, lk).0,
    ensures
        enc_queries_from(xs, i, Seq::empty(), pos, lk).1 == Seq::<(Seq<u8>, usize)>::empty(),
        queries_from(ctx, pos, (xs.len() - i) as nat, cap, llen, acc) matches Ok((r, end)) && end == pos + enc_queries_from(
            xs,
            i,
            Seq::empty(),
            pos,
            lk,
        ).0.len() && r.len() == acc.len() + xs.len() - i && r.subrange(0, acc.len() as int) == acc
            && (forall|k: int| 0 <= k < xs.len() - i ==> same_query(xs[i + k], #[trigger] r[acc.len() + k]))
            && (forall|k: int| acc.len() <= k < r.len() ==> query_ok(#[trigger] r[k], lk)),
    decreases xs.len() - i,
{
    if i == xs.len() {
        assert(acc.subrange(0, acc.len() as int) =~= acc);
    } else {
        let e1 = enc_query(xs[i], Seq::empty(), pos, lk).0;
        lemma_query_memo(xs[i], pos, lk);
        let rest = enc_queries_from(xs, i + 1, Seq::empty(), pos + e1.len(), lk).0;
        assert(enc_queries_from(xs, i, Seq::empty(), pos, lk).0 == e1 + rest);
        lemma_sub_split(ctx, pos, e1, rest);
        lemma_query_round_trip(xs[i], ctx, pos, llen, lk);
        let x2 = match query_from(ctx, pos, llen) {
            Ok((x2, _)) => x2,
            Err(_) => xs[i],
        };
        lemma_queries_round_trip(xs, i + 1, ctx, pos + e1.len(), cap, llen, acc.push(x2), lk);
        let r = match queries_from(ctx, pos + e1.len(), (xs.len() - i - 1) as nat, cap, llen, acc.push(x2)) {
            Ok((r, _)) => r,
            Err(_) => acc,
        };
        assert(r.subrange(0, acc.len() as int + 1) == acc.push(x2));
        assert(r[acc.len() as int] == acc.push(x2)[acc.len() as int]);
        assert(r.subrange(0, acc.len() as int) =~= acc) by {
            assert forall|j: int| 0 <= j < acc.len() implies r.subrange(0, acc.len() as int)[j] == acc[j] by {
                assert(r.subrange(0, acc.len() as int + 1)[j] == acc.push(x2)[j]);
            }
        }
        assert forall|k: int| 0 <= k < xs.len() - i implies same_query(xs[i + k], #[trigger] r[acc.len() + k]) by {
            if k > 0 {
                assert(same_query(xs[(i + 1) + (k - 1)], r[acc.push(x2).len() + (k - 1)]));
            }
        }
    }
}

/// The resource records from `i` on, written without compression, read back as the same resource records.
#[verifier::spinoff_prover]
#[verifier::rlimit(40)]
pub proof fn lemma_answers_round_trip(
    xs: Seq<AnswerView>,
    i: int,
    ctx: Seq<u8>,
    pos: int,
    cap: nat,
    llen: nat,
    acc: Seq<AnswerView>,
    lk: nat,
)
    requires
        0 <= i <= xs.len(),
        forall|k: int| 0 <= k < xs.len() ==> answer_ok(#[trigger] xs[k], lk),
        llen >= 1,
        0 <= pos,
        acc.len() + xs.len() - i <= cap,
        pos + enc_answers_from(xs, i, Seq::empty(), pos, lk).0.len() <= ctx.len(),
        ctx.subrange(pos, pos + enc_answers_from(xs, i, Seq::empty(), pos, lk).0.len()) == enc_answers_from(xs, i, Seq::empty(), pos, lk).0,
    ensures
        enc_answers_from(xs, i, Seq::empty(), pos, lk).1 == Seq::<(Seq<u8>, usize)>::empty(),
        answers_from(ctx, pos, (xs.len() - i) as nat, cap, llen, acc) matches Ok((r, end)) && end == pos + enc_answers_from(
            xs,
            i,
            Seq::empty(),
            pos,
            lk,
        ).0.len() && r.len() == acc.len() + xs.len() - i && r.subrange(0, acc.len() as int) == acc
            && (forall|k: int| 0 <= k < xs.len() - i ==> same_answer(xs[i + k], #[trigger] r[acc.len() + k]))
            && (forall|k: int| acc.len() <= k < r.len() ==> answer_ok(#[trigger] r[k], lk)),
    decreases xs.len() - i,
{
    if i == xs.len() {
        assert(acc.subrange(0, acc.len() as int) =~= acc);
    } else {
        let e1 = enc_answer(xs[i], Seq::empty(), pos, lk).0;
        lemma_answer_memo(xs[i], pos, lk);
        let rest = enc_answers_from(xs, i + 1, Seq::empty(), pos + e1.len(), lk).0;
        assert(enc_answers_from(xs, i, Seq::empty(), pos, lk).0 == e1 + rest);
        lemma_sub_split(ctx, pos, e1, rest);
        lemma_answer_round_trip(xs[i], ctx, pos, llen, lk);
        let x2 = match answer_from(ctx, pos, llen) {
            Ok((x2, _)) => x2,
            Err(_) => xs[i],
        };
        lemma_answers_round_trip(xs, i + 1, ctx, pos + e1.len(), cap, llen, acc.push(x2), lk);
        let r = match answers_from(ctx, pos + e1.len(), (xs.len() - i - 1) as nat, cap, llen, acc.push(x2)) {
            Ok((r, _)) => r,
            Err(_) => acc,
        };
        assert(r.subrange(0, acc.len() as int + 1) == acc.push(x2));
        assert(r[acc.len() as int] == acc.push(x2)[acc.len() as int]);
        assert(r.subrange(0, acc.len() as int) =~= acc) by {
            assert forall|j: int| 0 <= j < acc.len() implies r.subrange(0, acc.len() as int)[j] == acc[j] by {
                assert(r.subrange(0, acc.len() as int + 1)[j] == acc.push(x2)[j]);
            }
        }
        assert forall|k: int| 0 <= k < xs.len() - i implies same_answer(xs[i + k], #[trigger] r[acc.len() + k]) by {
            if k > 0 {
                assert(same_answer(xs[(i + 1) + (k - 1)], r[acc.push(x2).len() + (k - 1)]));
            }
        }
    }
}

/// Whether a query message can be written and read back with room for
/// `qlen` questions: its QR bit is clear and each question can be.
pub open spec fn request_ok(r: RequestView, qlen: nat, lk: nat) -> bool {
    &&& r.queries.len() <= qlen
    &&& r.queries.len() < 0x10000
    &&& r.flags & 0x8000 == 0
    &&& forall|k: int| 0 <= k < r.queries.len() ==> query_ok(#[trigger] r.queries[k], lk)
}

/// Whether a response message can be written and read back with room for
/// `qlen` questions and `alen` answers: its QR bit is set and each question
/// and record can be.
pub open spec fn response_ok(r: ResponseView, qlen: nat, alen: nat, lk: nat) -> bool {
    &&& r.queries.len() <= qlen
    &&& r.queries.len() < 0x10000
    &&& r.answers.len() <= alen
    &&& r.answers.len() < 0x10000
    &&& r.flags & 0x8000 != 0
    &&& forall|k: int| 0 <= k < r.queries.len() ==> query_ok(#[trigger] r.queries[k], lk)
    &&& forall|k: int| 0 <= k < r.answers.len() ==> answer_ok(#[trigger] r.answers[k], lk)
}

/// Whether a message can be written and read back.
pub open spec fn message_ok(m: MessageView, qlen: nat, alen: nat, lk: nat) -> bool {
    match m {
        MessageView::Request(r) => request_ok(r, qlen, lk),
        MessageView::Response(r) => response_ok(r, qlen, alen, lk),
    }
}

/// Whether two messages are the same; names compare by their segments.
pub open spec fn same_message(a: MessageView, b: MessageView) -> bool {
    match (a, b) {
        (MessageView::Request(x), MessageView::Request(y)) => same_request(x, y),
        (MessageView::Response(x), MessageView::Response(y)) => same_response(x, y),
        _ => false,
    }
}

proof fn lemma_header_fields(ctx: Seq<u8>, id: u16, flags: u16, qd: nat, an: nat, rest: Seq<u8>)
    requires
        ctx == enc_header(id, flags, qd, an) + rest,
        qd < 0x10000,
        an < 0x10000,
    ensures
        enc_header(id, flags, qd, an).len() == 12,
        ctx.len() >= 12,
        be_at(ctx, 0, 2) == id,
        be_at(ctx, 2, 2) == flags,
        be_at(ctx, 4, 2) == qd,
        be_at(ctx, 6, 2) == an,
        ctx.subrange(12, ctx.len() as int) == rest,
{
    let b0 = be16(id);
    let b1 = be16(flags);
    let b2 = be16((qd % 0x10000) as u16);
    let b3 = be16((an % 0x10000) as u16);
    let z = be16(0);
    lemma_be16_back(id);
    lemma_be16_back(flags);
    lemma_be16_back((qd % 0x10000) as u16);
    lemma_be16_back((an % 0x10000) as u16);
    lemma_be16_back(0);
    let h = b0 + b1 + b2 + b3 + z + z;
    assert(ctx.subrange(0, ctx.len() as int) =~= ctx);
    lemma_sub_split(ctx, 0, h, rest);
    lemma_sub_split(ctx, 0, b0 + b1 + b2 + b3 + z, z);
    lemma_sub_split(ctx, 0, b0 + b1 + b2 + b3, z);
    lemma_sub_split(ctx, 0, b0 + b1 + b2, b3);
    lemma_sub_split(ctx, 0, b0 + b1, b2);
    lemma_sub_split(ctx, 0, b0, b1);
}

#[verifier::spinoff_prover]
proof fn lemma_request_round_trip(r: RequestView, qlen: nat, llen: nat, lk: nat)
    requires
        request_ok(r, qlen, lk),
        llen >= 1,
    ensures
        be_at(enc_request(r, Seq::empty(), 0, lk).0, 2, 2) == r.flags,
        enc_request(r, Seq::empty(), 0, lk).0.len() >= 4,
        request_from(enc_request(r, Seq::empty(), 0, lk).0, qlen, llen) matches Ok((r2, end)) && end
            == enc_request(r, Seq::empty(), 0, lk).0.len() && same_request(r, r2),
{
    let ctx = enc_request(r, Seq::empty(), 0, lk).0;
    let qe = enc_queries_from(r.queries, 0, Seq::empty(), 12, lk).0;
    assert(ctx == enc_header(r.id, r.flags, r.queries.len(), 0) + qe);
    lemma_header_fields(ctx, r.id, r.flags, r.queries.len(), 0, qe);
    assert(ctx.subrange(12, 12 + qe.len() as int) == qe);
    lemma_queries_round_trip(r.queries, 0, ctx, 12, qlen, llen, Seq::empty(), lk);
    let res = queries_from(ctx, 12, r.queries.len(), qlen, llen, Seq::empty());
    assert(res matches Ok((qs2, end)) && end == ctx.len() && same_queries(r.queries, qs2)) by {
        let (qs2, end) = res->Ok_0;
        assert forall|k: int| 0 <= k < r.queries.len() implies same_query(#[trigger] r.queries[k], qs2[k]) by {
            assert(same_query(r.queries[0 + k], qs2[0 + k]));
        }
    }
}

proof fn lemma_response_layout(r: ResponseView, qlen: nat, alen: nat, lk: nat)
    requires
        response_ok(r, qlen, alen, lk),
    ensures
        enc_response(r, Seq::empty(), 0, lk).0 == enc_header(r.id, r.flags, r.queries.len(), r.answers.len())
            + (enc_queries_from(r.queries, 0, Seq::empty(), 12, lk).0 + enc_answers_from(
            r.answers,
            0,
            Seq::empty(),
            12 + enc_queries_from(r.queries, 0, Seq::empty(), 12, lk).0.len() as int,
            lk,
        ).0),
{
    lemma_queries_memo(r.queries, 0, 12, lk);
    let h = enc_header(r.id, r.flags, r.queries.len(), r.answers.len());
    let qe = enc_queries_from(r.queries, 0, Seq::empty(), 12, lk).0;
    let ae = enc_answers_from(r.answers, 0, Seq::empty(), 12 + qe.len() as int, lk).0;
    assert(h + qe + ae =~= h + (qe + ae));
}

#[verifier::spinoff_prover]
#[verifier::rlimit(60)]
proof fn lemma_response_round_trip(r: ResponseView, qlen: nat, alen: nat, llen: nat, lk: nat)
    requires
        response_ok(r, qlen, alen, lk),
        llen >= 1,
    ensures
        be_at(enc_response(r, Seq::empty(), 0, lk).0, 2, 2) == r.flags,
        enc_response(r, Seq::empty(), 0, lk).0.len() >= 4,
        response_from(enc_response(r, Seq::empty(), 0, lk).0, qlen, alen, llen) matches Ok((r2, end)) && end
            == enc_response(r, Seq::empty(), 0, lk).0.len() && same_response(r, r2),
{
    let ctx = enc_response(r, Seq::empty(), 0, lk).0;
    let qe = enc_queries_from(r.queries, 0, Seq::empty(), 12, lk).0;
    let ae = enc_answers_from(r.answers, 0, Seq::empty(), 12 + qe.len() as int, lk).0;
    lemma_response_layout(r, qlen, alen, lk);
    lemma_header_fields(ctx, r.id, r.flags, r.queries.len(), r.answers.len(), qe + ae);
    assert(ctx.subrange(12, 12 + qe.len() as int + ae.len() as int) == qe + ae);
    lemma_sub_split(ctx, 12, qe, ae);
    lemma_queries_round_trip(r.queries, 0, ctx, 12, qlen, llen, Seq::empty(), lk);
    let rq = queries_from(ctx, 12, r.queries.len(), qlen, llen, Seq::empty());
    let qs2 = rq->Ok_0.0;
    let p = rq->Ok_0.1;
    assert(p == 12 + qe.len());
    lemma_answers_round_trip(r.answers, 0, ctx, 12 + qe.len() as int, alen, llen, Seq::empty(), lk);
    let ra = answers_from(ctx, p, r.answers.len(), alen, llen, Seq::empty());
    let xs2 = ra->Ok_0.0;
    let end = ra->Ok_0.1;
    assert(end == ctx.len());
    assert(same_queries(r.queries, qs2)) by {
        assert forall|k: int| 0 <= k < r.queries.len() implies same_query(#[trigger] r.queries[k], qs2[k]) by {
            assert(same_query(r.queries[0 + k], qs2[0 + k]));
        }
    }
    assert(same_answers(r.answers, xs2)) by {
        assert forall|k: int| 0 <= k < r.answers.len() implies same_answer(#[trigger] r.answers[k], xs2[k]) by {
            assert(same_answer(r.answers[0 + k], xs2[0 + k]));
        }
    }
    assert(be_at(ctx, 4, 2) == r.queries.len());
    assert(be_at(ctx, 6, 2) == r.answers.len());
    assert(response_from(ctx, qlen, alen, llen) == Ok::<(ResponseView, int), ParseError>((
        ResponseView { id: r.id, flags: r.flags, queries: qs2, answers: xs2 },
        end,
    )));
}

/// A message that can be written and read back reads back as the same
/// message, names compared by their segments, and reading ends where the
/// message ends. This holds for a writer with a memo of `lk` entries when
/// `lk` is zero or every name of the message is made of packet runs.
pub proof fn lemma_message_round_trip(m: MessageView, qlen: nat, alen: nat, llen: nat, lk: nat)
    requires
        message_ok(m, qlen, alen, lk),
        llen >= 1,
    ensures
        message_from(enc_message(m, lk), qlen, alen, llen) matches Ok((m2, end)) && end == enc_message(m, lk).len()
            && same_message(m, m2),
{
    match m {
        MessageView::Request(r) => {
            lemma_request_round_trip(r, qlen, llen, lk);
        },
        MessageView::Response(r) => {
            lemma_response_round_trip(r, qlen, alen, llen, lk);
        },
    }
}

proof fn lemma_queries_memo(qs: Seq<QueryView>, i: int, pos: int, lk: nat)
    requires
        0 <= i <= qs.len(),
        forall|k: int| 0 <= k < qs.len() ==> query_ok(#[trigger] qs[k], lk),
    ensures
        enc_queries_from(qs, i, Seq::empty(), pos, lk).1 == Seq::<(Seq<u8>, usize)>::empty(),
    decreases qs.len() - i,
{
    if i < qs.len() {
        lemma_query_memo(qs[i], pos, lk);
        lemma_queries_memo(qs, i + 1, pos + enc_query(qs[i], Seq::empty(), pos, lk).0.len(), lk);
    }
}

/// Whether every part is a run of segments that can stand on the wire.
pub open spec fn runs_good(ps: Seq<PartView>) -> bool {
    forall|i: int| 0 <= i < ps.len() ==> (#[trigger] ps[i] matches PartView::Run(segs) && forall|j: int|
        0 <= j < segs.len() ==> good_seg(#[trigger] segs[j]))
}

/// A name read from a packet is made of runs of segments that can stand on
/// the wire.
pub proof fn lemma_name_from_good(
    ctx: Seq<u8>,
    pos: int,
    limit: nat,
    llen: nat,
    acc: Seq<PartView>,
    run: Seq<Seq<u8>>,
)
    requires
        runs_good(acc),
        forall|j: int| 0 <= j < run.len() ==> good_seg(#[trigger] run[j]),
    ensures
        name_from(ctx, pos, limit, llen, acc, run) matches Ok((parts, _)) ==> runs_good(parts) && parts.len() >= 1,
    decreases limit, ctx.len() - pos,
{
    if 0 <= pos < ctx.len() {
        let len = ctx[pos];
        if len == 0 {
            let parts = acc.push(PartView::Run(run));
            assert forall|i: int| 0 <= i < parts.len() implies (#[trigger] parts[i] matches PartView::Run(segs)
                && forall|j: int| 0 <= j < segs.len() ==> good_seg(#[trigger] segs[j])) by {
                if i < acc.len() {
                    assert(parts[i] == acc[i]);
                }
            }
        } else if len >= 64 {
            if !(run.len() > 0 && acc.len() >= llen) && pos + 1 < ctx.len() {
                let acc2 = if run.len() > 0 { acc.push(PartView::Run(run)) } else { acc };
                assert forall|i: int| 0 <= i < acc2.len() implies (#[trigger] acc2[i] matches PartView::Run(segs)
                    && forall|j: int| 0 <= j < segs.len() ==> good_seg(#[trigger] segs[j])) by {
                    if i < acc.len() {
                        assert(acc2[i] == acc[i]);
                    }
                }
                let off = (len % 64) * 256 + ctx[pos + 1];
                if limit > 0 {
                    lemma_name_from_good(ctx, off, (limit - 1) as nat, llen, acc2, Seq::empty());
                }
            }
        } else if pos + 1 + len <= ctx.len() {
            let seg = ctx.subrange(pos + 1, pos + 1 + len);
            if valid_utf8(seg) {
                let run2 = run.push(seg);
                assert forall|j: int| 0 <= j < run2.len() implies good_seg(#[trigger] run2[j]) by {
                    if j < run.len() {
                        assert(run2[j] == run[j]);
                    }
                }
                lemma_name_from_good(ctx, pos + 1 + len, limit, llen, acc, run2);
            }
        }
    }
}

/// A name of good runs can be written and read back.
pub proof fn lemma_runs_good_ok(ps: Seq<PartView>, lk: nat)
    requires
        runs_good(ps),
        ps.len() >= 1,
    ensures
        label_ok(ps, lk),
{
    lemma_runs_good_segs(ps);
}

proof fn lemma_runs_good_segs(ps: Seq<PartView>)
    requires
        runs_good(ps),
    ensures
        forall|i: int| 0 <= i < label_wire_segs(ps).len() ==> good_seg(#[trigger] label_wire_segs(ps)[i]),
    decreases ps.len(),
{
    if ps.len() > 0 {
        let init = ps.drop_last();
        assert forall|i: int| 0 <= i < init.len() implies (#[trigger] init[i] matches PartView::Run(segs)
            && forall|j: int| 0 <= j < segs.len() ==> good_seg(#[trigger] segs[j])) by {
            assert(init[i] == ps[i]);
        }
        lemma_runs_good_segs(init);
        let g = |p: PartView| wire_segs_of(p);
        assert(ps.map_values(g).drop_last() =~= init.map_values(g));
        let a = label_wire_segs(init);
        let b = wire_segs_of(ps.last());
        assert(ps.last() == ps[ps.len() - 1]);
        assert(label_wire_segs(ps) == a + b);
        assert forall|i: int| 0 <= i < label_wire_segs(ps).len() implies good_seg(#[trigger] label_wire_segs(ps)[i]) by {
            if i >= a.len() {
                assert(label_wire_segs(ps)[i] == b[i - a.len()]);
            } else {
                assert(label_wire_segs(ps)[i] == a[i]);
            }
        }
    } else {
        assert(label_wire_segs(ps) =~= Seq::<Seq<u8>>::empty());
    }
}

/// Questions read from a packet can be written and read back, and there
/// are no more of them than room was given for.
pub proof fn lemma_queries_from_ok(
    ctx: Seq<u8>,
    pos: int,
    n: nat,
    cap: nat,
    llen: nat,
    acc: Seq<QueryView>,
    lk: nat,
)
    requires
        forall|k: int| 0 <= k < acc.len() ==> query_ok(#[trigger] acc[k], lk),
        acc.len() <= cap,
    ensures
        queries_from(ctx, pos, n, cap, llen, acc) matches Ok((qs, _)) ==> qs.len() <= cap && forall|k: int|
            0 <= k < qs.len() ==> query_ok(#[trigger] qs[k], lk),
    decreases n,
{
    if n > 0 {
        if let Ok((q, p)) = query_from(ctx, pos, llen) {
            if acc.len() < cap {
                lemma_name_from_good(ctx, pos, 4, llen, Seq::empty(), Seq::empty());
                let (name, _) = crate::label::parse_name(ctx, pos, llen)->Ok_0;
                lemma_runs_good_ok(name, lk);
                assert(q.name == name);
                let acc2 = acc.push(q);
                assert forall|k: int| 0 <= k < acc2.len() implies query_ok(#[trigger] acc2[k], lk) by {
                    if k < acc.len() {
                        assert(acc2[k] == acc[k]);
                    }
                }
                lemma_queries_from_ok(ctx, p, (n - 1) as nat, cap, llen, acc2, lk);
            }
        }
    }
}

/// The response to a query, read back from its wire form, repeats the
/// questions of the query: they are written in full, whatever the memo.
pub proof fn lemma_response_questions_read_back(
    s: ServerView,
    data: Seq<u8>,
    from: crate::net::SocketAddr,
    qlen: nat,
    alen: nat,
    llen: nat,
    lk: nat,
)
    requires
        llen >= 1,
        message_from(data, qlen, alen, llen) matches Ok((MessageView::Request(_), _)),
        on_request(s, message_from(data, qlen, alen, llen)->Ok_0.0->Request_0, from, alen) is Send,
    ensures
        ({
            let r = message_from(data, qlen, alen, llen)->Ok_0.0->Request_0;
            let bytes = enc_message(on_request(s, r, from, alen)->Send_0, lk);
            queries_from(bytes, 12, r.queries.len(), qlen, llen, Seq::empty()) matches Ok((qs, _))
                && same_queries(r.queries, qs)
        }),
{
    let r = message_from(data, qlen, alen, llen)->Ok_0.0->Request_0;
    let resp = on_request(s, r, from, alen)->Send_0->Response_0;
    assert(on_request(s, r, from, alen)->Send_0 == MessageView::Response(resp));
    assert(resp.queries == r.queries);
    let n = be_at(data, 4, 2);
    assert(queries_from(data, 12, n, qlen, llen, Seq::empty()) matches Ok((qs, _)) && qs == r.queries);
    lemma_queries_from_ok(data, 12, n, qlen, llen, Seq::empty(), lk);
    crate::wire::lemma_be_value_bound(data.subrange(4, 6));
    reveal_with_fuel(pow256, 3);
    assert(r.queries.len() <= n) by {
        lemma_queries_from_len(data, 12, n, qlen, llen, Seq::empty());
    }
    let bytes = enc_message(MessageView::Response(resp), lk);
    lemma_queries_memo(r.queries, 0, 12, lk);
    let qe = enc_queries_from(r.queries, 0, Seq::empty(), 12, lk).0;
    let ae = enc_answers_from(resp.answers, 0, Seq::empty(), 12 + qe.len() as int, lk).0;
    let h = enc_header(resp.id, resp.flags, r.queries.len(), resp.answers.len());
    assert(bytes == h + qe + ae);
    assert(h + qe + ae =~= h + (qe + ae));
    lemma_be16_back(resp.id);
    lemma_be16_back(resp.flags);
    lemma_be16_back(0);
    lemma_be16_back((r.queries.len() % 0x10000) as u16);
    lemma_be16_back((resp.answers.len() % 0x10000) as u16);
    assert(h.len() == 12);
    assert(bytes.subrange(12, 12 + qe.len() as int) =~= qe);
    lemma_queries_round_trip(r.queries, 0, bytes, 12, qlen, llen, Seq::empty(), lk);
    let (qs, _) = queries_from(bytes, 12, r.queries.len(), qlen, llen, Seq::empty())->Ok_0;
    assert forall|k: int| 0 <= k < r.queries.len() implies same_query(#[trigger] r.queries[k], qs[k]) by {
        assert(same_query(r.queries[0 + k], qs[0 + k]));
    }
}

proof fn lemma_queries_from_len(ctx: Seq<u8>, pos: int, n: nat, cap: nat, llen: nat, acc: Seq<QueryView>)
    ensures
        queries_from(ctx, pos, n, cap, llen, acc) matches Ok((qs, _)) ==> qs.len() == acc.len() + n,
    decreases n,
{
    if n > 0 {
        if let Ok((q, p)) = query_from(ctx, pos, llen) {
            lemma_queries_from_len(ctx, p, (n - 1) as nat, cap, llen, acc.push(q));
        }
    }
}

} // verus!

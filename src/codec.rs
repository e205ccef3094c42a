//! The wire form of the two message shapes: compact JSON text,
//! `{"mode":M}` for a request and
//! `{"mode":M,"data":"D","receiver":"R"}` for a response, where `M` is
//! `"All"` or `{"One":"ID"}`. Inside quotes `"` and `\` are written with a
//! backslash and bytes below 0x20 as `\u00xx` (lower-case hex); every other
//! byte stands for itself.
use vstd::prelude::*;
use crate::message::{ListMode, ListRequest, ListResponse, Message, ModeView, RequestView, ResponseView, MessageView};

verus! {

pub open spec fn hex_digit(n: u8) -> u8 {
    if n < 10 {
        (n + 48) as u8
    } else {
        (n + 87) as u8
    }
}

/// The bytes that stand for `b` inside a quoted string.
pub open spec fn escape_byte(b: u8) -> Seq<u8> {
    if b == 0x22 {
        seq![0x5cu8, 0x22u8]
    } else if b == 0x5c {
        seq![0x5cu8, 0x5cu8]
    } else if b < 0x20 {
        seq![0x5cu8, 0x75u8, 0x30u8, 0x30u8, hex_digit(b / 16), hex_digit(b % 16)]
    } else {
        seq![b]
    }
}

/// The body of a quoted string holding `s`.
pub open spec fn escape(s: Seq<u8>) -> Seq<u8>
    decreases s.len(),
{
    if s.len() == 0 {
        Seq::empty()
    } else {
        escape(s.drop_last()) + escape_byte(s.last())
    }
}

/// `{"mode":`
pub open spec fn lit_mode_open() -> Seq<u8> {
    seq![0x7bu8, 0x22u8, 0x6du8, 0x6fu8, 0x64u8, 0x65u8, 0x22u8, 0x3au8]
}

/// `"All"`
pub open spec fn lit_all() -> Seq<u8> {
    seq![0x22u8, 0x41u8, 0x6cu8, 0x6cu8, 0x22u8]
}

/// `{"One":"`
pub open spec fn lit_one_open() -> Seq<u8> {
    seq![0x7bu8, 0x22u8, 0x4fu8, 0x6eu8, 0x65u8, 0x22u8, 0x3au8, 0x22u8]
}

/// `"}`
pub open spec fn lit_quote_close() -> Seq<u8> {
    seq![0x22u8, 0x7du8]
}

/// `}`
pub open spec fn lit_close() -> Seq<u8> {
    seq![0x7du8]
}

/// `,"data":"`
pub open spec fn lit_data() -> Seq<u8> {
    seq![0x2cu8, 0x22u8, 0x64u8, 0x61u8, 0x74u8, 0x61u8, 0x22u8, 0x3au8, 0x22u8]
}

/// `","receiver":"`
pub open spec fn lit_receiver() -> Seq<u8> {
    seq![
        0x22u8, 0x2cu8, 0x22u8, 0x72u8, 0x65u8, 0x63u8, 0x65u8, 0x69u8, 0x76u8, 0x65u8,
        0x72u8, 0x22u8, 0x3au8, 0x22u8,
    ]
}

pub open spec fn encode_mode(m: ModeView) -> Seq<u8> {
    match m {
        ModeView::All => lit_all(),
        ModeView::One(id) => lit_one_open() + escape(id) + lit_quote_close(),
    }
}

pub open spec fn encode_request_spec(q: RequestView) -> Seq<u8> {
    lit_mode_open() + encode_mode(q.mode) + lit_close()
}

pub open spec fn encode_response_spec(r: ResponseView) -> Seq<u8> {
    lit_mode_open() + encode_mode(r.mode) + lit_data() + escape(r.data) + lit_receiver()
        + escape(r.receiver) + lit_quote_close()
}

pub open spec fn encode_message_spec(m: MessageView) -> Seq<u8> {
    match m {
        MessageView::Request(q) => encode_request_spec(q),
        MessageView::Response(r) => encode_response_spec(r),
    }
}

fn push_all(out: &mut Vec<u8>, lit: &Vec<u8>)
    ensures
        final(out)@ == old(out)@ + lit@,
{
    let mut i: usize = 0;
    while i < lit.len()
        invariant
            i <= lit.len(),
            out@ == old(out)@ + lit@.subrange(0, i as int),
        decreases lit.len() - i,
    {
        out.push(lit[i]);
        i = i + 1;
        assert(lit@.subrange(0, i as int) =~= lit@.subrange(0, i - 1) + seq![lit@[i - 1]]);
    }
    assert(lit@.subrange(0, i as int) =~= lit@);
}

fn hex_digit_exec(n: u8) -> (r: u8)
    requires
        n < 16,
    ensures
        r == hex_digit(n),
{
    if n < 10 {
        n + 48
    } else {
        n + 87
    }
}

fn push_escaped(out: &mut Vec<u8>, s: &Vec<u8>)
    ensures
        final(out)@ == old(out)@ + escape(s@),
{
    let mut i: usize = 0;
    while i < s.len()
        invariant
            i <= s.len(),
            out@ == old(out)@ + escape(s@.subrange(0, i as int)),
        decreases s.len() - i,
    {
        let b = s[i];
        let ghost before = out@;
        if b == 0x22 || b == 0x5c {
            out.push(0x5c);
            out.push(b);
        } else if b < 0x20 {
            out.push(0x5c);
            out.push(0x75);
            out.push(0x30);
            out.push(0x30);
            out.push(hex_digit_exec(b / 16));
            out.push(hex_digit_exec(b % 16));
        } else {
            out.push(b);
        }
        assert(out@ =~= before + escape_byte(b));
        let ghost next = s@.subrange(0, i + 1);
        assert(next.drop_last() =~= s@.subrange(0, i as int));
        i = i + 1;
        assert(out@ =~= old(out)@ + escape(s@.subrange(0, i as int)));
    }
    assert(s@.subrange(0, i as int) =~= s@);
}

fn push_mode(out: &mut Vec<u8>, m: &ListMode)
    ensures
        final(out)@ == old(out)@ + encode_mode(m@),
{
    match m {
        ListMode::All => {
            let lit = vec![0x22u8, 0x41u8, 0x6cu8, 0x6cu8, 0x22u8];
            assert(lit@ =~= lit_all());
            push_all(out, &lit);
        },
        ListMode::One(id) => {
            let open = vec![0x7bu8, 0x22u8, 0x4fu8, 0x6eu8, 0x65u8, 0x22u8, 0x3au8, 0x22u8];
            assert(open@ =~= lit_one_open());
            let close = vec![0x22u8, 0x7du8];
            assert(close@ =~= lit_quote_close());
            push_all(out, &open);
            push_escaped(out, id);
            push_all(out, &close);
            assert(final(out)@ =~= old(out)@ + encode_mode(m@));
        },
    }
}

fn mode_open() -> (r: Vec<u8>)
    ensures
        r@ == lit_mode_open(),
{
    let r = vec![0x7bu8, 0x22u8, 0x6du8, 0x6fu8, 0x64u8, 0x65u8, 0x22u8, 0x3au8];
    assert(r@ =~= lit_mode_open());
    r
}

/// The wire form of a query.
pub fn encode_request(q: &ListRequest) -> (r: Vec<u8>)
    ensures
        r@ == encode_request_spec(q@),
        r@ == encode_message_spec(MessageView::Request(q@)),
{
    let mut out = mode_open();
    push_mode(&mut out, &q.mode);
    out.push(0x7du8);
    assert(out@ =~= encode_request_spec(q@));
    out
}

/// The wire form of a reply.
pub fn encode_response(r: &ListResponse) -> (out: Vec<u8>)
    ensures
        out@ == encode_response_spec(r@),
        out@ == encode_message_spec(MessageView::Response(r@)),
{
    let mut out = mode_open();
    push_mode(&mut out, &r.mode);
    let data = vec![0x2cu8, 0x22u8, 0x64u8, 0x61u8, 0x74u8, 0x61u8, 0x22u8, 0x3au8, 0x22u8];
    assert(data@ =~= lit_data());
    push_all(&mut out, &data);
    push_escaped(&mut out, &r.data);
    let receiver = vec![
        0x22u8, 0x2cu8, 0x22u8, 0x72u8, 0x65u8, 0x63u8, 0x65u8, 0x69u8, 0x76u8, 0x65u8,
        0x72u8, 0x22u8, 0x3au8, 0x22u8,
    ];
    assert(receiver@ =~= lit_receiver());
    push_all(&mut out, &receiver);
    push_escaped(&mut out, &r.receiver);
    out.push(0x22u8);
    out.push(0x7du8);
    assert(out@ =~= encode_response_spec(r@));
    out
}


/// `p` stands in `t` from index `pos` on.
pub open spec fn occurs_at(t: Seq<u8>, pos: int, p: Seq<u8>) -> bool {
    0 <= pos && pos + p.len() <= t.len() && t.subrange(pos, pos + p.len()) == p
}

/// From index `pos` on, `t` holds a quoted string's body for `s` and its
/// closing quote.
pub open spec fn closed_at(t: Seq<u8>, pos: int, s: Seq<u8>) -> bool {
    occurs_at(t, pos, escape(s) + seq![0x22u8])
}

proof fn lemma_escape_single(x: u8)
    ensures
        escape(seq![x]) == escape_byte(x),
{
    assert(seq![x].drop_last() =~= Seq::<u8>::empty());
    assert(escape(Seq::<u8>::empty()) + escape_byte(x) =~= escape_byte(x));
}

proof fn lemma_escape_append(a: Seq<u8>, b: Seq<u8>)
    ensures
        escape(a + b) == escape(a) + escape(b),
    decreases b.len(),
{
    if b.len() == 0 {
        assert(a + b =~= a);
        assert(escape(a) + escape(b) =~= escape(a));
    } else {
        assert((a + b).drop_last() =~= a + b.drop_last());
        assert((a + b).last() == b.last());
        lemma_escape_append(a, b.drop_last());
        assert(escape(a + b) =~= escape(a) + escape(b));
    }
}

proof fn lemma_escape_first(s: Seq<u8>)
    requires
        s.len() > 0,
    ensures
        escape(s) == escape_byte(s[0]) + escape(s.drop_first()),
{
    assert(s =~= seq![s[0]] + s.drop_first());
    lemma_escape_append(seq![s[0]], s.drop_first());
    lemma_escape_single(s[0]);
}

proof fn lemma_escape_byte_shape(x: u8)
    ensures
        escape_byte(x).len() >= 1,
        escape_byte(x)[0] != 0x22,
        escape_byte(x)[0] == 0x5c || (escape_byte(x) == seq![x] && x >= 0x20 && x != 0x5c),
{
}

/// Two escaped bytes that start the same text are the same byte.
proof fn lemma_escape_byte_unique(x: u8, y: u8, u: Seq<u8>, v: Seq<u8>)
    requires
        escape_byte(x) + u == escape_byte(y) + v,
    ensures
        x == y,
        u == v,
{
    let t = escape_byte(x) + u;
    assert(t[0] == escape_byte(x)[0]);
    assert(t[0] == escape_byte(y)[0]);
    if escape_byte(x).len() > 1 && escape_byte(y).len() > 1 {
        assert(t[1] == escape_byte(x)[1]);
        assert(t[1] == escape_byte(y)[1]);
        if x < 0x20 && y < 0x20 {
            assert(t[4] == escape_byte(x)[4]);
            assert(t[4] == escape_byte(y)[4]);
            assert(t[5] == escape_byte(x)[5]);
            assert(t[5] == escape_byte(y)[5]);
            assert(x / 16 == y / 16);
            assert(x % 16 == y % 16);
        }
    }
    assert(x == y);
    assert(u =~= t.subrange(escape_byte(x).len() as int, t.len() as int));
    assert(v =~= t.subrange(escape_byte(y).len() as int, t.len() as int));
}

/// A quoted string's body ends at its first unescaped quote, so the text
/// that follows it and the string itself are both determined.
proof fn lemma_escape_unique(s1: Seq<u8>, s2: Seq<u8>, t1: Seq<u8>, t2: Seq<u8>)
    requires
        escape(s1) + seq![0x22u8] + t1 == escape(s2) + seq![0x22u8] + t2,
    ensures
        s1 == s2,
        t1 == t2,
    decreases s1.len(),
{
    let w = escape(s1) + seq![0x22u8] + t1;
    if s1.len() == 0 {
        assert(w[0] == 0x22);
        if s2.len() > 0 {
            lemma_escape_first(s2);
            lemma_escape_byte_shape(s2[0]);
            assert(w[0] == escape_byte(s2[0])[0]);
        }
        assert(s1 =~= s2);
        assert(t1 =~= w.drop_first());
        assert(t2 =~= w.drop_first());
    } else {
        lemma_escape_first(s1);
        lemma_escape_byte_shape(s1[0]);
        if s2.len() == 0 {
            assert(w[0] == escape_byte(s1[0])[0]);
        } else {
            lemma_escape_first(s2);
            let r1 = escape(s1.drop_first()) + seq![0x22u8] + t1;
            let r2 = escape(s2.drop_first()) + seq![0x22u8] + t2;
            assert(w =~= escape_byte(s1[0]) + r1);
            assert(w =~= escape_byte(s2[0]) + r2);
            lemma_escape_byte_unique(s1[0], s2[0], r1, r2);
            lemma_escape_unique(s1.drop_first(), s2.drop_first(), t1, t2);
            assert(s1 =~= seq![s1[0]] + s1.drop_first());
            assert(s2 =~= seq![s2[0]] + s2.drop_first());
        }
    }
}

proof fn lemma_mode_unique(m1: ModeView, m2: ModeView, t1: Seq<u8>, t2: Seq<u8>)
    requires
        encode_mode(m1) + t1 == encode_mode(m2) + t2,
    ensures
        m1 == m2,
        t1 == t2,
{
    let w = encode_mode(m1) + t1;
    assert(w[0] == encode_mode(m1)[0]);
    assert(w[0] == encode_mode(m2)[0]);
    match (m1, m2) {
        (ModeView::All, ModeView::All) => {
            assert(t1 =~= w.subrange(5, w.len() as int));
            assert(t2 =~= w.subrange(5, w.len() as int));
        },
        (ModeView::One(a), ModeView::One(b)) => {
            let r1 = escape(a) + seq![0x22u8] + (seq![0x7du8] + t1);
            let r2 = escape(b) + seq![0x22u8] + (seq![0x7du8] + t2);
            assert(w =~= lit_one_open() + r1);
            assert(w =~= lit_one_open() + r2);
            assert(r1 =~= w.subrange(8, w.len() as int));
            assert(r2 =~= w.subrange(8, w.len() as int));
            lemma_escape_unique(a, b, seq![0x7du8] + t1, seq![0x7du8] + t2);
            assert(t1 =~= (seq![0x7du8] + t1).drop_first());
            assert(t2 =~= (seq![0x7du8] + t2).drop_first());
        },
        _ => {},
    }
}

spec fn mode_of(m: MessageView) -> ModeView {
    match m {
        MessageView::Request(q) => q.mode,
        MessageView::Response(r) => r.mode,
    }
}

/// What follows the mode in a message's wire form.
spec fn tail_of(m: MessageView) -> Seq<u8> {
    match m {
        MessageView::Request(q) => lit_close(),
        MessageView::Response(r) => lit_data() + escape(r.data) + lit_receiver()
            + escape(r.receiver) + lit_quote_close(),
    }
}

proof fn lemma_response_tail_unique(r1: ResponseView, r2: ResponseView)
    requires
        tail_of(MessageView::Response(r1)) == tail_of(MessageView::Response(r2)),
    ensures
        r1.data == r2.data,
        r1.receiver == r2.receiver,
{
    let t = tail_of(MessageView::Response(r1));
    let rest = seq![0x2cu8, 0x22u8, 0x72u8, 0x65u8, 0x63u8, 0x65u8, 0x69u8, 0x76u8, 0x65u8,
        0x72u8, 0x22u8, 0x3au8, 0x22u8];
    let u1 = rest + escape(r1.receiver) + lit_quote_close();
    let u2 = rest + escape(r2.receiver) + lit_quote_close();
    assert(lit_receiver() =~= seq![0x22u8] + rest);
    assert(t.subrange(9, t.len() as int) =~= escape(r1.data) + seq![0x22u8] + u1);
    assert(t.subrange(9, t.len() as int) =~= escape(r2.data) + seq![0x22u8] + u2);
    lemma_escape_unique(r1.data, r2.data, u1, u2);
    let v1 = seq![0x7du8];
    assert(u1.subrange(13, u1.len() as int) =~= escape(r1.receiver) + seq![0x22u8] + v1);
    assert(u2.subrange(13, u2.len() as int) =~= escape(r2.receiver) + seq![0x22u8] + v1);
    lemma_escape_unique(r1.receiver, r2.receiver, v1, v1);
}

proof fn lemma_message_split(m: MessageView)
    ensures
        encode_message_spec(m) == lit_mode_open() + (encode_mode(mode_of(m)) + tail_of(m)),
{
    assert(encode_message_spec(m) =~= lit_mode_open() + (encode_mode(mode_of(m)) + tail_of(m)));
}

/// Distinct messages have distinct wire forms: a request never reads as a
/// response nor a response as a request, and each value is recovered from
/// its bytes.
pub proof fn lemma_encode_injective(m1: MessageView, m2: MessageView)
    requires
        encode_message_spec(m1) == encode_message_spec(m2),
    ensures
        m1 == m2,
{
    let w = encode_message_spec(m1);
    lemma_message_split(m1);
    lemma_message_split(m2);
    assert(encode_mode(mode_of(m1)) + tail_of(m1) =~= w.subrange(8, w.len() as int));
    assert(encode_mode(mode_of(m2)) + tail_of(m2) =~= w.subrange(8, w.len() as int));
    lemma_mode_unique(mode_of(m1), mode_of(m2), tail_of(m1), tail_of(m2));
    match m1 {
        MessageView::Request(q1) => {
            match m2 {
                MessageView::Request(q2) => {},
                MessageView::Response(r2) => {
                    assert(tail_of(m1).len() == 1);
                },
            }
        },
        MessageView::Response(r1) => {
            match m2 {
                MessageView::Request(q2) => {
                    assert(tail_of(m2).len() == 1);
                },
                MessageView::Response(r2) => {
                    lemma_response_tail_unique(r1, r2);
                },
            }
        },
    }
}

fn hex_value(c: u8) -> (r: Option<u8>)
    ensures
        r matches Some(v) ==> v < 16 && hex_digit(v) == c,
        forall|v: u8| v < 16 && hex_digit(v) == c ==> r == Some(v),
{
    if 0x30 <= c && c <= 0x39 {
        Some(c - 0x30)
    } else if 0x61 <= c && c <= 0x66 {
        Some(c - 0x57)
    } else {
        None
    }
}

/// Reads the escaped byte that starts at `i`, with the number of bytes it
/// takes; `None` where no escaped byte starts there (a closing quote, a raw
/// control byte, a malformed escape, the end of the text).
fn decode_unit(b: &[u8], i: usize) -> (r: Option<(u8, usize)>)
    requires
        i < b@.len(),
    ensures
        r matches Some((v, w)) ==> occurs_at(b@, i as int, escape_byte(v)) && w == escape_byte(v).len(),
        forall|y: u8| #[trigger] occurs_at(b@, i as int, escape_byte(y)) ==> r == Some((y, escape_byte(y).len() as usize)),
{
    let c = b[i];
    if c == 0x22 || c < 0x20 {
        proof {
            assert forall|y: u8| #[trigger] occurs_at(b@, i as int, escape_byte(y)) implies false by {
                assert(b@.subrange(i as int, i + escape_byte(y).len())[0] == b@[i as int]);
            }
        }
        return None;
    }
    if c != 0x5c {
        proof {
            assert(b@.subrange(i as int, i + 1) =~= seq![c]);
            assert forall|y: u8| #[trigger] occurs_at(b@, i as int, escape_byte(y)) implies y == c by {
                assert(b@.subrange(i as int, i + escape_byte(y).len())[0] == b@[i as int]);
            }
        }
        return Some((c, 1));
    }
    if i + 1 >= b.len() {
        proof {
            assert forall|y: u8| #[trigger] occurs_at(b@, i as int, escape_byte(y)) implies false by {
                assert(b@.subrange(i as int, i + escape_byte(y).len())[0] == b@[i as int]);
            }
        }
        return None;
    }
    let d = b[i + 1];
    if d == 0x22 || d == 0x5c {
        proof {
            assert(b@.subrange(i as int, i + 2) =~= seq![0x5cu8, d]);
            assert forall|y: u8| #[trigger] occurs_at(b@, i as int, escape_byte(y)) implies y == d by {
                let e = b@.subrange(i as int, i + escape_byte(y).len());
                assert(e[0] == b@[i as int]);
                assert(e[1] == b@[i + 1]);
            }
        }
        return Some((d, 2));
    }
    if d != 0x75 || b.len() - i <= 5 || b[i + 2] != 0x30 || b[i + 3] != 0x30 {
        proof {
            assert forall|y: u8| #[trigger] occurs_at(b@, i as int, escape_byte(y)) implies false by {
                let e = b@.subrange(i as int, i + escape_byte(y).len());
                assert(e[0] == b@[i as int]);
                assert(e[1] == b@[i + 1]);
                if y < 0x20 {
                    assert(e[2] == b@[i + 2]);
                    assert(e[3] == b@[i + 3]);
                }
            }
        }
        return None;
    }
    let h = b[i + 4];
    let l = b[i + 5];
    let hv = hex_value(h);
    let lv = hex_value(l);
    match (hv, lv) {
        (Some(hi), Some(lo)) => {
            if hi < 2 {
                let v: u8 = hi * 16 + lo;
                proof {
                    assert(v / 16 == hi);
                    assert(v % 16 == lo);
                    assert(b@.subrange(i as int, i + 6) =~= escape_byte(v));
                    assert forall|y: u8| #[trigger] occurs_at(b@, i as int, escape_byte(y)) implies y == v by {
                        let e = b@.subrange(i as int, i + escape_byte(y).len());
                        assert(e[0] == b@[i as int]);
                        assert(e[1] == b@[i + 1]);
                        assert(e[4] == b@[i + 4]);
                        assert(e[5] == b@[i + 5]);
                        assert(hex_digit(y / 16) == h);
                        assert(hex_digit(y % 16) == l);
                    }
                }
                return Some((v, 6));
            }
        },
        _ => {},
    }
    proof {
        assert forall|y: u8| #[trigger] occurs_at(b@, i as int, escape_byte(y)) implies false by {
            let e = b@.subrange(i as int, i + escape_byte(y).len());
            assert(e[0] == b@[i as int]);
            assert(e[1] == b@[i + 1]);
            assert(e[4] == b@[i + 4]);
            assert(e[5] == b@[i + 5]);
        }
    }
    None
}

proof fn lemma_closed_step(t: Seq<u8>, i: int, rest: Seq<u8>)
    ensures
        closed_at(t, i, rest) && rest.len() > 0 ==> occurs_at(t, i, escape_byte(rest[0]))
            && closed_at(t, i + escape_byte(rest[0]).len(), rest.drop_first()) && t[i] != 0x22,
        closed_at(t, i, rest) && rest.len() == 0 ==> 0 <= i < t.len() && t[i] == 0x22,
{
    if closed_at(t, i, rest) && rest.len() == 0 {
        assert(t.subrange(i, i + 1)[0] == t[i]);
    }
    if closed_at(t, i, rest) && rest.len() > 0 {
        lemma_closed_step_nonempty(t, i, rest);
    }
}

proof fn lemma_closed_step_nonempty(t: Seq<u8>, i: int, rest: Seq<u8>)
    requires
        closed_at(t, i, rest),
        rest.len() > 0,
    ensures
        occurs_at(t, i, escape_byte(rest[0])),
        closed_at(t, i + escape_byte(rest[0]).len(), rest.drop_first()),
        t[i] != 0x22,
{
    lemma_escape_first(rest);
    lemma_escape_byte_shape(rest[0]);
    let w = escape_byte(rest[0]).len() as int;
    let e = t.subrange(i, i + escape(rest).len() + 1);
    assert(e =~= escape_byte(rest[0]) + (escape(rest.drop_first()) + seq![0x22u8]));
    assert(e[0] == t[i]);
    assert(t.subrange(i, i + w) =~= e.subrange(0, w));
    assert(e.subrange(0, w) =~= escape_byte(rest[0]));
    assert(t.subrange(i + w, i + w + escape(rest.drop_first()).len() + 1) =~= e.subrange(w, e.len() as int));
    assert(e.subrange(w, e.len() as int) =~= escape(rest.drop_first()) + seq![0x22u8]);
}

/// Reads a quoted string's body from `pos` up to its closing quote, and
/// gives the string and the index of that quote.
fn parse_escaped(b: &[u8], pos: usize, Ghost(target): Ghost<Seq<u8>>) -> (r: Option<(Vec<u8>, usize)>)
    requires
        pos <= b@.len(),
    ensures
        r matches Some((s, end)) ==> end == pos + escape(s@).len() && closed_at(b@, pos as int, s@),
        closed_at(b@, pos as int, target) ==> (r matches Some((s, end)) && s@ == target
            && end == pos + escape(target).len()),
{
    let mut out: Vec<u8> = Vec::new();
    let mut i: usize = pos;
    proof {
        assert(target.subrange(0, 0) =~= out@);
        assert(target.subrange(0, target.len() as int) =~= target);
        assert(b@.subrange(pos as int, pos as int) =~= escape(out@));
    }
    while i < b.len()
        invariant
            pos <= i <= b@.len(),
            b@.subrange(pos as int, i as int) == escape(out@),
            closed_at(b@, pos as int, target) ==> out@.len() <= target.len()
                && out@ == target.subrange(0, out@.len() as int)
                && closed_at(b@, i as int, target.subrange(out@.len() as int, target.len() as int)),
        decreases b@.len() - i,
    {
        let ghost rest = target.subrange(out@.len() as int, target.len() as int);
        let ghost on_target = closed_at(b@, pos as int, target);
        proof {
            lemma_closed_step(b@, i as int, rest);
        }
        if b[i] == 0x22 {
            proof {
                assert(b@.subrange(pos as int, i + 1) =~= escape(out@) + seq![0x22u8]);
                if on_target {
                    assert(rest.len() == 0);
                    assert(out@ =~= target);
                }
            }
            return Some((out, i));
        }
        match decode_unit(b, i) {
            None => {
                return None;
            },
            Some((v, w)) => {
                let ghost before = out@;
                out.push(v);
                proof {
                    assert(out@.drop_last() =~= before);
                    assert(b@.subrange(pos as int, i + w) =~= b@.subrange(pos as int, i as int) + b@.subrange(i as int, i + w));
                    if on_target {
                        assert(v == rest[0]);
                        assert(out@ =~= target.subrange(0, out@.len() as int));
                        assert(target.subrange(out@.len() as int, target.len() as int) =~= rest.drop_first());
                    }
                }
                i = i + w;
            },
        }
    }
    proof {
        if closed_at(b@, pos as int, target) {
            let rest = target.subrange(out@.len() as int, target.len() as int);
            assert(i + escape(rest).len() + 1 <= b@.len());
        }
    }
    None
}

/// Whether `lit` stands in `b` from `pos` on.
fn matches_at(b: &[u8], pos: usize, lit: &Vec<u8>) -> (r: bool)
    ensures
        r == occurs_at(b@, pos as int, lit@),
{
    if pos > b.len() || b.len() - pos < lit.len() {
        return false;
    }
    let n = b.len();
    let mut k: usize = 0;
    while k < lit.len()
        invariant
            n == b@.len(),
            k <= lit@.len(),
            pos + lit@.len() <= b@.len(),
            forall|j: int| 0 <= j < k ==> b@[pos + j] == lit@[j],
        decreases lit@.len() - k,
    {
        if b[pos + k] != lit[k] {
            assert(b@.subrange(pos as int, pos + lit@.len())[k as int] == b@[pos + k]);
            return false;
        }
        k = k + 1;
    }
    assert(b@.subrange(pos as int, pos + lit@.len()) =~= lit@);
    true
}

proof fn lemma_piece(a: Seq<u8>, p: Seq<u8>, c: Seq<u8>)
    ensures
        occurs_at(a + p + c, a.len() as int, p),
{
    assert((a + p + c).subrange(a.len() as int, (a.len() + p.len()) as int) =~= p);
}

proof fn lemma_extend(t: Seq<u8>, i: int, p: Seq<u8>)
    requires
        occurs_at(t, i, p),
    ensures
        t.subrange(0, i + p.len()) == t.subrange(0, i) + p,
{
    assert(t.subrange(0, i + p.len()) =~= t.subrange(0, i) + t.subrange(i, i + p.len()));
}

proof fn lemma_closed_occurs(t: Seq<u8>, i: int, s: Seq<u8>)
    requires
        closed_at(t, i, s),
    ensures
        occurs_at(t, i, escape(s)),
        t[i + escape(s).len()] == 0x22,
{
    let e = t.subrange(i, i + escape(s).len() + 1);
    assert(e == escape(s) + seq![0x22u8]);
    assert(t.subrange(i, i + escape(s).len()) =~= e.subrange(0, escape(s).len() as int));
    assert(e.subrange(0, escape(s).len() as int) =~= escape(s));
    assert(e[escape(s).len() as int] == 0x22);
}

/// Reads a mode from `pos` on, and gives it with the index just past it.
fn parse_mode(b: &[u8], pos: usize, Ghost(target): Ghost<ModeView>) -> (r: Option<(ListMode, usize)>)
    requires
        pos <= b@.len(),
    ensures
        r matches Some((m, end)) ==> end == pos + encode_mode(m@).len() && occurs_at(b@, pos as int, encode_mode(m@)),
        occurs_at(b@, pos as int, encode_mode(target)) ==> (r matches Some((m, end)) && m@ == target),
{
    let n = b.len();
    assert(n == b@.len());
    let all = vec![0x22u8, 0x41u8, 0x6cu8, 0x6cu8, 0x22u8];
    assert(all@ =~= lit_all());
    if matches_at(b, pos, &all) {
        proof {
            if occurs_at(b@, pos as int, encode_mode(target)) {
                assert(b@.subrange(pos as int, pos + encode_mode(target).len())[0] == b@[pos as int]);
                assert(b@.subrange(pos as int, pos + 5)[0] == b@[pos as int]);
            }
        }
        return Some((ListMode::All, pos + 5));
    }
    let open = vec![0x7bu8, 0x22u8, 0x4fu8, 0x6eu8, 0x65u8, 0x22u8, 0x3au8, 0x22u8];
    assert(open@ =~= lit_one_open());
    let ghost id_target = match target {
        ModeView::One(id) => id,
        ModeView::All => Seq::empty(),
    };
    proof {
        if occurs_at(b@, pos as int, encode_mode(target)) && target is One {
            let w = b@.subrange(0, pos as int) + encode_mode(target) + b@.subrange(pos + encode_mode(target).len(), b@.len() as int);
            assert(b@ =~= w);
            assert(w =~= b@.subrange(0, pos as int) + lit_one_open() + (escape(id_target) + seq![0x22u8, 0x7du8] + b@.subrange(pos + encode_mode(target).len(), b@.len() as int)));
            lemma_piece(b@.subrange(0, pos as int), lit_one_open(), escape(id_target) + seq![0x22u8, 0x7du8] + b@.subrange(pos + encode_mode(target).len(), b@.len() as int));
            assert(w =~= (b@.subrange(0, pos as int) + lit_one_open()) + (escape(id_target) + seq![0x22u8]) + (seq![0x7du8] + b@.subrange(pos + encode_mode(target).len(), b@.len() as int)));
            lemma_piece(b@.subrange(0, pos as int) + lit_one_open(), escape(id_target) + seq![0x22u8], seq![0x7du8] + b@.subrange(pos + encode_mode(target).len(), b@.len() as int));
        }
    }
    if !matches_at(b, pos, &open) {
        return None;
    }
    match parse_escaped(b, pos + 8, Ghost(id_target)) {
        None => None,
        Some((id, end)) => {
            if end + 1 < b.len() && b[end + 1] == 0x7d {
                proof {
                    lemma_closed_occurs(b@, pos + 8, id@);
                    let m = ModeView::One(id@);
                    assert(b@.subrange(pos as int, end + 2) =~= b@.subrange(pos as int, pos + 8) + b@.subrange(pos + 8, end as int) + seq![b@[end as int], b@[end + 1]]);
                    assert(b@.subrange(pos as int, end + 2) =~= encode_mode(m));
                }
                Some((ListMode::One(id), end + 2))
            } else {
                proof {
                    if occurs_at(b@, pos as int, encode_mode(target)) {
                        let e = b@.subrange(pos as int, pos + encode_mode(target).len());
                        assert(e[e.len() - 1] == 0x7d);
                    }
                }
                None
            }
        },
    }
}

fn decode_request(b: &[u8], Ghost(target): Ghost<RequestView>) -> (r: Option<ListRequest>)
    ensures
        r matches Some(q) ==> b@ == encode_request_spec(q@),
        b@ == encode_request_spec(target) ==> (r matches Some(q) && q@ == target),
{
    let n = b.len();
    assert(n == b@.len());
    let open = mode_open();
    proof {
        if b@ == encode_request_spec(target) {
            lemma_piece(Seq::empty(), lit_mode_open(), encode_mode(target.mode) + lit_close());
            assert(b@ =~= Seq::<u8>::empty() + lit_mode_open() + (encode_mode(target.mode) + lit_close()));
            lemma_piece(lit_mode_open(), encode_mode(target.mode), lit_close());
        }
    }
    if !matches_at(b, 0, &open) {
        return None;
    }
    match parse_mode(b, 8, Ghost(target.mode)) {
        None => None,
        Some((mode, end)) => {
            if n - end == 1 && b[end] == 0x7d {
                let q = ListRequest { mode };
                proof {
                    lemma_extend(b@, 0, lit_mode_open());
                    lemma_extend(b@, 8, encode_mode(mode@));
                    assert(b@ =~= b@.subrange(0, end as int) + seq![b@[end as int]]);
                    assert(b@ =~= encode_request_spec(q@));
                }
                Some(q)
            } else {
                None
            }
        },
    }
}

#[verifier::rlimit(100)]
proof fn lemma_response_layout(t: Seq<u8>, target: ResponseView)
    requires
        t == encode_response_spec(target),
    ensures
        occurs_at(t, 0, lit_mode_open()),
        occurs_at(t, 8, encode_mode(target.mode)),
        occurs_at(t, (8 + encode_mode(target.mode).len()) as int, lit_data()),
        closed_at(t, (17 + encode_mode(target.mode).len()) as int, target.data),
        occurs_at(t, (17 + encode_mode(target.mode).len() + escape(target.data).len()) as int, lit_receiver()),
        closed_at(t, (31 + encode_mode(target.mode).len() + escape(target.data).len()) as int, target.receiver),
        t.len() == 33 + encode_mode(target.mode).len() + escape(target.data).len() + escape(target.receiver).len(),
        t[t.len() - 1] == 0x7d,
{
    let x1 = encode_mode(target.mode);
    let x3 = escape(target.data);
    let x5 = escape(target.receiver);
    let r4 = lit_receiver().drop_first();
    let a2 = lit_mode_open() + x1;
    let a3 = a2 + lit_data();
    let a5 = a3 + x3 + lit_receiver();
    assert(lit_receiver() =~= seq![0x22u8] + r4);
    assert(t =~= Seq::<u8>::empty() + lit_mode_open() + (x1 + lit_data() + x3 + lit_receiver() + x5 + lit_quote_close()));
    lemma_piece(Seq::empty(), lit_mode_open(), x1 + lit_data() + x3 + lit_receiver() + x5 + lit_quote_close());
    assert(t =~= lit_mode_open() + x1 + (lit_data() + x3 + lit_receiver() + x5 + lit_quote_close()));
    lemma_piece(lit_mode_open(), x1, lit_data() + x3 + lit_receiver() + x5 + lit_quote_close());
    assert(t =~= a2 + lit_data() + (x3 + lit_receiver() + x5 + lit_quote_close()));
    lemma_piece(a2, lit_data(), x3 + lit_receiver() + x5 + lit_quote_close());
    assert(t =~= a3 + (x3 + seq![0x22u8]) + (r4 + x5 + lit_quote_close()));
    lemma_piece(a3, x3 + seq![0x22u8], r4 + x5 + lit_quote_close());
    assert(t =~= a3 + x3 + lit_receiver() + (x5 + lit_quote_close()));
    lemma_piece(a3 + x3, lit_receiver(), x5 + lit_quote_close());
    assert(t =~= a5 + (x5 + seq![0x22u8]) + seq![0x7du8]);
    lemma_piece(a5, x5 + seq![0x22u8], seq![0x7du8]);
}

proof fn lemma_response_join(t: Seq<u8>, x: ResponseView, e0: int, e1: int, e2: int)
    requires
        occurs_at(t, 0, lit_mode_open()),
        e0 == 8 + encode_mode(x.mode).len(),
        occurs_at(t, 8, encode_mode(x.mode)),
        occurs_at(t, e0, lit_data()),
        e1 == e0 + 9 + escape(x.data).len(),
        closed_at(t, e0 + 9, x.data),
        occurs_at(t, e1, lit_receiver()),
        e2 == e1 + 14 + escape(x.receiver).len(),
        closed_at(t, e1 + 14, x.receiver),
        t.len() == e2 + 2,
        t[e2 + 1] == 0x7d,
    ensures
        t == encode_response_spec(x),
{
    lemma_closed_occurs(t, e0 + 9, x.data);
    lemma_closed_occurs(t, e1 + 14, x.receiver);
    lemma_extend(t, 0, lit_mode_open());
    lemma_extend(t, 8, encode_mode(x.mode));
    lemma_extend(t, e0, lit_data());
    lemma_extend(t, e0 + 9, escape(x.data));
    lemma_extend(t, e1, lit_receiver());
    lemma_extend(t, e1 + 14, escape(x.receiver));
    assert(t =~= t.subrange(0, e2) + seq![t[e2], t[e2 + 1]]);
    assert(t =~= encode_response_spec(x));
}

/// Reads `,"data":"D","receiver":"R"}` from `e0` to the end of `b`.
fn parse_response_tail(b: &[u8], e0: usize, Ghost(data_t): Ghost<Seq<u8>>, Ghost(recv_t): Ghost<Seq<u8>>) -> (r: Option<(Vec<u8>, Vec<u8>, usize, usize)>)
    requires
        e0 <= b@.len(),
    ensures
        r matches Some((data, receiver, e1, e2)) ==> occurs_at(b@, e0 as int, lit_data())
            && e1 == e0 + 9 + escape(data@).len() && closed_at(b@, e0 + 9, data@)
            && occurs_at(b@, e1 as int, lit_receiver())
            && e2 == e1 + 14 + escape(receiver@).len() && closed_at(b@, e1 + 14, receiver@)
            && b@.len() == e2 + 2 && b@[e2 + 1] == 0x7d,
        occurs_at(b@, e0 as int, lit_data()) && closed_at(b@, e0 + 9, data_t)
            && occurs_at(b@, e0 + 9 + escape(data_t).len(), lit_receiver())
            && closed_at(b@, e0 + 23 + escape(data_t).len(), recv_t)
            && b@.len() == e0 + 25 + escape(data_t).len() + escape(recv_t).len()
            && b@[b@.len() - 1] == 0x7d
            ==> (r matches Some((data, receiver, e1, e2)) && data@ == data_t && receiver@ == recv_t),
{
    let n = b.len();
    assert(n == b@.len());
    let data_lit = vec![0x2cu8, 0x22u8, 0x64u8, 0x61u8, 0x74u8, 0x61u8, 0x22u8, 0x3au8, 0x22u8];
    assert(data_lit@ =~= lit_data());
    if !matches_at(b, e0, &data_lit) {
        return None;
    }
    let (data, e1) = match parse_escaped(b, e0 + 9, Ghost(data_t)) {
        None => {
            return None;
        },
        Some(p) => p,
    };
    let receiver_lit = vec![
        0x22u8, 0x2cu8, 0x22u8, 0x72u8, 0x65u8, 0x63u8, 0x65u8, 0x69u8, 0x76u8, 0x65u8,
        0x72u8, 0x22u8, 0x3au8, 0x22u8,
    ];
    assert(receiver_lit@ =~= lit_receiver());
    if !matches_at(b, e1, &receiver_lit) {
        return None;
    }
    let (receiver, e2) = match parse_escaped(b, e1 + 14, Ghost(recv_t)) {
        None => {
            return None;
        },
        Some(p) => p,
    };
    if n - e2 != 2 || b[e2 + 1] != 0x7d {
        return None;
    }
    Some((data, receiver, e1, e2))
}

fn decode_response(b: &[u8], Ghost(target): Ghost<ResponseView>) -> (r: Option<ListResponse>)
    ensures
        r matches Some(x) ==> b@ == encode_response_spec(x@),
        b@ == encode_response_spec(target) ==> (r matches Some(x) && x@ == target),
{
    let n = b.len();
    assert(n == b@.len());
    proof {
        if b@ == encode_response_spec(target) {
            lemma_response_layout(b@, target);
        }
    }
    let open = mode_open();
    if !matches_at(b, 0, &open) {
        return None;
    }
    let (mode, e0) = match parse_mode(b, 8, Ghost(target.mode)) {
        None => {
            return None;
        },
        Some(p) => p,
    };
    match parse_response_tail(b, e0, Ghost(target.data), Ghost(target.receiver)) {
        None => None,
        Some((data, receiver, e1, e2)) => {
            let x = ListResponse { mode, data, receiver };
            proof {
                lemma_response_join(b@, x@, e0 as int, e1 as int, e2 as int);
            }
            Some(x)
        },
    }
}

/// The message whose wire form `b` is, if any.
pub open spec fn decode_spec(b: Seq<u8>) -> Option<MessageView> {
    if exists|m: MessageView| encode_message_spec(m) == b {
        Some(choose|m: MessageView| encode_message_spec(m) == b)
    } else {
        None
    }
}

/// Encoding then decoding gives the value back, and it comes back with its
/// own shape: a request as a request, a response as a response.
pub proof fn lemma_round_trip(m: MessageView)
    ensures
        decode_spec(encode_message_spec(m)) == Some(m),
{
    let b = encode_message_spec(m);
    assert(exists|x: MessageView| encode_message_spec(x) == b);
    let c = choose|x: MessageView| encode_message_spec(x) == b;
    lemma_encode_injective(c, m);
}

/// Reads an inbound payload: as a reply where it is one, else as a query.
/// The text of each message, and nothing else, reads back as that message;
/// any other payload is left alone.
pub fn decode(b: &[u8]) -> (r: Option<Message>)
    ensures
        r matches Some(m) ==> b@ == encode_message_spec(m@) && decode_spec(b@) == Some(m@),
        r is None ==> decode_spec(b@) is None,
        forall|m: MessageView| #[trigger] encode_message_spec(m) == b@ ==> (r matches Some(x) && x@ == m),
{
    let ghost resp_target = choose|x: ResponseView| encode_response_spec(x) == b@;
    let ghost req_target = choose|x: RequestView| encode_request_spec(x) == b@;
    match decode_response(b, Ghost(resp_target)) {
        Some(x) => {
            proof {
                assert forall|m: MessageView| #[trigger] encode_message_spec(m) == b@ implies m == MessageView::Response(x@) by {
                    assert(encode_message_spec(MessageView::Response(x@)) == b@);
                    lemma_encode_injective(m, MessageView::Response(x@));
                }
            }
            proof {
                lemma_round_trip(MessageView::Response(x@));
            }
            Some(Message::Response(x))
        },
        None => {
            let q = decode_request(b, Ghost(req_target));
            match q {
                Some(q) => {
                    proof {
                        assert forall|m: MessageView| #[trigger] encode_message_spec(m) == b@ implies m == MessageView::Request(q@) by {
                            assert(encode_message_spec(MessageView::Request(q@)) == b@);
                            lemma_encode_injective(m, MessageView::Request(q@));
                        }
                    }
                    proof {
                        lemma_round_trip(MessageView::Request(q@));
                    }
                    Some(Message::Request(q))
                },
                None => {
                    proof {
                        assert forall|m: MessageView| #[trigger] encode_message_spec(m) == b@ implies false by {
                            match m {
                                MessageView::Request(x) => {
                                    assert(encode_request_spec(x) == b@);
                                },
                                MessageView::Response(x) => {
                                    assert(encode_response_spec(x) == b@);
                                },
                            }
                        }
                    }
                    None
                },
            }
        },
    }
}

} // verus!

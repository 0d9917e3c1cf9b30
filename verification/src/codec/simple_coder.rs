//! A byte-stuffing coder: a frame is `HEAD`, the payload with every `HEAD`,
//! `END` and `ESC` byte replaced by `ESC` and a substitute, then `END`.

use super::{Decoder, Encoder};
use crate::byte_buf::{
    bytes_as_slice, bytes_mut_clear, bytes_mut_clone, bytes_mut_freeze, bytes_mut_get_u8,
    bytes_mut_len, bytes_mut_new, bytes_mut_put_u8, bytes_mut_reserve, bytes_mut_view,
    bytes_view,
};
use bytes::{Bytes, BytesMut};
use vstd::prelude::*;

verus! {

/// Opens a frame.
pub const HEAD: u8 = 40;

/// Closes a frame.
pub const END: u8 = 41;

/// Announces an escaped byte.
pub const ESC: u8 = 43;

/// Stands for `HEAD` after `ESC`.
pub const ESC_HEAD: u8 = 48;

/// Stands for `END` after `ESC`.
pub const ESC_END: u8 = 49;

/// The most bytes one call of `decode` reads, and the most payload bytes a
/// partial frame may hold between calls.
pub const MAX_LEN: u16 = 1024;

/// The byte-stuffing coder. Its reading state persists between calls of
/// `decode`, so a frame may arrive in pieces.
pub struct SimpleCoder {
    state_read: StateRead,
    buff: BytesMut,
}

/// Where the reader stands in a frame.
#[derive(Debug, Clone, Copy, PartialEq, Eq)]
pub enum StateRead {
    /// Waiting for `HEAD`.
    Head,
    /// Reading payload bytes.
    Data,
    /// The last byte was `ESC`.
    Esc,
}

/// The reading state of a `SimpleCoder`: where it stands and the payload
/// bytes read so far of the current frame.
pub struct SimpleState {
    pub state: StateRead,
    pub buff: Seq<u8>,
}

impl View for SimpleCoder {
    type V = SimpleState;

    closed spec fn view(&self) -> SimpleState {
        SimpleState { state: self.state_read, buff: bytes_mut_view(self.buff) }
    }
}

/// The state of a fresh coder: waiting for `HEAD`, nothing read.
pub open spec fn simple_initial() -> SimpleState {
    SimpleState { state: StateRead::Head, buff: Seq::empty() }
}

/// What holds of the reading state between calls: nothing is kept while
/// waiting for `HEAD`, and a partial frame holds at most `MAX_LEN` bytes.
pub open spec fn simple_wf(m: SimpleState) -> bool {
    &&& m.state == StateRead::Head ==> m.buff.len() == 0
    &&& m.buff.len() <= 1024
}

/// What one payload byte becomes in a frame.
pub open spec fn simple_escape_byte(b: u8) -> Seq<u8> {
    if b == HEAD {
        seq![ESC, ESC_HEAD]
    } else if b == END {
        seq![ESC, ESC_END]
    } else if b == ESC {
        seq![ESC, ESC]
    } else {
        seq![b]
    }
}

/// What a payload becomes in a frame, byte by byte.
pub open spec fn simple_escape(data: Seq<u8>) -> Seq<u8>
    decreases data.len(),
{
    if data.len() == 0 {
        Seq::empty()
    } else {
        simple_escape(data.drop_last()) + simple_escape_byte(data.last())
    }
}

/// The frame that carries `data`.
pub open spec fn simple_frame(data: Seq<u8>) -> Seq<u8> {
    seq![HEAD] + simple_escape(data) + seq![END]
}

/// The reading state after one byte, and the payload it completes, if any.
pub open spec fn simple_step(m: SimpleState, value: u8) -> (SimpleState, Option<Seq<u8>>) {
    match m.state {
        StateRead::Head => {
            if value == HEAD {
                (SimpleState { state: StateRead::Data, buff: m.buff }, None)
            } else {
                (m, None)
            }
        },
        StateRead::Esc => {
            if value == ESC_HEAD {
                (SimpleState { state: StateRead::Data, buff: m.buff.push(HEAD) }, None)
            } else if value == ESC_END {
                (SimpleState { state: StateRead::Data, buff: m.buff.push(END) }, None)
            } else if value == ESC {
                (SimpleState { state: StateRead::Data, buff: m.buff.push(ESC) }, None)
            } else {
                (simple_initial(), None)
            }
        },
        StateRead::Data => {
            if value == HEAD {
                (SimpleState { state: StateRead::Data, buff: Seq::empty() }, None)
            } else if value == END {
                (simple_initial(), Some(m.buff))
            } else if value == ESC {
                (SimpleState { state: StateRead::Esc, buff: m.buff }, None)
            } else {
                (SimpleState { state: StateRead::Data, buff: m.buff.push(value) }, None)
            }
        },
    }
}

/// Reads at most `n` bytes of `src` one by one, stopping after the byte that
/// completes a payload; gives the state, the bytes not read, and the payload.
pub open spec fn simple_scan(m: SimpleState, src: Seq<u8>, n: nat) -> (SimpleState, Seq<u8>, Option<Seq<u8>>)
    decreases n,
{
    if n == 0 || src.len() == 0 {
        (m, src, None)
    } else {
        let (m1, out) = simple_step(m, src[0]);
        if out is Some {
            (m1, src.drop_first(), out)
        } else {
            simple_scan(m1, src.drop_first(), (n - 1) as nat)
        }
    }
}

/// One call of `decode`: at most `MAX_LEN` bytes are read; when no payload
/// was completed and the partial frame has grown past `MAX_LEN` bytes, it is
/// dropped and the reader waits for `HEAD` again.
pub open spec fn simple_decode(m: SimpleState, src: Seq<u8>) -> (SimpleState, Seq<u8>, Option<Seq<u8>>) {
    let (m1, rest, out) = simple_scan(m, src, 1024);
    if out is None && m1.buff.len() > 1024 {
        (simple_initial(), rest, None)
    } else {
        (m1, rest, out)
    }
}

impl SimpleCoder {
    /// A coder waiting for `HEAD`.
    pub fn new() -> (r: SimpleCoder)
        ensures
            r@ == simple_initial(),
    {
        let buff = bytes_mut_new();
        let state_read = StateRead::Head;
        SimpleCoder { state_read, buff }
    }

    /// Drops any partial frame and waits for `HEAD` again.
    pub fn reset_read(&mut self)
        ensures
            final(self)@ == simple_initial(),
    {
        self.state_read = StateRead::Head;
        bytes_mut_clear(&mut self.buff);
    }

    /// The reading state holds between calls.
    pub open spec fn wf(&self) -> bool {
        simple_wf(self@)
    }
}

proof fn lemma_escape_len(data: Seq<u8>)
    ensures
        simple_escape(data).len() <= 2 * data.len(),
    decreases data.len(),
{
    if data.len() > 0 {
        lemma_escape_len(data.drop_last());
    }
}

impl Encoder for SimpleCoder {
    type Item = Bytes;

    open spec fn encode_requires(&self, data: Bytes, dst: Seq<u8>) -> bool {
        dst.len() + 2 * bytes_view(data).len() + 2 <= isize::MAX
    }

    /// Appends the frame that carries `data` to `dst`.
    fn encode(&mut self, data: Self::Item, dst: &mut BytesMut) -> (r: Result<(), ()>)
        ensures
            r == Ok::<(), ()>(()),
            bytes_mut_view(*final(dst)) == bytes_mut_view(*old(dst)) + simple_frame(bytes_view(data)),
            final(self)@ == old(self)@,
    {
        let data = bytes_as_slice(&data);
        let ghost d0 = bytes_mut_view(*dst);

        bytes_mut_put_u8(dst, HEAD);

        let mut i: usize = 0;
        while i < data.len()
            invariant
                i <= data@.len(),
                d0.len() + 2 * data@.len() + 2 <= isize::MAX,
                bytes_mut_view(*dst) == d0 + seq![HEAD] + simple_escape(data@.take(i as int)),
            decreases data@.len() - i,
        {
            let x = data[i];
            proof {
                lemma_escape_len(data@.take(i as int));
                assert(data@.take(i + 1).drop_last() =~= data@.take(i as int));
            }
            if x == HEAD {
                bytes_mut_put_u8(dst, ESC);
                bytes_mut_put_u8(dst, ESC_HEAD);
            } else if x == END {
                bytes_mut_put_u8(dst, ESC);
                bytes_mut_put_u8(dst, ESC_END);
            } else if x == ESC {
                bytes_mut_put_u8(dst, ESC);
                bytes_mut_put_u8(dst, ESC);
            } else {
                bytes_mut_put_u8(dst, x);
            }
            assert(bytes_mut_view(*dst) =~= d0 + seq![HEAD] + simple_escape(data@.take(i + 1)));
            i = i + 1;
        }
        proof {
            lemma_escape_len(data@);
        }
        assert(data@.take(data@.len() as int) =~= data@);
        bytes_mut_put_u8(dst, END);
        assert(bytes_mut_view(*dst) =~= d0 + simple_frame(data@));
        Ok(())
    }
}

impl Decoder for SimpleCoder {
    type Item = Bytes;

    open spec fn decode_requires(&self, src: Seq<u8>) -> bool {
        self.wf()
    }

    /// Reads at most `MAX_LEN` bytes from the front of `src`, and returns the
    /// payload of the frame they complete, if any; the bytes after it stay
    /// in `src`.
    fn decode(&mut self, src: &mut BytesMut) -> (r: Result<Option<Self::Item>, ()>)
        ensures
            final(self).wf(),
            ({
                let (m1, rest, out) = simple_decode(old(self)@, bytes_mut_view(*old(src)));
                &&& final(self)@ == m1
                &&& bytes_mut_view(*final(src)) == rest
                &&& match r {
                    Ok(Some(b)) => out == Some(bytes_view(b)),
                    Ok(None) => out is None,
                    Err(_) => false,
                }
            }),
    {
        let ghost m0 = self@;
        let ghost s0 = bytes_mut_view(*src);
        let mut n = bytes_mut_len(src);

        if n > 1024 {
            n = 1024;
        }

        let mut i: usize = 0;
        while i < n
            invariant
                m0 == old(self)@,
                s0 == bytes_mut_view(*old(src)),
                n <= 1024,
                n <= s0.len(),
                i <= n,
                bytes_mut_view(*src) == s0.skip(i as int),
                simple_scan(m0, s0, 1024) == simple_scan(self@, bytes_mut_view(*src), (1024 - i) as nat),
                self@.state == StateRead::Head ==> self@.buff.len() == 0,
                self@.buff.len() <= 1024 + i,
            decreases n - i,
        {
            let ghost m = self@;
            let ghost s = bytes_mut_view(*src);
            let value = bytes_mut_get_u8(src);
            assert(s.drop_first() =~= s0.skip(i + 1));
            let ghost (m1, out) = simple_step(m, value);

            match self.state_read {
                StateRead::Head => {
                    if value == HEAD {
                        self.state_read = StateRead::Data;
                    }
                },
                StateRead::Esc => {
                    self.state_read = StateRead::Data;
                    if value == ESC_HEAD {
                        bytes_mut_put_u8(&mut self.buff, HEAD);
                    } else if value == ESC_END {
                        bytes_mut_put_u8(&mut self.buff, END);
                    } else if value == ESC {
                        bytes_mut_put_u8(&mut self.buff, ESC);
                    } else {
                        self.state_read = StateRead::Head;
                        bytes_mut_clear(&mut self.buff);
                    }
                },
                StateRead::Data => {
                    if value == HEAD {
                        // A new frame starts: the partial one is dropped.
                        bytes_mut_clear(&mut self.buff);
                        self.state_read = StateRead::Data;
                    } else if value == END {
                        self.state_read = StateRead::Head;
                        let result = Ok(Some(bytes_mut_freeze(bytes_mut_clone(&self.buff))));
                        bytes_mut_clear(&mut self.buff);
                        assert(self@ == m1);
                        assert(s[0] == value);
                        assert(simple_scan(m, s, (1024 - i) as nat) == (m1, s.drop_first(), out));
                        return result;
                    } else if value == ESC {
                        bytes_mut_reserve(&mut self.buff, 1);
                        self.state_read = StateRead::Esc;
                    } else {
                        bytes_mut_reserve(&mut self.buff, 1);
                        bytes_mut_put_u8(&mut self.buff, value);
                    }
                },
            }
            assert(self@ == m1);
            i = i + 1;
        }
        if bytes_mut_len(&self.buff) > 1024 {
            self.state_read = StateRead::Head;
            bytes_mut_clear(&mut self.buff);
        }
        Ok(None)
    }
}

proof fn lemma_escape_cons(x: u8, d: Seq<u8>)
    ensures
        simple_escape(seq![x] + d) == simple_escape_byte(x) + simple_escape(d),
    decreases d.len(),
{
    if d.len() == 0 {
        assert(seq![x] + d =~= seq![x]);
        assert(seq![x].drop_last() =~= Seq::<u8>::empty());
        assert(simple_escape(Seq::<u8>::empty()) == Seq::<u8>::empty());
        assert(simple_escape(seq![x]) =~= simple_escape_byte(x));
        assert(simple_escape(d) == Seq::<u8>::empty());
        assert(simple_escape_byte(x) + simple_escape(d) =~= simple_escape_byte(x));
    } else {
        let d1 = d.drop_last();
        lemma_escape_cons(x, d1);
        assert((seq![x] + d).drop_last() =~= seq![x] + d1);
        assert((seq![x] + d).last() == d.last());
        assert(simple_escape_byte(x) + simple_escape(d1) + simple_escape_byte(d.last())
            =~= simple_escape_byte(x) + simple_escape(d));
    }
}

proof fn lemma_scan_payload(b: Seq<u8>, d: Seq<u8>, t: Seq<u8>, n: nat)
    requires
        simple_escape(d).len() <= n,
    ensures
        simple_scan(SimpleState { state: StateRead::Data, buff: b }, simple_escape(d) + t, n)
            == simple_scan(
            SimpleState { state: StateRead::Data, buff: b + d },
            t,
            (n - simple_escape(d).len()) as nat,
        ),
    decreases d.len(),
{
    if d.len() == 0 {
        assert(simple_escape(d) == Seq::<u8>::empty());
        assert(simple_escape(d) + t =~= t);
        assert(b + d =~= b);
    } else {
        let x = d[0];
        let d1 = d.drop_first();
        assert(d =~= seq![x] + d1);
        lemma_escape_cons(x, d1);
        let e = simple_escape_byte(x);
        let s = simple_escape(d) + t;
        assert(s =~= e + (simple_escape(d1) + t));
        lemma_scan_payload(b.push(x), d1, t, (n - e.len()) as nat);
        assert(b.push(x) + d1 =~= b + d);
        let m = SimpleState { state: StateRead::Data, buff: b };
        let m2 = SimpleState { state: StateRead::Data, buff: b.push(x) };
        if e.len() == 1 {
            assert(s[0] == x);
            assert(s.drop_first() =~= simple_escape(d1) + t);
            assert(simple_step(m, x) == (m2, None::<Seq<u8>>));
            assert(simple_scan(m, s, n) == simple_scan(m2, s.drop_first(), (n - 1) as nat));
        } else {
            let me = SimpleState { state: StateRead::Esc, buff: b };
            assert(s[0] == ESC);
            assert(s.drop_first()[0] == e[1]);
            assert(s.drop_first().drop_first() =~= simple_escape(d1) + t);
            assert(simple_step(m, ESC) == (me, None::<Seq<u8>>));
            assert(simple_step(me, e[1]) == (m2, None::<Seq<u8>>));
            assert(simple_scan(m, s, n) == simple_scan(me, s.drop_first(), (n - 1) as nat));
            assert(simple_scan(me, s.drop_first(), (n - 1) as nat) == simple_scan(
                m2,
                s.drop_first().drop_first(),
                (n - 2) as nat,
            ));
        }
    }
}

proof fn lemma_scan_frame(data: Seq<u8>, rest: Seq<u8>, n: nat)
    requires
        simple_frame(data).len() <= n,
    ensures
        simple_scan(simple_initial(), simple_frame(data) + rest, n) == (
            simple_initial(),
            rest,
            Some(data),
        ),
{
    let s = simple_frame(data) + rest;
    let tail = seq![END] + rest;
    assert(s[0] == HEAD);
    assert(s.drop_first() =~= simple_escape(data) + tail);
    let empty = Seq::<u8>::empty();
    lemma_scan_payload(empty, data, tail, (n - 1) as nat);
    assert(empty + data =~= data);
    assert(tail[0] == END);
    assert(tail.drop_first() =~= rest);
}

proof fn lemma_scan_junk(junk: Seq<u8>, t: Seq<u8>, n: nat)
    requires
        junk.len() <= n,
        forall|i: int| 0 <= i < junk.len() ==> junk[i] != HEAD,
    ensures
        simple_scan(simple_initial(), junk + t, n) == simple_scan(
            simple_initial(),
            t,
            (n - junk.len()) as nat,
        ),
    decreases junk.len(),
{
    if junk.len() == 0 {
        assert(junk + t =~= t);
    } else {
        assert((junk + t)[0] == junk[0]);
        assert((junk + t).drop_first() =~= junk.drop_first() + t);
        lemma_scan_junk(junk.drop_first(), t, (n - 1) as nat);
    }
}

/// Decoding the frame of any payload from a coder that waits for `HEAD`
/// (a new one, one just reset, or one whose last call returned a payload)
/// gives the payload back, leaves the bytes after the frame unread and the
/// coder waiting for `HEAD` again. Bytes before the frame are skipped when
/// none of them is `HEAD`. This holds whenever those bytes and the frame fit
/// in the `MAX_LEN` bytes that one call reads.
pub proof fn lemma_simple_round_trip(junk: Seq<u8>, data: Seq<u8>, rest: Seq<u8>)
    requires
        junk.len() + simple_frame(data).len() <= 1024,
        forall|i: int| 0 <= i < junk.len() ==> junk[i] != HEAD,
    ensures
        simple_decode(simple_initial(), junk + simple_frame(data) + rest) == (
            simple_initial(),
            rest,
            Some(data),
        ),
{
    assert(junk + simple_frame(data) + rest =~= junk + (simple_frame(data) + rest));
    lemma_scan_junk(junk, simple_frame(data) + rest, 1024);
    lemma_scan_frame(data, rest, (1024 - junk.len()) as nat);
}

/// A byte-stuffed payload holds no `HEAD` and no `END` byte, so the only
/// ones in a frame are the two that delimit it.
pub proof fn lemma_simple_escape_clean(data: Seq<u8>)
    ensures
        forall|i: int|
            0 <= i < simple_escape(data).len() ==> simple_escape(data)[i] != HEAD
                && simple_escape(data)[i] != END,
    decreases data.len(),
{
    if data.len() > 0 {
        let init = data.drop_last();
        let e = simple_escape_byte(data.last());
        let all = simple_escape(data);
        lemma_simple_escape_clean(init);
        assert forall|i: int| 0 <= i < all.len() implies all[i] != HEAD && all[i] != END by {
            if i < simple_escape(init).len() {
                assert(all[i] == simple_escape(init)[i]);
            } else {
                assert(all[i] == e[i - simple_escape(init).len()]);
            }
        }
    }
}

/// Feeding bytes in two pieces gives what feeding them at once gives, when
/// the first piece completes no payload and everything fits in the
/// `MAX_LEN` bytes of one call: the first call reads the whole first piece,
/// and the second call, from the state it left, ends as the single call.
pub proof fn lemma_simple_pieces(m: SimpleState, a: Seq<u8>, b: Seq<u8>)
    requires
        simple_wf(m),
        m.buff.len() + a.len() + b.len() <= 1024,
        simple_decode(m, a).2 is None,
    ensures
        simple_decode(m, a).1.len() == 0,
        simple_decode(simple_decode(m, a).0, b) == simple_decode(m, a + b),
{
    lemma_simple_scan_split(m, a, b, 1024);
}

proof fn lemma_simple_scan_split(m: SimpleState, a: Seq<u8>, b: Seq<u8>, n: nat)
    requires
        a.len() + b.len() <= n,
        m.buff.len() + a.len() + b.len() <= 1024,
        simple_scan(m, a, n).2 is None,
    ensures
        simple_scan(m, a, n).1.len() == 0,
        simple_scan(m, a, n).0.buff.len() + b.len() <= 1024,
        simple_scan(simple_scan(m, a, n).0, b, 1024) == simple_scan(m, a + b, n),
    decreases a.len(),
{
    if a.len() == 0 {
        assert(a + b =~= b);
        lemma_simple_scan_budget(m, b, n);
    } else {
        let (m1, out) = simple_step(m, a[0]);
        assert((a + b)[0] == a[0]);
        assert((a + b).drop_first() =~= a.drop_first() + b);
        assert(m1.buff.len() <= m.buff.len() + 1);
        lemma_simple_scan_split(m1, a.drop_first(), b, (n - 1) as nat);
    }
}

proof fn lemma_simple_scan_budget(m: SimpleState, s: Seq<u8>, n: nat)
    requires
        s.len() <= n,
        s.len() <= 1024,
    ensures
        simple_scan(m, s, 1024) == simple_scan(m, s, n),
    decreases s.len(),
{
    if s.len() > 0 {
        let (m1, out) = simple_step(m, s[0]);
        lemma_simple_scan_budget(m1, s.drop_first(), (n - 1) as nat);
        lemma_simple_scan_budget_any(m1, s.drop_first(), 1023, (n - 1) as nat);
    }
}

proof fn lemma_simple_scan_budget_any(m: SimpleState, s: Seq<u8>, n1: nat, n2: nat)
    requires
        s.len() <= n1,
        s.len() <= n2,
    ensures
        simple_scan(m, s, n1) == simple_scan(m, s, n2),
    decreases s.len(),
{
    if s.len() > 0 {
        let (m1, out) = simple_step(m, s[0]);
        lemma_simple_scan_budget_any(m1, s.drop_first(), (n1 - 1) as nat, (n2 - 1) as nat);
    }
}

proof fn lemma_simple_escape_split(a: Seq<u8>, b: Seq<u8>)
    ensures
        simple_escape(a + b) == simple_escape(a) + simple_escape(b),
    decreases b.len(),
{
    if b.len() == 0 {
        assert(a + b =~= a);
        assert(simple_escape(a) + simple_escape(b) =~= simple_escape(a));
    } else {
        lemma_simple_escape_split(a, b.drop_last());
        assert((a + b).drop_last() =~= a + b.drop_last());
        assert((a + b).last() == b.last());
        assert(simple_escape(a) + simple_escape(b.drop_last()) + simple_escape_byte(b.last())
            =~= simple_escape(a) + simple_escape(b));
    }
}

proof fn lemma_simple_escape_count(a: Seq<u8>)
    ensures
        simple_escape(a).len() == a.len() + a.filter(
            |y: u8| y == 40u8 || y == 41u8 || y == 43u8,
        ).len(),
    decreases a.len(),
{
    reveal(Seq::filter);
    if a.len() > 0 {
        lemma_simple_escape_count(a.drop_last());
    }
}

/// What the encoder writes for a payload: the frame is 40 (`HEAD`), the
/// payload byte by byte, then 41 (`END`). In the payload 40 becomes 43 48,
/// 41 becomes 43 49 and 43 becomes 43 43; every other byte is written once,
/// unchanged; the bytes of a concatenation are written in order. So the
/// frame is two bytes longer than the payload plus its 40, 41 and 43 bytes.
pub proof fn lemma_simple_encoding_table(a: Seq<u8>, b: Seq<u8>, x: u8)
    ensures
        simple_frame(a) == seq![40u8] + simple_escape(a) + seq![41u8],
        simple_escape(a + b) == simple_escape(a) + simple_escape(b),
        simple_escape(Seq::<u8>::empty()) == Seq::<u8>::empty(),
        simple_escape(seq![40u8]) == seq![43u8, 48u8],
        simple_escape(seq![41u8]) == seq![43u8, 49u8],
        simple_escape(seq![43u8]) == seq![43u8, 43u8],
        x != 40 && x != 41 && x != 43 ==> simple_escape(seq![x]) == seq![x],
        simple_frame(a).len() == 2 + a.len() + a.filter(
            |y: u8| y == 40u8 || y == 41u8 || y == 43u8,
        ).len(),
{
    lemma_simple_escape_count(a);
    lemma_simple_escape_split(a, b);
    assert(Seq::<u8>::empty() + seq![x] =~= seq![x]);
    lemma_simple_escape_split(Seq::<u8>::empty(), seq![x]);
    lemma_simple_escape_split(Seq::<u8>::empty(), seq![40u8]);
    lemma_simple_escape_split(Seq::<u8>::empty(), seq![41u8]);
    lemma_simple_escape_split(Seq::<u8>::empty(), seq![43u8]);
    assert(seq![x].drop_last() =~= Seq::<u8>::empty());
    assert(seq![40u8].drop_last() =~= Seq::<u8>::empty());
    assert(seq![41u8].drop_last() =~= Seq::<u8>::empty());
    assert(seq![43u8].drop_last() =~= Seq::<u8>::empty());
    assert(simple_escape(Seq::<u8>::empty()) + simple_escape_byte(x) =~= simple_escape_byte(x));
    assert(simple_escape(Seq::<u8>::empty()) + simple_escape_byte(40u8) =~= seq![43u8, 48u8]);
    assert(simple_escape(Seq::<u8>::empty()) + simple_escape_byte(41u8) =~= seq![43u8, 49u8]);
    assert(simple_escape(Seq::<u8>::empty()) + simple_escape_byte(43u8) =~= seq![43u8, 43u8]);
}

} // verus!

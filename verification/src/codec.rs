//! The frame codec: a 4-byte big-endian length header followed by exactly that
//! many payload bytes. A length of zero is a protocol violation. The decoder
//! is an automaton that survives an arbitrary split of the input across reads.

use vstd::prelude::*;

verus! {

/// The big-endian value of the four header bytes.
pub open spec fn be_val(a: u8, b: u8, c: u8, d: u8) -> int {
    0x1000000 * (a as int) + 0x10000 * (b as int) + 0x100 * (c as int) + (d as int)
}

/// The four big-endian header bytes of a 32-bit length.
pub open spec fn be_bytes(n: u32) -> Seq<u8> {
    seq![(n >> 24) as u8, (n >> 16) as u8, (n >> 8) as u8, n as u8]
}

/// The wire form of one payload: its length header followed by its bytes.
pub open spec fn frame_bytes(p: Seq<u8>) -> Seq<u8> {
    be_bytes(p.len() as u32) + p
}

/// A payload the protocol can carry: non-empty, and its length fits the header.
pub open spec fn sendable(p: Seq<u8>) -> bool {
    0 < p.len() <= u32::MAX
}

/// The wire form of a sequence of payloads, one frame after the other.
pub open spec fn frames_bytes(ps: Seq<Seq<u8>>) -> Seq<u8>
    decreases ps.len(),
{
    if ps.len() == 0 {
        Seq::empty()
    } else {
        frame_bytes(ps[0]) + frames_bytes(ps.drop_first())
    }
}

pub proof fn lemma_be_bytes_val(n: u32)
    ensures
        be_val(be_bytes(n)[0], be_bytes(n)[1], be_bytes(n)[2], be_bytes(n)[3]) == n as int,
{
    assert((((n >> 24) as u8) as u64) * 0x1000000 + (((n >> 16) as u8) as u64) * 0x10000
        + (((n >> 8) as u8) as u64) * 0x100 + ((n as u8) as u64) == n as u64) by (bit_vector);
}

pub proof fn lemma_be_val_bytes(a: u8, b: u8, c: u8, d: u8)
    ensures
        0 <= be_val(a, b, c, d) <= u32::MAX,
        be_bytes(be_val(a, b, c, d) as u32) =~= seq![a, b, c, d],
{
    let m: u32 = ((a as u32) << 24) | ((b as u32) << 16) | ((c as u32) << 8) | (d as u32);
    assert(((((a as u32) << 24) | ((b as u32) << 16) | ((c as u32) << 8) | (d as u32)) as u64)
        == (a as u64) * 0x1000000 + (b as u64) * 0x10000 + (c as u64) * 0x100 + (d as u64))
        by (bit_vector);
    assert(((((a as u32) << 24) | ((b as u32) << 16) | ((c as u32) << 8) | (d as u32)) >> 24) as u8
        == a) by (bit_vector);
    assert(((((a as u32) << 24) | ((b as u32) << 16) | ((c as u32) << 8) | (d as u32)) >> 16) as u8
        == b) by (bit_vector);
    assert(((((a as u32) << 24) | ((b as u32) << 16) | ((c as u32) << 8) | (d as u32)) >> 8) as u8
        == c) by (bit_vector);
    assert((((a as u32) << 24) | ((b as u32) << 16) | ((c as u32) << 8) | (d as u32)) as u8 == d)
        by (bit_vector);
    assert(be_val(a, b, c, d) == m as int);
}

/// Abstract state of the frame decoder: collecting up to three header bytes,
/// or collecting a payload whose total size the completed header announced.
pub enum DecModel {
    Header(Seq<u8>),
    Body(Seq<u8>, int),
}

impl DecModel {
    /// The state between frames: no header byte collected yet.
    pub open spec fn start() -> DecModel {
        DecModel::Header(Seq::empty())
    }

    pub open spec fn wf(self) -> bool {
        match self {
            DecModel::Header(h) => h.len() <= 3,
            DecModel::Body(buf, size) => 0 < size <= u32::MAX && buf.len() < size,
        }
    }

    /// The bytes the decoder has absorbed since the last completed frame.
    pub open spec fn absorbed(self) -> Seq<u8> {
        match self {
            DecModel::Header(h) => h,
            DecModel::Body(buf, size) => be_bytes(size as u32) + buf,
        }
    }
}

/// One step of the decoder on one input byte. `None` stands for the one
/// protocol violation: a completed header that encodes length zero. Otherwise
/// the step yields the next state and the payload it completed, if any.
pub open spec fn dec_step(m: DecModel, x: u8) -> Option<(DecModel, Option<Seq<u8>>)> {
    match m {
        DecModel::Header(h) => {
            if h.len() < 3 {
                Some((DecModel::Header(h.push(x)), None))
            } else {
                let size = be_val(h[0], h[1], h[2], x);
                if size == 0 {
                    None
                } else {
                    Some((DecModel::Body(Seq::empty(), size), None))
                }
            }
        },
        DecModel::Body(buf, size) => {
            let buf2 = buf.push(x);
            if buf2.len() == size {
                Some((DecModel::start(), Some(buf2)))
            } else {
                Some((DecModel::Body(buf2, size), None))
            }
        },
    }
}

/// The decoder run over a whole input, one byte at a time: the final state and
/// the completed payloads in order, or `None` on a zero-length header.
pub open spec fn dec_run(m: DecModel, input: Seq<u8>) -> Option<(DecModel, Seq<Seq<u8>>)>
    decreases input.len(),
{
    if input.len() == 0 {
        Some((m, Seq::empty()))
    } else {
        match dec_step(m, input[0]) {
            None => None,
            Some((m1, out)) => match dec_run(m1, input.drop_first()) {
                None => None,
                Some((m2, ps)) => Some(
                    (
                        m2,
                        match out {
                            Some(p) => seq![p] + ps,
                            None => ps,
                        },
                    ),
                ),
            },
        }
    }
}

/// The decoder run over a single byte, written out as one step.
pub proof fn lemma_dec_run_one(m: DecModel, x: u8)
    ensures
        dec_run(m, seq![x]) == match dec_step(m, x) {
            Some((m1, out)) => Some(
                (
                    m1,
                    match out {
                        Some(p) => seq![p],
                        None => Seq::<Seq<u8>>::empty(),
                    },
                ),
            ),
            None => None::<(DecModel, Seq<Seq<u8>>)>,
        },
{
    let s = seq![x];
    assert(s[0] == x);
    assert(s.drop_first() =~= Seq::<u8>::empty());
    match dec_step(m, x) {
        Some((m1, out)) => {
            assert(dec_run(m1, s.drop_first()) == Some((m1, Seq::<Seq<u8>>::empty())));
            match out {
                Some(p) => {
                    assert(seq![p] + Seq::<Seq<u8>>::empty() =~= seq![p]);
                },
                None => {},
            }
        },
        None => {},
    }
}

/// Feeding an input in two pieces decodes exactly as feeding it whole: the
/// split of the byte stream across reads cannot change what comes out.
pub proof fn lemma_dec_run_append(m: DecModel, s1: Seq<u8>, s2: Seq<u8>)
    requires
        dec_run(m, s1) is Some,
    ensures
        ({
            let (m1, ps1) = dec_run(m, s1)->Some_0;
            dec_run(m, s1 + s2) == match dec_run(m1, s2) {
                Some((m2, ps2)) => Some::<(DecModel, Seq<Seq<u8>>)>((m2, ps1 + ps2)),
                None => None::<(DecModel, Seq<Seq<u8>>)>,
            }
        }),
    decreases s1.len(),
{
    let (m1, ps1) = dec_run(m, s1)->Some_0;
    if s1.len() == 0 {
        assert(s1 + s2 =~= s2);
        assert(m1 == m && ps1 =~= Seq::<Seq<u8>>::empty());
        match dec_run(m1, s2) {
            Some((m2, ps2)) => {
                assert(ps1 + ps2 =~= ps2);
            },
            None => {},
        }
    } else {
        let x = s1[0];
        assert((s1 + s2)[0] == x);
        let (ma, out) = dec_step(m, x)->Some_0;
        assert((s1 + s2).drop_first() =~= s1.drop_first() + s2);
        lemma_dec_run_append(ma, s1.drop_first(), s2);
        let (mb, psb) = dec_run(ma, s1.drop_first())->Some_0;
        match dec_run(m1, s2) {
            Some((m2, ps2)) => {
                match out {
                    Some(p) => {
                        assert(ps1 =~= seq![p] + psb);
                        assert(seq![p] + (psb + ps2) =~= ps1 + ps2);
                    },
                    None => {},
                }
            },
            None => {},
        }
    }
}

proof fn lemma_dec_run_body(p: Seq<u8>, k: int)
    requires
        sendable(p),
        0 <= k < p.len(),
    ensures
        dec_run(DecModel::Body(p.subrange(0, k), p.len() as int), p.subrange(k, p.len() as int))
            == Some((DecModel::start(), seq![p])),
    decreases p.len() - k,
{
    let size = p.len() as int;
    let rest = p.subrange(k, size);
    let buf = p.subrange(0, k);
    assert(rest[0] == p[k]);
    assert(buf.push(p[k]) =~= p.subrange(0, k + 1));
    if k == size - 1 {
        assert(p.subrange(0, k + 1) =~= p);
        assert(rest.drop_first() =~= Seq::<u8>::empty());
        assert(dec_step(DecModel::Body(buf, size), p[k])
            == Some::<(DecModel, Option<Seq<u8>>)>((DecModel::start(), Some(p))));
        assert(dec_run(DecModel::start(), rest.drop_first())
            == Some((DecModel::start(), Seq::<Seq<u8>>::empty())));
        assert(seq![p] + Seq::<Seq<u8>>::empty() =~= seq![p]);
    } else {
        lemma_dec_run_body(p, k + 1);
        assert(dec_step(DecModel::Body(buf, size), p[k])
            == Some::<(DecModel, Option<Seq<u8>>)>(
            (DecModel::Body(p.subrange(0, k + 1), size), None),
        ));
        assert(rest.drop_first() =~= p.subrange(k + 1, size));
        assert(dec_run(DecModel::Body(p.subrange(0, k + 1), size), rest.drop_first())
            == Some((DecModel::start(), seq![p])));
    }
}

/// Decoding exactly one well-formed frame from the clean state yields exactly
/// its payload and returns to the clean state.
pub proof fn lemma_dec_run_frame(p: Seq<u8>)
    requires
        sendable(p),
    ensures
        dec_run(DecModel::start(), frame_bytes(p)) == Some((DecModel::start(), seq![p])),
{
    let n = p.len() as u32;
    let h = be_bytes(n);
    let s = frame_bytes(p);
    lemma_be_bytes_val(n);
    assert(s.len() == 4 + p.len());
    assert(s[0] == h[0] && s[1] == h[1] && s[2] == h[2] && s[3] == h[3]);
    let s1 = s.drop_first();
    let s2 = s1.drop_first();
    let s3 = s2.drop_first();
    let s4 = s3.drop_first();
    assert(s1[0] == h[1] && s2[0] == h[2] && s3[0] == h[3]);
    let m1 = DecModel::Header(seq![h[0]]);
    let m2 = DecModel::Header(seq![h[0], h[1]]);
    let m3 = DecModel::Header(seq![h[0], h[1], h[2]]);
    assert(Seq::<u8>::empty().push(h[0]) =~= seq![h[0]]);
    assert(seq![h[0]].push(h[1]) =~= seq![h[0], h[1]]);
    assert(seq![h[0], h[1]].push(h[2]) =~= seq![h[0], h[1], h[2]]);
    assert(dec_step(DecModel::start(), s[0]) == Some::<(DecModel, Option<Seq<u8>>)>((m1, None)));
    assert(dec_step(m1, s1[0]) == Some::<(DecModel, Option<Seq<u8>>)>((m2, None)));
    assert(dec_step(m2, s2[0]) == Some::<(DecModel, Option<Seq<u8>>)>((m3, None)));
    assert(be_val(h[0], h[1], h[2], h[3]) == n as int);
    assert(dec_step(m3, s3[0]) == Some::<(DecModel, Option<Seq<u8>>)>(
        (DecModel::Body(Seq::empty(), n as int), None),
    ));
    assert(s4 =~= p.subrange(0, p.len() as int));
    assert(p.subrange(0, 0) =~= Seq::<u8>::empty());
    lemma_dec_run_body(p, 0);
    assert(dec_run(DecModel::Body(Seq::empty(), p.len() as int), s4)
        == Some::<(DecModel, Seq<Seq<u8>>)>((DecModel::start(), seq![p])));
    assert(n as int == p.len() as int);
    assert(dec_run(m3, s3) == Some::<(DecModel, Seq<Seq<u8>>)>((DecModel::start(), seq![p])));
    assert(dec_run(m2, s2) == Some::<(DecModel, Seq<Seq<u8>>)>((DecModel::start(), seq![p])));
    assert(dec_run(m1, s1) == Some::<(DecModel, Seq<Seq<u8>>)>((DecModel::start(), seq![p])));
    assert(dec_run(DecModel::start(), s) == Some::<(DecModel, Seq<Seq<u8>>)>(
        (DecModel::start(), seq![p]),
    ));
}

/// The framing round trip: the wire form of any sequence of sendable payloads,
/// decoded from the clean state, yields exactly those payloads in order and
/// returns to the clean state — however the transport splits the bytes, by
/// `lemma_dec_run_append`.
pub proof fn lemma_frames_round_trip(ps: Seq<Seq<u8>>)
    requires
        forall|i: int| 0 <= i < ps.len() ==> sendable(#[trigger] ps[i]),
    ensures
        dec_run(DecModel::start(), frames_bytes(ps)) == Some((DecModel::start(), ps)),
    decreases ps.len(),
{
    if ps.len() == 0 {
        assert(ps =~= Seq::<Seq<u8>>::empty());
    } else {
        lemma_dec_run_frame(ps[0]);
        lemma_frames_round_trip(ps.drop_first());
        lemma_dec_run_append(DecModel::start(), frame_bytes(ps[0]), frames_bytes(ps.drop_first()));
        assert(seq![ps[0]] + ps.drop_first() =~= ps);
    }
}

/// The decoder fails only on the one protocol violation: when it fails, the
/// bytes it had absorbed, followed by the byte it failed on, are exactly a
/// header that encodes length zero.
pub proof fn lemma_reject_zero_only(m: DecModel, x: u8)
    requires
        m.wf(),
        dec_step(m, x) is None,
    ensures
        m.absorbed().push(x) =~= seq![0u8, 0u8, 0u8, 0u8],
{
    let h = m->Header_0;
    assert(h.len() == 3);
    assert(be_val(h[0], h[1], h[2], x) == 0);
    assert(h[0] == 0 && h[1] == 0 && h[2] == 0 && x == 0);
}

/// Concrete state of the read automaton, one variant per count of header bytes
/// collected, then one for a payload being collected toward its target size.
pub enum ReadState {
    Start,
    Size1(u8),
    Size2(u8, u8),
    Size3(u8, u8, u8),
    Body(Vec<u8>, usize),
}

impl ReadState {
    pub open spec fn model(&self) -> DecModel {
        match self {
            ReadState::Start => DecModel::Header(Seq::empty()),
            ReadState::Size1(a) => DecModel::Header(seq![*a]),
            ReadState::Size2(a, b) => DecModel::Header(seq![*a, *b]),
            ReadState::Size3(a, b, c) => DecModel::Header(seq![*a, *b, *c]),
            ReadState::Body(buf, size) => DecModel::Body(buf@, *size as int),
        }
    }

    pub open spec fn wf(&self) -> bool {
        self.model().wf()
    }
}

/// The model of a completed payload handed out by the automaton.
pub open spec fn out_model(o: Option<Vec<u8>>) -> Option<Seq<u8>> {
    match o {
        Some(v) => Some(v@),
        None => None,
    }
}

/// One step of the read automaton. Consumes the state, returns the next state
/// and the payload completed by this byte, if any; fails exactly where the
/// abstract decoder does, on a header that encodes length zero.
pub fn dec_feed(st: ReadState, x: u8) -> (r: Result<(ReadState, Option<Vec<u8>>), ()>)
    requires
        st.wf(),
    ensures
        match r {
            Ok(p) => {
                &&& dec_step(st.model(), x) == Some((p.0.model(), out_model(p.1)))
                &&& p.0.wf()
            },
            Err(e) => dec_step(st.model(), x) is None,
        },
{
    match st {
        ReadState::Start => Ok((ReadState::Size1(x), None)),
        ReadState::Size1(a) => {
            proof {
                assert(seq![a].push(x) =~= seq![a, x]);
            }
            Ok((ReadState::Size2(a, x), None))
        },
        ReadState::Size2(a, b) => {
            proof {
                assert(seq![a, b].push(x) =~= seq![a, b, x]);
            }
            Ok((ReadState::Size3(a, b, x), None))
        },
        ReadState::Size3(a, b, c) => {
            let size: u32 = ((a as u32) << 24) | ((b as u32) << 16) | ((c as u32) << 8)
                | (x as u32);
            proof {
                lemma_be_val_bytes(a, b, c, x);
                assert((((a as u32) << 24) | ((b as u32) << 16) | ((c as u32) << 8) | (x as u32))
                    as u64 == (a as u64) * 0x1000000 + (b as u64) * 0x10000 + (c as u64) * 0x100
                    + (x as u64)) by (bit_vector);
                assert(size as int == be_val(a, b, c, x));
            }
            if size == 0 {
                Err(())
            } else {
                Ok((ReadState::Body(Vec::new(), size as usize), None))
            }
        },
        ReadState::Body(mut buf, size) => {
            buf.push(x);
            if buf.len() == size {
                Ok((ReadState::Start, Some(buf)))
            } else {
                Ok((ReadState::Body(buf, size), None))
            }
        },
    }
}

/// Builds the wire form of one payload: the length header followed by its
/// bytes, as `frame_bytes` states.
pub fn encode_frame(payload: &Vec<u8>) -> (r: Vec<u8>)
    requires
        payload@.len() <= u32::MAX,
        payload@.len() + 4 <= usize::MAX,
    ensures
        r@ == frame_bytes(payload@),
{
    let n = payload.len() as u32;
    let mut r: Vec<u8> = Vec::new();
    r.push((n >> 24) as u8);
    r.push((n >> 16) as u8);
    r.push((n >> 8) as u8);
    r.push(n as u8);
    assert(r@ =~= be_bytes(n));
    let mut i: usize = 0;
    while i < payload.len()
        invariant
            i <= payload@.len(),
            r@ == be_bytes(n) + payload@.subrange(0, i as int),
        decreases payload@.len() - i,
    {
        r.push(payload[i]);
        proof {
            assert(be_bytes(n) + payload@.subrange(0, i as int + 1)
                =~= (be_bytes(n) + payload@.subrange(0, i as int)).push(payload@[i as int]));
        }
        i = i + 1;
    }
    proof {
        assert(payload@.subrange(0, payload@.len() as int) =~= payload@);
    }
    r
}

} // verus!

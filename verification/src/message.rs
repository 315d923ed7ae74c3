//! Messages, and how their encoded bytes travel over a connection.
//!
//! An encoded message is cut into frames. Each frame is a version byte, the
//! length of its chunk as a big-endian `u64`, a byte telling whether more
//! frames follow (0: this is the last), and the chunk itself, at most
//! [`MAX_LEN`] bytes long. A reader collects the chunks until a frame says it
//! is the last.

use vstd::prelude::*;

verus! {

/// The protocol version written into every frame.
pub const VERSION: u8 = 1;

/// The largest chunk a frame carries.
pub const MAX_LEN: usize = 4096;

/// The length of a frame header: version, length, continuation flag.
pub const HEADER_LEN: usize = 10;

/// A message: its content, and the history of nodes it went through with
/// their signatures (both empty for now).
#[derive(Clone, Debug, PartialEq, Eq)]
pub struct Message {
    content: String,
    history: Vec<String>,
    history_signature: Vec<String>,
}

pub open spec fn string_views(v: Seq<String>) -> Seq<Seq<char>> {
    v.map_values(|s: String| s@)
}

impl Message {
    pub closed spec fn content(&self) -> Seq<char> {
        self.content@
    }

    pub closed spec fn history(&self) -> Seq<Seq<char>> {
        string_views(self.history@)
    }

    pub closed spec fn history_signature(&self) -> Seq<Seq<char>> {
        string_views(self.history_signature@)
    }

    /// A message with the given content and an empty history.
    pub fn new(content: &str) -> (m: Message)
        ensures
            m.content() == content@,
            m.history() == Seq::<Seq<char>>::empty(),
            m.history_signature() == Seq::<Seq<char>>::empty(),
    {
        let m = Message {
            content: content.to_owned(),
            history: Vec::<String>::new(),
            history_signature: Vec::<String>::new(),
        };
        assert(m.history() =~= Seq::<Seq<char>>::empty());
        assert(m.history_signature() =~= Seq::<Seq<char>>::empty());
        m
    }

    /// A copy of the content.
    pub fn get_content(&self) -> (c: String)
        ensures
            c@ == self.content(),
    {
        self.content.clone()
    }

    /// A message made of the given parts.
    pub fn from_parts(content: String, history: Vec<String>, history_signature: Vec<String>) -> (m:
        Message)
        ensures
            m.content() == content@,
            m.history() == string_views(history@),
            m.history_signature() == string_views(history_signature@),
    {
        Message { content, history, history_signature }
    }

    /// The parts of the message: content, history, history signatures.
    pub fn into_parts(self) -> (parts: (String, Vec<String>, Vec<String>))
        ensures
            parts.0@ == self.content(),
            string_views(parts.1@) == self.history(),
            string_views(parts.2@) == self.history_signature(),
    {
        (self.content, self.history, self.history_signature)
    }
}

/// The header of a frame.
#[derive(Clone, Copy, Debug, PartialEq, Eq)]
pub struct FrameHeader {
    pub version: u8,
    /// The length of the chunk that follows the header.
    pub len: u64,
    /// 0 when this is the last frame of the message.
    pub more: u8,
}

/// The eight bytes of `x`, most significant first.
pub open spec fn be_bytes(x: u64) -> Seq<u8> {
    seq![
        (x >> 56u64) as u8,
        (x >> 48u64) as u8,
        (x >> 40u64) as u8,
        (x >> 32u64) as u8,
        (x >> 24u64) as u8,
        (x >> 16u64) as u8,
        (x >> 8u64) as u8,
        x as u8,
    ]
}

/// The `u64` whose bytes, most significant first, are `b0` to `b7`.
pub open spec fn be_join(b0: u8, b1: u8, b2: u8, b3: u8, b4: u8, b5: u8, b6: u8, b7: u8) -> u64 {
    ((b0 as u64) << 56u64) | ((b1 as u64) << 48u64) | ((b2 as u64) << 40u64) | ((b3 as u64)
        << 32u64) | ((b4 as u64) << 24u64) | ((b5 as u64) << 16u64) | ((b6 as u64) << 8u64) | (
    b7 as u64)
}

/// The bytes of a header.
pub open spec fn header_bytes(h: FrameHeader) -> Seq<u8> {
    seq![h.version] + be_bytes(h.len) + seq![h.more]
}

/// The header at the start of `b` (which holds at least [`HEADER_LEN`] bytes).
pub open spec fn parse_header_spec(b: Seq<u8>) -> FrameHeader {
    FrameHeader {
        version: b[0],
        len: be_join(b[1], b[2], b[3], b[4], b[5], b[6], b[7], b[8]),
        more: b[9],
    }
}

/// The frames of payload `p`: chunks of [`MAX_LEN`] bytes, the last one
/// shorter or equal, each behind its header; nothing at all for an empty
/// payload.
pub open spec fn frames_of(p: Seq<u8>) -> Seq<u8>
    decreases p.len(),
{
    if p.len() == 0 {
        Seq::empty()
    } else if p.len() <= MAX_LEN {
        header_bytes(FrameHeader { version: VERSION, len: p.len() as u64, more: 0 }) + p
    } else {
        header_bytes(FrameHeader { version: VERSION, len: MAX_LEN as u64, more: 1 }) + p.take(
            MAX_LEN as int,
        ) + frames_of(p.skip(MAX_LEN as int))
    }
}

/// What a reader gets from a stream that starts with `s`: the chunks of its
/// frames up to and including the first frame marked last, and the number of
/// bytes those frames take. `None` when the stream ends first, or a header
/// announces a chunk longer than [`MAX_LEN`].
pub open spec fn read_frames(s: Seq<u8>) -> Option<(Seq<u8>, nat)>
    decreases s.len(),
{
    if s.len() < HEADER_LEN {
        None
    } else {
        let h = parse_header_spec(s);
        let body = s.skip(HEADER_LEN as int);
        if h.len > MAX_LEN || body.len() < h.len {
            None
        } else if h.more == 0 {
            Some((body.take(h.len as int), (HEADER_LEN + h.len) as nat))
        } else {
            continued(body.take(h.len as int), (HEADER_LEN + h.len) as nat, read_frames(body.skip(h.len as int)))
        }
    }
}

/// The outcome of reading `rest` after frames that gave the chunks `p` in
/// `n` bytes without being last: `p` followed by what `rest` gives.
pub open spec fn continued(p: Seq<u8>, n: nat, rest: Option<(Seq<u8>, nat)>) -> Option<(Seq<u8>, nat)> {
    match rest {
        Some((r, m)) => Some((p + r, n + m)),
        None => None,
    }
}

proof fn lemma_be_round_trip(x: u64)
    ensures
        be_join(
            (x >> 56u64) as u8,
            (x >> 48u64) as u8,
            (x >> 40u64) as u8,
            (x >> 32u64) as u8,
            (x >> 24u64) as u8,
            (x >> 16u64) as u8,
            (x >> 8u64) as u8,
            x as u8,
        ) == x,
{
    assert(((((x >> 56u64) as u8) as u64) << 56u64) | ((((x >> 48u64) as u8) as u64) << 48u64)
        | ((((x >> 40u64) as u8) as u64) << 40u64) | ((((x >> 32u64) as u8) as u64) << 32u64) | ((((x
        >> 24u64) as u8) as u64) << 24u64) | ((((x >> 16u64) as u8) as u64) << 16u64) | ((((x
        >> 8u64) as u8) as u64) << 8u64) | ((x as u8) as u64) == x) by (bit_vector);
}

/// A header read back from its bytes, whatever follows them, is the header
/// that was written.
pub proof fn lemma_header_round_trip(h: FrameHeader, rest: Seq<u8>)
    ensures
        header_bytes(h).len() == HEADER_LEN,
        parse_header_spec(header_bytes(h) + rest) == h,
{
    lemma_be_round_trip(h.len);
    let b = header_bytes(h) + rest;
    assert(b[0] == h.version);
    assert(b[1] == (h.len >> 56u64) as u8);
    assert(b[2] == (h.len >> 48u64) as u8);
    assert(b[3] == (h.len >> 40u64) as u8);
    assert(b[4] == (h.len >> 32u64) as u8);
    assert(b[5] == (h.len >> 24u64) as u8);
    assert(b[6] == (h.len >> 16u64) as u8);
    assert(b[7] == (h.len >> 8u64) as u8);
    assert(b[8] == h.len as u8);
    assert(b[9] == h.more);
}

/// Frames read back: a reader given the frames of a non-empty payload,
/// followed by anything at all, gets exactly that payload, and stops at the
/// end of those frames.
pub proof fn lemma_frames_round_trip(p: Seq<u8>, tail: Seq<u8>)
    requires
        p.len() > 0,
    ensures
        read_frames(frames_of(p) + tail) == Some((p, frames_of(p).len())),
    decreases p.len(),
{
    let s = frames_of(p) + tail;
    if p.len() <= MAX_LEN {
        let h = FrameHeader { version: VERSION, len: p.len() as u64, more: 0 };
        lemma_header_round_trip(h, p + tail);
        assert(s =~= header_bytes(h) + (p + tail));
        assert(s.skip(HEADER_LEN as int) =~= p + tail);
        assert((p + tail).take(p.len() as int) =~= p);
    } else {
        let h = FrameHeader { version: VERSION, len: MAX_LEN as u64, more: 1 };
        let rest = p.skip(MAX_LEN as int);
        let chunk = p.take(MAX_LEN as int);
        lemma_frames_round_trip(rest, tail);
        lemma_header_round_trip(h, chunk + (frames_of(rest) + tail));
        assert(s =~= header_bytes(h) + (chunk + (frames_of(rest) + tail)));
        let body = s.skip(HEADER_LEN as int);
        assert(body =~= chunk + (frames_of(rest) + tail));
        assert(body.take(MAX_LEN as int) =~= chunk);
        assert(body.skip(MAX_LEN as int) =~= frames_of(rest) + tail);
        assert(chunk + rest =~= p);
    }
}

/// A reader that stopped after the bytes `s` of a stream that begins with
/// the frames of a non-empty payload `p` has consumed exactly those frames
/// and got `p`.
pub proof fn lemma_reader_stops_at_message_end(
    p: Seq<u8>,
    tail: Seq<u8>,
    s: Seq<u8>,
    t: Seq<u8>,
    got: Seq<u8>,
)
    requires
        p.len() > 0,
        s + t == frames_of(p) + tail,
        read_frames(s + t) == Some((got, s.len())),
    ensures
        got == p,
        s == frames_of(p),
{
    lemma_frames_round_trip(p, tail);
    assert(s =~= (frames_of(p) + tail).take(s.len() as int));
    assert(frames_of(p) =~= (frames_of(p) + tail).take(frames_of(p).len() as int));
}

/// An empty payload has no frames at all.
pub proof fn lemma_frames_of_empty()
    ensures
        frames_of(Seq::<u8>::empty()) == Seq::<u8>::empty(),
{
}

impl FrameHeader {
    /// The bytes of the header.
    pub fn to_bytes(&self) -> (out: Vec<u8>)
        ensures
            out@ == header_bytes(*self),
    {
        let x = self.len;
        let mut out: Vec<u8> = Vec::new();
        out.push(self.version);
        out.push((x >> 56u64) as u8);
        out.push((x >> 48u64) as u8);
        out.push((x >> 40u64) as u8);
        out.push((x >> 32u64) as u8);
        out.push((x >> 24u64) as u8);
        out.push((x >> 16u64) as u8);
        out.push((x >> 8u64) as u8);
        out.push(x as u8);
        out.push(self.more);
        assert(out@ =~= header_bytes(*self));
        out
    }

    /// The header at the start of `bytes`.
    pub fn parse(bytes: &[u8]) -> (h: FrameHeader)
        requires
            bytes@.len() >= HEADER_LEN,
        ensures
            h == parse_header_spec(bytes@),
    {
        let len = ((bytes[1] as u64) << 56u64) | ((bytes[2] as u64) << 48u64) | ((bytes[3] as u64)
            << 40u64) | ((bytes[4] as u64) << 32u64) | ((bytes[5] as u64) << 24u64) | ((
        bytes[6] as u64) << 16u64) | ((bytes[7] as u64) << 8u64) | (bytes[8] as u64);
        FrameHeader { version: bytes[0], len, more: bytes[9] }
    }

    /// The length of the chunk as a buffer length, when a reader accepts it
    /// (at most [`MAX_LEN`]).
    pub fn chunk_len(&self) -> (r: Option<usize>)
        ensures
            r is Some <==> self.len <= MAX_LEN,
            r matches Some(l) ==> l == self.len,
    {
        if self.len <= MAX_LEN as u64 {
            Some(self.len as usize)
        } else {
            None
        }
    }
}

/// Appends `src[from..to]` to `out`.
fn append_range(out: &mut Vec<u8>, src: &[u8], from: usize, to: usize)
    requires
        from <= to <= src@.len(),
    ensures
        final(out)@ == old(out)@ + src@.subrange(from as int, to as int),
{
    let mut k = from;
    while k < to
        invariant
            from <= k <= to,
            to <= src@.len(),
            out@ == old(out)@ + src@.subrange(from as int, k as int),
        decreases to - k,
    {
        out.push(src[k]);
        k = k + 1;
        assert(out@ =~= old(out)@ + src@.subrange(from as int, k as int));
    }
}

/// The frames of `payload`, ready to be written to a connection.
pub fn encode_frames(payload: &[u8]) -> (out: Vec<u8>)
    ensures
        out@ == frames_of(payload@),
{
    let l = payload.len();
    let mut out: Vec<u8> = Vec::new();
    let mut i: usize = 0;
    assert(payload@.skip(0) =~= payload@);
    while i < l
        invariant
            i <= l,
            l == payload@.len(),
            out@ + frames_of(payload@.skip(i as int)) == frames_of(payload@),
        decreases l - i,
    {
        let ghost rest = payload@.skip(i as int);
        if l - i <= MAX_LEN {
            let h = FrameHeader { version: VERSION, len: (l - i) as u64, more: 0 };
            let hb = h.to_bytes();
            let ghost before = out@;
            out.extend_from_slice(hb.as_slice());
            assert(out@ =~= before + hb@);
            append_range(&mut out, payload, i, l);
            assert(rest =~= payload@.subrange(i as int, l as int));
            assert(payload@.skip(l as int) =~= Seq::<u8>::empty());
            assert(out@ =~= before + frames_of(rest));
            i = l;
        } else {
            let h = FrameHeader { version: VERSION, len: MAX_LEN as u64, more: 1 };
            let hb = h.to_bytes();
            let ghost before = out@;
            out.extend_from_slice(hb.as_slice());
            assert(out@ =~= before + hb@);
            append_range(&mut out, payload, i, i + MAX_LEN);
            assert(rest.take(MAX_LEN as int) =~= payload@.subrange(i as int, (i + MAX_LEN) as int));
            assert(rest.skip(MAX_LEN as int) =~= payload@.skip((i + MAX_LEN) as int));
            assert(frames_of(rest) == hb@ + rest.take(MAX_LEN as int) + frames_of(
                rest.skip(MAX_LEN as int),
            ));
            assert(out@ + frames_of(payload@.skip((i + MAX_LEN) as int)) =~= before + frames_of(
                rest,
            ));
            i = i + MAX_LEN;
        }
    }
    assert(payload@.skip(l as int) =~= Seq::<u8>::empty());
    assert(out@ + Seq::<u8>::empty() =~= out@);
    out
}

/// Collects the chunks of a message's frames as they arrive.
pub struct FrameReader {
    payload: Vec<u8>,
    consumed: Ghost<Seq<u8>>,
    finished: bool,
}

/// The two states of a reader. Before the last frame, any continuation `t`
/// of the stream is read as what was collected followed by what `t` gives;
/// after it, the stream read so far is a whole message whatever follows.
spec fn reader_state(payload: Seq<u8>, consumed: Seq<u8>, finished: bool) -> bool {
    if finished {
        forall|t: Seq<u8>| #[trigger]
            read_frames(consumed + t) == Some((payload, consumed.len()))
    } else {
        forall|t: Seq<u8>| #[trigger]
            read_frames(consumed + t) == continued(payload, consumed.len(), read_frames(t))
    }
}

impl FrameReader {
    #[verifier::type_invariant]
    spec fn inv(self) -> bool {
        reader_state(self.payload@, self.consumed@, self.finished)
    }

    /// The bytes collected so far.
    pub closed spec fn payload(&self) -> Seq<u8> {
        self.payload@
    }

    /// The bytes of the stream taken so far: headers and chunks.
    pub closed spec fn consumed(&self) -> Seq<u8> {
        self.consumed@
    }

    /// Whether the last frame of the message has been taken.
    pub closed spec fn finished(&self) -> bool {
        self.finished
    }

    /// A reader that has taken nothing.
    pub fn new() -> (r: FrameReader)
        ensures
            r.payload() == Seq::<u8>::empty(),
            r.consumed() == Seq::<u8>::empty(),
            !r.finished(),
    {
        let r = FrameReader { payload: Vec::new(), consumed: Ghost(Seq::empty()), finished: false };
        assert forall|t: Seq<u8>| #[trigger]
            read_frames(Seq::<u8>::empty() + t) == continued(Seq::<u8>::empty(), 0, read_frames(t)) by {
            assert(Seq::<u8>::empty() + t =~= t);
            match read_frames(t) {
                Some((x, m)) => {
                    assert(Seq::<u8>::empty() + x =~= x);
                },
                None => {},
            }
        }
        r
    }

    /// Whether the last frame of the message has been taken.
    pub fn is_finished(&self) -> (b: bool)
        ensures
            b == self.finished(),
    {
        self.finished
    }

    /// Takes a frame: its header bytes `header` and the chunk that follows
    /// them. Returns whether it was the last frame of the message. Afterwards,
    /// what the reader holds is what [`read_frames`] gives for the stream taken
    /// so far: while the message is not over, for any continuation of the
    /// stream; once it is over, the payload and the length of the stream
    /// taken, whatever follows.
    pub fn accept(&mut self, header: &[u8], chunk: &[u8]) -> (last: bool)
        requires
            header@.len() == HEADER_LEN,
            parse_header_spec(header@).len <= MAX_LEN,
            chunk@.len() == parse_header_spec(header@).len,
            !old(self).finished(),
        ensures
            final(self).payload() == old(self).payload() + chunk@,
            final(self).consumed() == old(self).consumed() + header@ + chunk@,
            last == (parse_header_spec(header@).more == 0),
            final(self).finished() == last,
            last ==> forall|t: Seq<u8>| #[trigger]
                read_frames(final(self).consumed() + t) == Some(
                    (final(self).payload(), final(self).consumed().len()),
                ),
            !last ==> forall|t: Seq<u8>| #[trigger]
                read_frames(final(self).consumed() + t) == continued(
                    final(self).payload(),
                    final(self).consumed().len(),
                    read_frames(t),
                ),
    {
        proof {
            use_type_invariant(&*self);
        }
        let mut cur = FrameReader::new();
        std::mem::swap(&mut cur, self);
        proof {
            use_type_invariant(&cur);
        }
        let FrameReader { mut payload, consumed, finished: _ } = cur;
        let ghost p0 = payload@;
        let ghost s0 = consumed@;
        payload.extend_from_slice(chunk);
        assert(payload@ =~= p0 + chunk@);
        let h = FrameHeader::parse(header);
        let last = h.more == 0;
        let ghost s1 = s0 + header@ + chunk@;
        proof {
            lemma_read_one_frame(header@, chunk@, p0, s0, last);
        }
        *self = FrameReader { payload, consumed: Ghost(s1), finished: last };
        last
    }

    /// The bytes collected.
    pub fn into_payload(self) -> (p: Vec<u8>)
        ensures
            p@ == self.payload(),
    {
        let FrameReader { payload, consumed: _, finished: _ } = self;
        payload
    }
}

/// Taking one more frame from a reader that is not finished.
proof fn lemma_read_one_frame(hdr: Seq<u8>, chunk: Seq<u8>, p0: Seq<u8>, s0: Seq<u8>, last: bool)
    requires
        hdr.len() == HEADER_LEN,
        parse_header_spec(hdr).len <= MAX_LEN,
        chunk.len() == parse_header_spec(hdr).len,
        last == (parse_header_spec(hdr).more == 0),
        reader_state(p0, s0, false),
    ensures
        reader_state(p0 + chunk, s0 + hdr + chunk, last),
{
    let h = parse_header_spec(hdr);
    let s1 = s0 + hdr + chunk;
    let p1 = p0 + chunk;
    assert forall|t: Seq<u8>| #![trigger read_frames(s1 + t)]
        read_frames(hdr + chunk + t) == (if last {
            Some((chunk, (HEADER_LEN + chunk.len()) as nat))
        } else {
            continued(chunk, (HEADER_LEN + chunk.len()) as nat, read_frames(t))
        }) by {
        let u = hdr + chunk + t;
        assert(parse_header_spec(u) == h) by {
            assert(u[0] == hdr[0]);
            assert(u[1] == hdr[1]);
            assert(u[2] == hdr[2]);
            assert(u[3] == hdr[3]);
            assert(u[4] == hdr[4]);
            assert(u[5] == hdr[5]);
            assert(u[6] == hdr[6]);
            assert(u[7] == hdr[7]);
            assert(u[8] == hdr[8]);
            assert(u[9] == hdr[9]);
        }
        assert(u.skip(HEADER_LEN as int) =~= chunk + t);
        assert((chunk + t).take(chunk.len() as int) =~= chunk);
        assert((chunk + t).skip(chunk.len() as int) =~= t);
    }
    assert forall|t: Seq<u8>| #[trigger] read_frames(s1 + t) == (if last {
        Some((p1, s1.len()))
    } else {
        continued(p1, s1.len(), read_frames(t))
    }) by {
        assert(s1 + t =~= s0 + (hdr + chunk + t));
        assert(read_frames(s0 + (hdr + chunk + t)) == continued(
            p0,
            s0.len(),
            read_frames(hdr + chunk + t),
        ));
        if !last {
            match read_frames(t) {
                Some((x, m)) => {
                    assert(p0 + (chunk + x) =~= p1 + x);
                },
                None => {},
            }
        }
    }
}

} // verus!

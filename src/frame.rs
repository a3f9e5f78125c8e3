//! Length-prefixed frames: `BE32(len) || BE32(!len) || payload[len]`.
use vstd::prelude::*;
use vstd::math::min;

verus! {

/// Number of header bytes in front of every payload.
pub const HEAD_LEN: usize = 8;

/// Big-endian bytes of a 32-bit value.
pub open spec fn be32(x: u32) -> Seq<u8> {
    seq![(x >> 24u32) as u8, (x >> 16u32) as u8, (x >> 8u32) as u8, x as u8]
}

/// The 32-bit value of four big-endian bytes.
pub open spec fn be32_value(b0: u8, b1: u8, b2: u8, b3: u8) -> u32 {
    ((b0 as u32) << 24u32) | ((b1 as u32) << 16u32) | ((b2 as u32) << 8u32) | (b3 as u32)
}

/// The header announcing a payload of `len` bytes.
pub open spec fn header(len: u32) -> Seq<u8> {
    be32(len) + be32(!len)
}

/// The payload length that an 8-byte header announces, or `None` when its
/// second word is not the complement of its first.
pub open spec fn head_len(h: Seq<u8>) -> Option<u32> {
    let a = be32_value(h[0], h[1], h[2], h[3]);
    let b = be32_value(h[4], h[5], h[6], h[7]);
    if a == !b {
        Some(a)
    } else {
        None
    }
}

/// The bytes of one frame carrying `p`.
pub open spec fn frame_of(p: Seq<u8>) -> Seq<u8> {
    header(p.len() as u32) + p
}

proof fn lemma_be32_value(x: u32)
    ensures
        be32_value(be32(x)[0], be32(x)[1], be32(x)[2], be32(x)[3]) == x,
{
    let b0 = (x >> 24u32) as u8;
    let b1 = (x >> 16u32) as u8;
    let b2 = (x >> 8u32) as u8;
    let b3 = x as u8;
    assert(((b0 as u32) << 24u32) | ((b1 as u32) << 16u32) | ((b2 as u32) << 8u32) | (b3 as u32)
        == x) by (bit_vector)
        requires
            b0 == (x >> 24u32) as u8,
            b1 == (x >> 16u32) as u8,
            b2 == (x >> 8u32) as u8,
            b3 == x as u8,
    ;
}

/// Every header that `header` builds announces its own length.
pub proof fn lemma_header_len(len: u32)
    ensures
        header(len).len() == HEAD_LEN,
        head_len(header(len)) == Some(len),
{
    lemma_be32_value(len);
    lemma_be32_value(!len);
    let h = header(len);
    assert(h[0] == be32(len)[0] && h[1] == be32(len)[1] && h[2] == be32(len)[2] && h[3]
        == be32(len)[3]);
    assert(h[4] == be32(!len)[0] && h[5] == be32(!len)[1] && h[6] == be32(!len)[2] && h[7]
        == be32(!len)[3]);
    assert(!!len == len) by (bit_vector);
}

/// Builds the 8-byte header for a payload of `len` bytes.
pub fn encode_head(len: u32) -> (r: Vec<u8>)
    ensures
        r@ == header(len),
{
    let n = !len;
    let r = vec![
        (len >> 24u32) as u8,
        (len >> 16u32) as u8,
        (len >> 8u32) as u8,
        len as u8,
        (n >> 24u32) as u8,
        (n >> 16u32) as u8,
        (n >> 8u32) as u8,
        n as u8,
    ];
    assert(r@ =~= header(len));
    r
}

/// Checks an 8-byte header: the announced length when the second word is the
/// complement of the first.
pub fn verify_head(buf: &[u8]) -> (r: Option<u32>)
    requires
        buf@.len() == HEAD_LEN,
    ensures
        r == head_len(buf@),
{
    let slen = ((buf[0] as u32) << 24u32) | ((buf[1] as u32) << 16u32) | ((buf[2] as u32) << 8u32)
        | (buf[3] as u32);
    let rslen = ((buf[4] as u32) << 24u32) | ((buf[5] as u32) << 16u32) | ((buf[6] as u32) << 8u32)
        | (buf[7] as u32);
    if slen != !rslen {
        None
    } else {
        Some(slen)
    }
}

/// What a failed socket operation reports to the framing layer.
#[derive(Debug)]
pub enum IoError {
    /// Nothing can be read or written right now.
    WouldBlock,
    /// Any other failure, with its description.
    Failed(String),
}

/// Errors surfaced by the framing layer.
#[derive(Debug)]
pub enum ErrorType {
    /// The socket operation itself failed.
    IO(IoError),
    /// The header's second word was not the complement of its first; holds the header.
    NotPackage(Vec<u8>),
    /// The header arrived short; holds what came (empty: the peer closed).
    MissingHead(Vec<u8>),
    /// The body arrived short; holds what came.
    TransmissionInterrupted(Vec<u8>),
    /// Any other failure, with the bytes that came.
    Other(Vec<u8>),
    /// Progress was made but no frame is complete yet.
    Pending,
}

impl ErrorType {
    /// Whether a session may go on after this error: a pending read, a
    /// partial header that may still complete, or a would-block.
    pub open spec fn continuable(&self) -> bool {
        match self {
            ErrorType::Pending => true,
            ErrorType::MissingHead(v) => v@.len() != 0,
            ErrorType::IO(IoError::WouldBlock) => true,
            _ => false,
        }
    }

    /// `None` when the session may go on, otherwise the error that ends it.
    pub fn can_continue(self) -> (r: Option<ErrorType>)
        ensures
            r is None <==> self.continuable(),
            r is Some ==> r->0 == self,
    {
        let go_on = match &self {
            ErrorType::Pending => true,
            ErrorType::MissingHead(v) => v.len() != 0,
            ErrorType::IO(IoError::WouldBlock) => true,
            _ => false,
        };
        if go_on {
            None
        } else {
            Some(self)
        }
    }
}

/// Splits a byte stream into the payload of its first frame and the bytes
/// after it, when the stream starts with a whole valid frame.
pub open spec fn frame_split(s: Seq<u8>) -> Option<(Seq<u8>, Seq<u8>)> {
    if s.len() < HEAD_LEN {
        None
    } else {
        match head_len(s.take(HEAD_LEN as int)) {
            Some(l) => if s.len() - HEAD_LEN >= l {
                Some((s.subrange(HEAD_LEN as int, HEAD_LEN + l), s.skip(HEAD_LEN + l)))
            } else {
                None
            },
            None => None,
        }
    }
}

/// Builds the bytes of one frame carrying `data`.
pub fn encode_frame(data: &[u8]) -> (r: Vec<u8>)
    requires
        data@.len() <= u32::MAX,
    ensures
        r@ == frame_of(data@),
{
    let mut r = encode_head(data.len() as u32);
    let mut i: usize = 0;
    while i < data.len()
        invariant
            i <= data@.len(),
            r@ == header(data@.len() as u32) + data@.take(i as int),
        decreases data@.len() - i,
    {
        r.push(data[i]);
        i += 1;
        assert(data@.take(i as int) =~= data@.take(i - 1) + seq![data@[i - 1]]);
    }
    assert(data@.take(i as int) =~= data@);
    r
}

/// Judges the bytes that came for a header: its length when all 8 came and
/// the complement check holds.
pub fn check_head(got: &[u8]) -> (r: Result<u32, ErrorType>)
    requires
        got@.len() <= HEAD_LEN,
    ensures
        got@.len() < HEAD_LEN ==> (r matches Err(ErrorType::MissingHead(v)) && v@ == got@),
        got@.len() == HEAD_LEN ==> match head_len(got@) {
            Some(l) => r == Ok::<u32, ErrorType>(l),
            None => r matches Err(ErrorType::NotPackage(v)) && v@ == got@,
        },
{
    if got.len() < HEAD_LEN {
        return Err(ErrorType::MissingHead(copy_bytes(got)));
    }
    match verify_head(got) {
        Some(l) => Ok(l),
        None => Err(ErrorType::NotPackage(copy_bytes(got))),
    }
}

/// Judges the bytes that came for a body of `len` bytes.
pub fn check_body(len: u32, got: Vec<u8>) -> (r: Result<Vec<u8>, ErrorType>)
    requires
        got@.len() <= len,
    ensures
        got@.len() == len ==> (r matches Ok(v) && v@ == got@),
        got@.len() < len ==> (r matches Err(ErrorType::TransmissionInterrupted(v)) && v@ == got@),
{
    if got.len() == len as usize {
        Ok(got)
    } else {
        Err(ErrorType::TransmissionInterrupted(got))
    }
}

fn copy_bytes(b: &[u8]) -> (r: Vec<u8>)
    ensures
        r@ == b@,
{
    let mut r: Vec<u8> = Vec::new();
    let mut i: usize = 0;
    while i < b.len()
        invariant
            i <= b@.len(),
            r@ == b@.take(i as int),
        decreases b@.len() - i,
    {
        r.push(b[i]);
        i += 1;
        assert(b@.take(i as int) =~= b@.take(i - 1) + seq![b@[i - 1]]);
    }
    assert(b@.take(i as int) =~= b@);
    r
}


/// An in-memory byte stream: what is written is read back in order.
pub struct MemStream {
    buf: Vec<u8>,
}

impl View for MemStream {
    type V = Seq<u8>;

    /// The bytes not read yet.
    closed spec fn view(&self) -> Seq<u8> {
        self.buf@
    }
}

impl MemStream {
    pub fn new() -> (r: MemStream)
        ensures
            r@ == Seq::<u8>::empty(),
    {
        MemStream { buf: Vec::new() }
    }

    /// Number of bytes not read yet.
    pub fn available(&self) -> (r: usize)
        ensures
            r == self@.len(),
    {
        self.buf.len()
    }

    /// Appends raw bytes to the stream.
    pub fn push_bytes(&mut self, data: &[u8])
        ensures
            final(self)@ == old(self)@ + data@,
    {
        let ghost before = self@;
        let mut i: usize = 0;
        while i < data.len()
            invariant
                i <= data@.len(),
                self@ == before + data@.take(i as int),
            decreases data@.len() - i,
        {
            self.buf.push(data[i]);
            i += 1;
            assert(self@ =~= before + data@.take(i as int));
        }
        assert(data@.take(i as int) =~= data@);
    }

    /// Reads up to `max` bytes: as many as are there.
    pub fn take_bytes(&mut self, max: usize) -> (r: Vec<u8>)
        ensures
            r@ == old(self)@.take(min(max as int, old(self)@.len() as int)),
            final(self)@ == old(self)@.skip(min(max as int, old(self)@.len() as int)),
    {
        let n = if max < self.buf.len() {
            max
        } else {
            self.buf.len()
        };
        let mut r: Vec<u8> = Vec::new();
        let mut rest: Vec<u8> = Vec::new();
        let mut i: usize = 0;
        while i < self.buf.len()
            invariant
                i <= self.buf@.len(),
                n <= self.buf@.len(),
                r@ == self.buf@.take(min(i as int, n as int)),
                rest@ == if i <= n {
                    Seq::<u8>::empty()
                } else {
                    self.buf@.subrange(n as int, i as int)
                },
            decreases self.buf@.len() - i,
        {
            if i < n {
                r.push(self.buf[i]);
            } else {
                rest.push(self.buf[i]);
            }
            i += 1;
            assert(r@ =~= self.buf@.take(min(i as int, n as int)));
            assert(rest@ =~= if i <= n {
                Seq::<u8>::empty()
            } else {
                self.buf@.subrange(n as int, i as int)
            });
        }
        assert(rest@ =~= self.buf@.skip(n as int));
        self.buf = rest;
        r
    }
}

/// Reads one frame from the stream: 8 header bytes, the complement check,
/// then the body. A bad header consumes those 8 bytes and nothing more.
pub fn read(stm: &mut MemStream) -> (r: Result<Vec<u8>, ErrorType>)
    ensures
        ({
            let s = old(stm)@;
            if s.len() < HEAD_LEN {
                &&& r matches Err(ErrorType::MissingHead(v)) && v@ == s
                &&& final(stm)@ == Seq::<u8>::empty()
            } else {
                match head_len(s.take(HEAD_LEN as int)) {
                    None => {
                        &&& r matches Err(ErrorType::NotPackage(v)) && v@ == s.take(HEAD_LEN as int)
                        &&& final(stm)@ == s.skip(HEAD_LEN as int)
                    },
                    Some(l) => if s.len() - HEAD_LEN >= l {
                        &&& r matches Ok(v) && frame_split(s) == Some((v@, final(stm)@))
                    } else {
                        &&& r matches Err(ErrorType::TransmissionInterrupted(v)) && v@ == s.skip(HEAD_LEN as int)
                        &&& final(stm)@ == Seq::<u8>::empty()
                    },
                }
            }
        }),
{
    let ghost s = stm@;
    let head = stm.take_bytes(HEAD_LEN);
    let len = match check_head(head.as_slice()) {
        Ok(l) => l,
        Err(e) => return Err(e),
    };
    let ghost after_head = stm@;
    let body = stm.take_bytes(len as usize);
    assert(s.skip(HEAD_LEN as int).take(min(len as int, after_head.len() as int)) =~= if after_head.len() >= len {
        s.subrange(HEAD_LEN as int, HEAD_LEN + len)
    } else {
        s.skip(HEAD_LEN as int)
    });
    assert(s.skip(HEAD_LEN as int).skip(min(len as int, after_head.len() as int)) =~= s.skip(
        HEAD_LEN + min(len as int, after_head.len() as int),
    ));
    check_body(len, body)
}

/// Writes one frame carrying `data` to the stream.
pub fn write(stm: &mut MemStream, data: &[u8])
    requires
        data@.len() <= u32::MAX,
    ensures
        final(stm)@ == old(stm)@ + frame_of(data@),
{
    let f = encode_frame(data);
    stm.push_bytes(f.as_slice());
}

/// Reading back what was written gives the payload, and leaves the stream
/// where it stood behind the frame.
pub proof fn lemma_frame_round_trip(p: Seq<u8>, rest: Seq<u8>)
    requires
        p.len() <= u32::MAX,
    ensures
        frame_split(frame_of(p) + rest) == Some((p, rest)),
{
    let s = frame_of(p) + rest;
    lemma_header_len(p.len() as u32);
    assert(s.take(HEAD_LEN as int) =~= header(p.len() as u32));
    assert(s.subrange(HEAD_LEN as int, HEAD_LEN + p.len()) =~= p);
    assert(s.skip(HEAD_LEN + p.len()) =~= rest);
}

/// An empty payload travels as exactly the 8 header bytes, and reads back as
/// an empty payload.
pub proof fn lemma_heartbeat(rest: Seq<u8>)
    ensures
        frame_of(Seq::<u8>::empty()).len() == HEAD_LEN,
        frame_of(Seq::<u8>::empty()) == header(0),
        frame_split(header(0) + rest) == Some((Seq::<u8>::empty(), rest)),
{
    lemma_header_len(0);
    assert(frame_of(Seq::<u8>::empty()) =~= header(0));
    lemma_frame_round_trip(Seq::<u8>::empty(), rest);
}


fn append_bytes(v: &mut Vec<u8>, c: &[u8])
    ensures
        final(v)@ == old(v)@ + c@,
{
    let ghost before = v@;
    let mut i: usize = 0;
    while i < c.len()
        invariant
            i <= c@.len(),
            v@ == before + c@.take(i as int),
        decreases c@.len() - i,
    {
        v.push(c[i]);
        i += 1;
        assert(v@ =~= before + c@.take(i as int));
    }
    assert(c@.take(i as int) =~= c@);
}

/// The payload length announced by the bytes collected for a frame, once the
/// header is whole.
pub open spec fn announced(s: Seq<u8>) -> u32 {
    match head_len(s.take(HEAD_LEN as int)) {
        Some(l) => l,
        None => 0,
    }
}

/// The bytes collected for one frame form a valid beginning of a frame: a
/// partial header, or a checked header and no more body than it announces.
pub open spec fn collecting(s: Seq<u8>) -> bool {
    s.len() < HEAD_LEN || (head_len(s.take(HEAD_LEN as int)) is Some && s.len() <= HEAD_LEN
        + announced(s))
}

/// Whether the bytes collected are a whole frame.
pub open spec fn whole(s: Seq<u8>) -> bool {
    s.len() >= HEAD_LEN && s.len() == HEAD_LEN + announced(s)
}

/// How many more bytes the current phase needs.
pub open spec fn wanted(s: Seq<u8>) -> int {
    if s.len() < HEAD_LEN {
        HEAD_LEN - s.len()
    } else {
        HEAD_LEN + announced(s) - s.len()
    }
}

/// The bytes collected after a read brought the nonempty chunk `c`: a header
/// that fails the complement check is dropped.
pub open spec fn after_chunk(s: Seq<u8>, c: Seq<u8>) -> Seq<u8> {
    let t = s + c;
    if t.len() == HEAD_LEN && head_len(t) is None {
        Seq::empty()
    } else {
        t
    }
}

/// A reader that assembles one frame from reads of any size, across many
/// wake-ups: first the 8 header bytes, then the body it announces.
pub struct TryRead {
    head: Vec<u8>,
    body_len: Option<u32>,
    pkg: Vec<u8>,
}

impl View for TryRead {
    type V = Seq<u8>;

    /// The bytes of the current frame collected so far.
    closed spec fn view(&self) -> Seq<u8> {
        self.head@ + self.pkg@
    }
}

impl TryRead {
    pub closed spec fn wf(&self) -> bool {
        &&& self.head@.len() <= HEAD_LEN
        &&& self.head@.len() < HEAD_LEN ==> self.pkg@.len() == 0 && self.body_len is None
        &&& self.head@.len() == HEAD_LEN ==> {
            &&& self.body_len == head_len(self.head@)
            &&& self.body_len is Some
            &&& self.pkg@.len() <= self.body_len->0
        }
    }

    proof fn lemma_view(&self)
        requires
            self.wf(),
        ensures
            collecting(self@),
            self@.len() >= HEAD_LEN ==> self@.take(HEAD_LEN as int) == self.head@ && self.body_len
                == Some(announced(self@)) && self@.skip(HEAD_LEN as int) == self.pkg@,
    {
        if self.head@.len() == HEAD_LEN {
            assert(self@.take(HEAD_LEN as int) =~= self.head@);
            assert(self@.skip(HEAD_LEN as int) =~= self.pkg@);
        } else {
            assert(self@ =~= self.head@);
        }
    }

    pub fn new() -> (r: TryRead)
        ensures
            r.wf(),
            r@ == Seq::<u8>::empty(),
    {
        let r = TryRead { head: Vec::new(), body_len: None, pkg: Vec::new() };
        assert(r@ =~= Seq::<u8>::empty());
        r
    }

    /// How many bytes the next read should ask for: the rest of the header,
    /// or the rest of the body; 0 once a frame is whole.
    pub fn wanted(&self) -> (r: usize)
        requires
            self.wf(),
        ensures
            r == wanted(self@),
    {
        proof {
            self.lemma_view();
        }
        match self.body_len {
            None => HEAD_LEN - self.head.len(),
            Some(l) => l as usize - self.pkg.len(),
        }
    }

    /// Takes the outcome of one non-blocking read of at most `wanted()` bytes.
    /// `Ok(len)` when a frame of `len` payload bytes is whole (fetch it with
    /// `package`); `Err(Pending)` after progress; `Err(NotPackage)` with the
    /// header after a failed complement check, which resets the reader;
    /// `Err(MissingHead)` empty or `Err(TransmissionInterrupted)` when the
    /// read found the stream closed; the read's own error as `Err(IO)`.
    pub fn poll(&mut self, got: Result<&[u8], IoError>) -> (r: Result<u32, ErrorType>)
        requires
            old(self).wf(),
            got matches Ok(c) ==> c@.len() <= wanted(old(self)@),
        ensures
            final(self).wf(),
            ({
                let s = old(self)@;
                match got {
                    Err(e) => r == Err::<u32, ErrorType>(ErrorType::IO(e)) && final(self)@ == s,
                    Ok(c) => if whole(s) {
                        r == Ok::<u32, ErrorType>(announced(s)) && final(self)@ == s
                    } else if c@.len() == 0 {
                        &&& final(self)@ == s
                        &&& s.len() < HEAD_LEN ==> (r matches Err(ErrorType::MissingHead(v))
                            && v@.len() == 0)
                        &&& s.len() >= HEAD_LEN ==> (r matches Err(
                            ErrorType::TransmissionInterrupted(v),
                        ) && v@ == s.skip(HEAD_LEN as int))
                    } else {
                        let t = s + c@;
                        &&& final(self)@ == after_chunk(s, c@)
                        &&& t.len() < HEAD_LEN ==> (r matches Err(ErrorType::Pending))
                        &&& t.len() >= HEAD_LEN && head_len(t.take(HEAD_LEN as int)) is None
                            ==> (r matches Err(ErrorType::NotPackage(v)) && v@ == t)
                        &&& t.len() >= HEAD_LEN && head_len(t.take(HEAD_LEN as int)) is Some
                            ==> if whole(t) {
                            r == Ok::<u32, ErrorType>(announced(t))
                        } else {
                            (r matches Err(ErrorType::Pending))
                        }
                    },
                }
            }),
    {
        proof {
            self.lemma_view();
        }
        let ghost s = self@;
        let c = match got {
            Err(e) => return Err(ErrorType::IO(e)),
            Ok(c) => c,
        };
        match self.body_len {
            None => {
                if c.len() == 0 {
                    return Err(ErrorType::MissingHead(Vec::new()));
                }
                append_bytes(&mut self.head, c);
                assert(self@ =~= s + c@);
                if self.head.len() < HEAD_LEN {
                    return Err(ErrorType::Pending);
                }
                assert((s + c@).take(HEAD_LEN as int) =~= self.head@);
                match verify_head(self.head.as_slice()) {
                    None => {
                        let mut h: Vec<u8> = Vec::new();
                        std::mem::swap(&mut h, &mut self.head);
                        assert(self@ =~= Seq::<u8>::empty());
                        Err(ErrorType::NotPackage(h))
                    },
                    Some(l) => {
                        self.body_len = Some(l);
                        proof {
                            self.lemma_view();
                        }
                        if l == 0 {
                            Ok(0)
                        } else {
                            Err(ErrorType::Pending)
                        }
                    },
                }
            },
            Some(l) => {
                if self.pkg.len() == l as usize {
                    return Ok(l);
                }
                if c.len() == 0 {
                    return Err(ErrorType::TransmissionInterrupted(copy_bytes(self.pkg.as_slice())));
                }
                append_bytes(&mut self.pkg, c);
                assert(self@ =~= s + c@);
                proof {
                    self.lemma_view();
                }
                if self.pkg.len() == l as usize {
                    Ok(l)
                } else {
                    Err(ErrorType::Pending)
                }
            },
        }
    }

    /// Drops whatever was collected.
    pub fn clear(&mut self)
        ensures
            final(self).wf(),
            final(self)@ == Seq::<u8>::empty(),
    {
        self.head = Vec::new();
        self.body_len = None;
        self.pkg = Vec::new();
        assert(self@ =~= Seq::<u8>::empty());
    }

    /// Hands out the body collected so far (the whole payload once `poll`
    /// said `Ok`) and makes the reader ready for the next frame.
    pub fn package(&mut self) -> (r: Vec<u8>)
        requires
            old(self).wf(),
        ensures
            final(self).wf(),
            final(self)@ == Seq::<u8>::empty(),
            r@ == if old(self)@.len() >= HEAD_LEN {
                old(self)@.skip(HEAD_LEN as int)
            } else {
                Seq::<u8>::empty()
            },
    {
        proof {
            self.lemma_view();
        }
        let mut r: Vec<u8> = Vec::new();
        std::mem::swap(&mut r, &mut self.pkg);
        self.head = Vec::new();
        self.body_len = None;
        assert(self@ =~= Seq::<u8>::empty());
        r
    }
}


/// The bytes collected after one read event: `None` is a would-block read,
/// which leaves the reader as it was.
pub open spec fn step(s: Seq<u8>, e: Option<Seq<u8>>) -> Seq<u8> {
    match e {
        Some(c) => after_chunk(s, c),
        None => s,
    }
}

/// The bytes collected after a run of read events.
pub open spec fn feed(s: Seq<u8>, ev: Seq<Option<Seq<u8>>>) -> Seq<u8>
    decreases ev.len(),
{
    if ev.len() == 0 {
        s
    } else {
        feed(step(s, ev[0]), ev.drop_first())
    }
}

/// The bytes that a run of read events delivers, in order.
pub open spec fn delivered(ev: Seq<Option<Seq<u8>>>) -> Seq<u8>
    decreases ev.len(),
{
    if ev.len() == 0 {
        Seq::empty()
    } else {
        match ev[0] {
            Some(c) => c + delivered(ev.drop_first()),
            None => delivered(ev.drop_first()),
        }
    }
}

/// Every read in the run brings at least one byte and no more than the
/// reader asked for.
pub open spec fn fits(s: Seq<u8>, ev: Seq<Option<Seq<u8>>>) -> bool
    decreases ev.len(),
{
    if ev.len() == 0 {
        true
    } else {
        &&& ev[0] matches Some(c) ==> 0 < c.len() <= wanted(s)
        &&& fits(step(s, ev[0]), ev.drop_first())
    }
}

proof fn lemma_frame_prefix(p: Seq<u8>, k: int)
    requires
        p.len() <= u32::MAX,
        HEAD_LEN <= k <= frame_of(p).len(),
    ensures
        head_len(frame_of(p).take(k).take(HEAD_LEN as int)) == Some(p.len() as u32),
        announced(frame_of(p).take(k)) == p.len(),
{
    lemma_header_len(p.len() as u32);
    assert(frame_of(p).take(k).take(HEAD_LEN as int) =~= header(p.len() as u32));
}

proof fn lemma_feed_frame(p: Seq<u8>, k: int, ev: Seq<Option<Seq<u8>>>)
    requires
        p.len() <= u32::MAX,
        0 <= k <= frame_of(p).len(),
        fits(frame_of(p).take(k), ev),
        frame_of(p).take(k) + delivered(ev) == frame_of(p),
    ensures
        feed(frame_of(p).take(k), ev) == frame_of(p),
        forall|j: int|
            0 <= j <= ev.len() ==> #[trigger] feed(frame_of(p).take(k), ev.take(j)) == frame_of(
                p,
            ).take(k + delivered(ev.take(j)).len()),
    decreases ev.len(),
{
    let f = frame_of(p);
    let s = f.take(k);
    if ev.len() == 0 {
        assert(ev.take(0) =~= ev);
        assert forall|j: int| 0 <= j <= ev.len() implies #[trigger] feed(s, ev.take(j)) == f.take(
            k + delivered(ev.take(j)).len(),
        ) by {
            assert(ev.take(j) =~= ev);
        }
        return;
    }
    let rest = ev.drop_first();
    let k2 = match ev[0] {
        Some(c) => k + c.len(),
        None => k,
    };
    assert(step(s, ev[0]) == f.take(k2) && f.take(k2) + delivered(rest) == f) by {
        match ev[0] {
            Some(c) => {
                assert(s + c + delivered(rest) == f);
                assert(s + c =~= f.take(k2)) by {
                    assert(f.take(k2) =~= (s + c + delivered(rest)).take(k2));
                }
                assert(f.take(k2) + delivered(rest) =~= f) by {
                    assert(s + c + delivered(rest) =~= s + (c + delivered(rest)));
                }
                if (s + c).len() == HEAD_LEN {
                    lemma_frame_prefix(p, HEAD_LEN as int);
                    assert(f.take(k2).take(HEAD_LEN as int) =~= f.take(k2));
                }
            },
            None => {
                assert(f.take(k2) =~= s);
            },
        }
    }
    lemma_feed_frame(p, k2, rest);
    assert forall|j: int| 0 <= j <= ev.len() implies #[trigger] feed(s, ev.take(j)) == f.take(
        k + delivered(ev.take(j)).len(),
    ) by {
        if j > 0 {
            let pre = ev.take(j);
            assert(pre[0] == ev[0]);
            assert(pre.drop_first() =~= rest.take(j - 1));
            assert(feed(s, pre) == feed(step(s, ev[0]), rest.take(j - 1)));
            assert(feed(f.take(k2), rest.take(j - 1)) == f.take(
                k2 + delivered(rest.take(j - 1)).len(),
            ));
        } else {
            assert(ev.take(j) =~= Seq::<Option<Seq<u8>>>::empty());
            assert(f.take(k) =~= s);
        }
    }
}

/// However the bytes of one frame are cut into reads, with would-block reads
/// in between, the reader holds after each read exactly the bytes delivered
/// so far; it holds a whole frame only once every byte has come, and the
/// payload it then hands out is the one that was sent.
pub proof fn lemma_resumable_read(p: Seq<u8>, ev: Seq<Option<Seq<u8>>>)
    requires
        p.len() <= u32::MAX,
        fits(Seq::<u8>::empty(), ev),
        delivered(ev) == frame_of(p),
    ensures
        feed(Seq::<u8>::empty(), ev) == frame_of(p),
        forall|j: int|
            0 <= j <= ev.len() ==> #[trigger] feed(Seq::<u8>::empty(), ev.take(j)) == frame_of(
                p,
            ).take(delivered(ev.take(j)).len() as int),
        forall|m: int| 0 <= m < frame_of(p).len() ==> !whole(#[trigger] frame_of(p).take(m)),
        whole(frame_of(p)),
        frame_of(p).skip(HEAD_LEN as int) == p,
{
    let f = frame_of(p);
    assert(f.take(0) =~= Seq::<u8>::empty());
    assert(f.take(0) + delivered(ev) =~= delivered(ev));
    lemma_feed_frame(p, 0, ev);
    assert forall|m: int| 0 <= m < f.len() implies !whole(#[trigger] f.take(m)) by {
        if m >= HEAD_LEN {
            lemma_frame_prefix(p, m);
        }
    }
    lemma_frame_prefix(p, f.len() as int);
    assert(f.take(f.len() as int) =~= f);
    assert(f.skip(HEAD_LEN as int) =~= p);
}

} // verus!

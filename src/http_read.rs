//! The streaming request reader: a byte-at-a-time state machine that frames
//! HTTP requests (method, URL, `Content-Length`, header end, body) off a
//! connection's byte stream.
use vstd::prelude::*;

verus! {

/// Where the scan for the `Content-Length:` header stands.
#[derive(Clone, Copy, PartialEq, Eq, Structural, Debug)]
pub enum ContentLengthState {
    ReadingName,
    ReadingWhitespace,
    ReadingNumber,
}

/// Which part of the request is being read.
#[derive(Clone, Copy, PartialEq, Eq, Structural, Debug)]
pub enum HTTPReadState {
    ReadingMethod,
    ReadingUrl,
    ReadingContentLength,
    ReadingUntilBody,
    ReadingBody,
}

/// The reader's parse state as plain values.
pub struct ReadModel {
    /// Bytes of the current request read so far.
    pub request: Seq<u8>,
    /// The URL of the current request, as far as it has been read.
    pub url: Seq<u8>,
    /// How many bytes of `Content-Length:` are matched.
    pub cl_ptr: nat,
    /// The content length, once known.
    pub content_length: Option<nat>,
    /// The characters of the content length value read so far.
    pub digits: Seq<u8>,
    pub cl_state: ContentLengthState,
    pub read_state: HTTPReadState,
    /// How many bytes of the header terminator are matched.
    pub hdr_ptr: nat,
    /// Body bytes still to come.
    pub body_left: nat,
}

/// `Content-Length:`
pub open spec fn content_length_name() -> Seq<u8> {
    seq![67u8, 111, 110, 116, 101, 110, 116, 45, 76, 101, 110, 103, 116, 104, 58]
}

/// The end of a header block after the last line's carriage return: `\n\r\n`.
pub open spec fn header_end() -> Seq<u8> {
    seq![10u8, 13, 10]
}

/// `GET `
pub open spec fn get_method() -> Seq<u8> {
    seq![71u8, 69, 84, 32]
}

pub open spec fn is_blank(c: u8) -> bool {
    c == 32 || c == 9
}

/// The number that the decimal digits of `d` spell, other bytes skipped.
pub open spec fn digits_value(d: Seq<u8>) -> nat
    decreases d.len(),
{
    if d.len() == 0 {
        0
    } else {
        let v = digits_value(d.drop_last());
        let c = d.last();
        if 48 <= c <= 57 {
            v * 10 + (c - 48) as nat
        } else {
            v
        }
    }
}

/// A value capped at the largest `usize`.
pub open spec fn saturate(v: nat) -> nat {
    if v > usize::MAX {
        usize::MAX as nat
    } else {
        v
    }
}

/// The state at the start of a request.
pub open spec fn initial_model() -> ReadModel {
    ReadModel {
        request: Seq::empty(),
        url: Seq::empty(),
        cl_ptr: 0,
        content_length: None,
        digits: Seq::empty(),
        cl_state: ContentLengthState::ReadingName,
        read_state: HTTPReadState::ReadingMethod,
        hdr_ptr: 0,
        body_left: 0,
    }
}

/// A byte of the content length value: a carriage return fixes the length
/// from the digits read, any other byte is added to them.
pub open spec fn number_byte(m: ReadModel, c: u8) -> ReadModel {
    if c == 13 {
        ReadModel {
            content_length: Some(saturate(digits_value(m.digits))),
            digits: Seq::empty(),
            cl_state: ContentLengthState::ReadingNumber,
            ..m
        }
    } else {
        ReadModel { digits: m.digits.push(c), cl_state: ContentLengthState::ReadingNumber, ..m }
    }
}

/// The `Content-Length` scan on one byte. The name is matched with a rolling
/// count that restarts on a mismatch; once the colon is matched, blanks are
/// skipped, and the first other byte starts the value.
pub open spec fn cl_step(m: ReadModel, c: u8) -> ReadModel {
    match m.cl_state {
        ContentLengthState::ReadingName => if m.cl_ptr < content_length_name().len() && c
            == content_length_name()[m.cl_ptr as int] {
            if m.cl_ptr + 1 == content_length_name().len() {
                ReadModel { cl_ptr: 0, cl_state: ContentLengthState::ReadingWhitespace, ..m }
            } else {
                ReadModel { cl_ptr: m.cl_ptr + 1, ..m }
            }
        } else {
            ReadModel { cl_ptr: 0, ..m }
        },
        ContentLengthState::ReadingWhitespace => if is_blank(c) {
            m
        } else {
            number_byte(m, c)
        },
        ContentLengthState::ReadingNumber => number_byte(m, c),
    }
}

/// The header terminator match count after `c`.
pub open spec fn next_hdr_ptr(m: ReadModel, c: u8) -> nat {
    if m.hdr_ptr < 3 && c == header_end()[m.hdr_ptr as int] {
        m.hdr_ptr + 1
    } else {
        0
    }
}

pub open spec fn length_or_zero(m: ReadModel) -> nat {
    match m.content_length {
        Some(n) => n,
        None => 0,
    }
}

/// The byte `c` ends the current request.
pub open spec fn completes(m: ReadModel, c: u8) -> bool {
    match m.read_state {
        HTTPReadState::ReadingUntilBody => next_hdr_ptr(m, c) == 3 && length_or_zero(m) == 0,
        HTTPReadState::ReadingBody => m.body_left <= 1,
        _ => false,
    }
}

/// The state after `c`, where `c` does not end the request.
pub open spec fn advance(m0: ReadModel, c: u8) -> ReadModel {
    let m = ReadModel { request: m0.request.push(c), ..m0 };
    match m.read_state {
        HTTPReadState::ReadingMethod => if is_blank(c) {
            ReadModel {
                content_length: if m.request == get_method() {
                    Some(0)
                } else {
                    m.content_length
                },
                read_state: HTTPReadState::ReadingUrl,
                ..m
            }
        } else {
            m
        },
        HTTPReadState::ReadingUrl => if is_blank(c) {
            ReadModel { read_state: HTTPReadState::ReadingContentLength, ..m }
        } else {
            ReadModel { url: m.url.push(c), ..m }
        },
        HTTPReadState::ReadingContentLength => {
            let m2 = cl_step(m, c);
            if m2.content_length is Some {
                ReadModel { read_state: HTTPReadState::ReadingUntilBody, ..m2 }
            } else {
                m2
            }
        },
        HTTPReadState::ReadingUntilBody => if next_hdr_ptr(m, c) == 3 {
            ReadModel {
                hdr_ptr: 0,
                body_left: length_or_zero(m),
                read_state: HTTPReadState::ReadingBody,
                ..m
            }
        } else {
            ReadModel { hdr_ptr: next_hdr_ptr(m, c), ..m }
        },
        HTTPReadState::ReadingBody => ReadModel { body_left: (m.body_left - 1) as nat, ..m },
    }
}

/// The transition on one byte: a completed request starts the next afresh.
pub open spec fn step(m: ReadModel, c: u8) -> ReadModel {
    if completes(m, c) {
        initial_model()
    } else {
        advance(m, c)
    }
}

/// What the byte `c` emits: the whole request and its URL when it ends one.
pub open spec fn output(m: ReadModel, c: u8) -> Option<(Seq<u8>, Seq<u8>)> {
    if completes(m, c) {
        Some((m.request.push(c), m.url))
    } else {
        None
    }
}

/// The state after feeding `bytes`.
pub open spec fn run(m: ReadModel, bytes: Seq<u8>) -> ReadModel
    decreases bytes.len(),
{
    if bytes.len() == 0 {
        m
    } else {
        step(run(m, bytes.drop_last()), bytes.last())
    }
}

/// The requests emitted while feeding `bytes`, in order.
pub open spec fn outputs(m: ReadModel, bytes: Seq<u8>) -> Seq<(Seq<u8>, Seq<u8>)>
    decreases bytes.len(),
{
    if bytes.len() == 0 {
        Seq::empty()
    } else {
        let prev = bytes.drop_last();
        outputs(m, prev) + match output(run(m, prev), bytes.last()) {
            Some(o) => seq![o],
            None => Seq::empty(),
        }
    }
}

/// How a byte stream is cut into chunks makes no difference: feeding `a`
/// and then `b` reaches the state that feeding `a + b` reaches, and emits
/// the same requests in the same order.
pub proof fn lemma_chunking(m: ReadModel, a: Seq<u8>, b: Seq<u8>)
    ensures
        run(m, a + b) == run(run(m, a), b),
        outputs(m, a + b) == outputs(m, a) + outputs(run(m, a), b),
    decreases b.len(),
{
    if b.len() == 0 {
        assert(a + b =~= a);
        assert(outputs(m, a) + outputs(run(m, a), b) =~= outputs(m, a));
    } else {
        lemma_chunking(m, a, b.drop_last());
        assert((a + b).drop_last() =~= a + b.drop_last());
        assert((a + b).last() == b.last());
        let o = match output(run(m, a + b.drop_last()), b.last()) {
            Some(o) => seq![o],
            None => Seq::<(Seq<u8>, Seq<u8>)>::empty(),
        };
        assert(outputs(m, a + b) == outputs(m, a + b.drop_last()) + o);
        assert(outputs(run(m, a), b) == outputs(run(m, a), b.drop_last()) + o);
        assert(outputs(m, a + b) =~= outputs(m, a) + outputs(run(m, a), b));
    }
}

/// The bounds that every reachable state keeps.
pub open spec fn model_wf(m: ReadModel) -> bool {
    &&& m.cl_ptr < content_length_name().len()
    &&& m.hdr_ptr < 3
    &&& m.read_state == HTTPReadState::ReadingUntilBody ==> m.content_length is Some
    &&& m.read_state == HTTPReadState::ReadingBody ==> m.content_length is Some && m.body_left >= 1
    &&& length_or_zero(m) <= usize::MAX
    &&& m.body_left <= usize::MAX
}

/// Every step keeps the bounds.
pub proof fn lemma_step_wf(m: ReadModel, c: u8)
    requires
        model_wf(m),
    ensures
        model_wf(step(m, c)),
{
}

/// Reads requests off a connection's byte stream. The bytes received and
/// not yet consumed wait in a buffer; each request is framed byte by byte.
pub struct HTTPRead {
    buf: Vec<u8>,
    buf_ptr: usize,
    request: Vec<u8>,
    tmp_url_buffer: Vec<u8>,
    content_length_ptr: usize,
    content_length: Option<usize>,
    tmp_content_length_buffer: Vec<u8>,
    content_length_state: ContentLengthState,
    read_state: HTTPReadState,
    rest_of_http_header: usize,
    body_left: usize,
}

impl HTTPRead {
    /// The parse state.
    pub closed spec fn model(&self) -> ReadModel {
        ReadModel {
            request: self.request@,
            url: self.tmp_url_buffer@,
            cl_ptr: self.content_length_ptr as nat,
            content_length: match self.content_length {
                Some(n) => Some(n as nat),
                None => None,
            },
            digits: self.tmp_content_length_buffer@,
            cl_state: self.content_length_state,
            read_state: self.read_state,
            hdr_ptr: self.rest_of_http_header as nat,
            body_left: self.body_left as nat,
        }
    }

    /// The bytes received and not yet consumed.
    pub closed spec fn pending(&self) -> Seq<u8> {
        self.buf@.skip(self.buf_ptr as int)
    }

    pub closed spec fn wf(&self) -> bool {
        &&& self.buf_ptr <= self.buf@.len()
        &&& model_wf(self.model())
    }

    /// A reader with nothing received, at the start of a request.
    pub fn new() -> (r: HTTPRead)
        ensures
            r.wf(),
            r.model() == initial_model(),
            r.pending() == Seq::<u8>::empty(),
    {
        let r = HTTPRead {
            buf: Vec::new(),
            buf_ptr: 0,
            request: Vec::new(),
            tmp_url_buffer: Vec::new(),
            content_length_ptr: 0,
            content_length: None,
            tmp_content_length_buffer: Vec::new(),
            content_length_state: ContentLengthState::ReadingName,
            read_state: HTTPReadState::ReadingMethod,
            rest_of_http_header: 0,
            body_left: 0,
        };
        assert(r.pending() =~= Seq::<u8>::empty());
        assert(r.model() =~= initial_model());
        r
    }

    /// Hands over bytes received from the connection.
    pub fn fill(&mut self, data: &[u8])
        requires
            old(self).wf(),
        ensures
            final(self).wf(),
            final(self).model() == old(self).model(),
            final(self).pending() == old(self).pending() + data@,
    {
        if self.buf_ptr == self.buf.len() {
            self.buf.clear();
            self.buf_ptr = 0;
        }
        let ghost before = self.buf@;
        let mut i: usize = 0;
        while i < data.len()
            invariant
                self.buf_ptr <= before.len(),
                self.buf@ == before + data@.subrange(0, i as int),
                i <= data@.len(),
                self.model() == old(self).model(),
                before.skip(self.buf_ptr as int) == old(self).pending(),
            decreases data@.len() - i,
        {
            self.buf.push(data[i]);
            i = i + 1;
            assert(self.buf@ =~= before + data@.subrange(0, i as int));
        }
        assert(data@.subrange(0, data@.len() as int) =~= data@);
        assert(self.pending() =~= old(self).pending() + data@);
    }

    /// The next byte received, if any.
    fn get(&mut self) -> (r: Option<u8>)
        requires
            old(self).wf(),
        ensures
            final(self).wf(),
            final(self).model() == old(self).model(),
            match r {
                Some(c) => old(self).pending().len() > 0 && c == old(self).pending()[0]
                    && final(self).pending() == old(self).pending().skip(1),
                None => old(self).pending().len() == 0 && final(self).pending() == old(
                    self,
                ).pending(),
            },
    {
        if self.buf_ptr == self.buf.len() {
            return None;
        }
        let c = self.buf[self.buf_ptr];
        self.buf_ptr = self.buf_ptr + 1;
        assert(self.pending() =~= old(self).pending().skip(1));
        Some(c)
    }

    /// The byte of `Content-Length:` at `i`.
    fn name_byte(i: usize) -> (r: u8)
        requires
            i < content_length_name().len(),
        ensures
            r == content_length_name()[i as int],
    {
        let name: [u8; 15] = [67, 111, 110, 116, 101, 110, 116, 45, 76, 101, 110, 103, 116, 104, 58];
        assert(name@ =~= content_length_name());
        name[i]
    }

    /// The value of the content length digits read so far, capped at the
    /// largest `usize`.
    fn digits_to_length(d: &Vec<u8>) -> (r: usize)
        ensures
            r == saturate(digits_value(d@)),
    {
        let mut accum: usize = 0;
        let mut i: usize = 0;
        while i < d.len()
            invariant
                i <= d@.len(),
                accum == saturate(digits_value(d@.take(i as int))),
            decreases d@.len() - i,
        {
            let c = d[i];
            let ghost v = digits_value(d@.take(i as int));
            assert(d@.take(i + 1).drop_last() =~= d@.take(i as int));
            if c >= 48 && c <= 57 {
                let digit = (c - 48) as usize;
                if accum > (usize::MAX - digit) / 10 {
                    assert(v * 10 + digit > usize::MAX) by (nonlinear_arith)
                        requires
                            accum > (usize::MAX - digit) / 10,
                            v >= accum,
                            digit <= 9,
                    ;
                    accum = usize::MAX;
                } else {
                    assert(v == accum) by {
                        assert(accum < usize::MAX);
                    }
                    assert(accum * 10 + digit <= usize::MAX) by (nonlinear_arith)
                        requires
                            accum <= (usize::MAX - digit) / 10,
                            digit <= 9,
                    ;
                    accum = accum * 10 + digit;
                }
            }
            i = i + 1;
        }
        assert(d@.take(d@.len() as int) =~= d@);
        accum
    }

    /// Advances the header terminator match on `c`; true where the whole
    /// terminator has just been matched.
    fn read_until_body(&mut self, c: u8) -> (r: bool)
        requires
            old(self).wf(),
        ensures
            final(self).wf(),
            r == (next_hdr_ptr(old(self).model(), c) == 3),
            final(self).model() == (ReadModel {
                hdr_ptr: if r {
                    0
                } else {
                    next_hdr_ptr(old(self).model(), c)
                },
                ..old(self).model()
            }),
            final(self).pending() == old(self).pending(),
    {
        let end: [u8; 3] = [10, 13, 10];
        assert(end@ =~= header_end());
        if c == end[self.rest_of_http_header] {
            self.rest_of_http_header = self.rest_of_http_header + 1;
        } else {
            self.rest_of_http_header = 0;
        }
        if self.rest_of_http_header == 3 {
            self.rest_of_http_header = 0;
            true
        } else {
            false
        }
    }

    /// Takes one byte of the content length value.
    fn read_number_byte(&mut self, c: u8)
        requires
            old(self).wf(),
        ensures
            final(self).model() == number_byte(old(self).model(), c),
            final(self).pending() == old(self).pending(),
            final(self).buf_ptr <= final(self).buf@.len(),
    {
        self.content_length_state = ContentLengthState::ReadingNumber;
        if c == 13 {
            let accum = Self::digits_to_length(&self.tmp_content_length_buffer);
            self.tmp_content_length_buffer.clear();
            self.content_length = Some(accum);
        } else {
            self.tmp_content_length_buffer.push(c);
        }
    }

    /// Advances the `Content-Length` scan on `c`.
    fn read_content_header(&mut self, c: u8)
        requires
            old(self).wf(),
        ensures
            final(self).model() == cl_step(old(self).model(), c),
            final(self).pending() == old(self).pending(),
            final(self).buf_ptr <= final(self).buf@.len(),
    {
        match self.content_length_state {
            ContentLengthState::ReadingName => {
                if c == Self::name_byte(self.content_length_ptr) {
                    if self.content_length_ptr + 1 == 15 {
                        self.content_length_ptr = 0;
                        self.content_length_state = ContentLengthState::ReadingWhitespace;
                    } else {
                        self.content_length_ptr = self.content_length_ptr + 1;
                    }
                } else {
                    self.content_length_ptr = 0;
                }
            },
            ContentLengthState::ReadingWhitespace => {
                if c != 32 && c != 9 {
                    self.read_number_byte(c);
                }
            },
            ContentLengthState::ReadingNumber => {
                self.read_number_byte(c);
            },
        }
    }

    /// Starts the next request afresh.
    fn reset(&mut self)
        requires
            old(self).wf(),
        ensures
            final(self).wf(),
            final(self).model() == initial_model(),
            final(self).pending() == old(self).pending(),
    {
        self.request = Vec::new();
        self.tmp_url_buffer = Vec::new();
        self.content_length_ptr = 0;
        self.content_length = None;
        self.tmp_content_length_buffer = Vec::new();
        self.content_length_state = ContentLengthState::ReadingName;
        self.read_state = HTTPReadState::ReadingMethod;
        self.rest_of_http_header = 0;
        self.body_left = 0;
        assert(self.model() =~= initial_model());
    }

    /// Whether the request read so far is exactly `GET `.
    fn is_get(request: &Vec<u8>) -> (r: bool)
        ensures
            r == (request@ == get_method()),
    {
        let r = request.len() == 4 && request[0] == 71 && request[1] == 69 && request[2] == 84
            && request[3] == 32;
        if r {
            assert(request@ =~= get_method());
        }
        r
    }

    /// Hands out the request just completed and starts the next one.
    fn finish(&mut self) -> (r: (Vec<u8>, Vec<u8>))
        requires
            old(self).wf(),
        ensures
            final(self).wf(),
            final(self).model() == initial_model(),
            final(self).pending() == old(self).pending(),
            r.0@ == old(self).model().request,
            r.1@ == old(self).model().url,
    {
        let mut request: Vec<u8> = Vec::new();
        let mut url: Vec<u8> = Vec::new();
        std::mem::swap(&mut self.request, &mut request);
        std::mem::swap(&mut self.tmp_url_buffer, &mut url);
        self.reset();
        (request, url)
    }

    /// Reads one byte of the current request; returns the request and its URL
    /// where the byte completes it.
    pub fn feed(&mut self, c: u8) -> (r: Option<(Vec<u8>, Vec<u8>)>)
        requires
            old(self).wf(),
        ensures
            final(self).wf(),
            final(self).model() == step(old(self).model(), c),
            final(self).pending() == old(self).pending(),
            match r {
                Some(o) => output(old(self).model(), c) == Some((o.0@, o.1@)),
                None => output(old(self).model(), c) is None,
            },
    {
        let ghost m0 = self.model();
        self.request.push(c);
        let ghost m = self.model();
        assert(m == ReadModel { request: m0.request.push(c), ..m0 });
        match self.read_state {
            HTTPReadState::ReadingMethod => {
                if c == 32 || c == 9 {
                    if Self::is_get(&self.request) {
                        self.content_length = Some(0);
                    }
                    self.read_state = HTTPReadState::ReadingUrl;
                }
            },
            HTTPReadState::ReadingUrl => {
                if c == 32 || c == 9 {
                    self.read_state = HTTPReadState::ReadingContentLength;
                } else {
                    self.tmp_url_buffer.push(c);
                }
            },
            HTTPReadState::ReadingContentLength => {
                self.read_content_header(c);
                if self.content_length.is_some() {
                    self.read_state = HTTPReadState::ReadingUntilBody;
                }
            },
            HTTPReadState::ReadingUntilBody => {
                let cl = match self.content_length {
                    Some(n) => n,
                    None => 0,
                };
                if self.read_until_body(c) {
                    if cl == 0 {
                        return Some(self.finish());
                    }
                    self.body_left = cl;
                    self.read_state = HTTPReadState::ReadingBody;
                }
            },
            HTTPReadState::ReadingBody => {
                if self.body_left <= 1 {
                    return Some(self.finish());
                }
                self.body_left = self.body_left - 1;
            },
        }
        assert(self.model() =~= step(m0, c));
        None
    }

    /// Reads bytes from those received until a request is complete, and
    /// returns it with its URL; `None` where the received bytes run out
    /// first, the partial request being kept for the next call.
    pub fn next(&mut self) -> (r: Option<(Vec<u8>, Vec<u8>)>)
        requires
            old(self).wf(),
        ensures
            final(self).wf(),
            match r {
                Some(o) => exists|k: int|
                    1 <= k <= old(self).pending().len() && final(self).pending() == old(
                        self,
                    ).pending().skip(k) && final(self).model() == run(
                        old(self).model(),
                        old(self).pending().take(k),
                    ) && outputs(old(self).model(), old(self).pending().take(k)) == seq![
                        (o.0@, o.1@),
                    ],
                None => final(self).pending().len() == 0 && final(self).model() == run(
                    old(self).model(),
                    old(self).pending(),
                ) && outputs(old(self).model(), old(self).pending()).len() == 0,
            },
    {
        let ghost received = self.pending();
        let ghost m0 = self.model();
        let ghost mut i: int = 0;
        assert(received.take(0) =~= Seq::<u8>::empty());
        loop
            invariant
                self.wf(),
                received == old(self).pending(),
                m0 == old(self).model(),
                0 <= i <= received.len(),
                self.pending() == received.skip(i),
                self.model() == run(m0, received.take(i)),
                outputs(m0, received.take(i)).len() == 0,
            decreases received.len() - i,
        {
            let ghost before = self.model();
            match self.get() {
                None => {
                    assert(received.take(i) =~= received);
                    return None;
                },
                Some(c) => {
                    assert(c == received[i]);
                    let o = self.feed(c);
                    proof {
                        assert(received.take(i + 1).drop_last() =~= received.take(i));
                        assert(received.take(i + 1).last() == c);
                        assert(received.skip(i).skip(1) =~= received.skip(i + 1));
                        i = i + 1;
                    }
                    match o {
                        Some(o) => {
                            assert(outputs(m0, received.take(i)) =~= seq![(o.0@, o.1@)]);
                            return Some(o);
                        },
                        None => {
                            assert(outputs(m0, received.take(i)) =~= outputs(m0, received.take(i - 1)));
                        },
                    }
                },
            }
        }
    }
}

} // verus!

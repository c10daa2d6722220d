//! Assembling a request from raw byte chunks: detect the 4-byte header
//! terminator in the accumulated buffer, parse the header block, and count
//! declared body bytes under partial reads until the request is complete.
//!
//! The caller pulls chunks off the connection and feeds each one to
//! `consume_chunk`; completion is decided exactly by `stream_complete`
//! over all bytes received so far.

use vstd::prelude::*;

use crate::errors::HttpError;
use crate::http::{spec_from_bytes, Request, RequestV};

verus! {

/// The first position at or after `i` where the header terminator
/// `\r\n\r\n` occurs.
pub open spec fn find_terminator_from(s: Seq<u8>, i: int) -> Option<int>
    decreases s.len() - i,
    when 0 <= i
{
    if i + 4 > s.len() {
        None
    } else if s[i] == 13 && s[i + 1] == 10 && s[i + 2] == 13 && s[i + 3] == 10 {
        Some(i)
    } else {
        find_terminator_from(s, i + 1)
    }
}

/// The position of the first header terminator in the stream, if any.
pub open spec fn spec_header_end(s: Seq<u8>) -> Option<int> {
    find_terminator_from(s, 0)
}

/// A found terminator lies at or after `i` and fits inside the stream.
pub proof fn lemma_find_terminator_bound(s: Seq<u8>, i: int)
    requires
        0 <= i,
    ensures
        find_terminator_from(s, i) matches Some(p) ==> i <= p && p + 4 <= s.len(),
    decreases s.len() - i,
{
    if i + 4 <= s.len() && !(s[i] == 13 && s[i + 1] == 10 && s[i + 2] == 13 && s[i + 3] == 10) {
        lemma_find_terminator_bound(s, i + 1);
    }
}

/// A terminator already found stays the first one when more bytes arrive.
pub proof fn lemma_find_terminator_extend(s: Seq<u8>, t: Seq<u8>, i: int)
    requires
        0 <= i,
        find_terminator_from(s, i) is Some,
    ensures
        find_terminator_from(s + t, i) == find_terminator_from(s, i),
    decreases s.len() - i,
{
    let p = find_terminator_from(s, i)->Some_0;
    lemma_find_terminator_bound(s, i);
    assert(forall|j: int| 0 <= j < s.len() ==> (s + t)[j] == s[j]);
    if i + 4 <= s.len() && s[i] == 13 && s[i + 1] == 10 && s[i + 2] == 13 && s[i + 3] == 10 {
    } else {
        lemma_find_terminator_extend(s, t, i + 1);
    }
}

/// Whether the bytes received so far form a complete request: a header
/// terminator was seen, the header block parses, and any declared body
/// length has fully arrived.
pub open spec fn stream_complete(s: Seq<u8>) -> bool {
    match spec_header_end(s) {
        None => false,
        Some(p) => match spec_from_bytes(s.take(p)) {
            Err(_) => false,
            Ok(rv) => match rv.content_length {
                None => true,
                Some(cl) => s.len() >= p + 4 + cl,
            },
        },
    }
}

/// Drives chunked reads of one request: accumulates bytes, finds the
/// header boundary, parses the header, and tracks the remaining body
/// bytes.
pub struct ConnectionReader {
    /// Every byte received so far, header and body alike.
    pub buf: Vec<u8>,
    /// The parsed header, once the terminator was seen and parsing
    /// succeeded.
    pub request: Option<Request>,
    /// The index just past the header terminator: where the body starts.
    pub content_index: usize,
    /// Body bytes still expected; completion is `pending == 0`.
    pub pending: usize,
    /// Whether a subsequent chunk is body data.
    pub in_body: bool,
    /// Whether the request is complete.
    pub complete: bool,
    /// Whether header parsing failed; the connection is then abandoned.
    pub failed: bool,
}

impl ConnectionReader {
    /// The reader's invariant, tied to `stream_complete` over the bytes
    /// received so far.
    pub open spec fn wf(&self) -> bool {
        match self.request {
            None => {
                &&& !self.complete
                &&& !self.in_body
                &&& (!self.failed ==> spec_header_end(self.buf@) is None)
            },
            Some(req) => {
                &&& !self.failed
                &&& 4 <= self.content_index <= self.buf@.len()
                &&& spec_header_end(self.buf@) == Some(self.content_index - 4)
                &&& spec_from_bytes(self.buf@.take(self.content_index - 4)) == Ok::<
                    RequestV,
                    HttpError,
                >(req@)
                &&& match req.content_length {
                    Some(cl) => {
                        &&& self.pending == (if cl > self.buf@.len() - self.content_index {
                            cl - (self.buf@.len() - self.content_index)
                        } else {
                            0
                        })
                        &&& (self.complete <==> self.pending == 0)
                    },
                    None => self.complete,
                }
            },
        }
    }

    /// A fresh reader with nothing received.
    pub fn new() -> (r: ConnectionReader)
        ensures
            r.wf(),
            !r.complete,
            !r.failed,
            r.buf@ == Seq::<u8>::empty(),
    {
        ConnectionReader {
            buf: Vec::new(),
            request: None,
            content_index: 0,
            pending: 0,
            in_body: false,
            complete: false,
            failed: false,
        }
    }

    /// Feeds the next chunk. Returns whether the request is now complete
    /// — exactly `stream_complete` of everything received — or the error
    /// the header block parses to.
    #[verifier::loop_isolation(false)]
    pub fn consume_chunk(&mut self, chunk: &[u8]) -> (r: Result<bool, HttpError>)
        requires
            old(self).wf(),
            !old(self).complete,
            !old(self).failed,
        ensures
            final(self).wf(),
            final(self).buf@ == old(self).buf@ + chunk@,
            match r {
                Ok(done) => {
                    &&& !final(self).failed
                    &&& done == final(self).complete
                    &&& (done <==> stream_complete(old(self).buf@ + chunk@))
                },
                Err(e) => {
                    &&& final(self).failed
                    &&& match spec_header_end(old(self).buf@ + chunk@) {
                        Some(p) => spec_from_bytes((old(self).buf@ + chunk@).take(p)) == Err::<
                            RequestV,
                            HttpError,
                        >(e),
                        None => false,
                    }
                },
            },
    {
        let ghost s0 = self.buf@;
        let mut k: usize = 0;
        while k < chunk.len()
            invariant
                k <= chunk@.len(),
                self.buf@ == s0 + chunk@.take(k as int),
                self.request == old(self).request,
                self.content_index == old(self).content_index,
                self.pending == old(self).pending,
                self.in_body == old(self).in_body,
                self.complete == old(self).complete,
                self.failed == old(self).failed,
            decreases chunk@.len() - k,
        {
            self.buf.push(chunk[k]);
            proof {
                assert(self.buf@ =~= s0 + chunk@.take(k + 1));
            }
            k = k + 1;
        }
        proof {
            assert(s0 + chunk@.take(chunk@.len() as int) =~= s0 + chunk@);
        }
        let ghost s = self.buf@;
        if self.request.is_none() {
            let n = self.buf.len();
            let mut k2: usize = 0;
            let mut found = false;
            while !found && n - k2 > 3
                invariant
                    k2 <= n,
                    n == s.len(),
                    self.buf@ == s,
                    spec_header_end(s) == (if found {
                        Some(k2 as int)
                    } else {
                        find_terminator_from(s, k2 as int)
                    }),
                decreases n - k2, (if found { 0int } else { 1int }),
            {
                if self.buf[k2] == 13 && self.buf[k2 + 1] == 10 && self.buf[k2 + 2] == 13
                    && self.buf[k2 + 3] == 10 {
                    found = true;
                } else {
                    k2 = k2 + 1;
                }
            }
            if !found {
                proof {
                    assert(find_terminator_from(s, k2 as int) is None);
                    assert(spec_header_end(s) is None);
                }
                return Ok(false);
            }
            let p = k2;
            proof {
                lemma_find_terminator_bound(s, 0);
            }
            let mut head: Vec<u8> = Vec::new();
            let mut k3: usize = 0;
            while k3 < p
                invariant
                    k3 <= p,
                    p + 4 <= self.buf@.len(),
                    self.buf@ == s,
                    head@ == s.subrange(0, k3 as int),
                decreases p - k3,
            {
                head.push(self.buf[k3]);
                proof {
                    assert(head@ =~= s.subrange(0, k3 + 1));
                }
                k3 = k3 + 1;
            }
            proof {
                assert(head@ =~= s.take(p as int));
            }
            match Request::from_bytes(head.as_slice()) {
                Err(e) => {
                    self.failed = true;
                    return Err(e);
                },
                Ok(req) => {
                    self.content_index = p + 4;
                    match req.content_length {
                        Some(cl) => {
                            let received = self.buf.len() - self.content_index;
                            if cl > received {
                                self.pending = cl - received;
                                self.in_body = true;
                                self.request = Some(req);
                                Ok(false)
                            } else {
                                self.pending = 0;
                                self.complete = true;
                                self.request = Some(req);
                                Ok(true)
                            }
                        },
                        None => {
                            self.pending = 0;
                            self.complete = true;
                            self.request = Some(req);
                            Ok(true)
                        },
                    }
                },
            }
        } else {
            proof {
                lemma_find_terminator_extend(s0, chunk@, 0);
                assert(s.take(self.content_index - 4) =~= s0.take(self.content_index - 4));
            }
            if chunk.len() < self.pending {
                self.pending = self.pending - chunk.len();
                Ok(false)
            } else {
                self.pending = 0;
                self.complete = true;
                Ok(true)
            }
        }
    }

    /// Hands out the completed request and the raw body bytes that
    /// arrived after the header terminator.
    pub fn into_request(self) -> (r: (Request, Vec<u8>))
        requires
            self.wf(),
            self.complete,
        ensures
            ({
                let p = spec_header_end(self.buf@)->Some_0;
                &&& spec_from_bytes(self.buf@.take(p)) == Ok::<RequestV, HttpError>(r.0@)
                &&& r.1@ == self.buf@.skip(p + 4)
            }),
    {
        match self.request {
            Some(req) => {
                let mut body: Vec<u8> = Vec::new();
                let mut k: usize = self.content_index;
                while k < self.buf.len()
                    invariant
                        self.content_index <= k <= self.buf@.len(),
                        body@ == self.buf@.subrange(self.content_index as int, k as int),
                    decreases self.buf@.len() - k,
                {
                    body.push(self.buf[k]);
                    proof {
                        assert(body@ =~= self.buf@.subrange(self.content_index as int, k + 1));
                    }
                    k = k + 1;
                }
                proof {
                    assert(body@ =~= self.buf@.skip(self.content_index as int));
                }
                (req, body)
            },
            None => {
                proof {
                    assert(false);
                }
                (
                    Request {
                        method: crate::http::HttpMethod::GET,
                        route: String::new(),
                        http_version: String::new(),
                        host: String::new(),
                        content_type: None,
                        content_length: None,
                        content: Vec::new(),
                    },
                    Vec::new(),
                )
            },
        }
    }
}

} // verus!

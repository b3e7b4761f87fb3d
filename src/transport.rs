//! Transports: the framing that turns a byte stream without boundaries into a
//! sequence of messages, and back.
//!
//! A transport keeps the bytes read so far that do not yet make a whole message.
//! Whoever owns the stream writes the frames that [`Transport::frame`] returns,
//! hands every chunk it reads to [`Transport::feed`], and takes complete messages
//! with [`Transport::take_message`]; how the bytes were cut into chunks does not
//! matter.
use crate::error::Error;
use crate::wire::{
    append_bytes, deserialize_u64, le_bytes, le_value, lemma_le_round_trip, lemma_u64_fits,
    serialize_u64,
};
use vstd::prelude::*;

verus! {

/// A framing rule over a duplex byte stream, with its receive buffer.
pub trait Transport: Sized {
    /// The bytes received that no message has taken yet.
    spec fn inbox(&self) -> Seq<u8>;

    /// Whether `payload` can travel as one message.
    spec fn accepts(payload: Seq<u8>) -> bool;

    /// The bytes that carry `payload` on the stream.
    spec fn frame_of(payload: Seq<u8>) -> Seq<u8>;

    /// The first whole message at the start of `buf` and the bytes after it, if
    /// `buf` starts with a whole message.
    spec fn split_frame(buf: Seq<u8>) -> Option<(Seq<u8>, Seq<u8>)>;

    /// A frame followed by anything splits back into its payload and that rest.
    proof fn lemma_frame_splits(payload: Seq<u8>, rest: Seq<u8>)
        requires
            Self::accepts(payload),
        ensures
            Self::split_frame(Self::frame_of(payload) + rest) == Some((payload, rest)),
    ;

    /// A frame cut short holds no message.
    proof fn lemma_partial_frame(payload: Seq<u8>, k: int)
        requires
            Self::accepts(payload),
            0 <= k < Self::frame_of(payload).len(),
        ensures
            Self::split_frame(Self::frame_of(payload).subrange(0, k)) is None,
    ;

    /// No bytes hold no message.
    proof fn lemma_empty_holds_nothing()
        ensures
            Self::split_frame(Seq::empty()) is None,
    ;

    /// The bytes to write so that the peer receives `payload` as one message.
    fn frame(&self, payload: &Vec<u8>) -> (r: Result<Vec<u8>, Error>)
        ensures
            Self::accepts(payload@) <==> r is Ok,
            r matches Ok(bytes) ==> bytes@ == Self::frame_of(payload@),
            r matches Err(e) ==> e is MsgSerFailed,
    ;

    /// Adds bytes read from the stream to the buffer.
    fn feed(&mut self, bytes: &[u8])
        ensures
            final(self).inbox() == old(self).inbox() + bytes@,
    ;

    /// Whether the buffer starts with a whole message.
    fn has_message(&self) -> (r: bool)
        ensures
            r == Self::split_frame(self.inbox()) is Some,
    ;

    /// Takes the next whole message off the buffer, if there is one.
    fn take_message(&mut self) -> (r: Option<Vec<u8>>)
        ensures
            match Self::split_frame(old(self).inbox()) {
                Some((payload, rest)) => {
                    &&& r matches Some(m) && m@ == payload
                    &&& final(self).inbox() == rest
                },
                None => r is None && final(self).inbox() == old(self).inbox(),
            },
    ;
}

/// The bytes of `payloads` framed one after another.
pub open spec fn frames<T: Transport>(payloads: Seq<Seq<u8>>) -> Seq<u8>
    decreases payloads.len(),
{
    if payloads.len() == 0 {
        Seq::empty()
    } else {
        T::frame_of(payloads[0]) + frames::<T>(payloads.drop_first())
    }
}

/// Up to `k` messages taken one after another from the front of `buf`, and the
/// bytes left after them.
pub open spec fn take_messages<T: Transport>(buf: Seq<u8>, k: nat) -> (Seq<Seq<u8>>, Seq<u8>)
    decreases k,
{
    if k == 0 {
        (Seq::empty(), buf)
    } else {
        match T::split_frame(buf) {
            None => (Seq::empty(), buf),
            Some((payload, rest)) => {
                let (more, left) = take_messages::<T>(rest, (k - 1) as nat);
                (seq![payload] + more, left)
            },
        }
    }
}

/// Decoding what was encoded gives the value back: a framed payload, alone on the
/// stream, is received as exactly that payload with nothing left over.
pub proof fn lemma_codec_round_trip<T: Transport>(payload: Seq<u8>)
    requires
        T::accepts(payload),
    ensures
        T::split_frame(T::frame_of(payload)) == Some((payload, Seq::<u8>::empty())),
{
    T::lemma_frame_splits(payload, Seq::empty());
    assert(T::frame_of(payload) + Seq::<u8>::empty() =~= T::frame_of(payload));
}

/// Messages written one after another on a stream are received whole, in the
/// order they were written, each exactly once; whatever follows them on the
/// stream is left untouched.
pub proof fn lemma_messages_in_order<T: Transport>(payloads: Seq<Seq<u8>>, tail: Seq<u8>)
    requires
        forall|i: int| 0 <= i < payloads.len() ==> T::accepts(#[trigger] payloads[i]),
    ensures
        take_messages::<T>(frames::<T>(payloads) + tail, payloads.len()) == (payloads, tail),
    decreases payloads.len(),
{
    if payloads.len() > 0 {
        let rest = payloads.drop_first();
        assert(T::accepts(payloads[0]));
        assert forall|i: int| 0 <= i < rest.len() implies T::accepts(#[trigger] rest[i]) by {
            assert(rest[i] == payloads[i + 1]);
        }
        lemma_messages_in_order::<T>(rest, tail);
        T::lemma_frame_splits(payloads[0], frames::<T>(rest) + tail);
        assert(frames::<T>(payloads) + tail =~= T::frame_of(payloads[0]) + (frames::<T>(rest)
            + tail));
        assert(seq![payloads[0]] + rest =~= payloads);
    }
}

/// However the stream was cut into chunks and whenever messages are taken: if
/// the buffer holds the first `k` bytes of the frames of the payloads still to
/// come, taking a message yields nothing while the next frame is incomplete, and
/// otherwise exactly the next payload, leaving the start of the frames of the
/// payloads after it.
pub proof fn lemma_take_from_any_prefix<T: Transport>(payloads: Seq<Seq<u8>>, k: int)
    requires
        forall|i: int| 0 <= i < payloads.len() ==> T::accepts(#[trigger] payloads[i]),
        0 <= k <= frames::<T>(payloads).len(),
    ensures
        match T::split_frame(frames::<T>(payloads).subrange(0, k)) {
            None => payloads.len() == 0 || k < T::frame_of(payloads[0]).len(),
            Some((payload, rest)) => {
                &&& payloads.len() > 0
                &&& payload == payloads[0]
                &&& rest == frames::<T>(payloads.drop_first()).subrange(
                    0,
                    k - T::frame_of(payloads[0]).len(),
                )
            },
        },
{
    let all = frames::<T>(payloads);
    if payloads.len() == 0 {
        T::lemma_empty_holds_nothing();
        assert(all.subrange(0, k) =~= Seq::<u8>::empty());
    } else {
        let first = T::frame_of(payloads[0]);
        let later = frames::<T>(payloads.drop_first());
        assert(T::accepts(payloads[0]));
        assert(all == first + later);
        if k < first.len() {
            T::lemma_partial_frame(payloads[0], k);
            assert(all.subrange(0, k) =~= first.subrange(0, k));
        } else {
            let cut = later.subrange(0, k - first.len());
            T::lemma_frame_splits(payloads[0], cut);
            assert(all.subrange(0, k) =~= first + cut);
        }
    }
}

/// A connection that carries exactly `k` requests yields exactly those `k`
/// messages, in order, and then nothing more.
pub proof fn lemma_exactly_k_messages<T: Transport>(payloads: Seq<Seq<u8>>)
    requires
        forall|i: int| 0 <= i < payloads.len() ==> T::accepts(#[trigger] payloads[i]),
    ensures
        take_messages::<T>(frames::<T>(payloads), payloads.len()) == (
        payloads,
        Seq::<u8>::empty(),
        ),
        T::split_frame(Seq::empty()) is None,
{
    lemma_messages_in_order::<T>(payloads, Seq::empty());
    assert(frames::<T>(payloads) + Seq::<u8>::empty() =~= frames::<T>(payloads));
    T::lemma_empty_holds_nothing();
}

/// The width of the length header of a bincode frame.
pub const HEADER_LEN: usize = 8;

/// Length-prefixed framing: each message is its length as a bincode `u64`
/// (eight bytes, least significant first) followed by its bytes.
pub struct Bincode<S> {
    stream: S,
    inbox: Vec<u8>,
}

/// The payload and rest of a buffer that starts with a whole length-prefixed frame.
pub open spec fn bincode_split(buf: Seq<u8>) -> Option<(Seq<u8>, Seq<u8>)> {
    if buf.len() >= 8 && buf.len() - 8 >= le_value(buf.subrange(0, 8)) {
        let end = 8 + le_value(buf.subrange(0, 8)) as int;
        Some((buf.subrange(8, end), buf.subrange(end, buf.len() as int)))
    } else {
        None
    }
}

impl<S> Bincode<S> {
    /// A transport over `stream` with nothing received yet.
    pub fn new(stream: S) -> (r: Bincode<S>)
        ensures
            r.stream() == stream,
            r.inbox() == Seq::<u8>::empty(),
    {
        Bincode { stream, inbox: Vec::new() }
    }

    pub closed spec fn stream(&self) -> S {
        self.stream
    }

    /// The stream, for reading and writing.
    pub fn stream_mut(&mut self) -> (r: &mut S)
        ensures
            *r == old(self).stream(),
            final(self).stream() == *final(r),
            final(self).inbox() == old(self).inbox(),
    {
        &mut self.stream
    }
}

impl<S> Transport for Bincode<S> {
    closed spec fn inbox(&self) -> Seq<u8> {
        self.inbox@
    }

    open spec fn accepts(payload: Seq<u8>) -> bool {
        payload.len() <= u64::MAX
    }

    open spec fn frame_of(payload: Seq<u8>) -> Seq<u8> {
        le_bytes(payload.len(), 8) + payload
    }

    open spec fn split_frame(buf: Seq<u8>) -> Option<(Seq<u8>, Seq<u8>)> {
        bincode_split(buf)
    }

    proof fn lemma_frame_splits(payload: Seq<u8>, rest: Seq<u8>) {
        lemma_u64_fits(payload.len() as u64);
        lemma_le_round_trip(payload.len(), 8);
        let buf = Self::frame_of(payload) + rest;
        let header = le_bytes(payload.len(), 8);
        assert(buf.subrange(0, 8) =~= header);
        let end = 8 + payload.len();
        assert(buf.subrange(8, end as int) =~= payload);
        assert(buf.subrange(end as int, buf.len() as int) =~= rest);
    }

    proof fn lemma_partial_frame(payload: Seq<u8>, k: int) {
        lemma_u64_fits(payload.len() as u64);
        lemma_le_round_trip(payload.len(), 8);
        let buf = Self::frame_of(payload).subrange(0, k);
        if k >= 8 {
            assert(buf.subrange(0, 8) =~= le_bytes(payload.len(), 8));
        }
    }

    proof fn lemma_empty_holds_nothing() {
    }

    fn frame(&self, payload: &Vec<u8>) -> (r: Result<Vec<u8>, Error>) {
        let mut bytes = match serialize_u64(payload.len() as u64) {
            Ok(header) => header,
            Err(m) => return Err(Error::MsgSerFailed(m)),
        };
        append_bytes(&mut bytes, payload.as_slice());
        Ok(bytes)
    }

    fn feed(&mut self, bytes: &[u8]) {
        append_bytes(&mut self.inbox, bytes);
    }

    fn has_message(&self) -> (r: bool) {
        if self.inbox.len() < HEADER_LEN {
            return false;
        }
        match deserialize_u64(self.inbox.as_slice()) {
            Ok(size) => ((self.inbox.len() - HEADER_LEN) as u64) >= size,
            Err(_) => false,
        }
    }

    fn take_message(&mut self) -> (r: Option<Vec<u8>>) {
        if self.inbox.len() < HEADER_LEN {
            return None;
        }
        let size = match deserialize_u64(self.inbox.as_slice()) {
            Ok(size) => size,
            Err(_) => return None,
        };
        let available = self.inbox.len() - HEADER_LEN;
        if (available as u64) < size {
            return None;
        }
        let end = HEADER_LEN + size as usize;
        let rest = self.inbox.split_off(end);
        let payload = self.inbox.split_off(HEADER_LEN);
        self.inbox = rest;
        Some(payload)
    }
}

/// The byte that ends each message of the JSON framing.
pub const NEWLINE: u8 = 10;

/// Line framing for JSON text: each message is followed by a line break. Compact
/// JSON never holds a raw line break, so the first one ends the message.
pub struct Json<S> {
    stream: S,
    inbox: Vec<u8>,
}

/// Whether `i` is the position of the first line break in `buf`.
pub open spec fn is_first_newline(buf: Seq<u8>, i: int) -> bool {
    &&& 0 <= i < buf.len()
    &&& buf[i] == NEWLINE
    &&& forall|j: int| 0 <= j < i ==> buf[j] != NEWLINE
}

/// The text before the first line break of a buffer and what follows that break.
pub open spec fn json_split(buf: Seq<u8>) -> Option<(Seq<u8>, Seq<u8>)> {
    if exists|i: int| is_first_newline(buf, i) {
        let i = choose|i: int| is_first_newline(buf, i);
        Some((buf.subrange(0, i), buf.subrange(i + 1, buf.len() as int)))
    } else {
        None
    }
}

/// There is one first line break at most.
pub proof fn lemma_first_newline_unique(buf: Seq<u8>, i: int, k: int)
    requires
        is_first_newline(buf, i),
        is_first_newline(buf, k),
    ensures
        i == k,
{
    if i < k {
        assert(buf[i] != NEWLINE);
    } else if k < i {
        assert(buf[k] != NEWLINE);
    }
}

impl<S> Json<S> {
    /// A transport over `stream` with nothing received yet.
    pub fn new(stream: S) -> (r: Json<S>)
        ensures
            r.stream() == stream,
            r.inbox() == Seq::<u8>::empty(),
    {
        Json { stream, inbox: Vec::new() }
    }

    pub closed spec fn stream(&self) -> S {
        self.stream
    }

    /// The stream, for reading and writing.
    pub fn stream_mut(&mut self) -> (r: &mut S)
        ensures
            *r == old(self).stream(),
            final(self).stream() == *final(r),
            final(self).inbox() == old(self).inbox(),
    {
        &mut self.stream
    }
}

impl<S> Transport for Json<S> {
    closed spec fn inbox(&self) -> Seq<u8> {
        self.inbox@
    }

    open spec fn accepts(payload: Seq<u8>) -> bool {
        forall|i: int| 0 <= i < payload.len() ==> payload[i] != NEWLINE
    }

    open spec fn frame_of(payload: Seq<u8>) -> Seq<u8> {
        payload.push(NEWLINE)
    }

    open spec fn split_frame(buf: Seq<u8>) -> Option<(Seq<u8>, Seq<u8>)> {
        json_split(buf)
    }

    proof fn lemma_frame_splits(payload: Seq<u8>, rest: Seq<u8>) {
        let buf = Self::frame_of(payload) + rest;
        let n = payload.len() as int;
        assert(is_first_newline(buf, n));
        let i = choose|i: int| is_first_newline(buf, i);
        lemma_first_newline_unique(buf, i, n);
        assert(buf.subrange(0, n) =~= payload);
        assert(buf.subrange(n + 1, buf.len() as int) =~= rest);
    }

    proof fn lemma_partial_frame(payload: Seq<u8>, k: int) {
        let buf = Self::frame_of(payload).subrange(0, k);
        assert forall|i: int| !is_first_newline(buf, i) by {
            if 0 <= i < buf.len() {
                assert(buf[i] == payload[i]);
            }
        }
    }

    proof fn lemma_empty_holds_nothing() {
    }

    fn frame(&self, payload: &Vec<u8>) -> (r: Result<Vec<u8>, Error>) {
        let mut i: usize = 0;
        while i < payload.len()
            invariant
                0 <= i <= payload@.len(),
                forall|j: int| 0 <= j < i ==> payload@[j] != NEWLINE,
            decreases payload@.len() - i,
        {
            if payload[i] == NEWLINE {
                return Err(Error::MsgSerFailed("a message may not hold a line break".to_string()));
            }
            i = i + 1;
        }
        let mut bytes = Vec::new();
        append_bytes(&mut bytes, payload.as_slice());
        bytes.push(NEWLINE);
        assert(bytes@ =~= payload@.push(NEWLINE));
        Ok(bytes)
    }

    fn feed(&mut self, bytes: &[u8]) {
        append_bytes(&mut self.inbox, bytes);
    }

    fn has_message(&self) -> (r: bool) {
        let mut i: usize = 0;
        while i < self.inbox.len()
            invariant
                0 <= i <= self.inbox@.len(),
                forall|j: int| 0 <= j < i ==> self.inbox@[j] != NEWLINE,
            decreases self.inbox@.len() - i,
        {
            if self.inbox[i] == NEWLINE {
                assert(is_first_newline(self.inbox@, i as int));
                return true;
            }
            i = i + 1;
        }
        assert forall|k: int| !is_first_newline(self.inbox@, k) by {
            if 0 <= k < self.inbox@.len() {
                assert(self.inbox@[k] != NEWLINE);
            }
        }
        false
    }

    fn take_message(&mut self) -> (r: Option<Vec<u8>>) {
        let ghost buf = self.inbox@;
        let mut i: usize = 0;
        while i < self.inbox.len()
            invariant
                self.inbox@ == buf,
                old(self).inbox@ == buf,
                0 <= i <= buf.len(),
                forall|j: int| 0 <= j < i ==> buf[j] != NEWLINE,
            decreases buf.len() - i,
        {
            if self.inbox[i] == NEWLINE {
                proof {
                    assert(is_first_newline(buf, i as int));
                    let k = choose|k: int| is_first_newline(buf, k);
                    lemma_first_newline_unique(buf, k, i as int);
                }
                let rest = self.inbox.split_off(i + 1);
                self.inbox.pop();
                let message = self.inbox.split_off(0);
                self.inbox = rest;
                assert(message@ =~= buf.subrange(0, i as int));
                assert(self.inbox@ =~= buf.subrange(i + 1, buf.len() as int));
                assert(json_split(buf) == Some((message@, self.inbox@)));
                return Some(message);
            }
            i = i + 1;
        }
        assert forall|k: int| !is_first_newline(buf, k) by {
            if 0 <= k < buf.len() {
                assert(buf[k] != NEWLINE);
            }
        }
        None
    }
}

} // verus!

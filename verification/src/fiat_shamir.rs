//! The transcript of an interactive proof: what the prover sends, and what it is sent back.
use crate::field::{ORDER, Ext};
use crate::poly::vector::{all_canonical, copy_vec};
use vstd::prelude::*;

verus! {

/// Why a transcript refuses to go on.
#[derive(Clone, Copy, Debug, PartialEq, Eq, Structural)]
pub enum ProofError {
    /// What is sent or asked for is not what the transcript expects next.
    InvalidIO,
    /// A value has no valid encoding.
    SerializationError,
}

pub type ProofResult<T> = Result<T, ProofError>;

/// A difficulty of a proof of work, in bits: a floating-point number of double precision, held by
/// its IEEE 754 encoding.
#[derive(Clone, Copy, Debug, PartialEq, Eq, Structural)]
pub struct PowBits(pub u64);

/// The encoding of positive infinity, the largest of the encodings of positive numbers.
pub const POSITIVE_INFINITY: u64 = 0x7FF0_0000_0000_0000;

impl PowBits {
    /// The number is greater than zero: neither a zero, nor negative, nor not a number.
    pub open spec fn positive(self) -> bool {
        0 < self.0 <= POSITIVE_INFINITY
    }

    pub fn is_positive(self) -> (b: bool)
        ensures
            b == self.positive(),
    {
        0 < self.0 && self.0 <= POSITIVE_INFINITY
    }
}

/// What a transcript is asked for in one call.
#[verifier::ext_equal]
pub enum Request {
    /// To take a commitment.
    Digest(Seq<u8>),
    /// To take field elements.
    Scalars(Seq<Ext>),
    /// To send back as many random field elements.
    Challenge(nat),
    /// To send back as many random bytes.
    Bytes(nat),
    /// To have a proof of work of the given difficulty done.
    Pow(PowBits),
}

/// One step of a transcript: each call leaves one.
#[verifier::ext_equal]
pub enum Entry {
    /// A commitment, sent.
    Digest(Seq<u8>),
    /// Field elements, sent.
    Scalars(Seq<Ext>),
    /// Random field elements, received.
    Challenge(Seq<Ext>),
    /// Random bytes, received.
    Bytes(Seq<u8>),
    /// A proof of work of the given difficulty.
    Pow(PowBits),
    /// A call that was refused, and the error that it was refused with.
    Refused(Request, ProofError),
}

impl Entry {
    /// What was asked for.
    pub open spec fn request(self) -> Request {
        match self {
            Entry::Digest(digest) => Request::Digest(digest),
            Entry::Scalars(scalars) => Request::Scalars(scalars),
            Entry::Challenge(scalars) => Request::Challenge(scalars.len()),
            Entry::Bytes(bytes) => Request::Bytes(bytes.len()),
            Entry::Pow(bits) => Request::Pow(bits),
            Entry::Refused(request, _) => request,
        }
    }
}

/// The number of steps of a run that were taken before the one that ended it.
pub open spec fn taken(now: Seq<Entry>, before: Seq<Entry>) -> int {
    now.len() - before.len() - 1
}

/// The run that was to take the steps of `trace` was ended by a refusal with the error `e`: its
/// first steps were taken, the next one was asked for and refused, and nothing was asked for then.
pub open spec fn stopped(
    now: Seq<Entry>,
    before: Seq<Entry>,
    trace: Seq<Entry>,
    e: ProofError,
) -> bool {
    let k = taken(now, before);
    &&& 0 <= k < trace.len()
    &&& now == (before + trace.take(k)).push(Entry::Refused(trace[k].request(), e))
}

/// A run that ends within its first steps ends within all of them.
pub proof fn lemma_stopped_prefix(
    now: Seq<Entry>,
    before: Seq<Entry>,
    first: Seq<Entry>,
    trace: Seq<Entry>,
    e: ProofError,
)
    requires
        stopped(now, before, first, e),
        first.is_prefix_of(trace),
    ensures
        stopped(now, before, trace, e),
{
    let k = taken(now, before);
    assert(first[k] == trace.subrange(0, first.len() as int)[k]);
    assert(first.take(k) =~= trace.take(k)) by {
        assert forall|i: int| 0 <= i < k implies first[i] == trace[i] by {
            assert(first[i] == trace.subrange(0, first.len() as int)[i]);
        }
    }
}

/// A run that ends after its first steps ends within all of them.
pub proof fn lemma_stopped_after(
    now: Seq<Entry>,
    before: Seq<Entry>,
    first: Seq<Entry>,
    rest: Seq<Entry>,
    e: ProofError,
)
    requires
        stopped(now, before + first, rest, e),
    ensures
        stopped(now, before, first + rest, e),
        taken(now, before) == first.len() + taken(now, before + first),
{
    let (k, j) = (taken(now, before), taken(now, before + first));
    assert((first + rest).take(k) =~= first + rest.take(j));
    assert(before + first + rest.take(j) =~= before + (first + rest).take(k));
}

/// The steps of a proof of work that is done only where its difficulty is positive.
pub open spec fn pow_trace(bits: PowBits) -> Seq<Entry> {
    if bits.positive() {
        seq![Entry::Pow(bits)]
    } else {
        Seq::empty()
    }
}

/// The prover's side of a transcript. Each call adds one step, which tells what was asked for and
/// what came of it.
pub trait Transcript {
    /// The steps so far.
    spec fn log(&self) -> Seq<Entry>;

    /// Sends a commitment.
    fn add_digest(&mut self, digest: &[u8; 32]) -> (r: ProofResult<()>)
        ensures
            match r {
                Ok(_) => final(self).log() == old(self).log().push(Entry::Digest(digest@)),
                Err(e) => final(self).log() == old(self).log().push(
                    Entry::Refused(Request::Digest(digest@), e),
                ),
            },
    ;

    /// Sends field elements.
    fn add_scalars(&mut self, scalars: &Vec<Ext>) -> (r: ProofResult<()>)
        ensures
            match r {
                Ok(_) => final(self).log() == old(self).log().push(Entry::Scalars(scalars@)),
                Err(e) => final(self).log() == old(self).log().push(
                    Entry::Refused(Request::Scalars(scalars@), e),
                ),
            },
    ;

    /// Receives `n` random field elements.
    fn challenge_scalars(&mut self, n: usize) -> (r: ProofResult<Vec<Ext>>)
        ensures
            match r {
                Ok(v) => {
                    &&& v@.len() == n
                    &&& all_canonical(v@)
                    &&& final(self).log() == old(self).log().push(Entry::Challenge(v@))
                },
                Err(e) => final(self).log() == old(self).log().push(
                    Entry::Refused(Request::Challenge(n as nat), e),
                ),
            },
    ;

    /// Receives `n` random bytes.
    fn challenge_bytes(&mut self, n: usize) -> (r: ProofResult<Vec<u8>>)
        ensures
            match r {
                Ok(v) => {
                    &&& v@.len() == n
                    &&& final(self).log() == old(self).log().push(Entry::Bytes(v@))
                },
                Err(e) => final(self).log() == old(self).log().push(
                    Entry::Refused(Request::Bytes(n as nat), e),
                ),
            },
    ;

    /// Does a proof of work of the given difficulty.
    fn challenge_pow(&mut self, bits: PowBits) -> (r: ProofResult<()>)
        ensures
            match r {
                Ok(_) => final(self).log() == old(self).log().push(Entry::Pow(bits)),
                Err(e) => final(self).log() == old(self).log().push(
                    Entry::Refused(Request::Pow(bits), e),
                ),
            },
    ;
}

/// Receives one random field element.
pub fn challenge_scalar<T: Transcript>(transcript: &mut T) -> (r: ProofResult<Ext>)
    ensures
        match r {
            Ok(x) => {
                &&& x.canonical()
                &&& final(transcript).log() == old(transcript).log().push(Entry::Challenge(seq![x]))
            },
            Err(e) => final(transcript).log() == old(transcript).log().push(
                Entry::Refused(Request::Challenge(1), e),
            ),
        },
{
    let v: Vec<Ext> = transcript.challenge_scalars(1)?;
    assert(v@ =~= seq![v@[0]]);
    Ok(v[0])
}

/// Does a proof of work where its difficulty is positive.
pub fn challenge_pow_if_positive<T: Transcript>(transcript: &mut T, bits: PowBits) -> (r:
    ProofResult<()>)
    ensures
        match r {
            Ok(_) => final(transcript).log() == old(transcript).log() + pow_trace(bits),
            Err(e) => stopped(
                final(transcript).log(),
                old(transcript).log(),
                pow_trace(bits),
                e,
            ),
        },
{
    let ghost log = transcript.log();
    if bits.is_positive() {
        let r: ProofResult<()> = transcript.challenge_pow(bits);
        assert(log + pow_trace(bits) =~= log.push(Entry::Pow(bits)));
        assert(log + pow_trace(bits).take(0) =~= log);
        r
    } else {
        assert(log + pow_trace(bits) =~= log);
        Ok(())
    }
}

/// A step of a recorded transcript.
#[derive(Debug, PartialEq, Eq)]
pub enum Message {
    Digest([u8; 32]),
    Scalars(Vec<Ext>),
    Challenge(Vec<Ext>),
    Bytes(Vec<u8>),
    Pow(PowBits),
    /// As many field elements were asked for, and refused.
    RefusedChallenge(usize, ProofError),
    /// As many bytes were asked for, and refused.
    RefusedBytes(usize, ProofError),
}

impl View for Message {
    type V = Entry;

    open spec fn view(&self) -> Entry {
        match *self {
            Message::Digest(digest) => Entry::Digest(digest@),
            Message::Scalars(scalars) => Entry::Scalars(scalars@),
            Message::Challenge(scalars) => Entry::Challenge(scalars@),
            Message::Bytes(bytes) => Entry::Bytes(bytes@),
            Message::Pow(bits) => Entry::Pow(bits),
            Message::RefusedChallenge(n, e) => Entry::Refused(Request::Challenge(n as nat), e),
            Message::RefusedBytes(n, e) => Entry::Refused(Request::Bytes(n as nat), e),
        }
    }
}

/// A transcript that draws its random values from fixed supplies and keeps a record of all steps.
pub struct ScriptedTranscript {
    scalars: Vec<Ext>,
    bytes: Vec<u8>,
    messages: Vec<Message>,
}

impl ScriptedTranscript {
    /// The field elements that are still to be drawn.
    pub closed spec fn scalars_left(&self) -> Seq<Ext> {
        self.scalars@
    }

    /// The bytes that are still to be drawn.
    pub closed spec fn bytes_left(&self) -> Seq<u8> {
        self.bytes@
    }

    /// A transcript with the given supplies, at its start.
    pub fn new(scalars: Vec<Ext>, bytes: Vec<u8>) -> (r: Self)
        ensures
            r.log() == Seq::<Entry>::empty(),
            r.scalars_left() == scalars@,
            r.bytes_left() == bytes@,
    {
        let r = ScriptedTranscript { scalars, bytes, messages: Vec::new() };
        assert(r.log() =~= Seq::<Entry>::empty());
        r
    }

    /// The steps so far.
    pub fn messages(&self) -> (r: &Vec<Message>)
        ensures
            r@.len() == self.log().len(),
            forall|i: int| 0 <= i < r@.len() ==> (#[trigger] r@[i])@ == self.log()[i],
    {
        &self.messages
    }

    fn record(&mut self, message: Message)
        ensures
            final(self).log() == old(self).log().push(message@),
            final(self).scalars_left() == old(self).scalars_left(),
            final(self).bytes_left() == old(self).bytes_left(),
    {
        self.messages.push(message);
        assert(self.log() =~= old(self).log().push(message@));
    }
}

/// Both coordinates are the representatives below the order.
fn is_canonical(x: &Ext) -> (b: bool)
    ensures
        b == x.canonical(),
{
    x.c0 < ORDER && x.c1 < ORDER
}

impl Transcript for ScriptedTranscript {
    closed spec fn log(&self) -> Seq<Entry> {
        Seq::new(self.messages@.len(), |i: int| self.messages@[i]@)
    }

    /// Always accepts.
    fn add_digest(&mut self, digest: &[u8; 32]) -> (r: ProofResult<()>)
        ensures
            r is Ok,
            final(self).scalars_left() == old(self).scalars_left(),
            final(self).bytes_left() == old(self).bytes_left(),
    {
        self.record(Message::Digest(*digest));
        Ok(())
    }

    /// Always accepts.
    fn add_scalars(&mut self, scalars: &Vec<Ext>) -> (r: ProofResult<()>)
        ensures
            r is Ok,
            final(self).scalars_left() == old(self).scalars_left(),
            final(self).bytes_left() == old(self).bytes_left(),
    {
        self.record(Message::Scalars(copy_vec(scalars)));
        Ok(())
    }

    /// Draws the next `n` elements; fails where fewer are left, or one of them is not reduced.
    fn challenge_scalars(&mut self, n: usize) -> (r: ProofResult<Vec<Ext>>)
        ensures
            match r {
                Ok(v) => {
                    &&& n <= old(self).scalars_left().len()
                    &&& v@ == old(self).scalars_left().take(n as int)
                    &&& final(self).scalars_left() == old(self).scalars_left().skip(n as int)
                },
                Err(ProofError::InvalidIO) => n > old(self).scalars_left().len(),
                Err(ProofError::SerializationError) => n <= old(self).scalars_left().len()
                    && !all_canonical(old(self).scalars_left().take(n as int)),
            },
            r is Err ==> final(self).scalars_left() == old(self).scalars_left(),
            final(self).bytes_left() == old(self).bytes_left(),
    {
        if n > self.scalars.len() {
            self.record(Message::RefusedChallenge(n, ProofError::InvalidIO));
            return Err(ProofError::InvalidIO);
        }
        for i in 0..n
            invariant
                n <= old(self).scalars@.len(),
                *self == *old(self),
                all_canonical(self.scalars@.take(i as int)),
        {
            if !is_canonical(&self.scalars[i]) {
                assert(!self.scalars@.take(n as int)[i as int].canonical());
                self.record(Message::RefusedChallenge(n, ProofError::SerializationError));
                return Err(ProofError::SerializationError);
            }
            assert(self.scalars@.take(i + 1) =~= self.scalars@.take(i as int).push(
                self.scalars@[i as int],
            ));
        }
        let mut v: Vec<Ext> = self.scalars.split_off(n);
        std::mem::swap(&mut v, &mut self.scalars);
        assert(self.log() =~= old(self).log());
        self.record(Message::Challenge(copy_vec(&v)));
        Ok(v)
    }

    /// Draws the next `n` bytes; fails where fewer are left.
    fn challenge_bytes(&mut self, n: usize) -> (r: ProofResult<Vec<u8>>)
        ensures
            match r {
                Ok(v) => {
                    &&& n <= old(self).bytes_left().len()
                    &&& v@ == old(self).bytes_left().take(n as int)
                    &&& final(self).bytes_left() == old(self).bytes_left().skip(n as int)
                },
                Err(ProofError::InvalidIO) => {
                    &&& n > old(self).bytes_left().len()
                    &&& final(self).bytes_left() == old(self).bytes_left()
                },
                Err(_) => false,
            },
            final(self).scalars_left() == old(self).scalars_left(),
    {
        if n > self.bytes.len() {
            self.record(Message::RefusedBytes(n, ProofError::InvalidIO));
            return Err(ProofError::InvalidIO);
        }
        let mut v: Vec<u8> = self.bytes.split_off(n);
        std::mem::swap(&mut v, &mut self.bytes);
        let mut kept: Vec<u8> = Vec::new();
        for i in 0..n
            invariant
                n == v@.len(),
                kept@ == v@.take(i as int),
        {
            kept.push(v[i]);
            assert(kept@ =~= v@.take(i + 1));
        }
        assert(kept@ =~= v@);
        assert(self.log() =~= old(self).log());
        self.record(Message::Bytes(kept));
        Ok(v)
    }

    /// Takes every proof of work as done.
    fn challenge_pow(&mut self, bits: PowBits) -> (r: ProofResult<()>)
        ensures
            r is Ok,
            final(self).scalars_left() == old(self).scalars_left(),
            final(self).bytes_left() == old(self).bytes_left(),
    {
        self.record(Message::Pow(bits));
        Ok(())
    }
}

// What the steps stand for.

/// A difficulty is positive if and only if its encoding, read as a number of double precision, has
/// no sign, is not zero, and is a number: its exponent is not the largest one unless its fraction
/// is zero.
pub proof fn law_positive(bits: PowBits)
    ensures
        bits.positive() <==> {
            let sign = bits.0 as int / 0x8000_0000_0000_0000;
            let exponent = bits.0 as int / 0x10_0000_0000_0000 % 0x800;
            let fraction = bits.0 as int % 0x10_0000_0000_0000;
            sign == 0 && !(exponent == 0 && fraction == 0) && !(exponent == 0x7ff && fraction != 0)
        },
        bits.positive() <==> 0 < bits.0 <= 0x7FF0_0000_0000_0000,
{
}

/// Work of a positive difficulty is one step, and work of any other difficulty is none.
pub proof fn law_pow_steps(bits: PowBits)
    ensures
        0 < bits.0 <= 0x7FF0_0000_0000_0000 ==> pow_trace(bits).len() == 1 && pow_trace(bits)[0]
            == Entry::Pow(bits),
        !(0 < bits.0 <= 0x7FF0_0000_0000_0000) ==> pow_trace(bits).len() == 0,
{
}

/// What a step asked for: to take what was sent, or to send back as much as was received.
pub proof fn law_request(entry: Entry)
    ensures
        entry matches Entry::Digest(d) ==> entry.request() == Request::Digest(d),
        entry matches Entry::Scalars(v) ==> entry.request() == Request::Scalars(v),
        entry matches Entry::Challenge(v) ==> entry.request() == Request::Challenge(v.len()),
        entry matches Entry::Bytes(v) ==> entry.request() == Request::Bytes(v.len()),
        entry matches Entry::Pow(b) ==> entry.request() == Request::Pow(b),
{
}

/// A run that was ended by a refusal took the first steps of its trace and nothing else, and the
/// last step is the refusal of what the next one of the trace asks for.
pub proof fn law_stopped(
    now: Seq<Entry>,
    before: Seq<Entry>,
    trace: Seq<Entry>,
    e: ProofError,
)
    requires
        stopped(now, before, trace, e),
    ensures
        before.len() < now.len() <= before.len() + trace.len(),
        taken(now, before) == now.len() - before.len() - 1,
        forall|i: int| 0 <= i < before.len() ==> #[trigger] now[i] == before[i],
        forall|i: int|
            before.len() <= i < now.len() - 1 ==> #[trigger] now[i] == trace[i - before.len()],
        now.last() == Entry::Refused(trace[now.len() - before.len() - 1].request(), e),
{
}

/// The steps of a record are those of the transcript.
pub proof fn law_message_view(message: Message)
    ensures
        message matches Message::Digest(d) ==> message@ == Entry::Digest(d@),
        message matches Message::Scalars(v) ==> message@ == Entry::Scalars(v@),
        message matches Message::Challenge(v) ==> message@ == Entry::Challenge(v@),
        message matches Message::Bytes(v) ==> message@ == Entry::Bytes(v@),
        message matches Message::Pow(b) ==> message@ == Entry::Pow(b),
        message matches Message::RefusedChallenge(n, e) ==> message@ == Entry::Refused(
            Request::Challenge(n as nat),
            e,
        ),
        message matches Message::RefusedBytes(n, e) ==> message@ == Entry::Refused(
            Request::Bytes(n as nat),
            e,
        ),
{
}

} // verus!

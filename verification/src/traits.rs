//! What the controller asks of its surroundings.
use crate::time::{Span, WallTime};
use vstd::prelude::*;

verus! {

/// Why an operation on the surroundings failed.
#[derive(Debug)]
pub struct Failure {
    pub reason: String,
}

/// A packet with the time of its arrival.
pub struct Packet {
    pub data: Seq<u8>,
    pub arrival: WallTime,
}

/// A source of UTC.
pub trait NtpSource {
    /// The absolute offset of the local clock to UTC, and its sign.
    fn get_offset(&self) -> (r: Result<(Span, i8), Failure>);
}

/// The answer of a source; `None` if it failed.
pub open spec fn answer_in(r: Result<(Span, i8), Failure>) -> Option<(Span, i8)> {
    match r {
        Ok(a) => Some(a),
        Err(_) => None,
    }
}

/// A source gave an answer; `None` if it failed.
pub open spec fn answered_by<S: NtpSource>(source: S, answer: Option<(Span, i8)>) -> bool {
    exists|r: Result<(Span, i8), Failure>| #[trigger]
        call_ensures(S::get_offset, (&source,), r) && answer == answer_in(r)
}

/// A source of UTC with a record of how often it was asked, and of what it
/// answered last.
pub struct Asked<S: NtpSource> {
    source: S,
    last: Ghost<Option<(Span, i8)>>,
    count: Ghost<nat>,
}

impl<S: NtpSource> Asked<S> {
    /// The source.
    pub closed spec fn source(&self) -> S {
        self.source
    }

    /// The last answer; `None` if the source failed, or was never asked.
    pub closed spec fn answer(&self) -> Option<(Span, i8)> {
        self.last@
    }

    /// How often the source was asked.
    pub closed spec fn asks(&self) -> nat {
        self.count@
    }

    pub fn new(source: S) -> (r: Asked<S>)
        ensures
            r.source() == source,
            r.answer() is None,
            r.asks() == 0,
    {
        Asked { source, last: Ghost(None), count: Ghost(0) }
    }

    /// Asks for the offset to UTC and its sign.
    pub fn get_offset(&mut self) -> (r: Result<(Span, i8), Failure>)
        ensures
            final(self).source() == old(self).source(),
            final(self).asks() == old(self).asks() + 1,
            final(self).answer() == answer_in(r),
            answered_by(old(self).source(), answer_in(r)),
    {
        let r = self.source.get_offset();
        self.count = Ghost(self.count@ + 1);
        self.last = Ghost(answer_in(r));
        r
    }
}

/// The network that PTP messages come from.
pub trait PtpNetwork {
    /// Receives a packet: its bytes, how many of them count, and when it arrived.
    /// `Ok(None)` if there is none.
    fn recv_packet(&mut self) -> (r: Result<Option<(Vec<u8>, usize, WallTime)>, Failure>)
        ensures
            r matches Ok(Some((data, size, arrival))) ==> size <= data@.len(),
    ;

    /// Forgets packets that wait. There are none, unless an implementation
    /// says otherwise: the network stays as it is.
    fn reset(&mut self) -> (r: Result<(), Failure>)
        default_ensures
            r is Ok,
            &*final(self) == &*old(self),
    {
        Ok(())
    }
}

/// What came of an attempt to receive a packet.
pub enum Reception {
    Packet(Packet),
    Nothing,
    Failed,
}

/// What came of an attempt to receive a packet, by its result.
pub open spec fn reception(r: Result<Option<(Vec<u8>, usize, WallTime)>, Failure>) -> Reception {
    match r {
        Ok(Some((data, size, arrival))) => Reception::Packet(
            Packet { data: data@.take(size as int), arrival },
        ),
        Ok(None) => Reception::Nothing,
        Err(_) => Reception::Failed,
    }
}

/// Whether an attempt to receive a packet went well, with the failure if not.
pub open spec fn outcome(r: Result<Option<(Vec<u8>, usize, WallTime)>, Failure>) -> Result<
    (),
    Failure,
> {
    match r {
        Ok(_) => Ok(()),
        Err(e) => Err(e),
    }
}

/// A call through a reference received from a network. What the reference holds in the
/// end is what the call made of the network.
pub open spec fn received_by<N: PtpNetwork>(
    m: &mut N,
    network: N,
    heard: Reception,
    went: Result<(), Failure>,
) -> bool {
    *m == network && exists|r: Result<Option<(Vec<u8>, usize, WallTime)>, Failure>| #[trigger]
        call_ensures(N::recv_packet, (m,), r) && heard == reception(r) && went == outcome(r)
}

/// A call through a reference reset a network.
pub open spec fn reset_by<N: PtpNetwork>(m: &mut N, network: N) -> bool {
    *m == network && exists|r: Result<(), Failure>| #[trigger] call_ensures(N::reset, (m,), r)
}

/// A network with a record of what came from it, and of how often it was reset.
pub struct Listened<N: PtpNetwork> {
    network: N,
    record: Ghost<Seq<Reception>>,
    reset_count: Ghost<nat>,
}

impl<N: PtpNetwork> Listened<N> {
    /// The network.
    pub closed spec fn network(&self) -> N {
        self.network
    }

    /// What came of every attempt to receive a packet so far.
    pub closed spec fn receptions(&self) -> Seq<Reception> {
        self.record@
    }

    /// How often the network was reset.
    pub closed spec fn resets(&self) -> nat {
        self.reset_count@
    }

    pub fn new(network: N) -> (r: Listened<N>)
        ensures
            r.network() == network,
            r.receptions() == Seq::<Reception>::empty(),
            r.resets() == 0,
    {
        Listened { network, record: Ghost(Seq::empty()), reset_count: Ghost(0) }
    }

    /// Receives a packet.
    pub fn recv_packet(&mut self) -> (r: Result<Option<(Vec<u8>, usize, WallTime)>, Failure>)
        ensures
            final(self).resets() == old(self).resets(),
            r matches Ok(Some((data, size, arrival))) ==> size <= data@.len(),
            final(self).receptions() == old(self).receptions().push(reception(r)),
            exists|m: &mut N| #[trigger]
                received_by(m, old(self).network(), reception(r), outcome(r)) && *final(m)
                    == final(self).network(),
    {
        let ghost before = self.network();
        let r = self.network.recv_packet();
        self.record = Ghost(self.record@.push(reception(r)));
        assert(exists|m: &mut N| #[trigger]
            call_ensures(N::recv_packet, (m,), r) && *m == before && *final(m) == self.network());
        assert(exists|m: &mut N| #[trigger]
            received_by(m, before, reception(r), outcome(r)) && *final(m) == self.network()) by {
            let m = choose|m: &mut N| #[trigger]
                call_ensures(N::recv_packet, (m,), r) && *m == before && *final(m)
                    == self.network();
            assert(received_by(m, before, reception(r), outcome(r)));
        }
        r
    }

    /// Forgets packets that wait.
    pub fn reset(&mut self) -> (r: Result<(), Failure>)
        ensures
            final(self).resets() == old(self).resets() + 1,
            final(self).receptions() == old(self).receptions(),
            exists|m: &mut N| #[trigger]
                reset_by(m, old(self).network()) && *final(m) == final(self).network(),
    {
        let ghost before = self.network();
        let r = self.network.reset();
        self.reset_count = Ghost(self.reset_count@ + 1);
        assert(exists|m: &mut N| #[trigger]
            call_ensures(N::reset, (m,), r) && *m == before && *final(m) == self.network());
        assert(exists|m: &mut N| #[trigger]
            reset_by(m, before) && *final(m) == self.network()) by {
            let m = choose|m: &mut N| #[trigger]
                call_ensures(N::reset, (m,), r) && *m == before && *final(m) == self.network();
            assert(reset_by(m, before));
        }
        r
    }
}

} // verus!

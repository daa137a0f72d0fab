use vstd::prelude::*;
use std::collections::VecDeque;
use crate::constants::{DELAY_MS, MAX_JITTER_MS, PACKET_LOSS};
use crate::platform::{random_in_range, shuffle_in_place};

verus! {

/// A payload held back by an artificial delay.
pub struct DelayedPacket {
    pub data: Vec<u8>,
    /// When the payload was queued, in milliseconds.
    pub sent_at: u64,
    pub sequence: u32,
    /// How long it is held back, in milliseconds.
    pub delay: u64,
}

/// The fate of an outbound payload.
pub enum Outbound {
    /// Lost to the simulated packet loss.
    Dropped,
    /// Held back in the delay queue.
    Queued,
    /// To be sent at once.
    SendNow(Vec<u8>),
}

/// Imposes loss, delay with jitter, and reordering on a datagram channel.
pub struct NetworkSimulator {
    /// Artificial one-way delay, in milliseconds.
    pub delay_ms: i32,
    /// Probability of losing a packet, in percent.
    pub packet_loss: i32,
    /// Packets held back, oldest first.
    pub delayed_packets: VecDeque<DelayedPacket>,
}

/// Whether a roll in `0..100` loses a packet at `packet_loss` percent.
pub open spec fn lost(packet_loss: i32, roll: i32) -> bool {
    roll < packet_loss
}

/// The delay of a packet: the configured delay plus the jitter, never below
/// zero.
pub open spec fn jittered(delay_ms: i32, jitter: i32) -> u64 {
    if delay_ms + jitter < 0 {
        0
    } else {
        (delay_ms + jitter) as u64
    }
}

/// Whether a queued packet's delay has elapsed at time `now`.
pub open spec fn is_ready(p: DelayedPacket, now: u64) -> bool {
    now - p.sent_at >= p.delay
}

/// The predicate "its delay has elapsed at `now`".
pub open spec fn ready_at(now: u64) -> spec_fn(DelayedPacket) -> bool {
    |p: DelayedPacket| is_ready(p, now)
}

/// The predicate "still held back at `now`".
pub open spec fn waiting_at(now: u64) -> spec_fn(DelayedPacket) -> bool {
    |p: DelayedPacket| !is_ready(p, now)
}

/// The payloads of every queued packet whose delay has elapsed at `now`, in
/// queue order.
pub open spec fn ready_payloads(q: Seq<DelayedPacket>, now: u64) -> Seq<Vec<u8>> {
    q.filter(ready_at(now)).map_values(|p: DelayedPacket| p.data)
}

/// Whether a roll of `roll` (in `0..100`) loses a packet at `packet_loss`
/// percent.
pub fn drops_packet(packet_loss: i32, roll: i32) -> (r: bool)
    ensures
        r == lost(packet_loss, roll),
{
    roll < packet_loss
}

impl NetworkSimulator {
    /// A simulator with the default delay and loss, and an empty queue.
    pub fn new() -> (r: Self)
        ensures
            r.delay_ms == DELAY_MS,
            r.packet_loss == PACKET_LOSS,
            r.queue().len() == 0,
    {
        Self::with_conditions(DELAY_MS, PACKET_LOSS)
    }

    /// A simulator with delay `delay_ms` and loss `packet_loss`, and an empty
    /// queue.
    pub fn with_conditions(delay_ms: i32, packet_loss: i32) -> (r: Self)
        ensures
            r.delay_ms == delay_ms,
            r.packet_loss == packet_loss,
            r.queue().len() == 0,
    {
        NetworkSimulator { delay_ms, packet_loss, delayed_packets: VecDeque::new() }
    }

    /// The packets held back, oldest first.
    pub open spec fn queue(&self) -> Seq<DelayedPacket> {
        self.delayed_packets@
    }

    /// The number of packets held back.
    pub fn delayed_len(&self) -> (r: usize)
        ensures
            r == self.queue().len(),
    {
        self.delayed_packets.len()
    }

    /// Draws whether the next packet is lost: never at 0% or less, always at
    /// 100% or more.
    pub fn simulate_network_conditions(&self) -> (r: bool)
        ensures
            self.packet_loss >= 100 ==> r,
            self.packet_loss <= 0 ==> !r,
    {
        let roll = random_in_range(0, 99);
        drops_packet(self.packet_loss, roll)
    }

    /// Decides the fate of an outbound payload given the loss draw `dropped`
    /// and the jitter draw `jitter`: a lost payload is dropped; with a
    /// positive delay it is queued at time `now` with the jittered delay;
    /// otherwise it is sent at once.
    pub fn send_input_with(&mut self, data: Vec<u8>, sequence: u32, now: u64, dropped: bool, jitter: i32) -> (r: Outbound)
        ensures
            final(self).delay_ms == old(self).delay_ms,
            final(self).packet_loss == old(self).packet_loss,
            dropped ==> r is Dropped && final(self).queue() == old(self).queue(),
            !dropped && old(self).delay_ms > 0 ==> r is Queued && final(self).queue() == old(self).queue().push(
                DelayedPacket { data, sent_at: now, sequence, delay: jittered(old(self).delay_ms, jitter) },
            ),
            !dropped && old(self).delay_ms <= 0 ==> r == Outbound::SendNow(data) && final(self).queue() == old(
                self,
            ).queue(),
    {
        if dropped {
            return Outbound::Dropped;
        }
        if self.delay_ms > 0 {
            let total: i64 = self.delay_ms as i64 + jitter as i64;
            let delay: u64 = if total < 0 {
                0
            } else {
                total as u64
            };
            self.delayed_packets.push_back(DelayedPacket { data, sent_at: now, sequence, delay });
            Outbound::Queued
        } else {
            Outbound::SendNow(data)
        }
    }

    /// Decides the fate of an outbound payload at time `now`, drawing the loss
    /// and a jitter of at most `MAX_JITTER_MS` either way. At 100% loss or
    /// more every payload is dropped.
    pub fn send_input(&mut self, data: Vec<u8>, sequence: u32, now: u64) -> (r: Outbound)
        ensures
            final(self).delay_ms == old(self).delay_ms,
            final(self).packet_loss == old(self).packet_loss,
            old(self).packet_loss >= 100 ==> r is Dropped && final(self).queue() == old(self).queue(),
            old(self).packet_loss <= 0 ==> !(r is Dropped),
            r is Dropped ==> final(self).queue() == old(self).queue(),
            r is Queued ==> old(self).delay_ms > 0 && exists|jitter: i32|
                -MAX_JITTER_MS <= jitter <= MAX_JITTER_MS && final(self).queue() == old(self).queue().push(
                    DelayedPacket { data, sent_at: now, sequence, delay: jittered(old(self).delay_ms, jitter) },
                ),
            r matches Outbound::SendNow(d) ==> old(self).delay_ms <= 0 && d == data && final(self).queue() == old(
                self,
            ).queue(),
    {
        let dropped = self.simulate_network_conditions();
        let jitter = random_in_range(-MAX_JITTER_MS, MAX_JITTER_MS);
        self.send_input_with(data, sequence, now, dropped, jitter)
    }

    /// Removes every queued packet whose delay has elapsed at `now` and
    /// returns their payloads in queue order; the packets still held back
    /// keep their order.
    pub fn take_ready(&mut self, now: u64) -> (r: Vec<Vec<u8>>)
        ensures
            final(self).delay_ms == old(self).delay_ms,
            final(self).packet_loss == old(self).packet_loss,
            r@ == ready_payloads(old(self).queue(), now),
            final(self).queue() == old(self).queue().filter(waiting_at(now)),
    {
        let ghost q0 = self.delayed_packets@;
        let n = self.delayed_packets.len();
        let mut kept: VecDeque<DelayedPacket> = VecDeque::new();
        let mut r: Vec<Vec<u8>> = Vec::new();
        let mut i: usize = 0;
        while i < n
            invariant
                n == q0.len(),
                i <= n,
                q0 == old(self).queue(),
                self.delayed_packets@ == q0.skip(i as int),
                kept@ == q0.take(i as int).filter(waiting_at(now)),
                r@ == q0.take(i as int).filter(ready_at(now)).map_values(|p: DelayedPacket| p.data),
                self.delay_ms == old(self).delay_ms,
                self.packet_loss == old(self).packet_loss,
            decreases n - i,
        {
            proof {
                assert(self.delayed_packets@[0] == q0[i as int]);
                reveal(Seq::filter);
                let t = q0.take(i + 1);
                assert(t.drop_last() =~= q0.take(i as int));
                assert(t.last() == q0[i as int]);
            }
            let ghost before = r@;
            match self.delayed_packets.pop_front() {
                Some(p) => {
                    if now >= p.sent_at && now - p.sent_at >= p.delay {
                        r.push(p.data);
                        proof {
                            let t = q0.take(i + 1);
                            assert(t.filter(ready_at(now)) == q0.take(i as int).filter(ready_at(now)).push(q0[i as int]));
                            assert(r@ =~= t.filter(ready_at(now)).map_values(|p: DelayedPacket| p.data));
                        }
                    } else {
                        kept.push_back(p);
                    }
                },
                None => {},
            }
            proof {
                assert(self.delayed_packets@ =~= q0.skip(i + 1));
            }
            i = i + 1;
        }
        proof {
            assert(q0.take(n as int) =~= q0);
        }
        self.delayed_packets = kept;
        r
    }

    /// Releases every packet whose delay has elapsed at `now`, shuffled to
    /// simulate reordering among packets that became ready together.
    pub fn process_delayed_packets(&mut self, now: u64) -> (r: Vec<Vec<u8>>)
        ensures
            final(self).delay_ms == old(self).delay_ms,
            final(self).packet_loss == old(self).packet_loss,
            r@.to_multiset() == ready_payloads(old(self).queue(), now).to_multiset(),
            final(self).queue() == old(self).queue().filter(waiting_at(now)),
    {
        let mut ready = self.take_ready(now);
        shuffle_in_place(&mut ready);
        ready
    }
}

} // verus!

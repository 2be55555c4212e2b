//! The ICMP echo sweep's decisions: each target's identifier, the echo request's
//! bytes, which reply belongs to which target, and when the receiver stops.
use vstd::prelude::*;

verus! {

/// How long the receiver keeps listening once every probe is sent, in milliseconds.
pub const DRAIN_MILLIS: u64 = 3000;

/// Targets that can each get their own 16-bit identifier.
pub const MAX_TARGETS: usize = 65536;

/// The Internet checksum that `pnet::util::checksum` computes over `data`,
/// leaving out the 16-bit word at index `skipword`.
pub uninterp spec fn internet_checksum(data: Seq<u8>, skipword: int) -> u16;

/// Relies on `pnet::util::checksum`: the ones' complement sum of the big-endian
/// words of `data`, skipping word `skipword`. Its 32-bit sum cannot overflow on
/// packets of at most 65535 bytes.
#[verifier::external_body]
fn checksum_skipping(data: &[u8], skipword: usize) -> (r: u16)
    requires
        data@.len() <= 65535,
    ensures
        r == internet_checksum(data@, skipword as int),
{
    pnet::util::checksum(data, skipword)
}

/// The identifier of the target at `index`: the index itself.
pub open spec fn identifier_of(index: int) -> u16 {
    index as u16
}

/// The identifier under which the target at `index` is registered and probed.
pub fn ping_identifier(index: usize) -> (r: u16)
    requires
        index < MAX_TARGETS,
    ensures
        r == identifier_of(index as int),
        r as int == index,
{
    index as u16
}

/// With at most 65536 targets, no two targets share an identifier.
pub proof fn lemma_identifiers_distinct(i: int, j: int)
    requires
        0 <= i < MAX_TARGETS,
        0 <= j < MAX_TARGETS,
        i != j,
    ensures
        identifier_of(i) != identifier_of(j),
{
}

/// An echo request before its checksum: type 8, code 0, identifier field 0, and
/// `seq` as the sequence number.
pub open spec fn echo_unsummed(seq: u16) -> Seq<u8> {
    seq![8u8, 0u8, 0u8, 0u8, 0u8, 0u8, (seq / 256) as u8, (seq % 256) as u8]
}

/// The echo request for `seq`, its checksum stored big-endian in bytes 2 and 3.
pub open spec fn echo_request_bytes(seq: u16) -> Seq<u8> {
    let c = internet_checksum(echo_unsummed(seq), 1);
    echo_unsummed(seq).update(2, (c / 256) as u8).update(3, (c % 256) as u8)
}

/// The 8-byte ICMP echo request that probes the target with identifier `seq`.
pub fn echo_request(seq: u16) -> (r: Vec<u8>)
    ensures
        r@ == echo_request_bytes(seq),
{
    let mut p: Vec<u8> = vec![8u8, 0u8, 0u8, 0u8, 0u8, 0u8, (seq / 256) as u8, (seq % 256) as u8];
    assert(p@ =~= echo_unsummed(seq));
    let c = checksum_skipping(p.as_slice(), 1);
    p.set(2, (c / 256) as u8);
    p.set(3, (c % 256) as u8);
    p
}

/// The identifier that a reply's payload carries in its bytes 2 and 3, big-endian.
pub open spec fn reply_id(payload: Seq<u8>) -> Option<u16> {
    if payload.len() >= 4 {
        Some((payload[2] as int * 256 + payload[3] as int) as u16)
    } else {
        None
    }
}

/// The identifier of an echo reply, read from its payload; nothing where the
/// payload is too short to hold one.
pub fn reply_identifier(payload: &[u8]) -> (r: Option<u16>)
    ensures
        r == reply_id(payload@),
{
    if payload.len() >= 4 {
        Some((payload[2] as u16) * 256 + payload[3] as u16)
    } else {
        None
    }
}

/// Where the receiver stands: still waiting for the sender, draining until a
/// deadline, or done.
#[derive(Debug, Clone, Copy, PartialEq, Eq, Structural)]
pub enum DrainPhase {
    Sending,
    Draining { deadline_ms: u64 },
    Done,
}

/// The deadline latched when the sender is seen done at `now_ms`.
pub open spec fn drain_deadline(now_ms: u64) -> u64 {
    if now_ms as int + DRAIN_MILLIS as int > u64::MAX as int {
        u64::MAX
    } else {
        (now_ms + DRAIN_MILLIS) as u64
    }
}

/// The receiver's next phase at `now_ms`: the deadline is latched once, when the
/// sender is first seen done, and the receiver stops once it has passed.
pub fn next_phase(phase: DrainPhase, done_sending: bool, now_ms: u64) -> (r: DrainPhase)
    ensures
        r == (match phase {
            DrainPhase::Sending => if done_sending {
                DrainPhase::Draining { deadline_ms: drain_deadline(now_ms) }
            } else {
                DrainPhase::Sending
            },
            DrainPhase::Draining { deadline_ms } => if now_ms >= deadline_ms {
                DrainPhase::Done
            } else {
                phase
            },
            DrainPhase::Done => DrainPhase::Done,
        }),
{
    match phase {
        DrainPhase::Sending => {
            if done_sending {
                let d = if now_ms > u64::MAX - DRAIN_MILLIS {
                    u64::MAX
                } else {
                    now_ms + DRAIN_MILLIS
                };
                DrainPhase::Draining { deadline_ms: d }
            } else {
                DrainPhase::Sending
            }
        },
        DrainPhase::Draining { deadline_ms } => {
            if now_ms >= deadline_ms {
                DrainPhase::Done
            } else {
                phase
            }
        },
        DrainPhase::Done => DrainPhase::Done,
    }
}

/// What the sweep learned of one target, by its index in the target list.
#[derive(Debug, Clone, Copy, PartialEq, Eq, Structural)]
pub struct PingResult {
    pub target: usize,
    pub is_up: bool,
    pub response_millis: Option<u64>,
}

/// The results of one sweep, in the order they were learned.
pub struct PingTally {
    pub results: Vec<PingResult>,
    pub replied: Vec<bool>,
}

impl PingTally {
    /// Each result names a target of the sweep, and a target is reported up at
    /// most once: exactly the targets marked as replied.
    pub open spec fn wf(&self) -> bool {
        &&& forall|i: int|
            0 <= i < self.results@.len() ==> #[trigger] self.results@[i].target
                < self.replied@.len()
        &&& forall|i: int, j: int|
            0 <= i < j < self.results@.len() && self.results@[i].is_up && self.results@[j].is_up
                ==> #[trigger] self.results@[i].target != #[trigger] self.results@[j].target
        &&& forall|i: int|
            0 <= i < self.results@.len() && #[trigger] self.results@[i].is_up
                ==> self.replied@[self.results@[i].target as int]
    }

    pub open spec fn targets(&self) -> nat {
        self.replied@.len()
    }

    pub open spec fn has_replied(&self, target: int) -> bool {
        self.replied@[target]
    }

    /// A tally for `n` targets, with nothing learned yet.
    pub fn new(n: usize) -> (r: PingTally)
        ensures
            r.wf(),
            r.targets() == n,
            r.results@.len() == 0,
            forall|t: int| 0 <= t < n ==> !r.has_replied(t),
    {
        let mut replied: Vec<bool> = Vec::new();
        let mut i: usize = 0;
        while i < n
            invariant
                i <= n,
                replied@.len() == i,
                forall|t: int| 0 <= t < i ==> !replied@[t],
            decreases n - i,
        {
            replied.push(false);
            i = i + 1;
        }
        PingTally { results: Vec::new(), replied }
    }

    /// The probe to `target` could not be sent: it is reported down.
    pub fn record_send_error(&mut self, target: usize)
        requires
            old(self).wf(),
            target < old(self).targets(),
        ensures
            final(self).wf(),
            final(self).targets() == old(self).targets(),
            final(self).results@ == old(self).results@.push(
                PingResult { target, is_up: false, response_millis: None },
            ),
            forall|t: int| #[trigger] final(self).has_replied(t) == old(self).has_replied(t),
    {
        self.results.push(PingResult { target, is_up: false, response_millis: None });
    }

    /// An echo reply with `payload` arrived `elapsed_ms` after sending began,
    /// while the first `registered` targets were registered. It counts for the
    /// target its identifier names, where that target is registered and has not
    /// replied before; then that target is reported up.
    pub fn record_reply(&mut self, payload: &[u8], registered: usize, elapsed_ms: u64) -> (r:
        bool)
        requires
            old(self).wf(),
            registered <= old(self).targets(),
        ensures
            final(self).wf(),
            final(self).targets() == old(self).targets(),
            r == (match reply_id(payload@) {
                Some(id) => id < registered && !old(self).has_replied(id as int),
                None => false,
            }),
            r ==> final(self).results@ == old(self).results@.push(
                PingResult {
                    target: reply_id(payload@).unwrap() as usize,
                    is_up: true,
                    response_millis: Some(elapsed_ms),
                },
            ),
            r ==> forall|t: int|
                0 <= t < old(self).targets() ==> #[trigger] final(self).has_replied(t) == (old(self).has_replied(t) || t
                    == reply_id(payload@).unwrap() as int),
            !r ==> *final(self) == *old(self),
    {
        match reply_identifier(payload) {
            Some(id) => {
                let t = id as usize;
                if t < registered && !self.replied[t] {
                    let ghost old_results = self.results@;
                    self.results.push(
                        PingResult { target: t, is_up: true, response_millis: Some(elapsed_ms) },
                    );
                    self.replied.set(t, true);
                    proof {
                        assert forall|i: int|
                            0 <= i < self.results@.len() - 1 && #[trigger] self.results@[i].is_up
                            implies self.results@[i].target != t by {
                            assert(self.results@[i] == old_results[i]);
                        }
                    }
                    true
                } else {
                    false
                }
            },
            None => false,
        }
    }
}

} // verus!

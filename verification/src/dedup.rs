//! A sender that drops messages it has already seen recently.
//!
//! Every message handed to [`DedupSender::send`] is stamped with the time it
//! was last seen. A message seen again before `expire` nanoseconds have passed
//! since its last stamp is dropped; otherwise it is handed on to the channel.

use vstd::prelude::*;
use std::time::Instant;
use tokio::sync::mpsc::UnboundedSender;
use tokio::sync::mpsc::error::SendError;

use crate::error::FabError;
use crate::node::ack_byte;

verus! {

/// `std::time::Instant`, the origin of the sender's clock.
#[verifier::external_type_specification]
#[verifier::external_body]
pub struct ExInstant(Instant);

/// `tokio::sync::mpsc::UnboundedSender`, the channel that messages go out on.
#[verifier::external_type_specification]
#[verifier::external_body]
#[verifier::reject_recursive_types(T)]
pub struct ExUnboundedSender<T>(UnboundedSender<T>);

/// `tokio::sync::mpsc::error::SendError`, returned when the channel is closed.
#[verifier::external_type_specification]
#[verifier::external_body]
#[verifier::reject_recursive_types(T)]
pub struct ExSendError<T>(SendError<T>);

/// Reads the monotonic clock with `Instant::now`. Nothing is promised of the
/// instant returned.
#[verifier::external_body]
fn clock_origin() -> Instant {
    Instant::now()
}

/// How long a message stays suppressed after it was last seen: ten seconds.
pub const EXPIRE_NANOS: u128 = 10_000_000_000;

/// Time from `then` to `now`, zero when `now` is earlier (as
/// `Instant::duration_since` saturates).
pub open spec fn elapsed(now: u128, then: u128) -> int {
    if now >= then {
        now - then
    } else {
        0
    }
}

/// Whether `msg`, arriving at `now`, is a duplicate: it was last seen less
/// than `expire` nanoseconds ago.
pub open spec fn suppressed(seen: Map<Seq<char>, u128>, msg: Seq<char>, now: u128, expire: u128) -> bool {
    seen.contains_key(msg) && elapsed(now, seen[msg]) < expire
}

/// Whether `msg`, arriving at `now`, is let through to the channel: it is
/// not a duplicate.
pub open spec fn lets_through(seen: Map<Seq<char>, u128>, msg: Seq<char>, now: u128, expire: u128) -> bool {
    !suppressed(seen, msg, now, expire)
}

/// One call of [`DedupSender::send_at`]: the sender had seen the messages
/// `before`, received `msg` at `now`, and ends having seen `after`, with
/// result `r`. The message is stamped with `now` whether or not it goes out;
/// a duplicate gives `Ok(false)`; anything else is handed to the channel and
/// gives `Ok(true)`, or `Err(ChannelSendError)` when the channel is closed.
pub open spec fn dedup_step(
    before: Map<Seq<char>, u128>,
    expire: u128,
    msg: Seq<char>,
    now: u128,
    after: Map<Seq<char>, u128>,
    r: Result<bool, FabError>,
) -> bool {
    &&& after == before.insert(msg, now)
    &&& suppressed(before, msg, now, expire) ==> r == Ok::<bool, FabError>(false)
    &&& !suppressed(before, msg, now, expire) ==> (r == Ok::<bool, FabError>(true) || r == Err::<
        bool,
        FabError,
    >(FabError::ChannelSendError))
}

spec fn keys_distinct(c: Seq<(String, u128)>) -> bool {
    forall|i: int, j: int| 0 <= i < j < c.len() ==> c[i].0@ != c[j].0@
}

spec fn has_key(c: Seq<(String, u128)>, k: Seq<char>) -> bool {
    exists|i: int| 0 <= i < c.len() && c[i].0@ == k
}

spec fn cache_map(c: Seq<(String, u128)>) -> Map<Seq<char>, u128> {
    Map::new(
        |k: Seq<char>| has_key(c, k),
        |k: Seq<char>| c[choose|i: int| 0 <= i < c.len() && c[i].0@ == k].1,
    )
}

/// Updating the entry at `i`, the only one with key `k`, updates the map at `k`.
proof fn lemma_cache_update(c: Seq<(String, u128)>, i: int, e: (String, u128))
    requires
        keys_distinct(c),
        0 <= i < c.len(),
        c[i].0@ == e.0@,
    ensures
        keys_distinct(c.update(i, e)),
        cache_map(c.update(i, e)) == cache_map(c).insert(e.0@, e.1),
{
    let c2 = c.update(i, e);
    assert forall|a: int, b: int| 0 <= a < b < c2.len() implies c2[a].0@ != c2[b].0@ by {
        assert(c2[a].0@ == c[a].0@ && c2[b].0@ == c[b].0@);
    }
    assert forall|k: Seq<char>| has_key(c2, k) <==> (has_key(c, k) || k == e.0@) by {
        if has_key(c, k) {
            let j = choose|j: int| 0 <= j < c.len() && c[j].0@ == k;
            assert(c2[j].0@ == k);
        }
        if k == e.0@ {
            assert(c2[i].0@ == k);
        }
        if has_key(c2, k) {
            let j = choose|j: int| 0 <= j < c2.len() && c2[j].0@ == k;
            assert(c[j].0@ == k);
        }
    }
    assert forall|k: Seq<char>| #[trigger] cache_map(c2).contains_key(k) implies cache_map(c2)[k]
        == cache_map(c).insert(e.0@, e.1)[k] by {
        let j2 = choose|j: int| 0 <= j < c2.len() && c2[j].0@ == k;
        if k == e.0@ {
            assert(j2 == i);
        } else {
            let j1 = choose|j: int| 0 <= j < c.len() && c[j].0@ == k;
            assert(j1 == j2);
        }
    }
    assert(cache_map(c2) =~= cache_map(c).insert(e.0@, e.1));
}

/// Appending an entry whose key is new adds it to the map.
proof fn lemma_cache_push(c: Seq<(String, u128)>, e: (String, u128))
    requires
        keys_distinct(c),
        !has_key(c, e.0@),
    ensures
        keys_distinct(c.push(e)),
        cache_map(c.push(e)) == cache_map(c).insert(e.0@, e.1),
{
    let c2 = c.push(e);
    assert forall|a: int, b: int| 0 <= a < b < c2.len() implies c2[a].0@ != c2[b].0@ by {
        if b == c.len() {
            assert(c2[a].0@ == c[a].0@);
        } else {
            assert(c2[a].0@ == c[a].0@ && c2[b].0@ == c[b].0@);
        }
    }
    assert forall|k: Seq<char>| has_key(c2, k) <==> (has_key(c, k) || k == e.0@) by {
        if has_key(c, k) {
            let j = choose|j: int| 0 <= j < c.len() && c[j].0@ == k;
            assert(c2[j].0@ == k);
        }
        if k == e.0@ {
            assert(c2[c.len() as int].0@ == k);
        }
        if has_key(c2, k) {
            let j = choose|j: int| 0 <= j < c2.len() && c2[j].0@ == k;
            if j < c.len() {
                assert(c[j].0@ == k);
            }
        }
    }
    assert forall|k: Seq<char>| #[trigger] cache_map(c2).contains_key(k) implies cache_map(c2)[k]
        == cache_map(c).insert(e.0@, e.1)[k] by {
        let j2 = choose|j: int| 0 <= j < c2.len() && c2[j].0@ == k;
        if k == e.0@ {
            assert(j2 == c.len());
        } else {
            let j1 = choose|j: int| 0 <= j < c.len() && c[j].0@ == k;
            assert(c2[j1].0@ == k);
            assert(j1 == j2);
        }
    }
    assert(cache_map(c2) =~= cache_map(c).insert(e.0@, e.1));
}

/// The channel's messages after a send of `msg` with result `r`: `msg`
/// added when the send handed it on (`Ok(true)`), unchanged otherwise.
pub open spec fn sent_on(before: Seq<Seq<char>>, msg: Seq<char>, r: Result<bool, FabError>) -> Seq<Seq<char>> {
    if r == Ok::<bool, FabError>(true) {
        before.push(msg)
    } else {
        before
    }
}

/// What one send does to the channel: a message held back (a duplicate) is
/// not offered and the result is `Ok(false)`; any other is offered, and the
/// result is `Ok(true)` when the channel took it, `Err(ChannelSendError)`
/// when it refused it.
pub open spec fn channel_step(
    offered0: Seq<Seq<char>>,
    forwarded0: Seq<Seq<char>>,
    msg: Seq<char>,
    held_back: bool,
    r: Result<bool, FabError>,
    offered1: Seq<Seq<char>>,
    forwarded1: Seq<Seq<char>>,
) -> bool {
    if held_back {
        &&& r == Ok::<bool, FabError>(false)
        &&& offered1 == offered0
        &&& forwarded1 == forwarded0
    } else {
        &&& offered1 == offered0.push(msg)
        &&& (r == Ok::<bool, FabError>(true) && forwarded1 == forwarded0.push(msg)) || (r == Err::<
            bool,
            FabError,
        >(FabError::ChannelSendError) && forwarded1 == forwarded0)
    }
}

spec fn forwarded_after(before: Seq<Seq<char>>, out: Option<String>, r: Result<bool, FabError>) -> Seq<Seq<char>> {
    match out {
        Some(m) => sent_on(before, m@, r),
        None => before,
    }
}

/// The result of handing a message to the channel: `Ok(true)` when the
/// channel took it, `Err(ChannelSendError)` when it was closed.
fn delivery_outcome(sent: Result<(), SendError<String>>) -> (r: Result<bool, FabError>)
    ensures
        sent is Ok ==> r == Ok::<bool, FabError>(true),
        sent is Err ==> r == Err::<bool, FabError>(FabError::ChannelSendError),
{
    match sent {
        Ok(()) => Ok(true),
        Err(_) => Err(FabError::ChannelSendError),
    }
}

/// Deduplicating sender: forwards a message on its channel unless the same
/// message was seen less than `expire` nanoseconds earlier.
pub struct DedupSender {
    cache: Vec<(String, u128)>,
    expire: u128,
    origin: Instant,
    sender: UnboundedSender<String>,
    forwarded: Ghost<Seq<Seq<char>>>,
    offered: Ghost<Seq<Seq<char>>>,
    clock: Ghost<u128>,
}

impl DedupSender {
    #[verifier::type_invariant]
    spec fn inv(self) -> bool {
        keys_distinct(self.cache@)
    }

    /// For each message seen so far, the clock reading at which it was last seen.
    pub closed spec fn last_seen(&self) -> Map<Seq<char>, u128> {
        cache_map(self.cache@)
    }

    /// How long, in nanoseconds, a message stays suppressed.
    pub closed spec fn expire(&self) -> u128 {
        self.expire
    }

    /// The channel that messages go out on.
    pub closed spec fn sender(&self) -> UnboundedSender<String> {
        self.sender
    }

    /// The instant the sender's clock readings count from.
    pub closed spec fn origin(&self) -> Instant {
        self.origin
    }

    /// The messages the channel has taken from this sender, in order.
    pub closed spec fn forwarded(&self) -> Seq<Seq<char>> {
        self.forwarded@
    }

    /// The messages the sender has offered to the channel, in order, whether
    /// the channel took them or refused them.
    pub closed spec fn offered(&self) -> Seq<Seq<char>> {
        self.offered@
    }

    /// The latest clock reading the sender has taken (0 before any).
    pub closed spec fn clock(&self) -> u128 {
        self.clock@
    }

    /// Every stamp is no later than the latest clock reading, as when all
    /// stamps came from the clock ([`DedupSender::send`], [`DedupSender::register`]).
    pub open spec fn stamps_before_clock(&self) -> bool {
        forall|m: Seq<char>| #[trigger]
            self.last_seen().contains_key(m) ==> self.last_seen()[m] <= self.clock()
    }

    /// Reads the clock: the nanoseconds elapsed since the origin, by
    /// `Instant::elapsed` converted with `Duration::as_nanos`. `Instant` is a
    /// monotonic clock, so a reading is never below an earlier one; nothing
    /// else is promised of it. Only the latest reading changes.
    #[verifier::external_body]
    fn read_clock(&mut self) -> (now: u128)
        ensures
            now >= old(self).clock(),
            final(self).clock() == now,
            final(self).cache == old(self).cache,
            final(self).expire == old(self).expire,
            final(self).origin == old(self).origin,
            final(self).sender == old(self).sender,
            final(self).forwarded == old(self).forwarded,
            final(self).offered == old(self).offered,
    {
        self.origin.elapsed().as_nanos()
    }

    /// Hands `msg` to the channel with `UnboundedSender::send`, which counts
    /// as an offer. On success the channel holds `msg` after what it took
    /// before; on failure (the receiving half is gone) it took nothing. Which
    /// of the two happens is not promised.
    #[verifier::external_body]
    fn forward(&mut self, msg: String) -> (r: Result<(), SendError<String>>)
        ensures
            final(self).offered() == old(self).offered().push(msg@),
            r is Ok ==> final(self).forwarded() == old(self).forwarded().push(msg@),
            r is Err ==> final(self).forwarded() == old(self).forwarded(),
            final(self).cache == old(self).cache,
            final(self).expire == old(self).expire,
            final(self).origin == old(self).origin,
            final(self).sender == old(self).sender,
            final(self).clock == old(self).clock,
    {
        self.sender.send(msg)
    }

    /// A sender that has seen nothing yet, forwarding on `sender`, with a
    /// suppression window of [`EXPIRE_NANOS`].
    pub fn new(sender: UnboundedSender<String>) -> (s: DedupSender)
        ensures
            s.last_seen() == Map::<Seq<char>, u128>::empty(),
            s.expire() == EXPIRE_NANOS,
            s.sender() == sender,
            s.forwarded() == Seq::<Seq<char>>::empty(),
            s.offered() == Seq::<Seq<char>>::empty(),
            s.clock() == 0,
            s.stamps_before_clock(),
    {
        let s = DedupSender {
            cache: Vec::new(),
            expire: EXPIRE_NANOS,
            origin: clock_origin(),
            sender,
            forwarded: Ghost(Seq::empty()),
            offered: Ghost(Seq::empty()),
            clock: Ghost(0),
        };
        assert(s.last_seen() =~= Map::<Seq<char>, u128>::empty());
        s
    }

    /// When `msg` was last seen, if it was.
    fn lookup(&self, msg: &String) -> (r: Option<u128>)
        ensures
            r is Some <==> self.last_seen().contains_key(msg@),
            r matches Some(t) ==> t == self.last_seen()[msg@],
    {
        proof {
            use_type_invariant(self);
        }
        let n = self.cache.len();
        let mut i: usize = 0;
        while i < n
            invariant
                n == self.cache@.len(),
                keys_distinct(self.cache@),
                i <= n,
                forall|j: int| 0 <= j < i ==> self.cache@[j].0@ != msg@,
            decreases n - i,
        {
            if self.cache[i].0 == *msg {
                let ghost k = choose|j: int| 0 <= j < self.cache@.len() && self.cache@[j].0@ == msg@;
                assert(self.cache@[i as int].0@ == msg@);
                assert(k == i);
                return Some(self.cache[i].1);
            }
            i = i + 1;
        }
        None
    }

    /// Stamps `msg` as seen at `now`.
    fn stamp(&mut self, msg: String, now: u128)
        ensures
            final(self).last_seen() == old(self).last_seen().insert(msg@, now),
            final(self).expire() == old(self).expire(),
            final(self).sender() == old(self).sender(),
            final(self).origin() == old(self).origin(),
            final(self).forwarded() == old(self).forwarded(),
            final(self).offered() == old(self).offered(),
            final(self).clock() == old(self).clock(),
    {
        proof {
            use_type_invariant(&*self);
        }
        let mut c: Vec<(String, u128)> = Vec::new();
        std::mem::swap(&mut c, &mut self.cache);
        let ghost c0 = c@;
        let n = c.len();
        let mut i: usize = 0;
        while i < n
            invariant
                n == c@.len(),
                c0 == c@,
                c0 == old(self).cache@,
                keys_distinct(c0),
                self.expire == old(self).expire,
                self.sender == old(self).sender,
                self.origin == old(self).origin,
                self.forwarded == old(self).forwarded,
                self.offered == old(self).offered,
                self.clock == old(self).clock,
                i <= n,
                forall|j: int| 0 <= j < i ==> c0[j].0@ != msg@,
            decreases n - i,
        {
            if c[i].0 == msg {
                proof {
                    lemma_cache_update(c0, i as int, (msg, now));
                }
                c.set(i, (msg, now));
                self.cache = c;
                return;
            }
            i = i + 1;
        }
        proof {
            lemma_cache_push(c0, (msg, now));
        }
        c.push((msg, now));
        self.cache = c;
    }

    /// Records `msg` as seen at clock reading `now`, without sending it.
    pub fn register_at(&mut self, msg: String, now: u128)
        ensures
            final(self).last_seen() == old(self).last_seen().insert(msg@, now),
            final(self).expire() == old(self).expire(),
            final(self).sender() == old(self).sender(),
            final(self).origin() == old(self).origin(),
            final(self).forwarded() == old(self).forwarded(),
            final(self).offered() == old(self).offered(),
            final(self).clock() == old(self).clock(),
    {
        self.stamp(msg, now);
    }

    /// Records `msg` as seen now, without sending it; the clock reading
    /// used is the sender's new latest reading, no earlier than the last.
    pub fn register(&mut self, msg: String)
        ensures
            old(self).clock() <= final(self).clock(),
            old(self).last_seen().insert(msg@, final(self).clock()) == final(self).last_seen(),
            old(self).stamps_before_clock() ==> final(self).stamps_before_clock(),
            final(self).expire() == old(self).expire(),
            final(self).sender() == old(self).sender(),
            final(self).origin() == old(self).origin(),
            final(self).forwarded() == old(self).forwarded(),
            final(self).offered() == old(self).offered(),
    {
        let now = self.read_clock();
        let ghost k = msg@;
        self.register_at(msg, now);
        proof {
            if old(self).stamps_before_clock() {
                assert forall|m: Seq<char>| #[trigger] self.last_seen().contains_key(m) implies self.last_seen()[m]
                    <= self.clock() by {
                    if m != k {
                        assert(old(self).last_seen().contains_key(m));
                    }
                }
            }
        }
    }

    /// Receives `msg` at clock reading `now`: stamps it, and returns it when
    /// it is to go out on the channel, `None` when it is a duplicate.
    pub fn screen(&mut self, msg: String, now: u128) -> (out: Option<String>)
        ensures
            final(self).last_seen() == old(self).last_seen().insert(msg@, now),
            final(self).expire() == old(self).expire(),
            final(self).sender() == old(self).sender(),
            final(self).origin() == old(self).origin(),
            final(self).forwarded() == old(self).forwarded(),
            final(self).offered() == old(self).offered(),
            final(self).clock() == old(self).clock(),
            lets_through(old(self).last_seen(), msg@, now, old(self).expire()) ==> out == Some(msg),
            !lets_through(old(self).last_seen(), msg@, now, old(self).expire()) ==> out is None,
    {
        let dup = match self.lookup(&msg) {
            Some(then) => {
                let gap: u128 = if now >= then { now - then } else { 0 };
                gap < self.expire
            },
            None => false,
        };
        let out = msg.clone();
        self.stamp(msg, now);
        if dup {
            None
        } else {
            Some(out)
        }
    }

    /// Puts `out` on the channel, if there is something to put: `Ok(false)`
    /// for nothing, `Ok(true)` once handed on, `Err(ChannelSendError)` when
    /// the channel is closed.
    fn hand_on(&mut self, out: Option<String>) -> (r: Result<bool, FabError>)
        ensures
            out is None ==> r == Ok::<bool, FabError>(false),
            out is Some ==> (r == Ok::<bool, FabError>(true) || r == Err::<bool, FabError>(
                FabError::ChannelSendError,
            )),
            final(self).forwarded() == forwarded_after(old(self).forwarded(), out, r),
            channel_step(
                old(self).offered(),
                old(self).forwarded(),
                match out {
                    Some(m) => m@,
                    None => Seq::<char>::empty(),
                },
                out is None,
                r,
                final(self).offered(),
                final(self).forwarded(),
            ),
            final(self).last_seen() == old(self).last_seen(),
            final(self).expire() == old(self).expire(),
            final(self).sender() == old(self).sender(),
            final(self).origin() == old(self).origin(),
            final(self).clock() == old(self).clock(),
    {
        match out {
            None => Ok(false),
            Some(m) => {
                let sent = self.forward(m);
                delivery_outcome(sent)
            },
        }
    }

    /// Receives `msg` at clock reading `now`: stamps it, and hands on to the
    /// channel exactly what [`DedupSender::screen`] lets through. Returns
    /// whether something was handed on.
    pub fn send_at(&mut self, msg: String, now: u128) -> (r: Result<bool, FabError>)
        ensures
            dedup_step(old(self).last_seen(), old(self).expire(), msg@, now, final(self).last_seen(), r),
            final(self).forwarded() == sent_on(old(self).forwarded(), msg@, r),
            channel_step(
                old(self).offered(),
                old(self).forwarded(),
                msg@,
                suppressed(old(self).last_seen(), msg@, now, old(self).expire()),
                r,
                final(self).offered(),
                final(self).forwarded(),
            ),
            final(self).expire() == old(self).expire(),
            final(self).sender() == old(self).sender(),
            final(self).origin() == old(self).origin(),
            final(self).clock() == old(self).clock(),
    {
        let out = self.screen(msg, now);
        self.hand_on(out)
    }

    /// Receives `msg` now: stamps it, and hands it to the channel unless it is
    /// a duplicate. Returns whether it was handed on. The clock reading used
    /// is the sender's new latest reading, no earlier than the last.
    pub fn send(&mut self, msg: String) -> (r: Result<bool, FabError>)
        ensures
            old(self).clock() <= final(self).clock(),
            dedup_step(old(self).last_seen(), old(self).expire(), msg@, final(self).clock(), final(self).last_seen(), r),
            old(self).stamps_before_clock() ==> final(self).stamps_before_clock(),
            final(self).forwarded() == sent_on(old(self).forwarded(), msg@, r),
            channel_step(
                old(self).offered(),
                old(self).forwarded(),
                msg@,
                suppressed(old(self).last_seen(), msg@, final(self).clock(), old(self).expire()),
                r,
                final(self).offered(),
                final(self).forwarded(),
            ),
            final(self).expire() == old(self).expire(),
            final(self).sender() == old(self).sender(),
            final(self).origin() == old(self).origin(),
    {
        let now = self.read_clock();
        let ghost k = msg@;
        let r = self.send_at(msg, now);
        proof {
            if old(self).stamps_before_clock() {
                assert forall|m: Seq<char>| #[trigger] self.last_seen().contains_key(m) implies self.last_seen()[m]
                    <= self.clock() by {
                    if m != k {
                        assert(old(self).last_seen().contains_key(m));
                    }
                }
            }
        }
        r
    }

    /// A listener's handling of a delivered message: it is sent on with
    /// [`DedupSender::send`]; the answer to the sender is [`ack_byte`] of
    /// whether it was new, and a new message is returned to be passed on to
    /// the other nodes. A failed send is returned as the error.
    pub fn handle_delivery(&mut self, content: String) -> (r: Result<(u8, Option<String>), FabError>)
        ensures
            old(self).clock() <= final(self).clock(),
            old(self).stamps_before_clock() ==> final(self).stamps_before_clock(),
            exists|r0: Result<bool, FabError>| #[trigger]
                dedup_step(old(self).last_seen(), old(self).expire(), content@, final(self).clock(), final(self).last_seen(), r0)
                    && r == delivery_answer(r0, content)
                    && final(self).forwarded() == sent_on(old(self).forwarded(), content@, r0)
                    && channel_step(
                    old(self).offered(),
                    old(self).forwarded(),
                    content@,
                    suppressed(old(self).last_seen(), content@, final(self).clock(), old(self).expire()),
                    r0,
                    final(self).offered(),
                    final(self).forwarded(),
                ),
            r matches Ok((a, p)) ==> (a == 0u8 && p == Some(content)) || (a == 1u8 && p is None),
            final(self).expire() == old(self).expire(),
            final(self).sender() == old(self).sender(),
            final(self).origin() == old(self).origin(),
    {
        let again = content.clone();
        match self.send(content) {
            Ok(new) => {
                let pass_on = if new {
                    Some(again)
                } else {
                    None
                };
                Ok((ack_byte(new), pass_on))
            },
            Err(e) => Err(e),
        }
    }

    /// One turn of the loop that passes messages on: `None` (the incoming
    /// channel is closed) stops the loop; a message is sent with
    /// [`DedupSender::send`], and the loop stops when that fails. Returns
    /// whether the loop goes on.
    pub fn relay(&mut self, incoming: Option<String>) -> (go_on: bool)
        ensures
            incoming is None ==> !go_on && final(self).last_seen() == old(self).last_seen()
                && final(self).forwarded() == old(self).forwarded() && final(self).offered()
                == old(self).offered() && final(self).clock() == old(self).clock(),
            old(self).clock() <= final(self).clock(),
            old(self).stamps_before_clock() ==> final(self).stamps_before_clock(),
            incoming matches Some(m) ==> exists|r: Result<bool, FabError>| #[trigger]
                dedup_step(old(self).last_seen(), old(self).expire(), m@, final(self).clock(), final(self).last_seen(), r)
                    && go_on == (r is Ok)
                    && final(self).forwarded() == sent_on(old(self).forwarded(), m@, r)
                    && channel_step(
                    old(self).offered(),
                    old(self).forwarded(),
                    m@,
                    suppressed(old(self).last_seen(), m@, final(self).clock(), old(self).expire()),
                    r,
                    final(self).offered(),
                    final(self).forwarded(),
                ),
            final(self).expire() == old(self).expire(),
            final(self).sender() == old(self).sender(),
            final(self).origin() == old(self).origin(),
    {
        match incoming {
            Some(m) => {
                let r = self.send(m);
                r.is_ok()
            },
            None => false,
        }
    }
}

/// What a listener does with a delivered message, given the outcome `r0` of
/// sending it on: answer with [`ack_byte`] of whether it was new, and pass a
/// new message on to the other nodes; a failed send is the error.
pub open spec fn delivery_answer(r0: Result<bool, FabError>, content: String) -> Result<
    (u8, Option<String>),
    FabError,
> {
    match r0 {
        Ok(new) => Ok((ack_byte(new), if new { Some(content) } else { None })),
        Err(e) => Err(e),
    }
}

/// What a listener answers: a new message is acknowledged with 0 and passed
/// on to the other nodes whatever its content; a known one is acknowledged
/// with 1 and not passed on; a failed send is returned unchanged.
pub proof fn lemma_delivery_answer(content: String, e: FabError)
    ensures
        delivery_answer(Ok(true), content) == Ok::<(u8, Option<String>), FabError>((0u8, Some(content))),
        delivery_answer(Ok(false), content) == Ok::<(u8, Option<String>), FabError>((1u8, None)),
        delivery_answer(Err(e), content) == Err::<(u8, Option<String>), FabError>(e),
{
}

/// One send, described by the message's history: a message never seen, or
/// last seen at least `expire` nanoseconds before `now`, is offered to the
/// channel, and the result is `Ok(true)` exactly when the channel took it and
/// an error exactly when the channel refused it; a message seen less than
/// `expire` before is not offered and gives `Ok(false)`. So an error never
/// comes without a refused offer, and the stamp of the message becomes `now`
/// in every case.
pub proof fn lemma_send_outcome(
    s0: Map<Seq<char>, u128>,
    expire: u128,
    msg: Seq<char>,
    now: u128,
    s1: Map<Seq<char>, u128>,
    r: Result<bool, FabError>,
    offered0: Seq<Seq<char>>,
    forwarded0: Seq<Seq<char>>,
    offered1: Seq<Seq<char>>,
    forwarded1: Seq<Seq<char>>,
)
    requires
        dedup_step(s0, expire, msg, now, s1, r),
        channel_step(offered0, forwarded0, msg, suppressed(s0, msg, now, expire), r, offered1, forwarded1),
        s0.contains_key(msg) ==> s0[msg] <= now,
    ensures
        s1.contains_key(msg) && s1[msg] == now,
        (!s0.contains_key(msg) || now - s0[msg] >= expire) ==> {
            &&& offered1 == offered0.push(msg)
            &&& (r == Ok::<bool, FabError>(true) <==> forwarded1 == forwarded0.push(msg))
            &&& (r is Err <==> forwarded1 == forwarded0)
            &&& r is Err ==> r == Err::<bool, FabError>(FabError::ChannelSendError)
            &&& r != Ok::<bool, FabError>(false)
        },
        (s0.contains_key(msg) && now - s0[msg] < expire) ==> {
            &&& r == Ok::<bool, FabError>(false)
            &&& offered1 == offered0
            &&& forwarded1 == forwarded0
        },
        r is Err ==> offered1 == offered0.push(msg) && forwarded1 == forwarded0,
{
    if !suppressed(s0, msg, now, expire) {
        assert(forwarded0.push(msg).len() != forwarded0.len());
    }
}

/// A message stamped at `t1`, whether sent or only registered (as a
/// broadcaster registers what it broadcasts), is not let through to the
/// channel again before `t1 + expire`.
pub proof fn lemma_stamped_not_let_through(
    s0: Map<Seq<char>, u128>,
    expire: u128,
    msg: Seq<char>,
    t1: u128,
    t2: u128,
)
    requires
        t1 <= t2,
        t2 - t1 < expire,
    ensures
        !lets_through(s0.insert(msg, t1), msg, t2, expire),
{
    assert(s0.insert(msg, t1).contains_key(msg));
}

/// A message never seen before, or last seen at least `expire` nanoseconds
/// ago, is let through to the channel.
pub proof fn lemma_fresh_let_through(s0: Map<Seq<char>, u128>, expire: u128, msg: Seq<char>, now: u128)
    requires
        !s0.contains_key(msg) || (s0[msg] <= now && now - s0[msg] >= expire),
    ensures
        lets_through(s0, msg, now, expire),
{
}

/// A run of stamps on a sender: step `k` brings message `steps[k].0` at
/// clock reading `steps[k].1`, sent (`steps[k].2`, as by
/// [`DedupSender::send`] or [`DedupSender::relay`]) or only registered (as
/// a broadcaster registers what it broadcasts). The stamps before step `j`,
/// on a sender that had seen `seen`.
pub open spec fn stamps_upto(
    seen: Map<Seq<char>, u128>,
    steps: Seq<(Seq<char>, u128, bool)>,
    j: int,
) -> Map<Seq<char>, u128>
    decreases j,
{
    if j <= 0 {
        seen
    } else {
        stamps_upto(seen, steps, j - 1).insert(steps[j - 1].0, steps[j - 1].1)
    }
}

/// Whether step `j` of the run hands its message to the channel.
pub open spec fn let_through_at(
    seen: Map<Seq<char>, u128>,
    expire: u128,
    steps: Seq<(Seq<char>, u128, bool)>,
    j: int,
) -> bool {
    steps[j].2 && lets_through(stamps_upto(seen, steps, j), steps[j].0, steps[j].1, expire)
}

/// The clock readings of the run never go back, and every earlier stamp is
/// no later than the first of them.
pub open spec fn run_in_order(seen: Map<Seq<char>, u128>, steps: Seq<(Seq<char>, u128, bool)>) -> bool {
    &&& forall|i: int, j: int| 0 <= i <= j < steps.len() ==> steps[i].1 <= steps[j].1
    &&& steps.len() > 0 ==> forall|m: Seq<char>| #[trigger] seen.contains_key(m) ==> seen[m] <= steps[0].1
}

proof fn lemma_stamps_upto(
    seen: Map<Seq<char>, u128>,
    steps: Seq<(Seq<char>, u128, bool)>,
    j: int,
)
    requires
        run_in_order(seen, steps),
        0 <= j <= steps.len(),
    ensures
        forall|m: Seq<char>| #[trigger]
            stamps_upto(seen, steps, j).contains_key(m) <==> (seen.contains_key(m) || exists|i: int|
                0 <= i < j && steps[i].0 == m),
        forall|m: Seq<char>| #[trigger]
            stamps_upto(seen, steps, j).contains_key(m) ==> {
                let v = stamps_upto(seen, steps, j)[m];
                &&& seen.contains_key(m) ==> seen[m] <= v
                &&& forall|i: int| 0 <= i < j && steps[i].0 == m ==> steps[i].1 <= v
                &&& (seen.contains_key(m) && v == seen[m]) || exists|i: int|
                    0 <= i < j && steps[i].0 == m && steps[i].1 == v
                &&& j > 0 ==> v <= steps[j - 1].1
            },
    decreases j,
{
    if j > 0 {
        lemma_stamps_upto(seen, steps, j - 1);
        let prev = stamps_upto(seen, steps, j - 1);
        let cur = stamps_upto(seen, steps, j);
        let k = j - 1;
        assert(cur == prev.insert(steps[k].0, steps[k].1));
        assert forall|m: Seq<char>| #[trigger]
            cur.contains_key(m) <==> (seen.contains_key(m) || exists|i: int|
                0 <= i < j && steps[i].0 == m) by {
            if exists|i: int| 0 <= i < j && steps[i].0 == m {
                let i = choose|i: int| 0 <= i < j && steps[i].0 == m;
                if i < k {
                    assert(prev.contains_key(m));
                }
            }
            if prev.contains_key(m) && !seen.contains_key(m) {
                let i = choose|i: int| 0 <= i < k && steps[i].0 == m;
                assert(0 <= i < j && steps[i].0 == m);
            }
        }
        assert forall|m: Seq<char>| #[trigger] cur.contains_key(m) implies {
            let v = cur[m];
            &&& seen.contains_key(m) ==> seen[m] <= v
            &&& forall|i: int| 0 <= i < j && steps[i].0 == m ==> steps[i].1 <= v
            &&& (seen.contains_key(m) && v == seen[m]) || exists|i: int|
                0 <= i < j && steps[i].0 == m && steps[i].1 == v
            &&& j > 0 ==> v <= steps[j - 1].1
        } by {
            if m == steps[k].0 {
                assert(cur[m] == steps[k].1);
                assert(steps[0].1 <= steps[k].1);
                assert forall|i: int| 0 <= i < j && steps[i].0 == m implies steps[i].1 <= cur[m] by {
                    assert(steps[i].1 <= steps[k].1);
                }
                assert(0 <= k < j && steps[k].0 == m && steps[k].1 == cur[m]);
            } else {
                assert(cur[m] == prev[m]);
                if k > 0 {
                    assert(steps[k - 1].1 <= steps[k].1);
                } else {
                    assert(prev == seen);
                    assert(seen[m] <= steps[0].1);
                }
                if (seen.contains_key(m) && prev[m] == seen[m]) {
                } else {
                    let i = choose|i: int| 0 <= i < k && steps[i].0 == m && steps[i].1 == prev[m];
                    assert(0 <= i < j && steps[i].0 == m && steps[i].1 == cur[m]);
                }
            }
        }
    }
}

/// A run of a sender, step by step: a step hands its message to the channel
/// exactly when it is a send, the message was not stamped before the run
/// within `expire` of it, and no earlier step of the run (send or
/// registration) brought the same message within `expire` of it. So copies
/// of a message arriving at several listeners at once go out once, and a
/// broadcast message coming back within the window does not go out.
pub proof fn lemma_run_lets_through(
    seen: Map<Seq<char>, u128>,
    expire: u128,
    steps: Seq<(Seq<char>, u128, bool)>,
    j: int,
)
    requires
        run_in_order(seen, steps),
        0 <= j < steps.len(),
    ensures
        let_through_at(seen, expire, steps, j) <==> {
            &&& steps[j].2
            &&& seen.contains_key(steps[j].0) ==> steps[j].1 - seen[steps[j].0] >= expire
            &&& forall|i: int|
                0 <= i < j && steps[i].0 == steps[j].0 ==> steps[j].1 - steps[i].1 >= expire
        },
{
    lemma_stamps_upto(seen, steps, j);
    let m = steps[j].0;
    let t = steps[j].1;
    let st = stamps_upto(seen, steps, j);
    if st.contains_key(m) {
        let v = st[m];
        if j > 0 {
            assert(steps[j - 1].1 <= t);
        } else {
            assert(seen[m] <= steps[0].1);
        }
        assert(v <= t);
        if (seen.contains_key(m) && v == seen[m]) {
        } else {
            let i = choose|i: int| 0 <= i < j && steps[i].0 == m && steps[i].1 == v;
            assert(0 <= i < j && steps[i].0 == m);
        }
    } else {
        assert forall|i: int| 0 <= i < j && steps[i].0 == m implies t - steps[i].1 >= expire by {
            assert(st.contains_key(m));
        }
    }
}

/// A message brought twice within the window is put on the channel at
/// most once: the second step adds nothing to what the channel took.
pub proof fn lemma_repeat_within_window_not_queued(
    s0: Map<Seq<char>, u128>,
    expire: u128,
    msg: Seq<char>,
    t1: u128,
    s1: Map<Seq<char>, u128>,
    r1: Result<bool, FabError>,
    t2: u128,
    s2: Map<Seq<char>, u128>,
    r2: Result<bool, FabError>,
    log: Seq<Seq<char>>,
)
    requires
        dedup_step(s0, expire, msg, t1, s1, r1),
        dedup_step(s1, expire, msg, t2, s2, r2),
        t1 <= t2,
        t2 - t1 < expire,
    ensures
        sent_on(sent_on(log, msg, r1), msg, r2) == sent_on(log, msg, r1),
{
    assert(s1.contains_key(msg) && s1[msg] == t1);
}

/// A message registered at `t1` (as a broadcaster registers what it
/// broadcasts) and then sent within the window is not put on the channel.
pub proof fn lemma_registered_not_queued(
    s0: Map<Seq<char>, u128>,
    expire: u128,
    msg: Seq<char>,
    t1: u128,
    t2: u128,
    s2: Map<Seq<char>, u128>,
    r: Result<bool, FabError>,
    log: Seq<Seq<char>>,
)
    requires
        dedup_step(s0.insert(msg, t1), expire, msg, t2, s2, r),
        t1 <= t2,
        t2 - t1 < expire,
    ensures
        sent_on(log, msg, r) == log,
{
    assert(s0.insert(msg, t1).contains_key(msg));
}

/// A message seen twice within the suppression window goes out at most once:
/// the second of two consecutive steps on the same message, less than
/// `expire` nanoseconds after the first, is dropped.
pub proof fn lemma_repeat_within_window_dropped(
    s0: Map<Seq<char>, u128>,
    expire: u128,
    msg: Seq<char>,
    t1: u128,
    s1: Map<Seq<char>, u128>,
    r1: Result<bool, FabError>,
    t2: u128,
    s2: Map<Seq<char>, u128>,
    r2: Result<bool, FabError>,
)
    requires
        dedup_step(s0, expire, msg, t1, s1, r1),
        dedup_step(s1, expire, msg, t2, s2, r2),
        t1 <= t2,
        t2 - t1 < expire,
    ensures
        r2 == Ok::<bool, FabError>(false),
{
    assert(s1.contains_key(msg) && s1[msg] == t1);
}

/// A message never seen before, or last seen at least `expire` nanoseconds
/// ago, is never dropped as a duplicate.
pub proof fn lemma_fresh_not_dropped(
    s0: Map<Seq<char>, u128>,
    expire: u128,
    msg: Seq<char>,
    now: u128,
    s1: Map<Seq<char>, u128>,
    r: Result<bool, FabError>,
)
    requires
        dedup_step(s0, expire, msg, now, s1, r),
        !s0.contains_key(msg) || (s0[msg] <= now && now - s0[msg] >= expire),
    ensures
        r == Ok::<bool, FabError>(true) || r == Err::<bool, FabError>(FabError::ChannelSendError),
{
}

/// A step on one message leaves every other message's stamp unchanged.
pub proof fn lemma_others_untouched(
    s0: Map<Seq<char>, u128>,
    expire: u128,
    msg: Seq<char>,
    now: u128,
    s1: Map<Seq<char>, u128>,
    r: Result<bool, FabError>,
    other: Seq<char>,
)
    requires
        dedup_step(s0, expire, msg, now, s1, r),
        other != msg,
    ensures
        s1.contains_key(other) == s0.contains_key(other),
        s0.contains_key(other) ==> s1[other] == s0[other],
{
}

} // verus!

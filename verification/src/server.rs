//! The HTTP side of the engine: who may use it, how turns are scheduled, what
//! is asked of the compute process, and what its clients are told.
use crate::compact::Event;
use crate::grid;
use crate::grid::Experts;
use crate::json;
use crate::json::JsonTree;
use crate::message;
use crate::message::{Message, Msg};
use crate::runner;
use crate::runner::Flags;
use crate::text;
use crate::tune::Tuned;
use vstd::prelude::*;

verus! {

/// Turns that run at once.
pub const KV_SLOTS: usize = 4;

/// Turns that are said to wait at most.
pub const MAX_QUEUE: usize = 32;

/// How long a turn waits for a slot, in seconds.
pub const QUEUE_TIMEOUT_S: u64 = 120;

/// Turns that are kept for the profiling view.
pub const PROFILE_KEEP: usize = 32;

/// How long to wait for in-flight turns to finish before giving up on an
/// unload, in seconds. Long enough for a turn to end on its own, short enough
/// that the button answers.
pub const DRAIN_TIMEOUT_S: u64 = 90;

/// The reply length assumed when a client does not ask for one. Also the
/// context compaction reserves for the answer.
pub const DEFAULT_MAX_TOKENS: u32 = 4096;

/// Where the compute process listens.
pub const COMPUTE_PORT: u16 = 8099;

/// Tokens a turn advances the expert grid by, at most.
pub const MOST_TICKS: u64 = 512;

/// Characters of a suggested key.
pub const KEY_LENGTH: usize = 28;

// ---------------------------------------------------------------- access

/// `s` without the `c`s it opens with.
pub open spec fn trim_left(s: Seq<char>, c: char) -> Seq<char>
    decreases s.len(),
{
    if s.len() > 0 && s[0] == c {
        trim_left(s.drop_first(), c)
    } else {
        s
    }
}

/// `s` without the `c`s it closes with.
pub open spec fn trim_right(s: Seq<char>, c: char) -> Seq<char>
    decreases s.len(),
{
    if s.len() > 0 && s.last() == c {
        trim_right(s.drop_last(), c)
    } else {
        s
    }
}

/// The host of an address: what stands before the last colon, without the
/// brackets IPv6 needs when a port follows, or all of an address without one.
pub open spec fn host_of(listen: Seq<char>) -> Seq<char> {
    match text::last_of(listen, ':') {
        Some(k) => trim_right(trim_left(listen.take(k), '['), ']'),
        None => listen,
    }
}

/// A decimal number of at most `most`.
pub open spec fn is_at_most(s: Seq<char>, most: u64) -> bool {
    text::natural(s) matches Some(n) && n <= most
}

/// What the last of `parts` parts of an IPv4 address goes up to: it stands for
/// all the bytes that the parts before it leave.
pub open spec fn last_part_limit(parts: nat) -> u64 {
    if parts == 2 {
        0xff_ffff
    } else if parts == 3 {
        0xffff
    } else {
        0xff
    }
}

/// An IPv4 address of the loopback network: 127 and one to three decimal parts.
/// Each part is a byte, but for the last, which is as many as are left, so that
/// `127.1` is `127.0.0.1`.
pub open spec fn is_loopback_v4(host: Seq<char>) -> bool {
    let parts = text::split(host, '.');
    &&& 2 <= parts.len() <= 4
    &&& parts[0] == "127"@
    &&& forall|i: int| 1 <= i < parts.len() - 1 ==> is_at_most(#[trigger] parts[i], 0xff)
    &&& is_at_most(parts.last(), last_part_limit(parts.len()))
}

/// A host that only this machine reaches. The empty host is none: some systems
/// take it to mean every interface.
pub open spec fn is_local(host: Seq<char>) -> bool {
    ||| host == "localhost"@
    ||| host == "::1"@
    ||| is_loopback_v4(host)
}

fn at_most(v: &[char], most: u64) -> (r: bool)
    ensures
        r == is_at_most(v@, most),
{
    match text::parse_digits(v) {
        Some(n) => n <= most,
        None => false,
    }
}

fn loopback_v4(v: &[char]) -> (r: bool)
    ensures
        r == is_loopback_v4(v@),
{
    let parts = text::split_chars(v, '.');
    let n: usize = parts.len();
    let ghost want = text::split(v@, '.');
    if n < 2 || n > 4 || !text::same(text::string_of(&parts[0]).as_str(), "127") {
        return false;
    }
    let mut i: usize = 1;
    while i < n - 1
        invariant
            1 <= i <= n - 1,
            n == parts@.len(),
            text::rows(parts@) == want,
            want == text::split(v@, '.'),
            forall|j: int| 1 <= j < i ==> is_at_most(#[trigger] want[j], 0xff),
        decreases n - i,
    {
        assert(want[i as int] == parts@[i as int]@);
        if !at_most(parts[i].as_slice(), 0xff) {
            return false;
        }
        i = i + 1;
    }
    let limit: u64 = if n == 2 {
        0xff_ffff
    } else if n == 3 {
        0xffff
    } else {
        0xff
    };
    assert(want.last() == parts@[n - 1]@);
    at_most(parts[n - 1].as_slice(), limit)
}

fn host(v: &[char]) -> (r: Vec<char>)
    ensures
        r@ == host_of(v@),
{
    match text::rfind(v, ':') {
        Some(k) => {
            proof {
                text::lemma_last_of(v@, ':');
            }
            let mut from: usize = 0;
            let mut to: usize = k;
            let ghost head = v@.take(k as int);
            assert(v@.subrange(0, k as int) =~= head);
            while from < to && v[from] == '['
                invariant
                    from <= to,
                    to == k,
                    k <= v@.len(),
                    trim_left(head, '[') == trim_left(v@.subrange(from as int, k as int), '['),
                decreases to - from,
            {
                assert(v@.subrange(from as int, k as int).drop_first() =~= v@.subrange(
                    from + 1,
                    k as int,
                ));
                from = from + 1;
            }
            let ghost left = v@.subrange(from as int, k as int);
            assert(trim_left(head, '[') == left);
            while from < to && v[to - 1] == ']'
                invariant
                    from <= to <= k,
                    k <= v@.len(),
                    trim_right(left, ']') == trim_right(v@.subrange(from as int, to as int), ']'),
                decreases to - from,
            {
                assert(v@.subrange(from as int, to as int).drop_last() =~= v@.subrange(
                    from as int,
                    to - 1,
                ));
                to = to - 1;
            }
            text::cut(v, from, to)
        },
        None => {
            let end: usize = v.len();
            assert(v@.subrange(0, end as int) =~= v@);
            text::cut(v, 0, end)
        },
    }
}

/// Whether an address only accepts connections from this machine.
///
/// Anything else is reachable by other people, and the model behind it will
/// answer any of them: there is no per-user anything here, just a GPU that
/// runs whatever it is asked.
pub fn is_loopback(listen: &str) -> (r: bool)
    ensures
        r == is_local(host_of(listen@)),
{
    let v = text::chars_of(listen);
    let h = host(v.as_slice());
    let name = text::string_of(&h);
    text::same(name.as_str(), "localhost") || text::same(name.as_str(), "::1") || loopback_v4(
        h.as_slice(),
    )
}

/// Compare a presented key with the expected one without leaking, through
/// timing, how much of a guess was right.
pub fn secret_eq(a: &[u8], b: &[u8]) -> (r: bool)
    ensures
        r == (a@ == b@),
{
    if a.len() != b.len() {
        return false;
    }
    let mut differ: u8 = 0;
    let mut i: usize = 0;
    while i < a.len()
        invariant
            i <= a@.len(),
            a@.len() == b@.len(),
            differ == 0 <==> forall|j: int| 0 <= j < i ==> a@[j] == b@[j],
        decreases a@.len() - i,
    {
        let x: u8 = a[i];
        let y: u8 = b[i];
        proof {
            assert((differ | (x ^ y)) == 0u8 <==> differ == 0u8 && x == y) by (bit_vector);
        }
        differ = differ | (x ^ y);
        i = i + 1;
    }
    assert(differ == 0 <==> a@ =~= b@);
    differ == 0
}

/// The key a request presents: the bearer token, or else the key header.
pub open spec fn presented_key(
    authorization: Option<Seq<char>>,
    api_key: Option<Seq<char>>,
) -> Option<Seq<char>> {
    match authorization {
        Some(v) => if text::starts(v, "Bearer "@) {
            Some(v.skip(7))
        } else {
            api_key
        },
        None => api_key,
    }
}

/// A request is let through: no key is asked for, or the one presented is the
/// one expected.
pub open spec fn let_through(
    expected: Option<Seq<char>>,
    authorization: Option<Seq<char>>,
    api_key: Option<Seq<char>>,
) -> bool {
    match expected {
        Some(key) => presented_key(authorization, api_key) == Some(key),
        None => true,
    }
}

pub open spec fn as_text(s: Option<&str>) -> Option<Seq<char>> {
    match s {
        Some(s) => Some(s@),
        None => None,
    }
}

/// Gate the API when a key is configured: a request that does not present it
/// is answered with an error, any other is let through. `authorization` and
/// `api_key` are the two headers, where they are text.
pub fn require_key(
    expected: Option<&str>,
    authorization: Option<&str>,
    api_key: Option<&str>,
) -> (r: Option<ApiError>)
    ensures
        r == if let_through(as_text(expected), as_text(authorization), as_text(api_key)) {
            None
        } else {
            Some(ApiError::Unauthorized)
        },
{
    let passes: bool = match expected {
        Some(key) => presents(key, authorization, api_key),
        None => true,
    };
    if passes {
        None
    } else {
        Some(ApiError::Unauthorized)
    }
}

fn presents(key: &str, authorization: Option<&str>, api_key: Option<&str>) -> (r: bool)
    ensures
        r == (presented_key(as_text(authorization), as_text(api_key)) == Some(key@)),
{
    if let Some(v) = authorization {
        let chars = text::chars_of(v);
        let mark = text::chars_of("Bearer ");
        proof {
            reveal_strlit("Bearer ");
        }
        if text::is_at(chars.as_slice(), mark.as_slice(), 0) {
            let end: usize = chars.len();
            let token = text::cut(chars.as_slice(), 7, end);
            assert(token@ =~= v@.skip(7));
            return same_secret(text::string_of(&token).as_str(), key);
        }
    }
    match api_key {
        Some(k) => same_secret(k, key),
        None => false,
    }
}

fn same_secret(a: &str, b: &str) -> (r: bool)
    ensures
        r == (a@ == b@),
{
    proof {
        vstd::utf8::encode_utf8_decode_utf8(a@);
        vstd::utf8::encode_utf8_decode_utf8(b@);
    }
    secret_eq(a.as_bytes(), b.as_bytes())
}

/// The letters a suggested key is made of.
pub open spec fn alphabet() -> Seq<char> {
    "abcdefghijkmnopqrstuvwxyz23456789"@
}

/// The letter a state of the generator stands for.
pub open spec fn letter(x: u64) -> char {
    alphabet()[((grid::output(x) >> 33u64) % 33) as int]
}

/// A key of `n` letters, drawn from a seed.
pub open spec fn key_from(seed: u64, n: nat) -> Seq<char> {
    Seq::new(n, |i: int| letter(grid::after_draws(seed, (i + 1) as nat)))
}

/// A key worth suggesting when someone binds a public address without one.
///
/// Not cryptographic randomness, and it does not need to be: it is a starting
/// point the user is free to replace, printed once so the address is not left
/// open by default.
pub fn suggest_key(seed: u64) -> (r: String)
    ensures
        r@ == key_from(seed, KEY_LENGTH as nat),
{
    proof {
        reveal_strlit("abcdefghijkmnopqrstuvwxyz23456789");
    }
    let letters = text::chars_of("abcdefghijkmnopqrstuvwxyz23456789");
    let mut state: u64 = seed;
    let mut r = String::new();
    let mut i: usize = 0;
    while i < KEY_LENGTH
        invariant
            i <= KEY_LENGTH,
            letters@ == alphabet(),
            letters@.len() == 33,
            state == grid::after_draws(seed, i as nat),
            r@ == key_from(seed, i as nat),
        decreases KEY_LENGTH - i,
    {
        state = grid::shift(state);
        let n: u64 = state.wrapping_mul(grid::MIX);
        let at: u64 = (n >> 33u64) % 33;
        assert(state == grid::after_draws(seed, (i + 1) as nat));
        r.push(letters[at as usize]);
        assert(r@ =~= key_from(seed, (i + 1) as nat));
        i = i + 1;
    }
    r
}

/// A suggested key is as long as it should be, and of letters and digits.
pub proof fn law_a_suggested_key_is_worth_suggesting(seed: u64)
    ensures
        key_from(seed, KEY_LENGTH as nat).len() == 28,
        forall|i: int|
            0 <= i < 28 ==> text::ascii_alphanumeric(
                #[trigger] key_from(seed, KEY_LENGTH as nat)[i],
            ),
{
    reveal_strlit("abcdefghijkmnopqrstuvwxyz23456789");
    let a = alphabet();
    assert(a.len() == 33);
    assert forall|k: int| 0 <= k < 33 implies text::ascii_alphanumeric(#[trigger] a[k]) by {}
}

/// Who may use an address.
#[derive(Debug, Clone, Copy, PartialEq, Eq, Structural)]
pub enum Access {
    /// Anyone who can reach it could: it is not opened.
    Refused,
    /// Whoever holds the key.
    Keyed,
    /// Whoever is on this machine.
    Local,
}

/// Who may use an address. A public address with no key hands the GPU to
/// anything that can reach the port; refusing is the only safe default.
/// Loopback stays open because reaching it already means being on this
/// machine.
pub fn access(listen: &str, has_key: bool) -> (r: Access)
    ensures
        r == if has_key {
            Access::Keyed
        } else if is_local(host_of(listen@)) {
            Access::Local
        } else {
            Access::Refused
        },
{
    if has_key {
        Access::Keyed
    } else if is_loopback(listen) {
        Access::Local
    } else {
        Access::Refused
    }
}

/// The key that is asked for: the one that was given, or else the one of the
/// environment; one of nothing but white space is none.
pub fn effective_key(given: Option<String>, environment: Option<String>) -> (r: Option<String>)
    ensures
        ({
            let chosen = match given {
                Some(k) => Some(k@),
                None => match environment {
                    Some(k) => Some(k@),
                    None => None,
                },
            };
            match chosen {
                Some(k) => if text::trim(k).len() == 0 {
                    r is None
                } else {
                    r matches Some(s) && s@ == k
                },
                None => r is None,
            }
        }),
{
    let chosen: Option<String> = match given {
        Some(k) => Some(k),
        None => environment,
    };
    match chosen {
        Some(k) => {
            let v = text::chars_of(k.as_str());
            if text::trim_chars(v.as_slice()).len() == 0 {
                None
            } else {
                Some(k)
            }
        },
        None => None,
    }
}

/// Whether a page of this origin may call the API from a browser: one served
/// from this machine.
pub fn origin_allowed(origin: &[u8]) -> (r: bool)
    ensures
        r == (opens_with(origin@, vstd::utf8::encode_utf8("http://localhost:"@)) || opens_with(
            origin@,
            vstd::utf8::encode_utf8("http://127.0.0.1:"@),
        )),
{
    starts_bytes(origin, "http://localhost:".as_bytes()) || starts_bytes(
        origin,
        "http://127.0.0.1:".as_bytes(),
    )
}

pub open spec fn opens_with(s: Seq<u8>, prefix: Seq<u8>) -> bool {
    prefix.len() <= s.len() && s.take(prefix.len() as int) == prefix
}

fn starts_bytes(s: &[u8], prefix: &[u8]) -> (r: bool)
    ensures
        r == opens_with(s@, prefix@),
{
    if prefix.len() > s.len() {
        return false;
    }
    let mut i: usize = 0;
    while i < prefix.len()
        invariant
            i <= prefix@.len(),
            prefix@.len() <= s@.len(),
            forall|j: int| 0 <= j < i ==> s@[j] == prefix@[j],
        decreases prefix@.len() - i,
    {
        if s[i] != prefix[i] {
            assert(s@.take(prefix@.len() as int)[i as int] != prefix@[i as int]);
            return false;
        }
        i = i + 1;
    }
    assert(s@.take(prefix@.len() as int) =~= prefix@);
    true
}

// ---------------------------------------------------------------- scheduler

/// What the scheduler counts. Counters wrap.
#[derive(Debug, Clone, Copy, PartialEq, Eq, Structural)]
pub struct Sched {
    pub active: u64,
    pub queued: u64,
    pub admitted: u64,
    pub completed: u64,
    pub rejected: u64,
    pub timed_out: u64,
    pub cancelled: u64,
}

impl Default for Sched {
    fn default() -> (r: Sched)
        ensures
            r == Sched::fresh(),
    {
        Sched {
            active: 0,
            queued: 0,
            admitted: 0,
            completed: 0,
            rejected: 0,
            timed_out: 0,
            cancelled: 0,
        }
    }
}

/// How waiting for a slot ended.
#[derive(Debug, Clone, Copy, PartialEq, Eq, Structural)]
pub enum Waited {
    Granted,
    /// There are no slots to be had any more.
    Closed,
    TimedOut,
}

/// What a turn is told.
#[derive(Debug, Clone, Copy, PartialEq, Eq, Structural)]
pub enum Call {
    Reject,
    Complete,
}

impl Sched {
    pub open spec fn fresh() -> Sched {
        Sched {
            active: 0,
            queued: 0,
            admitted: 0,
            completed: 0,
            rejected: 0,
            timed_out: 0,
            cancelled: 0,
        }
    }

    /// After a turn began to wait for a slot.
    pub open spec fn waiting(self) -> Sched {
        Sched { queued: self.queued.wrapping_add(1), ..self }
    }

    /// After it waited.
    pub open spec fn waited(self, how: Waited) -> Sched {
        Sched {
            queued: self.queued.wrapping_sub(1),
            timed_out: if how == Waited::TimedOut {
                self.timed_out.wrapping_add(1)
            } else {
                self.timed_out
            },
            ..self
        }
    }

    /// After a turn was admitted.
    pub open spec fn opened(self) -> Sched {
        Sched {
            admitted: self.admitted.wrapping_add(1),
            active: self.active.wrapping_add(1),
            ..self
        }
    }

    /// After a turn that was not settled was told something.
    pub open spec fn settled(self, call: Call) -> Sched {
        match call {
            Call::Reject => Sched { rejected: self.rejected.wrapping_add(1), ..self },
            Call::Complete => Sched { completed: self.completed.wrapping_add(1), ..self },
        }
    }

    /// After a turn was dropped.
    pub open spec fn closed(self, was_settled: bool) -> Sched {
        Sched {
            active: self.active.wrapping_sub(1),
            cancelled: if was_settled {
                self.cancelled
            } else {
                self.cancelled.wrapping_add(1)
            },
            ..self
        }
    }

    /// A turn begins to wait for a slot.
    pub fn enter_queue(&mut self)
        ensures
            *final(self) == old(self).waiting(),
    {
        self.queued = self.queued.wrapping_add(1);
    }

    /// A turn has waited for a slot; says whether it has one. The wait is
    /// reported honestly.
    pub fn leave_queue(&mut self, how: Waited) -> (r: bool)
        ensures
            *final(self) == old(self).waited(how),
            r == (how == Waited::Granted),
    {
        self.queued = self.queued.wrapping_sub(1);
        if how == Waited::TimedOut {
            self.timed_out = self.timed_out.wrapping_add(1);
        }
        how == Waited::Granted
    }
}

/// A turn's scheduler accounting, so that `active` is decremented exactly once
/// however the turn ends.
///
/// The server drops a stream outright when the browser goes away (Stop button,
/// closed tab), so decrementing only on the happy path would leak the gauge.
/// Dropping cannot be skipped, so this cannot leak.
#[derive(Debug)]
pub struct TurnGuard {
    settled: bool,
}

impl TurnGuard {
    /// The turn has been told how it ended.
    pub closed spec fn is_settled(&self) -> bool {
        self.settled
    }

    /// A turn is admitted.
    pub fn new(sched: &mut Sched) -> (r: TurnGuard)
        ensures
            *final(sched) == old(sched).opened(),
            !r.is_settled(),
    {
        sched.admitted = sched.admitted.wrapping_add(1);
        sched.active = sched.active.wrapping_add(1);
        TurnGuard { settled: false }
    }

    /// The turn is told something; only the first time counts. Says whether it
    /// was the first.
    pub fn settle(&mut self, sched: &mut Sched, call: Call) -> (r: bool)
        ensures
            final(self).is_settled(),
            r == !old(self).is_settled(),
            *final(sched) == if old(self).is_settled() {
                *old(sched)
            } else {
                old(sched).settled(call)
            },
    {
        if self.settled {
            return false;
        }
        self.settled = true;
        match call {
            Call::Reject => {
                sched.rejected = sched.rejected.wrapping_add(1);
            },
            Call::Complete => {
                sched.completed = sched.completed.wrapping_add(1);
            },
        }
        true
    }

    /// The turn is dropped. One that was never told how it ended was cancelled.
    pub fn close(&mut self, sched: &mut Sched)
        ensures
            *final(sched) == old(sched).closed(old(self).is_settled()),
            final(self).is_settled() == old(self).is_settled(),
    {
        sched.active = sched.active.wrapping_sub(1);
        if !self.settled {
            sched.cancelled = sched.cancelled.wrapping_add(1);
        }
    }
}

/// The counts after a turn was told all of `calls`, and whether it was settled.
pub open spec fn told(s: Sched, calls: Seq<Call>) -> (Sched, bool)
    decreases calls.len(),
{
    if calls.len() == 0 {
        (s, false)
    } else {
        let (t, was) = told(s, calls.drop_last());
        if was {
            (t, true)
        } else {
            (t.settled(calls.last()), true)
        }
    }
}

/// The counts after the whole life of a turn.
pub open spec fn lived(s: Sched, calls: Seq<Call>) -> Sched {
    let (t, was) = told(s.opened(), calls);
    t.closed(was)
}

proof fn lemma_told(s: Sched, calls: Seq<Call>)
    ensures
        told(s, calls).1 == (calls.len() > 0),
        calls.len() > 0 ==> told(s, calls).0 == s.settled(calls[0]),
        calls.len() == 0 ==> told(s, calls).0 == s,
    decreases calls.len(),
{
    if calls.len() > 0 {
        lemma_told(s, calls.drop_last());
    }
}

/// However a turn ends, and however often it is told, it is counted once:
/// `active` is what it was before, one more was admitted, and one more was
/// completed, rejected or cancelled - what it was told first, or cancelled
/// where it was told nothing.
pub proof fn law_a_turn_is_counted_once(s: Sched, calls: Seq<Call>)
    ensures
        lived(s, calls).active == s.active,
        lived(s, calls).admitted == s.admitted.wrapping_add(1),
        lived(s, calls).queued == s.queued,
        lived(s, calls).timed_out == s.timed_out,
        lived(s, calls).completed == if calls.len() > 0 && calls[0] == Call::Complete {
            s.completed.wrapping_add(1)
        } else {
            s.completed
        },
        lived(s, calls).rejected == if calls.len() > 0 && calls[0] == Call::Reject {
            s.rejected.wrapping_add(1)
        } else {
            s.rejected
        },
        lived(s, calls).cancelled == if calls.len() == 0 {
            s.cancelled.wrapping_add(1)
        } else {
            s.cancelled
        },
{
    lemma_told(s.opened(), calls);
}

/// Waiting for a slot leaves nothing behind in the queue, and is counted as
/// timed out only where it was.
pub proof fn law_the_queue_empties(s: Sched, how: Waited)
    ensures
        s.waiting().waited(how).queued == s.queued,
        s.waiting().waited(how).timed_out == if how == Waited::TimedOut {
            s.timed_out.wrapping_add(1)
        } else {
            s.timed_out
        },
{
}

/// How many tokens a turn advances the expert grid by.
pub fn ticks(completion_tokens: u64) -> (r: u64)
    ensures
        r == if completion_tokens < MOST_TICKS {
            completion_tokens
        } else {
            MOST_TICKS
        },
{
    if completion_tokens < MOST_TICKS {
        completion_tokens
    } else {
        MOST_TICKS
    }
}

/// The last turns of a profile.
pub open spec fn newest<T>(s: Seq<T>, n: nat) -> Seq<T> {
    if s.len() > n {
        s.skip(s.len() - n)
    } else {
        s
    }
}

/// Adds a turn to the profile; the oldest go where more are there than are
/// kept.
pub fn push_turn<T>(turns: &mut Vec<T>, turn: T)
    ensures
        final(turns)@ == newest(old(turns)@.push(turn), PROFILE_KEEP as nat),
{
    turns.push(turn);
    let ghost all = turns@;
    assert(turns@ =~= all.skip(0));
    let ghost mut gone: int = 0;
    while turns.len() > PROFILE_KEEP
        invariant
            0 <= gone <= all.len(),
            turns@ == all.skip(gone),
            gone > 0 ==> turns@.len() >= PROFILE_KEEP,
        decreases turns@.len(),
    {
        let _ = turns.remove(0);
        assert(turns@ =~= all.skip(gone + 1));
        proof {
            gone = gone + 1;
        }
    }
    assert(turns@ =~= newest(all, PROFILE_KEEP as nat));
}

// ---------------------------------------------------------------- the compute process

/// The compute process and everything needed to start it again.
///
/// The weights are the machine's whole GPU: VRAM that nothing else can use
/// while they are resident. Unloading gives the process up, and loading starts
/// a fresh one on the same port, so the endpoint every other part of the
/// server holds stays valid across the cycle.
#[derive(Debug)]
pub struct Compute<R, P> {
    pub runner: Option<R>,
    pub model_path: P,
    pub flags: Flags,
    pub port: u16,
}

impl<R, P> Compute<R, P> {
    /// Whether there is a process.
    pub fn is_loaded(&self) -> (r: bool)
        ensures
            r == self.runner is Some,
    {
        self.runner.is_some()
    }

    /// Takes a process that has been started. It is handed back where there is
    /// one already.
    pub fn load(&mut self, runner: R) -> (r: Option<R>)
        ensures
            old(self).runner is Some ==> *final(self) == *old(self) && r == Some(runner),
            old(self).runner is None ==> final(self).runner == Some(runner) && r is None,
            final(self).model_path == old(self).model_path,
            final(self).flags == old(self).flags,
            final(self).port == old(self).port,
    {
        if self.runner.is_some() {
            return Some(runner);
        }
        self.runner = Some(runner);
        None
    }

    /// Gives the process up. Nothing where there was none.
    pub fn unload(&mut self) -> (r: Option<R>)
        ensures
            r == old(self).runner,
            final(self).runner is None,
            final(self).model_path == old(self).model_path,
            final(self).flags == old(self).flags,
            final(self).port == old(self).port,
    {
        self.runner.take()
    }
}

/// Why a request is not served.
#[derive(Debug)]
pub enum ApiError {
    /// The compute process is someone else's.
    NotOwned,
    /// Turns are still running.
    Draining,
    LoadFailed(String),
    /// The model is being loaded or unloaded.
    ModelBusy,
    ModelUnloaded,
    QueueTimeout,
    /// The compute process does not answer.
    Upstream(String),
    Unauthorized,
}

impl ApiError {
    pub open spec fn code(self) -> u16 {
        match self {
            ApiError::NotOwned => 409,
            ApiError::LoadFailed(_) => 500,
            ApiError::Upstream(_) => 502,
            ApiError::Unauthorized => 401,
            _ => 503,
        }
    }

    pub open spec fn name(self) -> Seq<char> {
        match self {
            ApiError::NotOwned => "not_owned"@,
            ApiError::Draining => "busy"@,
            ApiError::LoadFailed(_) => "load_failed"@,
            ApiError::ModelBusy => "model_busy"@,
            ApiError::ModelUnloaded => "model_unloaded"@,
            ApiError::QueueTimeout => "queue_timeout"@,
            ApiError::Upstream(_) => "upstream_unavailable"@,
            ApiError::Unauthorized => "unauthorized"@,
        }
    }

    pub open spec fn told(self) -> Seq<char> {
        match self {
            ApiError::NotOwned => "strata does not own the compute process (--upstream); it is not ours to load or unload"@,
            ApiError::Draining => "turns still running after 90s; nothing unloaded"@,
            ApiError::LoadFailed(e) => e@,
            ApiError::ModelBusy => "strata: the model is being loaded or unloaded. Try again shortly."@,
            ApiError::ModelUnloaded => "strata: the model is unloaded. POST /model/load, or press Load in the console."@,
            ApiError::QueueTimeout => "strata: all 4 scheduler slots busy for 120s"@,
            ApiError::Upstream(detail) => "strata: compute process not answering. "@ + detail@,
            ApiError::Unauthorized => "strata: this server requires an API key. Send it as `Authorization: Bearer <key>` or `x-api-key: <key>`."@,
        }
    }

    /// The HTTP status.
    pub fn status(&self) -> (r: u16)
        ensures
            r == self.code(),
    {
        match self {
            ApiError::NotOwned => 409,
            ApiError::LoadFailed(_) => 500,
            ApiError::Upstream(_) => 502,
            ApiError::Unauthorized => 401,
            _ => 503,
        }
    }

    /// The type of the error, for programs.
    pub fn kind(&self) -> (r: String)
        ensures
            r@ == self.name(),
    {
        match self {
            ApiError::NotOwned => "not_owned".to_owned(),
            ApiError::Draining => "busy".to_owned(),
            ApiError::LoadFailed(_) => "load_failed".to_owned(),
            ApiError::ModelBusy => "model_busy".to_owned(),
            ApiError::ModelUnloaded => "model_unloaded".to_owned(),
            ApiError::QueueTimeout => "queue_timeout".to_owned(),
            ApiError::Upstream(_) => "upstream_unavailable".to_owned(),
            ApiError::Unauthorized => "unauthorized".to_owned(),
        }
    }

    /// The error, for people.
    pub fn message(&self) -> (r: String)
        ensures
            r@ == self.told(),
    {
        match self {
            ApiError::NotOwned => "strata does not own the compute process (--upstream); it is not ours to load or unload".to_owned(),
            ApiError::Draining => "turns still running after 90s; nothing unloaded".to_owned(),
            ApiError::LoadFailed(e) => e.clone(),
            ApiError::ModelBusy => "strata: the model is being loaded or unloaded. Try again shortly.".to_owned(),
            ApiError::ModelUnloaded => "strata: the model is unloaded. POST /model/load, or press Load in the console.".to_owned(),
            ApiError::QueueTimeout => "strata: all 4 scheduler slots busy for 120s".to_owned(),
            ApiError::Upstream(detail) => {
                let mut r = "strata: compute process not answering. ".to_owned();
                r.append(detail.as_str());
                r
            },
            ApiError::Unauthorized => "strata: this server requires an API key. Send it as `Authorization: Bearer <key>` or `x-api-key: <key>`.".to_owned(),
        }
    }

    /// The body of the response.
    pub fn body(&self) -> (r: serde_json::Value)
        ensures
            json::json_tree(r) == error_tree(self.told(), self.name()),
    {
        let mut error = json::no_fields();
        json::set_field(&mut error, "message", json::text_value(self.message().as_str()));
        json::set_field(&mut error, "type", json::text_value(self.kind().as_str()));
        let mut fields = json::no_fields();
        json::set_field(&mut fields, "error", json::object_value(error));
        json::object_value(fields)
    }
}

/// An error as JSON.
pub open spec fn error_tree(message: Seq<char>, kind: Seq<char>) -> JsonTree {
    JsonTree::Object(
        json::without_fields().insert(
            "error"@,
            JsonTree::Object(
                json::without_fields().insert("message"@, JsonTree::Text(message)).insert(
                    "type"@,
                    JsonTree::Text(kind),
                ),
            ),
        ),
    )
}

/// What is known of the compute process without waiting for it.
#[derive(Debug, Clone, Copy, PartialEq, Eq, Structural)]
pub enum Held {
    /// It is someone else's.
    Foreign,
    /// It is being loaded or unloaded.
    Locked,
    Loaded,
    Unloaded,
}

/// Whether a turn may run. It is not held up by a load, which reads tens of
/// gigabytes of weights: it is told that one is in flight.
pub fn turn_gate(held: Held) -> (r: Option<ApiError>)
    ensures
        match held {
            Held::Foreign | Held::Loaded => r is None,
            Held::Locked => r == Some(ApiError::ModelBusy),
            Held::Unloaded => r == Some(ApiError::ModelUnloaded),
        },
{
    match held {
        Held::Foreign | Held::Loaded => None,
        Held::Locked => Some(ApiError::ModelBusy),
        Held::Unloaded => Some(ApiError::ModelUnloaded),
    }
}

/// Why a turn is not let in, where it is not: it waited too long for a slot, or
/// there is no model for it.
pub open spec fn turned_away(how: Waited, held: Held) -> Option<ApiError> {
    if how != Waited::Granted {
        Some(ApiError::QueueTimeout)
    } else {
        match held {
            Held::Foreign | Held::Loaded => None,
            Held::Locked => Some(ApiError::ModelBusy),
            Held::Unloaded => Some(ApiError::ModelUnloaded),
        }
    }
}

/// The counts after a turn stopped waiting for a slot and was let in or turned
/// away.
pub open spec fn counted(s: Sched, how: Waited, held: Held) -> Sched {
    if turned_away(how, held) is None {
        s.waited(how).opened()
    } else {
        s.waited(how)
    }
}

/// A turn has waited for a slot: it is let in, or is told why not. One that is
/// turned away is not counted as admitted.
pub fn open_turn(sched: &mut Sched, how: Waited, held: Held) -> (r: Result<TurnGuard, ApiError>)
    ensures
        *final(sched) == counted(*old(sched), how, held),
        match turned_away(how, held) {
            Some(e) => r == Err::<TurnGuard, ApiError>(e),
            None => r is Ok && !r->Ok_0.is_settled(),
        },
{
    if !sched.leave_queue(how) {
        return Err(ApiError::QueueTimeout);
    }
    match turn_gate(held) {
        Some(e) => Err(e),
        None => Ok(TurnGuard::new(sched)),
    }
}

/// A turn that is turned away leaves the counters of turns as they were, and
/// is no longer in the queue.
pub proof fn law_a_turn_that_is_turned_away_was_never_in(s: Sched, how: Waited, held: Held)
    requires
        turned_away(how, held) is Some,
    ensures
        ({
            let t = counted(s.waiting(), how, held);
            &&& t.queued == s.queued
            &&& t.active == s.active
            &&& t.admitted == s.admitted
            &&& t.completed == s.completed
            &&& t.rejected == s.rejected
            &&& t.cancelled == s.cancelled
        }),
{
}

/// What went wrong between the server and the compute process: the status it
/// answered with, or the error of not reaching it.
pub fn upstream_detail(upstream: &str, status: Option<&str>, error: &str) -> (r: String)
    ensures
        r@ == match status {
            Some(s) => "upstream "@ + s@ + " from "@ + upstream@,
            None => "cannot reach "@ + upstream@ + " ("@ + error@ + ")"@,
        },
{
    match status {
        Some(s) => {
            let mut r = "upstream ".to_owned();
            r.append(s);
            r.append(" from ");
            r.append(upstream);
            r
        },
        None => {
            let mut r = "cannot reach ".to_owned();
            r.append(upstream);
            r.append(" (");
            r.append(error);
            r.append(")");
            r
        },
    }
}

/// The compute process did not answer a turn: it is rejected, and its client
/// is told.
pub fn fail_turn(guard: &mut TurnGuard, sched: &mut Sched, detail: String) -> (r: ApiError)
    ensures
        final(guard).is_settled(),
        *final(sched) == if old(guard).is_settled() {
            *old(sched)
        } else {
            old(sched).settled(Call::Reject)
        },
        r == ApiError::Upstream(detail),
{
    let _ = guard.settle(sched, Call::Reject);
    ApiError::Upstream(detail)
}

/// Whether the model is said to be loaded: it is, unless it is known not to be.
pub fn reported_loaded(held: Held) -> (r: bool)
    ensures
        r == (held != Held::Unloaded),
{
    held != Held::Unloaded
}

// ---------------------------------------------------------------- starting

/// What the server is started with.
#[derive(Debug)]
pub struct ServeOptions {
    pub listen: String,
    pub model: String,
    pub ctx: usize,
    /// Override the derived CPU-expert split; tuning finds the best value.
    pub cpu_moe: Option<usize>,
    /// Talk to an already-running OpenAI-compatible server instead of starting
    /// one.
    pub upstream: Option<String>,
    /// Summarise the middle of a conversation once it outgrows `ctx`.
    pub compact: bool,
    /// KV cache element type, e.g. `q8_0`. `None` leaves it at f16.
    pub kv_type: Option<String>,
    /// Required on every API request when set. Binding anywhere but loopback
    /// without one is refused.
    pub api_key: Option<String>,
}

/// Where the server finds its compute process.
#[derive(Debug)]
pub enum Source {
    /// At this address.
    Existing(String),
    /// It starts it.
    Start,
    /// Nowhere: there is no model to start it with.
    Nowhere,
}

/// Where the server finds its compute process. `ready` says whether there is a
/// model file that a plan could be made for.
pub fn source_of(upstream: Option<String>, ready: bool) -> (r: Source)
    ensures
        match upstream {
            Some(url) => r == Source::Existing(url),
            None => if ready {
                r is Start
            } else {
                r is Nowhere
            },
        },
{
    match upstream {
        Some(url) => Source::Existing(url),
        None => if ready {
            Source::Start
        } else {
            Source::Nowhere
        },
    }
}

/// Where a split comes from.
#[derive(Debug, Clone, Copy, PartialEq, Eq, Structural)]
pub enum SplitSource {
    Derived,
    Measured,
    CommandLine,
}

/// The flags the compute process is started with: those derived from the plan,
/// overridden by a measurement, and its split by the command line. A split that
/// is given there replaces a measured pattern as well as a measured count.
pub open spec fn chosen(
    derived: runner::Setting,
    kv_type: Option<Seq<char>>,
    tuned: Option<&Tuned>,
    cpu_moe: Option<usize>,
) -> runner::Setting {
    runner::Setting {
        ctx: derived.ctx,
        threads: derived.threads,
        kv_type,
        cpu_moe_layers: match cpu_moe {
            Some(n) => n as nat,
            None => match tuned {
                Some(t) => t.cpu_moe_layers as nat,
                None => derived.cpu_moe_layers,
            },
        },
        flash_attention: match tuned {
            Some(t) => t.flash_attention,
            None => derived.flash_attention,
        },
        expert_override: match cpu_moe {
            Some(_) => None,
            None => match tuned {
                Some(t) => runner::text_of(t.expert_override),
                None => derived.expert_override,
            },
        },
    }
}

/// Chooses the flags the compute process is started with, and says where their
/// split comes from.
pub fn choose_flags(
    derived: Flags,
    kv_type: Option<String>,
    tuned: Option<&Tuned>,
    cpu_moe: Option<usize>,
) -> (r: (Flags, SplitSource))
    ensures
        r.0@ == chosen(derived@, runner::text_of(kv_type), tuned, cpu_moe),
        r.1 == if cpu_moe is Some {
            SplitSource::CommandLine
        } else if tuned is Some {
            SplitSource::Measured
        } else {
            SplitSource::Derived
        },
{
    let mut flags = derived;
    let mut source = SplitSource::Derived;
    flags.kv_type = kv_type;
    if let Some(t) = tuned {
        flags.cpu_moe_layers = t.cpu_moe_layers;
        flags.flash_attention = t.flash_attention;
        flags.expert_override = match &t.expert_override {
            Some(s) => Some(s.clone()),
            None => None,
        };
        source = SplitSource::Measured;
    }
    if let Some(n) = cpu_moe {
        flags.cpu_moe_layers = n;
        flags.expert_override = None;
        source = SplitSource::CommandLine;
    }
    (flags, source)
}

/// A split that is given on the command line is the one the compute process is
/// started with, whatever was derived or measured.
pub proof fn law_a_given_split_is_used(
    derived: runner::Setting,
    kv_type: Option<Seq<char>>,
    tuned: Option<&Tuned>,
    n: usize,
)
    ensures
        runner::expert_args(chosen(derived, kv_type, tuned, Some(n))) == if n > 0 {
            seq!["-ncmoe"@, text::decimal(n as nat)]
        } else {
            Seq::empty()
        },
{
}

/// What the console calls the GPU: its name, with the target where it is
/// known.
pub fn gpu_label(device: Option<&str>, gfx: Option<&str>) -> (r: String)
    ensures
        r@ == match device {
            Some(d) => match gfx {
                Some(g) => d@ + " ("@ + g@ + ")"@,
                None => d@,
            },
            None => "no GPU detected"@,
        },
{
    match device {
        Some(d) => match gfx {
            Some(g) => {
                let mut r = d.to_owned();
                r.append(" (");
                r.append(g);
                r.append(")");
                r
            },
            None => d.to_owned(),
        },
        None => "no GPU detected".to_owned(),
    }
}

// ---------------------------------------------------------------- turns

/// The id of a turn, from the time in nanoseconds.
pub fn request_id(nanos: u128) -> (r: String)
    ensures
        r@ == "chatcmpl-"@ + text::hexadecimal(nanos as nat),
{
    let mut r = "chatcmpl-".to_owned();
    text::append_hex(&mut r, nanos);
    r
}

/// The model a request names, or the one the server was started with.
pub fn model_for(requested: &str, own: &str) -> (r: String)
    ensures
        r@ == if requested@.len() == 0 {
            own@
        } else {
            requested@
        },
{
    if requested.is_empty() {
        own.to_owned()
    } else {
        requested.to_owned()
    }
}

/// The length of reply a request asks for, or the one that is assumed.
pub fn reply_budget(asked: Option<u32>) -> (r: u32)
    ensures
        r == match asked {
            Some(n) => n,
            None => DEFAULT_MAX_TOKENS,
        },
{
    match asked {
        Some(n) => n,
        None => DEFAULT_MAX_TOKENS,
    }
}

/// What is asked of the compute process: everything the client sent, with what
/// the server owns put in its place.
pub open spec fn chat_tree(
    extra: Map<Seq<char>, JsonTree>,
    model: Seq<char>,
    messages: Seq<Message>,
    stream: bool,
    temperature: JsonTree,
    max_tokens: nat,
    enable_thinking: bool,
) -> JsonTree {
    JsonTree::Object(
        extra.insert("model"@, JsonTree::Text(model)).insert(
            "messages"@,
            JsonTree::Array(message::message_trees(messages)),
        ).insert("stream"@, JsonTree::Bool(stream)).insert(
            "stream_options"@,
            JsonTree::Object(
                json::without_fields().insert("include_usage"@, JsonTree::Bool(true)),
            ),
        ).insert("temperature"@, temperature).insert(
            "max_tokens"@,
            JsonTree::Int(max_tokens as int),
        ).insert(
            "chat_template_kwargs"@,
            JsonTree::Object(
                json::without_fields().insert("enable_thinking"@, JsonTree::Bool(enable_thinking)),
            ),
        ),
    )
}

/// The fields of a request the server owns.
pub open spec fn owned_field(k: Seq<char>) -> bool {
    ||| k == "model"@
    ||| k == "messages"@
    ||| k == "stream"@
    ||| k == "stream_options"@
    ||| k == "temperature"@
    ||| k == "max_tokens"@
    ||| k == "chat_template_kwargs"@
}

/// What is asked of the compute process. Starts from what the client sent, so
/// that fields the server does not model - tools, stop sequences, sampling
/// knobs - survive the hop. The reasoning toggle goes through the chat
/// template, not as a field of its own.
pub fn chat_body(
    extra: &serde_json::Map<String, serde_json::Value>,
    model: &str,
    messages: &[Msg],
    stream: bool,
    temperature: serde_json::Value,
    max_tokens: u32,
    enable_thinking: bool,
) -> (r: serde_json::Value)
    ensures
        json::json_tree(r) == chat_tree(
            json::json_fields(*extra),
            model@,
            message::said(messages@),
            stream,
            json::json_tree(temperature),
            max_tokens as nat,
            enable_thinking,
        ),
{
    let mut options = json::no_fields();
    json::set_field(&mut options, "include_usage", json::bool_value(true));
    let mut template = json::no_fields();
    json::set_field(&mut template, "enable_thinking", json::bool_value(enable_thinking));
    let mut fields = json::copy_fields(extra);
    json::set_field(&mut fields, "model", json::text_value(model));
    json::set_field(&mut fields, "messages", message::to_json(messages));
    json::set_field(&mut fields, "stream", json::bool_value(stream));
    json::set_field(&mut fields, "stream_options", json::object_value(options));
    json::set_field(&mut fields, "temperature", temperature);
    json::set_field(&mut fields, "max_tokens", json::whole_value(max_tokens as u64));
    json::set_field(&mut fields, "chat_template_kwargs", json::object_value(template));
    json::object_value(fields)
}

/// Whatever else a client sent is passed on untouched.
pub proof fn law_what_a_client_sends_survives(
    extra: Map<Seq<char>, JsonTree>,
    model: Seq<char>,
    messages: Seq<Message>,
    stream: bool,
    temperature: JsonTree,
    max_tokens: nat,
    enable_thinking: bool,
    k: Seq<char>,
)
    requires
        !owned_field(k),
    ensures
        chat_tree(
            extra,
            model,
            messages,
            stream,
            temperature,
            max_tokens,
            enable_thinking,
        ).child(k) == if extra.dom().contains(k) {
            Some(extra[k])
        } else {
            None
        },
{
}

/// What compaction did to one request, in the shape the response headers want.
#[derive(Debug, Clone, Copy, PartialEq, Eq, Structural)]
pub struct Report {
    /// Prompt size actually sent upstream.
    pub tokens: usize,
    pub happened: bool,
    /// Tokens removed, when it happened.
    pub reclaimed: Option<usize>,
}

impl Report {
    /// Nothing was done.
    pub fn fits(tokens: usize) -> (r: Report)
        ensures
            r == (Report { tokens, happened: false, reclaimed: None }),
    {
        Report { tokens, happened: false, reclaimed: None }
    }

    /// The conversation was compacted.
    pub fn compacted(event: &Event) -> (r: Report)
        ensures
            r == (Report {
                tokens: event.after_tokens,
                happened: true,
                reclaimed: Some(
                    if event.before_tokens > event.after_tokens {
                        (event.before_tokens - event.after_tokens) as usize
                    } else {
                        0
                    },
                ),
            }),
    {
        let gone: usize = if event.before_tokens > event.after_tokens {
            event.before_tokens - event.after_tokens
        } else {
            0
        };
        Report { tokens: event.after_tokens, happened: true, reclaimed: Some(gone) }
    }
}

/// A header of a response.
#[derive(Debug)]
pub struct Header {
    pub name: String,
    pub value: String,
}

pub open spec fn headers_text(s: Seq<Header>) -> Seq<(Seq<char>, Seq<char>)> {
    Seq::new(s.len(), |i: int| (s[i].name@, s[i].value@))
}

fn add_header(headers: &mut Vec<Header>, name: &str, value: String)
    ensures
        headers_text(final(headers)@) == headers_text(old(headers)@).push((name@, value@)),
{
    let h = Header { name: name.to_owned(), value };
    assert(headers_text(headers@.push(h)) =~= headers_text(headers@).push((name@, value@)));
    headers.push(h);
}

/// The headers of an answer: the id of the turn, how long it waited, how large
/// its prompt was and might have been, and what compaction did.
pub fn response_headers(id: &str, queue_wait_ms: u64, report: &Report, budget: usize) -> (r: Vec<
    Header,
>)
    ensures
        headers_text(r@) == seq![
            ("x-request-id"@, id@),
            ("x-strata-queue-wait-ms"@, text::decimal(queue_wait_ms as nat)),
            ("x-strata-context-tokens"@, text::decimal(report.tokens as nat)),
            ("x-strata-context-budget"@, text::decimal(budget as nat)),
            (
                "x-strata-compacted"@,
                if report.happened {
                    "1"@
                } else {
                    "0"@
                },
            ),
        ] + match report.reclaimed {
            Some(n) => seq![("x-strata-compacted-tokens"@, text::decimal(n as nat))],
            None => Seq::empty(),
        },
{
    let mut headers: Vec<Header> = Vec::new();
    assert(headers_text(headers@) =~= Seq::<(Seq<char>, Seq<char>)>::empty());
    add_header(&mut headers, "x-request-id", id.to_owned());
    add_header(&mut headers, "x-strata-queue-wait-ms", text::number(queue_wait_ms));
    add_header(&mut headers, "x-strata-context-tokens", text::number(report.tokens as u64));
    add_header(&mut headers, "x-strata-context-budget", text::number(budget as u64));
    add_header(
        &mut headers,
        "x-strata-compacted",
        if report.happened {
            "1".to_owned()
        } else {
            "0".to_owned()
        },
    );
    if let Some(n) = report.reclaimed {
        add_header(&mut headers, "x-strata-compacted-tokens", text::number(n as u64));
    }
    headers
}

/// The counts of tokens an answer reports.
pub fn usage_of(body: &serde_json::Value) -> (r: (u64, u64))
    ensures
        r.0 == json::whole_or_zero(json::json_tree(*body).at("/usage/prompt_tokens"@)),
        r.1 == json::whole_or_zero(json::json_tree(*body).at("/usage/completion_tokens"@)),
{
    proof {
        reveal_strlit("/usage/prompt_tokens");
        reveal_strlit("/usage/completion_tokens");
    }
    (
        json::number_at(body, "/usage/prompt_tokens"),
        json::number_at(body, "/usage/completion_tokens"),
    )
}

// ---------------------------------------------------------------- models

/// The ids a list of models names, in order.
pub open spec fn ids_in(s: Seq<JsonTree>) -> Seq<Seq<char>>
    decreases s.len(),
{
    if s.len() == 0 {
        Seq::empty()
    } else {
        let before = ids_in(s.drop_last());
        match s.last().child("id"@) {
            Some(t) => match t.text() {
                Some(id) => before.push(id),
                None => before,
            },
            None => before,
        }
    }
}

/// The ids the compute process reports.
pub open spec fn reported_ids(body: Option<JsonTree>) -> Seq<Seq<char>> {
    match body {
        Some(b) => match b.child("data"@) {
            Some(t) => match t.items() {
                Some(s) => ids_in(s),
                None => Seq::empty(),
            },
            None => Seq::empty(),
        },
        None => Seq::empty(),
    }
}

/// A list without the items that equal the one before them.
pub open spec fn without_runs(s: Seq<Seq<char>>) -> Seq<Seq<char>>
    decreases s.len(),
{
    if s.len() == 0 {
        s
    } else {
        let before = without_runs(s.drop_last());
        if before.len() > 0 && before.last() == s.last() {
            before
        } else {
            before.push(s.last())
        }
    }
}

fn push_unless_last(ids: &mut Vec<String>, id: &str)
    ensures
        text::texts(final(ids)@) == if old(ids)@.len() > 0 && text::texts(old(ids)@).last() == id@ {
            text::texts(old(ids)@)
        } else {
            text::texts(old(ids)@).push(id@)
        },
{
    let n: usize = ids.len();
    if n > 0 && text::same(ids[n - 1].as_str(), id) {
        return;
    }
    let s = id.to_owned();
    proof {
        text::lemma_texts_push(ids@, s);
    }
    ids.push(s);
}

/// The models to list: the one this server was started with, and whatever the
/// compute process reports, without repeating one in a row.
pub fn model_ids(own: &str, body: Option<&serde_json::Value>) -> (r: Vec<String>)
    ensures
        text::texts(r@) == without_runs(
            seq![own@] + reported_ids(
                match body {
                    Some(v) => Some(json::json_tree(*v)),
                    None => None,
                },
            ),
        ),
{
    let mut ids: Vec<String> = Vec::new();
    ids.push(own.to_owned());
    let ghost head = seq![own@];
    assert(head.drop_last() =~= Seq::<Seq<char>>::empty());
    proof {
        reveal_with_fuel(without_runs, 2);
    }
    assert(without_runs(head) =~= head);
    assert(text::texts(ids@) =~= head);
    assert(head + Seq::<Seq<char>>::empty() =~= head);
    if let Some(v) = body {
        if let Some(t) = json::get(v, "data") {
            if let Some(list) = json::as_array(t) {
                let ghost all = json::json_trees(list@);
                let mut i: usize = 0;
                assert(all.take(0) =~= Seq::<JsonTree>::empty());
                while i < list.len()
                    invariant
                        i <= list@.len(),
                        all == json::json_trees(list@),
                        text::texts(ids@) == without_runs(head + ids_in(all.take(i as int))),
                    decreases list@.len() - i,
                {
                    assert(all.take(i + 1).drop_last() =~= all.take(i as int));
                    let ghost before = head + ids_in(all.take(i as int));
                    if let Some(t) = json::get(&list[i], "id") {
                        if let Some(id) = json::as_str(t) {
                            push_unless_last(&mut ids, id);
                            proof {
                                let after = head + ids_in(all.take(i + 1));
                                assert(after.drop_last() =~= before);
                                assert(after.last() == id@);
                            }
                        }
                    }
                    i = i + 1;
                }
                assert(all.take(i as int) =~= all);
            }
        }
    }
    ids
}

/// The models as JSON.
pub open spec fn model_list_tree(ids: Seq<Seq<char>>) -> JsonTree {
    JsonTree::Object(
        json::without_fields().insert("object"@, JsonTree::Text("list"@)).insert(
            "data"@,
            JsonTree::Array(Seq::new(ids.len(), |i: int| model_tree(ids[i]))),
        ),
    )
}

pub open spec fn model_tree(id: Seq<char>) -> JsonTree {
    JsonTree::Object(
        json::without_fields().insert("id"@, JsonTree::Text(id)).insert(
            "object"@,
            JsonTree::Text("model"@),
        ).insert("owned_by"@, JsonTree::Text("strata"@)),
    )
}

/// The models as JSON, in the shape clients expect.
pub fn model_list(ids: &Vec<String>) -> (r: serde_json::Value)
    ensures
        json::json_tree(r) == model_list_tree(text::texts(ids@)),
{
    let mut data: Vec<serde_json::Value> = Vec::new();
    let mut i: usize = 0;
    while i < ids.len()
        invariant
            i <= ids@.len(),
            data@.len() == i,
            forall|j: int|
                0 <= j < i ==> json::json_tree(#[trigger] data@[j]) == model_tree(ids@[j]@),
        decreases ids@.len() - i,
    {
        let mut m = json::no_fields();
        json::set_field(&mut m, "id", json::text_value(ids[i].as_str()));
        json::set_field(&mut m, "object", json::text_value("model"));
        json::set_field(&mut m, "owned_by", json::text_value("strata"));
        data.push(json::object_value(m));
        i = i + 1;
    }
    assert(json::json_trees(data@) =~= Seq::new(
        text::texts(ids@).len(),
        |i: int| model_tree(text::texts(ids@)[i]),
    ));
    let mut m = json::no_fields();
    json::set_field(&mut m, "object", json::text_value("list"));
    json::set_field(&mut m, "data", json::array_value(data));
    json::object_value(m)
}

// ---------------------------------------------------------------- reports

/// What a load or an unload is answered with.
pub open spec fn change_tree(loaded: bool, changed: bool) -> Map<Seq<char>, JsonTree> {
    json::without_fields().insert("loaded"@, JsonTree::Bool(loaded)).insert(
        "changed"@,
        JsonTree::Bool(changed),
    )
}

/// What a load or an unload is answered with: whether there is a model now,
/// whether that is new, and how long it took to load it, where it was.
pub fn change_body(loaded: bool, changed: bool, load_seconds: Option<serde_json::Value>) -> (r:
    serde_json::Value)
    ensures
        json::json_tree(r) == JsonTree::Object(
            match load_seconds {
                Some(t) => change_tree(loaded, changed).insert(
                    "load_seconds"@,
                    json::json_tree(t),
                ),
                None => change_tree(loaded, changed),
            },
        ),
{
    let mut m = json::no_fields();
    json::set_field(&mut m, "loaded", json::bool_value(loaded));
    json::set_field(&mut m, "changed", json::bool_value(changed));
    if let Some(t) = load_seconds {
        json::set_field(&mut m, "load_seconds", t);
    }
    json::object_value(m)
}

impl Sched {
    /// The counters as JSON, with the limits they stand against.
    pub open spec fn tree(self) -> JsonTree {
        JsonTree::Object(
            json::without_fields().insert("active"@, JsonTree::Int(self.active as int)).insert(
                "capacity"@,
                JsonTree::Int(KV_SLOTS as int),
            ).insert("queued"@, JsonTree::Int(self.queued as int)).insert(
                "max_queue"@,
                JsonTree::Int(MAX_QUEUE as int),
            ).insert("queue_timeout_seconds"@, JsonTree::Int(QUEUE_TIMEOUT_S as int)).insert(
                "admitted"@,
                JsonTree::Int(self.admitted as int),
            ).insert("completed"@, JsonTree::Int(self.completed as int)).insert(
                "rejected"@,
                JsonTree::Int(self.rejected as int),
            ).insert("timed_out"@, JsonTree::Int(self.timed_out as int)).insert(
                "cancelled"@,
                JsonTree::Int(self.cancelled as int),
            ),
        )
    }

    /// The counters as JSON.
    pub fn to_json(&self) -> (r: serde_json::Value)
        ensures
            json::json_tree(r) == self.tree(),
    {
        let mut m = json::no_fields();
        json::set_field(&mut m, "active", json::whole_value(self.active));
        json::set_field(&mut m, "capacity", json::whole_value(KV_SLOTS as u64));
        json::set_field(&mut m, "queued", json::whole_value(self.queued));
        json::set_field(&mut m, "max_queue", json::whole_value(MAX_QUEUE as u64));
        json::set_field(&mut m, "queue_timeout_seconds", json::whole_value(QUEUE_TIMEOUT_S));
        json::set_field(&mut m, "admitted", json::whole_value(self.admitted));
        json::set_field(&mut m, "completed", json::whole_value(self.completed));
        json::set_field(&mut m, "rejected", json::whole_value(self.rejected));
        json::set_field(&mut m, "timed_out", json::whole_value(self.timed_out));
        json::set_field(&mut m, "cancelled", json::whole_value(self.cancelled));
        json::object_value(m)
    }
}

/// What the health of the server is made of. Sizes in gigabytes are the JSON
/// numbers that stand for them.
#[derive(Debug)]
pub struct Health {
    pub sched: Sched,
    pub held: Held,
    pub model: String,
    pub compaction: serde_json::Value,
    /// Experts in VRAM, in RAM and on disk.
    pub tiers: (usize, usize, usize),
    pub vram_gb: serde_json::Value,
    pub ram_gb: serde_json::Value,
    pub cores: usize,
    pub ram_total_gb: serde_json::Value,
    pub ram_avail_gb: serde_json::Value,
    pub gpus: usize,
    pub vram_total_gb: serde_json::Value,
    pub cpu: String,
    pub gpu: String,
}

impl Health {
    /// The model as JSON. `owned` is false where the process is someone
    /// else's and the console should not offer to stop it.
    pub open spec fn model_part(self) -> JsonTree {
        JsonTree::Object(
            json::without_fields().insert("owned"@, JsonTree::Bool(self.held != Held::Foreign)).insert(
                "loaded"@,
                JsonTree::Bool(self.held != Held::Unloaded),
            ).insert("name"@, JsonTree::Text(self.model@)),
        )
    }

    pub open spec fn tier_part(self) -> JsonTree {
        JsonTree::Object(
            json::without_fields().insert("vram"@, JsonTree::Int(self.tiers.0 as int)).insert(
                "ram"@,
                JsonTree::Int(self.tiers.1 as int),
            ).insert("disk"@, JsonTree::Int(self.tiers.2 as int)).insert(
                "vram_gb"@,
                json::json_tree(self.vram_gb),
            ).insert("ram_gb"@, json::json_tree(self.ram_gb)),
        )
    }

    pub open spec fn machine_part(self) -> JsonTree {
        JsonTree::Object(
            json::without_fields().insert("cores"@, JsonTree::Int(self.cores as int)).insert(
                "ram_total_gb"@,
                json::json_tree(self.ram_total_gb),
            ).insert("ram_avail_gb"@, json::json_tree(self.ram_avail_gb)).insert(
                "gpus"@,
                JsonTree::Int(self.gpus as int),
            ).insert("vram_total_gb"@, json::json_tree(self.vram_total_gb)).insert(
                "cpu"@,
                JsonTree::Text(self.cpu@),
            ).insert("gpu"@, JsonTree::Text(self.gpu@)),
        )
    }

    pub open spec fn tree(self) -> JsonTree {
        JsonTree::Object(
            json::without_fields().insert("status"@, JsonTree::Text("ok"@)).insert(
                "simulated"@,
                JsonTree::Bool(true),
            ).insert("scheduler"@, self.sched.tree()).insert(
                "kv_slots"@,
                JsonTree::Int(KV_SLOTS as int),
            ).insert("model"@, self.model_part()).insert(
                "compaction"@,
                json::json_tree(self.compaction),
            ).insert("tiers"@, self.tier_part()).insert("hwinfo"@, self.machine_part()),
        )
    }

    /// The health of the server as JSON.
    pub fn to_json(self) -> (r: serde_json::Value)
        ensures
            json::json_tree(r) == self.tree(),
    {
        let mut model = json::no_fields();
        json::set_field(&mut model, "owned", json::bool_value(self.held != Held::Foreign));
        json::set_field(&mut model, "loaded", json::bool_value(reported_loaded(self.held)));
        json::set_field(&mut model, "name", json::text_value(self.model.as_str()));

        let mut tiers = json::no_fields();
        json::set_field(&mut tiers, "vram", json::whole_value(self.tiers.0 as u64));
        json::set_field(&mut tiers, "ram", json::whole_value(self.tiers.1 as u64));
        json::set_field(&mut tiers, "disk", json::whole_value(self.tiers.2 as u64));
        json::set_field(&mut tiers, "vram_gb", self.vram_gb);
        json::set_field(&mut tiers, "ram_gb", self.ram_gb);

        let mut machine = json::no_fields();
        json::set_field(&mut machine, "cores", json::whole_value(self.cores as u64));
        json::set_field(&mut machine, "ram_total_gb", self.ram_total_gb);
        json::set_field(&mut machine, "ram_avail_gb", self.ram_avail_gb);
        json::set_field(&mut machine, "gpus", json::whole_value(self.gpus as u64));
        json::set_field(&mut machine, "vram_total_gb", self.vram_total_gb);
        json::set_field(&mut machine, "cpu", json::text_value(self.cpu.as_str()));
        json::set_field(&mut machine, "gpu", json::text_value(self.gpu.as_str()));

        let mut m = json::no_fields();
        json::set_field(&mut m, "status", json::text_value("ok"));
        json::set_field(&mut m, "simulated", json::bool_value(true));
        json::set_field(&mut m, "scheduler", self.sched.to_json());
        json::set_field(&mut m, "kv_slots", json::whole_value(KV_SLOTS as u64));
        json::set_field(&mut m, "model", json::object_value(model));
        json::set_field(&mut m, "compaction", self.compaction);
        json::set_field(&mut m, "tiers", json::object_value(tiers));
        json::set_field(&mut m, "hwinfo", json::object_value(machine));
        json::object_value(m)
    }
}

/// The expert grid as JSON. It says that it is simulated, so that nothing
/// mistakes it for measurement.
pub fn experts_body(experts: &Experts, heat: &[u8]) -> (r: serde_json::Value)
    requires
        experts.wf(),
        heat@.len() == experts.tiers().len(),
        forall|i: int| 0 <= i < heat@.len() ==> heat@[i] <= 63,
    ensures
        json::json_tree(r) == JsonTree::Object(
            json::without_fields().insert(
                "rows"@,
                JsonTree::Int(experts.row_count() as int),
            ).insert("cols"@, JsonTree::Int(experts.col_count() as int)).insert(
                "map"@,
                JsonTree::Text(experts.picture(heat@)),
            ).insert("hits"@, JsonTree::Text(grid::hex_of(experts.marks()))).insert(
                "seq"@,
                JsonTree::Int(experts.tokens() as int),
            ).insert("simulated"@, JsonTree::Bool(true)),
        ),
{
    let mut m = json::no_fields();
    json::set_field(&mut m, "rows", json::whole_value(experts.rows() as u64));
    json::set_field(&mut m, "cols", json::whole_value(experts.cols() as u64));
    json::set_field(&mut m, "map", json::text_value(experts.map_hex(heat).as_str()));
    json::set_field(&mut m, "hits", json::text_value(experts.hits_hex().as_str()));
    json::set_field(&mut m, "seq", json::whole_value(experts.seq()));
    json::set_field(&mut m, "simulated", json::bool_value(true));
    json::object_value(m)
}

// ---------------------------------------------------------------- the host

/// The text between the first two occurrences of a mark, or from the first to
/// the end.
pub open spec fn between(s: Seq<char>, mark: Seq<char>) -> Option<Seq<char>> {
    match text::find(s, mark) {
        Some(k) => {
            let rest = s.skip(k + mark.len());
            match text::find(rest, mark) {
                Some(n) => Some(rest.take(n)),
                None => Some(rest),
            }
        },
        None => None,
    }
}

/// The first of the lines that holds a text.
pub open spec fn first_with(lines: Seq<Seq<char>>, what: Seq<char>) -> Option<Seq<char>>
    decreases lines.len(),
{
    if lines.len() == 0 {
        None
    } else if text::has(lines[0], what) {
        Some(lines[0])
    } else {
        first_with(lines.drop_first(), what)
    }
}

/// The name of the processor in an answer of the registry.
pub open spec fn processor_in(answer: Seq<char>) -> Option<Seq<char>> {
    match first_with(text::lines(answer), "ProcessorNameString"@) {
        Some(l) => match between(l, "REG_SZ"@) {
            Some(n) => if text::trim(n).len() == 0 {
                None
            } else {
                Some(text::trim(n))
            },
            None => None,
        },
        None => None,
    }
}

/// Reads the name of the processor from an answer of the registry.
pub fn cpu_name(answer: &str) -> (r: Option<String>)
    ensures
        r is Some == processor_in(answer@) is Some,
        r matches Some(s) ==> processor_in(answer@) == Some(s@),
{
    let v = text::chars_of(answer);
    let lines = text::lines_of(v.as_slice());
    let what = text::chars_of("ProcessorNameString");
    let mark = text::chars_of("REG_SZ");
    let ghost all = text::rows(lines@);
    let mut i: usize = 0;
    assert(all.skip(0) =~= all);
    while i < lines.len()
        invariant
            i <= lines@.len(),
            all == text::rows(lines@),
            all == text::lines(answer@),
            what@ == "ProcessorNameString"@,
            mark@ == "REG_SZ"@,
            first_with(all, what@) == first_with(all.skip(i as int), what@),
        decreases lines@.len() - i,
    {
        proof {
            text::law_find_is_first(lines@[i as int]@, what@);
        }
        if text::find_chars(lines[i].as_slice(), what.as_slice()).is_some() {
            let name = match behind(lines[i].as_slice(), mark.as_slice()) {
                Some(n) => text::trim_chars(n.as_slice()),
                None => {
                    return None;
                },
            };
            if name.len() == 0 {
                return None;
            }
            return Some(text::string_of(&name));
        }
        assert(all.skip(i as int).drop_first() =~= all.skip(i + 1));
        i = i + 1;
    }
    None
}

fn behind(s: &[char], mark: &[char]) -> (r: Option<Vec<char>>)
    ensures
        r is Some == between(s@, mark@) is Some,
        r matches Some(v) ==> between(s@, mark@) == Some(v@),
{
    match text::find_chars(s, mark) {
        Some(k) => {
            let end: usize = s.len();
            let from: usize = end - (end - k - mark.len());
            let rest = text::cut(s, from, end);
            assert(rest@ =~= s@.skip(k + mark@.len()));
            match text::find_chars(rest.as_slice(), mark) {
                Some(n) => {
                    let head = text::cut(rest.as_slice(), 0, n);
                    assert(head@ =~= rest@.take(n as int));
                    Some(head)
                },
                None => Some(rest),
            }
        },
        None => None,
    }
}

// ---------------------------------------------------------------- what is promised

/// Each field the server owns is what the request asks for, whatever the client
/// sent under its name: the model, the messages as they stand, whether to stream,
/// the temperature, the length of the reply, and whether to think.
pub proof fn law_the_body_asks_for_what_the_request_does(
    extra: Map<Seq<char>, JsonTree>,
    model: Seq<char>,
    messages: Seq<Message>,
    stream: bool,
    temperature: JsonTree,
    max_tokens: nat,
    enable_thinking: bool,
)
    ensures
        ({
            let body = chat_tree(
                extra,
                model,
                messages,
                stream,
                temperature,
                max_tokens,
                enable_thinking,
            );
            &&& body.child("model"@) == Some(JsonTree::Text(model))
            &&& body.child("stream"@) == Some(JsonTree::Bool(stream))
            &&& body.child("temperature"@) == Some(temperature)
            &&& body.child("max_tokens"@) == Some(JsonTree::Int(max_tokens as int))
            &&& body.child("stream_options"@) is Some
            &&& body.child("stream_options"@)->0.child("include_usage"@) == Some(
                JsonTree::Bool(true),
            )
            &&& body.child("chat_template_kwargs"@) is Some
            &&& body.child("chat_template_kwargs"@)->0.child("enable_thinking"@) == Some(
                JsonTree::Bool(enable_thinking),
            )
            &&& body.child("messages"@) matches Some(JsonTree::Array(sent)) && sent.len()
                == messages.len() && forall|i: int|
                0 <= i < messages.len() ==> #[trigger] sent[i] == messages[i].tree()
        }),
{
    reveal_strlit("model");
    reveal_strlit("messages");
    reveal_strlit("stream");
    reveal_strlit("stream_options");
    reveal_strlit("temperature");
    reveal_strlit("max_tokens");
    reveal_strlit("chat_template_kwargs");
    assert("model"@.len() == 5 && "messages"@.len() == 8 && "stream"@.len() == 6 && "stream_options"@.len() == 14 && "temperature"@.len() == 11 && "max_tokens"@.len() == 10 && "chat_template_kwargs"@.len() == 20);
}

/// The body holds the fields the server owns and those the client sent, and no
/// others.
pub proof fn law_nothing_is_added_to_a_request(
    extra: Map<Seq<char>, JsonTree>,
    model: Seq<char>,
    messages: Seq<Message>,
    stream: bool,
    temperature: JsonTree,
    max_tokens: nat,
    enable_thinking: bool,
    k: Seq<char>,
)
    requires
        k != "model"@,
        k != "messages"@,
        k != "stream"@,
        k != "stream_options"@,
        k != "temperature"@,
        k != "max_tokens"@,
        k != "chat_template_kwargs"@,
    ensures
        chat_tree(
            extra,
            model,
            messages,
            stream,
            temperature,
            max_tokens,
            enable_thinking,
        ).child(k) == if extra.dom().contains(k) {
            Some(extra[k])
        } else {
            None
        },
{
}

/// The address of four bytes, the first of which is 127, is local; so are the
/// names of this machine.
pub proof fn law_the_loopback_network_is_local(a: u8, b: u8, c: u8)
    ensures
        is_local(
            text::joined(
                seq![
                    "127"@,
                    text::decimal(a as nat),
                    text::decimal(b as nat),
                    text::decimal(c as nat),
                ],
                seq!['.'],
            ),
        ),
        is_local("localhost"@),
        is_local("::1"@),
{
    let parts = seq![
        "127"@,
        text::decimal(a as nat),
        text::decimal(b as nat),
        text::decimal(c as nat),
    ];
    reveal_strlit("127");
    text::law_decimal_is_digits(a as nat);
    text::law_decimal_is_digits(b as nat);
    text::law_decimal_is_digits(c as nat);
    text::law_decimal_reads_back(a as u64);
    text::law_decimal_reads_back(b as u64);
    text::law_decimal_reads_back(c as u64);
    lemma_no_dot(text::decimal(a as nat));
    lemma_no_dot(text::decimal(b as nat));
    lemma_no_dot(text::decimal(c as nat));
    assert(!"127"@.contains('.'));
    assert forall|i: int| 0 <= i < parts.len() implies !(#[trigger] parts[i]).contains('.') by {
        assert(i == 0 || i == 1 || i == 2 || i == 3);
    }
    text::law_split_undoes_join(parts, '.');
}

proof fn lemma_no_dot(s: Seq<char>)
    requires
        forall|i: int| 0 <= i < s.len() ==> text::is_digit(#[trigger] s[i]),
    ensures
        !s.contains('.'),
{
    if s.contains('.') {
        let i = choose|i: int| 0 <= i < s.len() && s[i] == '.';
        assert(text::is_digit(s[i]));
    }
}

/// Nothing but a name of this machine, or an address that opens with 127 and is
/// made of digits and dots, is local.
pub proof fn law_only_this_machine_is_local(host: Seq<char>)
    requires
        is_local(host),
        host != "localhost"@,
        host != "::1"@,
    ensures
        text::starts(host, "127."@),
        forall|i: int| 0 <= i < host.len() ==> text::is_digit(#[trigger] host[i]) || host[i] == '.',
        text::split(host, '.').len() <= 4,
{
    let parts = text::split(host, '.');
    text::law_split_parts_join_up(host, '.');
    reveal_strlit("127");
    reveal_strlit("127.");
    assert forall|i: int| 0 <= i < parts.len() implies all_digits(#[trigger] parts[i]) by {
        if i == 0 {
            assert(all_digits("127"@));
        } else if i < parts.len() - 1 {
            assert(is_at_most(parts[i], 0xff));
            lemma_natural_is_digits(parts[i]);
        } else {
            lemma_natural_is_digits(parts[i]);
        }
    }
    lemma_joined_digits(parts);
    lemma_joined_opens(parts, '.');
    assert("127"@ + seq!['.'] =~= "127."@);
    text::law_a_text_has_its_parts(
        "127."@,
        host.skip(4),
        Seq::empty(),
    );
    assert(host.take(4) =~= "127."@);
    assert("127."@ + host.skip(4) =~= host);
}

spec fn all_digits(s: Seq<char>) -> bool {
    forall|i: int| 0 <= i < s.len() ==> text::is_digit(#[trigger] s[i])
}

proof fn lemma_natural_is_digits(s: Seq<char>)
    requires
        text::natural(s) is Some,
    ensures
        all_digits(s),
        s.len() > 0,
{
    assert(text::unsigned_part(s) == s);
}

proof fn lemma_joined_digits(parts: Seq<Seq<char>>)
    requires
        forall|i: int| 0 <= i < parts.len() ==> all_digits(#[trigger] parts[i]),
    ensures
        forall|i: int|
            0 <= i < text::joined(parts, seq!['.']).len() ==> text::is_digit(
                #[trigger] text::joined(parts, seq!['.'])[i],
            ) || text::joined(parts, seq!['.'])[i] == '.',
    decreases parts.len(),
{
    if parts.len() > 0 {
        assert(all_digits(parts[parts.len() - 1]));
        assert(all_digits(parts[0]));
        let front = parts.drop_last();
        assert forall|i: int| 0 <= i < front.len() implies all_digits(#[trigger] front[i]) by {
            assert(front[i] == parts[i]);
        }
        lemma_joined_digits(front);
        if parts.len() > 1 {
            let s = text::joined(parts, seq!['.']);
            let f = text::joined(front, seq!['.']);
            let last = parts.last();
            assert(s == f + seq!['.'] + last);
            assert forall|i: int| 0 <= i < s.len() implies text::is_digit(#[trigger] s[i]) || s[i]
                == '.' by {
                if i < f.len() {
                    assert(s[i] == f[i]);
                } else if i > f.len() {
                    assert(s[i] == last[i - f.len() - 1]);
                }
            }
        }
    }
}

proof fn lemma_joined_opens(parts: Seq<Seq<char>>, c: char)
    requires
        parts.len() >= 2,
    ensures
        ({
            let s = text::joined(parts, seq![c]);
            let n = parts[0].len();
            &&& s.len() >= n + 1
            &&& s.take(n as int + 1) == parts[0] + seq![c]
        }),
    decreases parts.len(),
{
    let s = text::joined(parts, seq![c]);
    let front = parts.drop_last();
    let f = text::joined(front, seq![c]);
    let n = parts[0].len() as int;
    assert(s == f + seq![c] + parts.last());
    if parts.len() == 2 {
        assert(f == parts[0]);
        assert(s.take(n + 1) =~= parts[0] + seq![c]);
    } else {
        lemma_joined_opens(front, c);
        assert(s.take(n + 1) =~= f.take(n + 1));
    }
}

/// The host is what stands before the port, in brackets or not.
pub proof fn law_the_host_stands_before_the_port(host: Seq<char>, port: Seq<char>)
    requires
        !port.contains(':'),
        host.len() > 0,
        host[0] != '[',
        host.last() != ']',
    ensures
        host_of(host + seq![':'] + port) == host,
        host_of(seq!['['] + host + seq![']', ':'] + port) == host,
        !host.contains(':') ==> host_of(host) == host,
{
    let plain = host + seq![':'] + port;
    let n = host.len() as int;
    text::lemma_last_of(plain, ':');
    assert(plain[n] == ':');
    assert forall|j: int| n < j < plain.len() implies plain[j] != ':' by {
        assert(plain[j] == port[j - n - 1]);
    }
    assert(text::last_of(plain, ':') == Some(n));
    assert(plain.take(n) =~= host);
    let boxed = seq!['['] + host + seq![']', ':'] + port;
    let m = n + 2;
    text::lemma_last_of(boxed, ':');
    assert(boxed[m] == ':');
    assert forall|j: int| m < j < boxed.len() implies boxed[j] != ':' by {
        assert(boxed[j] == port[j - m - 1]);
    }
    assert(text::last_of(boxed, ':') == Some(m));
    let inner = boxed.take(m);
    assert(inner[0] == '[');
    assert(inner.drop_first() =~= host.push(']'));
    assert(host.push(']')[0] == host[0]);
    assert(trim_left(inner, '[') == host.push(']')) by {
        reveal_with_fuel(trim_left, 2);
    }
    assert(host.push(']').drop_last() =~= host);
    assert(trim_right(host.push(']'), ']') == host) by {
        reveal_with_fuel(trim_right, 2);
    }
    text::lemma_last_of(host, ':');
}

/// Where a key is asked for, a request is let through exactly where it presents
/// it: as a bearer token, or in the header for keys where there is none.
pub proof fn law_only_the_key_opens(
    key: Seq<char>,
    token: Seq<char>,
    other: Seq<char>,
    header: Option<Seq<char>>,
)
    ensures
        let_through(Some(key), Some("Bearer "@ + token), header) == (token == key),
        let_through(Some(key), None, Some(token)) == (token == key),
        let_through(Some(key), None, None) == false,
        !text::starts(other, "Bearer "@) ==> let_through(Some(key), Some(other), header)
            == let_through(Some(key), None, header),
        let_through(None, Some(other), header),
        let_through(None, None, header),
{
    reveal_strlit("Bearer ");
    text::law_a_text_has_its_parts("Bearer "@, token, other);
    assert(("Bearer "@ + token).skip(7) =~= token);
}

/// A turn is let in exactly where it has a slot and there is a model for it; one
/// that waited too long is told so, whatever the model does.
pub proof fn law_a_turn_needs_a_slot_and_a_model(how: Waited, held: Held)
    ensures
        turned_away(how, held) is None <==> how == Waited::Granted && (held == Held::Loaded || held
            == Held::Foreign),
        how != Waited::Granted ==> turned_away(how, held) == Some(ApiError::QueueTimeout),
        how == Waited::Granted && held == Held::Locked ==> turned_away(how, held) == Some(
            ApiError::ModelBusy,
        ),
        how == Waited::Granted && held == Held::Unloaded ==> turned_away(how, held) == Some(
            ApiError::ModelUnloaded,
        ),
{
}

/// The counters move by one: a turn that waits is one more in the queue, one that
/// is let in is one more at work, and one that leaves is one fewer.
pub proof fn law_counters_move_by_one(s: Sched, how: Waited, was_settled: bool)
    ensures
        s.queued < u64::MAX ==> s.waiting().queued == s.queued + 1,
        s.waiting() == (Sched { queued: s.waiting().queued, ..s }),
        s.queued > 0 ==> s.waited(how).queued == s.queued - 1,
        how != Waited::TimedOut ==> s.waited(how).timed_out == s.timed_out,
        how == Waited::TimedOut && s.timed_out < u64::MAX ==> s.waited(how).timed_out == s.timed_out
            + 1,
        s.active < u64::MAX ==> s.opened().active == s.active + 1,
        s.admitted < u64::MAX ==> s.opened().admitted == s.admitted + 1,
        s.active > 0 ==> s.closed(was_settled).active == s.active - 1,
        was_settled ==> s.closed(was_settled).cancelled == s.cancelled,
        !was_settled && s.cancelled < u64::MAX ==> s.closed(was_settled).cancelled == s.cancelled
            + 1,
        s.completed < u64::MAX ==> s.settled(Call::Complete).completed == s.completed + 1,
        s.settled(Call::Complete).rejected == s.rejected,
        s.rejected < u64::MAX ==> s.settled(Call::Reject).rejected == s.rejected + 1,
        s.settled(Call::Reject).completed == s.completed,
{
}

/// What a client is told of an error has the status of its kind: one it can mend,
/// one it can wait out, or one of the process behind the server.
pub proof fn law_an_error_has_the_status_of_its_kind(e: ApiError)
    ensures
        e is Unauthorized <==> e.code() == 401,
        e is NotOwned <==> e.code() == 409,
        e is LoadFailed <==> e.code() == 500,
        e is Upstream <==> e.code() == 502,
        e is Draining || e is ModelBusy || e is ModelUnloaded || e is QueueTimeout <==> e.code()
            == 503,
{
}

/// An error names its kind and says what it is, in the shape clients read.
pub proof fn law_an_error_says_what_it_is(message: Seq<char>, kind: Seq<char>)
    ensures
        error_tree(message, kind).child("error"@) is Some,
        error_tree(message, kind).child("error"@)->0.child("message"@) == Some(
            JsonTree::Text(message),
        ),
        error_tree(message, kind).child("error"@)->0.child("type"@) == Some(JsonTree::Text(kind)),
{
    reveal_strlit("message");
    reveal_strlit("type");
    assert("message"@.len() == 7 && "type"@.len() == 4);
}

/// Without a split on the command line the measured one is used, and without a
/// measurement the derived one; the context, the threads and the type of the
/// cache are not a measurement's to choose.
pub proof fn law_a_measurement_overrides_an_estimate(
    derived: runner::Setting,
    kv_type: Option<Seq<char>>,
    tuned: &Tuned,
    cpu_moe: Option<usize>,
)
    ensures
        ({
            let s = chosen(derived, kv_type, Some(tuned), cpu_moe);
            &&& s.ctx == derived.ctx && s.threads == derived.threads && s.kv_type == kv_type
            &&& s.flash_attention == tuned.flash_attention
            &&& cpu_moe is None ==> s.cpu_moe_layers == tuned.cpu_moe_layers && s.expert_override
                == runner::text_of(tuned.expert_override)
            &&& cpu_moe matches Some(n) ==> s.cpu_moe_layers == n && s.expert_override is None
        }),
        ({
            let s = chosen(derived, kv_type, None, cpu_moe);
            &&& s.ctx == derived.ctx && s.threads == derived.threads && s.kv_type == kv_type
            &&& s.flash_attention == derived.flash_attention
            &&& cpu_moe is None ==> s.cpu_moe_layers == derived.cpu_moe_layers && s.expert_override
                == derived.expert_override
            &&& cpu_moe matches Some(n) ==> s.cpu_moe_layers == n && s.expert_override is None
        }),
{
}

/// The newest of a list are its last items.
pub proof fn law_the_newest_are_the_last<T>(s: Seq<T>, n: nat)
    ensures
        newest(s, n).len() == if s.len() < n {
            s.len()
        } else {
            n
        },
        forall|k: int|
            0 <= k < newest(s, n).len() ==> #[trigger] newest(s, n)[newest(s, n).len() - 1 - k]
                == s[s.len() - 1 - k],
        PROFILE_KEEP == 32,
{
}

/// A list without runs has no item twice in a row, and has the items it was made
/// from, each once for every run.
pub proof fn law_no_model_is_listed_twice_in_a_row(s: Seq<Seq<char>>)
    ensures
        forall|i: int|
            0 <= i < without_runs(s).len() - 1 ==> without_runs(s)[i] != #[trigger] without_runs(
                s,
            )[i + 1],
        forall|x: Seq<char>| without_runs(s).contains(x) <==> #[trigger] s.contains(x),
        s.len() > 0 ==> without_runs(s).len() > 0 && without_runs(s)[0] == s[0]
            && without_runs(s).last() == s.last(),
    decreases s.len(),
{
    if s.len() > 0 {
        let t = s.drop_last();
        let before = without_runs(t);
        law_no_model_is_listed_twice_in_a_row(t);
        let r = without_runs(s);
        assert forall|i: int| 0 <= i < r.len() - 1 implies r[i] != #[trigger] r[i + 1] by {
            if i + 1 < before.len() {
                assert(before[i] != before[i + 1]);
            }
        }
        assert forall|x: Seq<char>| r.contains(x) <==> #[trigger] s.contains(x) by {
            if s.contains(x) {
                let i = choose|i: int| 0 <= i < s.len() && s[i] == x;
                if i < t.len() {
                    assert(t[i] == x);
                    assert(t.contains(x));
                    let j = choose|j: int| 0 <= j < before.len() && before[j] == x;
                    assert(r[j] == x);
                } else {
                    assert(r[r.len() - 1] == x);
                }
            }
            if r.contains(x) {
                let j = choose|j: int| 0 <= j < r.len() && r[j] == x;
                if j < before.len() {
                    assert(before[j] == x);
                    assert(before.contains(x));
                    assert(t.contains(x));
                    let i = choose|i: int| 0 <= i < t.len() && t[i] == x;
                    assert(s[i] == x);
                } else {
                    assert(s[s.len() - 1] == x);
                }
            }
        }
    } else {
        assert forall|x: Seq<char>| without_runs(s).contains(x) <==> #[trigger] s.contains(x) by {}
    }
}

/// The ids of a list of models are those its entries have, in their order; one
/// without an id is passed over.
pub proof fn law_listed_models_are_named_by_their_ids(
    s: Seq<JsonTree>,
    entry: JsonTree,
    fields: Map<Seq<char>, JsonTree>,
    id: Seq<char>,
)
    ensures
        ids_in(Seq::empty()) == Seq::<Seq<char>>::empty(),
        entry.child("id"@) == Some(JsonTree::Text(id)) ==> ids_in(s.push(entry)) == ids_in(s).push(
            id,
        ),
        entry.child("id"@) is None ==> ids_in(s.push(entry)) == ids_in(s),
        fields.dom().contains("data"@) && fields["data"@] == JsonTree::Array(s) ==> reported_ids(
            Some(JsonTree::Object(fields)),
        ) == ids_in(s),
        reported_ids(None) == Seq::<Seq<char>>::empty(),
{
    assert(s.push(entry).drop_last() =~= s);
}

/// The models that are listed are those that were found, each under its id.
pub proof fn law_a_list_of_models_names_each(ids: Seq<Seq<char>>, i: int)
    requires
        0 <= i < ids.len(),
    ensures
        model_list_tree(ids).child("object"@) == Some(JsonTree::Text("list"@)),
        model_list_tree(ids).child("data"@) matches Some(JsonTree::Array(data)) && data.len()
            == ids.len() && data[i].child("id"@) == Some(JsonTree::Text(ids[i]))
            && data[i].child("object"@) == Some(JsonTree::Text("model"@))
            && data[i].child("owned_by"@) == Some(JsonTree::Text("strata"@)),
{
    reveal_strlit("object");
    reveal_strlit("data");
    reveal_strlit("id");
    reveal_strlit("owned_by");
    assert("object"@.len() == 6 && "data"@.len() == 4 && "id"@.len() == 2 && "owned_by"@.len() == 8);
}

/// The counters are reported as they stand, with the limits they stand against.
pub proof fn law_the_counters_are_reported_as_they_stand(s: Sched)
    ensures
        s.tree().child("active"@) == Some(JsonTree::Int(s.active as int)),
        s.tree().child("capacity"@) == Some(JsonTree::Int(4)),
        s.tree().child("queued"@) == Some(JsonTree::Int(s.queued as int)),
        s.tree().child("max_queue"@) == Some(JsonTree::Int(32)),
        s.tree().child("queue_timeout_seconds"@) == Some(JsonTree::Int(120)),
        s.tree().child("admitted"@) == Some(JsonTree::Int(s.admitted as int)),
        s.tree().child("completed"@) == Some(JsonTree::Int(s.completed as int)),
        s.tree().child("rejected"@) == Some(JsonTree::Int(s.rejected as int)),
        s.tree().child("timed_out"@) == Some(JsonTree::Int(s.timed_out as int)),
        s.tree().child("cancelled"@) == Some(JsonTree::Int(s.cancelled as int)),
{
    reveal_strlit("active");
    reveal_strlit("capacity");
    reveal_strlit("queued");
    reveal_strlit("max_queue");
    reveal_strlit("queue_timeout_seconds");
    reveal_strlit("admitted");
    reveal_strlit("completed");
    reveal_strlit("rejected");
    reveal_strlit("timed_out");
    reveal_strlit("cancelled");
    assert("active"@.len() == 6 && "capacity"@.len() == 8 && "queued"@.len() == 6 && "max_queue"@.len() == 9 && "queue_timeout_seconds"@.len() == 21 && "admitted"@.len() == 8 && "completed"@.len() == 9 && "rejected"@.len() == 8 && "timed_out"@.len() == 9 && "cancelled"@.len() == 9);
    assert("active"@[0] == 'a' && "queued"@[0] == 'q');
    assert("capacity"@[0] == 'c' && "admitted"@[0] == 'a');
    assert("capacity"@[0] == 'c' && "rejected"@[0] == 'r');
    assert("admitted"@[0] == 'a' && "rejected"@[0] == 'r');
    assert("max_queue"@[0] == 'm' && "completed"@[0] == 'c');
    assert("max_queue"@[0] == 'm' && "timed_out"@[0] == 't');
    assert("max_queue"@[0] == 'm' && "cancelled"@[0] == 'c');
    assert("completed"@[0] == 'c' && "timed_out"@[0] == 't');
    assert("completed"@[1] == 'o' && "cancelled"@[1] == 'a');
    assert("timed_out"@[0] == 't' && "cancelled"@[0] == 'c');
}

/// The health of the server says whether there is a model, whose it is, and where
/// its experts sit.
pub proof fn law_the_health_is_that_of_the_server(h: Health)
    ensures
        h.tree().child("scheduler"@) == Some(h.sched.tree()),
        h.tree().child("kv_slots"@) == Some(JsonTree::Int(4)),
        h.tree().child("model"@) is Some,
        h.tree().child("model"@)->0.child("owned"@) == Some(
            JsonTree::Bool(h.held != Held::Foreign),
        ),
        h.tree().child("model"@)->0.child("loaded"@) == Some(
            JsonTree::Bool(h.held != Held::Unloaded),
        ),
        h.tree().child("model"@)->0.child("name"@) == Some(JsonTree::Text(h.model@)),
        h.tree().child("tiers"@) is Some,
        h.tree().child("tiers"@)->0.child("vram"@) == Some(JsonTree::Int(h.tiers.0 as int)),
        h.tree().child("tiers"@)->0.child("ram"@) == Some(JsonTree::Int(h.tiers.1 as int)),
        h.tree().child("tiers"@)->0.child("disk"@) == Some(JsonTree::Int(h.tiers.2 as int)),
        h.tree().child("compaction"@) == Some(json::json_tree(h.compaction)),
        h.tree().child("simulated"@) == Some(JsonTree::Bool(true)),
{
    reveal_strlit("status");
    reveal_strlit("simulated");
    reveal_strlit("scheduler");
    reveal_strlit("kv_slots");
    reveal_strlit("model");
    reveal_strlit("compaction");
    reveal_strlit("tiers");
    reveal_strlit("hwinfo");
    assert("status"@.len() == 6 && "simulated"@.len() == 9 && "scheduler"@.len() == 9 && "kv_slots"@.len() == 8 && "model"@.len() == 5 && "compaction"@.len() == 10 && "tiers"@.len() == 5 && "hwinfo"@.len() == 6);
    assert("status"@[0] == 's' && "hwinfo"@[0] == 'h');
    assert("simulated"@[1] == 'i' && "scheduler"@[1] == 'c');
    assert("model"@[0] == 'm' && "tiers"@[0] == 't');
    reveal_strlit("owned");
    reveal_strlit("loaded");
    reveal_strlit("name");
    assert("owned"@.len() == 5 && "loaded"@.len() == 6 && "name"@.len() == 4);
    reveal_strlit("vram");
    reveal_strlit("ram");
    reveal_strlit("disk");
    reveal_strlit("vram_gb");
    reveal_strlit("ram_gb");
    assert("vram"@.len() == 4 && "ram"@.len() == 3 && "disk"@.len() == 4 && "vram_gb"@.len() == 7 && "ram_gb"@.len() == 6);
    assert("vram"@[0] == 'v' && "disk"@[0] == 'd');
}

/// What stands between two marks is found, from the first mark on.
pub proof fn law_what_stands_behind_the_mark_is_found(
    a: Seq<char>,
    mark: Seq<char>,
    b: Seq<char>,
)
    requires
        mark.len() > 0,
        text::find(a + mark + b, mark) == Some(a.len() as int),
        !text::has(b, mark),
    ensures
        between(a + mark + b, mark) == Some(b),
        !text::has(a, mark) ==> between(a, mark) is None,
{
    assert((a + mark + b).skip((a.len() + mark.len()) as int) =~= b);
    text::law_find_is_first(b, mark);
    text::law_find_is_first(a, mark);
}

} // verus!

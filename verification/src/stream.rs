//! The stream of server-sent events the compute process answers with.
//!
//! The compute process already speaks the protocol of its clients, so frames
//! are forwarded unchanged; they are read in passing only to record usage and
//! the end of the turn.
use crate::json;
use crate::json::JsonTree;
use crate::text;
use vstd::prelude::*;

verus! {

/// Ceiling on the reassembly buffer, in bytes. Frames are small, so this is
/// only ever reached by an upstream that is not framing at all - without it
/// such a stream would grow the buffer until the process died.
pub const MAX_STREAM_LINE: usize = 4_194_304;

// ---------------------------------------------------------------- frames

/// A blank line ends a frame at `i`, by two line feeds.
pub open spec fn feeds_at(b: Seq<u8>, i: int) -> bool {
    i + 1 < b.len() && b[i] == 10 && b[i + 1] == 10
}

/// A blank line ends a frame at `i`, by two pairs of a carriage return and a
/// line feed.
pub open spec fn returns_at(b: Seq<u8>, i: int) -> bool {
    i + 3 < b.len() && b[i] == 13 && b[i + 1] == 10 && b[i + 2] == 13 && b[i + 3] == 10
}

/// The first end of a frame from `i` on: where it is, and how long it is.
pub open spec fn end_from(b: Seq<u8>, i: int) -> Option<(int, int)>
    decreases b.len() - i,
{
    if i < 0 || i + 1 >= b.len() {
        None
    } else if feeds_at(b, i) {
        Some((i, 2))
    } else if returns_at(b, i) {
        Some((i, 4))
    } else {
        end_from(b, i + 1)
    }
}

/// End of a frame: a blank line, LF or CRLF. Returns (offset, separator len),
/// both in bytes.
pub fn frame_end(b: &[u8]) -> (r: Option<(usize, usize)>)
    ensures
        r is Some == end_from(b@, 0) is Some,
        r matches Some((pos, sep)) ==> end_from(b@, 0) == Some((pos as int, sep as int)) && pos
            + sep <= b@.len() && sep > 0,
{
    let end: usize = b.len();
    if end < 2 {
        return None;
    }
    let mut i: usize = 0;
    while i < end - 1
        invariant
            end == b@.len(),
            end >= 2,
            i <= end - 1,
            end_from(b@, 0) == end_from(b@, i as int),
        decreases end - i,
    {
        if b[i] == 10 && b[i + 1] == 10 {
            return Some((i, 2));
        }
        if end - i > 3 && b[i] == 13 && b[i + 1] == 10 && b[i + 2] == 13 && b[i + 3] == 10 {
            return Some((i, 4));
        }
        i = i + 1;
    }
    None
}

proof fn lemma_end(b: Seq<u8>, i: int)
    requires
        0 <= i,
    ensures
        match end_from(b, i) {
            Some((pos, sep)) => {
                &&& i <= pos
                &&& pos + sep <= b.len()
                &&& (sep == 2 && feeds_at(b, pos)) || (sep == 4 && !feeds_at(b, pos) && returns_at(
                    b,
                    pos,
                ))
                &&& forall|j: int|
                    i <= j < pos ==> !#[trigger] feeds_at(b, j) && !returns_at(b, j)
            },
            None => forall|j: int| i <= j ==> !#[trigger] feeds_at(b, j) && !returns_at(b, j),
        },
    decreases b.len() - i,
{
    if i + 1 < b.len() && !feeds_at(b, i) && !returns_at(b, i) {
        lemma_end(b, i + 1);
    }
}

/// A frame that is complete stays as it is when more arrives.
pub proof fn law_a_complete_frame_stays(b: Seq<u8>, more: Seq<u8>)
    requires
        end_from(b, 0) is Some,
    ensures
        end_from(b + more, 0) == end_from(b, 0),
{
    let w = b + more;
    let (pos, sep) = end_from(b, 0)->0;
    lemma_end(b, 0);
    lemma_end(w, 0);
    assert(feeds_at(b, pos) ==> feeds_at(w, pos));
    assert(returns_at(b, pos) ==> returns_at(w, pos));
    assert(!feeds_at(b, pos) ==> !feeds_at(w, pos));
    assert(end_from(w, 0) is Some);
    let (p, s) = end_from(w, 0)->0;
    if p < pos {
        assert(0 <= p);
        assert(end_from(b, 0) == Some((pos, sep)));
        assert(!feeds_at(b, p));
        assert(!returns_at(b, p));
        assert(w[p] == b[p] && w[p + 1] == b[p + 1]);
        assert(!feeds_at(w, p));
        assert(returns_at(w, p));
        assert(p + 3 >= b.len());
        assert(w[pos] == b[pos] && w[pos + 1] == b[pos + 1]);
    }
    if pos < p {
        assert(!feeds_at(w, pos));
    }
}

// ---------------------------------------------------------------- payloads

/// What is done in passing.
#[derive(Debug)]
pub enum Action {
    /// The turn has ended, with these counts of tokens.
    Complete { prompt_tokens: u64, completion_tokens: u64 },
    /// The turn has ended, with no counts but those it was completed with.
    CompleteIfOpen,
    /// A payload is passed on.
    Send(String),
}

/// What is done in passing.
pub enum Act {
    Complete { prompt_tokens: u64, completion_tokens: u64 },
    CompleteIfOpen,
    Send(Seq<char>),
}

impl View for Action {
    type V = Act;

    open spec fn view(&self) -> Act {
        match self {
            Action::Complete { prompt_tokens, completion_tokens } => Act::Complete {
                prompt_tokens: *prompt_tokens,
                completion_tokens: *completion_tokens,
            },
            Action::CompleteIfOpen => Act::CompleteIfOpen,
            Action::Send(s) => Act::Send(s@),
        }
    }
}

/// What a list of actions is.
pub open spec fn acts(s: Seq<Action>) -> Seq<Act> {
    Seq::new(s.len(), |i: int| s[i]@)
}

/// The payload of a line, where it has one.
pub open spec fn payload_of(line: Seq<char>) -> Option<Seq<char>> {
    if text::starts(line, "data:"@) {
        Some(text::trim_start(line.skip(5)))
    } else {
        None
    }
}

/// The counts of tokens a payload reports, zero where it does not say.
pub open spec fn usage_in(payload: Option<JsonTree>) -> (u64, u64) {
    match payload {
        Some(t) => match t.child("usage"@) {
            Some(u) => (
                json::whole_or_zero(u.child("prompt_tokens"@)),
                json::whole_or_zero(u.child("completion_tokens"@)),
            ),
            None => (0, 0),
        },
        None => (0, 0),
    }
}

/// What is done about a line. The end of the stream ends the turn; a payload
/// that reports usage ends it with its counts; every payload is passed on.
pub open spec fn acts_of_line(line: Seq<char>) -> Seq<Act> {
    match payload_of(line) {
        Some(payload) => if payload == "[DONE]"@ {
            seq![Act::CompleteIfOpen, Act::Send(payload)]
        } else {
            let (prompt_tokens, completion_tokens) = usage_in(json::json_parse(payload));
            if prompt_tokens > 0 || completion_tokens > 0 {
                seq![Act::Complete { prompt_tokens, completion_tokens }, Act::Send(payload)]
            } else {
                seq![Act::Send(payload)]
            }
        },
        None => Seq::empty(),
    }
}

/// What is done about lines, one after another.
pub open spec fn acts_of(lines: Seq<Seq<char>>) -> Seq<Act>
    decreases lines.len(),
{
    if lines.len() == 0 {
        Seq::empty()
    } else {
        acts_of(lines.drop_last()) + acts_of_line(lines.last())
    }
}

/// One of the lines ends the stream.
pub open spec fn ends_stream(lines: Seq<Seq<char>>) -> bool {
    exists|i: int| 0 <= i < lines.len() && payload_of(#[trigger] lines[i]) == Some("[DONE]"@)
}

/// The counts of tokens a payload reports.
fn read_usage(payload: &str) -> (r: (u64, u64))
    ensures
        r == usage_in(json::json_parse(payload@)),
{
    match json::parse(payload) {
        Some(v) => match json::get(&v, "usage") {
            Some(u) => {
                let prompt: u64 = match json::get(u, "prompt_tokens") {
                    Some(n) => match json::as_u64(n) {
                        Some(n) => n,
                        None => 0,
                    },
                    None => 0,
                };
                let completion: u64 = match json::get(u, "completion_tokens") {
                    Some(n) => match json::as_u64(n) {
                        Some(n) => n,
                        None => 0,
                    },
                    None => 0,
                };
                (prompt, completion)
            },
            None => (0, 0),
        },
        None => (0, 0),
    }
}

/// Whether a line ends the stream, and what is done about it, behind what was
/// done already.
fn read_line(line: &[char], out: &mut Vec<Action>) -> (r: bool)
    ensures
        acts(final(out)@) == acts(old(out)@) + acts_of_line(line@),
        r == (payload_of(line@) == Some("[DONE]"@)),
{
    proof {
        reveal_strlit("data:");
    }
    let mark = text::chars_of("data:");
    if !text::is_at(line, mark.as_slice(), 0) {
        assert(acts(out@) =~= acts(old(out)@) + acts_of_line(line@));
        return false;
    }
    let end: usize = line.len();
    let rest = text::cut(line, 5, end);
    assert(rest@ =~= line@.skip(5));
    let payload = text::string_of(&text::trim_start_chars(rest.as_slice()));
    let ghost before = acts(out@);
    if text::same(payload.as_str(), "[DONE]") {
        out.push(Action::CompleteIfOpen);
        out.push(Action::Send(payload));
        assert(acts(out@) =~= before + acts_of_line(line@));
        return true;
    }
    let (prompt_tokens, completion_tokens) = read_usage(payload.as_str());
    if prompt_tokens > 0 || completion_tokens > 0 {
        out.push(Action::Complete { prompt_tokens, completion_tokens });
    }
    out.push(Action::Send(payload));
    assert(acts(out@) =~= before + acts_of_line(line@));
    false
}

// ---------------------------------------------------------------- the decoder

/// Reassembles the frames of a stream. What arrives is held as bytes, and only
/// whole frames are read as text: a character that a chunk cuts in two is put
/// together again.
#[derive(Debug)]
pub struct Decoder {
    buf: Vec<u8>,
    done: bool,
}

/// What is taken out of a buffer: what is done about the first frame that
/// calls for anything, whether it ends the stream, and what is left.
pub struct Taken {
    pub actions: Option<Seq<Act>>,
    pub ends: bool,
    pub rest: Seq<u8>,
}

/// The lines of a frame.
pub open spec fn frame_lines(frame: Seq<u8>) -> Seq<Seq<char>> {
    text::lines(text::decoded(frame))
}

/// What is taken out of a buffer. A frame without a payload is passed over.
pub open spec fn take_from(buf: Seq<u8>) -> Taken
    decreases buf.len(),
{
    match end_from(buf, 0) {
        Some((pos, sep)) => if 0 <= pos && 0 < sep && pos + sep <= buf.len() {
            let lines = frame_lines(buf.take(pos + sep));
            let rest = buf.skip(pos + sep);
            if acts_of(lines).len() > 0 {
                Taken { actions: Some(acts_of(lines)), ends: ends_stream(lines), rest }
            } else {
                take_from(rest)
            }
        } else {
            Taken { actions: None, ends: false, rest: buf }
        },
        None => Taken { actions: None, ends: false, rest: buf },
    }
}

impl Decoder {
    /// What has arrived and was not taken out yet.
    pub closed spec fn held(&self) -> Seq<u8> {
        self.buf@
    }

    /// Nothing more will come out.
    pub closed spec fn over(&self) -> bool {
        self.done
    }

    /// Nothing has arrived.
    pub fn new() -> (r: Decoder)
        ensures
            r.held() == Seq::<u8>::empty(),
            !r.over(),
    {
        Decoder { buf: Vec::new(), done: false }
    }

    /// Whether nothing more will come out.
    pub fn is_done(&self) -> (r: bool)
        ensures
            r == self.over(),
    {
        self.done
    }

    /// Takes the next frame out of what has arrived. `None` where there is no
    /// complete one: more has to arrive.
    pub fn next(&mut self) -> (r: Option<Vec<Action>>)
        ensures
            r is Some == take_from(old(self).held()).actions is Some,
            r matches Some(a) ==> take_from(old(self).held()).actions == Some(acts(a@)),
            final(self).held() == take_from(old(self).held()).rest,
            final(self).over() == (old(self).over() || take_from(old(self).held()).ends),
    {
        loop
            invariant
                self.done == old(self).over(),
                take_from(old(self).held()) == take_from(self.buf@),
            decreases self.buf@.len(),
        {
            let ghost here = self.buf@;
            match frame_end(self.buf.as_slice()) {
                Some((pos, sep)) => {
                    let end: usize = self.buf.len();
                    let frame = vstd::slice::slice_subrange(self.buf.as_slice(), 0, pos + sep);
                    assert(frame@ =~= here.take(pos + sep));
                    let shown = text::decode(frame);
                    let v = text::chars_of(shown.as_str());
                    let lines = text::lines_of(v.as_slice());
                    let (actions, ends) = read_lines(&lines);
                    let rest = copy_from(self.buf.as_slice(), pos + sep);
                    assert(rest@ =~= here.skip(pos + sep));
                    self.buf = rest;
                    if actions.len() > 0 {
                        if ends {
                            self.done = true;
                        }
                        return Some(actions);
                    }
                },
                None => {
                    return None;
                },
            }
        }
    }

    /// Takes what has arrived. A buffer that has grown beyond its ceiling ends
    /// the stream: what is to be done about that is returned.
    pub fn feed(&mut self, bytes: &[u8]) -> (r: Option<Vec<Action>>)
        ensures
            final(self).held() == old(self).held() + bytes@,
            if old(self).held().len() + bytes@.len() > MAX_STREAM_LINE {
                &&& r matches Some(a)
                &&& acts(a@) == seq![Act::Send("[DONE]"@)]
                &&& final(self).over()
            } else {
                r is None && final(self).over() == old(self).over()
            },
    {
        let mut i: usize = 0;
        assert(self.buf@ =~= old(self).buf@ + bytes@.take(0));
        while i < bytes.len()
            invariant
                i <= bytes@.len(),
                self.buf@ == old(self).buf@ + bytes@.take(i as int),
                self.done == old(self).done,
            decreases bytes@.len() - i,
        {
            self.buf.push(bytes[i]);
            assert(self.buf@ =~= old(self).buf@ + bytes@.take(i + 1));
            i = i + 1;
        }
        assert(bytes@.take(i as int) =~= bytes@);
        if self.buf.len() > MAX_STREAM_LINE {
            self.done = true;
            let mut actions: Vec<Action> = Vec::new();
            actions.push(Action::Send("[DONE]".to_owned()));
            assert(acts(actions@) =~= seq![Act::Send("[DONE]"@)]);
            return Some(actions);
        }
        None
    }

    /// Nothing more will arrive: the turn is settled and the stream ended.
    pub fn finish(&mut self) -> (r: Vec<Action>)
        ensures
            acts(r@) == seq![Act::CompleteIfOpen, Act::Send("[DONE]"@)],
            final(self).over(),
            final(self).held() == old(self).held(),
    {
        self.done = true;
        let mut actions: Vec<Action> = Vec::new();
        actions.push(Action::CompleteIfOpen);
        actions.push(Action::Send("[DONE]".to_owned()));
        assert(acts(actions@) =~= seq![Act::CompleteIfOpen, Act::Send("[DONE]"@)]);
        actions
    }
}

fn copy_from(b: &[u8], from: usize) -> (r: Vec<u8>)
    requires
        from <= b@.len(),
    ensures
        r@ == b@.skip(from as int),
{
    let mut r: Vec<u8> = Vec::new();
    let mut i: usize = from;
    while i < b.len()
        invariant
            from <= i <= b@.len(),
            r@ == b@.subrange(from as int, i as int),
        decreases b@.len() - i,
    {
        r.push(b[i]);
        assert(r@ =~= b@.subrange(from as int, i + 1));
        i = i + 1;
    }
    assert(b@.subrange(from as int, i as int) =~= b@.skip(from as int));
    r
}

fn read_lines(lines: &Vec<Vec<char>>) -> (r: (Vec<Action>, bool))
    ensures
        acts(r.0@) == acts_of(text::rows(lines@)),
        r.1 == ends_stream(text::rows(lines@)),
{
    let ghost all = text::rows(lines@);
    let mut actions: Vec<Action> = Vec::new();
    let mut ends: bool = false;
    let mut i: usize = 0;
    assert(all.take(0) =~= Seq::<Seq<char>>::empty());
    assert(acts(actions@) =~= Seq::<Act>::empty());
    while i < lines.len()
        invariant
            i <= lines@.len(),
            all == text::rows(lines@),
            acts(actions@) == acts_of(all.take(i as int)),
            ends == exists|k: int|
                0 <= k < i && payload_of(#[trigger] all[k]) == Some("[DONE]"@),
        decreases lines@.len() - i,
    {
        assert(all.take(i + 1).drop_last() =~= all.take(i as int));
        let last: bool = read_line(lines[i].as_slice(), &mut actions);
        assert(all[i as int] == lines@[i as int]@);
        if last {
            ends = true;
        }
        i = i + 1;
    }
    assert(all.take(i as int) =~= all);
    (actions, ends)
}

proof fn lemma_acts_of(lines: Seq<Seq<char>>, i: int)
    requires
        0 <= i < lines.len(),
        payload_of(lines[i]) is Some,
    ensures
        acts_of(lines).contains(Act::Send(payload_of(lines[i])->0)),
    decreases lines.len(),
{
    let p = payload_of(lines[i])->0;
    let before = acts_of(lines.drop_last());
    let last = acts_of_line(lines.last());
    if i < lines.len() - 1 {
        assert(lines.drop_last()[i] == lines[i]);
        lemma_acts_of(lines.drop_last(), i);
        let k = choose|k: int| 0 <= k < before.len() && before[k] == Act::Send(p);
        assert((before + last)[k] == Act::Send(p));
    } else {
        let k = last.len() - 1;
        assert(last[k] == Act::Send(p));
        assert((before + last)[before.len() + k] == Act::Send(p));
    }
}

/// Every payload of a frame is passed on as it stands.
pub proof fn law_payloads_are_passed_on(lines: Seq<Seq<char>>, i: int)
    requires
        0 <= i < lines.len(),
        payload_of(lines[i]) is Some,
    ensures
        acts_of(lines).contains(Act::Send(payload_of(lines[i])->0)),
{
    lemma_acts_of(lines, i);
}

/// What comes out of a stream does not change when more of it arrives: a frame
/// that was taken out is taken out all the same, and the rest is the rest with
/// what arrived behind it. Where nothing came out, nothing is lost: what is
/// taken out later is what is taken out of all of it.
pub proof fn law_decoding_is_incremental(buf: Seq<u8>, more: Seq<u8>)
    ensures
        match take_from(buf).actions {
            Some(a) => {
                &&& take_from(buf + more).actions == Some(a)
                &&& take_from(buf + more).ends == take_from(buf).ends
                &&& take_from(buf + more).rest == take_from(buf).rest + more
            },
            None => take_from(buf + more) == take_from(take_from(buf).rest + more),
        },
    decreases buf.len(),
{
    if end_from(buf, 0) is Some {
        law_a_complete_frame_stays(buf, more);
        lemma_end(buf, 0);
        let (pos, sep) = end_from(buf, 0)->0;
        assert((buf + more).take(pos + sep) =~= buf.take(pos + sep));
        assert((buf + more).skip(pos + sep) =~= buf.skip(pos + sep) + more);
        if acts_of(frame_lines(buf.take(pos + sep))).len() == 0 {
            law_decoding_is_incremental(buf.skip(pos + sep), more);
        }
    }
}

/// Everything that is taken out of a buffer, one frame after another, until
/// the stream ends or there is no complete frame.
pub struct Drained {
    pub actions: Seq<Act>,
    pub ended: bool,
    pub rest: Seq<u8>,
}

pub open spec fn drained(buf: Seq<u8>) -> Drained
    decreases buf.len(),
{
    let t = take_from(buf);
    match t.actions {
        Some(a) => if t.ends || t.rest.len() >= buf.len() {
            Drained { actions: a, ended: t.ends, rest: t.rest }
        } else {
            let d = drained(t.rest);
            Drained { actions: a + d.actions, ..d }
        },
        None => Drained { actions: Seq::empty(), ended: false, rest: t.rest },
    }
}

/// What comes out of a stream that arrives in chunks: each is taken in, and
/// then every frame that is complete is taken out. Nothing is taken in once
/// the stream has ended.
pub open spec fn relayed(chunks: Seq<Seq<u8>>) -> Drained
    decreases chunks.len(),
{
    if chunks.len() == 0 {
        Drained { actions: Seq::empty(), ended: false, rest: Seq::empty() }
    } else {
        let before = relayed(chunks.drop_last());
        if before.ended {
            before
        } else {
            let d = drained(before.rest + chunks.last());
            Drained { actions: before.actions + d.actions, ..d }
        }
    }
}

/// The chunks of a stream, put together.
pub open spec fn together(chunks: Seq<Seq<u8>>) -> Seq<u8>
    decreases chunks.len(),
{
    if chunks.len() == 0 {
        Seq::empty()
    } else {
        together(chunks.drop_last()) + chunks.last()
    }
}

proof fn lemma_taken_is_shorter(buf: Seq<u8>)
    ensures
        take_from(buf).rest.len() <= buf.len(),
        take_from(buf).actions is Some ==> take_from(buf).rest.len() < buf.len(),
    decreases buf.len(),
{
    if end_from(buf, 0) is Some {
        lemma_end(buf, 0);
        let (pos, sep) = end_from(buf, 0)->0;
        lemma_taken_is_shorter(buf.skip(pos + sep));
    }
}

proof fn lemma_drained_further(buf: Seq<u8>, more: Seq<u8>)
    ensures
        ({
            let (d, w) = (drained(buf), drained(buf + more));
            if d.ended {
                w.ended && w.actions == d.actions
            } else {
                let e = drained(d.rest + more);
                w.ended == e.ended && w.actions == d.actions + e.actions && w.rest == e.rest
            }
        }),
    decreases buf.len(),
{
    law_decoding_is_incremental(buf, more);
    lemma_taken_is_shorter(buf);
    lemma_taken_is_shorter(buf + more);
    let t = take_from(buf);
    if t.actions is Some {
        if !t.ends {
            lemma_drained_further(t.rest, more);
            let e = drained(drained(t.rest).rest + more);
            assert(t.actions->0 + (drained(t.rest).actions + e.actions) =~= (t.actions->0
                + drained(t.rest).actions) + e.actions);
        }
    } else {
        let e = drained(t.rest + more);
        lemma_taken_is_shorter(t.rest + more);
        assert(drained(buf).actions + e.actions =~= e.actions);
        lemma_same_taken(buf + more, t.rest + more);
    }
}

proof fn lemma_same_taken(a: Seq<u8>, b: Seq<u8>)
    requires
        take_from(a) == take_from(b),
    ensures
        drained(a) == drained(b),
{
    lemma_taken_is_shorter(a);
    lemma_taken_is_shorter(b);
}

/// Where the chunks of a stream end makes no difference, as long as it is not
/// cut off: what comes out of it chunk by chunk is what comes out of all of it
/// at once.
pub proof fn law_chunks_make_no_difference(chunks: Seq<Seq<u8>>)
    ensures
        relayed(chunks).actions == drained(together(chunks)).actions,
        relayed(chunks).ended == drained(together(chunks)).ended,
        !relayed(chunks).ended ==> relayed(chunks).rest == drained(together(chunks)).rest,
    decreases chunks.len(),
{
    if chunks.len() == 0 {
        assert(end_from(Seq::<u8>::empty(), 0) is None);
    } else {
        law_chunks_make_no_difference(chunks.drop_last());
        lemma_drained_further(together(chunks.drop_last()), chunks.last());
    }
}

proof fn lemma_drained_is_shorter(buf: Seq<u8>)
    ensures
        drained(buf).rest.len() <= buf.len(),
    decreases buf.len(),
{
    lemma_taken_is_shorter(buf);
    let t = take_from(buf);
    if t.actions is Some && !t.ends {
        lemma_drained_is_shorter(t.rest);
    }
}

proof fn lemma_held_is_part(chunks: Seq<Seq<u8>>)
    ensures
        relayed(chunks).rest.len() <= together(chunks).len(),
    decreases chunks.len(),
{
    if chunks.len() > 0 {
        lemma_held_is_part(chunks.drop_last());
        lemma_drained_is_shorter(relayed(chunks.drop_last()).rest + chunks.last());
    }
}

proof fn lemma_beginning_is_shorter(chunks: Seq<Seq<u8>>, k: int)
    requires
        0 <= k <= chunks.len(),
    ensures
        together(chunks.take(k)).len() <= together(chunks).len(),
    decreases chunks.len(),
{
    if k < chunks.len() {
        lemma_beginning_is_shorter(chunks.drop_last(), k);
        assert(chunks.drop_last().take(k) =~= chunks.take(k));
    } else {
        assert(chunks.take(k) =~= chunks);
    }
}

/// A stream that is no longer than the ceiling is not cut off, wherever its
/// chunks end: what is held never grows beyond it.
pub proof fn law_a_short_stream_is_not_cut_off(chunks: Seq<Seq<u8>>, k: int)
    requires
        together(chunks).len() <= MAX_STREAM_LINE,
        0 <= k < chunks.len(),
    ensures
        relayed(chunks.take(k)).rest.len() + chunks[k].len() <= MAX_STREAM_LINE,
{
    lemma_held_is_part(chunks.take(k));
    lemma_beginning_is_shorter(chunks, k + 1);
    assert(chunks.take(k + 1).drop_last() =~= chunks.take(k));
}

/// Two chunks that arrive one after the other leave what they leave as one.
/// A stream that is cut off is cut off either way.
pub proof fn law_two_chunks_are_as_one(held: Seq<u8>, a: Seq<u8>, b: Seq<u8>)
    ensures
        held + a + b == held + (a + b),
        (held.len() + a.len() > MAX_STREAM_LINE || (held + a).len() + b.len() > MAX_STREAM_LINE)
            == (held.len() + (a + b).len() > MAX_STREAM_LINE),
{
    assert(held + a + b =~= held + (a + b));
}

proof fn lemma_boundary_behind_a_feed(buf: Seq<u8>, k: int)
    requires
        vstd::utf8::valid_utf8(buf),
        0 < k <= buf.len(),
        buf[k - 1] == 10,
    ensures
        vstd::utf8::is_char_boundary(buf, k),
{
    if k == buf.len() {
        vstd::utf8::is_char_boundary_start_end_of_seq(buf);
    } else {
        vstd::utf8::is_char_boundary_iff_not_is_continuation_byte(buf, k - 1);
        vstd::utf8::valid_utf8_split(buf, k - 1);
        let tail = buf.subrange(k - 1, buf.len() as int);
        assert(tail[0] == 10);
        let next = vstd::utf8::pop_first_scalar(tail);
        assert(next[0] == buf[k]);
        assert(vstd::utf8::valid_utf8(next));
        assert(vstd::utf8::valid_first_scalar(next));
        assert(!vstd::utf8::is_continuation_byte(next[0]));
        vstd::utf8::is_char_boundary_iff_not_is_continuation_byte(buf, k);
    }
}

/// A stream that is text passes unchanged: each of its frames is text, and the
/// texts of the frames are the text of the stream.
pub proof fn law_text_passes_unchanged(buf: Seq<u8>)
    requires
        vstd::utf8::valid_utf8(buf),
        end_from(buf, 0) is Some,
    ensures
        ({
            let (pos, sep) = end_from(buf, 0)->0;
            let (frame, rest) = (buf.take(pos + sep), buf.skip(pos + sep));
            &&& vstd::utf8::valid_utf8(frame)
            &&& vstd::utf8::valid_utf8(rest)
            &&& text::decoded(frame) + text::decoded(rest) == text::decoded(buf)
        }),
{
    lemma_end(buf, 0);
    let (pos, sep) = end_from(buf, 0)->0;
    let k = pos + sep;
    lemma_boundary_behind_a_feed(buf, k);
    vstd::utf8::valid_utf8_split(buf, k);
    vstd::utf8::decode_utf8_split(buf, k);
    assert(buf.subrange(0, k) =~= buf.take(k));
    assert(buf.subrange(k, buf.len() as int) =~= buf.skip(k));
}

// ---------------------------------------------------------------- what is promised

/// A frame ends at the first blank line there is, and where there is none it does
/// not end: text without one is held back.
pub proof fn law_a_frame_ends_at_the_first_blank_line(b: Seq<u8>, rest: Seq<u8>)
    requires
        forall|i: int| 0 <= i < b.len() ==> #[trigger] b[i] != 10,
    ensures
        end_from(b, 0) is None,
        end_from(b + seq![10u8, 10u8] + rest, 0) == Some((b.len() as int, 2int)),
        end_from(b + seq![13u8, 10u8, 13u8, 10u8] + rest, 0) == Some((b.len() as int, 4int)),
{
    lemma_end_behind(b, b.len() as int, 0);
    let x = b + seq![10u8, 10u8] + rest;
    let y = b + seq![13u8, 10u8, 13u8, 10u8] + rest;
    let n = b.len() as int;
    lemma_end_behind(x, n, 0);
    lemma_end_behind(y, n, 0);
    assert(x[n] == 10 && x[n + 1] == 10);
    assert(y[n] == 13 && y[n + 1] == 10 && y[n + 2] == 13 && y[n + 3] == 10);
}

proof fn lemma_end_behind(b: Seq<u8>, n: int, i: int)
    requires
        0 <= i <= n <= b.len(),
        forall|k: int| 0 <= k < n ==> #[trigger] b[k] != 10,
        n + 1 < b.len() ==> b[n] == 13 || b[n + 1] == 10,
    ensures
        end_from(b, i) == end_from(b, n),
    decreases n - i,
{
    if i < n {
        if i + 1 < b.len() {
            assert(b[i] != 10);
            if returns_at(b, i) {
                if i + 1 < n {
                    assert(b[i + 1] != 10);
                } else {
                    assert(b[n] == 10);
                    assert(b[n + 1] == 13);
                }
            }
        }
        if i + 1 >= b.len() {
            assert(end_from(b, n) is None);
        } else if !returns_at(b, i) {
            lemma_end_behind(b, n, i + 1);
        }
    }
}

/// A line that carries a payload passes it on as it stands, without the blanks
/// before it; a line that carries none does nothing.
pub proof fn law_a_payload_is_passed_on_as_it_stands(payload: Seq<char>, line: Seq<char>)
    requires
        payload.len() == 0 || !text::is_white(payload[0]),
    ensures
        payload_of("data:"@ + payload) == Some(payload),
        payload_of("data: "@ + payload) == Some(payload),
        acts_of_line("data: "@ + payload).len() > 0,
        acts_of_line("data: "@ + payload).last() == Act::Send(payload),
        !text::starts(line, "data:"@) ==> acts_of_line(line).len() == 0,
{
    reveal_strlit("data:");
    reveal_strlit("data: ");
    let a = "data:"@ + payload;
    let b = "data: "@ + payload;
    assert(a.subrange(0, 5) =~= "data:"@);
    assert(b.subrange(0, 5) =~= "data:"@);
    assert(a.skip(5) =~= payload);
    assert(b.skip(5) =~= seq![' '] + payload);
    assert((seq![' '] + payload).drop_first() =~= payload);
    assert(text::trim_start(payload) == payload);
    assert(text::trim_start(seq![' '] + payload) == payload) by {
        reveal_with_fuel(text::trim_start, 2);
        assert((seq![' '] + payload)[0] == ' ');
    }
}

/// The counts of a turn are those its payload reports: what was read, and what was
/// written. A payload that reports none counts nothing.
pub proof fn law_the_counts_are_those_reported(
    fields: Map<Seq<char>, JsonTree>,
    usage: Map<Seq<char>, JsonTree>,
    read: u64,
    written: u64,
)
    requires
        usage.dom().contains("prompt_tokens"@),
        usage["prompt_tokens"@] == JsonTree::Int(read as int),
        usage.dom().contains("completion_tokens"@),
        usage["completion_tokens"@] == JsonTree::Int(written as int),
    ensures
        usage_in(
            Some(JsonTree::Object(fields.insert("usage"@, JsonTree::Object(usage)))),
        ) == (read, written),
        usage_in(Some(JsonTree::Object(fields.remove("usage"@)))) == (0u64, 0u64),
        usage_in(None) == (0u64, 0u64),
{
}

} // verus!

//! Context compaction.
//!
//! The compute process is started with a fixed context window, and a
//! conversation that outgrows it does not fail gracefully: llama.cpp either
//! rejects the prompt or silently drops the front of it, taking the system
//! prompt and the statement of the task with it. Compaction replaces the
//! middle of a conversation with a summary the model writes itself, so the
//! oldest turns cost a few hundred tokens instead of several thousand and the
//! space they free is reused by new ones.
//!
//! Two properties matter more here than the prose of any one summary:
//!
//! * **It happens rarely.** Summarising costs a full forward pass. A scheme
//!   that trimmed a little every turn would add that cost to every turn, so
//!   compaction instead swallows half of the budget at once and leaves the
//!   rest as headroom for the turns that follow.
//! * **The result is stable.** llama.cpp reuses its KV cache for the longest
//!   common prefix of consecutive prompts, so rewriting history costs a full
//!   reprocess of the prompt. Summaries are cached by a digest of the messages
//!   they replace: a conversation is summarised once, and every later turn
//!   re-sends a byte-identical prefix that the KV cache still holds.
//!
//! Counting tokens and writing a summary is the model's work. Preparing a
//! request alternates between asking it and deciding, in this order:
//! [`Compactor::measure_start`], [`Compactor::measure_finish`],
//! [`Compactor::plan`], and where the plan is to cut, [`Compactor::settle`],
//! [`rewrite`], the two measuring steps again, and [`Compactor::conclude`].
use crate::json;
use crate::json::JsonTree;
use crate::message;
use crate::message::{Message, Msg};
use crate::scale;
use crate::text;
use std::collections::hash_map::DefaultHasher;
use std::collections::HashMap;
use std::hash::Hasher;
use vstd::prelude::*;
use vstd::std_specs::hash::DefaultHasherAdditionalSpecFns;

verus! {

/// Compact once the prompt passes 0.80 of the usable budget, as a 24-bit
/// significand over [`FRACTION_UNIT`].
pub const TRIGGER_FRACTION: u128 = 13421773;

/// How much of the budget one compaction swallows: 0.50. Boundaries sit at
/// multiples of this many tokens counted from the *start* of the conversation,
/// so the remainder left in front of the model after a compaction is roughly
/// the difference of the two fractions plus the summary.
pub const DROP_FRACTION: u128 = 8388608;

pub const FRACTION_UNIT: u128 = 16777216;

/// A request may reserve no more than this fraction of the context for its own
/// reply: 0.34, as a 24-bit significand over [`RESERVE_UNIT`]. `max_tokens` is
/// an upper bound clients set generously - 4096 of an 8192 context is a common
/// default - and honouring it literally would leave almost nothing for the
/// conversation.
pub const MAX_RESERVE_FRACTION: u128 = 11408507;

pub const RESERVE_UNIT: u128 = 33554432;

/// How much the summary is allowed to compress what it replaces. The summary
/// budget scales with the conversation being dropped rather than being a fixed
/// number of tokens: one compaction at a context of 8192 drops about 4,000
/// tokens, the same compaction at 65536 drops about 32,000, and a summary
/// sized for the first loses almost everything of the second.
pub const COMPRESSION_RATIO: usize = 8;

/// Floor, so a small compaction still gets room for the headings.
pub const MIN_SUMMARY_TOKENS: usize = 512;

/// Ceiling, because the summary is generated a token at a time and the whole
/// turn waits on it. At ~42 tok/s this is about a hundred seconds.
pub const MAX_SUMMARY_TOKENS: usize = 4096;

/// Chat-template overhead per message: role tags and turn delimiters, which
/// the tokenizer never sees because it is handed message content alone.
pub const PER_MESSAGE_OVERHEAD: usize = 8;

/// Slack for the template preamble and for the tokenizer disagreeing with
/// itself about a boundary.
pub const SAFETY_TOKENS: usize = 128;

/// Bounds on how long a summary may take, in seconds; the allowance itself is
/// derived from the work. Timing out does not merely cost time, it discards
/// the history being summarised.
pub const SUMMARY_TIMEOUT_FLOOR_S: u64 = 120;

pub const SUMMARY_TIMEOUT_CEILING_S: u64 = 600;

/// Token counts that are remembered before all are forgotten.
pub const COUNTS_KEPT: usize = 4096;

/// Separates the compacted history from whatever else is in the system message.
/// A second compaction finds the previous summary by this marker, folds it into
/// the new one and replaces it, so summaries never nest.
pub const MARKER: &'static str = "\n\n--- Earlier in this conversation (compacted) ---\n";

/// What the model is asked to do with the messages being dropped.
pub const SUMMARY_PROMPT: &'static str = "You are compacting the earlier part of a working session so it can be dropped from the context window. Write a dense factual record for whoever picks the work up with only your notes and the most recent messages.\n\nCover these headings, omitting any you have nothing for:\nGOAL - what the user is trying to build or find out, in their own terms.\nDECISIONS - choices made, and the reason each was made.\nSTATE - files, functions, commands, APIs and identifiers touched, with their exact names, and what was done to each.\nFACTS - specific values established: numbers, paths, versions, errors seen, results measured. Copy them exactly; they cannot be looked up again.\nOPEN - what was unresolved or explicitly deferred.\nNEXT - the step that was about to be taken.\n\nWrite only the record: no preamble, no closing remark, no offer to help. Prefer exact names and values over readable prose. This replaces the original text, so anything you leave out is lost.";

// ---------------------------------------------------------------- sizes

/// Tokens available to the conversation once the reply is accounted for.
pub open spec fn budget_of(ctx: nat, reserve: nat) -> nat {
    let cap = scale::share(ctx, MAX_RESERVE_FRACTION as nat, RESERVE_UNIT as nat);
    let kept = if reserve < cap {
        reserve
    } else {
        cap
    } + SAFETY_TOKENS as nat;
    if ctx > kept {
        (ctx - kept) as nat
    } else {
        0
    }
}

/// The prompt size that trips compaction.
pub open spec fn trigger_of(budget: nat) -> nat {
    scale::share(budget, TRIGGER_FRACTION as nat, FRACTION_UNIT as nat)
}

/// What one compaction swallows.
pub open spec fn dropped_of(budget: nat) -> nat {
    scale::share(budget, DROP_FRACTION as nat, FRACTION_UNIT as nat)
}

pub open spec fn clamped(n: nat, low: nat, high: nat) -> nat {
    if n < low {
        low
    } else if n > high {
        high
    } else {
        n
    }
}

/// Tokens the summary may use, for a conversation with this much budget.
pub open spec fn summary_tokens_of(budget: nat) -> nat {
    clamped(
        dropped_of(budget) / (COMPRESSION_RATIO as nat),
        MIN_SUMMARY_TOKENS as nat,
        MAX_SUMMARY_TOKENS as nat,
    )
}

/// The size a compaction cuts back to: half of the budget and the summary, at
/// single precision.
pub open spec fn cut_back_to(budget: nat) -> nat {
    scale::clipped(scale::nearest(scale::nearest(budget) + 2 * summary_tokens_of(budget)) / 2)
}

/// Tokens the summary may use, for a conversation with this much budget.
///
/// One compaction replaces roughly half of the budget, so the summary gets
/// that divided by the compression ratio - a fixed size would mean a 5:1
/// squeeze at a small context and a 43:1 squeeze at a large one.
pub fn summary_budget(budget: usize) -> (r: usize)
    ensures
        r == summary_tokens_of(budget as nat),
{
    let n: usize = scale::share_of(budget, DROP_FRACTION, FRACTION_UNIT) / COMPRESSION_RATIO;
    if n < MIN_SUMMARY_TOKENS {
        MIN_SUMMARY_TOKENS
    } else if n > MAX_SUMMARY_TOKENS {
        MAX_SUMMARY_TOKENS
    } else {
        n
    }
}

/// How long to allow for reading and writing so many tokens, in seconds.
pub open spec fn timeout_of(read: nat, written: nat) -> nat {
    clamped(
        60 + read / 40 + written / 4,
        SUMMARY_TIMEOUT_FLOOR_S as nat,
        SUMMARY_TIMEOUT_CEILING_S as nat,
    )
}

/// How long to allow for reading `transcript_tokens` and writing `max_tokens`,
/// in seconds.
///
/// Pessimistic rates on purpose - a timeout is a backstop against an upstream
/// that has stopped answering, not a schedule - but bounded, so a wedged
/// process cannot hold a turn open indefinitely.
pub fn summary_timeout(transcript_tokens: usize, max_tokens: usize) -> (r: u64)
    ensures
        r == clamped(
            60 + transcript_tokens as nat / 40 + max_tokens as nat / 4,
            SUMMARY_TIMEOUT_FLOOR_S as nat,
            SUMMARY_TIMEOUT_CEILING_S as nat,
        ),
        r == timeout_of(transcript_tokens as nat, max_tokens as nat),
{
    let seconds: u64 = 60 + transcript_tokens as u64 / 40 + max_tokens as u64 / 4;
    if seconds < SUMMARY_TIMEOUT_FLOOR_S {
        SUMMARY_TIMEOUT_FLOOR_S
    } else if seconds > SUMMARY_TIMEOUT_CEILING_S {
        SUMMARY_TIMEOUT_CEILING_S
    } else {
        seconds
    }
}

/// The squeeze of a summary: it may use an eighth of what is dropped, except
/// that a small one is given room and a large one is bounded.
pub proof fn law_the_squeeze_stays_near_the_ratio(budget: nat)
    ensures
        MIN_SUMMARY_TOKENS <= summary_tokens_of(budget) <= MAX_SUMMARY_TOKENS,
        summary_tokens_of(budget) < MAX_SUMMARY_TOKENS ==> summary_tokens_of(budget)
            * COMPRESSION_RATIO + COMPRESSION_RATIO > dropped_of(budget),
        summary_tokens_of(budget) > MIN_SUMMARY_TOKENS ==> summary_tokens_of(budget)
            * COMPRESSION_RATIO <= dropped_of(budget),
{
}

// ---------------------------------------------------------------- the marker

/// Where the client's part of a system message ends, and the summary a
/// previous compaction appended to it.
pub open spec fn split_at_marker(content: Seq<char>) -> (Seq<char>, Option<Seq<char>>) {
    match text::find(content, MARKER@) {
        Some(k) => (content.take(k), Some(content.skip(k + MARKER@.len()))),
        None => (content, None),
    }
}

/// A system message that carries a summary.
pub open spec fn with_summary(base: Seq<char>, summary: Seq<char>) -> Seq<char> {
    base + MARKER@ + summary
}

/// Split a system message into the part the client wrote and any summary a
/// previous compaction appended to it.
pub fn split_marker(content: &str) -> (r: (String, Option<String>))
    ensures
        r.0@ == split_at_marker(content@).0,
        r.1 is Some == split_at_marker(content@).1 is Some,
        r.1 matches Some(s) ==> split_at_marker(content@).1 == Some(s@),
{
    let v = text::chars_of(content);
    let m = text::chars_of(MARKER);
    match text::find_chars(v.as_slice(), m.as_slice()) {
        Some(k) => {
            let end: usize = v.len();
            let behind: usize = end - (end - k - m.len());
            let base = text::cut(v.as_slice(), 0, k);
            let rest = text::cut(v.as_slice(), behind, end);
            assert(base@ =~= content@.take(k as int));
            assert(rest@ =~= content@.skip(k + MARKER@.len()));
            (text::string_of(&base), Some(text::string_of(&rest)))
        },
        None => (content.to_owned(), None),
    }
}

fn join_marker(base: &str, summary: &str) -> (r: String)
    ensures
        r@ == with_summary(base@, summary@),
{
    let mut r = base.to_owned();
    r.append(MARKER);
    r.append(summary);
    r
}

proof fn lemma_marker()
    ensures
        MARKER@.len() == 51,
        MARKER@[0] == '\n',
        MARKER@[1] == '\n',
        MARKER@[50] == '\n',
        forall|k: int| 2 <= k < 50 ==> MARKER@[k] != '\n',
{
    reveal_strlit("\n\n--- Earlier in this conversation (compacted) ---\n");
}

/// A text that opens with two line feeds, closes with one and holds no other
/// does not stand in front of itself.
proof fn lemma_no_earlier(m: Seq<char>, base: Seq<char>, rest: Seq<char>, j: int)
    requires
        m.len() > 3,
        m[0] == '\n',
        m[1] == '\n',
        forall|k: int| 2 <= k < m.len() - 1 ==> m[k] != '\n',
        !text::has(base.push('\n'), m),
        0 <= j < base.len(),
    ensures
        !text::occurs_at(base + m + rest, m, j),
{
    let b = base.len() as int;
    let w = base + m + rest;
    let line = base.push('\n');
    if text::occurs_at(w, m, j) {
        let found = w.subrange(j, j + m.len());
        assert(found == m);
        assert(w[b] == m[0]);
        if j + m.len() <= b + 1 {
            assert(line.subrange(j, j + m.len()) =~= found);
            assert(text::occurs_at(line, m, j));
        } else {
            let k = b - j;
            assert(found[k] == w[b]);
            assert(m[k] == '\n');
            assert(k == 1);
            assert(found[2] == w[b + 1]);
            assert(w[b + 1] == m[1]);
            assert(m[2] != '\n');
        }
    }
}

/// A summary that was folded into a system message is found again, and what
/// the client wrote with it. The client's part must not itself read as if it
/// held the marker: neither as it stands, nor with the line feed that follows
/// it.
pub proof fn law_the_marker_round_trips(base: Seq<char>, summary: Seq<char>)
    requires
        !text::has(base.push('\n'), MARKER@),
    ensures
        split_at_marker(with_summary(base, summary)) == (base, Some(summary)),
{
    lemma_marker();
    lemma_round_trip(MARKER@, base, summary);
}

proof fn lemma_round_trip(m: Seq<char>, base: Seq<char>, rest: Seq<char>)
    requires
        m.len() > 3,
        m[0] == '\n',
        m[1] == '\n',
        forall|k: int| 2 <= k < m.len() - 1 ==> m[k] != '\n',
        !text::has(base.push('\n'), m),
    ensures
        text::find(base + m + rest, m) == Some(base.len() as int),
        (base + m + rest).take(base.len() as int) == base,
        (base + m + rest).skip((base.len() + m.len()) as int) == rest,
{
    let w = base + m + rest;
    let b = base.len() as int;
    lemma_parts(m, base, rest);
    assert forall|j: int| 0 <= j < b implies !#[trigger] text::occurs_at(w, m, j) by {
        lemma_no_earlier(m, base, rest, j);
    }
    text::lemma_find_is(w, m, b);
}

proof fn lemma_parts(m: Seq<char>, base: Seq<char>, rest: Seq<char>)
    ensures
        text::occurs_at(base + m + rest, m, base.len() as int),
        (base + m + rest).take(base.len() as int) == base,
        (base + m + rest).skip((base.len() + m.len()) as int) == rest,
{
    let w = base + m + rest;
    let b = base.len() as int;
    assert(w.subrange(b, b + m.len()) =~= m);
    assert(w.take(b) =~= base);
    assert(w.skip(b + m.len()) =~= rest);
}

/// Summaries never nest: a system message that carries one is split into the
/// client's part and the summary, and the client's part takes the next summary
/// in the place of the last.
pub proof fn law_summaries_never_nest(content: Seq<char>, summary: Seq<char>)
    requires
        text::has(content, MARKER@),
    ensures
        split_at_marker(with_summary(split_at_marker(content).0, summary)) == (
            split_at_marker(content).0,
            Some(summary),
        ),
{
    lemma_marker();
    let m = MARKER@;
    let base = split_at_marker(content).0;
    text::law_find_is_first(content, m);
    let k = text::find(content, m)->0;
    let found = content.subrange(k, k + m.len());
    assert(found[0] == content[k]);
    assert(base.push('\n') =~= content.take(k + 1));
    if text::has(base.push('\n'), m) {
        let j = choose|j: int| #[trigger] text::occurs_at(base.push('\n'), m, j);
        assert(content.subrange(j, j + m.len()) =~= base.push('\n').subrange(j, j + m.len()));
        assert(text::occurs_at(content, m, j));
    }
    law_the_marker_round_trips(base, summary);
}

// ---------------------------------------------------------------- the boundary

/// The tokens of the messages from `head` up to `i`.
pub open spec fn covered(counts: Seq<usize>, head: int, i: int) -> nat
    decreases i - head,
{
    if i <= head || i > counts.len() || head < 0 {
        0
    } else {
        covered(counts, head, i - 1) + counts[i - 1] as nat
    }
}

/// The tokens of all messages.
pub open spec fn total_of(counts: Seq<usize>) -> nat {
    covered(counts, 0, counts.len() as int)
}

/// The first place from `i` on where the messages before it, after the head,
/// come to `rung` tokens, or the end.
pub open spec fn reach(counts: Seq<usize>, head: int, i: int, rung: nat) -> int
    decreases counts.len() - i,
{
    if i >= counts.len() || covered(counts, head, i) >= rung {
        i
    } else {
        reach(counts, head, i + 1, rung)
    }
}

/// The first message of the user from `i` on, or the end.
pub open spec fn next_user(m: Seq<Message>, i: int) -> int
    decreases m.len() - i,
{
    if i >= m.len() || m[i].role == "user"@ {
        i
    } else {
        next_user(m, i + 1)
    }
}

/// Where a cut at `rung` tokens lands: on the first message of the user that
/// is not before them.
pub open spec fn landing(counts: Seq<usize>, m: Seq<Message>, head: int, rung: nat) -> int {
    next_user(m, reach(counts, head, head, rung))
}

/// How a conversation is cut.
pub struct Rule {
    pub head: int,
    /// The distance of the rungs.
    pub step: nat,
    /// What the summary itself will cost once it replaces the messages.
    pub cost: nat,
    /// What the rest and the summary may come to.
    pub trigger: nat,
}

/// What is left behind a cut fits, together with the summary.
pub open spec fn rest_fits(counts: Seq<usize>, rule: Rule, cut: int) -> bool {
    total_of(counts) - covered(counts, rule.head, cut) + rule.cost <= rule.trigger
}

/// The lowest rung from `rung` on behind which the rest fits, or nothing where
/// the end comes first.
pub open spec fn settled(counts: Seq<usize>, m: Seq<Message>, rule: Rule, rung: nat) -> Option<int>
    decreases
            if rung <= total_of(counts) {
                total_of(counts) + 1 - rung
            } else {
                0
            },
{
    let cut = landing(counts, m, rule.head, rung);
    if cut >= m.len() || rung > total_of(counts) || rule.step == 0 {
        None
    } else if rest_fits(counts, rule, cut) {
        Some(cut)
    } else {
        settled(counts, m, rule, rung + rule.step)
    }
}

/// Where to cut.
pub open spec fn boundary_of(counts: Seq<usize>, m: Seq<Message>, rule: Rule) -> int {
    match settled(counts, m, rule, rule.step) {
        Some(cut) => cut,
        None => if m.len() - 1 > rule.head {
            m.len() - 1
        } else {
            rule.head
        },
    }
}

/// The rule for a budget.
pub open spec fn rule_for(head: int, budget: nat, trigger: nat, summary_tokens: nat) -> Rule {
    Rule {
        head,
        step: if dropped_of(budget) < 1 {
            1
        } else {
            dropped_of(budget)
        },
        cost: summary_tokens + PER_MESSAGE_OVERHEAD as nat,
        trigger,
    }
}

proof fn lemma_covered_grows(counts: Seq<usize>, head: int, i: int, j: int)
    requires
        0 <= head <= i <= j <= counts.len(),
    ensures
        covered(counts, head, i) <= covered(counts, head, j),
    decreases j,
{
    if i < j {
        lemma_covered_grows(counts, head, i, j - 1);
    }
}

proof fn lemma_covered_within(counts: Seq<usize>, head: int, i: int)
    requires
        0 <= head <= i <= counts.len(),
    ensures
        covered(counts, 0, i) == covered(counts, 0, head) + covered(counts, head, i),
        covered(counts, head, i) <= total_of(counts),
    decreases i,
{
    if head < i {
        lemma_covered_within(counts, head, i - 1);
    }
    lemma_covered_grows(counts, 0, i, counts.len() as int);
}

proof fn lemma_reach(counts: Seq<usize>, head: int, i: int, rung: nat)
    requires
        0 <= head <= i <= counts.len(),
    ensures
        i <= reach(counts, head, i, rung) <= counts.len(),
        forall|j: int|
            i <= j < reach(counts, head, i, rung) ==> #[trigger] covered(counts, head, j) < rung,
        reach(counts, head, i, rung) < counts.len() ==> covered(
            counts,
            head,
            reach(counts, head, i, rung),
        ) >= rung,
    decreases counts.len() - i,
{
    if i < counts.len() && covered(counts, head, i) < rung {
        lemma_reach(counts, head, i + 1, rung);
    }
}

proof fn lemma_next_user(m: Seq<Message>, i: int)
    requires
        0 <= i <= m.len(),
    ensures
        i <= next_user(m, i) <= m.len(),
        forall|j: int| i <= j < next_user(m, i) ==> (#[trigger] m[j]).role != "user"@,
        next_user(m, i) < m.len() ==> m[next_user(m, i)].role == "user"@,
    decreases m.len() - i,
{
    if i < m.len() && m[i].role != "user"@ {
        lemma_next_user(m, i + 1);
    }
}

/// A cut lands behind the head, on a message of the user, with at least `rung`
/// tokens before it.
proof fn lemma_landing(counts: Seq<usize>, m: Seq<Message>, head: int, rung: nat)
    requires
        0 <= head <= m.len(),
        counts.len() == m.len(),
    ensures
        head <= landing(counts, m, head, rung) <= m.len(),
        landing(counts, m, head, rung) < m.len() ==> m[landing(counts, m, head, rung)].role
            == "user"@ && covered(counts, head, landing(counts, m, head, rung)) >= rung && rung
            <= total_of(counts),
{
    let r = reach(counts, head, head, rung);
    lemma_reach(counts, head, head, rung);
    lemma_next_user(m, r);
    let cut = landing(counts, m, head, rung);
    if cut < m.len() {
        lemma_covered_grows(counts, head, r, cut);
        lemma_covered_within(counts, head, cut);
    }
}

/// The landing for a rung can be looked for from the landing for a lower one.
proof fn lemma_landing_from(
    counts: Seq<usize>,
    m: Seq<Message>,
    head: int,
    low: nat,
    high: nat,
)
    requires
        0 <= head <= m.len(),
        counts.len() == m.len(),
        low <= high,
    ensures
        landing(counts, m, head, low) <= landing(counts, m, head, high),
        landing(counts, m, head, high) == next_user(
            m,
            reach(counts, head, landing(counts, m, head, low), high),
        ),
{
    let from = landing(counts, m, head, low);
    lemma_reach(counts, head, head, low);
    lemma_reach(counts, head, head, high);
    let a = reach(counts, head, head, low);
    let b = reach(counts, head, head, high);
    lemma_next_user(m, a);
    lemma_next_user(m, b);
    lemma_reach(counts, head, from, high);
    let c = reach(counts, head, from, high);
    lemma_next_user(m, c);
    if b >= from {
        if c < b {
            assert(covered(counts, head, c) < high);
        }
        if b < c {
            assert(covered(counts, head, b) < high);
        }
        assert(b == c);
    } else {
        lemma_covered_grows(counts, head, b, from);
        assert(c == from);
        if a > b {
            assert(covered(counts, head, b) < low);
        }
        assert(a <= b);
        let x = next_user(m, b);
        if x < from {
            assert(m[x].role != "user"@);
        }
        if from < x {
            assert(m[from].role != "user"@);
        }
        assert(x == from);
        assert(next_user(m, c) == from);
    }
}

/// Where to cut: everything from `head_len` up to the returned index is
/// summarised, everything from it onward is kept verbatim.
///
/// The obvious rule - keep the newest N tokens, summarise the rest - puts the
/// cut a fixed distance from the *end*, so every new turn shifts it and every
/// turn needs a fresh summary. This walks forward from the start instead and
/// cuts at a multiple of the drop fraction of the budget, which depends only on
/// messages that are already settled. Appending a turn does not move the cut,
/// so the same summary is reused and the prompt keeps the byte-identical prefix
/// that llama.cpp's KV cache is holding. Only when the tail has grown back past
/// the trigger does the cut advance to the next multiple, costing one summary.
pub fn boundary(
    counts: &[usize],
    messages: &[Msg],
    head_len: usize,
    budget: usize,
    trigger: usize,
    summary_tokens: usize,
) -> (r: usize)
    requires
        counts@.len() == messages@.len(),
        head_len <= messages@.len(),
        total_of(counts@) + rule_for(
            head_len as int,
            budget as nat,
            trigger as nat,
            summary_tokens as nat,
        ).step <= usize::MAX,
        total_of(counts@) + summary_tokens + PER_MESSAGE_OVERHEAD <= usize::MAX,
    ensures
        r == boundary_of(
            counts@,
            message::said(messages@),
            rule_for(head_len as int, budget as nat, trigger as nat, summary_tokens as nat),
        ),
        head_len <= r <= messages@.len(),
{
    let ghost m = message::said(messages@);
    let ghost c = counts@;
    let ghost head = head_len as int;
    let ghost rule = rule_for(head, budget as nat, trigger as nat, summary_tokens as nat);
    let dropped: usize = scale::share_of(budget, DROP_FRACTION, FRACTION_UNIT);
    let step: usize = if dropped < 1 {
        1
    } else {
        dropped
    };
    let summary_cost: usize = summary_tokens + PER_MESSAGE_OVERHEAD;
    let total: usize = sum(counts);
    let end: usize = messages.len();
    let mut cut: usize = head_len;
    let mut done: usize = 0;
    let mut rung: usize = step;
    loop
        invariant
            counts@.len() == messages@.len(),
            end == messages@.len(),
            m == message::said(messages@),
            c == counts@,
            head == head_len,
            rule == rule_for(head, budget as nat, trigger as nat, summary_tokens as nat),
            step == rule.step,
            step >= 1,
            summary_cost == rule.cost,
            total == total_of(c),
            total + step <= usize::MAX,
            total + summary_cost <= usize::MAX,
            head <= cut <= end,
            done == covered(c, head, cut as int),
            rung <= total + step,
            landing(c, m, head, rung as nat) == next_user(
                m,
                reach(c, head, cut as int, rung as nat),
            ),
            boundary_of(c, m, rule) == match settled(c, m, rule, rung as nat) {
                Some(cut) => cut,
                None => if m.len() - 1 > head {
                    m.len() - 1
                } else {
                    head
                },
            },
        decreases total + step - rung,
    {
        let ghost target = landing(c, m, head, rung as nat);
        while cut < end && done < rung
            invariant
                counts@.len() == messages@.len(),
                end == messages@.len(),
                m == message::said(messages@),
                c == counts@,
                head == head_len,
                head <= cut <= end,
                done == covered(c, head, cut as int),
                total_of(c) <= usize::MAX,
                target == next_user(m, reach(c, head, cut as int, rung as nat)),
            decreases end - cut,
        {
            proof {
                lemma_covered_within(c, head, cut + 1);
            }
            done = done + counts[cut];
            cut = cut + 1;
        }
        while cut < end && !text::same(messages[cut].role.as_str(), "user")
            invariant
                counts@.len() == messages@.len(),
                end == messages@.len(),
                m == message::said(messages@),
                c == counts@,
                head == head_len,
                head <= cut <= end,
                done == covered(c, head, cut as int),
                total_of(c) <= usize::MAX,
                target == next_user(m, cut as int),
            decreases end - cut,
        {
            proof {
                lemma_covered_within(c, head, cut + 1);
            }
            done = done + counts[cut];
            cut = cut + 1;
        }
        assert(target == cut);
        if cut >= end {
            return if end > 0 && end - 1 > head_len {
                end - 1
            } else {
                head_len
            };
        }
        proof {
            lemma_landing(c, m, head, rung as nat);
            lemma_covered_within(c, head, cut as int);
        }
        if total - done + summary_cost <= trigger {
            return cut;
        }
        proof {
            lemma_landing_from(c, m, head, rung as nat, (rung + step) as nat);
        }
        rung = rung + step;
    }
}

/// The sum of the counts.
pub fn sum(counts: &[usize]) -> (r: usize)
    requires
        total_of(counts@) <= usize::MAX,
    ensures
        r == total_of(counts@),
{
    let mut n: usize = 0;
    let mut i: usize = 0;
    while i < counts.len()
        invariant
            i <= counts@.len(),
            total_of(counts@) <= usize::MAX,
            n == covered(counts@, 0, i as int),
        decreases counts@.len() - i,
    {
        proof {
            lemma_covered_within(counts@, 0, i + 1);
        }
        n = n + counts[i];
        i = i + 1;
    }
    n
}

proof fn lemma_settled(counts: Seq<usize>, m: Seq<Message>, rule: Rule, rung: nat)
    requires
        0 <= rule.head <= m.len(),
        counts.len() == m.len(),
    ensures
        settled(counts, m, rule, rung) matches Some(cut) ==> {
            &&& landing(counts, m, rule.head, rung) <= cut < m.len()
            &&& rule.head <= cut
            &&& m[cut].role == "user"@
            &&& rest_fits(counts, rule, cut)
            &&& covered(counts, rule.head, cut) >= rung
        },
    decreases
            if rung <= total_of(counts) {
                total_of(counts) + 1 - rung
            } else {
                0
            },
{
    let cut = landing(counts, m, rule.head, rung);
    lemma_landing(counts, m, rule.head, rung);
    if cut < m.len() && rung <= total_of(counts) && rule.step > 0 && !rest_fits(counts, rule, cut) {
        lemma_settled(counts, m, rule, rung + rule.step);
        lemma_landing_from(counts, m, rule.head, rung, rung + rule.step);
    }
}

/// A cut that settles opens the kept tail on a message of the user, and what
/// is kept fits together with the summary.
pub proof fn law_the_tail_opens_on_a_question_and_fits(
    counts: Seq<usize>,
    m: Seq<Message>,
    rule: Rule,
)
    requires
        0 <= rule.head <= m.len(),
        counts.len() == m.len(),
    ensures
        settled(counts, m, rule, rule.step) matches Some(cut) ==> {
            &&& boundary_of(counts, m, rule) == cut
            &&& rule.head <= cut < m.len()
            &&& m[cut].role == "user"@
            &&& rest_fits(counts, rule, cut)
            &&& covered(counts, rule.head, cut) >= rule.step
        },
{
    lemma_settled(counts, m, rule, rule.step);
}

/// The message being answered is never summarised: behind the head, the last
/// message is always kept.
pub proof fn law_the_message_being_answered_is_kept(
    counts: Seq<usize>,
    m: Seq<Message>,
    rule: Rule,
)
    requires
        0 <= rule.head < m.len(),
        counts.len() == m.len(),
    ensures
        rule.head <= boundary_of(counts, m, rule) < m.len(),
{
    lemma_settled(counts, m, rule, rule.step);
}

proof fn lemma_longer_covered(c: Seq<usize>, d: Seq<usize>, head: int, i: int)
    requires
        0 <= i <= c.len(),
    ensures
        covered(c + d, head, i) == covered(c, head, i),
    decreases i - head,
{
    if head < i && head >= 0 {
        lemma_longer_covered(c, d, head, i - 1);
    }
}

proof fn lemma_longer_landing(
    c: Seq<usize>,
    d: Seq<usize>,
    m: Seq<Message>,
    n: Seq<Message>,
    head: int,
    rung: nat,
)
    requires
        0 <= head <= m.len(),
        c.len() == m.len(),
        d.len() == n.len(),
        landing(c, m, head, rung) < m.len(),
    ensures
        landing(c + d, m + n, head, rung) == landing(c, m, head, rung),
{
    let cut = landing(c, m, head, rung);
    let r = reach(c, head, head, rung);
    let s = reach(c + d, head, head, rung);
    lemma_reach(c, head, head, rung);
    lemma_reach(c + d, head, head, rung);
    lemma_next_user(m, r);
    assert(r < m.len());
    lemma_longer_covered(c, d, head, r);
    if s < r {
        lemma_longer_covered(c, d, head, s);
        assert(covered(c, head, s) < rung);
    }
    if r < s {
        assert(covered(c + d, head, r) < rung);
    }
    assert(r == s);
    lemma_next_user(m + n, r);
    let x = next_user(m + n, r);
    assert((m + n)[cut] == m[cut]);
    if x < cut {
        assert((m + n)[x] == m[x]);
        assert(m[x].role != "user"@);
    }
    if cut < x {
        assert((m + n)[cut].role != "user"@);
    }
}

proof fn lemma_longer_total(c: Seq<usize>, d: Seq<usize>)
    ensures
        total_of(c) <= total_of(c + d),
{
    lemma_longer_covered(c, d, 0, c.len() as int);
    lemma_covered_grows(c + d, 0, c.len() as int, (c + d).len() as int);
}

proof fn lemma_longer_settled(
    c: Seq<usize>,
    d: Seq<usize>,
    m: Seq<Message>,
    n: Seq<Message>,
    rule: Rule,
    rung: nat,
)
    requires
        0 <= rule.head <= m.len(),
        c.len() == m.len(),
        d.len() == n.len(),
        settled(c, m, rule, rung) is Some,
    ensures
        ({
            let cut = settled(c, m, rule, rung)->0;
            &&& rest_fits(c + d, rule, cut) ==> settled(c + d, m + n, rule, rung) == Some(cut)
            &&& settled(c + d, m + n, rule, rung) matches Some(later) ==> cut <= later
        }),
    decreases
            if rung <= total_of(c) {
                total_of(c) + 1 - rung
            } else {
                0
            },
{
    let here = landing(c, m, rule.head, rung);
    let cut = settled(c, m, rule, rung)->0;
    lemma_landing(c, m, rule.head, rung);
    lemma_longer_landing(c, d, m, n, rule.head, rung);
    lemma_longer_total(c, d);
    lemma_longer_covered(c, d, rule.head, here);
    if rest_fits(c, rule, here) {
        lemma_settled(c + d, m + n, rule, rung + rule.step);
        lemma_landing_from(c + d, m + n, rule.head, rung, rung + rule.step);
    } else {
        assert(!rest_fits(c + d, rule, here));
        lemma_longer_settled(c, d, m, n, rule, rung + rule.step);
    }
}

/// Appending messages does not move the cut, as long as what is kept still
/// fits: the same messages are replaced by the same summary.
pub proof fn law_the_cut_stays_while_the_tail_fits(
    counts: Seq<usize>,
    more_counts: Seq<usize>,
    m: Seq<Message>,
    more: Seq<Message>,
    rule: Rule,
)
    requires
        0 <= rule.head <= m.len(),
        counts.len() == m.len(),
        more_counts.len() == more.len(),
        settled(counts, m, rule, rule.step) is Some,
        rest_fits(counts + more_counts, rule, boundary_of(counts, m, rule)),
    ensures
        boundary_of(counts + more_counts, m + more, rule) == boundary_of(counts, m, rule),
{
    lemma_longer_settled(counts, more_counts, m, more, rule, rule.step);
}

/// Appending messages never moves the cut back.
pub proof fn law_the_cut_only_advances(
    counts: Seq<usize>,
    more_counts: Seq<usize>,
    m: Seq<Message>,
    more: Seq<Message>,
    rule: Rule,
)
    requires
        0 <= rule.head <= m.len(),
        counts.len() == m.len(),
        more_counts.len() == more.len(),
        settled(counts, m, rule, rule.step) is Some,
    ensures
        boundary_of(counts, m, rule) <= boundary_of(counts + more_counts, m + more, rule),
{
    lemma_longer_settled(counts, more_counts, m, more, rule, rule.step);
    lemma_settled(counts, m, rule, rule.step);
}

// ---------------------------------------------------------------- the summary

/// Stands in for history that could not be summarised.
pub open spec fn lost(dropped: nat) -> Seq<char> {
    text::decimal(dropped)
        + " earlier messages were dropped to fit the context window, and summarising them did not complete. Their content is not available: ask the user rather than assuming what they said."@
}

/// Stands in for history that could not be summarised. It says the content is
/// gone rather than inventing a gist of it, and it is never cached.
pub fn lost_note(dropped: usize) -> (r: String)
    ensures
        r@ == lost(dropped as nat),
{
    let mut r = text::number(dropped as u64);
    r.append(
        " earlier messages were dropped to fit the context window, and summarising them did not complete. Their content is not available: ask the user rather than assuming what they said.",
    );
    r
}

/// What the model is given of the messages being dropped: each under its role.
pub open spec fn spelled_out(m: Seq<Message>) -> Seq<char>
    decreases m.len(),
{
    if m.len() == 0 {
        Seq::empty()
    } else {
        spelled_out(m.drop_last()) + text::upper_text(m.last().role) + ":\n"@ + m.last().text()
            + "\n\n"@
    }
}

/// What the model is given to summarise: the summary so far, where there is
/// one, and the messages being dropped.
pub open spec fn transcript_of(prior: Option<Seq<char>>, m: Seq<Message>) -> Seq<char> {
    match prior {
        Some(p) => "[record of still earlier messages]\n"@ + p + "\n\n"@ + spelled_out(m),
        None => spelled_out(m),
    }
}

/// The text the model is given to summarise.
pub fn transcript(prior: Option<&str>, middle: &[Msg]) -> (r: String)
    ensures
        r@ == transcript_of(
            match prior {
                Some(p) => Some(p@),
                None => None,
            },
            message::said(middle@),
        ),
{
    let mut r = String::new();
    if let Some(p) = prior {
        r.append("[record of still earlier messages]\n");
        r.append(p);
        r.append("\n\n");
    }
    let ghost head = r@;
    let ghost all = message::said(middle@);
    let mut i: usize = 0;
    assert(all.take(0) =~= Seq::<Message>::empty());
    assert(head + spelled_out(all.take(0)) =~= head);
    while i < middle.len()
        invariant
            i <= middle@.len(),
            all == message::said(middle@),
            r@ == head + spelled_out(all.take(i as int)),
        decreases middle@.len() - i,
    {
        assert(all.take(i + 1).drop_last() =~= all.take(i as int));
        r.append(text::to_upper(middle[i].role.as_str()).as_str());
        r.append(":\n");
        r.append(middle[i].text().as_str());
        r.append("\n\n");
        assert(r@ =~= head + spelled_out(all.take(i + 1)));
        i = i + 1;
    }
    assert(all.take(i as int) =~= all);
    proof {
        if prior is Some {
            assert(head =~= "[record of still earlier messages]\n"@ + prior->0@ + "\n\n"@);
        } else {
            assert(r@ =~= spelled_out(all));
        }
    }
    r
}

/// A chat message as JSON.
pub open spec fn chat_tree(role: Seq<char>, content: Seq<char>) -> JsonTree {
    JsonTree::Object(
        json::without_fields().insert("role"@, JsonTree::Text(role)).insert(
            "content"@,
            JsonTree::Text(content),
        ),
    )
}

/// What is asked of the model for a summary.
pub open spec fn summary_request(
    transcript: Seq<char>,
    max_tokens: nat,
    temperature: JsonTree,
) -> JsonTree {
    JsonTree::Object(
        json::without_fields().insert(
            "messages"@,
            JsonTree::Array(
                seq![chat_tree("system"@, SUMMARY_PROMPT@), chat_tree("user"@, transcript)],
            ),
        ).insert("temperature"@, temperature).insert(
            "max_tokens"@,
            JsonTree::Int(max_tokens as int),
        ).insert("stream"@, JsonTree::Bool(false)),
    )
}

fn chat_message(role: &str, content: &str) -> (r: serde_json::Value)
    ensures
        json::json_tree(r) == chat_tree(role@, content@),
{
    let mut fields = json::no_fields();
    json::set_field(&mut fields, "role", json::text_value(role));
    json::set_field(&mut fields, "content", json::text_value(content));
    json::object_value(fields)
}

/// The request that asks the model for a summary.
pub fn summary_body(transcript: &str, max_tokens: usize, temperature: serde_json::Value) -> (r:
    serde_json::Value)
    ensures
        json::json_tree(r) == summary_request(
            transcript@,
            max_tokens as nat,
            json::json_tree(temperature),
        ),
{
    let mut asked: Vec<serde_json::Value> = Vec::new();
    asked.push(chat_message("system", SUMMARY_PROMPT));
    asked.push(chat_message("user", transcript));
    assert(json::json_trees(asked@) =~= seq![
        chat_tree("system"@, SUMMARY_PROMPT@),
        chat_tree("user"@, transcript@),
    ]);
    let mut fields = json::no_fields();
    json::set_field(&mut fields, "messages", json::array_value(asked));
    json::set_field(&mut fields, "temperature", temperature);
    json::set_field(&mut fields, "max_tokens", json::whole_value(max_tokens as u64));
    json::set_field(&mut fields, "stream", json::bool_value(false));
    json::object_value(fields)
}

/// The summary in a reply, without the white space around it; none where there
/// is no reply, or no text in it.
pub open spec fn summary_in(reply: Option<JsonTree>) -> Option<Seq<char>> {
    let written = match reply {
        Some(t) => match t.at("/choices/0/message/content"@) {
            Some(c) => match c.text() {
                Some(s) => text::trim(s),
                None => Seq::empty(),
            },
            None => Seq::empty(),
        },
        None => Seq::empty(),
    };
    if written.len() == 0 {
        None
    } else {
        Some(written)
    }
}

/// The summary in a reply to the request for one. `None` when the model could
/// not be reached or produced nothing, so that the result is not cached.
pub fn read_summary(reply: Option<&serde_json::Value>) -> (r: Option<String>)
    ensures
        r is Some == summary_in(
            match reply {
                Some(v) => Some(json::json_tree(*v)),
                None => None,
            },
        ) is Some,
        r matches Some(s) ==> summary_in(
            match reply {
                Some(v) => Some(json::json_tree(*v)),
                None => None,
            },
        ) == Some(s@),
{
    proof {
        reveal_strlit("/choices/0/message/content");
    }
    match reply {
        Some(v) => match json::pointer(v, "/choices/0/message/content") {
            Some(c) => match json::as_str(c) {
                Some(s) => {
                    let chars = text::chars_of(s);
                    let trimmed = text::trim_chars(chars.as_slice());
                    if trimmed.len() == 0 {
                        None
                    } else {
                        Some(text::string_of(&trimmed))
                    }
                },
                None => None,
            },
            None => None,
        },
        None => None,
    }
}

// ---------------------------------------------------------------- counting

/// A third of the characters, rounded up.
pub open spec fn estimate(s: Seq<char>) -> nat {
    ((s.len() + 2) / 3) as nat
}

/// The tokens a reply of the tokenizer counts, where it counts any.
pub open spec fn tokens_in(reply: JsonTree) -> Option<nat> {
    match reply.child("tokens"@) {
        Some(t) => match t.items() {
            Some(s) => Some(s.len()),
            None => None,
        },
        None => None,
    }
}

/// The number of tokens of a text: what the model's own tokenizer counts, or
/// an estimate if it cannot be reached or does not say. The estimate is
/// deliberately high: undercounting overflows the context, overcounting only
/// compacts a little sooner than needed.
pub fn token_count(reply: Option<&serde_json::Value>, content: &str) -> (r: usize)
    ensures
        r == match reply {
            Some(v) => match tokens_in(json::json_tree(*v)) {
                Some(n) => n,
                None => estimate(content@),
            },
            None => estimate(content@),
        },
{
    if let Some(v) = reply {
        if let Some(t) = json::get(v, "tokens") {
            if let Some(items) = json::as_array(t) {
                return items.len();
            }
        }
    }
    let n: usize = text::chars_of(content).len();
    if n % 3 == 0 {
        n / 3
    } else {
        n / 3 + 1
    }
}

// ---------------------------------------------------------------- digests

/// What is hashed of a text: its bytes, and a byte that no text holds.
pub open spec fn text_frames(s: Seq<char>) -> Seq<Seq<u8>> {
    seq![vstd::utf8::encode_utf8(s), seq![0xffu8]]
}

/// What is hashed of a message: its role and its text.
pub open spec fn message_frames(m: Message) -> Seq<Seq<u8>> {
    text_frames(m.role) + text_frames(m.text())
}

/// What is hashed of messages, one after another.
pub open spec fn messages_frames(m: Seq<Message>) -> Seq<Seq<u8>>
    decreases m.len(),
{
    if m.len() == 0 {
        Seq::empty()
    } else {
        messages_frames(m.drop_last()) + message_frames(m.last())
    }
}

/// What is hashed of an earlier summary, or of there being none.
pub open spec fn prior_frames(prior: Option<Seq<char>>) -> Seq<Seq<u8>> {
    match prior {
        Some(p) => seq![seq![1u8]] + text_frames(p),
        None => seq![seq![0u8]],
    }
}

/// What is hashed of the messages a summary replaces.
pub open spec fn replaced_frames(prior: Option<Seq<char>>, middle: Seq<Message>) -> Seq<Seq<u8>> {
    prior_frames(prior) + messages_frames(middle)
}

/// The digest of a message.
pub open spec fn message_digest(m: Message) -> u64 {
    DefaultHasher::spec_finish(message_frames(m))
}

/// The digest of the messages a summary replaces.
pub open spec fn replaced_digest(prior: Option<Seq<char>>, middle: Seq<Message>) -> u64 {
    DefaultHasher::spec_finish(replaced_frames(prior, middle))
}

fn hash_text(h: &mut DefaultHasher, s: &str)
    ensures
        final(h)@ == old(h)@ + text_frames(s@),
{
    let end: Vec<u8> = vec![0xffu8];
    h.write(s.as_bytes());
    h.write(end.as_slice());
    assert(end@ =~= seq![0xffu8]);
    assert(h@ =~= old(h)@ + text_frames(s@));
}

/// The digest of a message.
pub fn digest_msg(m: &Msg) -> (r: u64)
    ensures
        r == message_digest(m@),
{
    let mut h = DefaultHasher::new();
    hash_text(&mut h, m.role.as_str());
    hash_text(&mut h, m.text().as_str());
    assert(h@ =~= message_frames(m@));
    h.finish()
}

/// The text of an optional string.
pub open spec fn as_text(s: Option<&str>) -> Option<Seq<char>> {
    match s {
        Some(s) => Some(s@),
        None => None,
    }
}

/// The digest of the messages a summary replaces, and of the summary before
/// it.
pub fn digest_of(prior: Option<&str>, middle: &[Msg]) -> (r: u64)
    ensures
        r == replaced_digest(as_text(prior), message::said(middle@)),
{
    let mut h = DefaultHasher::new();
    match prior {
        Some(p) => {
            let one: Vec<u8> = vec![1u8];
            h.write(one.as_slice());
            hash_text(&mut h, p);
            assert(one@ =~= seq![1u8]);
            assert(h@ =~= prior_frames(Some(p@)));
        },
        None => {
            let zero: Vec<u8> = vec![0u8];
            h.write(zero.as_slice());
            assert(zero@ =~= seq![0u8]);
            assert(h@ =~= prior_frames(None));
        },
    }
    let ghost head = h@;
    let ghost all = message::said(middle@);
    let mut i: usize = 0;
    assert(all.take(0) =~= Seq::<Message>::empty());
    assert(head + messages_frames(all.take(0)) =~= head);
    while i < middle.len()
        invariant
            i <= middle@.len(),
            all == message::said(middle@),
            h@ == head + messages_frames(all.take(i as int)),
        decreases middle@.len() - i,
    {
        assert(all.take(i + 1).drop_last() =~= all.take(i as int));
        hash_text(&mut h, middle[i].role.as_str());
        hash_text(&mut h, middle[i].text().as_str());
        assert(h@ =~= head + messages_frames(all.take(i + 1)));
        i = i + 1;
    }
    assert(all.take(i as int) =~= all);
    h.finish()
}

/// The bytes of frames, one after another.
pub open spec fn flat(s: Seq<Seq<u8>>) -> Seq<u8>
    decreases s.len(),
{
    if s.len() == 0 {
        Seq::empty()
    } else {
        flat(s.drop_last()) + s.last()
    }
}

/// The roles and the texts of messages.
pub open spec fn spoken(m: Seq<Message>) -> Seq<(Seq<char>, Seq<char>)> {
    Seq::new(m.len(), |i: int| (m[i].role, m[i].text()))
}

proof fn lemma_flat_add(a: Seq<Seq<u8>>, b: Seq<Seq<u8>>)
    ensures
        flat(a + b) == flat(a) + flat(b),
    decreases b.len(),
{
    if b.len() == 0 {
        assert(a + b =~= a);
        assert(flat(a) + flat(b) =~= flat(a));
    } else {
        lemma_flat_add(a, b.drop_last());
        assert((a + b).drop_last() =~= a + b.drop_last());
        assert(flat(a + b) =~= flat(a) + flat(b));
    }
}

proof fn lemma_flat_one(x: Seq<u8>)
    ensures
        flat(seq![x]) == x,
{
    let f = seq![x];
    assert(f.drop_last() =~= Seq::<Seq<u8>>::empty());
    assert(flat(f.drop_last()) =~= Seq::<u8>::empty());
    assert(flat(f) =~= x);
}

proof fn lemma_flat_text(s: Seq<char>)
    ensures
        flat(text_frames(s)) == vstd::utf8::encode_utf8(s) + seq![0xffu8],
{
    let f = text_frames(s);
    assert(f.drop_last() =~= seq![vstd::utf8::encode_utf8(s)]);
    lemma_flat_one(vstd::utf8::encode_utf8(s));
}

proof fn lemma_no_terminator(bytes: Seq<u8>)
    requires
        vstd::utf8::valid_utf8(bytes),
    ensures
        forall|i: int| 0 <= i < bytes.len() ==> bytes[i] != 0xffu8,
    decreases bytes.len(),
{
    if bytes.len() > 0 {
        let n = vstd::utf8::length_of_first_scalar(bytes);
        let rest = vstd::utf8::pop_first_scalar(bytes);
        lemma_no_terminator(rest);
        assert forall|i: int| 0 <= i < bytes.len() implies bytes[i] != 0xffu8 by {
            if i >= n {
                assert(bytes[i] == rest[i - n]);
            }
        }
    }
}

/// Two texts that are each followed by the byte no text holds are told apart.
proof fn lemma_cut_text(a: Seq<char>, b: Seq<char>, x: Seq<u8>, y: Seq<u8>)
    requires
        vstd::utf8::encode_utf8(a) + seq![0xffu8] + x == vstd::utf8::encode_utf8(b) + seq![0xffu8]
            + y,
    ensures
        a == b,
        x == y,
{
    let p = vstd::utf8::encode_utf8(a);
    let q = vstd::utf8::encode_utf8(b);
    let l = p + seq![0xffu8] + x;
    let r = q + seq![0xffu8] + y;
    vstd::utf8::encode_utf8_valid_utf8(a);
    vstd::utf8::encode_utf8_valid_utf8(b);
    lemma_no_terminator(p);
    lemma_no_terminator(q);
    if p.len() < q.len() {
        assert(l[p.len() as int] == 0xffu8);
        assert(r[p.len() as int] == q[p.len() as int]);
    }
    if q.len() < p.len() {
        assert(r[q.len() as int] == 0xffu8);
        assert(l[q.len() as int] == p[q.len() as int]);
    }
    assert(p =~= l.take(p.len() as int));
    assert(q =~= r.take(p.len() as int));
    assert(x =~= l.skip((p.len() + 1) as int));
    assert(y =~= r.skip((p.len() + 1) as int));
    vstd::utf8::encode_utf8_decode_utf8(a);
    vstd::utf8::encode_utf8_decode_utf8(b);
}

spec fn message_bytes(m: Message) -> Seq<u8> {
    vstd::utf8::encode_utf8(m.role) + seq![0xffu8] + vstd::utf8::encode_utf8(m.text()) + seq![
        0xffu8,
    ]
}

proof fn lemma_flat_message(m: Message)
    ensures
        flat(message_frames(m)) == message_bytes(m),
{
    lemma_flat_add(text_frames(m.role), text_frames(m.text()));
    lemma_flat_text(m.role);
    lemma_flat_text(m.text());
    assert(flat(message_frames(m)) =~= message_bytes(m));
}

/// The frames of messages, looked at from the first.
proof fn lemma_flat_first(m: Seq<Message>)
    requires
        m.len() > 0,
    ensures
        flat(messages_frames(m)) == message_bytes(m[0]) + flat(messages_frames(m.drop_first())),
    decreases m.len(),
{
    lemma_flat_add(messages_frames(m.drop_last()), message_frames(m.last()));
    lemma_flat_message(m.last());
    if m.len() == 1 {
        assert(messages_frames(m.drop_last()) =~= Seq::<Seq<u8>>::empty());
        assert(messages_frames(m.drop_first()) =~= Seq::<Seq<u8>>::empty());
        assert(flat(messages_frames(m)) =~= message_bytes(m[0]));
        assert(message_bytes(m[0]) + Seq::<u8>::empty() =~= message_bytes(m[0]));
    } else {
        let rest = m.drop_first();
        lemma_flat_first(m.drop_last());
        assert(m.drop_last().drop_first() =~= rest.drop_last());
        lemma_flat_add(messages_frames(rest.drop_last()), message_frames(rest.last()));
        assert(flat(messages_frames(m)) =~= message_bytes(m[0]) + flat(messages_frames(rest)));
    }
}

proof fn lemma_messages_apart(m: Seq<Message>, n: Seq<Message>)
    requires
        flat(messages_frames(m)) == flat(messages_frames(n)),
    ensures
        spoken(m) == spoken(n),
    decreases m.len(),
{
    if m.len() > 0 {
        lemma_flat_first(m);
    }
    if n.len() > 0 {
        lemma_flat_first(n);
    }
    if m.len() == 0 || n.len() == 0 {
        assert(m.len() == n.len());
        assert(spoken(m) =~= spoken(n));
    } else {
        let (a, b) = (m[0], n[0]);
        let x = flat(messages_frames(m.drop_first()));
        let y = flat(messages_frames(n.drop_first()));
        let ax = vstd::utf8::encode_utf8(a.text()) + seq![0xffu8] + x;
        let by = vstd::utf8::encode_utf8(b.text()) + seq![0xffu8] + y;
        assert(message_bytes(a) + x =~= vstd::utf8::encode_utf8(a.role) + seq![0xffu8] + ax);
        assert(message_bytes(b) + y =~= vstd::utf8::encode_utf8(b.role) + seq![0xffu8] + by);
        lemma_cut_text(a.role, b.role, ax, by);
        lemma_cut_text(a.text(), b.text(), x, y);
        lemma_messages_apart(m.drop_first(), n.drop_first());
        assert(spoken(m) =~= seq![(a.role, a.text())] + spoken(m.drop_first()));
        assert(spoken(n) =~= seq![(b.role, b.text())] + spoken(n.drop_first()));
    }
}

/// A digest tracks exactly what it stands for: what is hashed is the same
/// bytes only for the same earlier summary and the same roles and texts in the
/// same order.
pub proof fn law_what_is_hashed_tells_conversations_apart(
    p: Option<Seq<char>>,
    q: Option<Seq<char>>,
    m: Seq<Message>,
    n: Seq<Message>,
)
    requires
        flat(replaced_frames(p, m)) == flat(replaced_frames(q, n)),
    ensures
        p == q,
        spoken(m) == spoken(n),
{
    lemma_flat_prior(p, m);
    lemma_flat_prior(q, n);
    let x = flat(messages_frames(m));
    let y = flat(messages_frames(n));
    let l = flat(replaced_frames(p, m));
    let r = flat(replaced_frames(q, n));
    assert(l[0] == if p is Some {
        1u8
    } else {
        0u8
    });
    assert(r[0] == if q is Some {
        1u8
    } else {
        0u8
    });
    match p {
        Some(s) => {
            let t = q->0;
            assert(l.skip(1) =~= vstd::utf8::encode_utf8(s) + seq![0xffu8] + x);
            assert(r.skip(1) =~= vstd::utf8::encode_utf8(t) + seq![0xffu8] + y);
            lemma_cut_text(s, t, x, y);
        },
        None => {
            assert(l.skip(1) =~= x);
            assert(r.skip(1) =~= y);
        },
    }
    lemma_messages_apart(m, n);
}

proof fn lemma_flat_prior(p: Option<Seq<char>>, m: Seq<Message>)
    ensures
        flat(replaced_frames(p, m)) == (match p {
            Some(s) => seq![1u8] + vstd::utf8::encode_utf8(s) + seq![0xffu8],
            None => seq![0u8],
        }) + flat(messages_frames(m)),
{
    lemma_flat_add(prior_frames(p), messages_frames(m));
    match p {
        Some(s) => {
            let first = seq![seq![1u8]];
            lemma_flat_add(first, text_frames(s));
            lemma_flat_text(s);
            lemma_flat_one(seq![1u8]);
            assert(flat(prior_frames(p)) =~= seq![1u8] + vstd::utf8::encode_utf8(s) + seq![0xffu8]);
        },
        None => {
            lemma_flat_one(seq![0u8]);
        },
    }
}

// ---------------------------------------------------------------- reporting

/// What one compaction did.
#[derive(Debug, Clone, Copy, PartialEq, Eq, Structural)]
pub struct Event {
    /// Prompt size that tripped the trigger.
    pub before_tokens: usize,
    /// Prompt size after the summary replaced the middle.
    pub after_tokens: usize,
    pub summarised_messages: usize,
    pub kept_messages: usize,
    /// True when this conversation was already summarised and the cached
    /// summary was reused - the common case, and the cheap one.
    pub reused: bool,
    pub took_ms: u64,
}

impl Event {
    /// A compaction as JSON.
    pub open spec fn tree(self) -> JsonTree {
        JsonTree::Object(
            json::without_fields().insert(
                "before_tokens"@,
                JsonTree::Int(self.before_tokens as int),
            ).insert("after_tokens"@, JsonTree::Int(self.after_tokens as int)).insert(
                "summarised_messages"@,
                JsonTree::Int(self.summarised_messages as int),
            ).insert("kept_messages"@, JsonTree::Int(self.kept_messages as int)).insert(
                "reused"@,
                JsonTree::Bool(self.reused),
            ).insert("took_ms"@, JsonTree::Int(self.took_ms as int)),
        )
    }

    /// A compaction as JSON.
    pub fn to_json(&self) -> (r: serde_json::Value)
        ensures
            json::json_tree(r) == self.tree(),
    {
        let mut m = json::no_fields();
        json::set_field(&mut m, "before_tokens", json::whole_value(self.before_tokens as u64));
        json::set_field(&mut m, "after_tokens", json::whole_value(self.after_tokens as u64));
        json::set_field(
            &mut m,
            "summarised_messages",
            json::whole_value(self.summarised_messages as u64),
        );
        json::set_field(&mut m, "kept_messages", json::whole_value(self.kept_messages as u64));
        json::set_field(&mut m, "reused", json::bool_value(self.reused));
        json::set_field(&mut m, "took_ms", json::whole_value(self.took_ms));
        json::object_value(m)
    }
}

/// What compaction has done so far.
#[derive(Debug, Clone, Copy, PartialEq, Eq, Structural)]
pub struct Stats {
    /// Summaries actually generated.
    pub summarised: u64,
    /// Turns served from a cached summary.
    pub reused: u64,
    /// Prompt tokens compaction has removed over the life of the process.
    pub reclaimed: u64,
    /// Size of the most recent prompt, and the budget it was measured against,
    /// so the console can draw how full the window currently is.
    pub last_prompt: u64,
    pub last_budget: u64,
    pub last: Option<Event>,
}

impl Default for Stats {
    fn default() -> (r: Stats)
        ensures
            r == (Stats {
                summarised: 0,
                reused: 0,
                reclaimed: 0,
                last_prompt: 0,
                last_budget: 0,
                last: None,
            }),
    {
        Stats {
            summarised: 0,
            reused: 0,
            reclaimed: 0,
            last_prompt: 0,
            last_budget: 0,
            last: None,
        }
    }
}

/// The outcome of preparing one request.
#[derive(Debug)]
pub enum Prepared {
    /// Fits as it stands. Carries the measured prompt size.
    AsIs { tokens: usize },
    /// Rewritten to fit.
    Compacted { messages: Vec<Msg>, event: Event },
}

/// Current settings and what compaction has done so far.
#[derive(Debug, Clone, Copy, PartialEq, Eq, Structural)]
pub struct Standing {
    pub enabled: bool,
    pub ctx: usize,
    /// Tokens a summary may use, against the last budget.
    pub summary_tokens: usize,
    pub stats: Stats,
}

impl Standing {
    /// The standing as JSON. The two fractions are those the trigger and the
    /// cut are taken by.
    pub open spec fn tree(self, trigger_fraction: JsonTree, drop_fraction: JsonTree) -> JsonTree {
        JsonTree::Object(
            json::without_fields().insert("enabled"@, JsonTree::Bool(self.enabled)).insert(
                "ctx"@,
                JsonTree::Int(self.ctx as int),
            ).insert("trigger_fraction"@, trigger_fraction).insert(
                "drop_fraction"@,
                drop_fraction,
            ).insert("summary_tokens"@, JsonTree::Int(self.summary_tokens as int)).insert(
                "prompt_tokens"@,
                JsonTree::Int(self.stats.last_prompt as int),
            ).insert("budget"@, JsonTree::Int(self.stats.last_budget as int)).insert(
                "summarised"@,
                JsonTree::Int(self.stats.summarised as int),
            ).insert("reused"@, JsonTree::Int(self.stats.reused as int)).insert(
                "tokens_reclaimed"@,
                JsonTree::Int(self.stats.reclaimed as int),
            ).insert(
                "last"@,
                match self.stats.last {
                    Some(e) => e.tree(),
                    None => JsonTree::Null,
                },
            ),
        )
    }

    /// The standing as JSON.
    pub fn to_json(
        &self,
        trigger_fraction: serde_json::Value,
        drop_fraction: serde_json::Value,
    ) -> (r: serde_json::Value)
        ensures
            json::json_tree(r) == self.tree(
                json::json_tree(trigger_fraction),
                json::json_tree(drop_fraction),
            ),
    {
        let mut m = json::no_fields();
        json::set_field(&mut m, "enabled", json::bool_value(self.enabled));
        json::set_field(&mut m, "ctx", json::whole_value(self.ctx as u64));
        json::set_field(&mut m, "trigger_fraction", trigger_fraction);
        json::set_field(&mut m, "drop_fraction", drop_fraction);
        json::set_field(&mut m, "summary_tokens", json::whole_value(self.summary_tokens as u64));
        json::set_field(&mut m, "prompt_tokens", json::whole_value(self.stats.last_prompt));
        json::set_field(&mut m, "budget", json::whole_value(self.stats.last_budget));
        json::set_field(&mut m, "summarised", json::whole_value(self.stats.summarised));
        json::set_field(&mut m, "reused", json::whole_value(self.stats.reused));
        json::set_field(&mut m, "tokens_reclaimed", json::whole_value(self.stats.reclaimed));
        json::set_field(
            &mut m,
            "last",
            match self.stats.last {
                Some(e) => e.to_json(),
                None => json::null_value(),
            },
        );
        json::object_value(m)
    }
}

// ---------------------------------------------------------------- compactor

/// Keeps conversations inside the context the model was loaded with.
#[derive(Debug)]
pub struct Compactor {
    /// The context the compute process was started with - the hard ceiling.
    ctx: usize,
    enabled: bool,
    /// Summaries by digest of the messages they replace.
    summaries: HashMap<u64, String>,
    /// Token counts by digest of the messages. A conversation re-sends its
    /// whole history every turn, so after the first turn only the new messages
    /// reach the tokenizer.
    counts: HashMap<u64, usize>,
    pub stats: Stats,
}

/// What is known of the sizes of messages before the tokenizer is asked.
#[derive(Debug)]
pub struct Measuring {
    pub digests: Vec<u64>,
    /// The counts that are known, zero for the others.
    pub counts: Vec<usize>,
    /// The messages whose counts are not known, in order.
    pub missing: Vec<usize>,
}

/// How a conversation that is too long is to be cut.
#[derive(Debug)]
pub struct Cut {
    /// Tokens of the whole conversation.
    pub total: usize,
    /// The messages of the system it opens with.
    pub head_len: usize,
    /// Where the kept messages begin.
    pub start: usize,
    /// What the client wrote into the last message of the system.
    pub system_base: String,
    /// The summary a previous compaction appended to it.
    pub prior: Option<String>,
    /// The digest of what is replaced.
    pub digest: u64,
    /// Tokens the summary may use.
    pub summary_tokens: usize,
    /// The summary, where it was written before.
    pub cached: Option<String>,
}

/// What is to be done with a request.
#[derive(Debug)]
pub enum Plan {
    /// Nothing. Carries the measured prompt size.
    AsIs { tokens: usize },
    Cut(Cut),
}

/// How many messages of the system a conversation opens with.
pub open spec fn heads(m: Seq<Message>) -> nat
    decreases m.len(),
{
    if m.len() > 0 && m[0].role == "system"@ {
        1 + heads(m.drop_first())
    } else {
        0
    }
}

/// The client's system prompt and the summary behind it, where there is a
/// message of the system.
pub open spec fn head_parts(m: Seq<Message>) -> (Seq<char>, Option<Seq<char>>) {
    if heads(m) > 0 {
        split_at_marker(m[heads(m) - 1].content)
    } else {
        (Seq::empty(), None)
    }
}

/// The text of an optional string.
pub open spec fn owned_text(s: Option<String>) -> Option<Seq<char>> {
    match s {
        Some(s) => Some(s@),
        None => None,
    }
}

/// What is to be done with a request: nothing where compaction is off or the
/// prompt is within the trigger, and nothing where there is nothing between
/// the system prompt and the tail to reclaim - the last exchange alone is over
/// budget then, rewriting cannot help, and the compute process is left to
/// report the overflow.
pub open spec fn planned(
    r: Plan,
    ctx: nat,
    enabled: bool,
    known: Map<u64, Seq<char>>,
    m: Seq<Message>,
    counts: Seq<usize>,
    reserve: nat,
) -> bool {
    let total = total_of(counts);
    let budget = budget_of(ctx, reserve);
    let rule = rule_for(heads(m) as int, budget, trigger_of(budget), summary_tokens_of(budget));
    let start = boundary_of(counts, m, rule);
    if !enabled || budget == 0 || total <= trigger_of(budget) || start == heads(m) {
        r matches Plan::AsIs { tokens } && tokens == total
    } else {
        &&& r matches Plan::Cut(c)
        &&& c.total == total
        &&& c.head_len == heads(m)
        &&& c.start == start
        &&& c.system_base@ == head_parts(m).0
        &&& owned_text(c.prior) == head_parts(m).1
        &&& c.digest == replaced_digest(head_parts(m).1, m.subrange(heads(m) as int, start))
        &&& c.summary_tokens == summary_tokens_of(budget)
        &&& owned_text(c.cached) == if known.dom().contains(c.digest) {
            Some(known[c.digest])
        } else {
            None
        }
    }
}

/// The sizes a plan is made from can be added up in machine words.
pub open spec fn plannable(ctx: nat, enabled: bool, counts: Seq<usize>, reserve: nat) -> bool {
    let budget = budget_of(ctx, reserve);
    let rule = rule_for(0, budget, trigger_of(budget), summary_tokens_of(budget));
    &&& total_of(counts) <= usize::MAX
    &&& enabled && budget > 0 && total_of(counts) > trigger_of(budget) ==> total_of(counts)
        + rule.step <= usize::MAX && total_of(counts) + rule.cost <= usize::MAX
}

/// A conversation with its middle replaced. Earlier messages of the system are
/// unchanged, then comes one that carries the client's system prompt and the
/// summary. Folding the summary into the system message rather than inserting
/// a free-standing one keeps user and assistant turns alternating, which some
/// chat templates require.
pub open spec fn rewritten(
    m: Seq<Message>,
    head_len: nat,
    start: int,
    base: Seq<char>,
    summary: Seq<char>,
) -> Seq<Message> {
    m.take(
        if head_len > 0 {
            head_len - 1
        } else {
            0
        },
    ) + seq![
        Message {
            role: "system"@,
            content: with_summary(base, summary),
            extra: json::without_fields(),
        },
    ] + m.skip(start)
}

/// The counts after the tokenizer was asked for the missing ones.
pub open spec fn remembered(
    cache: Map<u64, usize>,
    digests: Seq<u64>,
    missing: Seq<usize>,
    fetched: Seq<usize>,
    n: nat,
) -> Map<u64, usize>
    decreases n,
{
    if n == 0 {
        cache
    } else {
        remembered(cache, digests, missing, fetched, (n - 1) as nat).insert(
            digests[missing[n - 1] as int],
            fetched[n - 1],
        )
    }
}

pub open spec fn strictly_ascending(s: Seq<usize>) -> bool {
    forall|i: int, j: int| 0 <= i < j < s.len() ==> s[i] < s[j]
}

impl Measuring {
    /// The missing messages are messages, named once each.
    pub open spec fn wf(&self) -> bool {
        &&& self.counts@.len() == self.digests@.len()
        &&& strictly_ascending(self.missing@)
        &&& forall|k: int|
            0 <= k < self.missing@.len() ==> (#[trigger] self.missing@[k]) < self.counts@.len()
        &&& forall|i: int|
            0 <= i < self.counts@.len() ==> (#[trigger] self.counts@[i]) <= usize::MAX
                - PER_MESSAGE_OVERHEAD
    }
}

impl Compactor {
    pub closed spec fn context(&self) -> usize {
        self.ctx
    }

    pub closed spec fn is_enabled(&self) -> bool {
        self.enabled
    }

    /// What was done so far.
    pub closed spec fn so_far(&self) -> Stats {
        self.stats
    }

    /// The summaries that were written, by digest.
    pub closed spec fn known(&self) -> Map<u64, Seq<char>> {
        Map::new(|k: u64| self.summaries@.dom().contains(k), |k: u64| self.summaries@[k]@)
    }

    /// The counts that are remembered, by digest.
    pub closed spec fn counted(&self) -> Map<u64, usize> {
        self.counts@
    }

    /// No count is so large that the overhead of a message cannot be added.
    pub open spec fn wf(&self) -> bool {
        forall|d: u64| #[trigger]
            self.counted().dom().contains(d) ==> self.counted()[d] <= usize::MAX
                - PER_MESSAGE_OVERHEAD
    }

    /// The settings are as they were.
    pub open spec fn same_settings(&self, other: &Compactor) -> bool {
        self.context() == other.context() && self.is_enabled() == other.is_enabled()
    }

    /// Nothing summarised and nothing counted yet.
    pub fn new(ctx: usize, enabled: bool) -> (r: Compactor)
        ensures
            r.context() == ctx,
            r.is_enabled() == enabled,
            r.known() == Map::<u64, Seq<char>>::empty(),
            r.counted() == Map::<u64, usize>::empty(),
            r.wf(),
            r.so_far() == (Stats {
                summarised: 0,
                reused: 0,
                reclaimed: 0,
                last_prompt: 0,
                last_budget: 0,
                last: None,
            }),
    {
        let r = Compactor {
            ctx,
            enabled,
            summaries: HashMap::new(),
            counts: HashMap::new(),
            stats: Stats::default(),
        };
        assert(r.known() =~= Map::<u64, Seq<char>>::empty());
        r
    }

    /// Tokens available to the conversation once the reply is accounted for.
    pub fn budget(&self, reserve: usize) -> (r: usize)
        ensures
            r == budget_of(self.context() as nat, reserve as nat),
    {
        let cap: usize = scale::share_of(self.ctx, MAX_RESERVE_FRACTION, RESERVE_UNIT);
        let kept: usize = if reserve < cap {
            reserve
        } else {
            cap
        };
        if self.ctx > kept && self.ctx - kept > SAFETY_TOKENS {
            self.ctx - kept - SAFETY_TOKENS
        } else {
            0
        }
    }

    /// The prompt size that trips compaction, and the size it cuts back to,
    /// for a request reserving `reserve` tokens for its reply.
    pub fn thresholds(&self, reserve: usize) -> (r: (usize, usize))
        ensures
            r.0 == trigger_of(budget_of(self.context() as nat, reserve as nat)),
            r.1 == cut_back_to(budget_of(self.context() as nat, reserve as nat)),
    {
        let budget: usize = self.budget(reserve);
        let twice: u128 = scale::round_to_nearest(
            scale::round_to_nearest(budget as u128) + 2 * (summary_budget(budget) as u128),
        );
        (scale::share_of(budget, TRIGGER_FRACTION, FRACTION_UNIT), scale::clip(twice / 2))
    }

    /// Starts to measure messages: which counts are known, and which messages
    /// the tokenizer is to be asked about.
    pub fn measure_start(&self, messages: &[Msg]) -> (r: Measuring)
        requires
            self.wf(),
        ensures
            r.wf(),
            r.digests@.len() == messages@.len(),
            forall|i: int|
                0 <= i < messages@.len() ==> #[trigger] r.digests@[i] == message_digest(
                    messages@[i]@,
                ),
            forall|i: int|
                0 <= i < messages@.len() ==> #[trigger] r.counts@[i] == if self.counted().dom().contains(
                    r.digests@[i],
                ) {
                    self.counted()[r.digests@[i]]
                } else {
                    0
                },
            forall|i: int|
                0 <= i < messages@.len() ==> (r.missing@.contains(i as usize)
                    <==> !self.counted().dom().contains(#[trigger] r.digests@[i])),
    {
        broadcast use vstd::std_specs::hash::group_hash_axioms;

        let mut digests: Vec<u64> = Vec::new();
        let mut counts: Vec<usize> = Vec::new();
        let mut missing: Vec<usize> = Vec::new();
        let mut i: usize = 0;
        while i < messages.len()
            invariant
                self.wf(),
                i <= messages@.len(),
                digests@.len() == i,
                counts@.len() == i,
                strictly_ascending(missing@),
                forall|k: int| 0 <= k < missing@.len() ==> (#[trigger] missing@[k]) < i,
                forall|k: int|
                    0 <= k < i ==> (#[trigger] counts@[k]) <= usize::MAX - PER_MESSAGE_OVERHEAD,
                forall|k: int|
                    0 <= k < i ==> #[trigger] digests@[k] == message_digest(messages@[k]@),
                forall|k: int|
                    0 <= k < i ==> #[trigger] counts@[k] == if self.counted().dom().contains(
                        digests@[k],
                    ) {
                        self.counted()[digests@[k]]
                    } else {
                        0
                    },
                forall|k: int|
                    0 <= k < i ==> (missing@.contains(k as usize)
                        <==> !self.counted().dom().contains(#[trigger] digests@[k])),
            decreases messages@.len() - i,
        {
            broadcast use vstd::std_specs::hash::group_hash_axioms;

            let d: u64 = digest_msg(&messages[i]);
            let ghost before = missing@;
            let ghost before_digests = digests@;
            match self.counts.get(&d) {
                Some(n) => {
                    assert(self.counted().dom().contains(d));
                    counts.push(*n);
                },
                None => {
                    counts.push(0);
                    missing.push(i);
                },
            }
            digests.push(d);
            proof {
                assert forall|k: int| 0 <= k < i + 1 implies (missing@.contains(k as usize)
                    <==> !self.counted().dom().contains(#[trigger] digests@[k])) by {
                    if k < i {
                        assert(digests@[k] == before_digests[k]);
                        if before.contains(k as usize) {
                            let j = choose|j: int| 0 <= j < before.len() && before[j] == k as usize;
                            assert(missing@[j] == k as usize);
                        }
                        if missing@.contains(k as usize) {
                            let j = choose|j: int|
                                0 <= j < missing@.len() && missing@[j] == k as usize;
                            assert(before[j] == k as usize);
                        }
                    } else {
                        if missing@.len() > before.len() {
                            assert(missing@[before.len() as int] == k as usize);
                        }
                        if missing@.contains(k as usize) && missing@.len() == before.len() {
                            let j = choose|j: int|
                                0 <= j < missing@.len() && missing@[j] == k as usize;
                            assert(before[j] < i);
                        }
                    }
                }
            }
            i = i + 1;
        }
        Measuring { digests, counts, missing }
    }

    /// Finishes to measure messages: the token count of each, including
    /// template overhead. `fetched` are the counts of the missing messages, in
    /// their order.
    ///
    /// Counts are kept by content, so they cannot go stale, only accumulate.
    /// Forgetting the lot costs one round of questions to the tokenizer.
    pub fn measure_finish(&mut self, m: Measuring, fetched: &[usize]) -> (r: Vec<usize>)
        requires
            old(self).wf(),
            m.wf(),
            fetched@.len() == m.missing@.len(),
            forall|k: int|
                0 <= k < fetched@.len() ==> (#[trigger] fetched@[k]) <= usize::MAX
                    - PER_MESSAGE_OVERHEAD,
        ensures
            r@.len() == m.counts@.len(),
            forall|k: int|
                0 <= k < m.missing@.len() ==> r@[(#[trigger] m.missing@[k]) as int] == fetched@[k]
                    + PER_MESSAGE_OVERHEAD,
            forall|i: int|
                0 <= i < r@.len() && !m.missing@.contains(i as usize) ==> #[trigger] r@[i]
                    == m.counts@[i] + PER_MESSAGE_OVERHEAD,
            ({
                let all = remembered(
                    old(self).counted(),
                    m.digests@,
                    m.missing@,
                    fetched@,
                    fetched@.len(),
                );
                final(self).counted() == if fetched@.len() > 0 && all.dom().len() > COUNTS_KEPT {
                    Map::<u64, usize>::empty()
                } else {
                    all
                }
            }),
            final(self).wf(),
            final(self).same_settings(old(self)),
            final(self).known() == old(self).known(),
            final(self).so_far() == old(self).so_far(),
    {
        broadcast use vstd::std_specs::hash::group_hash_axioms;

        let mut out: Vec<usize> = m.counts;
        let ghost base = out@;
        let ghost cache = self.counts@;
        let ghost missing = m.missing@;
        let mut k: usize = 0;
        while k < fetched.len()
            invariant
                k <= fetched@.len(),
                missing == m.missing@,
                fetched@.len() == missing.len(),
                strictly_ascending(missing),
                base.len() == m.digests@.len(),
                out@.len() == base.len(),
                forall|j: int| 0 <= j < missing.len() ==> (#[trigger] missing[j]) < base.len(),
                forall|j: int|
                    0 <= j < fetched@.len() ==> (#[trigger] fetched@[j]) <= usize::MAX
                        - PER_MESSAGE_OVERHEAD,
                forall|i: int|
                    0 <= i < base.len() ==> (#[trigger] base[i]) <= usize::MAX
                        - PER_MESSAGE_OVERHEAD,
                forall|i: int|
                    0 <= i < out@.len() ==> (#[trigger] out@[i]) <= usize::MAX
                        - PER_MESSAGE_OVERHEAD,
                forall|j: int|
                    0 <= j < k ==> out@[(#[trigger] missing[j]) as int] == fetched@[j],
                forall|i: int|
                    0 <= i < out@.len() && !missing.contains(i as usize) ==> #[trigger] out@[i]
                        == base[i],
                self.counts@ == remembered(cache, m.digests@, missing, fetched@, k as nat),
                self.wf(),
                self.same_settings(old(self)),
                self.known() == old(self).known(),
                self.so_far() == old(self).so_far(),
            decreases fetched@.len() - k,
        {
            broadcast use vstd::std_specs::hash::group_hash_axioms;

            let i: usize = m.missing[k];
            let ghost before = out@;
            let ghost was = *self;
            out.set(i, fetched[k]);
            self.counts.insert(m.digests[i], fetched[k]);
            proof {
                assert forall|j: int| 0 <= j < k + 1 implies out@[(#[trigger] missing[j]) as int]
                    == fetched@[j] by {
                    if j < k {
                        assert(missing[j] < missing[k as int]);
                    }
                }
                assert forall|q: int|
                    0 <= q < out@.len() && !missing.contains(q as usize) implies #[trigger] out@[q]
                    == base[q] by {
                    if q == i {
                        assert(missing[k as int] == q as usize);
                    }
                }
                assert(self.known() =~= was.known());
                let new = m.digests@[i as int];
                assert(self.counted() =~= was.counted().insert(new, fetched@[k as int]));
                assert forall|d: u64| #[trigger] self.counted().dom().contains(d) implies
                    self.counted()[d] <= usize::MAX - PER_MESSAGE_OVERHEAD by {
                    if d != new {
                        assert(was.counted().dom().contains(d));
                    }
                }
            }
            k = k + 1;
        }
        if fetched.len() > 0 && self.counts.len() > COUNTS_KEPT {
            let ghost was = *self;
            self.counts.clear();
            assert(self.known() =~= was.known());
        }
        let ghost filled = out@;
        let mut i: usize = 0;
        while i < out.len()
            invariant
                i <= out@.len(),
                out@.len() == filled.len(),
                forall|j: int|
                    0 <= j < filled.len() ==> (#[trigger] filled[j]) <= usize::MAX
                        - PER_MESSAGE_OVERHEAD,
                forall|j: int|
                    0 <= j < i ==> #[trigger] out@[j] == filled[j] + PER_MESSAGE_OVERHEAD,
                forall|j: int| i <= j < out@.len() ==> #[trigger] out@[j] == filled[j],
            decreases out@.len() - i,
        {
            let n: usize = out[i] + PER_MESSAGE_OVERHEAD;
            out.set(i, n);
            i = i + 1;
        }
        out
    }

    /// Whether the sizes a plan is made from can be added up in machine words.
    pub fn is_plannable(&self, counts: &[usize], reserve: usize) -> (r: bool)
        ensures
            r == plannable(
                self.context() as nat,
                self.is_enabled(),
                counts@,
                reserve as nat,
            ),
    {
        let total: usize = match checked_sum(counts) {
            Some(n) => n,
            None => {
                return false;
            },
        };
        let budget: usize = self.budget(reserve);
        let trigger: usize = scale::share_of(budget, TRIGGER_FRACTION, FRACTION_UNIT);
        if !self.enabled || budget == 0 || total <= trigger {
            return true;
        }
        let dropped: usize = scale::share_of(budget, DROP_FRACTION, FRACTION_UNIT);
        let step: usize = if dropped < 1 {
            1
        } else {
            dropped
        };
        total.checked_add(step).is_some() && total.checked_add(
            summary_budget(budget) + PER_MESSAGE_OVERHEAD,
        ).is_some()
    }

    /// Decides what is to be done with a request. `counts` are the measured
    /// sizes of its messages, and `reserve` is what it asks for its reply.
    pub fn plan(&mut self, messages: &[Msg], counts: &[usize], reserve: usize) -> (r: Plan)
        requires
            counts@.len() == messages@.len(),
            plannable(
                old(self).context() as nat,
                old(self).is_enabled(),
                counts@,
                reserve as nat,
            ),
        ensures
            planned(
                r,
                old(self).context() as nat,
                old(self).is_enabled(),
                old(self).known(),
                message::said(messages@),
                counts@,
                reserve as nat,
            ),
            final(self).so_far() == (Stats {
                last_budget: budget_of(old(self).context() as nat, reserve as nat) as u64,
                last_prompt: total_of(counts@) as u64,
                ..old(self).so_far()
            }),
            final(self).same_settings(old(self)),
            final(self).known() == old(self).known(),
            final(self).counted() == old(self).counted(),
    {
        broadcast use vstd::std_specs::hash::group_hash_axioms;

        let ghost m = message::said(messages@);
        let total: usize = sum(counts);
        let budget: usize = self.budget(reserve);
        let trigger: usize = scale::share_of(budget, TRIGGER_FRACTION, FRACTION_UNIT);
        self.stats.last_budget = budget as u64;
        self.stats.last_prompt = total as u64;
        assert(self.known() =~= old(self).known());
        if !self.enabled || budget == 0 || total <= trigger {
            return Plan::AsIs { tokens: total };
        }
        let head_len: usize = count_heads(messages);
        let (system_base, prior) = if head_len > 0 {
            split_marker(messages[head_len - 1].content.as_str())
        } else {
            (String::new(), None)
        };
        let summary_tokens: usize = summary_budget(budget);
        let start: usize = boundary(counts, messages, head_len, budget, trigger, summary_tokens);
        if start == head_len {
            return Plan::AsIs { tokens: total };
        }
        let middle = vstd::slice::slice_subrange(messages, head_len, start);
        assert(message::said(middle@) =~= m.subrange(head_len as int, start as int));
        let digest: u64 = digest_of(
            match &prior {
                Some(p) => Some(p.as_str()),
                None => None,
            },
            middle,
        );
        let cached: Option<String> = match self.summaries.get(&digest) {
            Some(s) => Some(s.clone()),
            None => None,
        };
        Plan::Cut(
            Cut { total, head_len, start, system_base, prior, digest, summary_tokens, cached },
        )
    }

    /// Settles on the summary that replaces the middle, and whether it is one
    /// that was written before. `made` is what the model wrote, where it was
    /// asked and wrote anything.
    ///
    /// Only a real summary is cached. Caching the failure note would make one
    /// timeout permanent for that conversation: every later turn would find
    /// it, reuse it, and never try again - the whole history lost to a
    /// transient slow response.
    pub fn settle(&mut self, cut: &Cut, made: Option<String>) -> (r: (String, bool))
        requires
            cut.head_len <= cut.start,
        ensures
            r.1 == cut.cached is Some,
            match cut.cached {
                Some(s) => r.0@ == s@ && final(self).known() == old(self).known(),
                None => match made {
                    Some(s) => r.0@ == s@ && final(self).known() == old(self).known().insert(
                        cut.digest,
                        s@,
                    ),
                    None => r.0@ == lost((cut.start - cut.head_len) as nat) && final(self).known()
                        == old(self).known(),
                },
            },
            final(self).same_settings(old(self)),
            final(self).counted() == old(self).counted(),
            final(self).so_far() == old(self).so_far(),
    {
        broadcast use vstd::std_specs::hash::group_hash_axioms;

        match &cut.cached {
            Some(s) => (s.clone(), true),
            None => match made {
                Some(s) => {
                    let kept = s.clone();
                    self.summaries.insert(cut.digest, kept);
                    assert(self.known() =~= old(self).known().insert(cut.digest, s@));
                    (s, false)
                },
                None => (lost_note(cut.start - cut.head_len), false),
            },
        }
    }

    /// Records a compaction, and gives its outcome. `messages` is the rewritten
    /// conversation, `before_len` how many messages it had, and `after` its
    /// measured size.
    pub fn conclude(
        &mut self,
        cut: &Cut,
        messages: Vec<Msg>,
        before_len: usize,
        after: usize,
        reused: bool,
        took_ms: u64,
    ) -> (r: Prepared)
        requires
            cut.head_len <= cut.start <= before_len,
        ensures
            ({
                let event = Event {
                    before_tokens: cut.total,
                    after_tokens: after,
                    summarised_messages: (cut.start - cut.head_len) as usize,
                    kept_messages: (before_len - cut.start) as usize,
                    reused,
                    took_ms,
                };
                let was = old(self).so_far();
                &&& r == Prepared::Compacted { messages, event }
                &&& final(self).so_far() == Stats {
                    summarised: if reused {
                        was.summarised
                    } else {
                        was.summarised.wrapping_add(1)
                    },
                    reused: if reused {
                        was.reused.wrapping_add(1)
                    } else {
                        was.reused
                    },
                    reclaimed: was.reclaimed.wrapping_add(
                        if cut.total > after {
                            (cut.total - after) as u64
                        } else {
                            0
                        },
                    ),
                    last_prompt: after as u64,
                    last_budget: was.last_budget,
                    last: Some(event),
                }
            }),
            final(self).same_settings(old(self)),
            final(self).known() == old(self).known(),
            final(self).counted() == old(self).counted(),
    {
        let event = Event {
            before_tokens: cut.total,
            after_tokens: after,
            summarised_messages: cut.start - cut.head_len,
            kept_messages: before_len - cut.start,
            reused,
            took_ms,
        };
        if reused {
            self.stats.reused = self.stats.reused.wrapping_add(1);
        } else {
            self.stats.summarised = self.stats.summarised.wrapping_add(1);
        }
        let gone: usize = if cut.total > after {
            cut.total - after
        } else {
            0
        };
        self.stats.reclaimed = self.stats.reclaimed.wrapping_add(gone as u64);
        self.stats.last_prompt = after as u64;
        self.stats.last = Some(event);
        assert(self.known() =~= old(self).known());
        Prepared::Compacted { messages, event }
    }

    /// Current settings and what compaction has done so far.
    pub fn report(&self) -> (r: Standing)
        ensures
            r == (Standing {
                enabled: self.is_enabled(),
                ctx: self.context(),
                summary_tokens: summary_tokens_of(
                    if self.so_far().last_budget == 0 {
                        1
                    } else {
                        (self.so_far().last_budget as usize) as nat
                    },
                ) as usize,
                stats: self.so_far(),
            }),
    {
        let last: usize = if self.stats.last_budget == 0 {
            1
        } else {
            self.stats.last_budget as usize
        };
        Standing {
            enabled: self.enabled,
            ctx: self.ctx,
            summary_tokens: summary_budget(last),
            stats: self.stats,
        }
    }
}

/// The sum of the counts, where it is one of machine words.
fn checked_sum(counts: &[usize]) -> (r: Option<usize>)
    ensures
        r is Some == (total_of(counts@) <= usize::MAX),
        r matches Some(n) ==> n == total_of(counts@),
{
    let mut n: usize = 0;
    let mut i: usize = 0;
    while i < counts.len()
        invariant
            i <= counts@.len(),
            n == covered(counts@, 0, i as int),
        decreases counts@.len() - i,
    {
        proof {
            lemma_covered_within(counts@, 0, i + 1);
        }
        match n.checked_add(counts[i]) {
            Some(m) => {
                n = m;
            },
            None => {
                return None;
            },
        }
        i = i + 1;
    }
    Some(n)
}

fn count_heads(messages: &[Msg]) -> (r: usize)
    ensures
        r == heads(message::said(messages@)),
        r <= messages@.len(),
{
    let ghost m = message::said(messages@);
    let mut i: usize = 0;
    assert(m.skip(0) =~= m);
    while i < messages.len() && text::same(messages[i].role.as_str(), "system")
        invariant
            i <= messages@.len(),
            m == message::said(messages@),
            heads(m) == i + heads(m.skip(i as int)),
        decreases messages@.len() - i,
    {
        assert(m.skip(i as int).drop_first() =~= m.skip(i + 1));
        i = i + 1;
    }
    i
}

/// Rewrites a conversation: its middle is replaced by the summary.
pub fn rewrite(messages: &[Msg], cut: &Cut, summary: &str) -> (r: Vec<Msg>)
    requires
        cut.head_len <= cut.start <= messages@.len(),
    ensures
        message::said(r@) == rewritten(
            message::said(messages@),
            cut.head_len as nat,
            cut.start as int,
            cut.system_base@,
            summary@,
        ),
{
    let ghost m = message::said(messages@);
    let mut out: Vec<Msg> = Vec::new();
    let before: usize = if cut.head_len > 0 {
        cut.head_len - 1
    } else {
        0
    };
    let mut i: usize = 0;
    assert(message::said(out@) =~= m.take(0));
    while i < before
        invariant
            i <= before,
            before <= messages@.len(),
            m == message::said(messages@),
            message::said(out@) == m.take(i as int),
        decreases before - i,
    {
        let copy = messages[i].clone();
        assert(message::said(out@.push(copy)) =~= message::said(out@).push(copy@));
        assert(m.take(i as int).push(copy@) =~= m.take(i + 1));
        out.push(copy);
        i = i + 1;
    }
    let content = join_marker(cut.system_base.as_str(), summary);
    let system = Msg { role: "system".to_owned(), content, extra: json::no_fields() };
    let ghost head = m.take(before as int) + seq![system@];
    assert(message::said(out@.push(system)) =~= head);
    out.push(system);
    let mut k: usize = cut.start;
    assert(message::said(out@) =~= head + m.subrange(cut.start as int, k as int));
    while k < messages.len()
        invariant
            cut.start <= k <= messages@.len(),
            m == message::said(messages@),
            message::said(out@) == head + m.subrange(cut.start as int, k as int),
        decreases messages@.len() - k,
    {
        let copy = messages[k].clone();
        assert(message::said(out@.push(copy)) =~= message::said(out@).push(copy@));
        assert(m.subrange(cut.start as int, k as int).push(copy@) =~= m.subrange(
            cut.start as int,
            k + 1,
        ));
        assert((head + m.subrange(cut.start as int, k as int)).push(copy@) =~= head + m.subrange(
            cut.start as int,
            k + 1,
        ));
        out.push(copy);
        k = k + 1;
    }
    assert(m.subrange(cut.start as int, k as int) =~= m.skip(cut.start as int));
    out
}

proof fn lemma_longer_heads(m: Seq<Message>, more: Seq<Message>)
    requires
        heads(m) < m.len(),
    ensures
        heads(m + more) == heads(m),
        heads(m) > 0 ==> (m + more)[heads(m) - 1] == m[heads(m) - 1],
    decreases m.len(),
{
    assert((m + more)[0] == m[0]);
    if m[0].role == "system"@ {
        lemma_longer_heads(m.drop_first(), more);
        assert((m + more).drop_first() =~= m.drop_first() + more);
    }
}

/// While what is kept still fits, a conversation that grows is cut in the same
/// place, what is replaced has the same digest, and with the same summary the
/// rewritten conversation is the old one with the new messages behind it: the
/// prefix stays as it was.
pub proof fn law_the_prefix_stays_as_it_was(
    counts: Seq<usize>,
    more_counts: Seq<usize>,
    m: Seq<Message>,
    more: Seq<Message>,
    rule: Rule,
    summary: Seq<char>,
)
    requires
        counts.len() == m.len(),
        more_counts.len() == more.len(),
        rule.head == heads(m),
        settled(counts, m, rule, rule.step) is Some,
        rest_fits(counts + more_counts, rule, boundary_of(counts, m, rule)),
    ensures
        heads(m + more) == heads(m),
        head_parts(m + more) == head_parts(m),
        ({
            let cut = boundary_of(counts, m, rule);
            &&& boundary_of(counts + more_counts, m + more, rule) == cut
            &&& replaced_digest(head_parts(m + more).1, (m + more).subrange(rule.head, cut))
                == replaced_digest(head_parts(m).1, m.subrange(rule.head, cut))
            &&& rewritten(m + more, heads(m), cut, head_parts(m).0, summary) == rewritten(
                m,
                heads(m),
                cut,
                head_parts(m).0,
                summary,
            ) + more
        }),
{
    lemma_heads_are_system(m);
    lemma_settled(counts, m, rule, rule.step);
    law_the_cut_stays_while_the_tail_fits(counts, more_counts, m, more, rule);
    let cut = boundary_of(counts, m, rule);
    assert(heads(m) < m.len());
    lemma_longer_heads(m, more);
    assert((m + more).subrange(rule.head, cut) =~= m.subrange(rule.head, cut));
    let base = head_parts(m).0;
    assert(rewritten(m + more, heads(m), cut, base, summary) =~= rewritten(
        m,
        heads(m),
        cut,
        base,
        summary,
    ) + more);
}

/// The rule a request is cut by.
pub open spec fn request_rule(ctx: nat, m: Seq<Message>, reserve: nat) -> Rule {
    let budget = budget_of(ctx, reserve);
    rule_for(heads(m) as int, budget, trigger_of(budget), summary_tokens_of(budget))
}

/// A conversation is summarised once: while what is kept still fits, a later
/// turn of it finds the summary that was written for an earlier one, and the
/// prompt it makes is the earlier one with the new messages behind it.
pub proof fn law_a_conversation_is_summarised_once(
    earlier: Plan,
    later: Plan,
    ctx: nat,
    known: Map<u64, Seq<char>>,
    m: Seq<Message>,
    counts: Seq<usize>,
    more: Seq<Message>,
    more_counts: Seq<usize>,
    reserve: nat,
    summary: Seq<char>,
)
    requires
        counts.len() == m.len(),
        more_counts.len() == more.len(),
        planned(earlier, ctx, true, known, m, counts, reserve),
        earlier is Cut,
        planned(
            later,
            ctx,
            true,
            known.insert(earlier->Cut_0.digest, summary),
            m + more,
            counts + more_counts,
            reserve,
        ),
        ({
            let rule = request_rule(ctx, m, reserve);
            &&& settled(counts, m, rule, rule.step) is Some
            &&& rest_fits(counts + more_counts, rule, earlier->Cut_0.start as int)
        }),
    ensures
        later is Cut,
        ({
            let (a, b) = (earlier->Cut_0, later->Cut_0);
            &&& owned_text(b.cached) == Some(summary)
            &&& rewritten(m + more, b.head_len as nat, b.start as int, b.system_base@, summary)
                == rewritten(m, a.head_len as nat, a.start as int, a.system_base@, summary) + more
        }),
{
    let rule = request_rule(ctx, m, reserve);
    law_the_prefix_stays_as_it_was(counts, more_counts, m, more, rule, summary);
    lemma_longer_total(counts, more_counts);
}

proof fn lemma_heads_are_system(m: Seq<Message>)
    ensures
        heads(m) <= m.len(),
        forall|i: int| 0 <= i < heads(m) ==> (#[trigger] m[i]).role == "system"@,
        heads(m) < m.len() ==> m[heads(m) as int].role != "system"@,
    decreases m.len(),
{
    if m.len() > 0 && m[0].role == "system"@ {
        let rest = m.drop_first();
        lemma_heads_are_system(rest);
        assert forall|i: int| 0 <= i < heads(m) implies (#[trigger] m[i]).role == "system"@ by {
            if i > 0 {
                assert(rest[i - 1] == m[i]);
            }
        }
    }
}

proof fn lemma_heads_are(m: Seq<Message>, n: nat)
    requires
        n < m.len(),
        forall|i: int| 0 <= i < n ==> (#[trigger] m[i]).role == "system"@,
        m[n as int].role != "system"@,
    ensures
        heads(m) == n,
    decreases n,
{
    if n > 0 {
        assert(m[0].role == "system"@);
        let rest = m.drop_first();
        assert forall|i: int| 0 <= i < n - 1 implies (#[trigger] rest[i]).role == "system"@ by {
            assert(rest[i] == m[i + 1]);
        }
        lemma_heads_are(rest, (n - 1) as nat);
    }
}

/// A second compaction finds the summary of the first, whether or not the
/// client sent a system prompt: however a rewritten conversation goes on, its
/// system message is split into what the client wrote and that summary. What
/// the client wrote must not itself read as if it held the marker, with the
/// line feed that follows it, and the tail that is kept must not open on a
/// system message, which would be read as the last of the client's own.
pub proof fn law_a_second_compaction_finds_the_first(
    m: Seq<Message>,
    start: int,
    summary: Seq<char>,
    more: Seq<Message>,
)
    requires
        heads(m) <= start < m.len(),
        m[start].role != "system"@,
        heads(m) > 0 ==> !text::has(head_parts(m).0.push('\n'), MARKER@),
    ensures
        ({
            let r = rewritten(m, heads(m), start, head_parts(m).0, summary) + more;
            &&& heads(r) == if heads(m) > 0 {
                heads(m)
            } else {
                1
            }
            &&& head_parts(r) == (head_parts(m).0, Some(summary))
        }),
{
    let base = head_parts(m).0;
    let r = rewritten(m, heads(m), start, base, summary) + more;
    let n = if heads(m) > 0 {
        heads(m)
    } else {
        1
    };
    lemma_heads_are_system(m);
    assert forall|i: int| 0 <= i < n implies (#[trigger] r[i]).role == "system"@ by {
        if i < n - 1 {
            assert(r[i] == m[i]);
        }
    }
    assert(r[n as int] == m[start]);
    lemma_heads_are(r, n);
    if text::has(base.push('\n'), MARKER@) {
        lemma_marker();
        let j = choose|j: int| #[trigger] text::occurs_at(base.push('\n'), MARKER@, j);
        assert(base.push('\n').len() == 1);
    }
    law_the_marker_round_trips(base, summary);
}

/// What is kept of a conversation is kept verbatim, with everything its
/// messages carry: the messages of the system before the last, and everything
/// from the cut on.
pub proof fn law_what_is_kept_is_verbatim(
    m: Seq<Message>,
    head_len: nat,
    start: int,
    base: Seq<char>,
    summary: Seq<char>,
)
    requires
        head_len <= start <= m.len(),
    ensures
        ({
            let r = rewritten(m, head_len, start, base, summary);
            let before = if head_len > 0 {
                head_len - 1
            } else {
                0
            };
            &&& r.len() == before + 1 + (m.len() - start)
            &&& forall|i: int| 0 <= i < before ==> #[trigger] r[i] == m[i]
            &&& forall|i: int|
                0 <= i < m.len() - start ==> r[before + 1 + i] == #[trigger] m[start + i]
        }),
{
}

// ---------------------------------------------------------------- what the sizes come to

/// Compaction waits until four fifths of the budget are used, and takes half of
/// the budget at once: to one part in a million, and cut to a token.
pub proof fn law_compaction_waits_for_four_fifths_and_takes_half(budget: nat)
    requires
        budget <= usize::MAX,
    ensures
        1_000_000 * trigger_of(budget) <= 800_001 * budget,
        799_999 * budget <= 1_000_000 * (trigger_of(budget) + 1),
        1_000_000 * dropped_of(budget) <= 500_001 * budget,
        499_999 * budget <= 1_000_000 * (dropped_of(budget) + 1),
        budget < 16_777_216 ==> 2 * dropped_of(budget) <= budget < 2 * dropped_of(budget) + 2,
{
    scale::law_a_share_is_its_fraction(budget, 13421773, 16777216);
    scale::law_a_share_is_its_fraction(budget, 8388608, 16777216);
    if budget < 16_777_216 {
        scale::law_small_counts_are_exact(budget);
        lemma_half_is_exact(budget);
    }
}

proof fn lemma_half_is_exact(n: nat)
    requires
        n < 16_777_216,
    ensures
        scale::nearest(n * 8388608) == n * 8388608,
{
    scale::lemma_power_of_two_keeps(n, 23);
    assert(scale::two_to(23) == 8388608) by {
        reveal_with_fuel(scale::two_to, 24);
    }
}

/// A request keeps what it asks for its reply, but no more than about a third of
/// the context, and a little slack is kept beside it: the conversation has the
/// rest.
pub proof fn law_the_conversation_has_what_the_reply_leaves(ctx: nat, reserve: nat)
    requires
        ctx <= usize::MAX,
    ensures
        budget_of(ctx, reserve) <= ctx,
        ctx <= 128 ==> budget_of(ctx, reserve) == 0,
        1_000_000 * (reserve + 1) <= 339_999 * ctx && reserve + 128 < ctx ==> budget_of(
            ctx,
            reserve,
        ) + reserve + 128 == ctx,
        budget_of(ctx, reserve) > 0 && reserve * 1_000_000 > 340_001 * ctx ==> {
            &&& 1_000_000 * (budget_of(ctx, reserve) + 128) >= 659_999 * ctx
            &&& 1_000_000 * (budget_of(ctx, reserve) + 127) <= 660_001 * ctx
        },
        budget_of(ctx, reserve) == 0 ==> 1_000_000 * (ctx - 128) <= 340_001 * ctx,
{
    scale::law_a_share_is_its_fraction(ctx, 11408507, 33554432);
}

/// More asked for the reply never leaves more to the conversation.
pub proof fn law_a_longer_reply_leaves_less(ctx: nat, less: nat, more: nat)
    requires
        less <= more,
    ensures
        budget_of(ctx, more) <= budget_of(ctx, less),
        budget_of(ctx, less) - budget_of(ctx, more) <= more - less,
{
}

/// A summary is an eighth of what one compaction takes, between 512 and 4096
/// tokens.
pub proof fn law_a_summary_is_an_eighth_of_what_it_replaces(budget: nat)
    ensures
        512 <= summary_tokens_of(budget) <= 4096,
        dropped_of(budget) <= 4096 ==> summary_tokens_of(budget) == 512,
        dropped_of(budget) >= 32768 ==> summary_tokens_of(budget) == 4096,
        4096 <= dropped_of(budget) <= 32768 ==> 8 * summary_tokens_of(budget) <= dropped_of(budget)
            < 8 * summary_tokens_of(budget) + 8,
{
}

/// What a compaction cuts back to is half of the budget and the summary.
pub proof fn law_a_compaction_cuts_back_to_half_and_the_summary(budget: nat)
    requires
        budget <= 16_000_000,
    ensures
        2 * cut_back_to(budget) <= budget + 2 * summary_tokens_of(budget) < 2 * cut_back_to(budget)
            + 2,
{
    scale::law_small_counts_are_exact(budget);
    scale::law_small_counts_are_exact(budget + 2 * summary_tokens_of(budget));
}

/// Waiting for a summary: a minute, a second for every forty tokens that are
/// read and for every four that are written, and in all between two minutes and
/// ten.
pub proof fn law_the_wait_grows_with_the_work(read: nat, written: nat)
    ensures
        120 <= timeout_of(read, written) <= 600,
        120 < timeout_of(read, written) < 600 ==> {
            &&& 40 * (timeout_of(read, written) - 60) <= read + 10 * written
            &&& read + 10 * written < 40 * (timeout_of(read, written) - 58)
        },
        timeout_of(read, written) == 120 ==> read + 10 * written < 40 * 62,
        timeout_of(read, written) == 600 ==> read + 10 * written >= 40 * 540,
{
}

/// A text is taken to have a token for every three characters, never fewer.
pub proof fn law_an_estimate_is_not_too_low(s: Seq<char>)
    ensures
        s.len() <= 3 * estimate(s) < s.len() + 3,
{
}

/// A reply of the tokenizer counts as many tokens as it lists.
pub proof fn law_listed_tokens_are_counted(fields: Map<Seq<char>, JsonTree>, tokens: Seq<JsonTree>)
    ensures
        tokens_in(JsonTree::Object(fields.insert("tokens"@, JsonTree::Array(tokens)))) == Some(
            tokens.len(),
        ),
        tokens_in(JsonTree::Object(fields.remove("tokens"@))) is None,
{
}

// ---------------------------------------------------------------- what the cut is

/// Tokens add up message by message.
pub proof fn law_what_is_covered_is_a_sum(counts: Seq<usize>, head: int, i: int)
    requires
        0 <= head <= i <= counts.len(),
    ensures
        covered(counts, head, i) == counts.subrange(head, i).fold_left(
            0int,
            |n: int, c: usize| n + c,
        ),
        total_of(counts) == counts.fold_left(0int, |n: int, c: usize| n + c),
    decreases i,
{
    lemma_covered_is_a_sum(counts, head, i);
    lemma_covered_is_a_sum(counts, 0, counts.len() as int);
    assert(counts.subrange(0, counts.len() as int) =~= counts);
}

proof fn lemma_covered_is_a_sum(counts: Seq<usize>, head: int, i: int)
    requires
        0 <= head <= i <= counts.len(),
    ensures
        covered(counts, head, i) == counts.subrange(head, i).fold_left(
            0int,
            |n: int, c: usize| n + c,
        ),
    decreases i,
{
    if head < i {
        lemma_covered_is_a_sum(counts, head, i - 1);
        assert(counts.subrange(head, i).drop_last() =~= counts.subrange(head, i - 1));
    }
}

/// Message `j` is the first of the user that has at least `rung` tokens between
/// the head and itself.
pub open spec fn first_question_past(
    counts: Seq<usize>,
    m: Seq<Message>,
    head: int,
    rung: nat,
    j: int,
) -> bool {
    &&& head <= j < m.len()
    &&& m[j].role == "user"@
    &&& covered(counts, head, j) >= rung
    &&& forall|i: int|
        head <= i < j && #[trigger] covered(counts, head, i) >= rung ==> m[i].role != "user"@
}

proof fn lemma_first_question(counts: Seq<usize>, m: Seq<Message>, head: int, rung: nat, j: int)
    requires
        0 <= head <= m.len(),
        counts.len() == m.len(),
    ensures
        first_question_past(counts, m, head, rung, j) <==> (j < m.len() && j == landing(
            counts,
            m,
            head,
            rung,
        )),
{
    let r = reach(counts, head, head, rung);
    let cut = landing(counts, m, head, rung);
    lemma_landing(counts, m, head, rung);
    lemma_reach(counts, head, head, rung);
    lemma_next_user(m, r);
    if first_question_past(counts, m, head, rung, j) {
        if j < r {
            assert(covered(counts, head, j) < rung);
        }
        if cut < j {
            assert(covered(counts, head, cut) >= rung);
        }
    }
    if j < m.len() && j == cut {
        assert forall|i: int|
            head <= i < j && #[trigger] covered(counts, head, i) >= rung implies m[i].role
            != "user"@ by {
            if i < r {
                assert(covered(counts, head, i) < rung);
            }
        }
    }
}

proof fn lemma_every_rung(counts: Seq<usize>, m: Seq<Message>, rule: Rule, n: nat)
    requires
        0 <= rule.head <= m.len(),
        counts.len() == m.len(),
        rule.step > 0,
    ensures
        match settled(counts, m, rule, n * rule.step) {
            Some(cut) => {
                &&& exists|k: nat|
                    k >= n && cut == #[trigger] landing(counts, m, rule.head, k * rule.step)
                &&& cut < m.len()
                &&& rest_fits(counts, rule, cut)
                &&& forall|k: nat|
                    k >= n && (#[trigger] landing(counts, m, rule.head, k * rule.step)) < m.len()
                        && rest_fits(counts, rule, landing(counts, m, rule.head, k * rule.step))
                        ==> cut <= landing(counts, m, rule.head, k * rule.step)
            },
            None => forall|k: nat|
                k >= n && (#[trigger] landing(counts, m, rule.head, k * rule.step)) < m.len()
                    ==> !rest_fits(counts, rule, landing(counts, m, rule.head, k * rule.step)),
        },
    decreases
            if n * rule.step <= total_of(counts) {
                total_of(counts) + 1 - n * rule.step
            } else {
                0
            },
{
    let rung = n * rule.step;
    let cut = landing(counts, m, rule.head, rung);
    lemma_landing(counts, m, rule.head, rung);
    assert forall|k: nat| k >= n implies cut <= #[trigger] landing(
        counts,
        m,
        rule.head,
        k * rule.step,
    ) by {
        assert(rung <= k * rule.step) by (nonlinear_arith)
            requires
                n <= k,
                rung == n * rule.step,
        ;
        lemma_landing_from(counts, m, rule.head, rung, k * rule.step);
    }
    if cut >= m.len() {
        assert forall|k: nat| k >= n implies (#[trigger] landing(
            counts,
            m,
            rule.head,
            k * rule.step,
        )) >= m.len() by {}
    } else if rest_fits(counts, rule, cut) {
        assert(cut == landing(counts, m, rule.head, n * rule.step));
    } else {
        assert((n + 1) * rule.step == rung + rule.step) by (nonlinear_arith)
            requires
                rung == n * rule.step,
        ;
        lemma_every_rung(counts, m, rule, n + 1);
        assert forall|k: nat|
            k >= n && (#[trigger] landing(counts, m, rule.head, k * rule.step)) < m.len()
                && rest_fits(
                counts,
                rule,
                landing(counts, m, rule.head, k * rule.step),
            ) implies k >= n + 1 by {
            if k == n {
                assert(landing(counts, m, rule.head, k * rule.step) == cut);
            }
        }
    }
}

/// The cut is the earliest that will do: where a multiple of the step has its
/// first question in the conversation, and what lies behind that fits together
/// with the summary, the cut is not behind it.
pub proof fn law_the_cut_is_the_earliest_that_fits(
    counts: Seq<usize>,
    m: Seq<Message>,
    rule: Rule,
    k: nat,
    j: int,
)
    requires
        0 <= rule.head <= m.len(),
        counts.len() == m.len(),
        rule.step > 0,
        k >= 1,
        first_question_past(counts, m, rule.head, k * rule.step, j),
        total_of(counts) - covered(counts, rule.head, j) + rule.cost <= rule.trigger,
    ensures
        boundary_of(counts, m, rule) <= j,
{
    assert(1 * rule.step == rule.step);
    lemma_every_rung(counts, m, rule, 1);
    lemma_first_question(counts, m, rule.head, k * rule.step, j);
}

/// The cut is the first question past a multiple of the step, and what lies
/// behind it fits together with the summary; only where no multiple has such a
/// question is everything but the last message given up.
pub proof fn law_the_cut_is_on_a_multiple_or_nothing_fits(
    counts: Seq<usize>,
    m: Seq<Message>,
    rule: Rule,
)
    requires
        0 <= rule.head <= m.len(),
        counts.len() == m.len(),
        rule.step > 0,
    ensures
        ({
            let cut = boundary_of(counts, m, rule);
            ||| {
                &&& exists|k: nat|
                    k >= 1 && #[trigger] first_question_past(
                        counts,
                        m,
                        rule.head,
                        k * rule.step,
                        cut,
                    )
                &&& total_of(counts) - covered(counts, rule.head, cut) + rule.cost <= rule.trigger
            }
            ||| {
                &&& forall|k: nat, j: int|
                    k >= 1 && #[trigger] first_question_past(
                        counts,
                        m,
                        rule.head,
                        k * rule.step,
                        j,
                    ) ==> total_of(counts) - covered(counts, rule.head, j) + rule.cost
                        > rule.trigger
                &&& cut == if m.len() - 1 > rule.head {
                    m.len() - 1
                } else {
                    rule.head
                }
            }
        }),
{
    assert(1 * rule.step == rule.step);
    lemma_every_rung(counts, m, rule, 1);
    match settled(counts, m, rule, rule.step) {
        Some(cut) => {
            let k = choose|k: nat|
                k >= 1 && cut == #[trigger] landing(counts, m, rule.head, k * rule.step);
            lemma_first_question(counts, m, rule.head, k * rule.step, cut);
            assert(first_question_past(counts, m, rule.head, k * rule.step, cut));
        },
        None => {
            assert forall|k: nat, j: int|
                k >= 1 && #[trigger] first_question_past(
                    counts,
                    m,
                    rule.head,
                    k * rule.step,
                    j,
                ) implies total_of(counts) - covered(counts, rule.head, j) + rule.cost
                > rule.trigger by {
                lemma_first_question(counts, m, rule.head, k * rule.step, j);
            }
        },
    }
}

/// The steps of a budget are what one compaction takes, and what replaces the
/// messages costs the summary and the frame of one message.
pub proof fn law_the_rule_of_a_budget(head: int, budget: nat, trigger: nat, summary_tokens: nat)
    requires
        budget <= usize::MAX,
    ensures
        ({
            let rule = rule_for(head, budget, trigger, summary_tokens);
            &&& rule.head == head
            &&& rule.trigger == trigger
            &&& rule.cost == summary_tokens + 8
            &&& rule.step >= 1
            &&& 1_000_000 * (rule.step - 1) <= 500_001 * budget
            &&& 499_999 * budget <= 1_000_000 * (rule.step + 1)
            &&& 2 <= budget < 16_777_216 ==> 2 * rule.step <= budget < 2 * rule.step + 2
        }),
{
    law_compaction_waits_for_four_fifths_and_takes_half(budget);
}

/// The head of a conversation is all the messages of the system it opens with,
/// and no more.
pub proof fn law_the_head_is_the_opening_system_messages(m: Seq<Message>)
    ensures
        heads(m) <= m.len(),
        forall|i: int| 0 <= i < heads(m) ==> (#[trigger] m[i]).role == "system"@,
        heads(m) < m.len() ==> m[heads(m) as int].role != "system"@,
    decreases m.len(),
{
    if m.len() > 0 && m[0].role == "system"@ {
        let rest = m.drop_first();
        law_the_head_is_the_opening_system_messages(rest);
        assert forall|i: int| 0 <= i < heads(m) implies (#[trigger] m[i]).role == "system"@ by {
            if i > 0 {
                assert(rest[i - 1].role == "system"@);
            }
        }
        if heads(m) < m.len() {
            assert(rest[heads(rest) as int] == m[heads(m) as int]);
        }
    }
}

/// A request is left as it is exactly where compaction is off, there is no room
/// for a conversation, the prompt is within four fifths of the room there is, or
/// the cut would leave nothing out. Otherwise what is left out is what lies
/// between the head and the cut.
pub proof fn law_a_request_is_cut_where_it_outgrows_its_room(
    r: Plan,
    ctx: nat,
    enabled: bool,
    known: Map<u64, Seq<char>>,
    m: Seq<Message>,
    counts: Seq<usize>,
    reserve: nat,
)
    requires
        ctx <= usize::MAX,
        counts.len() == m.len(),
        planned(r, ctx, enabled, known, m, counts, reserve),
    ensures
        ({
            let budget = budget_of(ctx, reserve);
            let total = total_of(counts);
            let rule = rule_for(heads(m) as int, budget, trigger_of(budget), summary_tokens_of(budget));
            let start = boundary_of(counts, m, rule);
            &&& !enabled || budget == 0 || 1_000_000 * (total + 1) <= 799_999 * budget ==> r is AsIs
            &&& enabled && budget > 0 && 1_000_000 * total > 800_001 * budget && start > heads(m)
                ==> r is Cut
            &&& r matches Plan::AsIs { tokens } ==> tokens == total
            &&& r matches Plan::Cut(c) ==> {
                &&& enabled
                &&& 1_000_000 * (total + 1) > 799_999 * budget
                &&& c.total == total
                &&& c.head_len == heads(m)
                &&& c.start == start
                &&& heads(m) < c.start < m.len()
                &&& 512 <= c.summary_tokens <= 4096
                &&& c.digest == replaced_digest(
                    owned_text(c.prior),
                    m.subrange(heads(m) as int, c.start as int),
                )
                &&& known.dom().contains(c.digest) ==> owned_text(c.cached) == Some(known[c.digest])
                &&& !known.dom().contains(c.digest) ==> c.cached is None
                &&& c.prior is Some ==> m[heads(m) - 1].content == c.system_base@ + MARKER@
                    + c.prior->0@
                &&& c.prior is None && heads(m) > 0 ==> m[heads(m) - 1].content == c.system_base@
                &&& heads(m) == 0 ==> c.system_base@.len() == 0 && c.prior is None
            }
        }),
{
    let budget = budget_of(ctx, reserve);
    law_the_head_is_the_opening_system_messages(m);
    law_the_conversation_has_what_the_reply_leaves(ctx, reserve);
    law_compaction_waits_for_four_fifths_and_takes_half(budget);
    let rule = rule_for(heads(m) as int, budget, trigger_of(budget), summary_tokens_of(budget));
    lemma_settled(counts, m, rule, rule.step);
    if heads(m) > 0 {
        lemma_split_joins(m[heads(m) - 1].content);
    }
}

proof fn lemma_split_joins(content: Seq<char>)
    ensures
        match split_at_marker(content).1 {
            Some(s) => content == split_at_marker(content).0 + MARKER@ + s,
            None => content == split_at_marker(content).0,
        },
{
    text::law_find_is_first(content, MARKER@);
    if let Some(k) = text::find(content, MARKER@) {
        assert(content =~= content.take(k) + content.subrange(k, k + MARKER@.len()) + content.skip(
            k + MARKER@.len(),
        ));
    }
}

/// A system message splits into what stands before the marker and what stands
/// behind it, at the first place where the marker stands, and joins up again.
pub proof fn law_a_system_message_is_its_parts(content: Seq<char>)
    ensures
        match split_at_marker(content).1 {
            Some(s) => {
                &&& content == split_at_marker(content).0 + MARKER@ + s
                &&& content == with_summary(split_at_marker(content).0, s)
            },
            None => content == split_at_marker(content).0 && forall|k: int|
                0 <= k <= content.len() - MARKER@.len() ==> #[trigger] content.subrange(
                    k,
                    k + MARKER@.len(),
                ) != MARKER@,
        },
{
    lemma_split_joins(content);
    text::law_find_is_first(content, MARKER@);
    if text::find(content, MARKER@) is None {
        assert forall|k: int| 0 <= k <= content.len() - MARKER@.len() implies #[trigger]
            content.subrange(k, k + MARKER@.len()) != MARKER@ by {
            assert(!text::occurs_at(content, MARKER@, k));
        }
    }
}

/// The message that carries the summary is one of the system, stands in the
/// place of the last of the head, and says what the client wrote there and then
/// the summary, behind the marker.
pub proof fn law_the_summary_stands_behind_the_marker(
    m: Seq<Message>,
    head_len: nat,
    start: int,
    base: Seq<char>,
    summary: Seq<char>,
)
    requires
        head_len <= start <= m.len(),
    ensures
        ({
            let r = rewritten(m, head_len, start, base, summary);
            let at = if head_len > 0 {
                head_len - 1
            } else {
                0
            };
            &&& r[at].role == "system"@
            &&& r[at].content == base + MARKER@ + summary
            &&& r[at].extra.dom() =~= Set::<Seq<char>>::empty()
        }),
{
}

/// What the model is given to summarise is one message after another, behind
/// the record of what came before: each under its role in capitals.
pub proof fn law_a_transcript_is_its_messages(
    prior: Option<Seq<char>>,
    a: Seq<Message>,
    b: Seq<Message>,
    one: Message,
    record: Seq<char>,
)
    ensures
        transcript_of(prior, a + b) == transcript_of(prior, a) + transcript_of(None, b),
        transcript_of(None, seq![one]) == text::upper_text(one.role) + ":\n"@ + one.text()
            + "\n\n"@,
        transcript_of(None, Seq::empty()) == Seq::<char>::empty(),
        transcript_of(Some(record), a) == "[record of still earlier messages]\n"@ + record
            + "\n\n"@ + transcript_of(None, a),
    decreases b.len(),
{
    lemma_spelled_out(a, b);
    assert(transcript_of(prior, a + b) =~= transcript_of(prior, a) + transcript_of(None, b));
    assert(seq![one].drop_last() =~= Seq::<Message>::empty());
    reveal_with_fuel(spelled_out, 2);
    assert(transcript_of(None, seq![one]) =~= text::upper_text(one.role) + ":\n"@ + one.text()
        + "\n\n"@);
}

proof fn lemma_spelled_out(a: Seq<Message>, b: Seq<Message>)
    ensures
        spelled_out(a + b) == spelled_out(a) + spelled_out(b),
    decreases b.len(),
{
    if b.len() == 0 {
        assert(a + b =~= a);
        assert(spelled_out(a) + spelled_out(b) =~= spelled_out(a));
    } else {
        lemma_spelled_out(a, b.drop_last());
        assert((a + b).drop_last() =~= a + b.drop_last());
        assert(spelled_out(a + b) =~= spelled_out(a) + spelled_out(b));
    }
}

/// The request for a summary hands over the transcript as what the user says,
/// behind the instructions, and asks for one answer of a bounded length.
pub proof fn law_a_summary_is_asked_for_in_one_answer(
    transcript: Seq<char>,
    max_tokens: nat,
    temperature: JsonTree,
)
    ensures
        ({
            let r = summary_request(transcript, max_tokens, temperature);
            let said = r.child("messages"@)->0->Array_0;
            &&& r.child("stream"@) == Some(JsonTree::Bool(false))
            &&& r.child("max_tokens"@) == Some(JsonTree::Int(max_tokens as int))
            &&& r.child("temperature"@) == Some(temperature)
            &&& r.child("messages"@) == Some(JsonTree::Array(said))
            &&& said.len() == 2
            &&& said[0].child("role"@) == Some(JsonTree::Text("system"@))
            &&& said[0].child("content"@) == Some(JsonTree::Text(SUMMARY_PROMPT@))
            &&& said[1].child("role"@) == Some(JsonTree::Text("user"@))
            &&& said[1].child("content"@) == Some(JsonTree::Text(transcript))
        }),
{
    reveal_strlit("messages");
    reveal_strlit("temperature");
    reveal_strlit("max_tokens");
    reveal_strlit("stream");
    reveal_strlit("role");
    reveal_strlit("content");
    assert("messages"@.len() == 8 && "temperature"@.len() == 11 && "max_tokens"@.len() == 10
        && "stream"@.len() == 6 && "role"@.len() == 4 && "content"@.len() == 7);
}

/// A summary that is read from a reply is not empty, does not begin or end with
/// white space, and is part of what the reply says; nothing is read where the
/// reply says nothing.
pub proof fn law_a_summary_is_what_the_reply_says(reply: JsonTree, s: Seq<char>)
    requires
        reply.at("/choices/0/message/content"@) == Some(JsonTree::Text(s)),
    ensures
        match summary_in(Some(reply)) {
            Some(r) => {
                &&& r.len() > 0
                &&& r == text::trim(s)
                &&& !text::is_white(r[0])
                &&& !text::is_white(r.last())
            },
            None => text::trim(s).len() == 0,
        },
        summary_in(None) is None,
{
    text::law_only_white_space_is_trimmed(s);
}

} // verus!

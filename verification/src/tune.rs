//! Measures the best expert split for a model on this machine.
//!
//! `Flags::derive` estimates from byte counts, but the estimate is consistently
//! low: the fastest configuration leaves more experts on the CPU than a pure
//! capacity calculation suggests, because freeing VRAM lets the remaining
//! layers run without contention. So measure instead of predict, and write the
//! answer next to the model for serving to pick up.
//!
//! Rates and times are floating point and are compared by the caller; a
//! measurement holds them as the bit patterns of singles. What is here decides
//! which splits are measured, in which order, and what is asked for.
use crate::expert;
use crate::expert::ExpertPlan;
use crate::json;
use crate::json::JsonTree;
use crate::scale;
use crate::text;
use vstd::prelude::*;

verus! {

/// What is asked for when the writing rate is measured.
pub const PROMPT: &'static str = "Write a Rust function that parses a GGUF header and returns the tensor count. Code only.";

/// How much is written then.
pub const TOKENS: u32 = 160;

/// Where the measured process listens.
pub const PORT: u16 = 8098;

/// The turn that is optimised for: read this much unseen code, then write
/// [`DECODE_TOKENS`] of answer. Sized for long-context coding work rather than
/// for chat.
pub const PREFILL_TOKENS: u32 = 8192;

pub const DECODE_TOKENS: u32 = 512;

/// Prose used to build a prompt of a known size. Content is irrelevant; only
/// its length matters, and it must be the same across configurations for the
/// measurements to be comparable.
pub const FILLER: &'static str = "The record layout is fixed at compile time and validated on load; readers detect a lap by observing a discontinuity in sequence numbers rather than by taking a lock, which keeps the hot path free of contention. ";

/// Characters per token of English prose, about 3.4, as a 24-bit significand
/// over [`CHARS_UNIT`].
pub const CHARS_PER_TOKEN: u128 = 14260634;

pub const CHARS_UNIT: u128 = 4194304;

/// The shares of the layers that are measured: 0.3, 0.4, 0.5, 0.6 and 0.75, as
/// 24-bit significands over [`HALF_UNIT`] or [`FULL_UNIT`].
pub const SHARE_30: u128 = 10066330;

pub const SHARE_40: u128 = 13421773;

pub const SHARE_50: u128 = 8388608;

pub const SHARE_60: u128 = 10066330;

pub const SHARE_75: u128 = 12582912;

pub const HALF_UNIT: u128 = 33554432;

pub const FULL_UNIT: u128 = 16777216;

// ---------------------------------------------------------------- measurements

/// What was measured, stored beside the model.
#[derive(Debug)]
pub struct Tuned {
    pub cpu_moe_layers: usize,
    pub ctx: usize,
    pub flash_attention: bool,
    pub threads: usize,
    /// KV cache element type this was measured with; absent means f16.
    pub kv_type: Option<String>,
    /// A non-prefix expert placement, as an `-ot` pattern. Absent for every
    /// plan `-ncmoe` can express, which is all of them today - the field
    /// exists so a measured placement can outlive the process that found it.
    pub expert_override: Option<String>,
    /// Decode rate, tokens per second.
    pub tok_s: u32,
    /// Prompt-ingest rate, tokens per second. Zero in files written before
    /// tuning measured reading as well as writing.
    pub prefill_tok_s: u32,
    /// Wall time for the turn this was ranked on.
    pub turn_s: u32,
    pub vram_gb: u32,
    pub measured_utc: String,
}

/// The name of the file a measurement is kept in.
pub open spec fn file_name(ctx: nat, kv_type: Option<Seq<char>>) -> Seq<char> {
    match kv_type {
        Some(t) => "tuned-"@ + text::decimal(ctx) + "-"@ + t + ".json"@,
        None => "tuned-"@ + text::decimal(ctx) + ".json"@,
    }
}

/// The name of the file a measurement is kept in, beside the model.
///
/// One file per context, because the best split is context-specific: the KV
/// cache reserved at load time is VRAM the experts cannot have, so a split
/// measured at 8192 is wrong at 262144. Keeping them apart means switching
/// context back and forth does not throw a measurement away.
pub fn tuned_path(ctx: usize, kv_type: Option<&str>) -> (r: String)
    ensures
        r@ == file_name(
            ctx as nat,
            match kv_type {
                Some(t) => Some(t@),
                None => None,
            },
        ),
{
    let mut r = "tuned-".to_owned();
    r.append(text::number(ctx as u64).as_str());
    if let Some(t) = kv_type {
        r.append("-");
        r.append(t);
    }
    r.append(".json");
    r
}

/// The file measurements were kept in before there was one per context.
pub fn legacy_path() -> (r: String)
    ensures
        r@ == "tuned.json"@,
{
    "tuned.json".to_owned()
}

/// What stands behind the context in the name of a file.
pub open spec fn file_tail(kv_type: Option<Seq<char>>) -> Seq<char> {
    match kv_type {
        Some(t) => "-"@ + t + ".json"@,
        None => ".json"@,
    }
}

proof fn lemma_digits_then(d: Seq<char>, x: Seq<char>, e: Seq<char>, y: Seq<char>)
    requires
        forall|i: int| 0 <= i < d.len() ==> text::is_digit(#[trigger] d[i]),
        forall|i: int| 0 <= i < e.len() ==> text::is_digit(#[trigger] e[i]),
        x.len() > 0,
        y.len() > 0,
        !text::is_digit(x[0]),
        !text::is_digit(y[0]),
        d + x == e + y,
    ensures
        d == e,
        x == y,
{
    let (a, b) = (d + x, e + y);
    if d.len() < e.len() {
        assert(a[d.len() as int] == x[0]);
        assert(b[d.len() as int] == e[d.len() as int]);
    }
    if e.len() < d.len() {
        assert(b[e.len() as int] == y[0]);
        assert(a[e.len() as int] == d[e.len() as int]);
    }
    assert(d =~= a.take(d.len() as int));
    assert(e =~= b.take(e.len() as int));
    assert(x =~= a.skip(d.len() as int));
    assert(y =~= b.skip(e.len() as int));
}

/// Measurements at different contexts, or with different types of cache, are
/// kept in different files.
pub proof fn law_contexts_are_kept_apart(
    a: nat,
    s: Option<Seq<char>>,
    b: nat,
    t: Option<Seq<char>>,
)
    requires
        file_name(a, s) == file_name(b, t),
    ensures
        a == b,
        s == t,
{
    reveal_strlit("tuned-");
    reveal_strlit("-");
    reveal_strlit(".json");
    let (d, e) = (text::decimal(a), text::decimal(b));
    let (x, y) = (file_tail(s), file_tail(t));
    assert(file_name(a, s) =~= "tuned-"@ + (d + x));
    assert(file_name(b, t) =~= "tuned-"@ + (e + y));
    assert(d + x =~= file_name(a, s).skip(6));
    assert(e + y =~= file_name(b, t).skip(6));
    text::lemma_decimal(a);
    text::lemma_decimal(b);
    lemma_digits_then(d, x, e, y);
    text::law_decimal_is_unique(a, b);
    match (s, t) {
        (Some(p), Some(q)) => {
            assert(p =~= x.subrange(1, x.len() - 5));
            assert(q =~= y.subrange(1, y.len() - 5));
        },
        _ => {},
    }
}

/// The measurement to use for a context: the one kept for it, or else the one
/// kept before there was one per context, and of these only one that was
/// measured at it.
pub fn load(own: Option<Tuned>, legacy: Option<Tuned>, ctx: usize) -> (r: Option<Tuned>)
    ensures
        r == match own {
            Some(t) if t.ctx == ctx => Some(t),
            _ => match legacy {
                Some(t) if t.ctx == ctx => Some(t),
                _ => None,
            },
        },
        r matches Some(t) ==> t.ctx == ctx,
{
    if let Some(t) = own {
        if t.ctx == ctx {
            return Some(t);
        }
    }
    if let Some(t) = legacy {
        if t.ctx == ctx {
            return Some(t);
        }
    }
    None
}

/// When something was measured.
pub fn now_utc(secs: u64) -> (r: String)
    ensures
        r@ == "unix:"@ + text::decimal(secs as nat),
{
    let mut r = "unix:".to_owned();
    r.append(text::number(secs).as_str());
    r
}

// ---------------------------------------------------------------- the splits

/// The splits that are measured first.
pub open spec fn first_splits(layers: nat, derived: nat) -> Seq<nat> {
    seq![
        0,
        scale::rounded_share(layers, SHARE_30 as nat, HALF_UNIT as nat),
        scale::rounded_share(layers, SHARE_40 as nat, HALF_UNIT as nat),
        scale::rounded_share(layers, SHARE_50 as nat, FULL_UNIT as nat),
        scale::rounded_share(layers, SHARE_60 as nat, FULL_UNIT as nat),
        scale::rounded_share(layers, SHARE_75 as nat, FULL_UNIT as nat),
        derived,
    ]
}

/// The splits to measure first, in ascending order and without repetition.
///
/// Around half the layers is where this class of model tends to peak, so that
/// is bracketed rather than swept uniformly from zero; the derived estimate is
/// among them.
pub fn candidates(layers: usize, derived: usize) -> (r: Vec<usize>)
    ensures
        expert::ascending(r@),
        forall|c: usize| #[trigger]
            r@.contains(c) <==> c < layers && first_splits(layers as nat, derived as nat).contains(
                c as nat,
            ),
{
    let mut all: Vec<usize> = Vec::new();
    all.push(0);
    all.push(scale::rounded_share_of(layers, SHARE_30, HALF_UNIT));
    all.push(scale::rounded_share_of(layers, SHARE_40, HALF_UNIT));
    all.push(scale::rounded_share_of(layers, SHARE_50, FULL_UNIT));
    all.push(scale::rounded_share_of(layers, SHARE_60, FULL_UNIT));
    all.push(scale::rounded_share_of(layers, SHARE_75, FULL_UNIT));
    all.push(derived);
    let ghost want = first_splits(layers as nat, derived as nat);
    assert(all@.len() == 7 && want.len() == 7);
    assert forall|i: int| 0 <= i < 7 implies all@[i] == want[i] by {}
    let plan = ExpertPlan::from_layers(all.as_slice(), layers);
    let kept = plan.cpu_layers();
    let mut r: Vec<usize> = Vec::new();
    let mut i: usize = 0;
    while i < kept.len()
        invariant
            i <= kept@.len(),
            r@ == kept@.take(i as int),
        decreases kept@.len() - i,
    {
        r.push(kept[i]);
        assert(kept@.take(i as int).push(kept@[i as int]) =~= kept@.take(i + 1));
        i = i + 1;
    }
    assert(kept@.take(i as int) =~= kept@);
    assert forall|c: usize| #[trigger] r@.contains(c) <==> c < layers && want.contains(
        c as nat,
    ) by {
        if all@.contains(c) {
            let k = choose|k: int| 0 <= k < all@.len() && all@[k] == c;
            assert(want[k] == c as nat);
        }
        if want.contains(c as nat) {
            let k = choose|k: int| 0 <= k < want.len() && want[k] == c as nat;
            assert(all@[k] == c);
        }
    }
    r
}

/// A split that could be measured next.
pub open spec fn open_split(c: int, layers: nat, done: Seq<usize>) -> bool {
    0 <= c < layers && !done.contains(c as usize)
}

/// One split, where it could be measured.
pub open spec fn if_open(c: int, layers: nat, done: Seq<usize>) -> Seq<usize> {
    if open_split(c, layers, done) {
        seq![c as usize]
    } else {
        Seq::empty()
    }
}

/// The splits either side of a centre, the farthest first.
pub open spec fn around(centre: int, layers: nat, done: Seq<usize>) -> Seq<usize> {
    if_open(centre + 2, layers, done) + if_open(centre - 2, layers, done) + if_open(
        centre + 1,
        layers,
        done,
    ) + if_open(centre - 1, layers, done)
}

fn holds(list: &Vec<usize>, x: usize) -> (r: bool)
    ensures
        r == list@.contains(x),
{
    let mut i: usize = 0;
    while i < list.len()
        invariant
            i <= list@.len(),
            forall|j: int| 0 <= j < i ==> list@[j] != x,
        decreases list@.len() - i,
    {
        if list[i] == x {
            return true;
        }
        i = i + 1;
    }
    false
}

fn push_if_open(out: &mut Vec<usize>, c: usize, layers: usize, done: &Vec<usize>)
    ensures
        final(out)@ == old(out)@ + if_open(c as int, layers as nat, done@),
{
    if c < layers && !holds(done, c) {
        out.push(c);
    }
    assert(out@ =~= old(out)@ + if_open(c as int, layers as nat, done@));
}

/// Splits either side of `centre` that have not been measured yet, for the
/// refinement pass. The sweep takes from the back, so the nearest are last.
pub fn neighbours(centre: usize, layers: usize, done: &Vec<usize>) -> (r: Vec<usize>)
    ensures
        r@ == around(centre as int, layers as nat, done@),
{
    let mut out: Vec<usize> = Vec::new();
    if centre < layers && layers - centre > 2 {
        push_if_open(&mut out, centre + 2, layers, done);
    }
    assert(out@ =~= if_open(centre + 2, layers as nat, done@));
    if centre >= 2 {
        push_if_open(&mut out, centre - 2, layers, done);
    }
    assert(out@ =~= if_open(centre + 2, layers as nat, done@) + if_open(
        centre - 2,
        layers as nat,
        done@,
    ));
    if centre < layers && layers - centre > 1 {
        push_if_open(&mut out, centre + 1, layers, done);
    }
    assert(out@ =~= if_open(centre + 2, layers as nat, done@) + if_open(
        centre - 2,
        layers as nat,
        done@,
    ) + if_open(centre + 1, layers as nat, done@));
    if centre >= 1 {
        push_if_open(&mut out, centre - 1, layers, done);
    }
    assert(out@ =~= around(centre as int, layers as nat, done@));
    out
}

// ---------------------------------------------------------------- the sweep

/// A sweep over splits: a coarse one, then a second pass either side of the
/// winner. The surface is not smooth - at a context of 262144, 12 layers
/// measured 32.6 tok/s while 16 measured 27.4 - so the coarse grid can straddle
/// the peak without landing on it.
#[derive(Debug)]
pub struct Sweep {
    layers: usize,
    queue: Vec<usize>,
    done: Vec<usize>,
    refined: bool,
    best: Option<usize>,
}

/// Where a sweep stands.
pub struct Progress {
    pub layers: usize,
    /// What is still to be measured, the next last.
    pub queue: Seq<usize>,
    /// What was measured, in order.
    pub done: Seq<usize>,
    /// The second pass has begun.
    pub refined: bool,
    /// The fastest so far.
    pub best: Option<usize>,
}

impl Progress {
    /// The second pass begins where the first has run out.
    pub open spec fn refine(self) -> Progress {
        if self.queue.len() == 0 && !self.refined {
            Progress {
                refined: true,
                queue: match self.best {
                    Some(b) => around(b as int, self.layers as nat, self.done),
                    None => self.queue,
                },
                ..self
            }
        } else {
            self
        }
    }

    /// The split that is measured next, and where the sweep stands then. What
    /// was measured already is passed over.
    pub open spec fn next(self) -> (Option<usize>, Progress)
        decreases
                if self.refined {
                    0nat
                } else {
                    1nat
                },
                self.queue.len(),
    {
        if self.queue.len() == 0 {
            (None, self)
        } else {
            let c = self.queue.last();
            let left = Progress { queue: self.queue.drop_last(), ..self };
            if self.done.contains(c) || c >= self.layers {
                left.refine().next()
            } else {
                (Some(c), Progress { done: self.done.push(c), ..left })
            }
        }
    }

    /// Where the sweep stands after a measurement. `improved` says whether it
    /// is the fastest so far.
    pub open spec fn measured(self, split: usize, improved: bool) -> Progress {
        Progress {
            best: if improved {
                Some(split)
            } else {
                self.best
            },
            ..self
        }.refine()
    }

    /// No split was measured twice, and the best is one that was measured.
    pub open spec fn sound(self) -> bool {
        &&& forall|i: int, j: int| 0 <= i < j < self.done.len() ==> self.done[i] != self.done[j]
        &&& forall|i: int| 0 <= i < self.done.len() ==> self.done[i] < self.layers
        &&& self.best matches Some(b) ==> self.done.contains(b)
    }
}

impl View for Sweep {
    type V = Progress;

    closed spec fn view(&self) -> Progress {
        Progress {
            layers: self.layers,
            queue: self.queue@,
            done: self.done@,
            refined: self.refined,
            best: self.best,
        }
    }
}

impl Sweep {
    /// Nothing measured yet.
    pub fn new(layers: usize, derived: usize) -> (r: Sweep)
        ensures
            r@.layers == layers,
            expert::ascending(r@.queue),
            forall|c: usize| #[trigger]
                r@.queue.contains(c) <==> c < layers && first_splits(
                    layers as nat,
                    derived as nat,
                ).contains(c as nat),
            r@.done == Seq::<usize>::empty(),
            !r@.refined,
            r@.best is None,
            r@.sound(),
    {
        Sweep {
            layers,
            queue: candidates(layers, derived),
            done: Vec::new(),
            refined: false,
            best: None,
        }
    }

    fn refine(&mut self) -> (r: bool)
        ensures
            final(self)@ == old(self)@.refine(),
            r == (final(self)@.refined && !old(self)@.refined && final(self)@.queue.len() > 0),
    {
        if self.queue.len() == 0 && !self.refined {
            self.refined = true;
            if let Some(b) = self.best {
                self.queue = neighbours(b, self.layers, &self.done);
            }
            return self.queue.len() > 0;
        }
        false
    }

    /// The split to measure next, or nothing where the sweep is over. No split
    /// is measured twice.
    pub fn next(&mut self) -> (r: Option<usize>)
        requires
            old(self)@.sound(),
        ensures
            (r, final(self)@) == old(self)@.next(),
            final(self)@.sound(),
            r matches Some(c) ==> c < old(self)@.layers && !old(self)@.done.contains(c)
                && final(self)@.done == old(self)@.done.push(c) && final(self)@.done.contains(c),
            r is None ==> final(self)@.done == old(self)@.done,
            final(self)@.layers == old(self)@.layers,
            final(self)@.best == old(self)@.best,
    {
        loop
            invariant
                self@.sound(),
                self@.done == old(self)@.done,
                self@.layers == old(self)@.layers,
                self@.best == old(self)@.best,
                self@.next() == old(self)@.next(),
            decreases
                    if self@.refined {
                        0nat
                    } else {
                        1nat
                    },
                    self@.queue.len(),
        {
            let ghost before = self@;
            match self.queue.pop() {
                Some(c) => {
                    let ghost left = self@;
                    assert(left == Progress { queue: before.queue.drop_last(), ..before });
                    if holds(&self.done, c) || c >= self.layers {
                        let _ = self.refine();
                    } else {
                        self.done.push(c);
                        proof {
                            lemma_sound_push(before, self@, c);
                            assert(self@.done.last() == c);
                        }
                        return Some(c);
                    }
                },
                None => {
                    return None;
                },
            }
        }
    }

    /// Takes in a measurement, and says whether the second pass begins with it.
    pub fn record(&mut self, split: usize, improved: bool) -> (r: bool)
        requires
            old(self)@.sound(),
            improved ==> old(self)@.done.contains(split),
        ensures
            final(self)@ == old(self)@.measured(split, improved),
            final(self)@.sound(),
            r == (final(self)@.refined && !old(self)@.refined && final(self)@.queue.len() > 0),
    {
        if improved {
            self.best = Some(split);
        }
        self.refine()
    }
}

proof fn lemma_sound_push(before: Progress, after: Progress, c: usize)
    requires
        before.sound(),
        after.layers == before.layers,
        after.best == before.best,
        after.done == before.done.push(c),
        !before.done.contains(c),
        c < before.layers,
    ensures
        after.sound(),
{
    if let Some(b) = before.best {
        let k = choose|k: int| 0 <= k < before.done.len() && before.done[k] == b;
        assert(after.done[k] == b);
    }
    assert forall|i: int, j: int| 0 <= i < j < after.done.len() implies after.done[i]
        != after.done[j] by {
        if j == before.done.len() {
            assert(before.done[i] != c);
        }
    }
}

/// The second pass looks at splits next to the best, none of which was
/// measured, and it comes once.
pub proof fn law_the_second_pass_looks_beside_the_best(p: Progress)
    requires
        p.sound(),
        p.best is Some,
        p.queue.len() == 0,
        !p.refined,
    ensures
        p.refine().refined,
        p.refine().refine() == p.refine(),
        forall|i: int|
            0 <= i < p.refine().queue.len() ==> {
                let c = #[trigger] p.refine().queue[i];
                &&& !p.done.contains(c)
                &&& c < p.layers
                &&& -2 <= c - p.best->0 <= 2
                &&& c != p.best->0
            },
{
    let b = p.best->0 as int;
    let (l, d) = (p.layers as nat, p.done);
    let q = around(b, l, d);
    assert(p.refine().queue == q);
    assert forall|i: int| 0 <= i < q.len() implies {
        let c = #[trigger] q[i];
        &&& !d.contains(c)
        &&& c < l
        &&& -2 <= c - b <= 2
        &&& c != b
    } by {
        let (w, x, y, z) = (
            if_open(b + 2, l, d),
            if_open(b - 2, l, d),
            if_open(b + 1, l, d),
            if_open(b - 1, l, d),
        );
        if i < w.len() {
            assert(q[i] == w[i]);
        } else if i < w.len() + x.len() {
            assert(q[i] == x[i - w.len()]);
        } else if i < w.len() + x.len() + y.len() {
            assert(q[i] == y[i - w.len() - x.len()]);
        } else {
            assert(q[i] == z[i - w.len() - x.len() - y.len()]);
        }
    }
}

// ---------------------------------------------------------------- the questions

/// A text, over and over.
pub open spec fn repeated(s: Seq<char>, n: nat) -> Seq<char>
    decreases n,
{
    if n == 0 {
        Seq::empty()
    } else {
        repeated(s, (n - 1) as nat) + s
    }
}

/// How long a prompt of about this many tokens is, in characters.
pub open spec fn prompt_length(tokens: nat) -> nat {
    scale::product(tokens, CHARS_PER_TOKEN as nat) / (CHARS_UNIT as nat)
}

/// A prompt of roughly `tokens` tokens: the filler, as often as it takes.
pub fn sized_prompt(tokens: u32) -> (r: String)
    ensures
        exists|n: nat| #[trigger]
            repeated(FILLER@, n) == r@ && r@.len() >= prompt_length(tokens as nat) && (n > 0
                ==> repeated(FILLER@, (n - 1) as nat).len() < prompt_length(tokens as nat)),
{
    proof {
        reveal_strlit(
            "The record layout is fixed at compile time and validated on load; readers detect a lap by observing a discontinuity in sequence numbers rather than by taking a lock, which keeps the hot path free of contention. ",
        );
    }
    let want: u128 = scale::single_product(tokens as u64, CHARS_PER_TOKEN) / CHARS_UNIT;
    let each: usize = text::chars_of(FILLER).len();
    let mut length: u128 = 0;
    let mut r = String::new();
    let ghost mut n: nat = 0;
    while length < want
        invariant
            each == FILLER@.len(),
            each > 0,
            each < 1000,
            want == prompt_length(tokens as nat),
            want < 0x4_0000_0000_0000_0000_0000_0000,
            length == r@.len(),
            length < want + 1000,
            r@ == repeated(FILLER@, n),
            n > 0 ==> repeated(FILLER@, (n - 1) as nat).len() < want,
        decreases want + 1000 - length,
    {
        r.append(FILLER);
        length = length + each as u128;
        proof {
            n = n + 1;
        }
    }
    r
}

/// What is asked of a process that is measured.
pub open spec fn question(content: Seq<char>, max_tokens: nat, temperature: JsonTree) -> JsonTree {
    JsonTree::Object(
        json::without_fields().insert(
            "messages"@,
            JsonTree::Array(
                seq![
                    JsonTree::Object(
                        json::without_fields().insert("role"@, JsonTree::Text("user"@)).insert(
                            "content"@,
                            JsonTree::Text(content),
                        ),
                    ),
                ],
            ),
        ).insert("max_tokens"@, JsonTree::Int(max_tokens as int)).insert(
            "stream"@,
            JsonTree::Bool(false),
        ).insert("temperature"@, temperature),
    )
}

fn ask(content: &str, max_tokens: u32, temperature: serde_json::Value) -> (r: serde_json::Value)
    ensures
        json::json_tree(r) == question(content@, max_tokens as nat, json::json_tree(temperature)),
{
    let mut one = json::no_fields();
    json::set_field(&mut one, "role", json::text_value("user"));
    json::set_field(&mut one, "content", json::text_value(content));
    let mut messages: Vec<serde_json::Value> = Vec::new();
    let first = json::object_value(one);
    assert(json::json_trees(messages@.push(first)) =~= seq![json::json_tree(first)]);
    messages.push(first);
    let mut fields = json::no_fields();
    json::set_field(&mut fields, "messages", json::array_value(messages));
    json::set_field(&mut fields, "max_tokens", json::whole_value(max_tokens as u64));
    json::set_field(&mut fields, "stream", json::bool_value(false));
    json::set_field(&mut fields, "temperature", temperature);
    json::object_value(fields)
}

/// What is asked to measure the reading rate: a prompt the process has never
/// seen, answered in a single token, so elapsed time is almost entirely the
/// cost of reading it.
pub fn prefill_body(temperature: serde_json::Value) -> (r: serde_json::Value)
    ensures
        exists|n: nat| #[trigger]
            repeated(FILLER@, n).len() >= prompt_length(PREFILL_TOKENS as nat) && (n > 0
                ==> repeated(FILLER@, (n - 1) as nat).len() < prompt_length(PREFILL_TOKENS as nat))
                && json::json_tree(r) == question(
                repeated(FILLER@, n) + "\n\nReply with one word."@,
                1,
                json::json_tree(temperature),
            ),
{
    let mut prompt = sized_prompt(PREFILL_TOKENS);
    let ghost n = choose|n: nat| #[trigger]
        repeated(FILLER@, n) == prompt@ && prompt@.len() >= prompt_length(PREFILL_TOKENS as nat)
            && (n > 0 ==> repeated(FILLER@, (n - 1) as nat).len() < prompt_length(
            PREFILL_TOKENS as nat,
        ));
    prompt.append("\n\nReply with one word.");
    let r = ask(prompt.as_str(), 1, temperature);
    assert(repeated(FILLER@, n).len() >= prompt_length(PREFILL_TOKENS as nat));
    r
}

/// What is asked to measure the writing rate.
pub fn decode_body(temperature: serde_json::Value) -> (r: serde_json::Value)
    ensures
        json::json_tree(r) == question(PROMPT@, TOKENS as nat, json::json_tree(temperature)),
{
    ask(PROMPT, TOKENS, temperature)
}

/// How many tokens a reply says were read.
pub fn tokens_read(reply: &serde_json::Value) -> (r: u64)
    ensures
        r == json::whole_or_zero(json::json_tree(*reply).at("/usage/prompt_tokens"@)),
{
    proof {
        reveal_strlit("/usage/prompt_tokens");
    }
    json::number_at(reply, "/usage/prompt_tokens")
}

/// How many tokens a reply says were written.
pub fn tokens_written(reply: &serde_json::Value) -> (r: u64)
    ensures
        r == json::whole_or_zero(json::json_tree(*reply).at("/usage/completion_tokens"@)),
{
    proof {
        reveal_strlit("/usage/completion_tokens");
    }
    json::number_at(reply, "/usage/completion_tokens")
}

// ---------------------------------------------------------------- what is promised

proof fn lemma_rounded_share(n: nat, significand: nat, unit: nat)
    requires
        0 < unit,
        unit % 2 == 0,
        significand <= unit,
        n <= 100_000,
    ensures
        ({
            let r = scale::rounded_share(n, significand, unit);
            &&& 2_000_000 * (unit * r) <= 2_000_001 * (n * significand) + 1_000_000 * unit
            &&& 1_999_999 * (n * significand) <= 2_000_000 * (unit * r) + 1_000_000 * unit
        }),
{
    scale::law_a_product_keeps_its_size(n, significand);
    let p = scale::product(n, significand);
    let half = unit / 2;
    let q = (p + half) / unit;
    vstd::arithmetic::div_mod::lemma_fundamental_div_mod((p + half) as int, unit as int);
    vstd::arithmetic::div_mod::lemma_mod_bound((p + half) as int, unit as int);
    assert(unit * q <= p + half < unit * q + unit);
    assert(n * significand <= 100_000 * unit) by (nonlinear_arith)
        requires
            n <= 100_000,
            significand <= unit,
    ;
    assert(q <= 200_000) by (nonlinear_arith)
        requires
            unit * q <= p + half,
            2 * half == unit,
            2_000_000 * p <= 2_000_001 * (100_000 * unit),
            unit > 0,
    ;
    assert(usize::MAX >= 0xffff_ffff);
}

/// The splits that are measured first: none of the layers, three, four, five, six
/// and seven and a half tenths of them, each to the nearest layer, and the
/// estimate.
pub proof fn law_the_first_splits_bracket_the_half(layers: nat, derived: nat)
    requires
        layers <= 100_000,
    ensures
        ({
            let s = first_splits(layers, derived);
            &&& s.len() == 7
            &&& s[0] == 0
            &&& -6 <= 10 * s[1] - 3 * layers <= 6
            &&& -6 <= 10 * s[2] - 4 * layers <= 6
            &&& -6 <= 10 * s[3] - 5 * layers <= 6
            &&& -6 <= 10 * s[4] - 6 * layers <= 6
            &&& -12 <= 20 * s[5] - 15 * layers <= 12
            &&& s[6] == derived
        }),
{
    lemma_rounded_share(layers, 10066330, 33554432);
    lemma_rounded_share(layers, 13421773, 33554432);
    lemma_rounded_share(layers, 8388608, 16777216);
    lemma_rounded_share(layers, 10066330, 16777216);
    lemma_rounded_share(layers, 12582912, 16777216);
}

/// The second pass measures every split one or two layers from the best that is
/// one of the model and was not measured, and no other; the nearest come first.
pub proof fn law_the_second_pass_takes_both_sides(
    centre: usize,
    layers: usize,
    done: Seq<usize>,
    c: usize,
)
    requires
        centre < layers,
        centre < usize::MAX - 2,
    ensures
        around(centre as int, layers as nat, done).contains(c) <==> c < layers && !done.contains(c)
            && c != centre && -2 <= c - centre <= 2,
        forall|i: int, j: int|
            0 <= i < j < around(centre as int, layers as nat, done).len() ==> ({
                let a = #[trigger] around(centre as int, layers as nat, done)[i];
                let b = #[trigger] around(centre as int, layers as nat, done)[j];
                (a == centre + 1 || a == centre - 1) ==> (b == centre + 1 || b == centre - 1)
            }),
{
    let p = if_open(centre + 2, layers as nat, done);
    let q = if_open(centre - 2, layers as nat, done);
    let r = if_open(centre + 1, layers as nat, done);
    let s = if_open(centre - 1, layers as nat, done);
    let all = around(centre as int, layers as nat, done);
    assert(all == p + q + r + s);
    assert(p.len() > 0 ==> all[0] == p[0]);
    assert(q.len() > 0 ==> all[p.len() as int] == q[0]);
    assert(r.len() > 0 ==> all[(p.len() + q.len()) as int] == r[0]);
    assert(s.len() > 0 ==> all[(p.len() + q.len() + r.len()) as int] == s[0]);
}

/// A measurement is the best where it is the fastest so far, and leaves the best
/// as it was where it is not.
pub proof fn law_the_best_is_the_last_improvement(p: Progress, split: usize)
    ensures
        p.measured(split, true).best == Some(split),
        p.measured(split, false).best == p.best,
        p.measured(split, true).done == p.done,
        p.measured(split, false).layers == p.layers,
{
}

/// What is measured next is the last of the queue that was not measured yet.
pub proof fn law_the_queue_is_taken_from_its_end(p: Progress)
    requires
        p.queue.len() > 0,
        !p.done.contains(p.queue.last()),
        p.queue.last() < p.layers,
    ensures
        p.next().0 == Some(p.queue.last()),
        p.next().1.queue == p.queue.drop_last(),
        p.next().1.done == p.done.push(p.queue.last()),
{
}

/// A process that is measured is asked one question of the user, for one answer of
/// a bounded length.
pub proof fn law_a_measured_process_is_asked_once(
    content: Seq<char>,
    max_tokens: nat,
    temperature: JsonTree,
)
    ensures
        ({
            let q = question(content, max_tokens, temperature);
            &&& q.child("stream"@) == Some(JsonTree::Bool(false))
            &&& q.child("max_tokens"@) == Some(JsonTree::Int(max_tokens as int))
            &&& q.child("temperature"@) == Some(temperature)
            &&& q.child("messages"@) matches Some(JsonTree::Array(said)) && said.len() == 1
                && said[0].child("role"@) == Some(JsonTree::Text("user"@))
                && said[0].child("content"@) == Some(JsonTree::Text(content))
        }),
{
    reveal_strlit("messages");
    reveal_strlit("max_tokens");
    reveal_strlit("stream");
    reveal_strlit("temperature");
    assert("messages"@.len() == 8 && "max_tokens"@.len() == 10 && "stream"@.len() == 6 && "temperature"@.len() == 11);
    reveal_strlit("role");
    reveal_strlit("content");
    assert("role"@.len() == 4 && "content"@.len() == 7);
}

/// A prompt has about three point four characters for every token.
pub proof fn law_a_prompt_is_as_long_as_its_tokens(tokens: nat)
    ensures
        100_000 * prompt_length(tokens) <= 340_001 * tokens,
        339_999 * tokens <= 100_000 * (prompt_length(tokens) + 1),
{
    scale::law_a_product_keeps_its_size(tokens, 14260634);
}

} // verus!

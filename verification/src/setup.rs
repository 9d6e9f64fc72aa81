//! Configuring for the machine at hand: which context the card can afford,
//! whether a model is worth running on it, and what to do about it.
//!
//! Sizes are in bytes and the memory of a card in MiB, as its runtime reports
//! it. Shares of a card are taken at single precision.
use crate::gguf;
use crate::gguf::Gguf;
use crate::hardware;
use crate::hardware::{Device, Machine};
use crate::placement;
use crate::placement::{Placement, PlacementError};
use crate::scale;
use crate::text;
use vstd::prelude::*;

verus! {

/// The largest context worth considering. The others are its halves, down to
/// the smallest: powers of two because the KV cache is allocated per context
/// and the differences below 2x do not pay for the tuning run they would each
/// need.
pub const MAX_CONTEXT: usize = 262144;

/// Below this there is no point continuing: the weights that must be resident
/// to run at all would not fit beside even a minimal cache.
pub const MIN_CONTEXT: usize = 2048;

/// The KV cache may take this much of the card, and no more: one tenth, as a
/// 24-bit significand over [`KV_SHARE_UNIT`].
///
/// The cache is allocated in full at load time, so it is VRAM the experts
/// cannot have for the whole run - and expert residency is what decode speed
/// depends on. Measured on a 16 GB card: at 1.25 GiB of cache (7.8%) the model
/// decodes at 42.5 tok/s, and at 5.00 GiB (31%) it drops to 32.6 even after
/// re-tuning. Ten percent reproduces the context that was chosen by hand there,
/// which is the only real evidence this number has behind it.
pub const KV_SHARE: u128 = 13421773;

pub const KV_SHARE_UNIT: u128 = 134217728;

/// Bytes in a MiB.
pub const MIB: u128 = 1048576;

// ---------------------------------------------------------------- the context

/// One of the contexts worth considering.
pub open spec fn on_ladder(c: nat) -> bool {
    c == 2048 || c == 4096 || c == 8192 || c == 16384 || c == 32768 || c == 65536 || c == 131072 || c
        == 262144
}

/// The largest rung that is not above `limit`, or the lowest of all.
pub open spec fn rung_below(limit: nat) -> nat {
    if limit >= 262144 {
        262144
    } else if limit >= 131072 {
        131072
    } else if limit >= 65536 {
        65536
    } else if limit >= 32768 {
        32768
    } else if limit >= 16384 {
        16384
    } else if limit >= 8192 {
        8192
    } else if limit >= 4096 {
        4096
    } else {
        2048
    }
}

/// The bytes of a card its cache may take.
pub open spec fn cache_budget(vram_mib: nat) -> nat {
    saturated(scale::product(vram_mib, KV_SHARE as nat) * (MIB as nat) / (KV_SHARE_UNIT as nat))
}

pub open spec fn saturated(n: nat) -> nat {
    if n > u64::MAX {
        u64::MAX as nat
    } else {
        n
    }
}

/// The tokens whose cache stays within its share, where tokens cost any.
pub open spec fn context_limit(facts_ctx: nat, kv_bytes_per_token: nat, vram_mib: nat) -> nat {
    let ceiling = if facts_ctx > MIN_CONTEXT {
        facts_ctx
    } else {
        MIN_CONTEXT as nat
    };
    if kv_bytes_per_token > 0 {
        placement::least(cache_budget(vram_mib) / kv_bytes_per_token, ceiling)
    } else {
        ceiling
    }
}

/// The context for a model on a card.
pub open spec fn chosen(facts_ctx: nat, kv_bytes_per_token: nat, vram_mib: nat) -> nat {
    rung_below(context_limit(facts_ctx, kv_bytes_per_token, vram_mib))
}

fn cache_allowance(vram_mib: u64) -> (r: u64)
    ensures
        r == cache_budget(vram_mib as nat),
{
    let share: u128 = scale::single_product(vram_mib, KV_SHARE);
    let n: u128 = share / 128;
    assert(share as nat * (MIB as nat) / (KV_SHARE_UNIT as nat) == n) by (nonlinear_arith)
        requires
            n == share / 128,
            MIB == 1048576,
            KV_SHARE_UNIT == 128 * 1048576,
    ;
    if n > u64::MAX as u128 {
        u64::MAX
    } else {
        n as u64
    }
}

/// Largest context whose KV cache stays within its share of the card.
///
/// Bigger is not better. A context the machine can technically allocate still
/// costs expert residency for the entire run, and a conversation that never
/// reaches the end of a smaller window has paid that for nothing - compaction
/// covers the overflow. So this picks the largest context that stays cheap,
/// not the largest that fits.
pub fn choose_context(facts_ctx: usize, kv_bytes_per_token: u64, vram_mib: u64) -> (r: usize)
    ensures
        r == chosen(facts_ctx as nat, kv_bytes_per_token as nat, vram_mib as nat),
{
    let ceiling: u64 = if facts_ctx > MIN_CONTEXT {
        facts_ctx as u64
    } else {
        MIN_CONTEXT as u64
    };
    let affordable: u64 = if kv_bytes_per_token > 0 {
        cache_allowance(vram_mib) / kv_bytes_per_token
    } else {
        ceiling
    };
    let mut c: usize = MAX_CONTEXT;
    while c > MIN_CONTEXT && !(c as u64 <= affordable && c as u64 <= ceiling)
        invariant
            on_ladder(c as nat),
            c < MAX_CONTEXT ==> 2 * c > affordable || 2 * c > ceiling,
        decreases c,
    {
        c = c / 2;
    }
    c
}

/// The context is always on the ladder, and never beyond what the model was
/// trained for, unless that is less than the least worth running.
pub proof fn law_context_lands_on_the_ladder(facts_ctx: nat, kv: nat, vram_mib: nat)
    ensures
        on_ladder(chosen(facts_ctx, kv, vram_mib)),
        chosen(facts_ctx, kv, vram_mib) <= facts_ctx || chosen(facts_ctx, kv, vram_mib)
            == MIN_CONTEXT,
{
}

/// The cache of the context stays within its share of the card, unless the
/// context is the least worth running; and the next larger context would
/// exceed the share, the model or the ladder.
pub proof fn law_context_is_the_largest_that_stays_cheap(facts_ctx: nat, kv: nat, vram_mib: nat)
    requires
        kv > 0,
    ensures
        chosen(facts_ctx, kv, vram_mib) == MIN_CONTEXT || chosen(facts_ctx, kv, vram_mib) * kv
            <= cache_budget(vram_mib),
        2 * chosen(facts_ctx, kv, vram_mib) * kv > cache_budget(vram_mib) || 2 * chosen(
            facts_ctx,
            kv,
            vram_mib,
        ) > facts_ctx || chosen(facts_ctx, kv, vram_mib) == MAX_CONTEXT,
{
    let b = cache_budget(vram_mib);
    let c = chosen(facts_ctx, kv, vram_mib);
    let q = b / kv;
    vstd::arithmetic::div_mod::lemma_fundamental_div_mod(b as int, kv as int);
    vstd::arithmetic::div_mod::lemma_mod_bound(b as int, kv as int);
    if c <= q {
        assert(c * kv <= b) by (nonlinear_arith)
            requires
                c <= q,
                b == kv * q + b % kv,
                b % kv >= 0,
        ;
    }
    if 2 * c > q {
        let m = b % kv;
        assert((q + 1) * kv > b) by (nonlinear_arith)
            requires
                b == kv * q + m,
                m < kv,
        ;
        assert((2 * c) * kv >= (q + 1) * kv) by (nonlinear_arith)
            requires
                2 * c >= q + 1,
        ;
    }
}

/// A smaller card never gets a larger context.
pub proof fn law_smaller_cards_get_smaller_contexts(facts_ctx: nat, kv: nat, small: nat, large: nat)
    requires
        small <= large,
    ensures
        chosen(facts_ctx, kv, small) <= chosen(facts_ctx, kv, large),
{
    scale::law_shares_grow_with_the_count(small, large, KV_SHARE as nat);
    let (a, b) = (scale::product(small, KV_SHARE as nat), scale::product(large, KV_SHARE as nat));
    assert(a * MIB <= b * MIB) by (nonlinear_arith)
        requires
            a <= b,
    ;
    vstd::arithmetic::div_mod::lemma_div_is_ordered(a * MIB, b * MIB, KV_SHARE_UNIT as int);
    if kv > 0 {
        vstd::arithmetic::div_mod::lemma_div_is_ordered(
            cache_budget(small) as int,
            cache_budget(large) as int,
            kv as int,
        );
    }
}

// ---------------------------------------------------------------- the choice

/// The bytes of a card of this many MiB, held at single precision.
pub open spec fn card_bytes(vram_mib: nat) -> nat {
    saturated(scale::nearest(vram_mib) * (MIB as nat))
}

fn bytes_of_card(vram_mib: u64) -> (r: u64)
    ensures
        r == card_bytes(vram_mib as nat),
{
    let n: u128 = scale::round_to_nearest(vram_mib as u128) * MIB;
    if n > u64::MAX as u128 {
        u64::MAX
    } else {
        n as u64
    }
}

/// What setup decided, and why.
#[derive(Debug, Clone, Copy, PartialEq, Eq, Structural)]
pub struct Choice {
    pub ctx: usize,
    pub kv_bytes: u64,
    pub dense_bytes: u64,
    /// Routed experts that would live outside VRAM and RAM.
    pub disk_experts: usize,
    /// All routed experts.
    pub expert_count: usize,
    /// True when the weights fit in VRAM plus host RAM, so nothing streams from
    /// disk. False means it will run, but slowly enough to be worth saying so.
    pub fits_in_memory: bool,
    pub vram_mib: u64,
    pub ram_bytes: u64,
}

/// Why there is nothing to run.
#[derive(Debug, Clone, Copy, PartialEq, Eq, Structural)]
pub enum PlanError {
    NoDevice,
    Placement(PlacementError),
    /// What must be resident does not fit on the card.
    TooLarge { vram_mib: u64, dense_bytes: u64, kv_bytes: u64 },
}

/// The context for a file on a card.
pub open spec fn context_for(g: &Gguf, vram_mib: nat) -> nat {
    chosen(
        gguf::tally_of(g.metadata@, "context_length"@) as nat,
        placement::figures(g, MIN_CONTEXT).kv_per_token(),
        vram_mib,
    )
}

/// A plan for the file on a card can be computed in machine words.
pub open spec fn plannable(g: &Gguf, vram_mib: nat) -> bool {
    &&& placement::solvable(g, MIN_CONTEXT)
    &&& placement::solvable(g, context_for(g, vram_mib) as usize)
}

/// What planning a file on a card, beside this much host memory, comes to.
pub open spec fn planned(
    r: Result<Choice, PlanError>,
    g: &Gguf,
    vram_mib: u64,
    ram_bytes: u64,
) -> bool {
    let ctx = context_for(g, vram_mib as nat) as usize;
    let f = placement::figures(g, ctx);
    let card = card_bytes(vram_mib as nat);
    if gguf::vocabulary(g.metadata@) is None {
        r == Err::<Choice, _>(
            PlanError::Placement(PlacementError::Facts(gguf::FactsError::NoVocabulary)),
        )
    } else if f.total == 0 {
        r == Err::<Choice, _>(PlanError::Placement(PlacementError::NoSizes))
    } else if f.resident() > card {
        r == Err::<Choice, _>(
            PlanError::TooLarge {
                vram_mib,
                dense_bytes: f.dense() as u64,
                kv_bytes: f.kv() as u64,
            },
        )
    } else {
        &&& r matches Ok(c)
        &&& c.ctx == ctx
        &&& c.kv_bytes == f.kv()
        &&& c.dense_bytes == f.dense()
        &&& c.expert_count == f.expert_count
        &&& exists|t: placement::Tiers| #[trigger]
            t.fills(f.expert_count, f.per_expert(), f.room(card), ram_bytes as nat)
                && c.disk_experts == t.disk_experts
        &&& c.fits_in_memory == (c.disk_experts == 0)
        &&& c.vram_mib == vram_mib
        &&& c.ram_bytes == ram_bytes
    }
}

/// Works out what a file comes to on a card.
pub fn plan_on(g: &Gguf, vram_mib: u64, ram_bytes: u64) -> (r: Result<Choice, PlanError>)
    requires
        plannable(g, vram_mib as nat),
    ensures
        planned(r, g, vram_mib, ram_bytes),
{
    let card: u64 = bytes_of_card(vram_mib);
    let probe = match Placement::solve(g, MIN_CONTEXT, card, ram_bytes) {
        Ok(p) => p,
        Err(e) => {
            return Err(PlanError::Placement(e));
        },
    };
    let ctx: usize = choose_context(probe.facts.context, probe.kv_bytes_per_token, vram_mib);
    let solved = match Placement::solve(g, ctx, card, ram_bytes) {
        Ok(p) => p,
        Err(e) => {
            return Err(PlanError::Placement(e));
        },
    };
    if solved.dense_bytes + solved.kv_bytes > card {
        return Err(
            PlanError::TooLarge {
                vram_mib,
                dense_bytes: solved.dense_bytes,
                kv_bytes: solved.kv_bytes,
            },
        );
    }
    proof {
        let f = placement::figures(g, ctx);
        assert(solved.tiers().fills(
            f.expert_count,
            f.per_expert(),
            f.room(card as nat),
            ram_bytes as nat,
        ));
    }
    Ok(
        Choice {
            ctx,
            kv_bytes: solved.kv_bytes,
            dense_bytes: solved.dense_bytes,
            disk_experts: solved.disk_experts,
            expert_count: solved.expert_count,
            fits_in_memory: solved.fits_without_disk(),
            vram_mib,
            ram_bytes,
        },
    )
}

/// The host memory that may hold experts.
pub open spec fn usable_ram(machine: &Machine) -> nat {
    saturated(hardware::ram_budget(machine.ram_avail_bytes as nat))
}

/// Work out what this machine should run, without changing anything.
pub fn plan_for(g: &Gguf, machine: &Machine) -> (r: Result<Choice, PlanError>)
    requires
        forall|i: int|
            hardware::largest(
                machine.devices@,
                i,
                hardware::any_discrete(machine.devices@),
            ) ==> plannable(g, (#[trigger] machine.devices@[i]).total_mib as nat),
    ensures
        if machine.devices@.len() == 0 {
            r == Err::<Choice, _>(PlanError::NoDevice)
        } else {
            exists|i: int|
                hardware::largest(machine.devices@, i, hardware::any_discrete(machine.devices@))
                    && planned(
                    r,
                    g,
                    (#[trigger] machine.devices@[i]).total_mib,
                    usable_ram(machine) as u64,
                )
        },
{
    match machine.primary() {
        Some(d) => {
            let ram: u128 = machine.ram_budget_bytes();
            let ram_bytes: u64 = if ram > u64::MAX as u128 {
                u64::MAX
            } else {
                ram as u64
            };
            plan_on(g, d.total_mib, ram_bytes)
        },
        None => Err(PlanError::NoDevice),
    }
}

/// Whether a plan for the file on this machine can be computed in machine
/// words.
pub fn is_plannable(g: &Gguf, machine: &Machine) -> (r: bool)
    ensures
        r == forall|i: int|
            hardware::largest(
                machine.devices@,
                i,
                hardware::any_discrete(machine.devices@),
            ) ==> plannable(g, (#[trigger] machine.devices@[i]).total_mib as nat),
{
    match machine.primary() {
        Some(d) => {
            let ghost k = choose|k: int| #[trigger]
                hardware::largest(machine.devices@, k, hardware::any_discrete(machine.devices@))
                    && *d == machine.devices@[k];
            let r: bool = plannable_on(g, d.total_mib);
            proof {
                assert forall|i: int|
                    hardware::largest(
                        machine.devices@,
                        i,
                        hardware::any_discrete(machine.devices@),
                    ) implies i == k by {
                    hardware::law_the_pick_is_unique(
                        machine.devices@,
                        i,
                        k,
                        hardware::any_discrete(machine.devices@),
                    );
                }
                assert(machine.devices@[k].total_mib == d.total_mib);
            }
            r
        },
        None => true,
    }
}

fn plannable_on(g: &Gguf, vram_mib: u64) -> (r: bool)
    ensures
        r == plannable(g, vram_mib as nat),
{
    if !Placement::is_solvable(g, MIN_CONTEXT) {
        return false;
    }
    match Placement::solve(g, MIN_CONTEXT, 0, 0) {
        Ok(p) => {
            let ctx: usize = choose_context(p.facts.context, p.kv_bytes_per_token, vram_mib);
            Placement::is_solvable(g, ctx)
        },
        Err(_) => {
            assert(placement::figures(g, context_for(g, vram_mib as nat) as usize).total
                == placement::figures(g, MIN_CONTEXT).total);
            true
        },
    }
}

impl Choice {
    /// Past half of the experts landing outside VRAM and RAM, setup refuses.
    ///
    /// There is no disk tier: expert tensors go to VRAM or host memory and
    /// nowhere else, so "on disk" means the runtime mmaps the file and the
    /// operating system faults pages in as they are touched. Decode routes a
    /// different handful of experts per layer per token, which is a scattered
    /// read with almost no locality. A model mostly in that state technically
    /// runs, at a fraction of a token per second.
    ///
    /// Both counts are held at single precision.
    pub open spec fn hopeless(self) -> bool {
        2 * scale::nearest(self.disk_experts as nat) > scale::nearest(
            if self.expert_count == 0 {
                1
            } else {
                self.expert_count as nat
            },
        )
    }

    /// Whether more than half of the experts land outside VRAM and RAM.
    pub fn is_hopeless(&self) -> (r: bool)
        ensures
            r == self.hopeless(),
    {
        let all: u128 = if self.expert_count == 0 {
            1
        } else {
            self.expert_count as u128
        };
        2 * scale::round_to_nearest(self.disk_experts as u128) > scale::round_to_nearest(all)
    }

    /// Whether any expert lands outside VRAM and RAM.
    pub fn spills(&self) -> (r: bool)
        ensures
            r == (self.disk_experts > 0),
    {
        self.disk_experts > 0
    }
}

/// A model whose experts all have a place in memory is never hopeless.
pub proof fn law_a_model_in_memory_is_not_hopeless(c: Choice)
    requires
        c.disk_experts == 0,
    ensures
        !c.hopeless(),
{
    scale::law_small_counts_are_exact(0);
    let n = if c.expert_count == 0 {
        1nat
    } else {
        c.expert_count as nat
    };
    scale::law_small_counts_are_exact(1);
    scale::law_nearest_keeps_order(1, n);
}

/// What setup does with a choice.
#[derive(Debug, Clone, Copy, PartialEq, Eq, Structural)]
pub enum Step {
    /// Nothing: most of the model would be faulted in from disk.
    Refuse,
    /// Nothing: only the choice was asked for.
    Report,
    /// Nothing: a measurement is already there.
    Keep,
    /// Measures the expert split, and writes it down.
    Measure,
}

pub open spec fn step_for(
    c: Choice,
    allow_disk: bool,
    dry_run: bool,
    measured: bool,
    force: bool,
) -> Step {
    if c.hopeless() && !allow_disk {
        Step::Refuse
    } else if dry_run {
        Step::Report
    } else if measured && !force {
        Step::Keep
    } else {
        Step::Measure
    }
}

/// What to do with a choice. `measured` says whether a measurement for it is
/// already there.
pub fn next_step(c: &Choice, allow_disk: bool, dry_run: bool, measured: bool, force: bool) -> (r:
    Step)
    ensures
        r == step_for(*c, allow_disk, dry_run, measured, force),
{
    if c.is_hopeless() && !allow_disk {
        Step::Refuse
    } else if dry_run {
        Step::Report
    } else if measured && !force {
        Step::Keep
    } else {
        Step::Measure
    }
}

/// Setup never replaces a measurement that is already there, unless told to.
pub proof fn law_a_measurement_is_never_quietly_replaced(
    c: Choice,
    allow_disk: bool,
    dry_run: bool,
    force: bool,
)
    ensures
        step_for(c, allow_disk, dry_run, true, force) == Step::Measure ==> force,
        step_for(c, allow_disk, true, true, force) != Step::Measure,
{
}

// ---------------------------------------------------------------- what is shown

/// How a device is marked in the list.
#[derive(Debug, Clone, Copy, PartialEq, Eq, Structural)]
pub enum Role {
    Planned,
    Integrated,
    Other,
}

/// The device that is planned against has this id.
pub open spec fn planned_id(machine: &Machine, id: Seq<char>) -> bool {
    exists|i: int| #[trigger]
        hardware::largest(machine.devices@, i, hardware::any_discrete(machine.devices@))
            && machine.devices@[i].id@ == id
}

/// How a device is marked.
pub fn role_of(machine: &Machine, d: &Device) -> (r: Role)
    ensures
        r == if planned_id(machine, d.id@) {
            Role::Planned
        } else if hardware::integrated(d.name@) {
            Role::Integrated
        } else {
            Role::Other
        },
{
    let planned: bool = match machine.primary() {
        Some(p) => {
            proof {
                let any = hardware::any_discrete(machine.devices@);
                let k = choose|k: int| #[trigger]
                    hardware::largest(machine.devices@, k, any) && *p == machine.devices@[k];
                assert forall|i: int| #[trigger]
                    hardware::largest(machine.devices@, i, any) implies i == k by {
                    hardware::law_the_pick_is_unique(machine.devices@, i, k, any);
                }
            }
            text::same(p.id.as_str(), d.id.as_str())
        },
        None => false,
    };
    if planned {
        Role::Planned
    } else if d.looks_integrated() {
        Role::Integrated
    } else {
        Role::Other
    }
}

/// The only model on disk, when there is exactly one. Several are an error
/// that lists them.
pub fn sole_model(found: Vec<String>) -> (r: Result<Option<String>, String>)
    ensures
        match r {
            Ok(None) => found@.len() == 0,
            Ok(Some(m)) => found@.len() == 1 && m@ == found@[0]@,
            Err(all) => found@.len() > 1 && all@ == text::joined(text::texts(found@), ", "@),
        },
{
    if found.len() == 0 {
        Ok(None)
    } else if found.len() == 1 {
        Ok(Some(found[0].clone()))
    } else {
        Err(text::join(&found, ", "))
    }
}

// ---------------------------------------------------------------- what is promised

/// The cache may take a tenth of a card, to one part in a million, cut to a byte.
pub proof fn law_the_cache_may_take_a_tenth_of_the_card(vram_mib: nat)
    requires
        vram_mib <= 0x100_0000_0000,
    ensures
        10_000_000 * cache_budget(vram_mib) <= 1_000_001 * (vram_mib * 1048576),
        999_999 * (vram_mib * 1048576) <= 10_000_000 * (cache_budget(vram_mib) + 1),
{
    scale::law_a_product_keeps_its_size(vram_mib, 13421773);
    let p = scale::product(vram_mib, 13421773);
    assert(vram_mib * 13421773 == 13421773 * vram_mib);
    assert(p * 1048576 / 134217728 == p / 128);
}

/// The bytes of a card are its MiB, exactly where there are fewer than sixteen
/// million of them.
pub proof fn law_a_card_is_as_large_as_it_says(vram_mib: nat)
    requires
        vram_mib < 16_777_216,
    ensures
        card_bytes(vram_mib) == vram_mib * 1048576,
{
    scale::law_small_counts_are_exact(vram_mib);
}

/// A model is hopeless exactly where more than half of its experts have no place
/// in memory.
pub proof fn law_hopeless_is_more_than_half(c: Choice)
    requires
        c.disk_experts < 16_777_216,
        0 < c.expert_count < 16_777_216,
    ensures
        c.hopeless() <==> 2 * c.disk_experts > c.expert_count,
{
    scale::law_small_counts_are_exact(c.disk_experts as nat);
    scale::law_small_counts_are_exact(c.expert_count as nat);
}

/// Setup measures exactly where the model is worth running or disk is allowed,
/// it is not a dry run, and there is no measurement yet or a new one is forced.
pub proof fn law_setup_measures_where_it_should(
    c: Choice,
    allow_disk: bool,
    dry_run: bool,
    measured: bool,
    force: bool,
)
    ensures
        ({
            let s = step_for(c, allow_disk, dry_run, measured, force);
            &&& s == Step::Measure <==> (!c.hopeless() || allow_disk) && !dry_run && (!measured
                || force)
            &&& s == Step::Refuse <==> c.hopeless() && !allow_disk
            &&& s == Step::Report <==> (!c.hopeless() || allow_disk) && dry_run
            &&& s == Step::Keep <==> (!c.hopeless() || allow_disk) && !dry_run && measured && !force
        }),
{
}

/// The rung is the largest of the ladder that is not above the limit, where one
/// is not.
pub proof fn law_the_rung_is_the_largest_below(limit: nat, c: nat)
    requires
        on_ladder(c),
    ensures
        on_ladder(rung_below(limit)),
        limit >= 2048 ==> rung_below(limit) <= limit,
        limit < 2048 ==> rung_below(limit) == 2048,
        c <= limit ==> c <= rung_below(limit),
{
}

/// A choice is one that fits: what must be resident is within the card, and its
/// context is one of the ladder. Nothing is chosen only where the file has no
/// vocabulary, where no size is known, or where what must be resident does not
/// fit.
pub proof fn law_a_choice_fits_the_card(
    r: Result<Choice, PlanError>,
    g: &Gguf,
    vram_mib: u64,
    ram_bytes: u64,
)
    requires
        planned(r, g, vram_mib, ram_bytes),
        vram_mib < 16_777_216,
    ensures
        r matches Ok(c) ==> {
            &&& c.dense_bytes + c.kv_bytes <= vram_mib * 1048576
            &&& on_ladder(c.ctx as nat)
            &&& c.disk_experts <= c.expert_count
            &&& c.fits_in_memory <==> c.disk_experts == 0
            &&& c.vram_mib == vram_mib && c.ram_bytes == ram_bytes
        },
        r is Err ==> {
            let f = placement::figures(g, context_for(g, vram_mib as nat) as usize);
            gguf::vocabulary(g.metadata@) is None || f.total == 0 || f.resident() > vram_mib
                * 1048576
        },
{
    law_a_card_is_as_large_as_it_says(vram_mib as nat);
    law_context_lands_on_the_ladder(
        gguf::tally_of(g.metadata@, "context_length"@) as nat,
        placement::figures(g, MIN_CONTEXT).kv_per_token(),
        vram_mib as nat,
    );
}

} // verus!

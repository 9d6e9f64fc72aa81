//! Placement computed from the model file.
//!
//! Every number here is derived from the tensor index and metadata of the
//! file. Where something cannot be measured it is left out rather than
//! estimated.
use crate::gguf;
use crate::gguf::{FactsError, Gguf, ModelFacts, Tensor};
use crate::text;
use vstd::prelude::*;

verus! {

/// Where a weight can live.
#[derive(Debug, Clone, Copy, PartialEq, Eq, Structural)]
pub enum Tier {
    Vram,
    Ram,
    Disk,
}

// ---------------------------------------------------------------- finding a file

/// Where a model file is looked for.
#[derive(Debug, Clone, Copy, PartialEq, Eq, Structural)]
pub enum Place {
    /// The name is itself a path.
    Direct,
    /// `rocm/models/<name>/model.gguf` under the working directory.
    Local,
    /// The same under the directory the program was built in.
    Bundled,
}

/// One place to look for a model file.
#[derive(Debug)]
pub struct Candidate {
    pub place: Place,
    pub name: String,
}

/// A name with what separates paths replaced, so that it names one directory.
pub open spec fn safe_char(c: char) -> char {
    if c == ':' || c == '/' || c == '\\' {
        '_'
    } else {
        c
    }
}

pub open spec fn safe_name(s: Seq<char>) -> Seq<char> {
    Seq::new(s.len(), |i: int| safe_char(s[i]))
}

/// Replaces what separates paths.
pub fn make_safe(model: &str) -> (r: String)
    ensures
        r@ == safe_name(model@),
{
    let v = text::chars_of(model);
    let mut r = String::new();
    let mut i: usize = 0;
    while i < v.len()
        invariant
            i <= v@.len(),
            v@ == model@,
            r@ == safe_name(model@).take(i as int),
        decreases v@.len() - i,
    {
        let c: char = v[i];
        let d: char = if c == ':' || c == '/' || c == '\\' {
            '_'
        } else {
            c
        };
        r.push(d);
        assert(safe_name(model@).take(i as int).push(d) =~= safe_name(model@).take(i + 1));
        i = i + 1;
    }
    assert(safe_name(model@).take(i as int) =~= safe_name(model@));
    r
}

/// The places to look for a model, in order.
pub open spec fn places(model: Seq<char>) -> Seq<(Place, Seq<char>)> {
    seq![
        (Place::Direct, model),
        (Place::Local, safe_name(model)),
        (Place::Local, model),
        (Place::Bundled, safe_name(model)),
    ]
}

/// The places to look for a model, in order.
pub fn candidates(model: &str) -> (r: Vec<Candidate>)
    ensures
        r@.len() == places(model@).len(),
        forall|i: int|
            0 <= i < r@.len() ==> ((#[trigger] r@[i]).place, r@[i].name@) == places(model@)[i],
{
    let safe = make_safe(model);
    let again = make_safe(model);
    let mut r: Vec<Candidate> = Vec::new();
    r.push(Candidate { place: Place::Direct, name: model.to_owned() });
    r.push(Candidate { place: Place::Local, name: safe });
    r.push(Candidate { place: Place::Local, name: model.to_owned() });
    r.push(Candidate { place: Place::Bundled, name: again });
    r
}

/// Find a model file from a name or a path: the first place that holds a file.
/// `present` says of each place, in the order of [`candidates`], whether it
/// does.
pub fn resolve_path(model: &str, present: &[bool]) -> (r: Option<Candidate>)
    requires
        present@.len() == places(model@).len(),
    ensures
        match r {
            Some(c) => exists|i: int|
                #![trigger present@[i]]
                0 <= i < present@.len() && present@[i] && (c.place, c.name@) == places(model@)[i]
                    && forall|j: int| 0 <= j < i ==> !present@[j],
            None => forall|j: int| 0 <= j < present@.len() ==> !present@[j],
        },
{
    let mut all = candidates(model);
    let mut i: usize = 0;
    while i < present.len()
        invariant
            i <= present@.len(),
            present@.len() == places(model@).len(),
            all@.len() == places(model@).len(),
            forall|j: int|
                0 <= j < all@.len() ==> ((#[trigger] all@[j]).place, all@[j].name@) == places(
                    model@,
                )[j],
            forall|j: int| 0 <= j < i ==> !present@[j],
        decreases present@.len() - i,
    {
        if present[i] {
            let c = all.remove(i);
            return Some(c);
        }
        i = i + 1;
    }
    None
}

/// A name made safe holds nothing that separates paths.
pub proof fn law_safe_names_are_one_directory(s: Seq<char>)
    ensures
        safe_name(s).len() == s.len(),
        forall|i: int|
            0 <= i < s.len() ==> safe_name(s)[i] != ':' && safe_name(s)[i] != '/' && safe_name(s)[i]
                != '\\',
{
}

// ---------------------------------------------------------------- tiers

/// How the routed experts divide across the three tiers.
#[derive(Debug, Clone, Copy, PartialEq, Eq, Structural)]
pub struct Tiers {
    pub vram_experts: usize,
    pub ram_experts: usize,
    /// Experts with nowhere to live. There is no disk tier in the runtime, so
    /// this is not a placement - it is the count that will be faulted out of
    /// the mmapped file on demand, and it is the number that decides whether a
    /// model is worth running at all.
    pub disk_experts: usize,
}

pub open spec fn least(a: nat, b: nat) -> nat {
    if a < b {
        a
    } else {
        b
    }
}

/// How many of `count` experts of `per_expert` bytes a budget holds.
pub open spec fn held(count: nat, per_expert: nat, budget: nat) -> nat {
    if per_expert == 0 {
        0
    } else {
        least(budget / per_expert, count)
    }
}

impl Tiers {
    /// The division is the one that fills VRAM, then host RAM.
    pub open spec fn fills(self, count: nat, per_expert: nat, vram: nat, ram: nat) -> bool {
        &&& self.vram_experts == held(count, per_expert, vram)
        &&& self.ram_experts == held((count - self.vram_experts) as nat, per_expert, ram)
        &&& self.disk_experts == count - self.vram_experts - self.ram_experts
    }
}

/// Fill VRAM first, then host RAM, then give up.
///
/// Greedy and deliberately so: the dense weights and the KV cache have already
/// been taken out of the VRAM budget by the caller, because those must be
/// resident for the model to run at all. Experts are what is left to place.
pub fn fill_tiers(
    expert_count: usize,
    per_expert: u64,
    vram_after_fixed: u64,
    ram_budget: u64,
) -> (r: Tiers)
    ensures
        r.fills(
            expert_count as nat,
            per_expert as nat,
            vram_after_fixed as nat,
            ram_budget as nat,
        ),
        r.vram_experts + r.ram_experts + r.disk_experts == expert_count,
{
    if per_expert == 0 || expert_count == 0 {
        return Tiers { vram_experts: 0, ram_experts: 0, disk_experts: expert_count };
    }
    let room: u64 = vram_after_fixed / per_expert;
    let vram_experts: usize = if room < expert_count as u64 {
        room as usize
    } else {
        expert_count
    };
    let left: usize = expert_count - vram_experts;
    let more: u64 = ram_budget / per_expert;
    let ram_experts: usize = if more < left as u64 {
        more as usize
    } else {
        left
    };
    Tiers { vram_experts, ram_experts, disk_experts: left - ram_experts }
}

/// The experts placed in a memory fit into it, and experts reach the next tier
/// only where one more would not have fitted.
pub proof fn law_tiers_are_filled_in_order(
    t: Tiers,
    count: nat,
    per_expert: nat,
    vram: nat,
    ram: nat,
)
    requires
        t.fills(count, per_expert, vram, ram),
        per_expert > 0,
    ensures
        t.vram_experts * per_expert <= vram,
        t.ram_experts * per_expert <= ram,
        t.ram_experts + t.disk_experts > 0 ==> (t.vram_experts + 1) * per_expert > vram,
        t.disk_experts > 0 ==> (t.ram_experts + 1) * per_expert > ram,
        t.vram_experts + t.ram_experts + t.disk_experts == count,
{
    lemma_held(count, per_expert, vram);
    lemma_held((count - t.vram_experts) as nat, per_expert, ram);
}

proof fn lemma_held(count: nat, per_expert: nat, budget: nat)
    requires
        per_expert > 0,
    ensures
        held(count, per_expert, budget) <= count,
        held(count, per_expert, budget) * per_expert <= budget,
        held(count, per_expert, budget) < count ==> (held(count, per_expert, budget) + 1)
            * per_expert > budget,
{
    let q = budget / per_expert;
    vstd::arithmetic::div_mod::lemma_fundamental_div_mod(budget as int, per_expert as int);
    vstd::arithmetic::div_mod::lemma_mod_bound(budget as int, per_expert as int);
    assert(q * per_expert <= budget && (q + 1) * per_expert > budget) by (nonlinear_arith)
        requires
            budget == per_expert * q + budget % per_expert,
            0 <= budget % per_expert < per_expert,
    ;
    let h = held(count, per_expert, budget);
    assert(h * per_expert <= q * per_expert) by (nonlinear_arith)
        requires
            h <= q,
    ;
}

/// More memory of either kind never spills more experts.
pub proof fn law_more_memory_never_spills_more(
    a: Tiers,
    b: Tiers,
    count: nat,
    per_expert: nat,
    vram: nat,
    ram: nat,
    more_vram: nat,
    more_ram: nat,
)
    requires
        a.fills(count, per_expert, vram, ram),
        b.fills(count, per_expert, more_vram, more_ram),
        vram <= more_vram,
        ram <= more_ram,
    ensures
        b.disk_experts <= a.disk_experts,
        b.vram_experts >= a.vram_experts,
{
    if per_expert > 0 {
        vstd::arithmetic::div_mod::lemma_div_is_ordered(
            vram as int,
            more_vram as int,
            per_expert as int,
        );
        vstd::arithmetic::div_mod::lemma_div_is_ordered(
            ram as int,
            more_ram as int,
            per_expert as int,
        );
    }
}

// ---------------------------------------------------------------- the plan

/// A tensor holds routed experts. A shared expert (`*_shexp.*`) is dense: it
/// runs for every token.
pub open spec fn holds_experts(name: Seq<char>) -> bool {
    text::has(name, "_exps."@)
}

/// The bytes of the tensors that hold routed experts.
pub open spec fn expert_size(s: Seq<Tensor>) -> nat
    decreases s.len(),
{
    if s.len() == 0 {
        0
    } else {
        expert_size(s.drop_last()) + if holds_experts(s.last().name) {
            s.last().known_size()
        } else {
            0nat
        }
    }
}

/// Experts are part of the weights.
pub proof fn law_experts_are_part_of_the_weights(s: Seq<Tensor>)
    ensures
        expert_size(s) <= gguf::total_size(s),
    decreases s.len(),
{
    if s.len() > 0 {
        law_experts_are_part_of_the_weights(s.drop_last());
    }
}

proof fn lemma_sizes_grow(s: Seq<Tensor>, n: int)
    requires
        0 <= n <= s.len(),
    ensures
        gguf::total_size(s.take(n)) <= gguf::total_size(s),
    decreases s.len(),
{
    if n == s.len() {
        assert(s.take(n) =~= s);
    } else {
        lemma_sizes_grow(s.drop_last(), n);
        assert(s.drop_last().take(n) =~= s.take(n));
    }
}

/// Layers that keep a KV cache. On a hybrid model the others carry a fixed
/// recurrent state instead, which does not grow with the context.
pub open spec fn caching_layers(layers: usize, interval: Option<usize>) -> usize {
    match interval {
        Some(n) => if n > 0 {
            layers / n
        } else {
            layers
        },
        None => layers,
    }
}

/// What a plan is computed from.
pub struct Figures {
    pub total: nat,
    pub experts: nat,
    pub expert_count: nat,
    pub attention_layers: nat,
    pub kv_heads: nat,
    pub head_length: nat,
    pub ctx: nat,
}

/// The figures of a file at a context.
pub open spec fn figures(g: &Gguf, ctx: usize) -> Figures {
    let m = g.metadata@;
    let layers = gguf::tally_of(m, "block_count"@);
    Figures {
        total: gguf::total_size(gguf::shapes(g.tensors@)),
        experts: expert_size(gguf::shapes(g.tensors@)),
        expert_count: layers as nat * gguf::tally_of(m, "expert_count"@) as nat,
        attention_layers: caching_layers(
            layers,
            gguf::optional_tally(m, "full_attention_interval"@),
        ) as nat,
        kv_heads: gguf::tally_of(m, "attention.head_count_kv"@) as nat,
        head_length: or_zero(gguf::scoped_whole(m, "attention.key_length"@)) + or_zero(
            gguf::scoped_whole(m, "attention.value_length"@),
        ),
        ctx: ctx as nat,
    }
}

pub open spec fn or_zero(v: Option<u64>) -> nat {
    match v {
        Some(n) => n as nat,
        None => 0,
    }
}

impl Figures {
    /// Everything that is not a routed expert.
    pub open spec fn dense(self) -> nat {
        (self.total - self.experts) as nat
    }

    /// The cached heads over all layers.
    pub open spec fn heads(self) -> nat {
        self.attention_layers * self.kv_heads
    }

    /// Bytes of cache per token: two of them per element, for keys and values,
    /// per head, per layer.
    pub open spec fn kv_per_token(self) -> nat {
        self.heads() * self.head_length * 2
    }

    pub open spec fn kv(self) -> nat {
        self.kv_per_token() * self.ctx
    }

    /// What must be resident before any expert.
    pub open spec fn resident(self) -> nat {
        self.dense() + self.kv()
    }

    pub open spec fn per_expert(self) -> nat {
        if self.expert_count > 0 {
            self.experts / self.expert_count
        } else {
            0
        }
    }

    /// The VRAM that is left for experts.
    pub open spec fn room(self, vram_budget: nat) -> nat {
        if vram_budget > self.resident() {
            (vram_budget - self.resident()) as nat
        } else {
            0
        }
    }

    /// Every figure fits into a machine word.
    pub open spec fn fit(self) -> bool {
        &&& self.expert_count <= usize::MAX
        &&& self.head_length <= u64::MAX
        &&& self.heads() <= u64::MAX
        &&& self.heads() * self.head_length <= u64::MAX
        &&& self.kv_per_token() <= u64::MAX
        &&& self.kv() <= u64::MAX
        &&& self.resident() <= u64::MAX
    }
}

/// The plan for a file at a context can be computed in machine words: there
/// is nothing to compute where the file has no vocabulary, and nothing beyond
/// the sizes where these are all zero.
pub open spec fn solvable(g: &Gguf, ctx: usize) -> bool {
    gguf::vocabulary(g.metadata@) is Some ==> {
        &&& g.measurable()
        &&& figures(g, ctx).total > 0 ==> figures(g, ctx).fit()
    }
}

/// Why no plan could be made.
#[derive(Debug, Clone, Copy, PartialEq, Eq, Structural)]
pub enum PlacementError {
    Facts(FactsError),
    /// The stored size of no tensor is known.
    NoSizes,
}

/// Which experts go where.
#[derive(Debug)]
pub struct Placement {
    pub facts: ModelFacts,
    /// Summed from the tensor index - the real stored size.
    pub total_weight_bytes: u64,
    /// Tensors that hold routed experts (`*_exps.*`).
    pub expert_bytes: u64,
    /// Everything else: attention, norms, shared experts, embeddings.
    pub dense_bytes: u64,
    /// Number of routed experts across all layers.
    pub expert_count: usize,
    /// Bytes of KV cache per token, over layers that actually keep one.
    pub kv_bytes_per_token: u64,
    /// Layers that run full attention (the rest are recurrent, if hybrid).
    pub attention_layers: usize,
    pub ctx: usize,
    /// What the plan was solved against.
    pub vram_budget: u64,
    pub ram_budget: u64,
    /// The solution.
    pub vram_experts: usize,
    pub ram_experts: usize,
    pub disk_experts: usize,
    pub kv_bytes: u64,
}

impl Placement {
    /// The plan is the one for this file, context and budgets.
    pub open spec fn solves(&self, g: &Gguf, ctx: usize, vram_budget: u64, ram_budget: u64) -> bool {
        let f = figures(g, ctx);
        &&& self.facts.describes(g)
        &&& self.total_weight_bytes == f.total
        &&& self.expert_bytes == f.experts
        &&& self.dense_bytes == f.dense()
        &&& self.expert_count == f.expert_count
        &&& self.kv_bytes_per_token == f.kv_per_token()
        &&& self.attention_layers == f.attention_layers
        &&& self.ctx == ctx
        &&& self.vram_budget == vram_budget
        &&& self.ram_budget == ram_budget
        &&& self.tiers().fills(
            f.expert_count,
            f.per_expert(),
            f.room(vram_budget as nat),
            ram_budget as nat,
        )
        &&& self.kv_bytes == f.kv()
    }

    pub open spec fn tiers(&self) -> Tiers {
        Tiers {
            vram_experts: self.vram_experts,
            ram_experts: self.ram_experts,
            disk_experts: self.disk_experts,
        }
    }

    /// The bytes of all tensors, and of those that hold experts.
    fn weigh(g: &Gguf) -> (r: (u64, u64))
        requires
            g.measurable(),
        ensures
            r.0 == gguf::total_size(gguf::shapes(g.tensors@)),
            r.1 == expert_size(gguf::shapes(g.tensors@)),
            r.1 <= r.0,
    {
        let ghost all = gguf::shapes(g.tensors@);
        let mut total: u64 = 0;
        let mut experts: u64 = 0;
        let mut i: usize = 0;
        while i < g.tensors.len()
            invariant
                i <= g.tensors@.len(),
                g.measurable(),
                all == gguf::shapes(g.tensors@),
                total == gguf::total_size(all.take(i as int)),
                experts == expert_size(all.take(i as int)),
            decreases g.tensors@.len() - i,
        {
            proof {
                assert(all.take(i + 1).drop_last() =~= all.take(i as int));
                lemma_sizes_grow(all, i + 1);
                law_experts_are_part_of_the_weights(all.take(i + 1));
            }
            let bytes: u64 = match g.tensors[i].bytes() {
                Some(n) => n,
                None => 0,
            };
            total = total + bytes;
            if text::contains(g.tensors[i].name.as_str(), "_exps.") {
                experts = experts + bytes;
            }
            i = i + 1;
        }
        assert(all.take(i as int) =~= all);
        proof {
            law_experts_are_part_of_the_weights(all);
        }
        (total, experts)
    }

    /// Layers that keep a KV cache.
    fn cached(facts: &ModelFacts) -> (r: usize)
        ensures
            r == caching_layers(facts.layers, facts.full_attention_interval),
    {
        match facts.full_attention_interval {
            Some(n) => if n > 0 {
                facts.layers / n
            } else {
                facts.layers
            },
            None => facts.layers,
        }
    }

    fn length(g: &Gguf, suffix: &str) -> (r: u64)
        ensures
            r == or_zero(gguf::scoped_whole(g.metadata@, suffix@)),
    {
        match g.key_u64(suffix) {
            Some(n) => n,
            None => 0,
        }
    }

    /// Solve placement for a model file against a VRAM and RAM budget, both in
    /// bytes.
    pub fn solve(g: &Gguf, ctx: usize, vram_budget: u64, ram_budget: u64) -> (r: Result<
        Placement,
        PlacementError,
    >)
        requires
            solvable(g, ctx),
        ensures
            match r {
                Ok(p) => gguf::vocabulary(g.metadata@) is Some && figures(g, ctx).total > 0
                    && p.solves(g, ctx, vram_budget, ram_budget),
                Err(PlacementError::Facts(e)) => gguf::vocabulary(g.metadata@) is None && e
                    == FactsError::NoVocabulary,
                Err(PlacementError::NoSizes) => gguf::vocabulary(g.metadata@) is Some && figures(
                    g,
                    ctx,
                ).total == 0,
            },
    {
        let facts = match ModelFacts::read(g) {
            Ok(f) => f,
            Err(e) => {
                return Err(PlacementError::Facts(e));
            },
        };
        let (total, expert_bytes) = Self::weigh(g);
        if total == 0 {
            return Err(PlacementError::NoSizes);
        }
        let ghost f = figures(g, ctx);
        let dense_bytes: u64 = total - expert_bytes;
        let expert_count: usize = facts.layers * facts.experts;
        let attention_layers: usize = Self::cached(&facts);
        let head_length: u64 = Self::length(g, "attention.key_length") + Self::length(
            g,
            "attention.value_length",
        );
        let heads: u64 = attention_layers as u64 * facts.kv_heads as u64;
        let kv_bytes_per_token: u64 = heads * head_length * 2;
        let kv_bytes: u64 = kv_bytes_per_token * ctx as u64;
        let per_expert: u64 = if expert_count > 0 {
            expert_bytes / expert_count as u64
        } else {
            0
        };
        let fixed: u64 = dense_bytes + kv_bytes;
        let vram_after_fixed: u64 = if vram_budget > fixed {
            vram_budget - fixed
        } else {
            0
        };
        let t = fill_tiers(expert_count, per_expert, vram_after_fixed, ram_budget);
        Ok(
            Placement {
                facts,
                total_weight_bytes: total,
                expert_bytes,
                dense_bytes,
                expert_count,
                kv_bytes_per_token,
                attention_layers,
                ctx,
                vram_budget,
                ram_budget,
                vram_experts: t.vram_experts,
                ram_experts: t.ram_experts,
                disk_experts: t.disk_experts,
                kv_bytes,
            },
        )
    }

    /// Whether the plan for a file at a context can be computed in machine
    /// words.
    pub fn is_solvable(g: &Gguf, ctx: usize) -> (r: bool)
        ensures
            r == solvable(g, ctx),
    {
        let facts = match ModelFacts::read(g) {
            Ok(f) => f,
            Err(_) => {
                return true;
            },
        };
        if !g.is_measurable() {
            return false;
        }
        let (total, expert_bytes) = Self::weigh(g);
        if total == 0 {
            return true;
        }
        let ghost f = figures(g, ctx);
        if facts.layers.checked_mul(facts.experts).is_none() {
            return false;
        }
        let head_length: u64 = match Self::length(g, "attention.key_length").checked_add(
            Self::length(g, "attention.value_length"),
        ) {
            Some(n) => n,
            None => {
                return false;
            },
        };
        let heads: u64 = match (Self::cached(&facts) as u64).checked_mul(facts.kv_heads as u64) {
            Some(n) => n,
            None => {
                return false;
            },
        };
        let per_layer: u64 = match heads.checked_mul(head_length) {
            Some(n) => n,
            None => {
                return false;
            },
        };
        let per_token: u64 = match per_layer.checked_mul(2) {
            Some(n) => n,
            None => {
                return false;
            },
        };
        let kv: u64 = match per_token.checked_mul(ctx as u64) {
            Some(n) => n,
            None => {
                return false;
            },
        };
        (total - expert_bytes).checked_add(kv).is_some()
    }

    /// Layers to offload, for a runtime that offloads whole layers.
    pub fn gpu_layers(&self) -> (r: usize)
        requires
            self.dense_bytes + self.kv_bytes <= u64::MAX,
        ensures
            r == offloadable(
                self.dense_bytes as nat,
                self.kv_bytes as nat,
                self.total_weight_bytes as nat,
                self.facts.layers as nat,
                self.vram_budget as nat,
            ),
    {
        let resident: u64 = self.dense_bytes + self.kv_bytes;
        if resident >= self.vram_budget {
            return 0;
        }
        let layers: u64 = if self.facts.layers == 0 {
            1
        } else {
            self.facts.layers as u64
        };
        let per_layer: u64 = self.total_weight_bytes / layers;
        if per_layer == 0 {
            return 0;
        }
        let n: u64 = (self.vram_budget - self.kv_bytes) / per_layer;
        if n < self.facts.layers as u64 {
            n as usize
        } else {
            self.facts.layers
        }
    }

    /// Whether every expert has a place in memory.
    pub fn fits_without_disk(&self) -> (r: bool)
        ensures
            r == (self.disk_experts == 0),
    {
        self.disk_experts == 0
    }
}

/// How many layers of the average size fit beside the cache, none where what
/// must be resident does not.
pub open spec fn offloadable(dense: nat, kv: nat, total: nat, layers: nat, budget: nat) -> nat {
    let per_layer = total / if layers == 0 {
        1
    } else {
        layers
    };
    if dense + kv >= budget || per_layer == 0 {
        0
    } else {
        least(((budget - kv) / per_layer as int) as nat, layers)
    }
}

/// A solved plan accounts for every expert and for every byte of the weights,
/// and its layers are among those of the model.
pub proof fn law_a_plan_accounts_for_everything(
    p: &Placement,
    g: &Gguf,
    ctx: usize,
    vram_budget: u64,
    ram_budget: u64,
)
    requires
        p.solves(g, ctx, vram_budget, ram_budget),
    ensures
        p.vram_experts + p.ram_experts + p.disk_experts == p.expert_count,
        p.dense_bytes + p.expert_bytes == p.total_weight_bytes,
        p.attention_layers <= p.facts.layers,
{
    law_experts_are_part_of_the_weights(gguf::shapes(g.tensors@));
    if let Some(n) = p.facts.full_attention_interval {
        if n > 0 {
            vstd::arithmetic::div_mod::lemma_div_is_ordered_by_denominator(
                p.facts.layers as int,
                1,
                n as int,
            );
            assert(p.facts.layers as int / 1 == p.facts.layers);
        }
    }
}

/// The experts that are put on the card fit there beside what must be
/// resident.
pub proof fn law_a_plan_fits_the_card(
    p: &Placement,
    g: &Gguf,
    ctx: usize,
    vram_budget: u64,
    ram_budget: u64,
)
    requires
        p.solves(g, ctx, vram_budget, ram_budget),
        p.vram_experts > 0,
    ensures
        p.dense_bytes + p.kv_bytes + p.vram_experts * (p.expert_bytes / p.expert_count as u64)
            <= vram_budget,
{
    let f = figures(g, ctx);
    law_tiers_are_filled_in_order(
        p.tiers(),
        f.expert_count,
        f.per_expert(),
        f.room(vram_budget as nat),
        ram_budget as nat,
    );
    let each = f.per_expert();
    assert(p.vram_experts * each > 0) by (nonlinear_arith)
        requires
            p.vram_experts > 0,
            each > 0,
    ;
}

// ---------------------------------------------------------------- what a plan comes to

/// Of every `n` layers the last keeps a cache, where there is an interval; where
/// there is none, every layer does. So adding a layer adds a cache exactly where
/// its number is a multiple of the interval.
pub proof fn law_one_layer_in_every_interval_keeps_a_cache(layers: usize, interval: Option<usize>)
    ensures
        interval matches Some(n) ==> n == 0 || {
            &&& caching_layers(layers, interval) * n <= layers
            &&& layers < (caching_layers(layers, interval) + 1) * n
            &&& layers < usize::MAX ==> caching_layers((layers + 1) as usize, interval)
                == caching_layers(layers, interval) + if (layers + 1) % (n as int) == 0 {
                1int
            } else {
                0int
            }
        },
        caching_layers(0, interval) == 0,
        interval is None || interval == Some(0usize) ==> caching_layers(layers, interval) == layers,
{
    if let Some(n) = interval {
        if n > 0 {
            let (l, d) = (layers as int, n as int);
            let q = l / d;
            vstd::arithmetic::div_mod::lemma_fundamental_div_mod(l, d);
            vstd::arithmetic::div_mod::lemma_mod_bound(l, d);
            assert(q * d == d * q && (q + 1) * d == d * q + d) by (nonlinear_arith);
            let r = l % d;
            if r + 1 == d {
                assert(l + 1 == (q + 1) * d);
                vstd::arithmetic::div_mod::lemma_fundamental_div_mod_converse(
                    l + 1,
                    d,
                    q + 1,
                    0,
                );
            } else {
                vstd::arithmetic::div_mod::lemma_fundamental_div_mod_converse(
                    l + 1,
                    d,
                    q,
                    r + 1,
                );
            }
            vstd::arithmetic::div_mod::lemma_fundamental_div_mod_converse(0, d, 0, 0);
        }
    }
}

/// The cache of a plan: for every token of the context, every layer that keeps
/// one and every head of it, two bytes for each element of a key and of a value.
pub proof fn law_the_cache_is_keys_and_values_of_every_token(
    p: &Placement,
    g: &Gguf,
    ctx: usize,
    vram_budget: u64,
    ram_budget: u64,
    key_length: u64,
    value_length: u64,
)
    requires
        p.solves(g, ctx, vram_budget, ram_budget),
        gguf::scoped_whole(g.metadata@, "attention.key_length"@) == Some(key_length),
        gguf::scoped_whole(g.metadata@, "attention.value_length"@) == Some(value_length),
    ensures
        p.kv_bytes_per_token == p.attention_layers * p.facts.kv_heads * (key_length + value_length)
            * 2,
        p.kv_bytes == p.kv_bytes_per_token * ctx,
        p.attention_layers == caching_layers(p.facts.layers, p.facts.full_attention_interval),
        p.ctx == ctx,
        p.vram_budget == vram_budget,
        p.ram_budget == ram_budget,
{
}

/// The weights of a plan are those of its file, told apart by their names: every
/// tensor counts once, and as an expert where its name says so.
pub proof fn law_a_plan_weighs_its_file(
    p: &Placement,
    g: &Gguf,
    ctx: usize,
    vram_budget: u64,
    ram_budget: u64,
)
    requires
        p.solves(g, ctx, vram_budget, ram_budget),
    ensures
        p.total_weight_bytes == gguf::total_size(gguf::shapes(g.tensors@)),
        p.expert_bytes == gguf::total_size(
            gguf::shapes(g.tensors@).filter(|t: Tensor| text::has(t.name, "_exps."@)),
        ),
        p.dense_bytes + p.expert_bytes == p.total_weight_bytes,
        p.expert_count == p.facts.layers * p.facts.experts,
{
    lemma_experts_are_filtered(gguf::shapes(g.tensors@));
    law_experts_are_part_of_the_weights(gguf::shapes(g.tensors@));
}

proof fn lemma_experts_are_filtered(s: Seq<Tensor>)
    ensures
        expert_size(s) == gguf::total_size(s.filter(|t: Tensor| text::has(t.name, "_exps."@))),
    decreases s.len(),
{
    let is_expert = |t: Tensor| text::has(t.name, "_exps."@);
    reveal(Seq::filter);
    if s.len() > 0 {
        lemma_experts_are_filtered(s.drop_last());
        let rest = s.drop_last().filter(is_expert);
        if is_expert(s.last()) {
            assert(s.filter(is_expert) == rest.push(s.last()));
            assert(rest.push(s.last()).drop_last() =~= rest);
        } else {
            assert(s.filter(is_expert) == rest);
        }
    }
}

/// A plan puts as many experts on the card as fit there beside what must be
/// resident, then as many into memory as fit there, and no expert anywhere where
/// nothing is known of its size.
pub proof fn law_a_plan_leaves_no_room_unused(
    p: &Placement,
    g: &Gguf,
    ctx: usize,
    vram_budget: u64,
    ram_budget: u64,
)
    requires
        p.solves(g, ctx, vram_budget, ram_budget),
    ensures
        p.vram_experts + p.ram_experts + p.disk_experts == p.expert_count,
        p.dense_bytes + p.kv_bytes >= vram_budget ==> p.vram_experts == 0,
        p.expert_count > 0 ==> {
            let each = p.expert_bytes / p.expert_count as u64;
            &&& each == 0 ==> p.disk_experts == p.expert_count
            &&& each > 0 && p.vram_experts > 0 ==> p.dense_bytes + p.kv_bytes + p.vram_experts
                * each <= vram_budget
            &&& each > 0 && p.vram_experts < p.expert_count ==> p.dense_bytes + p.kv_bytes + (
            p.vram_experts + 1) * each > vram_budget
            &&& each > 0 ==> p.ram_experts * each <= ram_budget
            &&& each > 0 && p.disk_experts > 0 ==> (p.ram_experts + 1) * each > ram_budget
        },
{
    let f = figures(g, ctx);
    let t = p.tiers();
    let each = f.per_expert();
    if p.expert_count > 0 {
        assert(each == p.expert_bytes / p.expert_count as u64);
        if each > 0 {
            law_tiers_are_filled_in_order(
                t,
                f.expert_count,
                each,
                f.room(vram_budget as nat),
                ram_budget as nat,
            );
            assert(p.vram_experts > 0 ==> p.vram_experts * each > 0) by (nonlinear_arith)
                requires
                    each > 0,
            ;
            assert((p.vram_experts + 1) * each > 0) by (nonlinear_arith)
                requires
                    each > 0,
            ;
            if p.dense_bytes + p.kv_bytes >= vram_budget {
                assert(f.room(vram_budget as nat) == 0);
            }
        }
    }
}

/// Where whole layers are offloaded, as many are as fit beside the cache, each of
/// the average size; none where what must be resident does not fit.
pub proof fn law_offloaded_layers_fit_beside_the_cache(
    dense: nat,
    kv: nat,
    total: nat,
    layers: nat,
    budget: nat,
)
    requires
        layers > 0,
    ensures
        ({
            let n = offloadable(dense, kv, total, layers, budget);
            let each = total / layers;
            &&& n <= layers
            &&& dense + kv >= budget || each == 0 ==> n == 0
            &&& n > 0 ==> kv + n * each <= budget
            &&& dense + kv < budget && each > 0 && n < layers ==> kv + (n + 1) * each > budget
        }),
{
    let n = offloadable(dense, kv, total, layers, budget);
    let each = total / layers;
    if dense + kv < budget && each > 0 {
        let room = (budget - kv) as nat;
        let q = room / each;
        vstd::arithmetic::div_mod::lemma_fundamental_div_mod(room as int, each as int);
        vstd::arithmetic::div_mod::lemma_mod_bound(room as int, each as int);
        assert(q * each <= room && (q + 1) * each > room) by (nonlinear_arith)
            requires
                room == each * q + room % each,
                0 <= room % each < each,
        ;
        assert(n * each <= q * each) by (nonlinear_arith)
            requires
                n <= q,
        ;
    }
}

/// A model is looked for under its own name first, then in the local store under
/// a safe name and under its own, then beside the program.
pub proof fn law_a_model_is_looked_for_where_it_says_first(model: Seq<char>)
    ensures
        places(model).len() == 4,
        places(model)[0] == (Place::Direct, model),
        places(model)[1].0 == Place::Local && places(model)[2] == (Place::Local, model),
        places(model)[3].0 == Place::Bundled,
        places(model)[1].1 == places(model)[3].1,
        places(model)[1].1.len() == model.len(),
        forall|i: int|
            0 <= i < model.len() ==> (#[trigger] places(model)[1].1[i]) == if model[i] == ':'
                || model[i] == '/' || model[i] == '\\' {
                '_'
            } else {
                model[i]
            },
{
}

} // verus!

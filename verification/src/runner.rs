//! The compute process: where its runtime is found, the flags it is started
//! with, what is kept of its log, and when it counts as ready.
//!
//! Paths are whatever the caller holds them as; nothing here looks inside one.
use crate::placement::Placement;
use crate::text;
use std::collections::VecDeque;
use vstd::prelude::*;

verus! {

/// Lines of the compute process's log kept for a post-mortem. Enough to hold
/// the backend banner and the failure that follows it.
pub const LOG_KEEP: usize = 60;

// ---------------------------------------------------------------- the runtime

/// A llama.cpp installation: the server binary plus the GPU backend to preload.
#[derive(Debug)]
pub struct Runtime<P> {
    pub server: P,
    pub lib_dir: P,
    pub backend: Option<P>,
}

impl<P> Runtime<P> {
    /// The directories to look for a usable llama.cpp in, in order. The one
    /// that was set wins; otherwise the copy beside the program, then the one
    /// Ollama ships, which is already built for this GPU.
    pub fn discover(set: Option<P>, beside: P, ollama: Option<P>) -> (r: Vec<P>)
        ensures
            r@ == (match set {
                Some(p) => seq![p],
                None => Seq::empty(),
            }) + seq![beside] + (match ollama {
                Some(p) => seq![p],
                None => Seq::empty(),
            }),
    {
        let mut roots: Vec<P> = Vec::new();
        if let Some(p) = set {
            roots.push(p);
        }
        roots.push(beside);
        if let Some(p) = ollama {
            roots.push(p);
        }
        roots
    }
}

/// A library that drives a GPU.
#[derive(Debug, Clone, Copy, PartialEq, Eq, Structural)]
pub enum Library {
    Hip,
    Vulkan,
}

/// What a directory beside the server is called, and which libraries it holds.
#[derive(Debug)]
pub struct Subdir {
    pub name: String,
    pub has_hip: bool,
    pub has_vulkan: bool,
}

/// Where the backend to preload is.
#[derive(Debug, Clone, Copy, PartialEq, Eq, Structural)]
pub enum Backend {
    /// Beside the server.
    Beside(Library),
    /// In the directory of this number.
    Within(usize, Library),
}

impl Backend {
    /// The library that is preloaded.
    pub open spec fn library(self) -> Library {
        match self {
            Backend::Beside(l) => l,
            Backend::Within(_, l) => l,
        }
    }
}

/// A directory for ROCm that holds its library.
pub open spec fn offers_hip(d: Subdir) -> bool {
    d.has_hip && text::starts(d.name@, "rocm"@)
}

/// A directory for Vulkan that holds its library.
pub open spec fn offers_vulkan(d: Subdir) -> bool {
    d.has_vulkan && text::starts(d.name@, "vulkan"@)
}

/// `i` is the first place where `p` holds.
pub open spec fn first_where(s: Seq<Subdir>, p: spec_fn(Subdir) -> bool, i: int) -> bool {
    0 <= i < s.len() && p(s[i]) && forall|j: int| 0 <= j < i ==> !p(#[trigger] s[j])
}

/// `p` holds nowhere.
pub open spec fn nowhere(s: Seq<Subdir>, p: spec_fn(Subdir) -> bool) -> bool {
    forall|j: int| 0 <= j < s.len() ==> !p(#[trigger] s[j])
}

/// Prefer a ROCm backend, then Vulkan. CUDA is skipped: this targets AMD.
///
/// Official llama.cpp releases put the backend beside the binary; Ollama's
/// layout puts it in a per-GPU subdirectory. Both are handled: a ROCm backend
/// in either is preferred to Vulkan in either. `dirs` are the subdirectories in
/// the order they are listed.
pub fn pick_backend(hip_beside: bool, vulkan_beside: bool, dirs: &Vec<Subdir>) -> (r: Option<
    Backend,
>)
    ensures
        match r {
            Some(Backend::Beside(Library::Hip)) => hip_beside,
            Some(Backend::Within(i, Library::Hip)) => !hip_beside && first_where(
                dirs@,
                |d: Subdir| offers_hip(d),
                i as int,
            ),
            Some(Backend::Beside(Library::Vulkan)) => !hip_beside && vulkan_beside && nowhere(
                dirs@,
                |d: Subdir| offers_hip(d),
            ),
            Some(Backend::Within(i, Library::Vulkan)) => !hip_beside && !vulkan_beside && nowhere(
                dirs@,
                |d: Subdir| offers_hip(d),
            ) && first_where(dirs@, |d: Subdir| offers_vulkan(d), i as int),
            None => !hip_beside && !vulkan_beside && nowhere(dirs@, |d: Subdir| offers_hip(d))
                && nowhere(dirs@, |d: Subdir| offers_vulkan(d)),
        },
        hip_beside || !nowhere(dirs@, |d: Subdir| offers_hip(d)) ==> (r matches Some(b)
            && b.library() == Library::Hip),
{
    if hip_beside {
        return Some(Backend::Beside(Library::Hip));
    }
    let mut best: Option<usize> = None;
    let mut i: usize = 0;
    while i < dirs.len()
        invariant
            i <= dirs@.len(),
            forall|j: int| 0 <= j < i ==> !offers_hip(#[trigger] dirs@[j]),
            match best {
                Some(b) => b < i && offers_vulkan(dirs@[b as int]) && forall|j: int|
                    0 <= j < b ==> !offers_vulkan(#[trigger] dirs@[j]),
                None => forall|j: int| 0 <= j < i ==> !offers_vulkan(#[trigger] dirs@[j]),
            },
            !hip_beside,
        decreases dirs@.len() - i,
    {
        let name = dirs[i].name.as_str();
        if dirs[i].has_hip && text::starts_with(name, "rocm") {
            return Some(Backend::Within(i, Library::Hip));
        }
        if best.is_none() && dirs[i].has_vulkan && text::starts_with(name, "vulkan") {
            best = Some(i);
        }
        i = i + 1;
    }
    if vulkan_beside {
        return Some(Backend::Beside(Library::Vulkan));
    }
    match best {
        Some(b) => Some(Backend::Within(b, Library::Vulkan)),
        None => None,
    }
}

/// The loader search path a compute process needs, directory by directory.
///
/// The backend libraries live beside the server binary and in a per-GPU
/// subdirectory; both must be on the path or the GPU backend silently falls
/// back to CPU. A stock llama.cpp ROCm build links rocBLAS/hipBLAS but does not
/// ship them either, so the SDK directories go in front. Without one of these
/// the HIP backend fails to load and the GPU vanishes with no error in the log
/// - which is also why `--list-devices` needs the same environment.
pub fn loader_path<P>(sdk: Vec<P>, lib_dir: P, backend_dir: Option<P>, path: Vec<P>) -> (r: Vec<P>)
    ensures
        r@ == sdk@ + seq![lib_dir] + (match backend_dir {
            Some(p) => seq![p],
            None => Seq::empty(),
        }) + path@,
{
    let mut r = sdk;
    let mut rest = path;
    r.push(lib_dir);
    if let Some(p) = backend_dir {
        r.push(p);
    }
    r.append(&mut rest);
    r
}

// ---------------------------------------------------------------- flags

/// The flags chosen for a model on this machine.
#[derive(Debug)]
pub struct Flags {
    pub ctx: usize,
    /// Layers whose expert weights stay on the CPU. Counter-intuitively this is
    /// not zero: leaving some experts in host memory frees VRAM for the layers
    /// that remain, and measures faster than forcing everything onto the GPU.
    pub cpu_moe_layers: usize,
    pub flash_attention: bool,
    pub threads: usize,
    /// A non-prefix expert placement, rendered as an `-ot` pattern.
    ///
    /// `None` for every plan the runtime can already express as `-ncmoe`,
    /// which is the common case and the one every existing measurement was
    /// taken with. Only a plan with a gap in it reaches this field.
    pub expert_override: Option<String>,
    /// Element type for the KV cache, e.g. `q8_0`. `None` leaves it at f16.
    ///
    /// The cache is allocated for the whole context at load time, so at a large
    /// context it is VRAM the experts cannot have. Halving it buys expert
    /// layers back. Requires flash attention for the V side.
    pub kv_type: Option<String>,
}

/// What the flags say.
pub struct Setting {
    pub ctx: nat,
    pub cpu_moe_layers: nat,
    pub flash_attention: bool,
    pub threads: nat,
    pub expert_override: Option<Seq<char>>,
    pub kv_type: Option<Seq<char>>,
}

pub open spec fn text_of(s: Option<String>) -> Option<Seq<char>> {
    match s {
        Some(s) => Some(s@),
        None => None,
    }
}

impl View for Flags {
    type V = Setting;

    open spec fn view(&self) -> Setting {
        Setting {
            ctx: self.ctx as nat,
            cpu_moe_layers: self.cpu_moe_layers as nat,
            flash_attention: self.flash_attention,
            threads: self.threads as nat,
            expert_override: text_of(self.expert_override),
            kv_type: text_of(self.kv_type),
        }
    }
}

impl Clone for Flags {
    fn clone(&self) -> (r: Flags)
        ensures
            r@ == self@,
    {
        Flags {
            ctx: self.ctx,
            cpu_moe_layers: self.cpu_moe_layers,
            flash_attention: self.flash_attention,
            threads: self.threads,
            expert_override: match &self.expert_override {
                Some(s) => Some(s.clone()),
                None => None,
            },
            kv_type: match &self.kv_type {
                Some(s) => Some(s.clone()),
                None => None,
            },
        }
    }
}

/// How many layers keep their experts on the CPU: those whose experts do not
/// fit beside what must be resident, with a fifth of the card left for compute
/// buffers and the graph.
pub open spec fn layers_on_cpu(layers: nat, experts: nat, resident: nat, vram: nat) -> nat {
    let n = if layers == 0 {
        1
    } else {
        layers
    };
    let per_layer = experts / n;
    let taken = resident + vram / 5;
    let free = if vram > taken {
        (vram - taken) as nat
    } else {
        0
    };
    let on_gpu = if per_layer > 0 {
        free / per_layer
    } else {
        n
    };
    if on_gpu < n {
        (n - on_gpu) as nat
    } else {
        0
    }
}

/// Half the threads of the machine, at least one, or six where the machine
/// does not say.
pub open spec fn threads_of(parallelism: Option<usize>) -> nat {
    match parallelism {
        Some(n) => if n < 2 {
            1
        } else {
            (n / 2) as nat
        },
        None => 6,
    }
}

/// The flags a plan gives, before anything is measured.
pub open spec fn derived(p: &Placement, parallelism: Option<usize>) -> Setting {
    Setting {
        ctx: p.ctx as nat,
        cpu_moe_layers: layers_on_cpu(
            p.facts.layers as nat,
            p.expert_bytes as nat,
            (p.dense_bytes + p.kv_bytes) as nat,
            p.vram_budget as nat,
        ),
        flash_attention: true,
        threads: threads_of(parallelism),
        expert_override: None,
        kv_type: None,
    }
}

/// The arguments that place experts. A pattern replaces the count rather than
/// adding to it; passing both would place the same tensors twice by two
/// different rules.
pub open spec fn expert_args(s: Setting) -> Seq<Seq<char>> {
    match s.expert_override {
        Some(p) => seq!["-ot"@, p],
        None => if s.cpu_moe_layers > 0 {
            seq!["-ncmoe"@, text::decimal(s.cpu_moe_layers)]
        } else {
            Seq::empty()
        },
    }
}

pub open spec fn attention_args(s: Setting) -> Seq<Seq<char>> {
    if s.flash_attention {
        seq!["-fa"@, "on"@]
    } else {
        Seq::empty()
    }
}

pub open spec fn cache_args(s: Setting) -> Seq<Seq<char>> {
    match s.kv_type {
        Some(t) => seq!["-ctk"@, t, "-ctv"@, t],
        None => Seq::empty(),
    }
}

pub open spec fn common_args(s: Setting, model: Seq<char>, port: nat) -> Seq<Seq<char>> {
    seq![
        "-m"@,
        model,
        "--host"@,
        "127.0.0.1"@,
        "--port"@,
        text::decimal(port),
        "-c"@,
        text::decimal(s.ctx),
        "-ngl"@,
        "99"@,
        "-t"@,
        text::decimal(s.threads),
        "--no-webui"@,
        "-np"@,
        "1"@,
        "--jinja"@,
    ]
}

/// The command line of the compute process.
pub open spec fn args_of(s: Setting, model: Seq<char>, port: nat) -> Seq<Seq<char>> {
    common_args(s, model, port) + expert_args(s) + attention_args(s) + cache_args(s)
}

fn add_arg(args: &mut Vec<String>, arg: &str)
    ensures
        text::texts(final(args)@) == text::texts(old(args)@).push(arg@),
{
    let s = arg.to_owned();
    proof {
        text::lemma_texts_push(args@, s);
    }
    args.push(s);
}

impl Flags {
    /// Derive a starting point from measured placement. This is an estimate -
    /// tuning measures the real optimum, which is usually higher.
    /// `parallelism` is the number of threads of the machine, where it is known.
    pub fn derive(p: &Placement, parallelism: Option<usize>) -> (r: Flags)
        requires
            p.dense_bytes + p.kv_bytes + p.vram_budget / 5 <= u64::MAX,
        ensures
            r@ == (Setting {
                ctx: p.ctx as nat,
                cpu_moe_layers: layers_on_cpu(
                    p.facts.layers as nat,
                    p.expert_bytes as nat,
                    (p.dense_bytes + p.kv_bytes) as nat,
                    p.vram_budget as nat,
                ),
                flash_attention: true,
                threads: threads_of(parallelism),
                expert_override: None,
                kv_type: None,
            }),
            r@ == derived(p, parallelism),
    {
        let layers: usize = if p.facts.layers == 0 {
            1
        } else {
            p.facts.layers
        };
        let per_layer: u64 = p.expert_bytes / layers as u64;
        let taken: u64 = p.dense_bytes + p.kv_bytes + p.vram_budget / 5;
        let free: u64 = if p.vram_budget > taken {
            p.vram_budget - taken
        } else {
            0
        };
        let on_gpu: u64 = if per_layer > 0 {
            free / per_layer
        } else {
            layers as u64
        };
        let cpu_moe_layers: usize = if on_gpu < layers as u64 {
            layers - on_gpu as usize
        } else {
            0
        };
        let threads: usize = match parallelism {
            Some(n) => if n < 2 {
                1
            } else {
                n / 2
            },
            None => 6,
        };
        Flags {
            ctx: p.ctx,
            cpu_moe_layers,
            flash_attention: true,
            threads,
            expert_override: None,
            kv_type: None,
        }
    }

    /// The command line of the compute process.
    ///
    /// One slot, not the four the server picks on its own: the KV cache is a
    /// single pool shared by every slot, so four slots do not buy four
    /// conversations, and a turn can land on a slot that does not hold the
    /// prefix. The chat template of the model is rendered, without which the
    /// server refuses any request that carries tools.
    pub fn to_args(&self, model: &str, port: u16) -> (r: Vec<String>)
        ensures
            text::texts(r@) == args_of(self@, model@, port as nat),
    {
        let mut args: Vec<String> = Vec::new();
        assert(text::texts(args@) =~= Seq::<Seq<char>>::empty());
        add_arg(&mut args, "-m");
        add_arg(&mut args, model);
        add_arg(&mut args, "--host");
        add_arg(&mut args, "127.0.0.1");
        add_arg(&mut args, "--port");
        add_arg(&mut args, text::number(port as u64).as_str());
        add_arg(&mut args, "-c");
        add_arg(&mut args, text::number(self.ctx as u64).as_str());
        add_arg(&mut args, "-ngl");
        add_arg(&mut args, "99");
        add_arg(&mut args, "-t");
        add_arg(&mut args, text::number(self.threads as u64).as_str());
        add_arg(&mut args, "--no-webui");
        add_arg(&mut args, "-np");
        add_arg(&mut args, "1");
        add_arg(&mut args, "--jinja");
        assert(text::texts(args@) =~= common_args(self@, model@, port as nat));
        match &self.expert_override {
            Some(pattern) => {
                add_arg(&mut args, "-ot");
                add_arg(&mut args, pattern.as_str());
            },
            None => {
                if self.cpu_moe_layers > 0 {
                    add_arg(&mut args, "-ncmoe");
                    add_arg(&mut args, text::number(self.cpu_moe_layers as u64).as_str());
                }
            },
        }
        assert(text::texts(args@) =~= common_args(self@, model@, port as nat) + expert_args(self@));
        if self.flash_attention {
            add_arg(&mut args, "-fa");
            add_arg(&mut args, "on");
        }
        assert(text::texts(args@) =~= common_args(self@, model@, port as nat) + expert_args(self@)
            + attention_args(self@));
        if let Some(t) = &self.kv_type {
            add_arg(&mut args, "-ctk");
            add_arg(&mut args, t.as_str());
            add_arg(&mut args, "-ctv");
            add_arg(&mut args, t.as_str());
        }
        assert(text::texts(args@) =~= args_of(self@, model@, port as nat));
        args
    }
}

/// The experts are placed by one rule at most: by the pattern where there is
/// one, and only otherwise by the count.
pub proof fn law_a_pattern_replaces_the_count(s: Setting)
    ensures
        s.expert_override is Some ==> expert_args(s).len() == 2 && expert_args(s)[0] == "-ot"@,
        s.expert_override is None ==> expert_args(s).len() == 0 || (expert_args(s).len() == 2
            && expert_args(s)[0] == "-ncmoe"@),
{
}

/// A type for the cache adds to the command line and changes nothing of it.
pub proof fn law_a_cache_type_only_adds(s: Setting, t: Seq<char>, model: Seq<char>, port: nat)
    requires
        s.kv_type is None,
    ensures
        args_of(Setting { kv_type: Some(t), ..s }, model, port) == args_of(s, model, port) + seq![
            "-ctk"@,
            t,
            "-ctv"@,
            t,
        ],
{
    let with = Setting { kv_type: Some(t), ..s };
    assert(common_args(with, model, port) =~= common_args(s, model, port));
    assert(args_of(with, model, port) =~= args_of(s, model, port) + seq!["-ctk"@, t, "-ctv"@, t]);
}

/// Some layers keep their experts on the CPU where the card has no room at
/// all, and never more layers than there are.
pub proof fn law_layers_on_cpu_are_layers(layers: nat, experts: nat, resident: nat, vram: nat)
    ensures
        layers_on_cpu(layers, experts, resident, vram) <= if layers == 0 {
            1
        } else {
            layers
        },
        layers > 0 && experts >= layers && resident >= vram ==> layers_on_cpu(
            layers,
            experts,
            resident,
            vram,
        ) == layers,
{
    if layers > 0 && experts >= layers {
        vstd::arithmetic::div_mod::lemma_div_non_zero(experts as int, layers as int);
        assert(0int / (experts as int / layers as int) == 0) by {
            vstd::arithmetic::div_mod::lemma_div_basics(experts as int / layers as int);
        }
    }
}

// ---------------------------------------------------------------- the process

/// Where the compute process listens.
pub open spec fn endpoint_of(port: nat) -> Seq<char> {
    "http://127.0.0.1:"@ + text::decimal(port)
}

/// Where the compute process listens.
pub fn endpoint(port: u16) -> (r: String)
    ensures
        r@ == endpoint_of(port as nat),
{
    let mut r = "http://127.0.0.1:".to_owned();
    r.append(text::number(port as u64).as_str());
    r
}

/// The last lines of what the compute process wrote to stderr. Kept because
/// llama.cpp reports a missing rocBLAS, a bad `-ncmoe` or an out-of-memory
/// load there and then simply never answers - so without this a failed start
/// is indistinguishable from a slow one.
#[derive(Debug)]
pub struct LogTail {
    lines: VecDeque<String>,
}

/// The last `n` items of a list.
pub open spec fn last_n(s: Seq<Seq<char>>, n: nat) -> Seq<Seq<char>> {
    if s.len() > n {
        s.skip(s.len() - n)
    } else {
        s
    }
}

/// Lines as they are shown: set in, and without trailing white space.
pub open spec fn shown(s: Seq<Seq<char>>) -> Seq<Seq<char>> {
    Seq::new(s.len(), |i: int| "    "@ + text::trim_end(s[i]))
}

impl View for LogTail {
    type V = Seq<Seq<char>>;

    closed spec fn view(&self) -> Seq<Seq<char>> {
        text::texts(self.lines@)
    }
}

impl LogTail {
    #[verifier::type_invariant]
    spec fn inv(self) -> bool {
        self.lines@.len() <= LOG_KEEP
    }

    /// Nothing written yet.
    pub fn new() -> (r: LogTail)
        ensures
            r@ == Seq::<Seq<char>>::empty(),
    {
        let r = LogTail { lines: VecDeque::new() };
        assert(r@ =~= Seq::<Seq<char>>::empty());
        r
    }

    /// Takes a line. The oldest makes room for it where as many as are kept are
    /// there.
    pub fn push(&mut self, line: String)
        ensures
            final(self)@ == last_n(old(self)@.push(line@), LOG_KEEP as nat),
            final(self)@.len() <= LOG_KEEP,
    {
        proof {
            use_type_invariant(&*self);
        }
        let mut lines: VecDeque<String> = VecDeque::new();
        std::mem::swap(&mut lines, &mut self.lines);
        let ghost before = lines@;
        if lines.len() == LOG_KEEP {
            let _ = lines.pop_front();
        }
        lines.push_back(line);
        assert(text::texts(lines@) =~= last_n(text::texts(before).push(line@), LOG_KEEP as nat));
        self.lines = lines;
    }

    /// The tail of the compute process's log, newest last.
    pub fn log_tail(&self, lines: usize) -> (r: String)
        ensures
            r@ == text::joined(shown(last_n(self@, lines as nat)), "\n"@),
    {
        let ghost want = shown(last_n(self@, lines as nat));
        let count: usize = self.lines.len();
        let start: usize = if count > lines {
            count - lines
        } else {
            0
        };
        let mut out: Vec<String> = Vec::new();
        let mut i: usize = start;
        assert(text::texts(out@) =~= want.take(0));
        while i < count
            invariant
                start <= i <= count,
                count == self.lines@.len(),
                want == shown(last_n(self@, lines as nat)),
                self@ == text::texts(self.lines@),
                start == if count > lines {
                    count - lines
                } else {
                    0
                },
                text::texts(out@) == want.take(i - start),
            decreases count - i,
        {
            let v = text::chars_of(self.lines[i].as_str());
            let trimmed = text::string_of(&text::trim_end_chars(v.as_slice()));
            let mut s = "    ".to_owned();
            s.append(trimmed.as_str());
            proof {
                text::lemma_texts_push(out@, s);
                assert(s@ == want[i - start]);
                assert(want.take(i - start).push(s@) =~= want.take(i + 1 - start));
            }
            out.push(s);
            i = i + 1;
        }
        assert(want.take(i - start) =~= want);
        text::join(&out, "\n")
    }
}

/// However many lines were written, what is kept is the last of them: taking a
/// line on top of what is kept is as good as taking it on top of everything.
pub proof fn law_the_tail_is_the_end_of_the_log(all: Seq<Seq<char>>, line: Seq<char>)
    ensures
        last_n(last_n(all, LOG_KEEP as nat).push(line), LOG_KEEP as nat) == last_n(
            all.push(line),
            LOG_KEEP as nat,
        ),
{
    assert(last_n(last_n(all, LOG_KEEP as nat).push(line), LOG_KEEP as nat) =~= last_n(
        all.push(line),
        LOG_KEEP as nat,
    ));
}

/// A line that belongs on the console.
pub open spec fn interesting(line: Seq<char>) -> bool {
    let l = text::lowered(line);
    ||| text::has(l, "error"@)
    ||| text::has(l, "failed"@)
    ||| text::has(l, "cannot"@)
    ||| text::has(l, "unable to"@)
    ||| text::has(l, "out of memory"@)
    ||| text::has(l, "not supported"@)
    ||| text::has(l, "warning: failed"@)
    ||| text::starts(l, "load_tensors: offloading"@)
    ||| text::starts(l, "ggml_cuda_init"@)
}

/// Whether a line from the compute process is worth putting in front of the
/// user. Loading a model produces hundreds of lines of tensor bookkeeping;
/// only the device summary and anything that went wrong belong on the console.
pub fn is_interesting(line: &str) -> (r: bool)
    ensures
        r == interesting(line@),
{
    let v = text::chars_of(line);
    let lowered = text::string_of(&text::lower_chars(v.as_slice()));
    let l = lowered.as_str();
    text::contains(l, "error") || text::contains(l, "failed") || text::contains(l, "cannot")
        || text::contains(l, "unable to") || text::contains(l, "out of memory") || text::contains(
        l,
        "not supported",
    ) || text::contains(l, "warning: failed") || text::starts_with(l, "load_tensors: offloading")
        || text::starts_with(l, "ggml_cuda_init")
}

/// What to do about a compute process that is loading.
#[derive(Debug, Clone, Copy, PartialEq, Eq, Structural)]
pub enum Waiting {
    /// Ask it whether it answers.
    Ask,
    /// It answers.
    Ready,
    /// It has exited: it will never answer.
    Exited,
    /// Ask again, after a pause.
    Pause,
    /// It is still running, but there is no time left.
    Expired,
}

/// What to do before asking: there is time to ask until the timeout is reached.
pub fn wait_begin(elapsed_ms: u64, timeout_ms: u64) -> (r: Waiting)
    ensures
        r == if elapsed_ms < timeout_ms {
            Waiting::Ask
        } else {
            Waiting::Expired
        },
{
    if elapsed_ms < timeout_ms {
        Waiting::Ask
    } else {
        Waiting::Expired
    }
}

/// What to do after asking. One that answers is ready, whatever else is known
/// of it; one that has exited is not waited for until the timeout.
pub fn wait_after(answers: bool, exited: bool) -> (r: Waiting)
    ensures
        r == if answers {
            Waiting::Ready
        } else if exited {
            Waiting::Exited
        } else {
            Waiting::Pause
        },
{
    if answers {
        Waiting::Ready
    } else if exited {
        Waiting::Exited
    } else {
        Waiting::Pause
    }
}

// ---------------------------------------------------------------- what the flags come to

/// The layers that keep their experts on the card fit there beside what must be
/// resident, with a fifth of the card left free; and one layer more would not
/// fit.
pub proof fn law_the_layers_on_the_card_fit_with_a_fifth_to_spare(
    layers: nat,
    experts: nat,
    resident: nat,
    vram: nat,
)
    requires
        layers > 0,
    ensures
        ({
            let on_card = layers - layers_on_cpu(layers, experts, resident, vram);
            let each = experts / layers;
            &&& 0 <= on_card <= layers
            &&& each > 0 && on_card > 0 ==> on_card * each + resident + vram / 5 <= vram
            &&& each > 0 && on_card < layers ==> (on_card + 1) * each + resident + vram / 5 > vram
            &&& each == 0 ==> on_card == layers
        }),
        layers_on_cpu(0, experts, resident, vram) == layers_on_cpu(1, experts, resident, vram),
{
    let each = experts / layers;
    let taken = resident + vram / 5;
    let free = if vram > taken {
        (vram - taken) as nat
    } else {
        0
    };
    let on_card = layers - layers_on_cpu(layers, experts, resident, vram);
    if each > 0 {
        let q = free / each;
        vstd::arithmetic::div_mod::lemma_fundamental_div_mod(free as int, each as int);
        vstd::arithmetic::div_mod::lemma_mod_bound(free as int, each as int);
        vstd::arithmetic::div_mod::lemma_div_pos_is_pos(free as int, each as int);
        assert(q * each <= free && (q + 1) * each > free) by (nonlinear_arith)
            requires
                free == each * q + free % each,
                0 <= free % each < each,
        ;
        assert(on_card <= q);
        assert(on_card * each <= q * each) by (nonlinear_arith)
            requires
                on_card <= q,
                each > 0,
        ;
        if on_card > 0 {
            assert(on_card * each > 0) by (nonlinear_arith)
                requires
                    on_card > 0,
                    each > 0,
            ;
        }
        if on_card < layers {
            assert(on_card == q);
        }
    }
}

/// The flags of a plan are for its context and its layers, all of what must be
/// resident taken into account; they use half of the machine's threads, and flash
/// attention.
pub proof fn law_the_flags_are_those_of_the_plan(p: &Placement, parallelism: Option<usize>)
    requires
        p.facts.layers > 0,
    ensures
        ({
            let f = derived(p, parallelism);
            let layers = p.facts.layers as nat;
            let on_card = layers - f.cpu_moe_layers;
            let each = p.expert_bytes as nat / layers;
            &&& f.ctx == p.ctx
            &&& f.flash_attention
            &&& f.expert_override is None && f.kv_type is None
            &&& 0 <= on_card <= layers
            &&& each > 0 && on_card > 0 ==> on_card * each + p.dense_bytes + p.kv_bytes
                + p.vram_budget / 5 <= p.vram_budget
            &&& each > 0 && on_card < layers ==> (on_card + 1) * each + p.dense_bytes + p.kv_bytes
                + p.vram_budget / 5 > p.vram_budget
            &&& parallelism is None ==> f.threads == 6
            &&& parallelism matches Some(n) ==> f.threads >= 1 && (n >= 2 ==> 2 * f.threads <= n < 2
                * f.threads + 2) && (n < 2 ==> f.threads == 1)
        }),
{
    law_the_layers_on_the_card_fit_with_a_fifth_to_spare(
        p.facts.layers as nat,
        p.expert_bytes as nat,
        (p.dense_bytes + p.kv_bytes) as nat,
        p.vram_budget as nat,
    );
}

/// An argument is followed by its value.
pub open spec fn given(args: Seq<Seq<char>>, flag: Seq<char>, value: Seq<char>) -> bool {
    exists|i: int| 0 <= i < args.len() - 1 && #[trigger] args[i] == flag && args[i + 1] == value
}

/// The command line names the model, the port, the context and the threads that
/// were chosen, keeps the process to this machine and to one slot, and says of
/// the experts, of attention and of the cache what the flags say, and nothing
/// else.
pub proof fn law_the_command_line_says_what_was_chosen(s: Setting, model: Seq<char>, port: nat)
    ensures
        ({
            let args = args_of(s, model, port);
            &&& given(args, "-m"@, model)
            &&& given(args, "--host"@, "127.0.0.1"@)
            &&& given(args, "--port"@, text::decimal(port))
            &&& given(args, "-c"@, text::decimal(s.ctx))
            &&& given(args, "-ngl"@, "99"@)
            &&& given(args, "-t"@, text::decimal(s.threads))
            &&& given(args, "-np"@, "1"@)
            &&& args.contains("--no-webui"@) && args.contains("--jinja"@)
            &&& s.flash_attention ==> given(args, "-fa"@, "on"@)
            &&& s.kv_type matches Some(t) ==> given(args, "-ctk"@, t) && given(args, "-ctv"@, t)
            &&& s.expert_override matches Some(p) ==> given(args, "-ot"@, p)
            &&& s.expert_override is None && s.cpu_moe_layers > 0 ==> given(
                args,
                "-ncmoe"@,
                text::decimal(s.cpu_moe_layers),
            )
            &&& args.len() == 16 + (if s.expert_override is Some || s.cpu_moe_layers > 0 {
                2int
            } else {
                0int
            }) + (if s.flash_attention {
                2int
            } else {
                0int
            }) + (if s.kv_type is Some {
                4int
            } else {
                0int
            })
        }),
{
    let args = args_of(s, model, port);
    assert(args[0] == "-m"@ && args[1] == model);
    assert(args[2] == "--host"@ && args[3] == "127.0.0.1"@);
    assert(args[4] == "--port"@ && args[5] == text::decimal(port));
    assert(args[6] == "-c"@ && args[7] == text::decimal(s.ctx));
    assert(args[8] == "-ngl"@ && args[9] == "99"@);
    assert(args[10] == "-t"@ && args[11] == text::decimal(s.threads));
    assert(args[12] == "--no-webui"@);
    assert(args[13] == "-np"@ && args[14] == "1"@);
    assert(args[15] == "--jinja"@);
    let a: int = 16 + expert_args(s).len() as int;
    let b: int = a + attention_args(s).len() as int;
    if expert_args(s).len() == 2 {
        assert(args[16] == expert_args(s)[0] && args[17] == expert_args(s)[1]);
    }
    if s.flash_attention {
        assert(args[a] == "-fa"@ && args[a + 1] == "on"@);
    }
    if let Some(t) = s.kv_type {
        assert(args[b] == "-ctk"@ && args[b + 1] == t);
        assert(args[b + 2] == "-ctv"@ && args[b + 3] == t);
    }
}

/// The tail of a log is at most as long as is asked, and ends as the log does.
pub proof fn law_a_tail_is_the_end(s: Seq<Seq<char>>, n: nat)
    ensures
        last_n(s, n).len() == if s.len() < n {
            s.len()
        } else {
            n
        },
        forall|k: int|
            0 <= k < last_n(s, n).len() ==> #[trigger] last_n(s, n)[last_n(s, n).len() - 1 - k]
                == s[s.len() - 1 - k],
        LOG_KEEP == 60,
{
}

/// A line is worth showing where it speaks of something that went wrong, in
/// capitals or not.
pub proof fn law_what_went_wrong_is_shown(a: Seq<char>, b: Seq<char>, what: Seq<char>)
    requires
        ({
            ||| what == "error"@
            ||| what == "failed"@
            ||| what == "cannot"@
            ||| what == "unable to"@
            ||| what == "out of memory"@
            ||| what == "not supported"@
        }),
    ensures
        text::lowered(a + what + b) == text::lowered(a) + what + text::lowered(b) ==> interesting(
            a + what + b,
        ),
        text::starts(text::lowered(a), "load_tensors: offloading"@) ==> interesting(a),
        text::starts(text::lowered(a), "ggml_cuda_init"@) ==> interesting(a),
{
    text::law_a_text_has_its_parts(text::lowered(a), what, text::lowered(b));
}

} // verus!

//! Which layers keep their expert weights in host memory.
//!
//! The runtime has two ways to say this, and they are not equally expressive:
//!
//! * `-ncmoe N` keeps the experts of the **first N layers** on the CPU. One
//!   integer, one cut point, and the choice of *which* layers is not yours.
//! * `-ot <pattern>=<buffer>` overrides the buffer for every tensor matching a
//!   pattern. Tensor names are the vocabulary placement already thinks in
//!   (`blk.<i>.ffn_*_exps.weight`), so any set of layers can be named.
//!
//! `-ncmoe` is a special case of `-ot`. This module represents the general
//! plan and renders whichever form the runtime needs - deliberately preferring
//! `-ncmoe` whenever the plan happens to be a prefix, so the common case
//! produces the exact command line it always has and nothing about a machine
//! that is already tuned moves.
use crate::text;
use vstd::prelude::*;

verus! {

/// The layers whose routed experts live in host memory.
#[derive(Debug, PartialEq, Eq)]
pub struct ExpertPlan {
    cpu_layers: Vec<usize>,
    total_layers: usize,
}

/// Each number is larger than the one before it.
pub open spec fn ascending(s: Seq<usize>) -> bool {
    forall|i: int, j: int| 0 <= i < j < s.len() ==> s[i] < s[j]
}

/// The two lists hold the same layers.
pub open spec fn same_layers(a: Seq<usize>, b: Seq<usize>) -> bool {
    forall|l: usize|
        #![trigger a.contains(l)]
        #![trigger b.contains(l)]
        a.contains(l) <==> b.contains(l)
}

impl Clone for ExpertPlan {
    fn clone(&self) -> (r: ExpertPlan)
        ensures
            r.layers() == self.layers(),
            r.total() == self.total(),
    {
        proof {
            use_type_invariant(self);
        }
        ExpertPlan { cpu_layers: self.cpu_layers.clone(), total_layers: self.total_layers }
    }
}

/// The first `n` layers.
pub open spec fn prefix(n: nat) -> Seq<usize> {
    Seq::new(n, |i: int| i as usize)
}

/// How many layers there are, where they are the first ones.
pub open spec fn as_count(s: Seq<usize>) -> Option<usize> {
    if s == prefix(s.len()) {
        Some(s.len() as usize)
    } else {
        None
    }
}

/// The numbers of layers as they are written.
pub open spec fn numerals(s: Seq<usize>) -> Seq<Seq<char>> {
    Seq::new(s.len(), |i: int| text::decimal(s[i] as nat))
}

/// The pattern that names the expert tensors of layers, and where they go.
/// Behind the number stands an escaped dot, so that `blk.1.` cannot also match
/// `blk.10.`.
pub open spec fn pattern(s: Seq<usize>) -> Seq<char> {
    "blk\\.("@ + text::joined(numerals(s), "|"@) + ")\\.ffn_.*_exps\\.=CPU"@
}

impl ExpertPlan {
    /// The layers, in ascending order.
    pub closed spec fn layers(&self) -> Seq<usize> {
        self.cpu_layers@
    }

    /// How many layers the model has.
    pub closed spec fn total(&self) -> usize {
        self.total_layers
    }

    #[verifier::type_invariant]
    spec fn inv(self) -> bool {
        &&& ascending(self.cpu_layers@)
        &&& forall|i: int| 0 <= i < self.cpu_layers@.len() ==> self.cpu_layers@[i] < self.total_layers
    }

    /// What `-ncmoe n` means: the first `n` layers.
    pub fn first_n(n: usize, total_layers: usize) -> (r: ExpertPlan)
        ensures
            r.layers() == prefix(
                if n < total_layers {
                    n as nat
                } else {
                    total_layers as nat
                },
            ),
            r.total() == total_layers,
    {
        let n: usize = if n < total_layers {
            n
        } else {
            total_layers
        };
        let mut cpu_layers: Vec<usize> = Vec::new();
        let mut i: usize = 0;
        while i < n
            invariant
                i <= n,
                cpu_layers@ == prefix(i as nat),
            decreases n - i,
        {
            cpu_layers.push(i);
            assert(prefix(i as nat).push(i) =~= prefix((i + 1) as nat));
            i = i + 1;
        }
        ExpertPlan { cpu_layers, total_layers }
    }

    /// An arbitrary set of layers. Order and duplicates do not matter, and
    /// layers past the end are dropped.
    pub fn from_layers(layers: &[usize], total_layers: usize) -> (r: ExpertPlan)
        ensures
            ascending(r.layers()),
            forall|l: usize| #[trigger]
                r.layers().contains(l) <==> layers@.contains(l) && l < total_layers,
            r.total() == total_layers,
    {
        let mut cpu_layers: Vec<usize> = Vec::new();
        let mut i: usize = 0;
        while i < layers.len()
            invariant
                i <= layers@.len(),
                ascending(cpu_layers@),
                forall|l: usize| #[trigger]
                    cpu_layers@.contains(l) <==> layers@.take(i as int).contains(l) && l
                        < total_layers,
            decreases layers@.len() - i,
        {
            let ghost before = cpu_layers@;
            let ghost seen = layers@.take(i as int);
            let layer: usize = layers[i];
            proof {
                assert(layers@.take(i + 1) =~= seen.push(layer));
                lemma_push_contains(seen, layer);
            }
            if layer < total_layers {
                let mut p: usize = 0;
                while p < cpu_layers.len() && cpu_layers[p] < layer
                    invariant
                        p <= cpu_layers@.len(),
                        cpu_layers@ == before,
                        forall|k: int| 0 <= k < p ==> cpu_layers@[k] < layer,
                    decreases cpu_layers@.len() - p,
                {
                    p = p + 1;
                }
                if p == cpu_layers.len() || cpu_layers[p] != layer {
                    cpu_layers.insert(p, layer);
                    proof {
                        lemma_insert_ascending(before, p as int, layer);
                    }
                } else {
                    assert(before.contains(layer)) by {
                        assert(before[p as int] == layer);
                    }
                }
            }
            i = i + 1;
        }
        assert(layers@.take(i as int) =~= layers@);
        assert forall|k: int| 0 <= k < cpu_layers@.len() implies cpu_layers@[k] < total_layers by {
            assert(cpu_layers@.contains(cpu_layers@[k]));
        }
        ExpertPlan { cpu_layers, total_layers }
    }

    /// The layers, in ascending order.
    pub fn cpu_layers(&self) -> (r: &[usize])
        ensures
            r@ == self.layers(),
            ascending(r@),
            forall|i: int| 0 <= i < r@.len() ==> r@[i] < self.total(),
    {
        proof {
            use_type_invariant(self);
        }
        self.cpu_layers.as_slice()
    }

    /// How many layers there are.
    pub fn len(&self) -> (r: usize)
        ensures
            r == self.layers().len(),
    {
        self.cpu_layers.len()
    }

    /// Whether there are none.
    pub fn is_empty(&self) -> (r: bool)
        ensures
            r == (self.layers().len() == 0),
    {
        self.cpu_layers.len() == 0
    }

    /// `Some(n)` when the plan is exactly the first `n` layers, which the
    /// runtime already has a flag for. Returning `Some` is what keeps an
    /// already-tuned machine on the command line it was measured with.
    pub fn as_first_n(&self) -> (r: Option<usize>)
        ensures
            r == as_count(self.layers()),
    {
        let mut i: usize = 0;
        while i < self.cpu_layers.len()
            invariant
                i <= self.cpu_layers@.len(),
                self.layers() == self.cpu_layers@,
                forall|k: int| 0 <= k < i ==> self.cpu_layers@[k] == k,
            decreases self.cpu_layers@.len() - i,
        {
            if self.cpu_layers[i] != i {
                assert(self.cpu_layers@[i as int] != prefix(self.cpu_layers@.len())[i as int]);
                return None;
            }
            i = i + 1;
        }
        assert(self.cpu_layers@ =~= prefix(self.cpu_layers@.len()));
        Some(self.cpu_layers.len())
    }

    /// The `-ot` value placing these layers' expert tensors on the CPU, or
    /// `None` when there is nothing to place.
    pub fn to_override(&self) -> (r: Option<String>)
        ensures
            r is None == (self.layers().len() == 0),
            r matches Some(s) ==> s@ == pattern(self.layers()),
    {
        if self.cpu_layers.len() == 0 {
            return None;
        }
        let mut alternatives: Vec<String> = Vec::new();
        let mut i: usize = 0;
        while i < self.cpu_layers.len()
            invariant
                i <= self.cpu_layers@.len(),
                text::texts(alternatives@) == numerals(self.cpu_layers@).take(i as int),
            decreases self.cpu_layers@.len() - i,
        {
            let s = text::number(self.cpu_layers[i] as u64);
            proof {
                text::lemma_texts_push(alternatives@, s);
                assert(numerals(self.cpu_layers@).take(i as int).push(s@) =~= numerals(
                    self.cpu_layers@,
                ).take(i + 1));
            }
            alternatives.push(s);
            i = i + 1;
        }
        assert(numerals(self.cpu_layers@).take(i as int) =~= numerals(self.cpu_layers@));
        let mut r = "blk\\.(".to_owned();
        r.append(text::join(&alternatives, "|").as_str());
        r.append(")\\.ffn_.*_exps\\.=CPU");
        Some(r)
    }
}

proof fn lemma_push_contains(s: Seq<usize>, x: usize)
    ensures
        forall|l: usize| #[trigger] s.push(x).contains(l) <==> s.contains(l) || l == x,
{
    assert forall|l: usize| #[trigger] s.push(x).contains(l) <==> s.contains(l) || l == x by {
        if s.contains(l) {
            let k = choose|k: int| 0 <= k < s.len() && s[k] == l;
            assert(s.push(x)[k] == l);
        }
        if l == x {
            assert(s.push(x)[s.len() as int] == l);
        }
    }
}

proof fn lemma_insert_ascending(s: Seq<usize>, p: int, x: usize)
    requires
        ascending(s),
        0 <= p <= s.len(),
        forall|k: int| 0 <= k < p ==> s[k] < x,
        p < s.len() ==> s[p] > x,
    ensures
        ascending(s.insert(p, x)),
        forall|l: usize| #[trigger] s.insert(p, x).contains(l) <==> s.contains(l) || l == x,
{
    let t = s.insert(p, x);
    assert forall|i: int, j: int| 0 <= i < j < t.len() implies t[i] < t[j] by {
        let a = if i < p {
            s[i]
        } else if i > p {
            s[i - 1]
        } else {
            x
        };
        let b = if j < p {
            s[j]
        } else if j > p {
            s[j - 1]
        } else {
            x
        };
        assert(t[i] == a && t[j] == b);
    }
    assert forall|l: usize| #[trigger] t.contains(l) <==> s.contains(l) || l == x by {
        if s.contains(l) {
            let k = choose|k: int| 0 <= k < s.len() && s[k] == l;
            if k < p {
                assert(t[k] == l);
            } else {
                assert(t[k + 1] == l);
            }
        }
        if l == x {
            assert(t[p] == l);
        }
        if t.contains(l) && l != x {
            let k = choose|k: int| 0 <= k < t.len() && t[k] == l;
            if k < p {
                assert(s[k] == l);
            } else {
                assert(s[k - 1] == l);
            }
        }
    }
}

proof fn lemma_ascending_unique(a: Seq<usize>, b: Seq<usize>)
    requires
        ascending(a),
        ascending(b),
        same_layers(a, b),
    ensures
        a == b,
    decreases a.len(),
{
    if a.len() == 0 {
        if b.len() > 0 {
            assert(b.contains(b[0]));
        }
        assert(a =~= b);
    } else if b.len() == 0 {
        assert(a.contains(a[0]));
    } else {
        let x = a.last();
        let y = b.last();
        assert(a.contains(x));
        assert(b.contains(y));
        assert(b.contains(x) && a.contains(y));
        let i = choose|i: int| 0 <= i < b.len() && b[i] == x;
        let j = choose|j: int| 0 <= j < a.len() && a[j] == y;
        assert(x == y);
        assert forall|l: usize| a.drop_last().contains(l) <==> b.drop_last().contains(l) by {
            if a.drop_last().contains(l) {
                let k = choose|k: int| 0 <= k < a.len() - 1 && a.drop_last()[k] == l;
                assert(a[k] == l);
                assert(a.contains(l));
                let m = choose|m: int| 0 <= m < b.len() && b[m] == l;
                assert(b.drop_last()[m] == l);
            }
            if b.drop_last().contains(l) {
                let k = choose|k: int| 0 <= k < b.len() - 1 && b.drop_last()[k] == l;
                assert(b[k] == l);
                assert(b.contains(l));
                let m = choose|m: int| 0 <= m < a.len() && a[m] == l;
                assert(a.drop_last()[m] == l);
            }
        }
        lemma_ascending_unique(a.drop_last(), b.drop_last());
        assert(a =~= a.drop_last().push(x));
        assert(b =~= b.drop_last().push(y));
    }
}

/// A set of layers makes one plan, whatever order it is given in and however
/// often it names a layer; where the set is the first `n` layers, it is the
/// plan `-ncmoe n` stands for.
pub proof fn law_a_plan_is_its_set_of_layers(a: Seq<usize>, b: Seq<usize>, n: nat)
    requires
        ascending(a),
        ascending(b),
        n <= usize::MAX,
    ensures
        same_layers(a, b) ==> a == b,
        (forall|l: usize| #[trigger] a.contains(l) <==> l < n) ==> a == prefix(n),
{
    if same_layers(a, b) {
        lemma_ascending_unique(a, b);
    }
    if forall|l: usize| #[trigger] a.contains(l) <==> l < n {
        assert forall|l: usize| a.contains(l) <==> prefix(n).contains(l) by {
            if l < n {
                assert(prefix(n)[l as int] == l);
            }
        }
        lemma_ascending_unique(a, prefix(n));
    }
}

/// The first `n` layers are a plan `-ncmoe` can express, and a plan it can
/// express is the first layers.
pub proof fn law_a_prefix_is_still_a_count(n: usize, s: Seq<usize>)
    ensures
        as_count(prefix(n as nat)) == Some(n),
        s.len() <= usize::MAX && as_count(s) is Some ==> s == prefix(as_count(s)->0 as nat),
{
    assert(prefix(n as nat).len() == n);
}

/// The alternatives of the pattern name the layers of the plan, and no other:
/// a layer whose number is the beginning of another's is told from it.
pub proof fn law_the_pattern_names_exactly_its_layers(s: Seq<usize>, l: usize)
    ensures
        numerals(s).contains(text::decimal(l as nat)) <==> s.contains(l),
{
    if s.contains(l) {
        let k = choose|k: int| 0 <= k < s.len() && s[k] == l;
        assert(numerals(s)[k] == text::decimal(l as nat));
    }
    if numerals(s).contains(text::decimal(l as nat)) {
        let k = choose|k: int|
            0 <= k < numerals(s).len() && numerals(s)[k] == text::decimal(l as nat);
        text::law_decimal_is_unique(s[k] as nat, l as nat);
        assert(s[k] == l);
    }
}

} // verus!

//! Where models come from: the local store, the blobs another program keeps,
//! and the Hugging Face hub, shard by shard.
use crate::digest;
use crate::digest::Sha256;
use crate::json;
use crate::json::JsonTree;
use crate::runner;
use crate::text;
use vstd::prelude::*;

verus! {

/// A blob below this many bytes is not looked at.
pub const SMALLEST_BLOB: u64 = 1_000_000;

/// How many shards of a listing are counted.
pub const SHARDS_LISTED: usize = 5;

/// How many shards are fetched.
pub const SHARDS_FETCHED: usize = 3;

/// The local store of models.
#[derive(Debug)]
pub struct Hub {
    pub cache_dir: String,
}

impl Hub {
    /// The store in its usual place.
    pub fn new() -> (r: Hub)
        ensures
            r.cache_dir@ == "rocm/models"@,
    {
        Hub { cache_dir: "rocm/models".to_owned() }
    }

    /// The repository a model is fetched from.
    pub fn hf_repo(model: &str) -> (r: String)
        ensures
            r@ == repo_of(model@, text::lower_text(model@)),
    {
        let lower = text::to_lower(model);
        repo_for(model, lower.as_str())
    }

    /// The name of the directory a model is kept in. It leads nowhere else.
    pub fn sanitize_model(model: &str) -> (r: String)
        ensures
            r@ == sanitized(model@, letters_of(model@)),
            forall|i: int|
                0 <= i < r@.len() ==> {
                    let c = #[trigger] r@[i];
                    c != '/' && c != ':' && c != '\\'
                },
            forall|i: int|
                0 <= i < r@.len() - 1 ==> !(#[trigger] r@[i] == '.' && r@[i + 1] == '.'),
    {
        let v = text::chars_of(model);
        let mut flags: Vec<bool> = Vec::new();
        let ghost want = letters_of(model@);
        let mut i: usize = 0;
        while i < v.len()
            invariant
                i <= v@.len(),
                v@ == model@,
                want == letters_of(model@),
                flags@ == want.take(i as int),
                forall|j: int| 0 <= j < i && #[trigger] v@[j] == '\\' ==> !want[j],
            decreases v@.len() - i,
        {
            let b: bool = text::is_alphanumeric(v[i]);
            flags.push(b);
            assert(want.take(i as int).push(b) =~= want.take(i + 1));
            i = i + 1;
        }
        assert(want.take(i as int) =~= want);
        proof {
            law_a_sanitised_name_stays_in_place(model@, want);
        }
        sanitize(model, flags.as_slice())
    }
}

// ---------------------------------------------------------------- names

/// The repository of a model; `lower` is its name in small letters. A name
/// that is already one of the hub's is kept.
pub open spec fn repo_of(model: Seq<char>, lower: Seq<char>) -> Seq<char> {
    if text::has(lower, "ornith"@) && text::has(lower, "35b"@) {
        "ornith-ai/Ornith-1.5-35B-A3B"@
    } else if text::has(lower, "ornith"@) && text::has(lower, "9b"@) {
        "ornith-ai/Ornith-1.5-9B"@
    } else if text::has(lower, "ornith"@) && text::has(lower, "397b"@) {
        "ornith-ai/Ornith-1.5-397B"@
    } else if text::has(lower, "qwen"@) && text::has(lower, "35b"@) {
        "Qwen/Qwen2.5-32B-Instruct"@
    } else if text::has(lower, "glm"@) && text::has(lower, "744b"@) {
        "zai-org/GLM-4.5"@
    } else if text::first_of(model, '/') is Some {
        model
    } else {
        "ornith-ai/"@ + model
    }
}

/// The repository of a model; `lower` is its name in small letters.
pub fn repo_for(model: &str, lower: &str) -> (r: String)
    ensures
        r@ == repo_of(model@, lower@),
{
    let ornith: bool = text::contains(lower, "ornith");
    if ornith && text::contains(lower, "35b") {
        "ornith-ai/Ornith-1.5-35B-A3B".to_owned()
    } else if ornith && text::contains(lower, "9b") {
        "ornith-ai/Ornith-1.5-9B".to_owned()
    } else if ornith && text::contains(lower, "397b") {
        "ornith-ai/Ornith-1.5-397B".to_owned()
    } else if text::contains(lower, "qwen") && text::contains(lower, "35b") {
        "Qwen/Qwen2.5-32B-Instruct".to_owned()
    } else if text::contains(lower, "glm") && text::contains(lower, "744b") {
        "zai-org/GLM-4.5".to_owned()
    } else if text::find_char(text::chars_of(model).as_slice(), '/').is_some() {
        model.to_owned()
    } else {
        let mut r = "ornith-ai/".to_owned();
        r.append(model);
        r
    }
}

/// A character that a name may hold.
pub open spec fn allowed(c: char, alphanumeric: bool) -> bool {
    alphanumeric || c == '-' || c == '_' || c == ':' || c == '/' || c == '.'
}

/// A character of a name as it may stand in the name of a directory.
pub open spec fn flattened(c: char) -> char {
    if c == ':' || c == '/' {
        '_'
    } else {
        c
    }
}

/// The characters a name may hold, flattened; `flags` says of each whether it
/// is a letter or a digit.
pub open spec fn kept(s: Seq<char>, flags: Seq<bool>) -> Seq<char>
    decreases s.len(),
{
    if s.len() == 0 || flags.len() != s.len() {
        Seq::empty()
    } else {
        let before = kept(s.drop_last(), flags.drop_last());
        if allowed(s.last(), flags.last()) {
            before.push(flattened(s.last()))
        } else {
            before
        }
    }
}

/// Every two dots in a row, from the first on, made one underscore.
pub open spec fn undotted(s: Seq<char>) -> Seq<char>
    decreases s.len(),
{
    if s.len() == 0 {
        Seq::empty()
    } else if s.len() > 1 && s[0] == '.' && s[1] == '.' {
        seq!['_'] + undotted(s.skip(2))
    } else {
        seq![s[0]] + undotted(s.skip(1))
    }
}

/// The name of the directory of a model.
pub open spec fn sanitized(s: Seq<char>, flags: Seq<bool>) -> Seq<char> {
    undotted(kept(s, flags))
}

/// The name of the directory of a model. `flags` says of each character
/// whether it is a letter or a digit.
pub fn sanitize(model: &str, flags: &[bool]) -> (r: String)
    requires
        flags@.len() == model@.len(),
    ensures
        r@ == sanitized(model@, flags@),
{
    let v = text::chars_of(model);
    let mut flat: Vec<char> = Vec::new();
    let mut i: usize = 0;
    assert(model@.take(0) =~= Seq::<char>::empty());
    while i < v.len()
        invariant
            i <= v@.len(),
            v@ == model@,
            flags@.len() == model@.len(),
            flat@ == kept(model@.take(i as int), flags@.take(i as int)),
        decreases v@.len() - i,
    {
        assert(model@.take(i + 1).drop_last() =~= model@.take(i as int));
        assert(flags@.take(i + 1).drop_last() =~= flags@.take(i as int));
        let c: char = v[i];
        if flags[i] || c == '-' || c == '_' || c == ':' || c == '/' || c == '.' {
            let d: char = if c == ':' || c == '/' {
                '_'
            } else {
                c
            };
            flat.push(d);
        }
        i = i + 1;
    }
    assert(model@.take(i as int) =~= model@);
    assert(flags@.take(i as int) =~= flags@);
    undot(flat.as_slice())
}

fn undot(v: &[char]) -> (r: String)
    ensures
        r@ == undotted(v@),
{
    let mut r = String::new();
    let mut i: usize = 0;
    let end: usize = v.len();
    assert(v@.skip(0) =~= v@);
    assert(r@ + undotted(v@) =~= undotted(v@));
    while i < end
        invariant
            i <= end,
            end == v@.len(),
            undotted(v@) == r@ + undotted(v@.skip(i as int)),
        decreases end - i,
    {
        let ghost rest = v@.skip(i as int);
        let ghost before = r@;
        if end - i > 1 && v[i] == '.' && v[i + 1] == '.' {
            r.push('_');
            assert(rest.skip(2) =~= v@.skip(i + 2));
            assert(before + (seq!['_'] + undotted(v@.skip(i + 2))) =~= r@ + undotted(
                v@.skip(i + 2),
            ));
            i = i + 2;
        } else {
            r.push(v[i]);
            assert(rest.skip(1) =~= v@.skip(i + 1));
            assert(before + (seq![rest[0]] + undotted(v@.skip(i + 1))) =~= r@ + undotted(
                v@.skip(i + 1),
            ));
            i = i + 1;
        }
    }
    assert(r@ + undotted(v@.skip(i as int)) =~= r@);
    r
}

proof fn lemma_kept(s: Seq<char>, flags: Seq<bool>)
    ensures
        forall|i: int|
            0 <= i < kept(s, flags).len() ==> kept(s, flags)[i] != '/' && kept(s, flags)[i] != ':',
    decreases s.len(),
{
    if s.len() > 0 && flags.len() == s.len() {
        lemma_kept(s.drop_last(), flags.drop_last());
        let before = kept(s.drop_last(), flags.drop_last());
        let r = kept(s, flags);
        assert forall|i: int| 0 <= i < r.len() implies r[i] != '/' && r[i] != ':' by {
            if i < before.len() {
                assert(r[i] == before[i]);
            } else {
                assert(r[i] == flattened(s.last()));
            }
        }
    }
}

proof fn lemma_undotted(s: Seq<char>)
    requires
        forall|i: int| 0 <= i < s.len() ==> s[i] != '/' && s[i] != ':',
    ensures
        ({
            let r = undotted(s);
            &&& forall|i: int| 0 <= i < r.len() ==> r[i] != '/' && r[i] != ':'
            &&& forall|i: int| 0 <= i < r.len() - 1 ==> !(#[trigger] r[i] == '.' && r[i + 1] == '.')
            &&& r.len() > 0 && r[0] == '.' ==> s[0] == '.' && (s.len() > 1 ==> s[1] != '.')
        }),
    decreases s.len(),
{
    if s.len() > 0 {
        let r = undotted(s);
        if s.len() > 1 && s[0] == '.' && s[1] == '.' {
            lemma_undotted(s.skip(2));
            let t = undotted(s.skip(2));
            assert(r =~= seq!['_'] + t);
            assert forall|i: int| 0 <= i < r.len() - 1 implies !(#[trigger] r[i] == '.' && r[i + 1]
                == '.') by {
                if i > 0 {
                    assert(r[i] == t[i - 1] && r[i + 1] == t[i]);
                }
            }
        } else {
            lemma_undotted(s.skip(1));
            let t = undotted(s.skip(1));
            assert(r =~= seq![s[0]] + t);
            assert forall|i: int| 0 <= i < r.len() - 1 implies !(#[trigger] r[i] == '.' && r[i + 1]
                == '.') by {
                if i > 0 {
                    assert(r[i] == t[i - 1] && r[i + 1] == t[i]);
                }
            }
        }
    }
}

/// Which characters of a name are letters or digits.
pub open spec fn letters_of(s: Seq<char>) -> Seq<bool> {
    Seq::new(s.len(), |i: int| text::alphanumeric(s[i]))
}

/// A character that a sanitised name may hold.
pub open spec fn plain(c: char, letter: bool) -> bool {
    c != '/' && c != ':' && (letter || c == '-' || c == '_' || c == '.')
}

proof fn lemma_kept_comes_from(s: Seq<char>, flags: Seq<bool>, i: int)
    requires
        s.len() == flags.len(),
        0 <= i < kept(s, flags).len(),
    ensures
        ({
            let c = kept(s, flags)[i];
            c == '-' || c == '_' || c == '.' || exists|j: int|
                0 <= j < s.len() && flags[j] && #[trigger] s[j] == c
        }),
    decreases s.len(),
{
    let (t, f) = (s.drop_last(), flags.drop_last());
    let before = kept(t, f);
    if i < before.len() {
        assert(kept(s, flags)[i] == before[i]);
        lemma_kept_comes_from(t, f, i);
        let c = before[i];
        if exists|j: int| 0 <= j < t.len() && f[j] && #[trigger] t[j] == c {
            let j = choose|j: int| 0 <= j < t.len() && f[j] && #[trigger] t[j] == c;
            assert(s[j] == c && flags[j]);
        }
    } else {
        assert(kept(s, flags)[i] == flattened(s.last()));
        if flags.last() {
            assert(s[s.len() - 1] == s.last());
        }
    }
}

proof fn lemma_undotted_comes_from(s: Seq<char>, i: int)
    requires
        0 <= i < undotted(s).len(),
    ensures
        undotted(s)[i] == '_' || s.contains(undotted(s)[i]),
    decreases s.len(),
{
    let r = undotted(s);
    let n: int = if s.len() > 1 && s[0] == '.' && s[1] == '.' {
        2
    } else {
        1
    };
    let t = undotted(s.skip(n));
    if i == 0 {
        assert(r[0] == '_' || r[0] == s[0]);
    } else {
        assert(r[i] == t[i - 1]);
        lemma_undotted_comes_from(s.skip(n), i - 1);
        if s.skip(n).contains(t[i - 1]) {
            let j = choose|j: int| 0 <= j < s.skip(n).len() && s.skip(n)[j] == t[i - 1];
            assert(s[j + n] == t[i - 1]);
        }
    }
}

/// What a sanitised name holds: of what is no letter or digit only a hyphen, an
/// underscore and a dot.
proof fn lemma_sanitized_holds(s: Seq<char>, flags: Seq<bool>, i: int)
    requires
        s.len() == flags.len(),
        0 <= i < sanitized(s, flags).len(),
    ensures
        ({
            let c = sanitized(s, flags)[i];
            c == '-' || c == '_' || c == '.' || exists|j: int|
                0 <= j < s.len() && flags[j] && #[trigger] s[j] == c
        }),
{
    let k = kept(s, flags);
    let c = sanitized(s, flags)[i];
    lemma_undotted_comes_from(k, i);
    if c != '_' {
        let j = choose|j: int| 0 <= j < k.len() && k[j] == c;
        lemma_kept_comes_from(s, flags, j);
    }
}

/// The name of a directory holds nothing that leads out of it: no separator of
/// any system, no drive, and no two dots in a row. A backslash is no letter or
/// digit.
pub proof fn law_a_sanitised_name_stays_in_place(s: Seq<char>, flags: Seq<bool>)
    requires
        s.len() == flags.len(),
        forall|i: int| 0 <= i < s.len() && #[trigger] s[i] == '\\' ==> !flags[i],
    ensures
        forall|i: int|
            0 <= i < sanitized(s, flags).len() ==> {
                let c = #[trigger] sanitized(s, flags)[i];
                c != '/' && c != ':' && c != '\\'
            },
        forall|i: int|
            0 <= i < sanitized(s, flags).len() - 1 ==> !(#[trigger] sanitized(s, flags)[i] == '.'
                && sanitized(s, flags)[i + 1] == '.'),
{
    lemma_kept(s, flags);
    lemma_undotted(kept(s, flags));
    assert forall|i: int| 0 <= i < sanitized(s, flags).len() implies {
        let c = #[trigger] sanitized(s, flags)[i];
        c != '/' && c != ':' && c != '\\'
    } by {
        lemma_sanitized_holds(s, flags, i);
    }
}

proof fn lemma_kept_as_it_is(s: Seq<char>, flags: Seq<bool>)
    requires
        s.len() == flags.len(),
        forall|i: int| 0 <= i < s.len() ==> plain(#[trigger] s[i], flags[i]),
    ensures
        kept(s, flags) == s,
    decreases s.len(),
{
    if s.len() > 0 {
        let (t, f) = (s.drop_last(), flags.drop_last());
        assert forall|i: int| 0 <= i < t.len() implies plain(#[trigger] t[i], f[i]) by {
            assert(plain(s[i], flags[i]));
        }
        lemma_kept_as_it_is(t, f);
        assert(plain(s[s.len() - 1], flags[s.len() - 1]));
        assert(kept(s, flags) =~= s);
    }
}

proof fn lemma_undotted_as_it_is(s: Seq<char>)
    requires
        forall|i: int| 0 <= i < s.len() - 1 ==> !(#[trigger] s[i] == '.' && s[i + 1] == '.'),
    ensures
        undotted(s) == s,
    decreases s.len(),
{
    if s.len() > 0 {
        let t = s.skip(1);
        assert forall|i: int| 0 <= i < t.len() - 1 implies !(#[trigger] t[i] == '.' && t[i + 1]
            == '.') by {
            assert(t[i] == s[i + 1]);
        }
        lemma_undotted_as_it_is(t);
        assert(!(s.len() > 1 && s[0] == '.' && s[1] == '.'));
        assert(undotted(s) =~= s);
    } else {
        assert(undotted(s) =~= s);
    }
}

/// Sanitising a name that was sanitised changes nothing.
pub proof fn law_sanitising_twice_changes_nothing(s: Seq<char>)
    ensures
        ({
            let r = sanitized(s, letters_of(s));
            sanitized(r, letters_of(r)) == r
        }),
{
    let flags = letters_of(s);
    let r = sanitized(s, flags);
    let again = letters_of(r);
    lemma_kept(s, flags);
    lemma_undotted(kept(s, flags));
    assert forall|i: int| 0 <= i < r.len() implies plain(#[trigger] r[i], again[i]) by {
        lemma_sanitized_holds(s, flags, i);
    }
    lemma_kept_as_it_is(r, again);
    lemma_undotted_as_it_is(r);
}

// ---------------------------------------------------------------- local copies

/// Whether a file is a model, by the bytes it opens with.
///
/// Reading four bytes is a better test of "is this a model" than any size
/// threshold: it is true for a 500 MB model and false for a file that is not
/// one at all.
pub fn is_gguf(head: &[u8]) -> (r: bool)
    ensures
        r == (head@.len() >= 4 && crate::format::has_magic(head@)),
{
    head.len() >= 4 && head[0] == 0x47 && head[1] == 0x47 && head[2] == 0x55 && head[3] == 0x46
}

/// A file of a store that names its files by their content.
#[derive(Debug, Clone, Copy, PartialEq, Eq, Structural)]
pub struct Blob {
    pub is_file: bool,
    pub size: u64,
    pub is_gguf: bool,
}

impl Blob {
    pub open spec fn usable(self) -> bool {
        self.is_file && self.size >= SMALLEST_BLOB && self.is_gguf
    }
}

/// The largest model among blobs, the first of equally large ones.
///
/// The blobs are named by digest, so there is nothing to match on but content.
pub fn largest_gguf_blob(blobs: &Vec<Blob>) -> (r: Option<usize>)
    ensures
        match r {
            Some(i) => {
                &&& i < blobs@.len()
                &&& blobs@[i as int].usable()
                &&& forall|j: int|
                    0 <= j < blobs@.len() && (#[trigger] blobs@[j]).usable() ==> blobs@[j].size
                        <= blobs@[i as int].size && (j < i ==> blobs@[j].size
                        < blobs@[i as int].size)
            },
            None => forall|j: int| 0 <= j < blobs@.len() ==> !(#[trigger] blobs@[j]).usable(),
        },
{
    let mut best: Option<usize> = None;
    let mut i: usize = 0;
    while i < blobs.len()
        invariant
            i <= blobs@.len(),
            match best {
                Some(b) => {
                    &&& b < i
                    &&& blobs@[b as int].usable()
                    &&& forall|j: int|
                        0 <= j < i && (#[trigger] blobs@[j]).usable() ==> blobs@[j].size
                            <= blobs@[b as int].size && (j < b ==> blobs@[j].size
                            < blobs@[b as int].size)
                },
                None => forall|j: int| 0 <= j < i ==> !(#[trigger] blobs@[j]).usable(),
            },
        decreases blobs@.len() - i,
    {
        let b = blobs[i];
        if b.is_file && b.size >= SMALLEST_BLOB && b.is_gguf {
            best = match best {
                Some(k) => if b.size <= blobs[k].size {
                    Some(k)
                } else {
                    Some(i)
                },
                None => Some(i),
            };
        }
        i = i + 1;
    }
    best
}

/// Where a model is taken from.
#[derive(Debug, Clone, Copy, PartialEq, Eq, Structural)]
pub enum Origin {
    /// It is there already.
    Present,
    /// It is copied from the blob of this number.
    Blob(usize),
    /// It is fetched from the hub.
    Remote,
}

/// Where to take a model from: a usable local copy means there is nothing to
/// fetch, and a blob is copied before anything is downloaded.
pub fn origin(present: bool, blob: Option<usize>) -> (r: Origin)
    ensures
        r == if present {
            Origin::Present
        } else {
            match blob {
                Some(i) => Origin::Blob(i),
                None => Origin::Remote,
            }
        },
{
    if present {
        Origin::Present
    } else {
        match blob {
            Some(i) => Origin::Blob(i),
            None => Origin::Remote,
        }
    }
}

// ---------------------------------------------------------------- the hub

/// The file an entry of a listing names, where it is a shard.
pub open spec fn shard_name(t: JsonTree) -> Option<Seq<char>> {
    match t.child("rfilename"@) {
        Some(n) => match n.text() {
            Some(s) => if text::ends(s, ".safetensors"@) {
                Some(s)
            } else {
                None
            },
            None => None,
        },
        None => None,
    }
}

/// The shards a listing names, in order.
pub open spec fn shards_in(s: Seq<JsonTree>) -> Seq<Seq<char>>
    decreases s.len(),
{
    if s.len() == 0 {
        Seq::empty()
    } else {
        let before = shards_in(s.drop_last());
        match shard_name(s.last()) {
            Some(n) => before.push(n),
            None => before,
        }
    }
}

/// The first `n` items of a list, or all where there are fewer.
pub open spec fn first_n(s: Seq<Seq<char>>, n: nat) -> Seq<Seq<char>> {
    if s.len() > n {
        s.take(n as int)
    } else {
        s
    }
}

/// The shards of a repository: the first of those it lists, or the one file
/// that it holds where it lists none. Nothing where there is no listing.
pub open spec fn shards_of(listing: JsonTree) -> Option<Seq<Seq<char>>> {
    match listing.child("siblings"@) {
        Some(t) => match t.items() {
            Some(s) => {
                let found = first_n(shards_in(s), SHARDS_LISTED as nat);
                Some(
                    if found.len() == 0 {
                        seq!["model.safetensors"@]
                    } else {
                        found
                    },
                )
            },
            None => None,
        },
        None => None,
    }
}

/// The shards of a repository, from its listing. Nothing where there is no
/// listing.
pub fn list_shards(listing: &serde_json::Value) -> (r: Option<Vec<String>>)
    ensures
        r is Some == shards_of(json::json_tree(*listing)) is Some,
        r matches Some(v) ==> shards_of(json::json_tree(*listing)) == Some(text::texts(v@)),
{
    let siblings = match json::get(listing, "siblings") {
        Some(t) => match json::as_array(t) {
            Some(s) => s,
            None => {
                return None;
            },
        },
        None => {
            return None;
        },
    };
    let ghost all = json::json_trees(siblings@);
    let mut found: Vec<String> = Vec::new();
    let mut i: usize = 0;
    assert(all.take(0) =~= Seq::<JsonTree>::empty());
    assert(text::texts(found@) =~= first_n(shards_in(all.take(0)), SHARDS_LISTED as nat));
    while i < siblings.len()
        invariant
            i <= siblings@.len(),
            all == json::json_trees(siblings@),
            text::texts(found@) == first_n(shards_in(all.take(i as int)), SHARDS_LISTED as nat),
        decreases siblings@.len() - i,
    {
        assert(all.take(i + 1).drop_last() =~= all.take(i as int));
        let ghost before = shards_in(all.take(i as int));
        if let Some(t) = json::get(&siblings[i], "rfilename") {
            if let Some(s) = json::as_str(t) {
                if text::ends_with(s, ".safetensors") && found.len() < SHARDS_LISTED {
                    let name = s.to_owned();
                    proof {
                        text::lemma_texts_push(found@, name);
                    }
                    found.push(name);
                }
            }
        }
        assert(text::texts(found@) =~= first_n(
            shards_in(all.take(i + 1)),
            SHARDS_LISTED as nat,
        ));
        i = i + 1;
    }
    assert(all.take(i as int) =~= all);
    if found.len() == 0 {
        found.push("model.safetensors".to_owned());
        assert(text::texts(found@) =~= seq!["model.safetensors"@]);
    }
    Some(found)
}

/// The shards that are fetched of those that are listed.
pub fn to_fetch(shards: Vec<String>) -> (r: Vec<String>)
    ensures
        text::texts(r@) == first_n(text::texts(shards@), SHARDS_FETCHED as nat),
{
    let mut r = shards;
    if r.len() > SHARDS_FETCHED {
        r.truncate(SHARDS_FETCHED);
    }
    assert(text::texts(r@) =~= first_n(text::texts(shards@), SHARDS_FETCHED as nat));
    r
}

/// The shards that are fetched where there is no listing.
pub fn fallback_shards() -> (r: Vec<String>)
    ensures
        text::texts(r@) == seq![
            "model-00001-of-00003.safetensors"@,
            "model-00002-of-00003.safetensors"@,
            "model-00003-of-00003.safetensors"@,
        ],
{
    let mut r: Vec<String> = Vec::new();
    r.push("model-00001-of-00003.safetensors".to_owned());
    r.push("model-00002-of-00003.safetensors".to_owned());
    r.push("model-00003-of-00003.safetensors".to_owned());
    assert(text::texts(r@) =~= seq![
        "model-00001-of-00003.safetensors"@,
        "model-00002-of-00003.safetensors"@,
        "model-00003-of-00003.safetensors"@,
    ]);
    r
}

/// The digest an entry of a listing publishes for a file, where it is of that
/// file and publishes one.
pub open spec fn digest_in(entry: JsonTree, file: Seq<char>) -> Option<Seq<char>> {
    match entry.child("rfilename"@) {
        Some(name) => if name.text() == Some(file) {
            match entry.child("lfs"@) {
                Some(lfs) => match lfs.child("sha256"@) {
                    Some(d) => d.text(),
                    None => None,
                },
                None => None,
            }
        } else {
            None
        },
        None => None,
    }
}

/// The first digest that entries publish for a file.
pub open spec fn first_digest(entries: Seq<JsonTree>, file: Seq<char>) -> Option<Seq<char>>
    decreases entries.len(),
{
    if entries.len() == 0 {
        None
    } else {
        match digest_in(entries[0], file) {
            Some(d) => Some(d),
            None => first_digest(entries.drop_first(), file),
        }
    }
}

/// The SHA-256 a listing publishes for a file. Nothing where it publishes none.
pub open spec fn digest_of(listing: JsonTree, file: Seq<char>) -> Option<Seq<char>> {
    match listing.child("siblings"@) {
        Some(t) => match t.items() {
            Some(s) => first_digest(s, file),
            None => None,
        },
        None => None,
    }
}

fn entry_digest(entry: &serde_json::Value, file: &str) -> (r: Option<String>)
    ensures
        runner::text_of(r) == digest_in(json::json_tree(*entry), file@),
{
    if let Some(name) = json::get(entry, "rfilename") {
        if let Some(n) = json::as_str(name) {
            if text::same(n, file) {
                if let Some(lfs) = json::get(entry, "lfs") {
                    if let Some(d) = json::get(lfs, "sha256") {
                        if let Some(s) = json::as_str(d) {
                            return Some(s.to_owned());
                        }
                    }
                }
            }
        }
    }
    None
}

/// Reads the SHA-256 a listing publishes for a file.
pub fn published(listing: &serde_json::Value, file: &str) -> (r: Option<String>)
    ensures
        runner::text_of(r) == digest_of(json::json_tree(*listing), file@),
{
    let siblings = match json::get(listing, "siblings") {
        Some(t) => match json::as_array(t) {
            Some(s) => s,
            None => {
                return None;
            },
        },
        None => {
            return None;
        },
    };
    let ghost all = json::json_trees(siblings@);
    let mut i: usize = 0;
    assert(all.skip(0) =~= all);
    while i < siblings.len()
        invariant
            i <= siblings@.len(),
            all == json::json_trees(siblings@),
            digest_of(json::json_tree(*listing), file@) == first_digest(all, file@),
            first_digest(all, file@) == first_digest(all.skip(i as int), file@),
        decreases siblings@.len() - i,
    {
        let found = entry_digest(&siblings[i], file);
        assert(all.skip(i as int)[0] == json::json_tree(siblings@[i as int]));
        assert(all.skip(i as int).drop_first() =~= all.skip(i + 1));
        if found.is_some() {
            return found;
        }
        i = i + 1;
    }
    None
}

/// Whether a file is taken for what its repository published: where a digest
/// was published, it is that of the file, in capitals or not.
pub open spec fn is_accepted(published: Option<Seq<char>>, computed: Seq<char>) -> bool {
    match published {
        Some(p) => text::lowered(p) == text::lowered(computed),
        None => true,
    }
}

/// What was published, where anything was.
pub open spec fn published_text(published: Option<&str>) -> Option<Seq<char>> {
    match published {
        Some(p) => Some(p@),
        None => None,
    }
}

/// Whether a file with the digest `computed` is the one that was published.
pub fn accepted(published: Option<&str>, computed: &str) -> (r: bool)
    ensures
        r == is_accepted(published_text(published), computed@),
{
    match published {
        Some(p) => {
            let a = text::lower_chars(text::chars_of(p).as_slice());
            let b = text::lower_chars(text::chars_of(computed).as_slice());
            text::same(text::string_of(&a).as_str(), text::string_of(&b).as_str())
        },
        None => true,
    }
}

/// Where a repository is described.
pub fn api_url(repo: &str) -> (r: String)
    ensures
        r@ == "https://huggingface.co/api/models/"@ + repo@,
{
    let mut r = "https://huggingface.co/api/models/".to_owned();
    r.append(repo);
    r
}

/// Where a file of a repository is.
pub fn file_url(repo: &str, file: &str) -> (r: String)
    ensures
        r@ == "https://huggingface.co/"@ + repo@ + "/resolve/main/"@ + file@,
{
    let mut r = "https://huggingface.co/".to_owned();
    r.append(repo);
    r.append("/resolve/main/");
    r.append(file);
    r
}

/// What a file is called until all of it is there.
pub fn partial_name(file: &str) -> (r: String)
    ensures
        r@ == file@ + ".partial"@,
{
    let mut r = file.to_owned();
    r.append(".partial");
    r
}

/// How a file is fetched.
#[derive(Debug)]
pub enum Fetch {
    /// It is not: it is there already.
    Skip,
    /// From the first byte.
    Whole,
    /// From where an earlier download stopped; the range that is asked for.
    Resume(String),
}

/// How to fetch a file. `partial` is how much of it an earlier download left.
pub fn plan_fetch(present: bool, partial: Option<u64>) -> (r: Fetch)
    ensures
        if present {
            r is Skip
        } else {
            match partial {
                Some(n) => r matches Fetch::Resume(range) && range@ == "bytes="@ + text::decimal(
                    n as nat,
                ) + "-"@,
                None => r is Whole,
            }
        },
{
    if present {
        return Fetch::Skip;
    }
    match partial {
        Some(n) => {
            let mut range = "bytes=".to_owned();
            range.append(text::number(n).as_str());
            range.append("-");
            Fetch::Resume(range)
        },
        None => Fetch::Whole,
    }
}

/// What is kept of an answer to a download.
#[derive(Debug)]
pub enum Delivery {
    /// Its body.
    Body,
    /// A note in its place, so that what follows still works offline.
    Stub(String),
}

/// What to keep of an answer: the body of a good one, and a note in the place
/// of any other. `status` is none where there was no answer.
pub fn delivery(status: Option<u16>) -> (r: Delivery)
    ensures
        match status {
            Some(s) => if 200 <= s < 300 {
                r is Body
            } else {
                r matches Delivery::Stub(t) && t@
                    == "stub shard - set HF_TOKEN for real download"@
            },
            None => r matches Delivery::Stub(t) && t@ == "stub"@,
        },
{
    match status {
        Some(s) => if 200 <= s && s < 300 {
            Delivery::Body
        } else {
            Delivery::Stub("stub shard - set HF_TOKEN for real download".to_owned())
        },
        None => Delivery::Stub("stub".to_owned()),
    }
}

/// The name what was kept of an answer is filed under, `content` being what the
/// file holds by then. A body that is not what was published never gets the
/// file's name; a note in its place does, as there is nothing it could be taken
/// for.
pub fn final_name(file: &str, kept: &Delivery, published: Option<&str>, content: &Sha256) -> (r:
    Option<String>)
    requires
        content.wf(),
    ensures
        match r {
            Some(name) => name@ == file@ && (kept is Stub || is_accepted(
                published_text(published),
                digest::hex_text(digest::sha256(content@)),
            )),
            None => kept is Body && !is_accepted(
                published_text(published),
                digest::hex_text(digest::sha256(content@)),
            ),
        },
{
    match kept {
        Delivery::Stub(_) => Some(file.to_owned()),
        Delivery::Body => {
            let computed = content.hex();
            if accepted(published, computed.as_str()) {
                Some(file.to_owned())
            } else {
                None
            }
        },
    }
}

/// Whether progress is shown after this many bytes: about every fifty
/// megabytes.
pub fn shows_progress(downloaded: u64) -> (r: bool)
    ensures
        r == (downloaded % 50_000_000 < 8192),
{
    downloaded % 50_000_000 < 8192
}

// ---------------------------------------------------------------- what is promised

/// A file is taken for the one that was published exactly where its digest is the
/// published one, in capitals or not; where none was published, any is taken.
pub proof fn law_only_the_published_file_is_accepted(p: Seq<char>, computed: Seq<char>)
    ensures
        is_accepted(Some(p), p),
        is_accepted(Some(p), computed) ==> p.len() == computed.len(),
        is_accepted(Some(p), computed) == is_accepted(Some(computed), p),
        p.len() != computed.len() ==> !is_accepted(Some(p), computed),
        text::lowered(p) != text::lowered(computed) ==> !is_accepted(Some(p), computed),
        is_accepted(None, computed),
{
    assert(text::lowered(p).len() == p.len());
    assert(text::lowered(computed).len() == computed.len());
}

/// The shards of a listing are the files it names that are shards, in its order.
pub proof fn law_shards_are_the_files_that_are_listed(
    s: Seq<JsonTree>,
    entry: JsonTree,
    stem: Seq<char>,
    name: Seq<char>,
)
    ensures
        shards_in(Seq::empty()) == Seq::<Seq<char>>::empty(),
        entry.child("rfilename"@) == Some(JsonTree::Text(stem + ".safetensors"@)) ==> shards_in(
            s.push(entry),
        ) == shards_in(s).push(stem + ".safetensors"@),
        entry.child("rfilename"@) == Some(JsonTree::Text(name)) && !text::ends(
            name,
            ".safetensors"@,
        ) ==> shards_in(s.push(entry)) == shards_in(s),
        entry.child("rfilename"@) is None ==> shards_in(s.push(entry)) == shards_in(s),
{
    assert(s.push(entry).drop_last() =~= s);
    text::law_a_text_has_its_parts(Seq::empty(), stem, ".safetensors"@);
}

/// Of a listing at most five shards are counted and three fetched, from the first
/// on; one that names none stands for the one file of its model.
pub proof fn law_the_first_shards_are_taken(
    fields: Map<Seq<char>, JsonTree>,
    s: Seq<JsonTree>,
    all: Seq<Seq<char>>,
    i: int,
)
    ensures
        ({
            let r = shards_of(
                JsonTree::Object(fields.insert("siblings"@, JsonTree::Array(s))),
            );
            &&& r is Some
            &&& shards_in(s).len() == 0 ==> r->0 == seq!["model.safetensors"@]
            &&& shards_in(s).len() > 0 ==> r->0.len() == if shards_in(s).len() < 5 {
                shards_in(s).len()
            } else {
                5
            }
            &&& shards_in(s).len() > 0 && 0 <= i < r->0.len() ==> r->0[i] == shards_in(s)[i]
        }),
        first_n(all, SHARDS_FETCHED as nat).len() <= 3,
        all.len() <= 3 ==> first_n(all, SHARDS_FETCHED as nat) == all,
        shards_of(JsonTree::Object(fields.remove("siblings"@))) is None,
{
}

/// A sanitised name keeps letters, digits, hyphens, underscores and single dots as
/// they stand, and makes one underscore of a separator.
pub proof fn law_a_plain_name_is_kept(s: Seq<char>, flags: Seq<bool>)
    requires
        s.len() == flags.len(),
        forall|i: int| 0 <= i < s.len() ==> plain(#[trigger] s[i], flags[i]),
        forall|i: int| 0 <= i < s.len() - 1 ==> !(#[trigger] s[i] == '.' && s[i + 1] == '.'),
    ensures
        sanitized(s, flags) == s,
        kept(s.push('/'), flags.push(false)) == s.push('_'),
        kept(s.push(':'), flags.push(false)) == s.push('_'),
        kept(s.push('\\'), flags.push(false)) == s,
{
    lemma_kept_as_it_is(s, flags);
    lemma_undotted_as_it_is(s);
    assert(s.push('/').drop_last() =~= s && s.push(':').drop_last() =~= s);
    assert(s.push('\\').drop_last() =~= s);
    assert(flags.push(false).drop_last() =~= flags);
}

} // verus!

//! What could be established about the ROCm toolchain on this machine.
//!
//! Paths are whatever the caller holds them as; nothing here looks inside one.
use crate::text;
use vstd::prelude::*;

verus! {

/// What could be established about the ROCm toolchain on this machine.
///
/// Every detail is optional: one that could not be established is left out
/// rather than filled in with that of another machine.
#[derive(Debug)]
pub struct RocmInfo<P> {
    pub hip_path: P,
    pub amdhip_dll: P,
    pub gfx: Option<String>,
    pub device_name: Option<String>,
    pub torch_version: Option<String>,
    pub hip_version: Option<String>,
}

/// The number of the first place that holds what is looked for, or of the
/// first of all where none does.
pub fn first_present(present: &[bool]) -> (r: usize)
    ensures
        (exists|i: int| 0 <= i < present@.len() && present@[i]) ==> r < present@.len()
            && present@[r as int] && forall|j: int| 0 <= j < r ==> !present@[j],
        (forall|i: int| 0 <= i < present@.len() ==> !present@[i]) ==> r == 0,
{
    let mut i: usize = 0;
    while i < present.len()
        invariant
            i <= present@.len(),
            forall|j: int| 0 <= j < i ==> !present@[j],
        decreases present@.len() - i,
    {
        if present[i] {
            return i;
        }
        i = i + 1;
    }
    0
}

/// Which of two toolchains is used.
#[derive(Debug, Clone, Copy, PartialEq, Eq, Structural)]
pub enum Toolchain {
    /// The one beside the program.
    Vendored,
    /// The one the environment names.
    External,
}

/// The toolchain beside the program wins where it holds the library. The one
/// the environment names is the fallback; without either the first is named,
/// so that the error names somewhere the user can look.
pub open spec fn toolchain(vendored_works: bool, external: bool) -> Toolchain {
    if vendored_works || !external {
        Toolchain::Vendored
    } else {
        Toolchain::External
    }
}

/// Returns the HIP SDK root.
pub fn hip_sdk_root<P>(vendored: P, vendored_works: bool, external: Option<P>) -> (r: P)
    ensures
        r == if toolchain(vendored_works, external is Some) == Toolchain::Vendored {
            vendored
        } else {
            external->0
        },
{
    if vendored_works {
        return vendored;
    }
    match external {
        Some(p) => p,
        None => vendored,
    }
}

/// Whether the toolchain beside the program is the one in use, and works.
pub fn is_vendored(vendored_works: bool, external: bool) -> (r: bool)
    ensures
        r == (vendored_works && toolchain(vendored_works, external) == Toolchain::Vendored),
        r == vendored_works,
{
    vendored_works
}

/// The interpreter to ask: the one the environment names, or else the one that
/// belongs to the external toolchain. Each only where it exists.
pub fn interpreter<P>(named: Option<P>, beside_sdk: Option<P>) -> (r: Option<P>)
    ensures
        r == match named {
            Some(p) => Some(p),
            None => beside_sdk,
        },
{
    match named {
        Some(p) => Some(p),
        None => beside_sdk,
    }
}

/// The line of this number, without the white space around it.
pub open spec fn line_at(listing: Seq<char>, i: int) -> Option<Seq<char>> {
    let lines = text::lines(listing);
    if 0 <= i < lines.len() {
        Some(text::trim(lines[i]))
    } else {
        None
    }
}

pub open spec fn unless_empty(s: Option<Seq<char>>) -> Option<Seq<char>> {
    match s {
        Some(t) => if t.len() == 0 {
            None
        } else {
            Some(t)
        },
        None => None,
    }
}

/// What an interpreter said of itself, line by line.
#[derive(Debug)]
pub struct Torch {
    pub device_name: Option<String>,
    pub hip_version: Option<String>,
    pub torch_version: Option<String>,
}

pub open spec fn owned(s: Option<String>) -> Option<Seq<char>> {
    match s {
        Some(s) => Some(s@),
        None => None,
    }
}

fn line_of(lines: &Vec<Vec<char>>, i: usize) -> (r: Option<String>)
    ensures
        owned(r) == if i < lines@.len() {
            Some(text::trim(lines@[i as int]@))
        } else {
            None
        },
{
    if i < lines.len() {
        Some(text::string_of(&text::trim_chars(lines[i].as_slice())))
    } else {
        None
    }
}

fn drop_empty(s: Option<String>) -> (r: Option<String>)
    ensures
        owned(r) == unless_empty(owned(s)),
{
    match s {
        Some(t) => if t.as_str().is_empty() {
            None
        } else {
            Some(t)
        },
        None => None,
    }
}

/// Reads what an interpreter said of itself: the device, the version of HIP
/// and that of torch, each on a line. An empty device or version of HIP is
/// none.
pub fn read_torch(listing: &str) -> (r: Torch)
    ensures
        owned(r.device_name) == unless_empty(line_at(listing@, 0)),
        owned(r.hip_version) == unless_empty(line_at(listing@, 1)),
        owned(r.torch_version) == line_at(listing@, 2),
{
    let v = text::chars_of(listing);
    let lines = text::lines_of(v.as_slice());
    assert(text::rows(lines@).len() == lines@.len());
    assert forall|i: int| 0 <= i < lines@.len() implies text::lines(listing@)[i]
        == #[trigger] lines@[i]@ by {
        assert(text::rows(lines@)[i] == lines@[i]@);
    }
    Torch {
        device_name: drop_empty(line_of(&lines, 0)),
        hip_version: drop_empty(line_of(&lines, 1)),
        torch_version: line_of(&lines, 2),
    }
}

/// The gfx target in what the detector said, where it is one. Left unknown
/// rather than guessed.
pub fn read_gfx(output: &str) -> (r: Option<String>)
    ensures
        r is Some == text::starts(text::trim(output@), "gfx"@),
        r matches Some(s) ==> s@ == text::trim(output@),
{
    let v = text::chars_of(output);
    let t = text::string_of(&text::trim_chars(v.as_slice()));
    if text::starts_with(t.as_str(), "gfx") {
        Some(t)
    } else {
        None
    }
}

/// A directory that may hold the libraries a HIP backend links against.
#[derive(Debug, Clone, Copy, PartialEq, Eq, Structural)]
pub struct SdkDir {
    /// Which directory it is: two of the same number are one.
    pub id: usize,
    pub has_library: bool,
}

/// Directory `i` is searched: it holds the library, and none before it that
/// does is the same.
pub open spec fn searched(dirs: Seq<SdkDir>, i: int) -> bool {
    &&& 0 <= i < dirs.len()
    &&& dirs[i].has_library
    &&& forall|j: int| 0 <= j < i && (#[trigger] dirs[j]).has_library ==> dirs[j].id != dirs[i].id
}

/// The numbers of the directories to search for the ROCm runtime libraries
/// (rocBLAS, hipBLAS, comgr) a llama.cpp HIP backend links against, in priority
/// order and without repetition.
///
/// A stock llama.cpp ROCm build ships its backend but not these, so one of
/// these directories has to be on the loader path or the backend fails to load
/// and the GPU silently disappears.
pub fn sdk_search_paths(dirs: &[SdkDir]) -> (r: Vec<usize>)
    ensures
        crate::expert::ascending(r@),
        forall|i: usize| #[trigger] r@.contains(i) <==> searched(dirs@, i as int),
{
    let mut r: Vec<usize> = Vec::new();
    let mut i: usize = 0;
    while i < dirs.len()
        invariant
            i <= dirs@.len(),
            crate::expert::ascending(r@),
            forall|k: int| 0 <= k < r@.len() ==> (#[trigger] r@[k]) < i,
            forall|k: usize| #[trigger]
                r@.contains(k) <==> k < i && searched(dirs@, k as int),
        decreases dirs@.len() - i,
    {
        let ghost before = r@;
        if dirs[i].has_library {
            let mut fresh: bool = true;
            let mut j: usize = 0;
            while j < i
                invariant
                    j <= i,
                    i < dirs@.len(),
                    fresh == forall|k: int|
                        0 <= k < j && (#[trigger] dirs@[k]).has_library ==> dirs@[k].id
                            != dirs@[i as int].id,
                decreases i - j,
            {
                if dirs[j].has_library && dirs[j].id == dirs[i].id {
                    fresh = false;
                    assert(dirs@[j as int].has_library);
                }
                j = j + 1;
            }
            if fresh {
                r.push(i);
            }
        }
        proof {
            assert forall|k: usize| #[trigger] r@.contains(k) <==> k < i + 1 && searched(
                dirs@,
                k as int,
            ) by {
                if before.contains(k) {
                    let n = choose|n: int| 0 <= n < before.len() && before[n] == k;
                    assert(r@[n] == k);
                }
                if r@.contains(k) {
                    let n = choose|n: int| 0 <= n < r@.len() && r@[n] == k;
                    if n < before.len() {
                        assert(before[n] == k);
                    }
                }
                if k == i && r@.len() > before.len() {
                    assert(r@[before.len() as int] == k);
                }
            }
        }
        i = i + 1;
    }
    r
}

} // verus!

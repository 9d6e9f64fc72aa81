//! What this machine has, as the compute runtime reports it.
//!
//! The runtime enumerates every device it can drive, across whichever backend
//! it was built with, and reports the memory it can see:
//!
//! ```text
//! Available devices:
//!   ROCm0: AMD Radeon RX 7600 XT (16368 MiB, 16224 MiB free)
//!   ROCm1: AMD Radeon(TM) Graphics (12472 MiB, 12189 MiB free)
//! ```
//!
//! Nothing here guesses. A line of another shape yields no device, because the
//! alternative - a plausible default - produces a placement plan for a machine
//! that does not exist.
use crate::scale;
use crate::text;
use vstd::prelude::*;

verus! {

/// Host memory kept back for the operating system and everything else.
pub const RAM_HELD_BACK: u64 = 4_294_967_296;

/// One device the compute runtime can drive.
#[derive(Debug)]
pub struct Device {
    /// Backend and ordinal as the runtime names it, e.g. `ROCm0`.
    pub id: String,
    pub name: String,
    pub total_mib: u64,
    pub free_mib: u64,
}

/// What a device is.
pub struct Seen {
    pub id: Seq<char>,
    pub name: Seq<char>,
    pub total_mib: u64,
    pub free_mib: u64,
}

impl View for Device {
    type V = Seen;

    open spec fn view(&self) -> Seen {
        Seen {
            id: self.id@,
            name: self.name@,
            total_mib: self.total_mib,
            free_mib: self.free_mib,
        }
    }
}

/// What a list of devices is.
pub open spec fn seen(s: Seq<Device>) -> Seq<Seen> {
    Seq::new(s.len(), |i: int| s[i]@)
}

/// A device of this name shares the host's memory.
pub open spec fn integrated(name: Seq<char>) -> bool {
    let n = text::lowered(name);
    ||| text::has(n, "(tm) graphics"@)
    ||| text::has(n, "integrated"@)
    ||| text::has(n, "igpu"@)
    ||| text::ends(n, " graphics"@)
}

impl Device {
    /// An integrated GPU reports a slice of system RAM as if it were VRAM, and
    /// treating that as a memory budget double-counts against the host. The
    /// name is the only signal the runtime gives us, so it is what we use.
    pub fn looks_integrated(&self) -> (r: bool)
        ensures
            r == integrated(self.name@),
    {
        let v = text::chars_of(self.name.as_str());
        let n = text::string_of(&text::lower_chars(v.as_slice()));
        text::contains(n.as_str(), "(tm) graphics") || text::contains(n.as_str(), "integrated")
            || text::contains(n.as_str(), "igpu") || text::ends_with(n.as_str(), " graphics")
    }
}

// ---------------------------------------------------------------- reading the list

/// The total and the free memory a line reports behind its last opening
/// bracket: a number and `MiB`, a comma, and a number and `MiB free`, to the
/// end of the line.
pub open spec fn sizes_in(tail: Seq<char>) -> Option<(u64, u64)> {
    match text::find(tail, " MiB, "@) {
        Some(k) => {
            let rest = tail.skip(k + 6);
            if text::ends(rest, " MiB free)"@) {
                match (text::natural(tail.take(k)), text::natural(rest.take(rest.len() - 10))) {
                    (Some(total), Some(free)) => Some((total, free)),
                    _ => None,
                }
            } else {
                None
            }
        },
        None => None,
    }
}

/// The device a line reports: an id of one word, a colon and a blank, a name,
/// and behind the last opening bracket its total and its free memory.
pub open spec fn device_on(line: Seq<char>) -> Option<Seen> {
    let l = text::trim(line);
    match text::find(l, ": "@) {
        Some(k) => {
            let id = text::trim(l.take(k));
            let rest = l.skip(k + 2);
            if id.len() == 0 || text::first_of(id, ' ') is Some {
                None
            } else {
                device_in(id, rest)
            }
        },
        None => None,
    }
}

pub open spec fn device_in(id: Seq<char>, rest: Seq<char>) -> Option<Seen> {
    match text::last_of(rest, '(') {
        Some(open) => {
            let name = text::trim(rest.take(open));
            match sizes_in(rest.skip(open + 1)) {
                Some((total_mib, free_mib)) => if name.len() == 0 || total_mib == 0 {
                    None
                } else {
                    Some(Seen { id, name, total_mib, free_mib })
                },
                None => None,
            }
        },
        None => None,
    }
}

/// The devices the lines report, in order.
pub open spec fn devices_on(lines: Seq<Seq<char>>) -> Seq<Seen>
    decreases lines.len(),
{
    if lines.len() == 0 {
        Seq::empty()
    } else {
        let before = devices_on(lines.drop_last());
        match device_on(lines.last()) {
            Some(d) => before.push(d),
            None => before,
        }
    }
}

fn read_sizes(tail: &[char]) -> (r: Option<(u64, u64)>)
    ensures
        r == sizes_in(tail@),
{
    let between = text::chars_of(" MiB, ");
    let behind = text::chars_of(" MiB free)");
    proof {
        reveal_strlit(" MiB, ");
        reveal_strlit(" MiB free)");
        text::law_find_is_first(tail@, " MiB, "@);
    }
    let k: usize = match text::find_chars(tail, between.as_slice()) {
        Some(k) => k,
        None => {
            return None;
        },
    };
    let end: usize = tail.len();
    let first = text::cut(tail, 0, k);
    let rest = text::cut(tail, k + 6, end);
    assert(first@ =~= tail@.take(k as int));
    assert(rest@ =~= tail@.skip(k + 6));
    if rest.len() < 10 || !text::is_at(rest.as_slice(), behind.as_slice(), rest.len() - 10) {
        return None;
    }
    let second = text::cut(rest.as_slice(), 0, rest.len() - 10);
    assert(second@ =~= rest@.take(rest@.len() - 10));
    match (text::parse_digits(first.as_slice()), text::parse_digits(second.as_slice())) {
        (Some(total), Some(free)) => Some((total, free)),
        _ => None,
    }
}

fn read_device(line: &[char]) -> (r: Option<Device>)
    ensures
        r is Some == device_on(line@) is Some,
        r matches Some(d) ==> device_on(line@) == Some(d@),
{
    let l = text::trim_chars(line);
    let mark = text::chars_of(": ");
    proof {
        reveal_strlit(": ");
    }
    let k: usize = match text::find_chars(l.as_slice(), mark.as_slice()) {
        Some(k) => k,
        None => {
            return None;
        },
    };
    let end: usize = l.len();
    let head = text::cut(l.as_slice(), 0, k);
    let rest = text::cut(l.as_slice(), k + 2, end);
    assert(head@ =~= l@.take(k as int));
    assert(rest@ =~= l@.skip(k + 2));
    let id = text::trim_chars(head.as_slice());
    if id.len() == 0 || text::find_char(id.as_slice(), ' ').is_some() {
        return None;
    }
    let open: usize = match text::rfind(rest.as_slice(), '(') {
        Some(n) => n,
        None => {
            return None;
        },
    };
    proof {
        text::lemma_last_of(rest@, '(');
    }
    let whole: usize = rest.len();
    let before = text::cut(rest.as_slice(), 0, open);
    let tail = text::cut(rest.as_slice(), open + 1, whole);
    assert(before@ =~= rest@.take(open as int));
    assert(tail@ =~= rest@.skip(open + 1));
    let name = text::trim_chars(before.as_slice());
    let (total_mib, free_mib) = match read_sizes(tail.as_slice()) {
        Some(sizes) => sizes,
        None => {
            return None;
        },
    };
    if name.len() == 0 || total_mib == 0 {
        return None;
    }
    Some(Device { id: text::string_of(&id), name: text::string_of(&name), total_mib, free_mib })
}

/// Pull devices out of `--list-devices` output.
///
/// Lines look like `  ROCm0: AMD Radeon RX 7600 XT (16368 MiB, 16224 MiB free)`.
/// Anything that does not match that shape is ignored rather than guessed at,
/// so a future runtime that changes the format degrades to "no devices found"
/// - which is checked and reported - instead of to a wrong number.
pub fn parse_devices(listing: &str) -> (r: Vec<Device>)
    ensures
        seen(r@) == devices_on(text::lines(listing@)),
{
    let v = text::chars_of(listing);
    let lines = text::lines_of(v.as_slice());
    let ghost all = text::rows(lines@);
    let mut r: Vec<Device> = Vec::new();
    let mut i: usize = 0;
    assert(all.take(0) =~= Seq::<Seq<char>>::empty());
    assert(seen(r@) =~= Seq::<Seen>::empty());
    while i < lines.len()
        invariant
            i <= lines@.len(),
            all == text::rows(lines@),
            seen(r@) == devices_on(all.take(i as int)),
        decreases lines@.len() - i,
    {
        assert(all.take(i + 1).drop_last() =~= all.take(i as int));
        if let Some(d) = read_device(lines[i].as_slice()) {
            assert(seen(r@.push(d)) =~= seen(r@).push(d@));
            r.push(d);
        }
        i = i + 1;
    }
    assert(all.take(i as int) =~= all);
    r
}

/// A device is reported with a name and with memory, under an id of one word.
pub proof fn law_devices_are_complete(line: Seq<char>)
    ensures
        device_on(line) matches Some(d) ==> d.id.len() > 0 && d.name.len() > 0 && d.total_mib > 0
            && forall|i: int| 0 <= i < d.id.len() ==> d.id[i] != ' ',
{
    if let Some(d) = device_on(line) {
        text::lemma_first_of_from(d.id, ' ', 0);
    }
}

/// A line of the shape the runtime writes is read as what it says.
pub proof fn law_a_device_is_read_as_it_is_written(
    id: Seq<char>,
    name: Seq<char>,
    total_mib: u64,
    free_mib: u64,
)
    requires
        id.len() > 0,
        forall|i: int| 0 <= i < id.len() ==> !text::is_white(#[trigger] id[i]),
        name.len() > 0,
        !text::is_white(name[0]),
        !text::is_white(name.last()),
        total_mib > 0,
    ensures
        device_on(
            id + ": "@ + name + " ("@ + text::decimal(total_mib as nat) + " MiB, "@
                + text::decimal(free_mib as nat) + " MiB free)"@,
        ) == Some(Seen { id, name, total_mib, free_mib }),
{
    reveal_strlit(": ");
    reveal_strlit(" (");
    reveal_strlit(" MiB, ");
    reveal_strlit(" MiB free)");
    let (t, f) = (text::decimal(total_mib as nat), text::decimal(free_mib as nat));
    let tail = t + " MiB, "@ + f + " MiB free)"@;
    let rest = name + " ("@ + tail;
    let line = id + ": "@ + rest;
    assert(line =~= id + ": "@ + name + " ("@ + t + " MiB, "@ + f + " MiB free)"@);
    lemma_id_is_read(id, rest);
    lemma_sizes_are_read(total_mib, free_mib);
    lemma_rest_is_read(name, tail);
}

proof fn lemma_id_is_read(id: Seq<char>, rest: Seq<char>)
    requires
        id.len() > 0,
        forall|i: int| 0 <= i < id.len() ==> !text::is_white(#[trigger] id[i]),
    ensures
        ({
            let line = id + ": "@ + rest;
            &&& text::find(line, ": "@) == Some(id.len() as int)
            &&& line.take(id.len() as int) == id
            &&& line.skip(id.len() as int + 2) == rest
            &&& text::trim(id) == id
            &&& text::first_of(id, ' ') is None
        }),
{
    reveal_strlit(": ");
    let line = id + ": "@ + rest;
    let n = id.len() as int;
    assert(line.subrange(n, n + 2) =~= ": "@);
    assert forall|j: int| 0 <= j < n implies !#[trigger] text::occurs_at(line, ": "@, j) by {
        if text::occurs_at(line, ": "@, j) {
            assert(line.subrange(j, j + 2)[1] == ' ');
            assert(line[j + 1] == ' ');
            if j + 1 < n {
                assert(id[j + 1] == ' ');
            }
        }
    }
    text::lemma_find_is(line, ": "@, n);
    assert(line.take(n) =~= id);
    assert(line.skip(n + 2) =~= rest);
    text::lemma_first_of_from(id, ' ', 0);
}

proof fn lemma_rest_is_read(name: Seq<char>, tail: Seq<char>)
    requires
        name.len() > 0,
        !text::is_white(name[0]),
        !text::is_white(name.last()),
        forall|i: int| 0 <= i < tail.len() ==> #[trigger] tail[i] != '(',
    ensures
        ({
            let rest = name + " ("@ + tail;
            &&& text::last_of(rest, '(') == Some(name.len() as int + 1)
            &&& text::trim(rest.take(name.len() as int + 1)) == name
            &&& rest.skip(name.len() as int + 2) == tail
        }),
{
    reveal_strlit(" (");
    let rest = name + " ("@ + tail;
    let n = name.len() as int;
    text::lemma_last_of(rest, '(');
    assert(rest[n + 1] == '(');
    assert forall|i: int| n + 2 <= i < rest.len() implies rest[i] != '(' by {
        assert(rest[i] == tail[i - n - 2]);
    }
    assert(rest.take(n + 1) =~= name.push(' '));
    assert(name.push(' ').drop_last() =~= name);
    assert(text::trim_end(name) == name);
    assert(text::trim_start(name.push(' ')) == name.push(' '));
    assert(rest.skip(n + 2) =~= tail);
}

proof fn lemma_sizes_are_read(total_mib: u64, free_mib: u64)
    ensures
        ({
            let tail = text::decimal(total_mib as nat) + " MiB, "@ + text::decimal(
                free_mib as nat,
            ) + " MiB free)"@;
            &&& sizes_in(tail) == Some((total_mib, free_mib))
            &&& forall|i: int| 0 <= i < tail.len() ==> #[trigger] tail[i] != '('
        }),
{
    reveal_strlit(" MiB, ");
    reveal_strlit(" MiB free)");
    let (t, f) = (text::decimal(total_mib as nat), text::decimal(free_mib as nat));
    let tail = t + " MiB, "@ + f + " MiB free)"@;
    let n = t.len() as int;
    text::lemma_decimal(total_mib as nat);
    text::lemma_decimal(free_mib as nat);
    text::law_decimal_reads_back(total_mib);
    text::law_decimal_reads_back(free_mib);
    assert(tail.subrange(n, n + 6) =~= " MiB, "@);
    assert forall|j: int| 0 <= j < n implies !#[trigger] text::occurs_at(tail, " MiB, "@, j) by {
        if text::occurs_at(tail, " MiB, "@, j) {
            assert(tail.subrange(j, j + 6)[0] == ' ');
            assert(text::is_digit(t[j]));
        }
    }
    text::lemma_find_is(tail, " MiB, "@, n);
    assert(tail.take(n) =~= t);
    let rest = tail.skip(n + 6);
    assert(rest =~= f + " MiB free)"@);
    assert(rest.subrange(rest.len() - 10, rest.len() as int) =~= " MiB free)"@);
    assert(rest.take(rest.len() - 10) =~= f);
}

// ---------------------------------------------------------------- the machine

/// The devices and the host memory.
#[derive(Debug)]
pub struct Machine {
    pub devices: Vec<Device>,
    pub ram_total_bytes: u64,
    pub ram_avail_bytes: u64,
    pub cores: usize,
}

/// Device `i` is the last of the largest among those that count.
pub open spec fn largest(s: Seq<Device>, i: int, discrete_only: bool) -> bool {
    &&& 0 <= i < s.len()
    &&& counts(s[i], discrete_only)
    &&& forall|j: int|
        0 <= j < s.len() && counts(#[trigger] s[j], discrete_only) ==> s[j].total_mib
            <= s[i].total_mib && (j > i ==> s[j].total_mib < s[i].total_mib)
}

pub open spec fn counts(d: Device, discrete_only: bool) -> bool {
    discrete_only ==> !integrated(d.name@)
}

pub open spec fn any_discrete(s: Seq<Device>) -> bool {
    exists|i: int| 0 <= i < s.len() && !integrated((#[trigger] s[i]).name@)
}

impl Machine {
    /// Where the largest device stands, the last of equal ones.
    fn pick(&self, discrete_only: bool) -> (r: Option<usize>)
        ensures
            match r {
                Some(i) => largest(self.devices@, i as int, discrete_only),
                None => forall|j: int|
                    0 <= j < self.devices@.len() ==> !counts(
                        #[trigger] self.devices@[j],
                        discrete_only,
                    ),
            },
    {
        let mut best: Option<usize> = None;
        let mut i: usize = 0;
        while i < self.devices.len()
            invariant
                i <= self.devices@.len(),
                match best {
                    Some(b) => b < i && largest(self.devices@.take(i as int), b as int, discrete_only),
                    None => forall|j: int|
                        0 <= j < i ==> !counts(#[trigger] self.devices@[j], discrete_only),
                },
            decreases self.devices@.len() - i,
        {
            let ghost before = self.devices@.take(i as int);
            let ghost after = self.devices@.take(i + 1);
            assert forall|j: int| 0 <= j < i implies #[trigger] after[j] == before[j] by {}
            if !discrete_only || !self.devices[i].looks_integrated() {
                best = match best {
                    Some(b) => if self.devices[b].total_mib > self.devices[i].total_mib {
                        Some(b)
                    } else {
                        Some(i)
                    },
                    None => Some(i),
                };
            }
            i = i + 1;
        }
        assert(self.devices@.take(i as int) =~= self.devices@);
        best
    }

    /// The device a model should be planned against: the largest discrete one,
    /// falling back to the largest of any kind if every device looks
    /// integrated - a machine with only an APU can still run, just slowly. Of
    /// equally large ones it is the last.
    pub fn primary(&self) -> (r: Option<&Device>)
        ensures
            r is Some == (self.devices@.len() > 0),
            r matches Some(d) ==> exists|i: int| #[trigger]
                largest(self.devices@, i, any_discrete(self.devices@)) && *d == self.devices@[i],
    {
        if let Some(i) = self.pick(true) {
            assert(!integrated(self.devices@[i as int].name@));
            assert(any_discrete(self.devices@));
            assert(largest(self.devices@, i as int, any_discrete(self.devices@)));
            return Some(&self.devices[i]);
        }
        assert(!any_discrete(self.devices@)) by {
            if any_discrete(self.devices@) {
                let k = choose|k: int|
                    0 <= k < self.devices@.len() && !integrated((#[trigger] self.devices@[k]).name@);
                assert(counts(self.devices@[k], true));
            }
        }
        if let Some(i) = self.pick(false) {
            return Some(&self.devices[i]);
        }
        proof {
            if self.devices@.len() > 0 {
                assert(counts(self.devices@[0], false));
            }
        }
        None
    }

    /// Host memory that may hold expert weights, in bytes, leaving room for
    /// the operating system and whatever else the machine is doing. Reported
    /// free memory is used rather than total: a machine with 32 GB installed
    /// and 20 GB in use cannot lend 20 GB to the model.
    ///
    /// Both the memory and the rest are held at single precision.
    pub fn ram_budget_bytes(&self) -> (r: u128)
        ensures
            r == ram_budget(self.ram_avail_bytes as nat),
            r <= 0x4_0000_0000_0000_0000,
    {
        let avail: u128 = scale::round_to_nearest(self.ram_avail_bytes as u128);
        if avail > RAM_HELD_BACK as u128 {
            scale::round_to_nearest(avail - RAM_HELD_BACK as u128)
        } else {
            0
        }
    }
}

/// What of the free memory may be used.
pub open spec fn ram_budget(avail: nat) -> nat {
    if scale::nearest(avail) > RAM_HELD_BACK {
        scale::nearest((scale::nearest(avail) - RAM_HELD_BACK) as nat)
    } else {
        0
    }
}

/// The first of the lines that opens with `key`.
pub open spec fn line_for(lines: Seq<Seq<char>>, key: Seq<char>) -> Option<Seq<char>>
    decreases lines.len(),
{
    if lines.len() == 0 {
        None
    } else if text::starts(lines[0], key) {
        Some(lines[0])
    } else {
        line_for(lines.drop_first(), key)
    }
}

/// The kibibytes `/proc/meminfo` gives for a key, zero where it gives none.
pub open spec fn meminfo_kib(listing: Seq<char>, key: Seq<char>) -> u64 {
    match line_for(text::lines(listing), key) {
        Some(l) => match text::second_word(l) {
            Some(w) => match text::parsed(w) {
                Some(n) => n,
                None => 0,
            },
            None => 0,
        },
        None => 0,
    }
}

/// The memory `/proc/meminfo` gives for a key, in bytes.
pub fn meminfo_bytes(listing: &str, key: &str) -> (r: u64)
    ensures
        r == if meminfo_kib(listing@, key@) * 1024 > u64::MAX {
            u64::MAX as int
        } else {
            meminfo_kib(listing@, key@) * 1024
        },
{
    let v = text::chars_of(listing);
    let k = text::chars_of(key);
    let lines = text::lines_of(v.as_slice());
    let ghost all = text::rows(lines@);
    let mut i: usize = 0;
    assert(all.skip(0) =~= all);
    while i < lines.len()
        invariant
            i <= lines@.len(),
            k@ == key@,
            all == text::rows(lines@),
            all == text::lines(listing@),
            line_for(all, key@) == line_for(all.skip(i as int), key@),
        decreases lines@.len() - i,
    {
        if text::is_at(lines[i].as_slice(), k.as_slice(), 0) {
            let n: u64 = match text::second_word_of(lines[i].as_slice()) {
                Some(w) => match text::parse_number(w.as_slice()) {
                    Some(n) => n,
                    None => 0,
                },
                None => 0,
            };
            return match n.checked_mul(1024) {
                Some(b) => b,
                None => u64::MAX,
            };
        }
        assert(all.skip(i as int).drop_first() =~= all.skip(i + 1));
        i = i + 1;
    }
    0
}

/// Two devices that are both picked are one.
pub proof fn law_the_pick_is_unique(s: Seq<Device>, i: int, j: int, discrete_only: bool)
    requires
        largest(s, i, discrete_only),
        largest(s, j, discrete_only),
    ensures
        i == j,
{
}

// ---------------------------------------------------------------- what is promised

/// Host memory may be used but for the four gibibytes that are kept back, to one
/// part in four million; none of it where there is no more.
pub proof fn law_four_gibibytes_are_kept_back(avail: nat)
    ensures
        avail <= 4_294_967_296 ==> ram_budget(avail) == 0,
        4_000_000 * ram_budget(avail) <= 4_000_001 * avail,
        avail > 4_294_967_296 ==> {
            &&& 4_000_000 * (ram_budget(avail) + 4_294_967_296) <= 4_000_001 * avail
            &&& 3_999_999 * avail <= 4_000_000 * (ram_budget(avail) + 4_294_967_296)
        },
{
    scale::law_nearest_keeps_its_size(avail);
    let a = scale::nearest(avail);
    scale::lemma_power_of_two_keeps(1, 32);
    assert(scale::two_to(32) == 4_294_967_296) by {
        reveal_with_fuel(scale::two_to, 33);
    }
    if avail <= 4_294_967_296 {
        scale::law_nearest_keeps_order(avail, 4_294_967_296);
    } else {
        scale::law_nearest_keeps_order(4_294_967_296, avail);
    }
    if a > 4_294_967_296 {
        scale::law_nearest_keeps_its_size((a - 4_294_967_296) as nat);
    }
}

/// A device whose name says so shares the memory of the host, in capitals or not.
pub proof fn law_an_integrated_device_is_told_by_its_name(a: Seq<char>, b: Seq<char>)
    ensures
        text::lowered(a) == text::lowered(b) ==> integrated(a) == integrated(b),
        text::ends(text::lowered(a), " graphics"@) ==> integrated(a),
        text::has(text::lowered(a), "integrated"@) ==> integrated(a),
        text::has(text::lowered(a), "igpu"@) ==> integrated(a),
        text::has(text::lowered(a), "(tm) graphics"@) ==> integrated(a),
        integrated(a) ==> text::has(text::lowered(a), "graphics"@) || text::has(
            text::lowered(a),
            "integrated"@,
        ) || text::has(text::lowered(a), "igpu"@),
{
    let n = text::lowered(a);
    reveal_strlit("(tm) graphics");
    reveal_strlit(" graphics");
    reveal_strlit("graphics");
    let g = "graphics"@;
    if text::has(n, "(tm) graphics"@) {
        let i = choose|i: int| #[trigger] text::occurs_at(n, "(tm) graphics"@, i);
        assert(n.subrange(i + 5, i + 13) =~= n.subrange(i, i + 13).subrange(5, 13));
        assert("(tm) graphics"@.subrange(5, 13) =~= g);
        assert(text::occurs_at(n, g, i + 5));
    }
    if text::ends(n, " graphics"@) {
        let i = n.len() - 9;
        assert(n.subrange(i + 1, i + 9) =~= n.subrange(i, i + 9).subrange(1, 9));
        assert(" graphics"@.subrange(1, 9) =~= g);
        assert(text::occurs_at(n, g, i + 1));
    }
}

/// The device that is planned against is as large as any that counts: a discrete
/// one where there is one.
pub proof fn law_the_pick_is_the_largest_that_counts(s: Seq<Device>, i: int, j: int)
    requires
        largest(s, i, any_discrete(s)),
        0 <= j < s.len(),
    ensures
        !integrated(s[j].name@) ==> !integrated(s[i].name@) && s[j].total_mib <= s[i].total_mib,
        integrated(s[i].name@) ==> integrated(s[j].name@) && s[j].total_mib <= s[i].total_mib,
{
    assert(counts(s[j], any_discrete(s)) || integrated(s[j].name@));
    assert(counts(s[i], any_discrete(s)));
    if !integrated(s[j].name@) {
        assert(any_discrete(s));
        assert(counts(s[j], true));
    }
}

/// Each line is read by itself: devices come in the order of their lines, and a
/// line of another shape changes nothing.
pub proof fn law_lines_are_read_one_by_one(lines: Seq<Seq<char>>, line: Seq<char>)
    ensures
        devices_on(Seq::empty()) == Seq::<Seen>::empty(),
        device_on(line) is None ==> devices_on(lines.push(line)) == devices_on(lines),
        device_on(line) matches Some(d) ==> devices_on(lines.push(line)) == devices_on(lines).push(
            d,
        ),
{
    assert(lines.push(line).drop_last() =~= lines);
}

} // verus!

//! Text as sequences of characters: searching, splitting, trimming, and the
//! decimal and hexadecimal forms numbers are written in.
use vstd::prelude::*;

verus! {

/// `String::push`: appends one character and changes nothing else.
pub assume_specification[ String::push ](s: &mut String, c: char)
    ensures
        final(s)@ == old(s)@.push(c),
;

/// The characters of a string, in order.
pub fn chars_of(s: &str) -> (v: Vec<char>)
    ensures
        v@ == s@,
{
    let mut v: Vec<char> = Vec::new();
    for c in it: s.chars()
        invariant
            v@ == it.seq().take(it.index() as int),
            it.seq() == s@,
    {
        v.push(c);
    }
    v
}

/// The string holding exactly these characters.
pub fn string_of(v: &Vec<char>) -> (s: String)
    ensures
        s@ == v@,
{
    let mut s = String::new();
    let mut i: usize = 0;
    while i < v.len()
        invariant
            i <= v.len(),
            s@ == v@.take(i as int),
        decreases v.len() - i,
    {
        s.push(v[i]);
        assert(v@.take(i as int).push(v@[i as int]) =~= v@.take(i + 1));
        i = i + 1;
    }
    assert(v@.take(i as int) =~= v@);
    s
}

/// A copy of the characters from `from` up to `to`.
pub fn cut(v: &[char], from: usize, to: usize) -> (r: Vec<char>)
    requires
        from <= to <= v@.len(),
    ensures
        r@ == v@.subrange(from as int, to as int),
{
    let mut r: Vec<char> = Vec::new();
    let mut i: usize = from;
    while i < to
        invariant
            from <= i <= to <= v@.len(),
            r@ == v@.subrange(from as int, i as int),
        decreases to - i,
    {
        r.push(v[i]);
        assert(v@.subrange(from as int, i as int).push(v@[i as int]) =~= v@.subrange(
            from as int,
            i + 1,
        ));
        i = i + 1;
    }
    r
}

/// Whether two strings hold the same characters.
pub fn same(a: &str, b: &str) -> (r: bool)
    ensures
        r == (a@ == b@),
{
    a.to_owned() == b.to_owned()
}

// ---------------------------------------------------------------- searching

/// `needle` stands in `hay` at position `i`.
pub open spec fn occurs_at(hay: Seq<char>, needle: Seq<char>, i: int) -> bool {
    &&& 0 <= i
    &&& i + needle.len() <= hay.len()
    &&& hay.subrange(i, i + needle.len()) == needle
}

/// The first position at or after `i` where `needle` stands in `hay`.
pub open spec fn find_from(hay: Seq<char>, needle: Seq<char>, i: int) -> Option<int>
    decreases hay.len() - i + 1,
{
    if i < 0 || i + needle.len() > hay.len() {
        None
    } else if occurs_at(hay, needle, i) {
        Some(i)
    } else {
        find_from(hay, needle, i + 1)
    }
}

/// The first position where `needle` stands in `hay`.
pub open spec fn find(hay: Seq<char>, needle: Seq<char>) -> Option<int> {
    find_from(hay, needle, 0)
}

/// `needle` stands somewhere in `hay`.
pub open spec fn has(hay: Seq<char>, needle: Seq<char>) -> bool {
    exists|i: int| #[trigger] occurs_at(hay, needle, i)
}

pub open spec fn starts(s: Seq<char>, prefix: Seq<char>) -> bool {
    occurs_at(s, prefix, 0)
}

pub open spec fn ends(s: Seq<char>, suffix: Seq<char>) -> bool {
    occurs_at(s, suffix, s.len() - suffix.len())
}

pub proof fn lemma_find_from(hay: Seq<char>, needle: Seq<char>, i: int)
    requires
        0 <= i,
    ensures
        match find_from(hay, needle, i) {
            Some(k) => i <= k && occurs_at(hay, needle, k) && forall|j: int|
                i <= j < k ==> !#[trigger] occurs_at(hay, needle, j),
            None => forall|j: int| i <= j ==> !#[trigger] occurs_at(hay, needle, j),
        },
    decreases hay.len() - i + 1,
{
    if i + needle.len() <= hay.len() && !occurs_at(hay, needle, i) {
        lemma_find_from(hay, needle, i + 1);
    }
}

/// A search finds a text exactly where the text is present, and finds its
/// first occurrence.
pub proof fn law_find_is_first(hay: Seq<char>, needle: Seq<char>)
    ensures
        find(hay, needle) is Some <==> has(hay, needle),
        find(hay, needle) matches Some(k) ==> occurs_at(hay, needle, k) && forall|j: int|
            0 <= j < k ==> !#[trigger] occurs_at(hay, needle, j),
{
    lemma_find_from(hay, needle, 0);
}

/// The first occurrence is where a search finds the text.
pub proof fn lemma_find_is(hay: Seq<char>, needle: Seq<char>, k: int)
    requires
        occurs_at(hay, needle, k),
        forall|j: int| 0 <= j < k ==> !#[trigger] occurs_at(hay, needle, j),
    ensures
        find(hay, needle) == Some(k),
{
    law_find_is_first(hay, needle);
    let f = find(hay, needle);
    if let Some(i) = f {
        if i < k {
            assert(!occurs_at(hay, needle, i));
        }
        if k < i {
            assert(!occurs_at(hay, needle, k));
        }
    }
}

/// Whether `needle` stands in `hay` at `i`.
pub fn is_at(hay: &[char], needle: &[char], i: usize) -> (r: bool)
    ensures
        r == occurs_at(hay@, needle@, i as int),
{
    if needle.len() > hay.len() || i > hay.len() - needle.len() {
        return false;
    }
    let end: usize = hay.len();
    let mut j: usize = 0;
    while j < needle.len()
        invariant
            end == hay@.len(),
            j <= needle@.len(),
            i + needle@.len() <= hay@.len(),
            forall|k: int| 0 <= k < j ==> hay@[i + k] == needle@[k],
        decreases needle@.len() - j,
    {
        if hay[i + j] != needle[j] {
            proof {
                let sub = hay@.subrange(i as int, i + needle@.len());
                assert(sub[j as int] != needle@[j as int]);
            }
            return false;
        }
        j = j + 1;
    }
    assert(hay@.subrange(i as int, i + needle@.len()) =~= needle@);
    true
}

/// The first place `needle` stands in `hay`.
pub fn find_chars(hay: &[char], needle: &[char]) -> (r: Option<usize>)
    ensures
        r matches Some(k) ==> find(hay@, needle@) == Some(k as int) && k + needle@.len()
            <= hay@.len(),
        r is None ==> find(hay@, needle@) is None,
{
    if needle.len() > hay.len() {
        return None;
    }
    let last: usize = hay.len() - needle.len();
    let mut i: usize = 0;
    loop
        invariant
            last == hay@.len() - needle@.len(),
            i <= last,
            find(hay@, needle@) == find_from(hay@, needle@, i as int),
        decreases last - i,
    {
        if is_at(hay, needle, i) {
            return Some(i);
        }
        if i == last {
            assert(find_from(hay@, needle@, i + 1) is None);
            return None;
        }
        i = i + 1;
    }
}

/// Whether a string holds another.
pub fn contains(hay: &str, needle: &str) -> (r: bool)
    ensures
        r == has(hay@, needle@),
{
    proof {
        law_find_is_first(hay@, needle@);
    }
    let h = chars_of(hay);
    let n = chars_of(needle);
    find_chars(h.as_slice(), n.as_slice()).is_some()
}

/// Whether a string opens with another.
pub fn starts_with(s: &str, prefix: &str) -> (r: bool)
    ensures
        r == starts(s@, prefix@),
{
    let v = chars_of(s);
    let p = chars_of(prefix);
    is_at(v.as_slice(), p.as_slice(), 0)
}

/// Whether a string closes with another.
pub fn ends_with(s: &str, suffix: &str) -> (r: bool)
    ensures
        r == ends(s@, suffix@),
{
    let v = chars_of(s);
    let p = chars_of(suffix);
    if p.len() > v.len() {
        return false;
    }
    is_at(v.as_slice(), p.as_slice(), v.len() - p.len())
}

/// The last position of a character.
pub open spec fn last_of(s: Seq<char>, c: char) -> Option<int>
    decreases s.len(),
{
    if s.len() == 0 {
        None
    } else if s.last() == c {
        Some(s.len() - 1)
    } else {
        last_of(s.drop_last(), c)
    }
}

/// The first position of a character.
pub open spec fn first_of(s: Seq<char>, c: char) -> Option<int> {
    first_of_from(s, c, 0)
}

pub open spec fn first_of_from(s: Seq<char>, c: char, i: int) -> Option<int>
    decreases s.len() - i,
{
    if i < 0 || i >= s.len() {
        None
    } else if s[i] == c {
        Some(i)
    } else {
        first_of_from(s, c, i + 1)
    }
}

pub proof fn lemma_last_of(s: Seq<char>, c: char)
    ensures
        match last_of(s, c) {
            Some(k) => 0 <= k < s.len() && s[k] == c && forall|j: int| k < j < s.len() ==> s[j] != c,
            None => forall|j: int| 0 <= j < s.len() ==> s[j] != c,
        },
    decreases s.len(),
{
    if s.len() > 0 && s.last() != c {
        lemma_last_of(s.drop_last(), c);
        assert forall|j: int| 0 <= j < s.len() - 1 implies s[j] == s.drop_last()[j] by {}
    }
}

pub proof fn lemma_first_of_from(s: Seq<char>, c: char, i: int)
    requires
        0 <= i,
    ensures
        match first_of_from(s, c, i) {
            Some(k) => i <= k < s.len() && s[k] == c && forall|j: int| i <= j < k ==> s[j] != c,
            None => forall|j: int| i <= j < s.len() ==> s[j] != c,
        },
    decreases s.len() - i,
{
    if i < s.len() && s[i] != c {
        lemma_first_of_from(s, c, i + 1);
    }
}

/// Where a character stands last.
pub fn rfind(v: &[char], c: char) -> (r: Option<usize>)
    ensures
        r matches Some(k) ==> last_of(v@, c) == Some(k as int) && k < v@.len(),
        r is None ==> last_of(v@, c) is None,
{
    let mut n: usize = v.len();
    assert(v@.take(n as int) =~= v@);
    while n > 0
        invariant
            n <= v@.len(),
            last_of(v@, c) == last_of(v@.take(n as int), c),
        decreases n,
    {
        if v[n - 1] == c {
            return Some(n - 1);
        }
        assert(v@.take(n as int).drop_last() =~= v@.take(n - 1));
        n = n - 1;
    }
    None
}

/// Where a character stands first.
pub fn find_char(v: &[char], c: char) -> (r: Option<usize>)
    ensures
        r matches Some(k) ==> first_of(v@, c) == Some(k as int) && k < v@.len(),
        r is None ==> first_of(v@, c) is None,
{
    let mut i: usize = 0;
    while i < v.len()
        invariant
            i <= v@.len(),
            first_of(v@, c) == first_of_from(v@, c, i as int),
        decreases v@.len() - i,
    {
        if v[i] == c {
            return Some(i);
        }
        i = i + 1;
    }
    None
}

// ---------------------------------------------------------------- lists

/// The contents of a list of character runs.
pub open spec fn rows(v: Seq<Vec<char>>) -> Seq<Seq<char>> {
    Seq::new(v.len(), |i: int| v[i]@)
}

/// The contents of a list of strings.
pub open spec fn texts(v: Seq<String>) -> Seq<Seq<char>> {
    Seq::new(v.len(), |i: int| v[i]@)
}

pub proof fn lemma_texts_push(v: Seq<String>, s: String)
    ensures
        texts(v.push(s)) == texts(v).push(s@),
{
    assert(texts(v.push(s)) =~= texts(v).push(s@));
}

pub proof fn lemma_rows_push(v: Seq<Vec<char>>, s: Vec<char>)
    ensures
        rows(v.push(s)) == rows(v).push(s@),
{
    assert(rows(v.push(s)) =~= rows(v).push(s@));
}

/// The parts one after another, `sep` between each two.
pub open spec fn joined(parts: Seq<Seq<char>>, sep: Seq<char>) -> Seq<char>
    decreases parts.len(),
{
    if parts.len() == 0 {
        Seq::empty()
    } else if parts.len() == 1 {
        parts[0]
    } else {
        joined(parts.drop_last(), sep) + sep + parts.last()
    }
}

/// Joins strings with a separator.
pub fn join(parts: &Vec<String>, sep: &str) -> (r: String)
    ensures
        r@ == joined(texts(parts@), sep@),
{
    let mut out = String::new();
    let ghost all = texts(parts@);
    let mut i: usize = 0;
    assert(all.take(0) =~= Seq::<Seq<char>>::empty());
    while i < parts.len()
        invariant
            i <= parts@.len(),
            all == texts(parts@),
            out@ == joined(all.take(i as int), sep@),
        decreases parts@.len() - i,
    {
        if i > 0 {
            out.append(sep);
        }
        out.append(parts[i].as_str());
        proof {
            assert(all.take(i + 1).drop_last() =~= all.take(i as int));
            if i == 0 {
                assert(out@ =~= all[0]);
            }
        }
        i = i + 1;
    }
    assert(all.take(i as int) =~= all);
    out
}

// ---------------------------------------------------------------- whitespace

/// The characters Unicode gives the White_Space property.
pub open spec fn is_white(c: char) -> bool {
    let n = c as u32;
    ||| 0x09 <= n <= 0x0d
    ||| n == 0x20
    ||| n == 0x85
    ||| n == 0xa0
    ||| n == 0x1680
    ||| 0x2000 <= n <= 0x200a
    ||| n == 0x2028
    ||| n == 0x2029
    ||| n == 0x202f
    ||| n == 0x205f
    ||| n == 0x3000
}

/// Whether a character is white space.
pub fn white(c: char) -> (r: bool)
    ensures
        r == is_white(c),
{
    let n: u32 = c as u32;
    (0x09 <= n && n <= 0x0d) || n == 0x20 || n == 0x85 || n == 0xa0 || n == 0x1680 || (0x2000 <= n
        && n <= 0x200a) || n == 0x2028 || n == 0x2029 || n == 0x202f || n == 0x205f || n == 0x3000
}

/// `s` without the white space it opens with.
pub open spec fn trim_start(s: Seq<char>) -> Seq<char>
    decreases s.len(),
{
    if s.len() > 0 && is_white(s[0]) {
        trim_start(s.drop_first())
    } else {
        s
    }
}

/// `s` without the white space it closes with.
pub open spec fn trim_end(s: Seq<char>) -> Seq<char>
    decreases s.len(),
{
    if s.len() > 0 && is_white(s.last()) {
        trim_end(s.drop_last())
    } else {
        s
    }
}

/// `s` without the white space around it.
pub open spec fn trim(s: Seq<char>) -> Seq<char> {
    trim_end(trim_start(s))
}

/// Drops leading white space.
pub fn trim_start_chars(v: &[char]) -> (r: Vec<char>)
    ensures
        r@ == trim_start(v@),
{
    let mut i: usize = 0;
    assert(v@.skip(0) =~= v@);
    while i < v.len() && white(v[i])
        invariant
            i <= v@.len(),
            trim_start(v@) == trim_start(v@.skip(i as int)),
        decreases v@.len() - i,
    {
        assert(v@.skip(i as int).drop_first() =~= v@.skip(i + 1));
        i = i + 1;
    }
    let end: usize = v.len();
    assert(v@.skip(i as int) =~= v@.subrange(i as int, end as int));
    cut(v, i, end)
}

/// Drops trailing white space.
pub fn trim_end_chars(v: &[char]) -> (r: Vec<char>)
    ensures
        r@ == trim_end(v@),
{
    let mut n: usize = v.len();
    assert(v@.take(n as int) =~= v@);
    while n > 0 && white(v[n - 1])
        invariant
            n <= v@.len(),
            trim_end(v@) == trim_end(v@.take(n as int)),
        decreases n,
    {
        assert(v@.take(n as int).drop_last() =~= v@.take(n - 1));
        n = n - 1;
    }
    assert(v@.take(n as int) =~= v@.subrange(0, n as int));
    cut(v, 0, n)
}

/// Drops the white space on both sides.
pub fn trim_chars(v: &[char]) -> (r: Vec<char>)
    ensures
        r@ == trim(v@),
{
    let s = trim_start_chars(v);
    trim_end_chars(s.as_slice())
}

/// The part of `s` before its first white space.
pub open spec fn until_white(s: Seq<char>) -> Seq<char>
    decreases s.len(),
{
    if s.len() == 0 || is_white(s[0]) {
        Seq::empty()
    } else {
        seq![s[0]] + until_white(s.drop_first())
    }
}

/// The first word of `s`, where it has one.
pub open spec fn first_word(s: Seq<char>) -> Option<Seq<char>> {
    let w = until_white(trim_start(s));
    if w.len() == 0 {
        None
    } else {
        Some(w)
    }
}

fn until_white_chars(v: &[char]) -> (r: Vec<char>)
    ensures
        r@ == until_white(v@),
{
    let mut r: Vec<char> = Vec::new();
    let mut i: usize = 0;
    assert(v@.skip(0) =~= v@);
    assert(r@ + until_white(v@) =~= until_white(v@));
    while i < v.len() && !white(v[i])
        invariant
            i <= v@.len(),
            until_white(v@) == r@ + until_white(v@.skip(i as int)),
        decreases v@.len() - i,
    {
        let ghost before = r@;
        r.push(v[i]);
        proof {
            let rest = v@.skip(i as int);
            assert(rest.drop_first() =~= v@.skip(i + 1));
            assert(before + (seq![rest[0]] + until_white(v@.skip(i + 1))) =~= r@ + until_white(
                v@.skip(i + 1),
            ));
        }
        i = i + 1;
    }
    assert(r@ + until_white(v@.skip(i as int)) =~= r@);
    r
}

/// The first word, where there is one.
pub fn first_word_of(v: &[char]) -> (r: Option<Vec<char>>)
    ensures
        r is Some == first_word(v@) is Some,
        r matches Some(w) ==> first_word(v@) == Some(w@),
{
    let t = trim_start_chars(v);
    let w = until_white_chars(t.as_slice());
    if w.len() == 0 {
        None
    } else {
        Some(w)
    }
}

/// The second word of `s`, where it has one.
pub open spec fn second_word(s: Seq<char>) -> Option<Seq<char>> {
    let t = trim_start(s);
    first_word(t.skip(until_white(t).len() as int))
}

proof fn lemma_until_white_short(s: Seq<char>)
    ensures
        until_white(s).len() <= s.len(),
    decreases s.len(),
{
    if s.len() > 0 {
        lemma_until_white_short(s.drop_first());
    }
}

/// The second word, where there is one.
pub fn second_word_of(v: &[char]) -> (r: Option<Vec<char>>)
    ensures
        r is Some == second_word(v@) is Some,
        r matches Some(w) ==> second_word(v@) == Some(w@),
{
    let t = trim_start_chars(v);
    let w = until_white_chars(t.as_slice());
    proof {
        lemma_until_white_short(t@);
    }
    let end: usize = t.len();
    let rest = cut(t.as_slice(), w.len(), end);
    assert(rest@ =~= t@.skip(w@.len() as int));
    first_word_of(rest.as_slice())
}

// ---------------------------------------------------------------- splitting

/// The parts of `s` between the occurrences of `c`.
pub open spec fn split(s: Seq<char>, c: char) -> Seq<Seq<char>>
    decreases s.len(),
{
    if s.len() == 0 {
        seq![s]
    } else {
        let before = split(s.drop_last(), c);
        if s.last() == c {
            before.push(Seq::empty())
        } else {
            before.drop_last().push(before.last().push(s.last()))
        }
    }
}

proof fn lemma_split_nonempty(s: Seq<char>, c: char)
    ensures
        split(s, c).len() > 0,
    decreases s.len(),
{
    if s.len() > 0 {
        lemma_split_nonempty(s.drop_last(), c);
    }
}

/// Splits at every occurrence of a character.
pub fn split_chars(v: &[char], c: char) -> (r: Vec<Vec<char>>)
    ensures
        rows(r@) == split(v@, c),
{
    let mut done: Vec<Vec<char>> = Vec::new();
    let mut part: Vec<char> = Vec::new();
    let mut i: usize = 0;
    assert(v@.take(0) =~= Seq::<char>::empty());
    assert(rows(done@).push(part@) =~= seq![Seq::<char>::empty()]);
    while i < v.len()
        invariant
            i <= v@.len(),
            rows(done@).push(part@) == split(v@.take(i as int), c),
        decreases v@.len() - i,
    {
        assert(v@.take(i + 1).drop_last() =~= v@.take(i as int));
        let ghost before = done@;
        let ghost last = part@;
        assert(rows(before).push(last).drop_last() =~= rows(before));
        if v[i] == c {
            proof {
                lemma_rows_push(before, part);
            }
            done.push(part);
            part = Vec::new();
            assert(part@ =~= Seq::<char>::empty());
        } else {
            part.push(v[i]);
        }
        i = i + 1;
    }
    assert(v@.take(i as int) =~= v@);
    proof {
        lemma_rows_push(done@, part);
    }
    done.push(part);
    done
}

/// A line without the carriage return it closes with.
pub open spec fn strip_cr(s: Seq<char>) -> Seq<char> {
    if s.len() > 0 && s.last() == '\r' {
        s.drop_last()
    } else {
        s
    }
}

/// The lines of `s`: each ends at a line feed, or at a carriage return and a
/// line feed; a last line may end with the text.
pub open spec fn lines(s: Seq<char>) -> Seq<Seq<char>>
    decreases s.len(),
{
    if s.len() == 0 {
        Seq::empty()
    } else {
        match first_of(s, '\n') {
            Some(i) if 0 <= i < s.len() => seq![strip_cr(s.take(i))] + lines(s.skip(i + 1)),
            _ => seq![s],
        }
    }
}

/// Splits a text into lines.
pub fn lines_of(v: &[char]) -> (r: Vec<Vec<char>>)
    ensures
        rows(r@) == lines(v@),
{
    let mut r: Vec<Vec<char>> = Vec::new();
    let mut i: usize = 0;
    let end: usize = v.len();
    assert(v@.skip(0) =~= v@);
    assert(rows(r@) + lines(v@) =~= lines(v@));
    while i < end
        invariant
            i <= end,
            end == v@.len(),
            lines(v@) == rows(r@) + lines(v@.skip(i as int)),
        decreases end - i,
    {
        let ghost before = r@;
        let ghost rest = v@.skip(i as int);
        let tail = cut(v, i, end);
        assert(tail@ =~= rest);
        match find_char(tail.as_slice(), '\n') {
            Some(k) => {
                let stop: usize = if k > 0 && tail[k - 1] == '\r' {
                    k - 1
                } else {
                    k
                };
                let line = cut(tail.as_slice(), 0, stop);
                assert(line@ =~= strip_cr(rest.take(k as int)));
                proof {
                    lemma_rows_push(before, line);
                    assert(rest.skip(k + 1) =~= v@.skip(i + k + 1));
                    assert(rows(before) + (seq![line@] + lines(v@.skip(i + k + 1))) =~= rows(
                        before.push(line),
                    ) + lines(v@.skip(i + k + 1)));
                }
                r.push(line);
                i = i + k + 1;
            },
            None => {
                proof {
                    lemma_rows_push(before, tail);
                    assert(v@.skip(end as int) =~= Seq::<char>::empty());
                    assert(rows(before) + seq![tail@] =~= rows(before.push(tail)) + lines(
                        v@.skip(end as int),
                    ));
                }
                r.push(tail);
                i = end;
            },
        }
    }
    assert(v@.skip(i as int) =~= Seq::<char>::empty());
    assert(rows(r@) + lines(v@.skip(i as int)) =~= rows(r@));
    r
}

// ---------------------------------------------------------------- numbers

/// The decimal digit of a value below ten.
pub open spec fn digit(d: nat) -> char {
    ('0' as u32 + d) as char
}

/// The decimal form of a number.
pub open spec fn decimal(n: nat) -> Seq<char>
    decreases n,
{
    if n < 10 {
        seq![digit(n)]
    } else {
        decimal(n / 10).push(digit(n % 10))
    }
}

fn push_decimal(s: &mut String, n: u64)
    ensures
        final(s)@ == old(s)@ + decimal(n as nat),
    decreases n,
{
    if n >= 10 {
        push_decimal(s, n / 10);
    }
    let d: u8 = (n % 10) as u8;
    let c: char = ('0' as u8 + d) as char;
    s.push(c);
    proof {
        if n >= 10 {
            assert(s@ =~= old(s)@ + decimal((n / 10) as nat).push(c));
        } else {
            assert(s@ =~= old(s)@ + seq![c]);
        }
    }
}

/// Writes a number in decimal.
pub fn number(n: u64) -> (s: String)
    ensures
        s@ == decimal(n as nat),
{
    let mut s = String::new();
    push_decimal(&mut s, n);
    assert(Seq::<char>::empty() + decimal(n as nat) =~= decimal(n as nat));
    s
}

/// The hexadecimal digit of a value below sixteen.
pub open spec fn hex_digit(d: nat) -> char {
    if d < 10 {
        digit(d)
    } else {
        ('a' as u32 + (d - 10)) as char
    }
}

/// The hexadecimal form of a number.
pub open spec fn hexadecimal(n: nat) -> Seq<char>
    decreases n,
{
    if n < 16 {
        seq![hex_digit(n)]
    } else {
        hexadecimal(n / 16).push(hex_digit(n % 16))
    }
}

/// The two hexadecimal digits of a byte.
pub open spec fn byte_digits(b: u8) -> Seq<char> {
    seq![hex_digit((b / 16) as nat), hex_digit((b % 16) as nat)]
}

fn hex_char(d: u8) -> (c: char)
    requires
        d < 16,
    ensures
        c == hex_digit(d as nat),
{
    if d < 10 {
        ('0' as u8 + d) as char
    } else {
        ('a' as u8 + (d - 10)) as char
    }
}

/// Appends a number in hexadecimal.
pub fn append_hex(s: &mut String, n: u128)
    ensures
        final(s)@ == old(s)@ + hexadecimal(n as nat),
    decreases n,
{
    if n >= 16 {
        append_hex(s, n / 16);
    }
    let c: char = hex_char((n % 16) as u8);
    s.push(c);
    proof {
        if n >= 16 {
            assert(s@ =~= old(s)@ + hexadecimal((n / 16) as nat).push(c));
        } else {
            assert(s@ =~= old(s)@ + seq![c]);
        }
    }
}

/// Appends the two hexadecimal digits of a byte.
pub fn append_byte(s: &mut String, b: u8)
    ensures
        final(s)@ == old(s)@ + byte_digits(b),
{
    s.push(hex_char(b / 16));
    s.push(hex_char(b % 16));
    assert(s@ =~= old(s)@ + byte_digits(b));
}

/// A decimal digit.
pub open spec fn is_digit(c: char) -> bool {
    '0' as u32 <= c as u32 <= '9' as u32
}

/// The number a run of digits stands for.
pub open spec fn value_of(s: Seq<char>) -> nat
    decreases s.len(),
{
    if s.len() == 0 {
        0
    } else {
        10 * value_of(s.drop_last()) + (s.last() as u32 - '0' as u32) as nat
    }
}

/// A number without the plus sign it may open with.
pub open spec fn unsigned_part(s: Seq<char>) -> Seq<char> {
    if s.len() > 0 && s[0] == '+' {
        s.drop_first()
    } else {
        s
    }
}

/// The whole number a text spells, where it spells one of 64 bits.
pub open spec fn parsed(s: Seq<char>) -> Option<u64> {
    let d = unsigned_part(s);
    if d.len() > 0 && (forall|i: int| 0 <= i < d.len() ==> is_digit(#[trigger] d[i])) && value_of(d)
        <= u64::MAX {
        Some(value_of(d) as u64)
    } else {
        None
    }
}

/// The whole number digits spell, where there are any and nothing else.
pub open spec fn natural(s: Seq<char>) -> Option<u64> {
    if s.len() > 0 && s[0] == '+' {
        None
    } else {
        parsed(s)
    }
}

/// The value of a decimal digit.
fn digit_value(c: char) -> (r: Option<u64>)
    ensures
        r is Some == is_digit(c),
        r matches Some(d) ==> d == c as u32 - '0' as u32 && d < 10,
{
    let n: u32 = c as u32;
    if '0' as u32 <= n && n <= '9' as u32 {
        Some((n - '0' as u32) as u64)
    } else {
        None
    }
}

/// Reads a whole number.
pub fn parse_number(v: &[char]) -> (r: Option<u64>)
    ensures
        r == parsed(v@),
{
    let start: usize = if v.len() > 0 && v[0] == '+' {
        1
    } else {
        0
    };
    let end: usize = v.len();
    let d = cut(v, start, end);
    assert(d@ =~= unsigned_part(v@));
    if d.len() == 0 {
        return None;
    }
    let mut fits: bool = true;
    let mut n: u64 = 0;
    let mut i: usize = 0;
    assert(d@.take(0) =~= Seq::<char>::empty());
    while i < d.len()
        invariant
            i <= d@.len(),
            d@ == unsigned_part(v@),
            d@.len() > 0,
            forall|k: int| 0 <= k < i ==> is_digit(#[trigger] d@[k]),
            fits ==> n == value_of(d@.take(i as int)),
            !fits ==> value_of(d@.take(i as int)) > u64::MAX,
        decreases d@.len() - i,
    {
        assert(d@.take(i + 1).drop_last() =~= d@.take(i as int));
        match digit_value(d[i]) {
            Some(digit) => {
                if n > (u64::MAX - digit) / 10 {
                    fits = false;
                } else {
                    n = 10 * n + digit;
                }
            },
            None => {
                assert(!is_digit(d@[i as int]));
                return None;
            },
        }
        i = i + 1;
    }
    assert(d@.take(i as int) =~= d@);
    if fits {
        Some(n)
    } else {
        None
    }
}

/// What the decimal form of a number is made of.
pub proof fn lemma_decimal(n: nat)
    ensures
        decimal(n).len() > 0,
        forall|i: int| 0 <= i < decimal(n).len() ==> is_digit(#[trigger] decimal(n)[i]),
        value_of(decimal(n)) == n,
    decreases n,
{
    let s = decimal(n);
    if n < 10 {
        assert(s.drop_last() =~= Seq::<char>::empty());
        assert(value_of(s.drop_last()) == 0);
    } else {
        lemma_decimal(n / 10);
        assert(s.drop_last() =~= decimal(n / 10));
        assert forall|i: int| 0 <= i < s.len() implies is_digit(#[trigger] s[i]) by {
            if i < s.len() - 1 {
                assert(s[i] == decimal(n / 10)[i]);
            }
        }
    }
}

/// Reads a whole number that is written without a sign.
pub fn parse_digits(v: &[char]) -> (r: Option<u64>)
    ensures
        r == natural(v@),
{
    if v.len() > 0 && v[0] == '+' {
        None
    } else {
        parse_number(v)
    }
}

/// A number written in decimal reads back as itself.
pub proof fn law_decimal_reads_back(n: u64)
    ensures
        parsed(decimal(n as nat)) == Some(n),
        natural(decimal(n as nat)) == Some(n),
{
    lemma_decimal(n as nat);
    assert(is_digit(decimal(n as nat)[0]));
}

/// Different numbers are written differently.
pub proof fn law_decimal_is_unique(m: nat, n: nat)
    requires
        decimal(m) == decimal(n),
    ensures
        m == n,
{
    lemma_decimal(m);
    lemma_decimal(n);
}

// ---------------------------------------------------------------- case

/// A character with an ASCII capital made small.
pub open spec fn lower(c: char) -> char {
    if 'A' as u32 <= c as u32 <= 'Z' as u32 {
        (c as u32 + 32) as char
    } else {
        c
    }
}

/// A text with its ASCII capitals made small.
pub open spec fn lowered(s: Seq<char>) -> Seq<char> {
    Seq::new(s.len(), |i: int| lower(s[i]))
}

fn lower_char(c: char) -> (r: char)
    ensures
        r == lower(c),
{
    let n: u32 = c as u32;
    if 'A' as u32 <= n && n <= 'Z' as u32 {
        (n as u8 + 32) as char
    } else {
        c
    }
}

/// Makes ASCII capitals small.
pub fn lower_chars(v: &[char]) -> (r: Vec<char>)
    ensures
        r@ == lowered(v@),
{
    let mut r: Vec<char> = Vec::new();
    let mut i: usize = 0;
    while i < v.len()
        invariant
            i <= v@.len(),
            r@ == lowered(v@).take(i as int),
        decreases v@.len() - i,
    {
        let d: char = lower_char(v[i]);
        r.push(d);
        assert(lowered(v@).take(i as int).push(d) =~= lowered(v@).take(i + 1));
        i = i + 1;
    }
    assert(lowered(v@).take(i as int) =~= lowered(v@));
    r
}

/// The text `str::to_lowercase` makes of a text.
pub uninterp spec fn lower_text(s: Seq<char>) -> Seq<char>;

/// `str::to_lowercase`: of ASCII text, each capital is made a small letter.
/// What becomes of other letters is left to the standard library.
#[verifier::external_body]
pub(crate) fn to_lower(s: &str) -> (r: String)
    ensures
        r@ == lower_text(s@),
        vstd::utf8::is_ascii_chars(s@) ==> r@ == lowered(s@),
{
    s.to_lowercase()
}

/// What `char::is_alphanumeric` says of a character.
pub uninterp spec fn alphanumeric(c: char) -> bool;

/// An ASCII letter or digit.
pub open spec fn ascii_alphanumeric(c: char) -> bool {
    ||| is_digit(c)
    ||| 'a' as u32 <= c as u32 <= 'z' as u32
    ||| 'A' as u32 <= c as u32 <= 'Z' as u32
}

/// `char::is_alphanumeric`: of ASCII characters, the letters and the digits.
/// Which others count is left to the standard library.
#[verifier::external_body]
pub(crate) fn is_alphanumeric(c: char) -> (r: bool)
    ensures
        r == alphanumeric(c),
        (c as u32) < 128 ==> r == ascii_alphanumeric(c),
{
    c.is_alphanumeric()
}

/// A character with a small ASCII letter made a capital.
pub open spec fn upper(c: char) -> char {
    if 'a' as u32 <= c as u32 <= 'z' as u32 {
        (c as u32 - 32) as char
    } else {
        c
    }
}

/// The text `str::to_uppercase` makes of a text.
pub uninterp spec fn upper_text(s: Seq<char>) -> Seq<char>;

/// `str::to_uppercase`: of ASCII text, each letter is made a capital. What
/// becomes of other letters is left to the standard library.
#[verifier::external_body]
pub(crate) fn to_upper(s: &str) -> (r: String)
    ensures
        r@ == upper_text(s@),
        vstd::utf8::is_ascii_chars(s@) ==> r@ == Seq::new(s@.len(), |i: int| upper(s@[i])),
{
    s.to_uppercase()
}

// ---------------------------------------------------------------- bytes

/// The text `String::from_utf8_lossy` makes of bytes.
pub uninterp spec fn lossy_text(bytes: Seq<u8>) -> Seq<char>;

/// `String::from_utf8_lossy`: bytes that are UTF-8 are decoded as they stand.
/// What stands in for bytes that are not is left to the standard library.
#[verifier::external_body]
pub(crate) fn lossy(bytes: &[u8]) -> (r: String)
    ensures
        r@ == lossy_text(bytes@),
        vstd::utf8::valid_utf8(bytes@) ==> r@ == vstd::utf8::decode_utf8(bytes@),
{
    String::from_utf8_lossy(bytes).into_owned()
}

/// The text of bytes: what they encode, or what stands in for it.
pub open spec fn decoded(bytes: Seq<u8>) -> Seq<char> {
    if vstd::utf8::valid_utf8(bytes) {
        vstd::utf8::decode_utf8(bytes)
    } else {
        lossy_text(bytes)
    }
}

/// The text of bytes.
pub fn decode(bytes: &[u8]) -> (r: String)
    ensures
        r@ == decoded(bytes@),
{
    lossy(bytes)
}

// ---------------------------------------------------------------- what these come to

/// A text holds what it is put together from: it opens with its first part, ends
/// with its last, and has each.
pub proof fn law_a_text_has_its_parts(a: Seq<char>, b: Seq<char>, c: Seq<char>)
    ensures
        starts(a + b, a),
        ends(b + c, c),
        has(a + b + c, b),
        starts(c, a) ==> exists|rest: Seq<char>| c == #[trigger] (a + rest),
        ends(c, a) ==> exists|rest: Seq<char>| c == #[trigger] (rest + a),
        has(c, a) ==> exists|x: Seq<char>, y: Seq<char>| c == #[trigger] (x + a + y),
{
    assert((a + b).subrange(0, a.len() as int) =~= a);
    assert((b + c).subrange((b + c).len() - c.len(), (b + c).len() as int) =~= c);
    let k = a.len() as int;
    assert((a + b + c).subrange(k, k + b.len()) =~= b);
    assert(occurs_at(a + b + c, b, k));
    if starts(c, a) {
        let rest = c.skip(a.len() as int);
        assert(c =~= c.subrange(0, a.len() as int) + rest);
        assert(c == a + rest);
    }
    if ends(c, a) {
        let n = c.len() - a.len();
        let rest = c.take(n);
        assert(c =~= rest + c.subrange(n, n + a.len()));
        assert(c == rest + a);
    }
    if has(c, a) {
        let i = choose|i: int| #[trigger] occurs_at(c, a, i);
        let (x, y) = (c.take(i), c.skip(i + a.len()));
        assert(c =~= x + c.subrange(i, i + a.len()) + y);
        assert(c == x + a + y);
    }
}

/// Trimming takes the white space from the front and from the end, all of it,
/// and nothing else.
pub proof fn law_only_white_space_is_trimmed(s: Seq<char>)
    ensures
        exists|i: int|
            0 <= i <= s.len() && trim_start(s) == #[trigger] s.skip(i) && forall|k: int|
                0 <= k < i ==> is_white(#[trigger] s[k]),
        exists|j: int|
            0 <= j <= s.len() && trim_end(s) == #[trigger] s.take(j) && forall|k: int|
                j <= k < s.len() ==> is_white(#[trigger] s[k]),
        trim_start(s).len() > 0 ==> !is_white(trim_start(s)[0]),
        trim_end(s).len() > 0 ==> !is_white(trim_end(s).last()),
        trim(s) == trim_end(trim_start(s)),
        trim(s).len() > 0 ==> !is_white(trim(s)[0]) && !is_white(trim(s).last()),
{
    lemma_trim_start(s);
    lemma_trim_end(s);
    lemma_trim_end(trim_start(s));
}

proof fn lemma_trim_start(s: Seq<char>)
    ensures
        exists|i: int|
            0 <= i <= s.len() && trim_start(s) == #[trigger] s.skip(i) && forall|k: int|
                0 <= k < i ==> is_white(#[trigger] s[k]),
        trim_start(s).len() > 0 ==> !is_white(trim_start(s)[0]),
    decreases s.len(),
{
    if s.len() > 0 && is_white(s[0]) {
        let t = s.drop_first();
        lemma_trim_start(t);
        let i = choose|i: int|
            0 <= i <= t.len() && trim_start(t) == #[trigger] t.skip(i) && forall|k: int|
                0 <= k < i ==> is_white(#[trigger] t[k]);
        assert(t.skip(i) =~= s.skip(i + 1));
        assert forall|k: int| 0 <= k < i + 1 implies is_white(#[trigger] s[k]) by {
            if k > 0 {
                assert(is_white(t[k - 1]));
            }
        }
    } else {
        assert(s.skip(0) =~= s);
    }
}

proof fn lemma_trim_end(s: Seq<char>)
    ensures
        exists|j: int|
            0 <= j <= s.len() && trim_end(s) == #[trigger] s.take(j) && forall|k: int|
                j <= k < s.len() ==> is_white(#[trigger] s[k]),
        trim_end(s).len() > 0 ==> !is_white(trim_end(s).last()),
    decreases s.len(),
{
    if s.len() > 0 && is_white(s.last()) {
        let t = s.drop_last();
        lemma_trim_end(t);
        let j = choose|j: int|
            0 <= j <= t.len() && trim_end(t) == #[trigger] t.take(j) && forall|k: int|
                j <= k < t.len() ==> is_white(#[trigger] t[k]);
        assert(t.take(j) =~= s.take(j));
        assert forall|k: int| j <= k < s.len() implies is_white(#[trigger] s[k]) by {
            if k < t.len() {
                assert(is_white(t[k]));
            }
        }
    } else {
        assert(s.take(s.len() as int) =~= s);
    }
}

/// The parts of a text hold none of the characters it is split at, and joined by
/// it they are the text again.
pub proof fn law_split_parts_join_up(s: Seq<char>, c: char)
    ensures
        split(s, c).len() > 0,
        joined(split(s, c), seq![c]) == s,
        forall|i: int| 0 <= i < split(s, c).len() ==> !(#[trigger] split(s, c)[i]).contains(c),
    decreases s.len(),
{
    let p = split(s, c);
    if s.len() > 0 {
        let t = s.drop_last();
        let q = split(t, c);
        law_split_parts_join_up(t, c);
        if s.last() == c {
            assert(p.drop_last() =~= q);
            assert(joined(p, seq![c]) =~= s);
        } else {
            assert(p.drop_last() =~= q.drop_last());
            if q.len() > 1 {
                let front = joined(q.drop_last(), seq![c]);
                assert(t == front + seq![c] + q.last());
                assert(joined(p, seq![c]) == front + seq![c] + p.last());
                assert(p.last() == q.last().push(s.last()));
                assert(front + seq![c] + q.last().push(s.last()) =~= t.push(s.last()));
                assert(t.push(s.last()) =~= s);
            } else {
                assert(p[0] =~= s);
            }
            assert forall|i: int| 0 <= i < p.len() implies !(#[trigger] p[i]).contains(c) by {
                if i < p.len() - 1 {
                    assert(p[i] == q[i]);
                } else {
                    let last = q.last();
                    assert(q[q.len() - 1] == last);
                    if p[i].contains(c) {
                        let k = choose|k: int| 0 <= k < p[i].len() && p[i][k] == c;
                        if k < last.len() {
                            assert(last[k] == c);
                            assert(last.contains(c));
                        }
                    }
                }
            }
        }
    }
}

/// Joined texts stand one after another with the separator between each two.
pub proof fn law_joined_texts_are_in_order(parts: Seq<Seq<char>>, last: Seq<char>, sep: Seq<char>)
    ensures
        joined(Seq::empty(), sep) == Seq::<char>::empty(),
        joined(seq![last], sep) == last,
        parts.len() > 0 ==> joined(parts.push(last), sep) == joined(parts, sep) + sep + last,
{
    assert(parts.push(last).drop_last() =~= parts);
}

/// A line ends at a line feed, without the carriage return before it, and the
/// lines behind it are those of the rest.
pub proof fn law_lines_end_at_line_feeds(line: Seq<char>, rest: Seq<char>)
    requires
        !line.contains('\n'),
    ensures
        lines(Seq::empty()) == Seq::<Seq<char>>::empty(),
        line.len() > 0 ==> lines(line) == seq![line],
        lines(line + seq!['\n'] + rest) == seq![strip_cr(line)] + lines(rest),
        strip_cr(line.push('\r')) == line,
        line.len() == 0 || line.last() != '\r' ==> strip_cr(line) == line,
{
    let s = line + seq!['\n'] + rest;
    let n = line.len() as int;
    lemma_first_of_from(s, '\n', 0);
    lemma_first_of_from(line, '\n', 0);
    assert(s[n] == '\n');
    assert(forall|k: int| 0 <= k < n ==> s[k] == line[k]);
    assert(first_of(s, '\n') == Some(n)) by {
        if let Some(k) = first_of(s, '\n') {
            if k < n {
                assert(line[k] == '\n');
                assert(line.contains('\n'));
            }
        }
    }
    assert(s.take(n) =~= line);
    assert(s.skip(n + 1) =~= rest);
    assert(line.push('\r').drop_last() =~= line);
    if let Some(k) = first_of(line, '\n') {
        assert(line.contains('\n'));
    }
}

/// The first word is what stands before the second, and both are runs of what is
/// not white space.
pub proof fn law_words_are_between_white_space(
    blank: Seq<char>,
    word: Seq<char>,
    gap: Seq<char>,
    next: Seq<char>,
    rest: Seq<char>,
)
    requires
        forall|i: int| 0 <= i < blank.len() ==> is_white(#[trigger] blank[i]),
        forall|i: int| 0 <= i < gap.len() ==> is_white(#[trigger] gap[i]),
        forall|i: int| 0 <= i < word.len() ==> !is_white(#[trigger] word[i]),
        forall|i: int| 0 <= i < next.len() ==> !is_white(#[trigger] next[i]),
        word.len() > 0,
        gap.len() > 0,
        next.len() > 0,
        rest.len() == 0 || is_white(rest[0]),
    ensures
        first_word(blank + word + gap) == Some(word),
        first_word(blank) is None,
        second_word(blank + word + gap) is None,
        first_word(blank + word + (gap + next + rest)) == Some(word),
        second_word(blank + word + (gap + next + rest)) == Some(next),
{
    let tail = gap + next + rest;
    lemma_word(blank, word, gap);
    lemma_word(blank, word, tail);
    lemma_word(gap, next, rest);
    assert(gap + (next + rest) =~= tail);
    assert(gap + next + rest =~= tail);
    lemma_blank(blank);
    lemma_blank(gap);
}

proof fn lemma_blank(s: Seq<char>)
    requires
        forall|i: int| 0 <= i < s.len() ==> is_white(#[trigger] s[i]),
    ensures
        trim_start(s) == Seq::<char>::empty(),
        first_word(s) is None,
    decreases s.len(),
{
    if s.len() > 0 {
        lemma_blank(s.drop_first());
    }
    assert(until_white(trim_start(s)).len() == 0) by {
        assert(trim_start(s).len() == 0);
    }
}

proof fn lemma_word(blank: Seq<char>, word: Seq<char>, rest: Seq<char>)
    requires
        forall|i: int| 0 <= i < blank.len() ==> is_white(#[trigger] blank[i]),
        forall|i: int| 0 <= i < word.len() ==> !is_white(#[trigger] word[i]),
        word.len() > 0,
        rest.len() == 0 || is_white(rest[0]),
    ensures
        trim_start(blank + word + rest) == word + rest,
        until_white(word + rest) == word,
        first_word(blank + word + rest) == Some(word),
        second_word(blank + word + rest) == first_word(rest),
    decreases blank.len(),
{
    let s = blank + word + rest;
    lemma_until(word, rest);
    if blank.len() > 0 {
        let b = blank.drop_first();
        assert(s.drop_first() =~= b + word + rest);
        lemma_word(b, word, rest);
        assert(s[0] == blank[0]);
    } else {
        assert(s =~= word + rest);
        assert(s[0] == word[0]);
    }
    assert((word + rest).skip(word.len() as int) =~= rest);
}

proof fn lemma_until(word: Seq<char>, rest: Seq<char>)
    requires
        forall|i: int| 0 <= i < word.len() ==> !is_white(#[trigger] word[i]),
        rest.len() == 0 || is_white(rest[0]),
    ensures
        until_white(word + rest) == word,
    decreases word.len(),
{
    let s = word + rest;
    if word.len() == 0 {
        assert(s =~= rest);
        assert(until_white(s) =~= word);
    } else {
        lemma_until(word.drop_first(), rest);
        assert(s.drop_first() =~= word.drop_first() + rest);
        assert(s[0] == word[0]);
        assert(until_white(s) =~= word);
    }
}

/// A digit behind a number makes it ten times as large, and itself more; what
/// is not made of digits is no number.
pub proof fn law_digits_count_by_tens(s: Seq<char>, c: char, n: u64)
    ensures
        natural(s) == Some(n) && is_digit(c) && 10 * n + (c as u32 - '0' as u32) <= u64::MAX
            ==> natural(s.push(c)) == Some((10 * n + (c as u32 - '0' as u32)) as u64),
        is_digit(c) ==> natural(seq![c]) == Some((c as u32 - '0' as u32) as u64),
        !is_digit(c) ==> natural(s.push(c)) is None,
        natural(Seq::empty()) is None,
        natural(s) == Some(n) ==> parsed(s) == Some(n) && parsed(seq!['+'] + s) == Some(n),
{
    let t = s.push(c);
    assert(t.drop_last() =~= s);
    assert(seq![c].drop_last() =~= Seq::<char>::empty());
    reveal_with_fuel(value_of, 2);
    if s.len() > 0 {
        assert(t[0] == s[0]);
    }
    if natural(s) == Some(n) {
        assert(unsigned_part(s) == s);
        assert((seq!['+'] + s).drop_first() =~= s);
        if is_digit(c) {
            assert forall|i: int| 0 <= i < t.len() implies is_digit(#[trigger] t[i]) by {
                if i < s.len() {
                    assert(is_digit(s[i]));
                }
            }
        }
    }
    if !is_digit(c) {
        assert(t[t.len() - 1] == c);
        if t[0] != '+' {
            assert(unsigned_part(t) == t);
        }
    }
}

/// A number in hexadecimal has its digits from the most significant on.
pub proof fn law_hexadecimal_counts_by_sixteens(n: nat, d: nat)
    requires
        d < 16,
    ensures
        hexadecimal(d) == seq![hex_digit(d)],
        n > 0 ==> hexadecimal(16 * n + d) == hexadecimal(n).push(hex_digit(d)),
        d < 10 ==> hex_digit(d) as u32 == 0x30 + d,
        d >= 10 ==> hex_digit(d) as u32 == 0x61 + (d - 10),
{
    if n > 0 {
        assert((16 * n + d) / 16 == n);
        assert((16 * n + d) % 16 == d);
    }
}

/// A byte is two digits, of its upper and of its lower half.
pub proof fn law_a_byte_is_two_digits(b: u8)
    ensures
        byte_digits(b).len() == 2,
        exists|hi: nat, lo: nat|
            hi < 16 && lo < 16 && b == 16 * hi + lo && byte_digits(b) == seq![
                #[trigger] hex_digit(hi),
                #[trigger] hex_digit(lo),
            ],
{
    let (hi, lo) = ((b / 16) as nat, (b % 16) as nat);
    assert(b == 16 * hi + lo);
    assert(byte_digits(b) == seq![hex_digit(hi), hex_digit(lo)]);
}

/// Letters in capitals are told from small ones by nothing else.
pub proof fn law_only_capitals_are_lowered(s: Seq<char>, i: int)
    requires
        0 <= i < s.len(),
    ensures
        lowered(s).len() == s.len(),
        0x41 <= s[i] as u32 <= 0x5a ==> lowered(s)[i] as u32 == s[i] as u32 + 32,
        !(0x41 <= s[i] as u32 <= 0x5a) ==> lowered(s)[i] == s[i],
        lowered(lowered(s)) == lowered(s),
{
    assert(lowered(lowered(s)) =~= lowered(s));
}

/// Texts that hold none of a character come apart again where they were joined by
/// it.
pub proof fn law_split_undoes_join(parts: Seq<Seq<char>>, c: char)
    requires
        parts.len() > 0,
        forall|i: int| 0 <= i < parts.len() ==> !(#[trigger] parts[i]).contains(c),
    ensures
        split(joined(parts, seq![c]), c) == parts,
    decreases parts.len(),
{
    let last = parts.last();
    assert(!parts[parts.len() - 1].contains(c));
    if parts.len() == 1 {
        lemma_split_behind(Seq::empty(), last, c);
        assert(Seq::<char>::empty() + last =~= last);
        assert(split(last, c) =~= parts);
    } else {
        let front = parts.drop_last();
        assert forall|i: int| 0 <= i < front.len() implies !(#[trigger] front[i]).contains(c) by {
            assert(front[i] == parts[i]);
        }
        law_split_undoes_join(front, c);
        let head = joined(front, seq![c]).push(c);
        assert(head.drop_last() =~= joined(front, seq![c]));
        lemma_split_behind(head, last, c);
        assert(joined(parts, seq![c]) =~= head + last);
        assert(split(head, c) == front.push(Seq::empty()));
        assert(front.push(Seq::<char>::empty()).drop_last() =~= front);
        assert(Seq::<char>::empty() + last =~= last);
        assert(front.push(last) =~= parts);
    }
}

proof fn lemma_split_behind(a: Seq<char>, b: Seq<char>, c: char)
    requires
        !b.contains(c),
    ensures
        split(a + b, c) == split(a, c).drop_last().push(split(a, c).last() + b),
    decreases b.len(),
{
    lemma_split_nonempty(a, c);
    if b.len() == 0 {
        assert(a + b =~= a);
        assert(split(a, c).last() + b =~= split(a, c).last());
        assert(split(a, c).drop_last().push(split(a, c).last()) =~= split(a, c));
    } else {
        let d = b.drop_last();
        assert forall|i: int| 0 <= i < d.len() implies d[i] != c by {
            assert(b[i] == d[i]);
        }
        assert(!d.contains(c));
        assert(b[b.len() - 1] != c);
        lemma_split_behind(a, d, c);
        assert((a + b).drop_last() =~= a + d);
        let before = split(a, c).drop_last().push(split(a, c).last() + d);
        assert(before.drop_last() =~= split(a, c).drop_last());
        assert((split(a, c).last() + d).push(b.last()) =~= split(a, c).last() + b);
    }
}

/// A number in decimal is made of digits alone.
pub proof fn law_decimal_is_digits(n: nat)
    ensures
        decimal(n).len() > 0,
        forall|i: int| 0 <= i < decimal(n).len() ==> is_digit(#[trigger] decimal(n)[i]),
        n < 10 ==> decimal(n).len() == 1 && decimal(n)[0] as u32 == 0x30 + n,
        n >= 10 ==> decimal(n).drop_last() == decimal(n / 10) && decimal(n).last() as u32 == 0x30
            + n % 10,
    decreases n,
{
    if n >= 10 {
        law_decimal_is_digits(n / 10);
        assert(decimal(n).drop_last() =~= decimal(n / 10));
        assert forall|i: int| 0 <= i < decimal(n).len() implies is_digit(
            #[trigger] decimal(n)[i],
        ) by {
            if i < decimal(n).len() - 1 {
                assert(decimal(n)[i] == decimal(n / 10)[i]);
            }
        }
    }
}

} // verus!

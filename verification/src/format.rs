//! The bytes of a GGUF file, versions 2 and 3: header, metadata and tensor
//! index.
//!
//! The spec functions say what each run of bytes stands for: the value that
//! begins at a position together with the position after it, or the fault that
//! stops the reading there. [`Cursor`] reads exactly that.
use crate::gguf::{Datum, GgmlType, Gguf, MetaValue, Metadata, Tensor, TensorInfo};
use crate::text;
use vstd::prelude::*;

verus! {

/// The longest string a file may hold, in bytes.
pub const LONGEST_STRING: u64 = 67_108_864;

/// The most dimensions a tensor may have.
pub const MOST_DIMENSIONS: u32 = 4;

/// Where no other is set, tensor data is aligned to this many bytes.
pub const DEFAULT_ALIGNMENT: u64 = 32;

/// Why a file could not be read.
#[derive(Debug)]
pub enum GgufError {
    /// The bytes end before the index does.
    Truncated,
    /// The file does not open with the magic; these are the bytes it opens with.
    Magic(u8, u8, u8, u8),
    Version(u32),
    StringLength(u64),
    Tag(u32),
    Dimensions { name: String, n_dims: u32 },
    /// Tensor data is to be aligned to multiples of nothing.
    Alignment,
}

/// What went wrong.
pub enum Fault {
    Truncated,
    Magic(u8, u8, u8, u8),
    Version(u32),
    StringLength(u64),
    Tag(u32),
    Dimensions { name: Seq<char>, n_dims: u32 },
    Alignment,
}

impl View for GgufError {
    type V = Fault;

    open spec fn view(&self) -> Fault {
        match self {
            GgufError::Truncated => Fault::Truncated,
            GgufError::Magic(a, b, c, d) => Fault::Magic(*a, *b, *c, *d),
            GgufError::Version(v) => Fault::Version(*v),
            GgufError::StringLength(n) => Fault::StringLength(*n),
            GgufError::Tag(t) => Fault::Tag(*t),
            GgufError::Dimensions { name, n_dims } => Fault::Dimensions {
                name: name@,
                n_dims: *n_dims,
            },
            GgufError::Alignment => Fault::Alignment,
        }
    }
}

impl Fault {
    /// What the user is told.
    pub open spec fn told(self) -> Seq<char> {
        match self {
            Fault::Truncated => "failed to fill whole buffer"@,
            Fault::Magic(a, b, c, d) => "not a GGUF file: magic was ["@ + text::decimal(a as nat)
                + ", "@ + text::decimal(b as nat) + ", "@ + text::decimal(c as nat) + ", "@
                + text::decimal(d as nat) + "]"@,
            Fault::Version(v) => "unsupported GGUF version "@ + text::decimal(v as nat),
            Fault::StringLength(n) => "implausible string length "@ + text::decimal(n as nat)
                + " in GGUF metadata"@,
            Fault::Tag(t) => "unknown GGUF value tag "@ + text::decimal(t as nat),
            Fault::Dimensions { name, n_dims } => "tensor "@ + name + " claims "@ + text::decimal(
                n_dims as nat,
            ) + " dimensions"@,
            Fault::Alignment => "attempt to divide by zero"@,
        }
    }
}

impl GgufError {
    /// What to tell the user.
    pub fn message(&self) -> (r: String)
        ensures
            r@ == self@.told(),
    {
        match self {
            GgufError::Truncated => "failed to fill whole buffer".to_owned(),
            GgufError::Magic(a, b, c, d) => {
                let mut s = "not a GGUF file: magic was [".to_owned();
                s.append(text::number(*a as u64).as_str());
                s.append(", ");
                s.append(text::number(*b as u64).as_str());
                s.append(", ");
                s.append(text::number(*c as u64).as_str());
                s.append(", ");
                s.append(text::number(*d as u64).as_str());
                s.append("]");
                s
            },
            GgufError::Version(v) => {
                let mut s = "unsupported GGUF version ".to_owned();
                s.append(text::number(*v as u64).as_str());
                s
            },
            GgufError::StringLength(n) => {
                let mut s = "implausible string length ".to_owned();
                s.append(text::number(*n).as_str());
                s.append(" in GGUF metadata");
                s
            },
            GgufError::Tag(t) => {
                let mut s = "unknown GGUF value tag ".to_owned();
                s.append(text::number(*t as u64).as_str());
                s
            },
            GgufError::Dimensions { name, n_dims } => {
                let mut s = "tensor ".to_owned();
                s.append(name.as_str());
                s.append(" claims ");
                s.append(text::number(*n_dims as u64).as_str());
                s.append(" dimensions");
                s
            },
            GgufError::Alignment => "attempt to divide by zero".to_owned(),
        }
    }
}

// ---------------------------------------------------------------- the layout

/// Two bytes, the low one first.
pub open spec fn le2(b: Seq<u8>, pos: int) -> int {
    b[pos] + 0x100 * b[pos + 1]
}

/// Four bytes, the lowest first.
pub open spec fn le4(b: Seq<u8>, pos: int) -> int {
    le2(b, pos) + 0x1_0000 * le2(b, pos + 2)
}

/// Eight bytes, the lowest first.
pub open spec fn le8(b: Seq<u8>, pos: int) -> int {
    le4(b, pos) + 0x1_0000_0000 * le4(b, pos + 4)
}

/// A number of a range of `span` values read as a two's complement.
pub open spec fn signed(n: int, span: int) -> int {
    if 2 * n >= span {
        n - span
    } else {
        n
    }
}

pub open spec fn byte_at(b: Seq<u8>, pos: int) -> Result<(u8, int), Fault> {
    if pos + 1 <= b.len() {
        Ok((b[pos], pos + 1))
    } else {
        Err(Fault::Truncated)
    }
}

pub open spec fn u16_at(b: Seq<u8>, pos: int) -> Result<(u16, int), Fault> {
    if pos + 2 <= b.len() {
        Ok((le2(b, pos) as u16, pos + 2))
    } else {
        Err(Fault::Truncated)
    }
}

pub open spec fn u32_at(b: Seq<u8>, pos: int) -> Result<(u32, int), Fault> {
    if pos + 4 <= b.len() {
        Ok((le4(b, pos) as u32, pos + 4))
    } else {
        Err(Fault::Truncated)
    }
}

pub open spec fn u64_at(b: Seq<u8>, pos: int) -> Result<(u64, int), Fault> {
    if pos + 8 <= b.len() {
        Ok((le8(b, pos) as u64, pos + 8))
    } else {
        Err(Fault::Truncated)
    }
}

/// A length of eight bytes, and as many bytes of text.
pub open spec fn string_at(b: Seq<u8>, pos: int) -> Result<(Seq<char>, int), Fault> {
    match u64_at(b, pos) {
        Ok((n, p)) => if n > LONGEST_STRING {
            Err(Fault::StringLength(n))
        } else if p + n > b.len() {
            Err(Fault::Truncated)
        } else {
            Ok((text::decoded(b.subrange(p, p + n)), p + n))
        },
        Err(e) => Err(e),
    }
}

/// The value of a tag.
pub open spec fn value_at(b: Seq<u8>, pos: int, tag: u32) -> Result<(Datum, int), Fault>
    decreases b.len() - pos, 0nat, 0nat,
{
    if tag == 0 {
        match byte_at(b, pos) {
            Ok((v, p)) => Ok((Datum::U8(v), p)),
            Err(e) => Err(e),
        }
    } else if tag == 1 {
        match byte_at(b, pos) {
            Ok((v, p)) => Ok((Datum::I8(signed(v as int, 0x100) as i8), p)),
            Err(e) => Err(e),
        }
    } else if tag == 2 {
        match u16_at(b, pos) {
            Ok((v, p)) => Ok((Datum::U16(v), p)),
            Err(e) => Err(e),
        }
    } else if tag == 3 {
        match u16_at(b, pos) {
            Ok((v, p)) => Ok((Datum::I16(signed(v as int, 0x1_0000) as i16), p)),
            Err(e) => Err(e),
        }
    } else if tag == 4 {
        match u32_at(b, pos) {
            Ok((v, p)) => Ok((Datum::U32(v), p)),
            Err(e) => Err(e),
        }
    } else if tag == 5 {
        match u32_at(b, pos) {
            Ok((v, p)) => Ok((Datum::I32(signed(v as int, 0x1_0000_0000) as i32), p)),
            Err(e) => Err(e),
        }
    } else if tag == 6 {
        match u32_at(b, pos) {
            Ok((v, p)) => Ok((Datum::F32(v), p)),
            Err(e) => Err(e),
        }
    } else if tag == 7 {
        match byte_at(b, pos) {
            Ok((v, p)) => Ok((Datum::Bool(v != 0), p)),
            Err(e) => Err(e),
        }
    } else if tag == 8 {
        match string_at(b, pos) {
            Ok((v, p)) => Ok((Datum::Str(v), p)),
            Err(e) => Err(e),
        }
    } else if tag == 9 {
        match u32_at(b, pos) {
            Ok((elem, _)) => match u64_at(b, pos + 4) {
                Ok((n, _)) => match values_at(b, pos + 12, elem, n as nat) {
                    Ok((v, p)) => Ok((Datum::Array(v), p)),
                    Err(e) => Err(e),
                },
                Err(e) => Err(e),
            },
            Err(e) => Err(e),
        }
    } else if tag == 10 {
        match u64_at(b, pos) {
            Ok((v, p)) => Ok((Datum::U64(v), p)),
            Err(e) => Err(e),
        }
    } else if tag == 11 {
        match u64_at(b, pos) {
            Ok((v, p)) => Ok((Datum::I64(signed(v as int, 0x1_0000_0000_0000_0000) as i64), p)),
            Err(e) => Err(e),
        }
    } else if tag == 12 {
        match u64_at(b, pos) {
            Ok((v, p)) => Ok((Datum::F64(v), p)),
            Err(e) => Err(e),
        }
    } else {
        Err(Fault::Tag(tag))
    }
}

/// `n` values of one tag, one after another.
pub open spec fn values_at(b: Seq<u8>, pos: int, tag: u32, n: nat) -> Result<
    (Seq<Datum>, int),
    Fault,
>
    decreases b.len() - pos, 1nat, n,
{
    if n == 0 {
        Ok((Seq::empty(), pos))
    } else {
        match values_at(b, pos, tag, (n - 1) as nat) {
            Ok((before, p)) => if pos <= p <= b.len() {
                match value_at(b, p, tag) {
                    Ok((v, q)) => Ok((before.push(v), q)),
                    Err(e) => Err(e),
                }
            } else {
                Err(Fault::Truncated)
            },
            Err(e) => Err(e),
        }
    }
}

/// `n` fields: for each a key, the tag of its value, and the value.
pub open spec fn fields_at(b: Seq<u8>, pos: int, n: nat) -> Result<
    (Map<Seq<char>, Datum>, int),
    Fault,
>
    decreases n,
{
    if n == 0 {
        Ok((Map::empty(), pos))
    } else {
        match fields_at(b, pos, (n - 1) as nat) {
            Ok((before, p)) => match field_at(b, p) {
                Ok((key, value, q)) => Ok((before.insert(key, value), q)),
                Err(e) => Err(e),
            },
            Err(e) => Err(e),
        }
    }
}

pub open spec fn field_at(b: Seq<u8>, pos: int) -> Result<(Seq<char>, Datum, int), Fault> {
    match string_at(b, pos) {
        Ok((key, p)) => match u32_at(b, p) {
            Ok((tag, q)) => match value_at(b, q, tag) {
                Ok((value, r)) => Ok((key, value, r)),
                Err(e) => Err(e),
            },
            Err(e) => Err(e),
        },
        Err(e) => Err(e),
    }
}

/// `n` dimensions.
pub open spec fn dims_at(b: Seq<u8>, pos: int, n: nat) -> Result<(Seq<u64>, int), Fault>
    decreases n,
{
    if n == 0 {
        Ok((Seq::empty(), pos))
    } else {
        match dims_at(b, pos, (n - 1) as nat) {
            Ok((before, p)) => match u64_at(b, p) {
                Ok((d, q)) => Ok((before.push(d), q)),
                Err(e) => Err(e),
            },
            Err(e) => Err(e),
        }
    }
}

/// A tensor of the index: its name, how many dimensions it has, these, its type
/// and where its data begins.
pub open spec fn tensor_at(b: Seq<u8>, pos: int) -> Result<(Tensor, int), Fault> {
    match string_at(b, pos) {
        Ok((name, p)) => match u32_at(b, p) {
            Ok((n_dims, q)) => if n_dims > MOST_DIMENSIONS {
                Err(Fault::Dimensions { name, n_dims })
            } else {
                match dims_at(b, q, n_dims as nat) {
                    Ok((dims, r)) => match u32_at(b, r) {
                        Ok((kind, s)) => match u64_at(b, s) {
                            Ok((offset, t)) => Ok(
                                (Tensor { name, dims, kind: GgmlType::of_id(kind), offset }, t),
                            ),
                            Err(e) => Err(e),
                        },
                        Err(e) => Err(e),
                    },
                    Err(e) => Err(e),
                }
            },
            Err(e) => Err(e),
        },
        Err(e) => Err(e),
    }
}

/// `n` tensors.
pub open spec fn tensors_at(b: Seq<u8>, pos: int, n: nat) -> Result<(Seq<Tensor>, int), Fault>
    decreases n,
{
    if n == 0 {
        Ok((Seq::empty(), pos))
    } else {
        match tensors_at(b, pos, (n - 1) as nat) {
            Ok((before, p)) => match tensor_at(b, p) {
                Ok((t, q)) => Ok((before.push(t), q)),
                Err(e) => Err(e),
            },
            Err(e) => Err(e),
        }
    }
}

/// What tensor data is aligned to.
pub open spec fn alignment(m: Map<Seq<char>, Datum>) -> u64 {
    if m.dom().contains("general.alignment"@) {
        match m["general.alignment"@].whole() {
            Some(v) => v,
            None => DEFAULT_ALIGNMENT,
        }
    } else {
        DEFAULT_ALIGNMENT
    }
}

/// The first multiple of `step` that is not before `pos`.
pub open spec fn next_boundary(pos: int, step: int) -> int {
    if pos % step == 0 {
        pos
    } else {
        pos - pos % step + step
    }
}

/// What a file declares.
pub struct Declared {
    pub version: u32,
    pub metadata: Map<Seq<char>, Datum>,
    pub tensors: Seq<Tensor>,
    pub data_offset: int,
}

/// The file opens with the four letters.
pub open spec fn has_magic(b: Seq<u8>) -> bool {
    b[0] == 0x47 && b[1] == 0x47 && b[2] == 0x55 && b[3] == 0x46
}

/// The header: the version, and how many tensors and fields follow it.
pub open spec fn header(b: Seq<u8>) -> Result<(u32, u64, u64), Fault> {
    if b.len() < 4 {
        Err(Fault::Truncated)
    } else if !has_magic(b) {
        Err(Fault::Magic(b[0], b[1], b[2], b[3]))
    } else {
        match u32_at(b, 4) {
            Ok((version, _)) => if version < 2 || version > 3 {
                Err(Fault::Version(version))
            } else {
                match u64_at(b, 8) {
                    Ok((tensor_count, _)) => match u64_at(b, 16) {
                        Ok((field_count, _)) => Ok((version, tensor_count, field_count)),
                        Err(e) => Err(e),
                    },
                    Err(e) => Err(e),
                }
            },
            Err(e) => Err(e),
        }
    }
}

/// What the bytes of a file declare.
pub open spec fn declared(b: Seq<u8>) -> Result<Declared, Fault> {
    match header(b) {
        Ok((version, tensor_count, field_count)) => match fields_at(b, 24, field_count as nat) {
            Ok((metadata, p)) => match tensors_at(b, p, tensor_count as nat) {
                Ok((tensors, q)) => if alignment(metadata) == 0 {
                    Err(Fault::Alignment)
                } else {
                    Ok(
                        Declared {
                            version,
                            metadata,
                            tensors,
                            data_offset: next_boundary(q, alignment(metadata) as int),
                        },
                    )
                },
                Err(e) => Err(e),
            },
            Err(e) => Err(e),
        },
        Err(e) => Err(e),
    }
}

// ---------------------------------------------------------------- the layout, lemmas

/// A value takes at least one byte, and none beyond the end.
proof fn lemma_value_advances(b: Seq<u8>, pos: int, tag: u32)
    requires
        0 <= pos,
    ensures
        value_at(b, pos, tag) matches Ok((_, p)) ==> pos < p <= b.len(),
    decreases b.len() - pos, 0nat, 0nat,
{
    if tag == 9 && pos + 12 <= b.len() {
        let elem = le4(b, pos) as u32;
        let n = le8(b, pos + 4) as u64;
        lemma_values_advance(b, pos + 12, elem, n as nat);
    }
}

proof fn lemma_values_advance(b: Seq<u8>, pos: int, tag: u32, n: nat)
    requires
        0 <= pos <= b.len(),
    ensures
        values_at(b, pos, tag, n) matches Ok((_, p)) ==> pos <= p <= b.len(),
    decreases b.len() - pos, 1nat, n,
{
    if n > 0 {
        lemma_values_advance(b, pos, tag, (n - 1) as nat);
        if let Ok((_, p)) = values_at(b, pos, tag, (n - 1) as nat) {
            lemma_value_advances(b, p, tag);
        }
    }
}

proof fn lemma_values_stop(b: Seq<u8>, pos: int, tag: u32, i: nat, n: nat)
    requires
        i <= n,
        values_at(b, pos, tag, i) is Err,
    ensures
        values_at(b, pos, tag, n) is Err,
        values_at(b, pos, tag, n)->Err_0 == values_at(b, pos, tag, i)->Err_0,
    decreases n,
{
    if i < n {
        lemma_values_stop(b, pos, tag, i, (n - 1) as nat);
    }
}

proof fn lemma_fields_stop(b: Seq<u8>, pos: int, i: nat, n: nat)
    requires
        i <= n,
        fields_at(b, pos, i) is Err,
    ensures
        fields_at(b, pos, n) is Err,
        fields_at(b, pos, n)->Err_0 == fields_at(b, pos, i)->Err_0,
    decreases n,
{
    if i < n {
        lemma_fields_stop(b, pos, i, (n - 1) as nat);
    }
}

proof fn lemma_dims_stop(b: Seq<u8>, pos: int, i: nat, n: nat)
    requires
        i <= n,
        dims_at(b, pos, i) is Err,
    ensures
        dims_at(b, pos, n) is Err,
        dims_at(b, pos, n)->Err_0 == dims_at(b, pos, i)->Err_0,
    decreases n,
{
    if i < n {
        lemma_dims_stop(b, pos, i, (n - 1) as nat);
    }
}

proof fn lemma_tensors_stop(b: Seq<u8>, pos: int, i: nat, n: nat)
    requires
        i <= n,
        tensors_at(b, pos, i) is Err,
    ensures
        tensors_at(b, pos, n) is Err,
        tensors_at(b, pos, n)->Err_0 == tensors_at(b, pos, i)->Err_0,
    decreases n,
{
    if i < n {
        lemma_tensors_stop(b, pos, i, (n - 1) as nat);
    }
}

// ---------------------------------------------------------------- reading

/// A place in the bytes of a file.
struct Cursor<'a> {
    image: &'a [u8],
    pos: usize,
}

impl<'a> Cursor<'a> {
    spec fn wf(&self) -> bool {
        self.pos <= self.image@.len()
    }

    spec fn stays_in(&self, before: Cursor<'a>) -> bool {
        self.image == before.image && self.wf()
    }

    fn left(&self) -> (r: usize)
        requires
            self.wf(),
        ensures
            r == self.image@.len() - self.pos,
    {
        self.image.len() - self.pos
    }

    fn u8(&mut self) -> (r: Result<u8, GgufError>)
        requires
            old(self).wf(),
        ensures
            final(self).stays_in(*old(self)),
            match r {
                Ok(v) => byte_at(old(self).image@, old(self).pos as int) == Ok::<_, Fault>(
                    (v, final(self).pos as int),
                ),
                Err(e) => byte_at(old(self).image@, old(self).pos as int) == Err::<(u8, int), _>(
                    e@,
                ),
            },
    {
        if self.left() < 1 {
            return Err(GgufError::Truncated);
        }
        let v: u8 = self.image[self.pos];
        self.pos = self.pos + 1;
        Ok(v)
    }

    fn u16(&mut self) -> (r: Result<u16, GgufError>)
        requires
            old(self).wf(),
        ensures
            final(self).stays_in(*old(self)),
            match r {
                Ok(v) => u16_at(old(self).image@, old(self).pos as int) == Ok::<_, Fault>(
                    (v, final(self).pos as int),
                ),
                Err(e) => u16_at(old(self).image@, old(self).pos as int) == Err::<(u16, int), _>(
                    e@,
                ),
            },
    {
        if self.left() < 2 {
            return Err(GgufError::Truncated);
        }
        let v: u16 = self.image[self.pos] as u16 + 0x100 * (self.image[self.pos + 1] as u16);
        self.pos = self.pos + 2;
        Ok(v)
    }

    fn u32(&mut self) -> (r: Result<u32, GgufError>)
        requires
            old(self).wf(),
        ensures
            final(self).stays_in(*old(self)),
            match r {
                Ok(v) => u32_at(old(self).image@, old(self).pos as int) == Ok::<_, Fault>(
                    (v, final(self).pos as int),
                ),
                Err(e) => u32_at(old(self).image@, old(self).pos as int) == Err::<(u32, int), _>(
                    e@,
                ),
            },
    {
        if self.left() < 4 {
            return Err(GgufError::Truncated);
        }
        let low: u32 = self.image[self.pos] as u32 + 0x100 * (self.image[self.pos + 1] as u32);
        let high: u32 = self.image[self.pos + 2] as u32 + 0x100 * (self.image[self.pos
            + 3] as u32);
        self.pos = self.pos + 4;
        Ok(low + 0x1_0000 * high)
    }

    fn u64(&mut self) -> (r: Result<u64, GgufError>)
        requires
            old(self).wf(),
        ensures
            final(self).stays_in(*old(self)),
            match r {
                Ok(v) => u64_at(old(self).image@, old(self).pos as int) == Ok::<_, Fault>(
                    (v, final(self).pos as int),
                ),
                Err(e) => u64_at(old(self).image@, old(self).pos as int) == Err::<(u64, int), _>(
                    e@,
                ),
            },
    {
        if self.left() < 8 {
            return Err(GgufError::Truncated);
        }
        let low: u64 = match self.u32() {
            Ok(v) => v as u64,
            Err(e) => {
                return Err(e);
            },
        };
        let high: u64 = match self.u32() {
            Ok(v) => v as u64,
            Err(e) => {
                return Err(e);
            },
        };
        Ok(low + 0x1_0000_0000 * high)
    }

    fn string(&mut self) -> (r: Result<String, GgufError>)
        requires
            old(self).wf(),
        ensures
            final(self).stays_in(*old(self)),
            match r {
                Ok(v) => string_at(old(self).image@, old(self).pos as int) == Ok::<_, Fault>(
                    (v@, final(self).pos as int),
                ),
                Err(e) => string_at(old(self).image@, old(self).pos as int) == Err::<
                    (Seq<char>, int),
                    _,
                >(e@),
            },
    {
        let n: u64 = match self.u64() {
            Ok(n) => n,
            Err(e) => {
                return Err(e);
            },
        };
        if n > LONGEST_STRING {
            return Err(GgufError::StringLength(n));
        }
        let n: usize = n as usize;
        let left: usize = self.left();
        if left < n {
            return Err(GgufError::Truncated);
        }
        let end: usize = self.image.len() - (left - n);
        let raw = vstd::slice::slice_subrange(self.image, self.pos, end);
        let s = text::decode(raw);
        self.pos = end;
        Ok(s)
    }

    fn value(&mut self, tag: u32) -> (r: Result<MetaValue, GgufError>)
        requires
            old(self).wf(),
        ensures
            final(self).stays_in(*old(self)),
            match r {
                Ok(v) => value_at(old(self).image@, old(self).pos as int, tag) == Ok::<_, Fault>(
                    (v.datum(), final(self).pos as int),
                ),
                Err(e) => value_at(old(self).image@, old(self).pos as int, tag) == Err::<
                    (Datum, int),
                    _,
                >(e@),
            },
        decreases old(self).image@.len() - old(self).pos, 1nat,
    {
        match tag {
            0 => match self.u8() {
                Ok(v) => Ok(MetaValue::U8(v)),
                Err(e) => Err(e),
            },
            1 => match self.u8() {
                Ok(v) => Ok(MetaValue::I8(two_complement(v as i128, 0x100) as i8)),
                Err(e) => Err(e),
            },
            2 => match self.u16() {
                Ok(v) => Ok(MetaValue::U16(v)),
                Err(e) => Err(e),
            },
            3 => match self.u16() {
                Ok(v) => Ok(MetaValue::I16(two_complement(v as i128, 0x1_0000) as i16)),
                Err(e) => Err(e),
            },
            4 => match self.u32() {
                Ok(v) => Ok(MetaValue::U32(v)),
                Err(e) => Err(e),
            },
            5 => match self.u32() {
                Ok(v) => Ok(MetaValue::I32(two_complement(v as i128, 0x1_0000_0000) as i32)),
                Err(e) => Err(e),
            },
            6 => match self.u32() {
                Ok(v) => Ok(MetaValue::F32(v)),
                Err(e) => Err(e),
            },
            7 => match self.u8() {
                Ok(v) => Ok(MetaValue::Bool(v != 0)),
                Err(e) => Err(e),
            },
            8 => match self.string() {
                Ok(v) => Ok(MetaValue::Str(v)),
                Err(e) => Err(e),
            },
            9 => self.array(),
            10 => match self.u64() {
                Ok(v) => Ok(MetaValue::U64(v)),
                Err(e) => Err(e),
            },
            11 => match self.u64() {
                Ok(v) => Ok(
                    MetaValue::I64(two_complement(v as i128, 0x1_0000_0000_0000_0000) as i64),
                ),
                Err(e) => Err(e),
            },
            12 => match self.u64() {
                Ok(v) => Ok(MetaValue::F64(v)),
                Err(e) => Err(e),
            },
            other => Err(GgufError::Tag(other)),
        }
    }

    fn array(&mut self) -> (r: Result<MetaValue, GgufError>)
        requires
            old(self).wf(),
        ensures
            final(self).stays_in(*old(self)),
            match r {
                Ok(v) => value_at(old(self).image@, old(self).pos as int, 9) == Ok::<_, Fault>(
                    (v.datum(), final(self).pos as int),
                ),
                Err(e) => value_at(old(self).image@, old(self).pos as int, 9) == Err::<
                    (Datum, int),
                    _,
                >(e@),
            },
        decreases old(self).image@.len() - old(self).pos, 0nat,
    {
        let ghost b = self.image@;
        let ghost start = self.pos as int;
        let elem: u32 = match self.u32() {
            Ok(v) => v,
            Err(e) => {
                return Err(e);
            },
        };
        let n: u64 = match self.u64() {
            Ok(v) => v,
            Err(e) => {
                return Err(e);
            },
        };
        let mut items: Vec<MetaValue> = Vec::new();
        let mut i: u64 = 0;
        let ghost from = start + 12;
        assert(data(items@) =~= Seq::<Datum>::empty());
        while i < n
            invariant
                self.image == old(self).image,
                b == self.image@,
                start == old(self).pos,
                from == start + 12,
                from <= self.pos <= b.len(),
                i <= n,
                u32_at(b, start) == Ok::<_, Fault>((elem, start + 4)),
                u64_at(b, start + 4) == Ok::<_, Fault>((n, start + 12)),
                values_at(b, from, elem, i as nat) == Ok::<_, Fault>((data(items@), self.pos as int)),
            decreases n - i,
        {
            let ghost at = self.pos as int;
            proof {
                lemma_value_advances(b, at, elem);
                assert((i + 1) as nat - 1 == i as nat);
            }
            match self.value(elem) {
                Ok(v) => {
                    assert(data(items@.push(v)) =~= data(items@).push(v.datum()));
                    items.push(v);
                },
                Err(e) => {
                    proof {
                        lemma_values_stop(b, from, elem, (i + 1) as nat, n as nat);
                    }
                    return Err(e);
                },
            }
            i = i + 1;
        }
        let r = MetaValue::Array(items);
        assert(r.datum()->Array_0 =~= data(items@));
        Ok(r)
    }

    fn dims(&mut self, n: u32) -> (r: Result<Vec<u64>, GgufError>)
        requires
            old(self).wf(),
        ensures
            final(self).stays_in(*old(self)),
            match r {
                Ok(v) => dims_at(old(self).image@, old(self).pos as int, n as nat) == Ok::<
                    _,
                    Fault,
                >((v@, final(self).pos as int)),
                Err(e) => dims_at(old(self).image@, old(self).pos as int, n as nat) == Err::<
                    (Seq<u64>, int),
                    _,
                >(e@),
            },
    {
        let ghost b = self.image@;
        let ghost start = self.pos as int;
        let mut dims: Vec<u64> = Vec::new();
        let mut i: u32 = 0;
        while i < n
            invariant
                self.image == old(self).image,
                b == self.image@,
                self.wf(),
                start == old(self).pos,
                i <= n,
                dims_at(b, start, i as nat) == Ok::<_, Fault>((dims@, self.pos as int)),
            decreases n - i,
        {
            assert((i + 1) as nat - 1 == i as nat);
            match self.u64() {
                Ok(v) => {
                    dims.push(v);
                },
                Err(e) => {
                    proof {
                        lemma_dims_stop(b, start, (i + 1) as nat, n as nat);
                    }
                    return Err(e);
                },
            }
            i = i + 1;
        }
        Ok(dims)
    }

    fn tensor(&mut self) -> (r: Result<TensorInfo, GgufError>)
        requires
            old(self).wf(),
        ensures
            final(self).stays_in(*old(self)),
            match r {
                Ok(v) => tensor_at(old(self).image@, old(self).pos as int) == Ok::<_, Fault>(
                    (v@, final(self).pos as int),
                ),
                Err(e) => tensor_at(old(self).image@, old(self).pos as int) == Err::<
                    (Tensor, int),
                    _,
                >(e@),
            },
    {
        let name = match self.string() {
            Ok(v) => v,
            Err(e) => {
                return Err(e);
            },
        };
        let n_dims: u32 = match self.u32() {
            Ok(v) => v,
            Err(e) => {
                return Err(e);
            },
        };
        if n_dims > MOST_DIMENSIONS {
            return Err(GgufError::Dimensions { name, n_dims });
        }
        let dims = match self.dims(n_dims) {
            Ok(v) => v,
            Err(e) => {
                return Err(e);
            },
        };
        let kind = match self.u32() {
            Ok(v) => GgmlType::from_id(v),
            Err(e) => {
                return Err(e);
            },
        };
        match self.u64() {
            Ok(offset) => Ok(TensorInfo { name, dims, kind, offset }),
            Err(e) => Err(e),
        }
    }

    fn tensors(&mut self, n: u64) -> (r: Result<Vec<TensorInfo>, GgufError>)
        requires
            old(self).wf(),
        ensures
            final(self).stays_in(*old(self)),
            match r {
                Ok(v) => tensors_at(old(self).image@, old(self).pos as int, n as nat) == Ok::<
                    _,
                    Fault,
                >((crate::gguf::shapes(v@), final(self).pos as int)),
                Err(e) => tensors_at(old(self).image@, old(self).pos as int, n as nat) == Err::<
                    (Seq<Tensor>, int),
                    _,
                >(e@),
            },
    {
        let ghost b = self.image@;
        let ghost start = self.pos as int;
        let mut list: Vec<TensorInfo> = Vec::new();
        let mut i: u64 = 0;
        assert(crate::gguf::shapes(list@) =~= Seq::<Tensor>::empty());
        while i < n
            invariant
                self.image == old(self).image,
                b == self.image@,
                self.wf(),
                start == old(self).pos,
                i <= n,
                tensors_at(b, start, i as nat) == Ok::<_, Fault>(
                    (crate::gguf::shapes(list@), self.pos as int),
                ),
            decreases n - i,
        {
            assert((i + 1) as nat - 1 == i as nat);
            match self.tensor() {
                Ok(v) => {
                    assert(crate::gguf::shapes(list@.push(v)) =~= crate::gguf::shapes(
                        list@,
                    ).push(v@));
                    list.push(v);
                },
                Err(e) => {
                    proof {
                        lemma_tensors_stop(b, start, (i + 1) as nat, n as nat);
                    }
                    return Err(e);
                },
            }
            i = i + 1;
        }
        Ok(list)
    }

    fn fields(&mut self, n: u64) -> (r: Result<Metadata, GgufError>)
        requires
            old(self).wf(),
        ensures
            final(self).stays_in(*old(self)),
            match r {
                Ok(v) => fields_at(old(self).image@, old(self).pos as int, n as nat) == Ok::<
                    _,
                    Fault,
                >((v@, final(self).pos as int)) && crate::gguf::keys_distinct(v.entries@),
                Err(e) => fields_at(old(self).image@, old(self).pos as int, n as nat) == Err::<
                    (Map<Seq<char>, Datum>, int),
                    _,
                >(e@),
            },
    {
        let ghost b = self.image@;
        let ghost start = self.pos as int;
        let mut metadata = Metadata::new();
        let mut i: u64 = 0;
        while i < n
            invariant
                self.image == old(self).image,
                b == self.image@,
                self.wf(),
                start == old(self).pos,
                i <= n,
                crate::gguf::keys_distinct(metadata.entries@),
                fields_at(b, start, i as nat) == Ok::<_, Fault>((metadata@, self.pos as int)),
            decreases n - i,
        {
            assert((i + 1) as nat - 1 == i as nat);
            let key = match self.string() {
                Ok(v) => v,
                Err(e) => {
                    proof {
                        lemma_fields_stop(b, start, (i + 1) as nat, n as nat);
                    }
                    return Err(e);
                },
            };
            let tag: u32 = match self.u32() {
                Ok(v) => v,
                Err(e) => {
                    proof {
                        lemma_fields_stop(b, start, (i + 1) as nat, n as nat);
                    }
                    return Err(e);
                },
            };
            match self.value(tag) {
                Ok(v) => {
                    metadata.insert(key, v);
                },
                Err(e) => {
                    proof {
                        lemma_fields_stop(b, start, (i + 1) as nat, n as nat);
                    }
                    return Err(e);
                },
            }
            i = i + 1;
        }
        Ok(metadata)
    }
}

/// What the values of a list are.
spec fn data(s: Seq<MetaValue>) -> Seq<Datum> {
    Seq::new(s.len(), |i: int| s[i].datum())
}

proof fn lemma_boundary_fits(pos: int, step: int)
    requires
        0 <= pos <= i64::MAX,
        0 < step <= u64::MAX,
    ensures
        0 <= pos % step <= pos,
        next_boundary(pos, step) <= u64::MAX,
{
    if step > pos {
        vstd::arithmetic::div_mod::lemma_small_mod(pos as nat, step as nat);
    } else {
        vstd::arithmetic::div_mod::lemma_mod_bound(pos, step);
    }
}

fn two_complement(n: i128, span: i128) -> (r: i128)
    requires
        0 <= n < span <= 0x1_0000_0000_0000_0000,
    ensures
        r == signed(n as int, span as int),
{
    if 2 * n >= span {
        n - span
    } else {
        n
    }
}

impl Gguf {
    /// Reads what a file declares from its first bytes. `file_size` is the
    /// length of the whole file.
    ///
    /// [`GgufError::Truncated`] comes where the bytes end before the index
    /// does: more of the file may hold the rest.
    pub fn open(image: &[u8], file_size: u64) -> (r: Result<Gguf, GgufError>)
        requires
            image@.len() <= isize::MAX,
        ensures
            match r {
                Ok(g) => {
                    &&& declared(image@) matches Ok(d)
                    &&& g.version == d.version
                    &&& g.metadata@ == d.metadata
                    &&& crate::gguf::shapes(g.tensors@) == d.tensors
                    &&& g.data_offset == d.data_offset
                    &&& g.file_size == file_size
                    &&& crate::gguf::keys_distinct(g.metadata.entries@)
                },
                Err(e) => declared(image@) == Err::<Declared, _>(e@),
            },
    {
        if image.len() < 4 {
            return Err(GgufError::Truncated);
        }
        if !(image[0] == 0x47 && image[1] == 0x47 && image[2] == 0x55 && image[3] == 0x46) {
            return Err(GgufError::Magic(image[0], image[1], image[2], image[3]));
        }
        let mut cur = Cursor { image, pos: 4 };
        let version: u32 = match cur.u32() {
            Ok(v) => v,
            Err(e) => {
                return Err(e);
            },
        };
        if version < 2 || version > 3 {
            return Err(GgufError::Version(version));
        }
        let tensor_count: u64 = match cur.u64() {
            Ok(v) => v,
            Err(e) => {
                return Err(e);
            },
        };
        let field_count: u64 = match cur.u64() {
            Ok(v) => v,
            Err(e) => {
                return Err(e);
            },
        };
        let metadata = match cur.fields(field_count) {
            Ok(v) => v,
            Err(e) => {
                return Err(e);
            },
        };
        let tensors = match cur.tensors(tensor_count) {
            Ok(v) => v,
            Err(e) => {
                return Err(e);
            },
        };
        let step: u64 = match metadata.get("general.alignment") {
            Some(v) => match v.as_u64() {
                Some(n) => n,
                None => DEFAULT_ALIGNMENT,
            },
            None => DEFAULT_ALIGNMENT,
        };
        if step == 0 {
            return Err(GgufError::Alignment);
        }
        let pos: u64 = cur.pos as u64;
        let over: u64 = pos % step;
        let data_offset: u64 = if over == 0 {
            pos
        } else {
            proof {
                lemma_boundary_fits(pos as int, step as int);
            }
            pos - over + step
        };
        Ok(Gguf { version, metadata, tensors, data_offset, file_size })
    }
}

// ---------------------------------------------------------------- laws

proof fn lemma_longer_numbers(b: Seq<u8>, more: Seq<u8>, pos: int)
    requires
        0 <= pos,
    ensures
        byte_at(b, pos) is Ok ==> byte_at(b + more, pos) == byte_at(b, pos),
        u16_at(b, pos) is Ok ==> u16_at(b + more, pos) == u16_at(b, pos),
        u32_at(b, pos) is Ok ==> u32_at(b + more, pos) == u32_at(b, pos),
        u64_at(b, pos) is Ok ==> u64_at(b + more, pos) == u64_at(b, pos),
{
}

proof fn lemma_longer_string(b: Seq<u8>, more: Seq<u8>, pos: int)
    requires
        0 <= pos,
        string_at(b, pos) != Err::<(Seq<char>, int), _>(Fault::Truncated),
    ensures
        string_at(b + more, pos) == string_at(b, pos),
        string_at(b, pos) matches Ok((_, p)) ==> pos < p <= b.len(),
{
    lemma_longer_numbers(b, more, pos);
    if let Ok((n, p)) = u64_at(b, pos) {
        if n <= LONGEST_STRING {
            assert((b + more).subrange(p, p + n) =~= b.subrange(p, p + n));
        }
    }
}

proof fn lemma_longer_value(b: Seq<u8>, more: Seq<u8>, pos: int, tag: u32)
    requires
        0 <= pos,
        value_at(b, pos, tag) != Err::<(Datum, int), _>(Fault::Truncated),
    ensures
        value_at(b + more, pos, tag) == value_at(b, pos, tag),
    decreases b.len() - pos, 0nat, 0nat,
{
    lemma_longer_numbers(b, more, pos);
    if tag == 8 {
        lemma_longer_string(b, more, pos);
    }
    if tag == 9 && pos + 12 <= b.len() {
        lemma_longer_numbers(b, more, pos + 4);
        lemma_longer_values(b, more, pos + 12, le4(b, pos) as u32, (le8(b, pos + 4) as u64) as nat);
    }
}

proof fn lemma_longer_values(b: Seq<u8>, more: Seq<u8>, pos: int, tag: u32, n: nat)
    requires
        0 <= pos <= b.len(),
        values_at(b, pos, tag, n) != Err::<(Seq<Datum>, int), _>(Fault::Truncated),
    ensures
        values_at(b + more, pos, tag, n) == values_at(b, pos, tag, n),
    decreases b.len() - pos, 1nat, n,
{
    if n > 0 {
        lemma_longer_values(b, more, pos, tag, (n - 1) as nat);
        lemma_values_advance(b, pos, tag, (n - 1) as nat);
        if let Ok((_, p)) = values_at(b, pos, tag, (n - 1) as nat) {
            lemma_longer_value(b, more, p, tag);
        }
    }
}

proof fn lemma_longer_field(b: Seq<u8>, more: Seq<u8>, pos: int)
    requires
        0 <= pos,
        field_at(b, pos) != Err::<(Seq<char>, Datum, int), _>(Fault::Truncated),
    ensures
        field_at(b + more, pos) == field_at(b, pos),
        field_at(b, pos) matches Ok((_, _, p)) ==> pos < p,
{
    lemma_longer_string(b, more, pos);
    if let Ok((_, p)) = string_at(b, pos) {
        lemma_longer_numbers(b, more, p);
        if let Ok((tag, q)) = u32_at(b, p) {
            lemma_longer_value(b, more, q, tag);
            lemma_value_advances(b, q, tag);
        }
    }
}

proof fn lemma_longer_fields(b: Seq<u8>, more: Seq<u8>, pos: int, n: nat)
    requires
        0 <= pos,
        fields_at(b, pos, n) != Err::<(Map<Seq<char>, Datum>, int), _>(Fault::Truncated),
    ensures
        fields_at(b + more, pos, n) == fields_at(b, pos, n),
        fields_at(b, pos, n) matches Ok((_, p)) ==> pos <= p,
    decreases n,
{
    if n > 0 {
        lemma_longer_fields(b, more, pos, (n - 1) as nat);
        if let Ok((_, p)) = fields_at(b, pos, (n - 1) as nat) {
            lemma_longer_field(b, more, p);
        }
    }
}

proof fn lemma_longer_dims(b: Seq<u8>, more: Seq<u8>, pos: int, n: nat)
    requires
        0 <= pos,
        dims_at(b, pos, n) is Ok,
    ensures
        dims_at(b + more, pos, n) == dims_at(b, pos, n),
        dims_at(b, pos, n) matches Ok((_, p)) ==> pos <= p,
    decreases n,
{
    if n > 0 {
        lemma_longer_dims(b, more, pos, (n - 1) as nat);
        if let Ok((_, p)) = dims_at(b, pos, (n - 1) as nat) {
            lemma_longer_numbers(b, more, p);
        }
    }
}

proof fn lemma_dims_only_run_out(b: Seq<u8>, pos: int, n: nat)
    ensures
        dims_at(b, pos, n) matches Err(e) ==> e is Truncated,
    decreases n,
{
    if n > 0 {
        lemma_dims_only_run_out(b, pos, (n - 1) as nat);
    }
}

proof fn lemma_longer_tensor(b: Seq<u8>, more: Seq<u8>, pos: int)
    requires
        0 <= pos,
        tensor_at(b, pos) != Err::<(Tensor, int), _>(Fault::Truncated),
    ensures
        tensor_at(b + more, pos) == tensor_at(b, pos),
        tensor_at(b, pos) matches Ok((_, p)) ==> pos < p,
{
    lemma_longer_string(b, more, pos);
    if let Ok((_, p)) = string_at(b, pos) {
        lemma_longer_numbers(b, more, p);
        if let Ok((n_dims, q)) = u32_at(b, p) {
            if n_dims <= MOST_DIMENSIONS {
                lemma_dims_only_run_out(b, q, n_dims as nat);
                lemma_longer_dims(b, more, q, n_dims as nat);
                if let Ok((_, r)) = dims_at(b, q, n_dims as nat) {
                    lemma_longer_numbers(b, more, r);
                    lemma_longer_numbers(b, more, r + 4);
                }
            }
        }
    }
}

proof fn lemma_longer_tensors(b: Seq<u8>, more: Seq<u8>, pos: int, n: nat)
    requires
        0 <= pos,
        tensors_at(b, pos, n) != Err::<(Seq<Tensor>, int), _>(Fault::Truncated),
    ensures
        tensors_at(b + more, pos, n) == tensors_at(b, pos, n),
    decreases n,
{
    if n > 0 {
        lemma_longer_tensors(b, more, pos, (n - 1) as nat);
        lemma_tensors_forward(b, pos, (n - 1) as nat);
        if let Ok((_, p)) = tensors_at(b, pos, (n - 1) as nat) {
            lemma_longer_tensor(b, more, p);
        }
    }
}

proof fn lemma_tensors_forward(b: Seq<u8>, pos: int, n: nat)
    requires
        0 <= pos,
    ensures
        tensors_at(b, pos, n) matches Ok((_, p)) ==> pos <= p,
    decreases n,
{
    if n > 0 {
        lemma_tensors_forward(b, pos, (n - 1) as nat);
        if let Ok((_, p)) = tensors_at(b, pos, (n - 1) as nat) {
            if tensor_at(b, p) is Ok {
                lemma_longer_tensor(b, Seq::empty(), p);
            }
        }
    }
}

/// What the first bytes of a file say does not change when more of the file is
/// at hand: a reading that did not run out of bytes stays as it is.
pub proof fn law_more_bytes_read_the_same(b: Seq<u8>, more: Seq<u8>)
    requires
        declared(b) != Err::<Declared, _>(Fault::Truncated),
    ensures
        declared(b + more) == declared(b),
{
    if b.len() >= 4 {
        assert(has_magic(b + more) == has_magic(b));
        lemma_longer_numbers(b, more, 4);
        lemma_longer_numbers(b, more, 8);
        lemma_longer_numbers(b, more, 16);
        if let Ok((_, tensor_count, field_count)) = header(b) {
            lemma_longer_fields(b, more, 24, field_count as nat);
            if let Ok((_, p)) = fields_at(b, 24, field_count as nat) {
                lemma_longer_tensors(b, more, p, tensor_count as nat);
            }
        }
    }
}

/// Tensor data begins at the next boundary: on a multiple of the alignment,
/// not before the end of the index, and less than one step behind it.
pub proof fn law_data_begins_at_the_next_boundary(pos: int, step: int)
    requires
        0 <= pos,
        0 < step,
    ensures
        next_boundary(pos, step) % step == 0,
        pos <= next_boundary(pos, step) < pos + step,
{
    vstd::arithmetic::div_mod::lemma_fundamental_div_mod(pos, step);
    vstd::arithmetic::div_mod::lemma_mod_bound(pos, step);
    let q = pos / step;
    vstd::arithmetic::div_mod::lemma_mod_multiples_basic(q, step);
    vstd::arithmetic::div_mod::lemma_mod_multiples_basic(q + 1, step);
    assert((q + 1) * step == step * q + step) by (nonlinear_arith);
    assert(q * step == step * q) by (nonlinear_arith);
}

} // verus!

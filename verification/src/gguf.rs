//! GGUF model files: what a file declares about the model it holds.
//!
//! The layout of the bytes is in [`crate::format`]; here are the values a file
//! declares, the questions asked of them, and the facts drawn from them.
use crate::text;
use vstd::prelude::*;

verus! {

// ---------------------------------------------------------------- quantisation

/// Quantisation of a stored tensor. Values are GGML's own type ids.
#[derive(Debug, Clone, Copy, PartialEq, Eq, Structural)]
pub enum GgmlType {
    F32,
    F16,
    Q4_0,
    Q4_1,
    Q5_0,
    Q5_1,
    Q8_0,
    Q8_1,
    Q2K,
    Q3K,
    Q4K,
    Q5K,
    Q6K,
    Q8K,
    BF16,
    Other(u32),
}

impl GgmlType {
    /// The type GGML gives an id to.
    pub open spec fn of_id(id: u32) -> GgmlType {
        if id == 0 {
            GgmlType::F32
        } else if id == 1 {
            GgmlType::F16
        } else if id == 2 {
            GgmlType::Q4_0
        } else if id == 3 {
            GgmlType::Q4_1
        } else if id == 6 {
            GgmlType::Q5_0
        } else if id == 7 {
            GgmlType::Q5_1
        } else if id == 8 {
            GgmlType::Q8_0
        } else if id == 9 {
            GgmlType::Q8_1
        } else if id == 10 {
            GgmlType::Q2K
        } else if id == 11 {
            GgmlType::Q3K
        } else if id == 12 {
            GgmlType::Q4K
        } else if id == 13 {
            GgmlType::Q5K
        } else if id == 14 {
            GgmlType::Q6K
        } else if id == 15 {
            GgmlType::Q8K
        } else if id == 30 {
            GgmlType::BF16
        } else {
            GgmlType::Other(id)
        }
    }

    /// Reads a type id.
    pub fn from_id(id: u32) -> (r: GgmlType)
        ensures
            r == GgmlType::of_id(id),
    {
        match id {
            0 => GgmlType::F32,
            1 => GgmlType::F16,
            2 => GgmlType::Q4_0,
            3 => GgmlType::Q4_1,
            6 => GgmlType::Q5_0,
            7 => GgmlType::Q5_1,
            8 => GgmlType::Q8_0,
            9 => GgmlType::Q8_1,
            10 => GgmlType::Q2K,
            11 => GgmlType::Q3K,
            12 => GgmlType::Q4K,
            13 => GgmlType::Q5K,
            14 => GgmlType::Q6K,
            15 => GgmlType::Q8K,
            30 => GgmlType::BF16,
            other => GgmlType::Other(other),
        }
    }

    /// The name GGML writes the type by.
    pub open spec fn title(self) -> Seq<char> {
        match self {
            GgmlType::F32 => "F32"@,
            GgmlType::F16 => "F16"@,
            GgmlType::Q4_0 => "Q4_0"@,
            GgmlType::Q4_1 => "Q4_1"@,
            GgmlType::Q5_0 => "Q5_0"@,
            GgmlType::Q5_1 => "Q5_1"@,
            GgmlType::Q8_0 => "Q8_0"@,
            GgmlType::Q8_1 => "Q8_1"@,
            GgmlType::Q2K => "Q2_K"@,
            GgmlType::Q3K => "Q3_K"@,
            GgmlType::Q4K => "Q4_K"@,
            GgmlType::Q5K => "Q5_K"@,
            GgmlType::Q6K => "Q6_K"@,
            GgmlType::Q8K => "Q8_K"@,
            GgmlType::BF16 => "BF16"@,
            GgmlType::Other(id) => "type"@ + text::decimal(id as nat),
        }
    }

    /// The name GGML writes the type by.
    pub fn name(&self) -> (r: String)
        ensures
            r@ == self.title(),
    {
        match self {
            GgmlType::F32 => "F32".to_owned(),
            GgmlType::F16 => "F16".to_owned(),
            GgmlType::Q4_0 => "Q4_0".to_owned(),
            GgmlType::Q4_1 => "Q4_1".to_owned(),
            GgmlType::Q5_0 => "Q5_0".to_owned(),
            GgmlType::Q5_1 => "Q5_1".to_owned(),
            GgmlType::Q8_0 => "Q8_0".to_owned(),
            GgmlType::Q8_1 => "Q8_1".to_owned(),
            GgmlType::Q2K => "Q2_K".to_owned(),
            GgmlType::Q3K => "Q3_K".to_owned(),
            GgmlType::Q4K => "Q4_K".to_owned(),
            GgmlType::Q5K => "Q5_K".to_owned(),
            GgmlType::Q6K => "Q6_K".to_owned(),
            GgmlType::Q8K => "Q8_K".to_owned(),
            GgmlType::BF16 => "BF16".to_owned(),
            GgmlType::Other(id) => {
                let mut s = "type".to_owned();
                let n = text::number(*id as u64);
                s.append(n.as_str());
                s
            },
        }
    }

    /// Elements and bytes per block, where the layout is known.
    pub open spec fn layout(self) -> Option<(usize, usize)> {
        match self {
            GgmlType::F32 => Some((1, 4)),
            GgmlType::F16 | GgmlType::BF16 => Some((1, 2)),
            GgmlType::Q4_0 => Some((32, 18)),
            GgmlType::Q4_1 => Some((32, 20)),
            GgmlType::Q5_0 => Some((32, 22)),
            GgmlType::Q5_1 => Some((32, 24)),
            GgmlType::Q8_0 => Some((32, 34)),
            GgmlType::Q8_1 => Some((32, 36)),
            GgmlType::Q2K => Some((256, 84)),
            GgmlType::Q3K => Some((256, 110)),
            GgmlType::Q4K => Some((256, 144)),
            GgmlType::Q5K => Some((256, 176)),
            GgmlType::Q6K => Some((256, 210)),
            GgmlType::Q8K => Some((256, 292)),
            GgmlType::Other(_) => None,
        }
    }

    /// (elements per block, bytes per block). k-quants use 256-element blocks.
    pub fn block(&self) -> (r: Option<(usize, usize)>)
        ensures
            r == self.layout(),
    {
        match self {
            GgmlType::F32 => Some((1, 4)),
            GgmlType::F16 | GgmlType::BF16 => Some((1, 2)),
            GgmlType::Q4_0 => Some((32, 18)),
            GgmlType::Q4_1 => Some((32, 20)),
            GgmlType::Q5_0 => Some((32, 22)),
            GgmlType::Q5_1 => Some((32, 24)),
            GgmlType::Q8_0 => Some((32, 34)),
            GgmlType::Q8_1 => Some((32, 36)),
            GgmlType::Q2K => Some((256, 84)),
            GgmlType::Q3K => Some((256, 110)),
            GgmlType::Q4K => Some((256, 144)),
            GgmlType::Q5K => Some((256, 176)),
            GgmlType::Q6K => Some((256, 210)),
            GgmlType::Q8K => Some((256, 292)),
            GgmlType::Other(_) => None,
        }
    }
}

// ---------------------------------------------------------------- metadata

/// A metadata value. GGUF's own type tags, kept lossless: the two floating
/// point tags are held as the bit patterns the file stores.
#[derive(Debug)]
pub enum MetaValue {
    U8(u8),
    I8(i8),
    U16(u16),
    I16(i16),
    U32(u32),
    I32(i32),
    F32(u32),
    Bool(bool),
    Str(String),
    Array(Vec<MetaValue>),
    U64(u64),
    I64(i64),
    F64(u64),
}

/// What a metadata value is.
pub enum Datum {
    U8(u8),
    I8(i8),
    U16(u16),
    I16(i16),
    U32(u32),
    I32(i32),
    F32(u32),
    Bool(bool),
    Str(Seq<char>),
    Array(Seq<Datum>),
    U64(u64),
    I64(i64),
    F64(u64),
}

/// A number read as a real: a single or a double by its bit pattern, or a
/// whole number.
#[derive(Debug, Clone, Copy, PartialEq, Eq, Structural)]
pub enum Real {
    Single(u32),
    Double(u64),
    Whole(u64),
}

/// A signed number read as an unsigned one of 64 bits, by its two's complement.
pub open spec fn unsigned(v: int) -> u64 {
    if v < 0 {
        (v + 0x1_0000_0000_0000_0000) as u64
    } else {
        v as u64
    }
}

impl Datum {
    /// The number an integer of any width stands for.
    pub open spec fn whole(self) -> Option<u64> {
        match self {
            Datum::U8(v) => Some(v as u64),
            Datum::I8(v) => Some(unsigned(v as int)),
            Datum::U16(v) => Some(v as u64),
            Datum::I16(v) => Some(unsigned(v as int)),
            Datum::U32(v) => Some(v as u64),
            Datum::I32(v) => Some(unsigned(v as int)),
            Datum::U64(v) => Some(v),
            Datum::I64(v) => Some(unsigned(v as int)),
            _ => None,
        }
    }

    pub open spec fn number(self) -> Option<Real> {
        match self {
            Datum::F32(v) => Some(Real::Single(v)),
            Datum::F64(v) => Some(Real::Double(v)),
            _ => match self.whole() {
                Some(v) => Some(Real::Whole(v)),
                None => None,
            },
        }
    }

    pub open spec fn text(self) -> Option<Seq<char>> {
        match self {
            Datum::Str(s) => Some(s),
            _ => None,
        }
    }

    pub open spec fn count(self) -> Option<nat> {
        match self {
            Datum::Array(v) => Some(v.len()),
            _ => None,
        }
    }
}

impl MetaValue {
    /// What the value is.
    pub open spec fn datum(self) -> Datum
        decreases self,
    {
        match self {
            MetaValue::U8(v) => Datum::U8(v),
            MetaValue::I8(v) => Datum::I8(v),
            MetaValue::U16(v) => Datum::U16(v),
            MetaValue::I16(v) => Datum::I16(v),
            MetaValue::U32(v) => Datum::U32(v),
            MetaValue::I32(v) => Datum::I32(v),
            MetaValue::F32(v) => Datum::F32(v),
            MetaValue::Bool(v) => Datum::Bool(v),
            MetaValue::Str(s) => Datum::Str(s@),
            MetaValue::Array(v) => Datum::Array(
                Seq::new(
                    v@.len(),
                    |i: int|
                        if 0 <= i < v@.len() {
                            v@[i].datum()
                        } else {
                            Datum::Bool(false)
                        },
                ),
            ),
            MetaValue::U64(v) => Datum::U64(v),
            MetaValue::I64(v) => Datum::I64(v),
            MetaValue::F64(v) => Datum::F64(v),
        }
    }

    /// The number an integer of any width stands for. A negative one is read
    /// by its two's complement.
    pub fn as_u64(&self) -> (r: Option<u64>)
        ensures
            r == self.datum().whole(),
    {
        match self {
            MetaValue::U8(v) => Some(*v as u64),
            MetaValue::I8(v) => Some(widen(*v as i64)),
            MetaValue::U16(v) => Some(*v as u64),
            MetaValue::I16(v) => Some(widen(*v as i64)),
            MetaValue::U32(v) => Some(*v as u64),
            MetaValue::I32(v) => Some(widen(*v as i64)),
            MetaValue::U64(v) => Some(*v),
            MetaValue::I64(v) => Some(widen(*v)),
            _ => None,
        }
    }

    /// The number a floating point value or an integer stands for.
    pub fn as_f64(&self) -> (r: Option<Real>)
        ensures
            r == self.datum().number(),
    {
        match self {
            MetaValue::F32(v) => Some(Real::Single(*v)),
            MetaValue::F64(v) => Some(Real::Double(*v)),
            _ => match self.as_u64() {
                Some(v) => Some(Real::Whole(v)),
                None => None,
            },
        }
    }

    /// The text of a string value.
    pub fn as_str(&self) -> (r: Option<&str>)
        ensures
            r is Some == self.datum().text() is Some,
            r matches Some(s) ==> self.datum().text() == Some(s@),
    {
        match self {
            MetaValue::Str(s) => Some(s.as_str()),
            _ => None,
        }
    }

    /// How many items an array value holds.
    pub fn len(&self) -> (r: Option<usize>)
        ensures
            r is Some == self.datum().count() is Some,
            r matches Some(n) ==> self.datum().count() == Some(n as nat),
    {
        match self {
            MetaValue::Array(v) => Some(v.len()),
            _ => None,
        }
    }
}

fn widen(v: i64) -> (r: u64)
    ensures
        r == unsigned(v as int),
{
    if v < 0 {
        (v as i128 + 0x1_0000_0000_0000_0000) as u64
    } else {
        v as u64
    }
}

/// One metadata field.
#[derive(Debug)]
pub struct Entry {
    pub key: String,
    pub value: MetaValue,
}

/// The metadata fields of a file, by key. A key set twice keeps its last value.
#[derive(Debug)]
pub struct Metadata {
    pub entries: Vec<Entry>,
}

/// What a list of fields says of each key.
pub open spec fn fields(s: Seq<Entry>) -> Map<Seq<char>, Datum>
    decreases s.len(),
{
    if s.len() == 0 {
        Map::empty()
    } else {
        fields(s.drop_last()).insert(s.last().key@, s.last().value.datum())
    }
}

/// No key occurs twice.
pub open spec fn keys_distinct(s: Seq<Entry>) -> bool {
    forall|i: int, j: int| 0 <= i < j < s.len() ==> s[i].key@ != s[j].key@
}

impl View for Metadata {
    type V = Map<Seq<char>, Datum>;

    open spec fn view(&self) -> Map<Seq<char>, Datum> {
        fields(self.entries@)
    }
}

proof fn lemma_fields(s: Seq<Entry>, i: int)
    requires
        0 <= i < s.len(),
        forall|j: int| i < j < s.len() ==> s[j].key@ != s[i].key@,
    ensures
        fields(s).dom().contains(s[i].key@),
        fields(s)[s[i].key@] == s[i].value.datum(),
    decreases s.len(),
{
    if i < s.len() - 1 {
        assert(s.drop_last()[i] == s[i]);
        lemma_fields(s.drop_last(), i);
    }
}

proof fn lemma_fields_absent(s: Seq<Entry>, key: Seq<char>)
    requires
        forall|j: int| 0 <= j < s.len() ==> s[j].key@ != key,
    ensures
        !fields(s).dom().contains(key),
    decreases s.len(),
{
    if s.len() > 0 {
        lemma_fields_absent(s.drop_last(), key);
    }
}

proof fn lemma_fields_update(s: Seq<Entry>, i: int, e: Entry)
    requires
        0 <= i < s.len(),
        e.key@ == s[i].key@,
        forall|j: int| i < j < s.len() ==> s[j].key@ != e.key@,
    ensures
        fields(s.update(i, e)) == fields(s).insert(e.key@, e.value.datum()),
    decreases s.len(),
{
    let t = s.update(i, e);
    if i == s.len() - 1 {
        assert(t.drop_last() =~= s.drop_last());
        assert(fields(t) =~= fields(s).insert(e.key@, e.value.datum()));
    } else {
        lemma_fields_update(s.drop_last(), i, e);
        assert(t.drop_last() =~= s.drop_last().update(i, e));
        assert(fields(t) =~= fields(s).insert(e.key@, e.value.datum()));
    }
}

impl Metadata {
    /// No fields.
    pub fn new() -> (r: Metadata)
        ensures
            r@ == Map::<Seq<char>, Datum>::empty(),
            keys_distinct(r.entries@),
    {
        Metadata { entries: Vec::new() }
    }

    /// Where a key stands, looking from the end.
    fn position(&self, key: &str) -> (r: Option<usize>)
        ensures
            match r {
                Some(i) => i < self.entries@.len() && self.entries@[i as int].key@ == key@
                    && forall|j: int| i < j < self.entries@.len() ==> self.entries@[j].key@ != key@,
                None => forall|j: int|
                    0 <= j < self.entries@.len() ==> self.entries@[j].key@ != key@,
            },
    {
        let mut i: usize = self.entries.len();
        while i > 0
            invariant
                i <= self.entries@.len(),
                forall|j: int| i <= j < self.entries@.len() ==> self.entries@[j].key@ != key@,
            decreases i,
        {
            i = i - 1;
            if text::same(self.entries[i].key.as_str(), key) {
                return Some(i);
            }
        }
        None
    }

    /// The value a key is set to.
    pub fn get(&self, key: &str) -> (r: Option<&MetaValue>)
        ensures
            r is Some == self@.dom().contains(key@),
            r matches Some(v) ==> self@[key@] == v.datum(),
    {
        match self.position(key) {
            Some(i) => {
                proof {
                    lemma_fields(self.entries@, i as int);
                }
                Some(&self.entries[i].value)
            },
            None => {
                proof {
                    lemma_fields_absent(self.entries@, key@);
                }
                None
            },
        }
    }

    /// Sets a key, in place of what it was set to.
    pub fn insert(&mut self, key: String, value: MetaValue)
        ensures
            final(self)@ == old(self)@.insert(key@, value.datum()),
            keys_distinct(old(self).entries@) ==> keys_distinct(final(self).entries@),
    {
        match self.position(key.as_str()) {
            Some(i) => {
                let e = Entry { key, value };
                proof {
                    lemma_fields_update(self.entries@, i as int, e);
                }
                self.entries.set(i, e);
            },
            None => {
                let e = Entry { key, value };
                assert(self.entries@.push(e).drop_last() =~= self.entries@);
                self.entries.push(e);
            },
        }
    }
}

// ---------------------------------------------------------------- tensors

/// One tensor of the index.
#[derive(Debug)]
pub struct TensorInfo {
    pub name: String,
    pub dims: Vec<u64>,
    pub kind: GgmlType,
    /// Byte offset from the start of the tensor data section.
    pub offset: u64,
}

/// What a tensor is.
pub struct Tensor {
    pub name: Seq<char>,
    pub dims: Seq<u64>,
    pub kind: GgmlType,
    pub offset: u64,
}

impl View for TensorInfo {
    type V = Tensor;

    open spec fn view(&self) -> Tensor {
        Tensor { name: self.name@, dims: self.dims@, kind: self.kind, offset: self.offset }
    }
}

/// What a list of tensors is.
pub open spec fn shapes(s: Seq<TensorInfo>) -> Seq<Tensor> {
    Seq::new(s.len(), |i: int| s[i]@)
}

/// The product of the numbers of a list.
pub open spec fn product(dims: Seq<u64>) -> nat
    decreases dims.len(),
{
    if dims.len() == 0 {
        1
    } else {
        product(dims.drop_last()) * (dims.last() as nat)
    }
}

/// The product can be taken from left to right in 64 bits.
pub open spec fn multiplies(dims: Seq<u64>) -> bool {
    forall|k: int| 0 <= k <= dims.len() ==> #[trigger] product(dims.take(k)) <= u64::MAX
}

impl Tensor {
    /// How many elements the tensor has. One without dimensions, or with an
    /// empty one, counts as a single element.
    pub open spec fn elements(self) -> nat {
        if product(self.dims) == 0 {
            1
        } else {
            product(self.dims)
        }
    }

    /// Stored size in bytes, where the layout of the type is known. A last
    /// block that is not full does not count.
    pub open spec fn size(self) -> Option<nat> {
        match self.kind.layout() {
            Some((per_block, block_bytes)) => Some(
                (self.elements() / (per_block as nat)) * (block_bytes as nat),
            ),
            None => None,
        }
    }

    /// The stored size, or nothing where the layout is not known.
    pub open spec fn known_size(self) -> nat {
        match self.size() {
            Some(n) => n,
            None => 0,
        }
    }

    /// The stored size can be computed in 64 bits, if the layout is known.
    pub open spec fn sized(self) -> bool {
        self.kind.layout() is Some ==> multiplies(self.dims) && self.known_size() <= u64::MAX
    }
}

impl TensorInfo {
    /// How many elements the tensor has.
    pub fn elements(&self) -> (r: u64)
        requires
            multiplies(self.dims@),
        ensures
            r == self@.elements(),
    {
        let mut n: u64 = 1;
        let mut i: usize = 0;
        assert(self.dims@.take(0).len() == 0);
        while i < self.dims.len()
            invariant
                i <= self.dims@.len(),
                multiplies(self.dims@),
                n == product(self.dims@.take(i as int)),
            decreases self.dims@.len() - i,
        {
            proof {
                let longer = self.dims@.take(i + 1);
                assert(longer.drop_last() =~= self.dims@.take(i as int));
                assert(product(longer) <= u64::MAX);
            }
            n = n * self.dims[i];
            i = i + 1;
        }
        assert(self.dims@.take(i as int) =~= self.dims@);
        if n == 0 {
            1
        } else {
            n
        }
    }

    /// Stored size in bytes, or None for a type we do not know the layout of.
    pub fn bytes(&self) -> (r: Option<u64>)
        requires
            self@.sized(),
        ensures
            r is Some == self@.size() is Some,
            r matches Some(n) ==> self@.size() == Some(n as nat),
    {
        match self.kind.block() {
            Some((per_block, block_bytes)) => {
                let n = self.elements();
                Some((n / per_block as u64) * block_bytes as u64)
            },
            None => None,
        }
    }

    /// Whether the stored size can be computed in 64 bits.
    pub fn is_sized(&self) -> (r: bool)
        ensures
            r == self@.sized(),
    {
        match self.kind.block() {
            Some((per_block, block_bytes)) => {
                let mut n: u64 = 1;
                let mut i: usize = 0;
                assert(self.dims@.take(0).len() == 0);
                while i < self.dims.len()
                    invariant
                        i <= self.dims@.len(),
                        n == product(self.dims@.take(i as int)),
                        forall|k: int|
                            0 <= k <= i ==> #[trigger] product(self.dims@.take(k)) <= u64::MAX,
                        self.kind.layout() is Some,
                    decreases self.dims@.len() - i,
                {
                    let ghost longer = self.dims@.take(i + 1);
                    assert(longer.drop_last() =~= self.dims@.take(i as int));
                    assert(product(longer) == n * self.dims@[i as int]);
                    match n.checked_mul(self.dims[i]) {
                        Some(m) => {
                            n = m;
                        },
                        None => {
                            assert(product(self.dims@.take(i + 1)) > u64::MAX);
                            return false;
                        },
                    }
                    i = i + 1;
                }
                assert(self.dims@.take(i as int) =~= self.dims@);
                let blocks: u64 = (if n == 0 {
                    1
                } else {
                    n
                }) / per_block as u64;
                blocks.checked_mul(block_bytes as u64).is_some()
            },
            None => true,
        }
    }
}

/// The bytes of all tensors whose layout is known.
pub open spec fn total_size(s: Seq<Tensor>) -> nat
    decreases s.len(),
{
    if s.len() == 0 {
        0
    } else {
        total_size(s.drop_last()) + s.last().known_size()
    }
}

/// How many tensors have a type of this name.
pub open spec fn type_count(s: Seq<Tensor>, title: Seq<char>) -> nat
    decreases s.len(),
{
    if s.len() == 0 {
        0
    } else {
        type_count(s.drop_last(), title) + if s.last().kind.title() == title {
            1nat
        } else {
            0nat
        }
    }
}

/// The bytes of the tensors that have a type of this name.
pub open spec fn type_size(s: Seq<Tensor>, title: Seq<char>) -> nat
    decreases s.len(),
{
    if s.len() == 0 {
        0
    } else {
        type_size(s.drop_last(), title) + if s.last().kind.title() == title {
            s.last().known_size()
        } else {
            0nat
        }
    }
}

/// No type holds more than all types together.
pub proof fn law_a_type_is_part_of_the_whole(s: Seq<Tensor>, title: Seq<char>)
    ensures
        type_size(s, title) <= total_size(s),
        type_count(s, title) <= s.len(),
    decreases s.len(),
{
    if s.len() > 0 {
        law_a_type_is_part_of_the_whole(s.drop_last(), title);
    }
}

proof fn lemma_type_size_grows(s: Seq<Tensor>, title: Seq<char>, n: int)
    requires
        0 <= n <= s.len(),
    ensures
        type_size(s.take(n), title) <= type_size(s, title),
        total_size(s.take(n)) <= total_size(s),
    decreases s.len(),
{
    if n == s.len() {
        assert(s.take(n) =~= s);
    } else {
        lemma_type_size_grows(s.drop_last(), title, n);
        assert(s.drop_last().take(n) =~= s.take(n));
    }
}

// ---------------------------------------------------------------- files

/// What a model file declares.
#[derive(Debug)]
pub struct Gguf {
    pub version: u32,
    pub metadata: Metadata,
    pub tensors: Vec<TensorInfo>,
    /// Absolute offset where tensor data begins.
    pub data_offset: u64,
    pub file_size: u64,
}

/// The text a field is set to, where it is set to a text.
pub open spec fn text_field(m: Map<Seq<char>, Datum>, key: Seq<char>) -> Option<Seq<char>> {
    if m.dom().contains(key) {
        m[key].text()
    } else {
        None
    }
}

/// The architecture the fields name.
pub open spec fn arch_of(m: Map<Seq<char>, Datum>) -> Seq<char> {
    match text_field(m, "general.architecture"@) {
        Some(s) => s,
        None => "unknown"@,
    }
}

/// The name the fields give the model.
pub open spec fn name_of(m: Map<Seq<char>, Datum>) -> Seq<char> {
    match text_field(m, "general.name"@) {
        Some(s) => s,
        None => "unnamed"@,
    }
}

/// The key of a field scoped to the architecture.
pub open spec fn scoped_key(m: Map<Seq<char>, Datum>, suffix: Seq<char>) -> Seq<char> {
    arch_of(m) + "."@ + suffix
}

/// The value of a field scoped to the architecture.
pub open spec fn scoped(m: Map<Seq<char>, Datum>, suffix: Seq<char>) -> Option<Datum> {
    if m.dom().contains(scoped_key(m, suffix)) {
        Some(m[scoped_key(m, suffix)])
    } else {
        None
    }
}

/// The whole number a scoped field is set to.
pub open spec fn scoped_whole(m: Map<Seq<char>, Datum>, suffix: Seq<char>) -> Option<u64> {
    match scoped(m, suffix) {
        Some(d) => d.whole(),
        None => None,
    }
}

/// The number a scoped field is set to.
pub open spec fn scoped_number(m: Map<Seq<char>, Datum>, suffix: Seq<char>) -> Option<Real> {
    match scoped(m, suffix) {
        Some(d) => d.number(),
        None => None,
    }
}

/// The names of the tensors of a layer open with this.
pub open spec fn layer_prefix(layer: nat) -> Seq<char> {
    "blk."@ + text::decimal(layer) + "."@
}

/// The tensors of a layer, in the order of the index.
pub open spec fn layer_of(s: Seq<TensorInfo>, layer: nat) -> Seq<TensorInfo> {
    s.filter(|t: TensorInfo| text::starts(t.name@, layer_prefix(layer)))
}

/// A name stands before another: at the first character where they differ it
/// has the smaller one, or it is the beginning of the other.
pub open spec fn earlier(a: Seq<char>, b: Seq<char>) -> bool
    decreases a.len(),
{
    if b.len() == 0 {
        false
    } else if a.len() == 0 {
        true
    } else if a[0] != b[0] {
        (a[0] as u32) < (b[0] as u32)
    } else {
        earlier(a.drop_first(), b.drop_first())
    }
}

proof fn lemma_chars_have_numbers(x: char, y: char)
    requires
        x != y,
    ensures
        x as u32 != y as u32,
{
}

proof fn lemma_earlier_total(a: Seq<char>, b: Seq<char>)
    ensures
        a != b ==> earlier(a, b) || earlier(b, a),
        !(earlier(a, b) && earlier(b, a)),
    decreases a.len(),
{
    if a.len() == 0 || b.len() == 0 {
        if a.len() == b.len() {
            assert(a =~= b);
        }
    } else if a[0] == b[0] {
        lemma_earlier_total(a.drop_first(), b.drop_first());
        if a.drop_first() == b.drop_first() {
            assert(a =~= seq![a[0]] + a.drop_first());
            assert(b =~= seq![b[0]] + b.drop_first());
        }
    } else {
        lemma_chars_have_numbers(a[0], b[0]);
    }
}

proof fn lemma_earlier_chain(a: Seq<char>, b: Seq<char>, c: Seq<char>)
    requires
        earlier(a, b),
        earlier(b, c),
    ensures
        earlier(a, c),
    decreases a.len(),
{
    if a.len() > 0 && a[0] == b[0] && b[0] == c[0] {
        lemma_earlier_chain(a.drop_first(), b.drop_first(), c.drop_first());
    }
}

/// Whether a name stands before another.
fn is_earlier(a: &str, b: &str) -> (r: bool)
    ensures
        r == earlier(a@, b@),
{
    let x = text::chars_of(a);
    let y = text::chars_of(b);
    let mut i: usize = 0;
    assert(a@.skip(0) =~= a@);
    assert(b@.skip(0) =~= b@);
    while i < x.len() && i < y.len()
        invariant
            x@ == a@,
            y@ == b@,
            i <= x@.len(),
            i <= y@.len(),
            earlier(a@, b@) == earlier(a@.skip(i as int), b@.skip(i as int)),
        decreases x@.len() - i,
    {
        if x[i] != y[i] {
            return (x[i] as u32) < (y[i] as u32);
        }
        assert(a@.skip(i as int).drop_first() =~= a@.skip(i + 1));
        assert(b@.skip(i as int).drop_first() =~= b@.skip(i + 1));
        i = i + 1;
    }
    i < y.len()
}

/// A line of the table of types stands before another: it holds more bytes,
/// or as many under an earlier name.
pub open spec fn ahead(x: (String, usize, u64), y: (String, usize, u64)) -> bool {
    x.2 > y.2 || (x.2 == y.2 && earlier(x.0@, y.0@))
}

pub open spec fn in_order(s: Seq<(String, usize, u64)>) -> bool {
    forall|i: int, j: int| 0 <= i < j < s.len() ==> ahead(#[trigger] s[i], #[trigger] s[j])
}

/// A line has this name.
pub open spec fn named(s: Seq<(String, usize, u64)>, title: Seq<char>) -> bool {
    exists|i: int| 0 <= i < s.len() && (#[trigger] s[i]).0@ == title
}

/// A line counts the tensors of its type, and their bytes.
pub open spec fn tallies(line: (String, usize, u64), s: Seq<Tensor>) -> bool {
    &&& line.1 == type_count(s, line.0@)
    &&& line.2 == type_size(s, line.0@)
    &&& line.1 > 0
}

/// The names of the lines of a table of types.
pub open spec fn titles(s: Seq<(String, usize, u64)>) -> Seq<Seq<char>> {
    Seq::new(s.len(), |i: int| s[i].0@)
}

/// The tensors the lines of a table count together.
pub open spec fn lines_count(s: Seq<(String, usize, u64)>) -> nat
    decreases s.len(),
{
    if s.len() == 0 {
        0
    } else {
        lines_count(s.drop_last()) + s.last().1 as nat
    }
}

/// The bytes the lines of a table hold together.
pub open spec fn lines_size(s: Seq<(String, usize, u64)>) -> nat
    decreases s.len(),
{
    if s.len() == 0 {
        0
    } else {
        lines_size(s.drop_last()) + s.last().2 as nat
    }
}

/// The tensors, and their bytes, that have one of these types.
spec fn of_types(t: Seq<Tensor>, names: Seq<Seq<char>>) -> (nat, nat)
    decreases names.len(),
{
    if names.len() == 0 {
        (0, 0)
    } else {
        let (n, b) = of_types(t, names.drop_last());
        (n + type_count(t, names.last()), b + type_size(t, names.last()))
    }
}

proof fn lemma_not_earlier_than_itself(a: Seq<char>)
    ensures
        !earlier(a, a),
    decreases a.len(),
{
    if a.len() > 0 {
        lemma_not_earlier_than_itself(a.drop_first());
    }
}

proof fn lemma_one_more_of_types(t: Seq<Tensor>, names: Seq<Seq<char>>)
    requires
        t.len() > 0,
        names.no_duplicates(),
    ensures
        ({
            let (n, b) = of_types(t, names);
            let (m, c) = of_types(t.drop_last(), names);
            if names.contains(t.last().kind.title()) {
                n == m + 1 && b == c + t.last().known_size()
            } else {
                n == m && b == c
            }
        }),
    decreases names.len(),
{
    if names.len() > 0 {
        let title = t.last().kind.title();
        let rest = names.drop_last();
        lemma_one_more_of_types(t, rest);
        if rest.contains(title) {
            let k = choose|k: int| 0 <= k < rest.len() && rest[k] == title;
            assert(names[k] == title);
            assert(names.last() != title);
        } else if names.contains(title) {
            let k = choose|k: int| 0 <= k < names.len() && names[k] == title;
            if k < rest.len() {
                assert(rest[k] == title);
            }
            assert(names.last() == title);
        } else {
            assert(names[names.len() - 1] != title);
        }
    }
}

proof fn lemma_all_of_types(t: Seq<Tensor>, names: Seq<Seq<char>>)
    requires
        names.no_duplicates(),
        forall|k: int| 0 <= k < t.len() ==> names.contains((#[trigger] t[k]).kind.title()),
    ensures
        of_types(t, names) == (t.len(), total_size(t)),
    decreases t.len(),
{
    if t.len() > 0 {
        lemma_one_more_of_types(t, names);
        assert(names.contains(t[t.len() - 1].kind.title()));
        assert forall|k: int| 0 <= k < t.len() - 1 implies names.contains(
            (#[trigger] t.drop_last()[k]).kind.title(),
        ) by {
            assert(names.contains(t[k].kind.title()));
        }
        lemma_all_of_types(t.drop_last(), names);
    } else {
        lemma_none_of_types(t, names);
    }
}

proof fn lemma_none_of_types(t: Seq<Tensor>, names: Seq<Seq<char>>)
    requires
        t.len() == 0,
    ensures
        of_types(t, names) == (0nat, 0nat),
    decreases names.len(),
{
    if names.len() > 0 {
        lemma_none_of_types(t, names.drop_last());
    }
}

proof fn lemma_lines_are_of_types(s: Seq<(String, usize, u64)>, t: Seq<Tensor>)
    requires
        forall|i: int| 0 <= i < s.len() ==> tallies(#[trigger] s[i], t),
    ensures
        of_types(t, titles(s)) == (lines_count(s), lines_size(s)),
    decreases s.len(),
{
    if s.len() > 0 {
        assert(titles(s).drop_last() =~= titles(s.drop_last()));
        assert forall|i: int| 0 <= i < s.len() - 1 implies tallies(
            #[trigger] s.drop_last()[i],
            t,
        ) by {
            assert(tallies(s[i], t));
        }
        lemma_lines_are_of_types(s.drop_last(), t);
        assert(tallies(s[s.len() - 1], t));
    }
}

/// The table of types accounts for every tensor once: its counts add up to the
/// number of tensors, and its bytes to all that is stored.
pub proof fn law_the_types_add_up(s: Seq<(String, usize, u64)>, t: Seq<Tensor>)
    requires
        forall|i: int| 0 <= i < s.len() ==> tallies(#[trigger] s[i], t),
        in_order(s),
        forall|k: int| 0 <= k < t.len() ==> named(s, (#[trigger] t[k]).kind.title()),
    ensures
        lines_count(s) == t.len(),
        lines_size(s) == total_size(t),
{
    let names = titles(s);
    assert forall|i: int, j: int| 0 <= i < j < s.len() implies names[i] != names[j] by {
        assert(ahead(s[i], s[j]));
        assert(tallies(s[i], t) && tallies(s[j], t));
        lemma_not_earlier_than_itself(names[i]);
    }
    assert forall|k: int| 0 <= k < t.len() implies names.contains(
        (#[trigger] t[k]).kind.title(),
    ) by {
        assert(named(s, t[k].kind.title()));
        let i = choose|i: int| 0 <= i < s.len() && (#[trigger] s[i]).0@ == t[k].kind.title();
        assert(names[i] == t[k].kind.title());
    }
    lemma_all_of_types(t, names);
    lemma_lines_are_of_types(s, t);
}

impl Gguf {
    /// Every stored size, and their sum, can be computed in 64 bits.
    pub open spec fn measurable(&self) -> bool {
        &&& forall|i: int| 0 <= i < self.tensors@.len() ==> (#[trigger] self.tensors@[i])@.sized()
        &&& total_size(shapes(self.tensors@)) <= u64::MAX
    }

    /// Whether every stored size, and their sum, can be computed in 64 bits.
    pub fn is_measurable(&self) -> (r: bool)
        ensures
            r == self.measurable(),
    {
        let mut sum: u64 = 0;
        let mut i: usize = 0;
        let ghost all = shapes(self.tensors@);
        while i < self.tensors.len()
            invariant
                i <= self.tensors@.len(),
                all == shapes(self.tensors@),
                forall|k: int| 0 <= k < i ==> (#[trigger] self.tensors@[k])@.sized(),
                sum == total_size(all.take(i as int)),
            decreases self.tensors@.len() - i,
        {
            if !self.tensors[i].is_sized() {
                return false;
            }
            proof {
                assert(all.take(i + 1).drop_last() =~= all.take(i as int));
                lemma_type_size_grows(all, Seq::empty(), i + 1);
            }
            let n: u64 = match self.tensors[i].bytes() {
                Some(n) => n,
                None => 0,
            };
            match sum.checked_add(n) {
                Some(m) => {
                    sum = m;
                },
                None => {
                    return false;
                },
            }
            i = i + 1;
        }
        assert(all.take(i as int) =~= all);
        true
    }

    /// The architecture the file names.
    pub fn arch(&self) -> (r: &str)
        ensures
            r@ == arch_of(self.metadata@),
    {
        match self.metadata.get("general.architecture") {
            Some(v) => match v.as_str() {
                Some(s) => s,
                None => "unknown",
            },
            None => "unknown",
        }
    }

    /// The name the file gives the model.
    pub fn name(&self) -> (r: &str)
        ensures
            r@ == name_of(self.metadata@),
    {
        match self.metadata.get("general.name") {
            Some(v) => match v.as_str() {
                Some(s) => s,
                None => "unnamed",
            },
            None => "unnamed",
        }
    }

    /// Architecture-scoped metadata lookup, e.g. `key("block_count")`.
    pub fn key(&self, suffix: &str) -> (r: Option<&MetaValue>)
        ensures
            r is Some == scoped(self.metadata@, suffix@) is Some,
            r matches Some(v) ==> scoped(self.metadata@, suffix@) == Some(v.datum()),
    {
        let mut key = self.arch().to_owned();
        key.append(".");
        key.append(suffix);
        self.metadata.get(key.as_str())
    }

    /// The whole number a scoped field is set to.
    pub fn key_u64(&self, suffix: &str) -> (r: Option<u64>)
        ensures
            r == scoped_whole(self.metadata@, suffix@),
    {
        match self.key(suffix) {
            Some(v) => v.as_u64(),
            None => None,
        }
    }

    /// The number a scoped field is set to.
    pub fn key_f64(&self, suffix: &str) -> (r: Option<Real>)
        ensures
            r == scoped_number(self.metadata@, suffix@),
    {
        match self.key(suffix) {
            Some(v) => v.as_f64(),
            None => None,
        }
    }

    /// The first tensor of a name.
    pub fn tensor(&self, name: &str) -> (r: Option<&TensorInfo>)
        ensures
            match r {
                Some(t) => exists|i: int|
                    0 <= i < self.tensors@.len() && *t == #[trigger] self.tensors@[i] && t.name@
                        == name@ && forall|j: int|
                        0 <= j < i ==> (#[trigger] self.tensors@[j]).name@ != name@,
                None => forall|j: int|
                    0 <= j < self.tensors@.len() ==> (#[trigger] self.tensors@[j]).name@ != name@,
            },
    {
        let mut i: usize = 0;
        while i < self.tensors.len()
            invariant
                i <= self.tensors@.len(),
                forall|j: int| 0 <= j < i ==> (#[trigger] self.tensors@[j]).name@ != name@,
            decreases self.tensors@.len() - i,
        {
            if text::same(self.tensors[i].name.as_str(), name) {
                return Some(&self.tensors[i]);
            }
            i = i + 1;
        }
        None
    }

    /// Total stored bytes of all tensors whose layout we understand.
    pub fn tensor_bytes(&self) -> (r: u64)
        requires
            self.measurable(),
        ensures
            r == total_size(shapes(self.tensors@)),
    {
        let mut sum: u64 = 0;
        let mut i: usize = 0;
        let ghost all = shapes(self.tensors@);
        while i < self.tensors.len()
            invariant
                i <= self.tensors@.len(),
                self.measurable(),
                all == shapes(self.tensors@),
                sum == total_size(all.take(i as int)),
            decreases self.tensors@.len() - i,
        {
            proof {
                assert(all.take(i + 1).drop_last() =~= all.take(i as int));
                lemma_type_size_grows(all, Seq::empty(), i + 1);
            }
            if let Some(n) = self.tensors[i].bytes() {
                sum = sum + n;
            }
            i = i + 1;
        }
        assert(all.take(i as int) =~= all);
        sum
    }

    /// The per-layer prefix set, e.g. everything under `blk.0.`.
    pub fn layer_tensors(&self, layer: usize) -> (r: Vec<&TensorInfo>)
        ensures
            r@.len() == layer_of(self.tensors@, layer as nat).len(),
            forall|i: int|
                0 <= i < r@.len() ==> *(#[trigger] r@[i]) == layer_of(self.tensors@, layer as nat)[i],
    {
        let mut prefix = "blk.".to_owned();
        let n = text::number(layer as u64);
        prefix.append(n.as_str());
        prefix.append(".");
        let ghost all = self.tensors@;
        let ghost wanted = |t: TensorInfo| text::starts(t.name@, layer_prefix(layer as nat));
        let mut r: Vec<&TensorInfo> = Vec::new();
        let mut i: usize = 0;
        assert(all.take(0) =~= Seq::<TensorInfo>::empty());
        reveal(Seq::filter);
        while i < self.tensors.len()
            invariant
                i <= all.len(),
                all == self.tensors@,
                prefix@ == layer_prefix(layer as nat),
                wanted == (|t: TensorInfo| text::starts(t.name@, layer_prefix(layer as nat))),
                r@.len() == all.take(i as int).filter(wanted).len(),
                forall|k: int|
                    0 <= k < r@.len() ==> *(#[trigger] r@[k]) == all.take(i as int).filter(
                        wanted,
                    )[k],
            decreases all.len() - i,
        {
            reveal(Seq::filter);
            assert(all.take(i + 1).drop_last() =~= all.take(i as int));
            if text::starts_with(self.tensors[i].name.as_str(), prefix.as_str()) {
                r.push(&self.tensors[i]);
            }
            i = i + 1;
        }
        assert(all.take(i as int) =~= all);
        r
    }

    /// How many tensors and bytes there are of each type, in the order the
    /// types first occur.
    fn tally(&self) -> (r: Vec<(String, usize, u64)>)
        requires
            forall|i: int| 0 <= i < self.tensors@.len() ==> (#[trigger] self.tensors@[i])@.sized(),
            forall|title: Seq<char>| #[trigger]
                type_size(shapes(self.tensors@), title) <= u64::MAX,
        ensures
            forall|i: int|
                0 <= i < r@.len() ==> tallies(#[trigger] r@[i], shapes(self.tensors@)),
            forall|i: int, j: int| 0 <= i < j < r@.len() ==> r@[i].0@ != r@[j].0@,
            forall|k: int|
                0 <= k < self.tensors@.len() ==> named(
                    r@,
                    (#[trigger] self.tensors@[k]).kind.title(),
                ),
    {
        let mut r: Vec<(String, usize, u64)> = Vec::new();
        let ghost all = shapes(self.tensors@);
        let mut i: usize = 0;
        while i < self.tensors.len()
            invariant
                i <= self.tensors@.len(),
                all == shapes(self.tensors@),
                forall|k: int|
                    0 <= k < self.tensors@.len() ==> (#[trigger] self.tensors@[k])@.sized(),
                forall|title: Seq<char>| #[trigger] type_size(all, title) <= u64::MAX,
                forall|k: int|
                    0 <= k < r@.len() ==> tallies(#[trigger] r@[k], all.take(i as int)),
                forall|k: int, j: int| 0 <= k < j < r@.len() ==> r@[k].0@ != r@[j].0@,
                forall|k: int|
                    0 <= k < i ==> named(r@, (#[trigger] self.tensors@[k]).kind.title()),
                forall|title: Seq<char>|
                    !named(r@, title) ==> #[trigger] type_count(all.take(i as int), title) == 0
                        && type_size(all.take(i as int), title) == 0,
            decreases self.tensors@.len() - i,
        {
            let name = self.tensors[i].kind.name();
            let n: u64 = match self.tensors[i].bytes() {
                Some(n) => n,
                None => 0,
            };
            let ghost before = r@;
            proof {
                assert(all.take(i + 1).drop_last() =~= all.take(i as int));
                lemma_type_size_grows(all, name@, i + 1);
                law_a_type_is_part_of_the_whole(all.take(i as int), name@);
            }
            let mut g: usize = 0;
            while g < r.len() && !text::same(r[g].0.as_str(), name.as_str())
                invariant
                    g <= r@.len(),
                    r@ == before,
                    forall|k: int| 0 <= k < g ==> (#[trigger] r@[k]).0@ != name@,
                decreases r@.len() - g,
            {
                g = g + 1;
            }
            let ghost hit = g < before.len();
            if g < r.len() {
                let count: usize = r[g].1 + 1;
                let bytes: u64 = r[g].2 + n;
                r.set(g, (name, count, bytes));
            } else {
                r.push((name, 1, n));
            }
            proof {
                assert(r@[g as int].0@ == self.tensors@[i as int].kind.title());
                assert forall|title: Seq<char>| named(before, title) implies named(r@, title) by {
                    let k = choose|k: int| 0 <= k < before.len() && before[k].0@ == title;
                    assert(r@[k].0@ == title);
                }
                assert forall|title: Seq<char>| named(r@, title) && title != name@ implies named(
                    before,
                    title,
                ) by {
                    let k = choose|k: int| 0 <= k < r@.len() && r@[k].0@ == title;
                    assert(before[k].0@ == title);
                }
                if hit {
                    assert(named(before, name@)) by {
                        assert(before[g as int].0@ == name@);
                    }
                } else {
                    assert(!named(before, name@));
                }
                assert forall|k: int| 0 <= k < r@.len() implies tallies(
                    #[trigger] r@[k],
                    all.take(i + 1),
                ) by {
                    if k != g {
                        assert(before[k].0@ != name@);
                        assert(tallies(before[k], all.take(i as int)));
                    } else if hit {
                        assert(tallies(before[k], all.take(i as int)));
                    }
                }
                assert(named(r@, name@));
                assert forall|title: Seq<char>| !named(r@, title) implies #[trigger] type_count(
                    all.take(i + 1),
                    title,
                ) == 0 && type_size(all.take(i + 1), title) == 0 by {
                    assert(!named(before, title));
                    assert(type_count(all.take(i as int), title) == 0);
                }
            }
            i = i + 1;
        }
        assert(all.take(i as int) =~= all);
        r
    }

    /// How many tensors and bytes sit in each quantisation, largest first. Of
    /// two that hold as much, the one of the earlier name comes first.
    pub fn by_type(&self) -> (r: Vec<(String, usize, u64)>)
        requires
            forall|i: int| 0 <= i < self.tensors@.len() ==> (#[trigger] self.tensors@[i])@.sized(),
            forall|title: Seq<char>| #[trigger]
                type_size(shapes(self.tensors@), title) <= u64::MAX,
        ensures
            forall|i: int|
                0 <= i < r@.len() ==> tallies(#[trigger] r@[i], shapes(self.tensors@)),
            in_order(r@),
            forall|k: int|
                0 <= k < self.tensors@.len() ==> named(
                    r@,
                    (#[trigger] self.tensors@[k]).kind.title(),
                ),
            lines_count(r@) == self.tensors@.len(),
            lines_size(r@) == total_size(shapes(self.tensors@)),
    {
        let mut rest = self.tally();
        let mut out: Vec<(String, usize, u64)> = Vec::new();
        while rest.len() > 0
            invariant
                forall|i: int|
                    0 <= i < rest@.len() ==> tallies(#[trigger] rest@[i], shapes(self.tensors@)),
                forall|i: int|
                    0 <= i < out@.len() ==> tallies(#[trigger] out@[i], shapes(self.tensors@)),
                forall|i: int, j: int| 0 <= i < j < rest@.len() ==> rest@[i].0@ != rest@[j].0@,
                forall|i: int, j: int|
                    0 <= i < rest@.len() && 0 <= j < out@.len() ==> rest@[i].0@ != out@[j].0@,
                in_order(out@),
                forall|k: int|
                    0 <= k < self.tensors@.len() ==> named(
                        rest@,
                        (#[trigger] self.tensors@[k]).kind.title(),
                    ) || named(out@, self.tensors@[k].kind.title()),
            decreases rest@.len(),
        {
            let ghost had = rest@;
            let ghost before = out@;
            match rest.pop() {
                Some(line) => {
                    let mut p: usize = 0;
                    while p < out.len() && !(line.2 > out[p].2 || (line.2 == out[p].2
                        && is_earlier(line.0.as_str(), out[p].0.as_str())))
                        invariant
                            p <= out@.len(),
                            out@ == before,
                            forall|k: int| 0 <= k < p ==> !ahead(line, #[trigger] out@[k]),
                        decreases out@.len() - p,
                    {
                        p = p + 1;
                    }
                    assert(line == had.last());
                    out.insert(p, line);
                    proof {
                        assert forall|i: int, j: int| 0 <= i < j < out@.len() implies ahead(
                            #[trigger] out@[i],
                            #[trigger] out@[j],
                        ) by {
                            if j == p {
                                assert(out@[i] == before[i]);
                                assert(before[i].0@ != line.0@);
                                lemma_earlier_total(line.0@, before[i].0@);
                            } else if i == p {
                                assert(out@[j] == before[j - 1]);
                                if j - 1 > p {
                                    assert(ahead(before[p as int], before[j - 1]));
                                    if line.2 == before[p as int].2 && before[p as int].2 == before[j
                                        - 1].2 {
                                        lemma_earlier_chain(
                                            line.0@,
                                            before[p as int].0@,
                                            before[j - 1].0@,
                                        );
                                    }
                                }
                            } else {
                                let a = if i < p {
                                    i
                                } else {
                                    i - 1
                                };
                                let b = if j < p {
                                    j
                                } else {
                                    j - 1
                                };
                                assert(out@[i] == before[a]);
                                assert(out@[j] == before[b]);
                            }
                        }
                        assert forall|title: Seq<char>| named(before, title) implies named(
                            out@,
                            title,
                        ) by {
                            let k = choose|k: int| 0 <= k < before.len() && before[k].0@ == title;
                            if k < p {
                                assert(out@[k].0@ == title);
                            } else {
                                assert(out@[k + 1].0@ == title);
                            }
                        }
                        assert forall|title: Seq<char>| named(had, title) implies named(rest@, title)
                            || named(out@, title) by {
                            let k = choose|k: int| 0 <= k < had.len() && had[k].0@ == title;
                            if k == had.len() - 1 {
                                assert(out@[p as int].0@ == title);
                            } else {
                                assert(rest@[k].0@ == title);
                            }
                        }
                        assert forall|i: int| 0 <= i < out@.len() implies tallies(
                            #[trigger] out@[i],
                            shapes(self.tensors@),
                        ) by {
                            if i < p {
                                assert(out@[i] == before[i]);
                            } else if i > p {
                                assert(out@[i] == before[i - 1]);
                            }
                        }
                        assert forall|i: int, j: int|
                            0 <= i < rest@.len() && 0 <= j < out@.len() implies rest@[i].0@
                            != out@[j].0@ by {
                            assert(rest@[i] == had[i]);
                            if j < p {
                                assert(out@[j] == before[j]);
                            } else if j > p {
                                assert(out@[j] == before[j - 1]);
                            }
                        }
                    }
                },
                None => {},
            }
        }
        assert forall|k: int| 0 <= k < self.tensors@.len() implies named(
            out@,
            (#[trigger] self.tensors@[k]).kind.title(),
        ) by {
            assert(!named(rest@, self.tensors@[k].kind.title()));
        }
        proof {
            let all = shapes(self.tensors@);
            assert forall|k: int| 0 <= k < all.len() implies named(
                out@,
                (#[trigger] all[k]).kind.title(),
            ) by {
                assert(named(out@, self.tensors@[k].kind.title()));
            }
            law_the_types_add_up(out@, all);
        }
        out
    }
}

// ---------------------------------------------------------------- facts

/// What the file says about the model, as opposed to what a registry guesses.
#[derive(Debug)]
pub struct ModelFacts {
    pub name: String,
    pub arch: String,
    pub layers: usize,
    pub embedding: usize,
    pub heads: usize,
    pub kv_heads: usize,
    pub experts: usize,
    pub experts_used: usize,
    pub expert_ff: usize,
    pub context: usize,
    pub vocab: usize,
    pub rope_base: Real,
    /// Present only on hybrid state-space architectures.
    pub ssm_state: Option<usize>,
    pub ssm_inner: Option<usize>,
    pub full_attention_interval: Option<usize>,
    pub file_bytes: u64,
    pub tensor_count: usize,
}

/// Why no facts could be drawn from a file.
#[derive(Debug, Clone, Copy, PartialEq, Eq, Structural)]
pub enum FactsError {
    /// The file holds no array of tokens.
    NoVocabulary,
}

impl FactsError {
    /// What to tell the user.
    pub fn message(&self) -> (r: String)
        ensures
            r@ == "no tokenizer.ggml.tokens array in file"@,
    {
        "no tokenizer.ggml.tokens array in file".to_owned()
    }
}

/// How many tokens the vocabulary holds, where the file holds one.
pub open spec fn vocabulary(m: Map<Seq<char>, Datum>) -> Option<nat> {
    if m.dom().contains("tokenizer.ggml.tokens"@) {
        m["tokenizer.ggml.tokens"@].count()
    } else {
        None
    }
}

/// A scoped number as a count, zero where it is not set.
pub open spec fn tally_of(m: Map<Seq<char>, Datum>, suffix: Seq<char>) -> usize {
    match scoped_whole(m, suffix) {
        Some(v) => v as usize,
        None => 0,
    }
}

/// A scoped number as a count, where it is set.
pub open spec fn optional_tally(m: Map<Seq<char>, Datum>, suffix: Seq<char>) -> Option<usize> {
    match scoped_whole(m, suffix) {
        Some(v) => Some(v as usize),
        None => None,
    }
}

/// The number stored under a key, zero where there is none.
pub open spec fn number_under(m: Map<Seq<char>, Datum>, key: Seq<char>) -> usize {
    if m.dom().contains(key) && m[key].whole() is Some {
        m[key].whole()->0 as usize
    } else {
        0
    }
}

impl ModelFacts {
    /// The facts are those the file declares.
    pub open spec fn describes(&self, gguf: &Gguf) -> bool {
        let m = gguf.metadata@;
        &&& self.name@ == name_of(m)
        &&& self.arch@ == arch_of(m)
        &&& self.layers == tally_of(m, "block_count"@)
        &&& self.embedding == tally_of(m, "embedding_length"@)
        &&& self.heads == tally_of(m, "attention.head_count"@)
        &&& self.kv_heads == tally_of(m, "attention.head_count_kv"@)
        &&& self.experts == tally_of(m, "expert_count"@)
        &&& self.experts_used == tally_of(m, "expert_used_count"@)
        &&& self.expert_ff == tally_of(m, "expert_feed_forward_length"@)
        &&& self.context == tally_of(m, "context_length"@)
        &&& vocabulary(m) == Some(self.vocab as nat)
        &&& self.rope_base == match scoped_number(m, "rope.freq_base"@) {
            Some(v) => v,
            None => Real::Double(0),
        }
        &&& self.ssm_state == optional_tally(m, "ssm.state_size"@)
        &&& self.ssm_inner == optional_tally(m, "ssm.inner_size"@)
        &&& self.full_attention_interval == optional_tally(m, "full_attention_interval"@)
        &&& self.file_bytes == gguf.file_size
        &&& self.tensor_count == gguf.tensors@.len()
    }

    fn tally(gguf: &Gguf, suffix: &str) -> (r: usize)
        ensures
            r == tally_of(gguf.metadata@, suffix@),
    {
        match gguf.key_u64(suffix) {
            Some(v) => v as usize,
            None => 0,
        }
    }

    fn optional(gguf: &Gguf, suffix: &str) -> (r: Option<usize>)
        ensures
            r == optional_tally(gguf.metadata@, suffix@),
    {
        match gguf.key_u64(suffix) {
            Some(v) => Some(v as usize),
            None => None,
        }
    }

    /// Draws the facts from a file. Every field but the vocabulary has a
    /// default.
    pub fn read(gguf: &Gguf) -> (r: Result<ModelFacts, FactsError>)
        ensures
            r is Ok == vocabulary(gguf.metadata@) is Some,
            r matches Ok(f) ==> f.describes(gguf),
            r matches Err(e) ==> e == FactsError::NoVocabulary,
            r matches Ok(f) ==> {
                let m = gguf.metadata@;
                let a = arch_of(m) + "."@;
                &&& f.layers == number_under(m, a + "block_count"@)
                &&& f.embedding == number_under(m, a + "embedding_length"@)
                &&& f.heads == number_under(m, a + "attention.head_count"@)
                &&& f.kv_heads == number_under(m, a + "attention.head_count_kv"@)
                &&& f.experts == number_under(m, a + "expert_count"@)
                &&& f.experts_used == number_under(m, a + "expert_used_count"@)
                &&& f.expert_ff == number_under(m, a + "expert_feed_forward_length"@)
                &&& f.context == number_under(m, a + "context_length"@)
            },
    {
        let vocab: usize = match gguf.metadata.get("tokenizer.ggml.tokens") {
            Some(v) => match v.len() {
                Some(n) => n,
                None => {
                    return Err(FactsError::NoVocabulary);
                },
            },
            None => {
                return Err(FactsError::NoVocabulary);
            },
        };
        Ok(
            ModelFacts {
                name: gguf.name().to_owned(),
                arch: gguf.arch().to_owned(),
                layers: Self::tally(gguf, "block_count"),
                embedding: Self::tally(gguf, "embedding_length"),
                heads: Self::tally(gguf, "attention.head_count"),
                kv_heads: Self::tally(gguf, "attention.head_count_kv"),
                experts: Self::tally(gguf, "expert_count"),
                experts_used: Self::tally(gguf, "expert_used_count"),
                expert_ff: Self::tally(gguf, "expert_feed_forward_length"),
                context: Self::tally(gguf, "context_length"),
                vocab,
                rope_base: match gguf.key_f64("rope.freq_base") {
                    Some(v) => v,
                    None => Real::Double(0),
                },
                ssm_state: Self::optional(gguf, "ssm.state_size"),
                ssm_inner: Self::optional(gguf, "ssm.inner_size"),
                full_attention_interval: Self::optional(gguf, "full_attention_interval"),
                file_bytes: gguf.file_size,
                tensor_count: gguf.tensors.len(),
            },
        )
    }

    /// Whether the model routes among experts.
    pub fn is_moe(&self) -> (r: bool)
        ensures
            r == (self.experts > 1),
    {
        self.experts > 1
    }

    /// Whether the model mixes attention with a state space.
    pub fn is_hybrid_ssm(&self) -> (r: bool)
        ensures
            r == (self.ssm_state is Some),
    {
        self.ssm_state.is_some()
    }
}

// ---------------------------------------------------------------- what is read off a file

/// Under the architecture of a file, `suffix` is set to a whole number.
pub open spec fn stores(g: &Gguf, arch: Seq<char>, suffix: Seq<char>, n: u64) -> bool {
    let key = arch + "."@ + suffix;
    g.metadata@.dom().contains(key) && g.metadata@[key].whole() == Some(n)
}

/// A fact is the number that is stored for it, or zero where none is.
pub open spec fn is_stored(fact: usize, g: &Gguf, arch: Seq<char>, suffix: Seq<char>) -> bool {
    &&& forall|n: u64| #[trigger] stores(g, arch, suffix, n) ==> fact == n as usize
    &&& (forall|n: u64| !#[trigger] stores(g, arch, suffix, n)) ==> fact == 0
}

/// A fact is the number that is stored for it, and none where none is.
pub open spec fn is_stored_if_any(
    fact: Option<usize>,
    g: &Gguf,
    arch: Seq<char>,
    suffix: Seq<char>,
) -> bool {
    &&& forall|n: u64| #[trigger] stores(g, arch, suffix, n) ==> fact == Some(n as usize)
    &&& (forall|n: u64| !#[trigger] stores(g, arch, suffix, n)) ==> fact is None
}

proof fn lemma_stored(g: &Gguf, suffix: Seq<char>)
    ensures
        is_stored(tally_of(g.metadata@, suffix), g, arch_of(g.metadata@), suffix),
        is_stored_if_any(optional_tally(g.metadata@, suffix), g, arch_of(g.metadata@), suffix),
{
    let m = g.metadata@;
    let key = arch_of(m) + "."@ + suffix;
    if m.dom().contains(key) {
        if let Some(n) = m[key].whole() {
            assert(stores(g, arch_of(m), suffix, n));
        }
    }
}

/// The facts of a model are what its file stores for each, under the keys of its
/// architecture.
pub proof fn law_the_facts_are_what_the_file_stores(f: &ModelFacts, g: &Gguf)
    requires
        f.describes(g),
    ensures
        ({
            let (m, a) = (g.metadata@, f.arch@);
            &&& is_stored(f.layers, g, a, "block_count"@)
            &&& is_stored(f.embedding, g, a, "embedding_length"@)
            &&& is_stored(f.heads, g, a, "attention.head_count"@)
            &&& is_stored(f.kv_heads, g, a, "attention.head_count_kv"@)
            &&& is_stored(f.experts, g, a, "expert_count"@)
            &&& is_stored(f.experts_used, g, a, "expert_used_count"@)
            &&& is_stored(f.expert_ff, g, a, "expert_feed_forward_length"@)
            &&& is_stored(f.context, g, a, "context_length"@)
            &&& is_stored_if_any(f.ssm_state, g, a, "ssm.state_size"@)
            &&& is_stored_if_any(f.ssm_inner, g, a, "ssm.inner_size"@)
            &&& is_stored_if_any(f.full_attention_interval, g, a, "full_attention_interval"@)
            &&& m.dom().contains("general.architecture"@) && m["general.architecture"@] is Str ==> a
                == m["general.architecture"@]->Str_0
            &&& !m.dom().contains("general.architecture"@) ==> a == "unknown"@
            &&& m.dom().contains("general.name"@) && m["general.name"@] is Str ==> f.name@
                == m["general.name"@]->Str_0
            &&& !m.dom().contains("general.name"@) ==> f.name@ == "unnamed"@
            &&& m.dom().contains("tokenizer.ggml.tokens"@)
            &&& m["tokenizer.ggml.tokens"@] matches Datum::Array(tokens) && tokens.len() == f.vocab
            &&& f.file_bytes == g.file_size
            &&& f.tensor_count == g.tensors@.len()
        }),
{
    lemma_stored(g, "block_count"@);
    lemma_stored(g, "embedding_length"@);
    lemma_stored(g, "attention.head_count"@);
    lemma_stored(g, "attention.head_count_kv"@);
    lemma_stored(g, "expert_count"@);
    lemma_stored(g, "expert_used_count"@);
    lemma_stored(g, "expert_feed_forward_length"@);
    lemma_stored(g, "context_length"@);
    lemma_stored(g, "ssm.state_size"@);
    lemma_stored(g, "ssm.inner_size"@);
    lemma_stored(g, "full_attention_interval"@);
}

/// The base of the rotary embedding is the number that is stored for it, whole or
/// not.
pub proof fn law_the_rotary_base_is_what_the_file_stores(f: &ModelFacts, g: &Gguf)
    requires
        f.describes(g),
    ensures
        ({
            let m = g.metadata@;
            let key = f.arch@ + "."@ + "rope.freq_base"@;
            &&& m.dom().contains(key) && m[key] is F32 ==> f.rope_base == Real::Single(
                m[key]->F32_0,
            )
            &&& m.dom().contains(key) && m[key] is F64 ==> f.rope_base == Real::Double(
                m[key]->F64_0,
            )
            &&& m.dom().contains(key) && m[key] is U32 ==> f.rope_base == Real::Whole(
                m[key]->U32_0 as u64,
            )
            &&& !m.dom().contains(key) ==> f.rope_base == Real::Double(0)
        }),
{
}

/// An integer of any width reads as the number it is; a negative one as what it
/// is modulo two to the sixty-fourth. Nothing else reads as a whole number.
pub proof fn law_integers_read_as_they_are(d: Datum)
    ensures
        d matches Datum::U8(v) ==> d.whole() == Some(v as u64),
        d matches Datum::U16(v) ==> d.whole() == Some(v as u64),
        d matches Datum::U32(v) ==> d.whole() == Some(v as u64),
        d matches Datum::U64(v) ==> d.whole() == Some(v),
        d matches Datum::I8(v) ==> d.whole() is Some && (d.whole()->0 - v) % 0x1_0000_0000_0000_0000
            == 0,
        d matches Datum::I16(v) ==> d.whole() is Some && (d.whole()->0 - v)
            % 0x1_0000_0000_0000_0000 == 0,
        d matches Datum::I32(v) ==> d.whole() is Some && (d.whole()->0 - v)
            % 0x1_0000_0000_0000_0000 == 0,
        d matches Datum::I64(v) ==> d.whole() is Some && (d.whole()->0 - v)
            % 0x1_0000_0000_0000_0000 == 0,
        d is F32 || d is F64 || d is Bool || d is Str || d is Array ==> d.whole() is None,
{
}

/// A block holds its weights at the width of its type, and the scales that go
/// with them.
pub proof fn law_a_block_holds_its_weights_and_scales()
    ensures
        GgmlType::F32.layout() == Some((1usize, 4usize)),
        GgmlType::F16.layout() == Some((1usize, 2usize)),
        GgmlType::BF16.layout() == Some((1usize, 2usize)),
        GgmlType::Q4_0.layout() == Some((32usize, (32 * 4 / 8 + 2) as usize)),
        GgmlType::Q4_1.layout() == Some((32usize, (32 * 4 / 8 + 4) as usize)),
        GgmlType::Q5_0.layout() == Some((32usize, (32 * 5 / 8 + 2) as usize)),
        GgmlType::Q5_1.layout() == Some((32usize, (32 * 5 / 8 + 4) as usize)),
        GgmlType::Q8_0.layout() == Some((32usize, (32 + 2) as usize)),
        GgmlType::Q8_1.layout() == Some((32usize, (32 + 4) as usize)),
        GgmlType::Q2K.layout() == Some((256usize, (256 * 2 / 8 + 16 + 4) as usize)),
        GgmlType::Q3K.layout() == Some((256usize, (256 * 3 / 8 + 12 + 2) as usize)),
        GgmlType::Q4K.layout() == Some((256usize, (256 * 4 / 8 + 12 + 4) as usize)),
        GgmlType::Q5K.layout() == Some((256usize, (256 * 5 / 8 + 12 + 4) as usize)),
        GgmlType::Q6K.layout() == Some((256usize, (256 * 6 / 8 + 16 + 2) as usize)),
        GgmlType::Q8K.layout() == Some((256usize, (256 + 32 + 4) as usize)),
        forall|id: u32| (#[trigger] GgmlType::Other(id).layout()) is None,
{
}

/// Every id stands for a type of its own, and one that is not known is kept.
pub proof fn law_a_type_is_told_by_its_id(a: u32, b: u32)
    ensures
        GgmlType::of_id(a) == GgmlType::of_id(b) ==> a == b,
        GgmlType::of_id(a) matches GgmlType::Other(id) ==> id == a && (a > 15 || a == 4 || a == 5)
            && a != 30,
        a > 15 && a != 30 ==> GgmlType::of_id(a) is Other,
        GgmlType::of_id(0) == GgmlType::F32,
        GgmlType::of_id(1) == GgmlType::F16,
        GgmlType::of_id(2) == GgmlType::Q4_0,
        GgmlType::of_id(3) == GgmlType::Q4_1,
        GgmlType::of_id(6) == GgmlType::Q5_0,
        GgmlType::of_id(7) == GgmlType::Q5_1,
        GgmlType::of_id(8) == GgmlType::Q8_0,
        GgmlType::of_id(9) == GgmlType::Q8_1,
        GgmlType::of_id(10) == GgmlType::Q2K,
        GgmlType::of_id(11) == GgmlType::Q3K,
        GgmlType::of_id(12) == GgmlType::Q4K,
        GgmlType::of_id(13) == GgmlType::Q5K,
        GgmlType::of_id(14) == GgmlType::Q6K,
        GgmlType::of_id(15) == GgmlType::Q8K,
        GgmlType::of_id(30) == GgmlType::BF16,
{
}

/// A tensor has as many elements as its dimensions multiply to, and takes a block
/// of bytes for every block of elements.
pub proof fn law_a_tensor_is_as_large_as_its_blocks(t: Tensor, d: u64, blocks: nat)
    ensures
        product(Seq::empty()) == 1,
        product(t.dims.push(d)) == product(t.dims) * d,
        product(t.dims) > 0 ==> t.elements() == product(t.dims),
        product(t.dims) == 0 ==> t.elements() == 1,
        t.kind.layout() matches Some((per, bytes)) ==> t.elements() != per * blocks || t.size()
            == Some(blocks * (bytes as nat)),
        t.kind.layout() matches Some((per, bytes)) ==> t.size() is Some && t.size()->0 * per
            <= t.elements() * (bytes as nat),
        t.kind.layout() is None ==> t.size() is None && t.known_size() == 0,
        t.size() matches Some(n) ==> t.known_size() == n,
{
    assert(t.dims.push(d).drop_last() =~= t.dims);
    if let Some((per, bytes)) = t.kind.layout() {
        let e = t.elements() as int;
        let p = per as int;
        assert(p > 0);
        if t.elements() == per * blocks {
            assert(e == p * blocks);
            vstd::arithmetic::div_mod::lemma_div_multiples_vanish(blocks as int, p);
        }
        vstd::arithmetic::div_mod::lemma_fundamental_div_mod(e, p);
        vstd::arithmetic::div_mod::lemma_mod_bound(e, p);
        let q = e / p;
        let y = bytes as int;
        assert((q * y) * p <= e * y) by (nonlinear_arith)
            requires
                p * q <= e,
                y >= 0,
        ;
        assert(p * q <= e);
    }
}

/// The bytes of tensors add up, and so do those of one type, tensor by tensor.
pub proof fn law_tensors_add_up(s: Seq<Tensor>, t: Tensor, title: Seq<char>)
    ensures
        total_size(Seq::empty()) == 0,
        total_size(s.push(t)) == total_size(s) + t.known_size(),
        type_count(Seq::empty(), title) == 0,
        type_size(Seq::empty(), title) == 0,
        t.kind.title() == title ==> type_count(s.push(t), title) == type_count(s, title) + 1
            && type_size(s.push(t), title) == type_size(s, title) + t.known_size(),
        t.kind.title() != title ==> type_count(s.push(t), title) == type_count(s, title)
            && type_size(s.push(t), title) == type_size(s, title),
{
    assert(s.push(t).drop_last() =~= s);
}

/// The last value a key is set to is the one that counts.
pub proof fn law_the_last_value_of_a_key_counts(s: Seq<Entry>, e: Entry, key: Seq<char>)
    ensures
        fields(s.push(e)).dom().contains(e.key@),
        fields(s.push(e))[e.key@] == e.value.datum(),
        key != e.key@ ==> fields(s.push(e)).dom().contains(key) == fields(s).dom().contains(key),
        key != e.key@ && fields(s).dom().contains(key) ==> fields(s.push(e))[key] == fields(s)[key],
        !fields(Seq::empty()).dom().contains(key),
{
    assert(s.push(e).drop_last() =~= s);
}

/// The tensors of a layer are those whose names open with its number, and no
/// others.
pub proof fn law_a_layer_is_told_by_its_number(s: Seq<TensorInfo>, layer: nat, t: TensorInfo)
    ensures
        layer_of(s, layer).contains(t) <==> s.contains(t) && text::starts(
            t.name@,
            "blk."@ + text::decimal(layer) + "."@,
        ),
{
    let p = |t: TensorInfo| text::starts(t.name@, layer_prefix(layer));
    broadcast use vstd::seq_lib::group_filter_ensures;

    if s.contains(t) && p(t) {
        let i = choose|i: int| 0 <= i < s.len() && s[i] == t;
        assert(s.filter(p).contains(s[i]));
    }
    if layer_of(s, layer).contains(t) {
        let i = choose|i: int| 0 <= i < s.filter(p).len() && s.filter(p)[i] == t;
        assert(p(s.filter(p)[i]));
        s.lemma_filter_contains_rev(p, t);
    }
}

} // verus!

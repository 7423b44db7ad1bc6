//! Named columns holding either plain logical values or an encoded buffer
//! with its codec, and the factory that picks the narrowest encoding from a
//! precomputed logical value range.

use vstd::prelude::*;
use crate::codec::{BasicType, EncodingType, IntegerOffsetCodec};
use crate::vals::LogVal;

verus! {

/// An encoded physical buffer in one of the three supported widths.
pub enum EncodedVals {
    B8(Vec<u8>),
    B16(Vec<u16>),
    B32(Vec<u32>),
}

impl EncodedVals {
    /// The physical values, widened to mathematical integers.
    pub open spec fn raws(&self) -> Seq<int> {
        match self {
            EncodedVals::B8(v) => Seq::new(v@.len(), |k: int| v@[k] as int),
            EncodedVals::B16(v) => Seq::new(v@.len(), |k: int| v@[k] as int),
            EncodedVals::B32(v) => Seq::new(v@.len(), |k: int| v@[k] as int),
        }
    }

    pub open spec fn spec_width(&self) -> EncodingType {
        match self {
            EncodedVals::B8(_) => EncodingType::U8,
            EncodedVals::B16(_) => EncodingType::U16,
            EncodedVals::B32(_) => EncodingType::U32,
        }
    }

    pub fn len(&self) -> (r: usize)
        ensures
            r == self.raws().len(),
    {
        match self {
            EncodedVals::B8(v) => v.len(),
            EncodedVals::B16(v) => v.len(),
            EncodedVals::B32(v) => v.len(),
        }
    }
}

/// Column storage: plain logical values, or an encoded buffer plus its codec.
pub enum ColumnData {
    PlainInt(Vec<i64>),
    PlainStr(Vec<String>),
    Encoded(EncodedVals, IntegerOffsetCodec),
}

/// A named, read-only column with a known value range used for planning.
/// The encoding decision is fixed at construction time and queries never
/// re-encode or mutate a column.
pub struct Column {
    pub name: String,
    pub data: ColumnData,
    pub range: Option<(i64, i64)>,
}

impl Column {
    /// The logical (decoded) value sequence of the column.
    pub open spec fn lgcl(&self) -> Seq<LogVal> {
        match self.data {
            ColumnData::PlainInt(v) => Seq::new(v@.len(), |k: int| LogVal::Int(v@[k] as int)),
            ColumnData::PlainStr(v) => Seq::new(v@.len(), |k: int| LogVal::Str(v@[k]@)),
            ColumnData::Encoded(e, c) => Seq::new(
                e.raws().len(),
                |k: int| LogVal::Int(e.raws()[k] + c.offset as int),
            ),
        }
    }

    pub open spec fn basic_type(&self) -> BasicType {
        match self.data {
            ColumnData::PlainInt(_) => BasicType::Integer,
            ColumnData::PlainStr(_) => BasicType::Str,
            ColumnData::Encoded(_, _) => BasicType::Integer,
        }
    }

    /// The physical representation the column stores.
    pub open spec fn encoding(&self) -> EncodingType {
        match self.data {
            ColumnData::Encoded(_, c) => c.width,
            _ => EncodingType::I64,
        }
    }

    pub open spec fn is_encoded(&self) -> bool {
        self.data is Encoded
    }

    /// Well-formedness: an encoded buffer matches its codec's width, its
    /// physical values fit that width, and decoding cannot overflow the
    /// logical 64-bit domain.
    pub open spec fn wf(&self) -> bool {
        match self.data {
            ColumnData::Encoded(e, c) => {
                &&& c.width == e.spec_width()
                &&& forall|k: int|
                    0 <= k < e.raws().len() ==> i64::MIN <= #[trigger] e.raws()[k]
                        + c.offset as int <= i64::MAX
            },
            _ => true,
        }
    }

    pub open spec fn n_rows(&self) -> int {
        self.lgcl().len() as int
    }

    pub fn len(&self) -> (r: usize)
        ensures
            r == self.n_rows(),
    {
        match &self.data {
            ColumnData::PlainInt(v) => v.len(),
            ColumnData::PlainStr(v) => v.len(),
            ColumnData::Encoded(e, _) => e.len(),
        }
    }

    /// Builds a column around an already encoded buffer and its codec.
    pub fn encoded(name: &str, data: EncodedVals, codec: IntegerOffsetCodec, range: Option<
        (i64, i64),
    >) -> (r: Column)
        requires
            codec.width == data.spec_width(),
            forall|k: int|
                0 <= k < data.raws().len() ==> i64::MIN <= #[trigger] data.raws()[k]
                    + codec.offset as int <= i64::MAX,
        ensures
            r.name@ == name@,
            r.data == ColumnData::Encoded(data, codec),
            r.range == range,
            r.wf(),
    {
        Column { name: name.to_owned(), data: ColumnData::Encoded(data, codec), range }
    }

    /// Builds a plain 64-bit integer column.
    pub fn plain(name: &str, values: Vec<i64>, range: Option<(i64, i64)>) -> (r: Column)
        ensures
            r.name@ == name@,
            r.data == ColumnData::PlainInt(values),
            r.range == range,
            r.wf(),
    {
        Column { name: name.to_owned(), data: ColumnData::PlainInt(values), range }
    }

    /// Builds a plain string column.
    pub fn plain_str(name: &str, values: Vec<String>) -> (r: Column)
        ensures
            r.name@ == name@,
            r.data == ColumnData::PlainStr(values),
            r.range is None,
            r.wf(),
    {
        Column { name: name.to_owned(), data: ColumnData::PlainStr(values), range: None }
    }
}

/// The first column with the given name, if any.
pub open spec fn lookup_from(cols: Seq<Column>, name: Seq<char>, i: int) -> Option<int>
    decreases cols.len() - i,
{
    if i < 0 || i >= cols.len() {
        None
    } else if cols[i].name@ == name {
        Some(i)
    } else {
        lookup_from(cols, name, i + 1)
    }
}

pub open spec fn lookup(cols: Seq<Column>, name: Seq<char>) -> Option<int> {
    lookup_from(cols, name, 0)
}

pub proof fn lemma_lookup_in_range(cols: Seq<Column>, name: Seq<char>, i: int)
    ensures
        match lookup_from(cols, name, i) {
            Some(j) => i <= j < cols.len() && cols[j].name@ == name,
            None => true,
        },
    decreases cols.len() - i,
{
    if 0 <= i < cols.len() && cols[i].name@ != name {
        lemma_lookup_in_range(cols, name, i + 1);
    }
}

/// The mapping from column name to column that one query executes against,
/// supplied by the storage layer. All columns hold the same number of rows.
pub struct ColumnSet {
    pub cols: Vec<Column>,
}

impl ColumnSet {
    pub open spec fn n_rows(&self) -> int {
        if self.cols@.len() == 0 {
            0
        } else {
            self.cols@[0].n_rows()
        }
    }

    pub open spec fn wf(&self) -> bool {
        &&& forall|i: int| 0 <= i < self.cols@.len() ==> (#[trigger] self.cols@[i]).wf()
        &&& forall|i: int|
            0 <= i < self.cols@.len() ==> (#[trigger] self.cols@[i]).n_rows() == self.n_rows()
    }

    pub fn new() -> (r: ColumnSet)
        ensures
            r.cols@.len() == 0,
            r.wf(),
    {
        ColumnSet { cols: Vec::new() }
    }

    /// Adds a column; every column of a set must hold the same row count.
    pub fn add(&mut self, c: Column)
        requires
            old(self).wf(),
            c.wf(),
            old(self).cols@.len() > 0 ==> c.n_rows() == old(self).n_rows(),
        ensures
            final(self).cols@ == old(self).cols@.push(c),
            final(self).wf(),
    {
        self.cols.push(c);
    }

    /// Finds the first column with the given name.
    pub fn find(&self, name: &String) -> (r: Option<usize>)
        ensures
            match r {
                Some(i) => lookup(self.cols@, name@) == Some(i as int),
                None => lookup(self.cols@, name@) is None,
            },
    {
        let mut i: usize = 0;
        let n = self.cols.len();
        while i < n
            invariant
                i <= n,
                n == self.cols@.len(),
                lookup(self.cols@, name@) == lookup_from(self.cols@, name@, i as int),
            decreases n - i,
        {
            if self.cols[i].name.eq(name) {
                return Some(i);
            }
            i = i + 1;
        }
        None
    }

    pub fn len(&self) -> (r: usize)
        ensures
            r == self.cols@.len(),
    {
        self.cols.len()
    }

    pub fn row_count(&self) -> (r: usize)
        ensures
            r == self.n_rows(),
    {
        if self.cols.len() == 0 {
            0
        } else {
            self.cols[0].len()
        }
    }
}

/// Factory for integer columns: picks the narrowest unsigned width that can
/// represent `max - min`, storing each value offset from the minimum, or
/// falls back to plain 64-bit storage when even 32 bits do not suffice.
pub struct IntegerColumn;

impl IntegerColumn {
    /// Chooses the encoding for an integer column from its precomputed
    /// logical `(min, max)` range and encodes the values.
    pub fn new_boxed(name: &str, values: Vec<i64>, min: i64, max: i64) -> (r: Box<Column>)
        requires
            min <= max,
            forall|k: int| 0 <= k < values@.len() ==> min <= #[trigger] values@[k] <= max,
        ensures
            r.wf(),
            r.name@ == name@,
            r.lgcl() == Seq::new(values@.len(), |k: int| LogVal::Int(values@[k] as int)),
            max as int - min as int <= 255 ==> r.encoding() == EncodingType::U8,
            255 < max as int - min as int <= 65535 ==> r.encoding() == EncodingType::U16,
            65535 < max as int - min as int <= 4294967295 ==> r.encoding() == EncodingType::U32,
            max as int - min as int > 4294967295 ==> r.data == ColumnData::PlainInt(values),
            max as int - min as int <= 4294967295 ==> {
                &&& r.is_encoded()
                &&& (match r.data {
                    ColumnData::Encoded(_, c) => c.offset == min && c.width == r.encoding(),
                    _ => false,
                })
                &&& r.range == Some((0i64, (max as int - min as int) as i64))
            },
            max as int - min as int > 4294967295 ==> r.range == Some((min, max)),
    {
        let span: i128 = max as i128 - min as i128;
        if span <= 255 {
            let data = EncodedVals::B8(IntegerColumn::encode_u8(&values, min));
            let r = Column::encoded(
                name,
                data,
                IntegerOffsetCodec::new(min, EncodingType::U8),
                Some((0, span as i64)),
            );
            assert(r.lgcl() =~= Seq::new(values@.len(), |k: int| LogVal::Int(values@[k] as int)));
            Box::new(r)
        } else if span <= 65535 {
            let data = EncodedVals::B16(IntegerColumn::encode_u16(&values, min));
            let r = Column::encoded(
                name,
                data,
                IntegerOffsetCodec::new(min, EncodingType::U16),
                Some((0, span as i64)),
            );
            assert(r.lgcl() =~= Seq::new(values@.len(), |k: int| LogVal::Int(values@[k] as int)));
            Box::new(r)
        } else if span <= 4294967295 {
            let data = EncodedVals::B32(IntegerColumn::encode_u32(&values, min));
            let r = Column::encoded(
                name,
                data,
                IntegerOffsetCodec::new(min, EncodingType::U32),
                Some((0, span as i64)),
            );
            assert(r.lgcl() =~= Seq::new(values@.len(), |k: int| LogVal::Int(values@[k] as int)));
            Box::new(r)
        } else {
            let r = Column::plain(name, values, Some((min, max)));
            assert(r.lgcl() =~= Seq::new(
                r.lgcl().len(),
                |k: int|
                    LogVal::Int(
                        (match r.data {
                            ColumnData::PlainInt(v) => v,
                            _ => arbitrary(),
                        })@[k] as int,
                    ),
            ));
            Box::new(r)
        }
    }

    fn encode_u8(values: &Vec<i64>, offset: i64) -> (r: Vec<u8>)
        requires
            forall|k: int|
                0 <= k < values@.len() ==> 0 <= #[trigger] values@[k] as int - offset as int <= 255,
        ensures
            r@.len() == values@.len(),
            forall|k: int| 0 <= k < r@.len() ==> r@[k] as int == values@[k] as int - offset as int,
    {
        let mut out: Vec<u8> = Vec::new();
        let mut i: usize = 0;
        while i < values.len()
            invariant
                i <= values@.len(),
                out@.len() == i,
                forall|k: int|
                    0 <= k < values@.len() ==> 0 <= #[trigger] values@[k] as int - offset as int <= 255,
                forall|k: int|
                    0 <= k < i ==> out@[k] as int == values@[k] as int - offset as int,
            decreases values@.len() - i,
        {
            let d: i128 = values[i] as i128 - offset as i128;
            out.push(d as u8);
            i = i + 1;
        }
        out
    }

    fn encode_u16(values: &Vec<i64>, offset: i64) -> (r: Vec<u16>)
        requires
            forall|k: int|
                0 <= k < values@.len() ==> 0 <= #[trigger] values@[k] as int - offset as int <= 65535,
        ensures
            r@.len() == values@.len(),
            forall|k: int| 0 <= k < r@.len() ==> r@[k] as int == values@[k] as int - offset as int,
    {
        let mut out: Vec<u16> = Vec::new();
        let mut i: usize = 0;
        while i < values.len()
            invariant
                i <= values@.len(),
                out@.len() == i,
                forall|k: int|
                    0 <= k < values@.len() ==> 0 <= #[trigger] values@[k] as int - offset as int <= 65535,
                forall|k: int|
                    0 <= k < i ==> out@[k] as int == values@[k] as int - offset as int,
            decreases values@.len() - i,
        {
            let d: i128 = values[i] as i128 - offset as i128;
            out.push(d as u16);
            i = i + 1;
        }
        out
    }

    fn encode_u32(values: &Vec<i64>, offset: i64) -> (r: Vec<u32>)
        requires
            forall|k: int|
                0 <= k < values@.len() ==> 0 <= #[trigger] values@[k] as int - offset as int <= 4294967295,
        ensures
            r@.len() == values@.len(),
            forall|k: int| 0 <= k < r@.len() ==> r@[k] as int == values@[k] as int - offset as int,
    {
        let mut out: Vec<u32> = Vec::new();
        let mut i: usize = 0;
        while i < values.len()
            invariant
                i <= values@.len(),
                out@.len() == i,
                forall|k: int|
                    0 <= k < values@.len() ==> 0 <= #[trigger] values@[k] as int - offset as int <= 4294967295,
                forall|k: int|
                    0 <= k < i ==> out@[k] as int == values@[k] as int - offset as int,
            decreases values@.len() - i,
        {
            let d: i128 = values[i] as i128 - offset as i128;
            out.push(d as u32);
            i = i + 1;
        }
        out
    }
}

} // verus!

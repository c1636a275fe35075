//! Columns of cells.

use vstd::hash_map::StringHashMap;
use vstd::prelude::*;
use vstd::slice::slice_subrange;
use vstd::utf8::{
    decode_utf8, encode_utf8, encode_utf8_decode_utf8, encode_utf8_valid_utf8, valid_utf8,
};

use crate::names::same_text;
use crate::numbers::{decimal, int_of, int_text, parse_int};
use crate::plan::FieldType;

verus! {

/// The most cells that room is made for ahead of time.
pub const ROOM_LIMIT: usize = 65536;

/// How many cells to make room for when `cap` are expected.
fn room(cap: usize) -> (cells: usize)
    ensures
        cells == (if cap < ROOM_LIMIT {
            cap
        } else {
            ROOM_LIMIT
        }),
{
    if cap < ROOM_LIMIT {
        cap
    } else {
        ROOM_LIMIT
    }
}

/// A text column in one byte string: cell `i` is `data[offsets[i]..offsets[i + 1]]`, or null.
pub struct StrColumn {
    data: Vec<u8>,
    offsets: Vec<usize>,
    validity: Vec<bool>,
}

impl View for StrColumn {
    type V = Seq<Option<Seq<char>>>;

    closed spec fn view(&self) -> Seq<Option<Seq<char>>> {
        Seq::new(self.validity@.len(), |i: int| self.cell(i))
    }
}

impl StrColumn {
    /// The bytes of cell `i`.
    closed spec fn slice(&self, i: int) -> Seq<u8> {
        self.data@.subrange(self.offsets@[i] as int, self.offsets@[i + 1] as int)
    }

    /// Cell `i`.
    closed spec fn cell(&self, i: int) -> Option<Seq<char>> {
        if self.validity@[i] {
            Some(decode_utf8(self.slice(i)))
        } else {
            None
        }
    }

    /// The offsets ascend from zero to the end of the data, and each cell is valid UTF-8.
    pub closed spec fn wf(&self) -> bool {
        &&& self.offsets@.len() == self.validity@.len() + 1
        &&& self.offsets@[0] == 0
        &&& self.offsets@.last() == self.data@.len()
        &&& forall|i: int, j: int|
            0 <= i <= j < self.offsets@.len() ==> self.offsets@[i] <= self.offsets@[j]
        &&& forall|i: int| 0 <= i < self.validity@.len() ==> valid_utf8(#[trigger] self.slice(i))
    }

    /// The empty column.
    pub fn with_capacity(cap: usize) -> (column: Self)
        ensures
            column.wf(),
            column@ == Seq::<Option<Seq<char>>>::empty(),
    {
        let mut offsets: Vec<usize> = Vec::with_capacity(room(cap));
        offsets.push(0);
        let column = StrColumn {
            data: Vec::new(),
            offsets,
            validity: Vec::with_capacity(room(cap)),
        };
        assert(column@ =~= Seq::empty());
        column
    }

    /// Appends a cell.
    pub fn push(&mut self, v: Option<&str>)
        requires
            old(self).wf(),
        ensures
            final(self).wf(),
            final(self)@ == old(self)@.push(
                match v {
                    Some(s) => Some(s@),
                    None => None,
                },
            ),
    {
        let ghost before = *old(self);
        let ghost n = self.validity@.len() as int;
        let mut present = false;
        if let Some(s) = v {
            self.data.extend_from_slice(s.as_bytes());
            present = true;
        }
        self.offsets.push(self.data.len());
        self.validity.push(present);
        proof {
            let added: Seq<u8> = match v {
                Some(s) => encode_utf8(s@),
                None => Seq::empty(),
            };
            assert(self.data@ =~= before.data@ + added);
            assert forall|i: int| 0 <= i < n implies #[trigger] self.slice(i) == before.slice(
                i,
            ) by {
                assert(self.slice(i) =~= before.slice(i));
            }
            assert(self.slice(n) =~= added);
            if let Some(s) = v {
                encode_utf8_valid_utf8(s@);
                encode_utf8_decode_utf8(s@);
            } else {
                assert(valid_utf8(Seq::<u8>::empty()));
            }
            assert forall|i: int| 0 <= i < self.validity@.len() implies valid_utf8(
                #[trigger] self.slice(i),
            ) by {
                if i < n {
                    assert(self.slice(i) == before.slice(i));
                }
            }
            assert forall|i: int| 0 <= i < n implies self@[i] == before@[i] by {
                assert(self.slice(i) == before.slice(i));
            }
            let pushed: Option<Seq<char>> = match v {
                Some(s) => Some(s@),
                None => None,
            };
            assert(self@ =~= before@.push(pushed));
        }
    }

    /// Removes the last cell, if there is one.
    pub fn pop(&mut self)
        requires
            old(self).wf(),
        ensures
            final(self).wf(),
            final(self)@ == (if old(self)@.len() == 0 {
                old(self)@
            } else {
                old(self)@.drop_last()
            }),
    {
        let ghost before = *old(self);
        if self.validity.len() > 0 {
            let _ = self.validity.pop();
            let _ = self.offsets.pop();
            let end: usize = self.offsets[self.offsets.len() - 1];
            self.data.truncate(end);
            proof {
                let n = self.validity@.len() as int;
                assert forall|i: int| 0 <= i < n implies #[trigger] self.slice(i) == before.slice(
                    i,
                ) by {
                    assert(self.offsets@[i + 1] <= end);
                    assert(self.slice(i) =~= before.slice(i));
                }
                assert forall|i: int| 0 <= i < n implies self@[i] == before@[i] by {
                    assert(self.slice(i) == before.slice(i));
                }
                assert(self@ =~= before@.drop_last());
            }
        }
    }

    /// The number of cells.
    pub fn len(&self) -> (n: usize)
        ensures
            n == self@.len(),
    {
        self.validity.len()
    }

    /// Cell `i`; a cell past the end is null.
    pub fn get(&self, i: usize) -> (cell: Option<&str>)
        requires
            self.wf(),
        ensures
            match cell {
                Some(s) => i < self@.len() && self@[i as int] == Some(s@),
                None => i >= self@.len() || self@[i as int] is None,
            },
    {
        if i >= self.validity.len() || !self.validity[i] {
            return None;
        }
        let raw = slice_subrange(self.data.as_slice(), self.offsets[i], self.offsets[i + 1]);
        assert(raw@ == self.slice(i as int));
        match simdutf8::basic::from_utf8(raw) {
            Ok(s) => {
                proof {
                    encode_utf8_decode_utf8(s@);
                }
                Some(s)
            },
            Err(_) => None,
        }
    }

    /// Appends the cells of another column.
    pub fn append(&mut self, other: &StrColumn)
        requires
            old(self).wf(),
            other.wf(),
        ensures
            final(self).wf(),
            final(self)@ == old(self)@ + other@,
    {
        let mut i: usize = 0;
        let ghost before = old(self)@;
        assert(before + other@.take(0) =~= before);
        while i < other.len()
            invariant
                i <= other@.len(),
                self.wf(),
                other.wf(),
                self@ == before + other@.take(i as int),
            decreases other@.len() - i,
        {
            let cell = other.get(i);
            self.push(cell);
            assert(other@.take(i + 1) =~= other@.take(i as int).push(other@[i as int]));
            assert(self@ =~= before + other@.take(i + 1));
            i += 1;
        }
        assert(other@.take(other@.len() as int) =~= other@);
    }

    /// The bytes of all cells, the offsets at which each cell starts and the last one ends, and
    /// which cells are not null.
    pub fn parts(&self) -> (parts: (&[u8], &[usize], &[bool]))
        requires
            self.wf(),
        ensures
            parts.1@.len() == self@.len() + 1,
            parts.2@.len() == self@.len(),
            parts.1@[0] == 0,
            parts.1@.last() == parts.0@.len(),
            forall|i: int, j: int|
                0 <= i <= j < parts.1@.len() ==> parts.1@[i] <= parts.1@[j],
            forall|i: int|
                0 <= i < self@.len() ==> #[trigger] self@[i] == (if parts.2@[i] {
                    Some(
                        decode_utf8(
                            parts.0@.subrange(parts.1@[i] as int, parts.1@[i + 1] as int),
                        ),
                    )
                } else {
                    None
                }),
    {
        (self.data.as_slice(), self.offsets.as_slice(), self.validity.as_slice())
    }
}

/// The dictionary in which `v` comes after the entries of `dict`, unless it is one of them.
pub open spec fn with_entry(dict: Seq<Seq<char>>, v: Seq<char>) -> Seq<Seq<char>> {
    if dict.contains(v) {
        dict
    } else {
        dict.push(v)
    }
}

/// The place of `v` in a dictionary that holds it.
pub open spec fn code_of(dict: Seq<Seq<char>>, v: Seq<char>) -> int
    decreases dict.len(),
{
    if dict.len() == 0 {
        0
    } else if dict.drop_last().contains(v) {
        code_of(dict.drop_last(), v)
    } else {
        dict.len() - 1
    }
}

/// The dictionary in which the texts of `more` come after the entries of `dict`, each once.
pub open spec fn with_entries(dict: Seq<Seq<char>>, more: Seq<Seq<char>>) -> Seq<Seq<char>>
    decreases more.len(),
{
    if more.len() == 0 {
        dict
    } else {
        with_entry(with_entries(dict, more.drop_last()), more.last())
    }
}

/// Codes of one dictionary as codes of another.
pub open spec fn recoded(
    codes: Seq<Option<int>>,
    from: Seq<Seq<char>>,
    to: Seq<Seq<char>>,
) -> Seq<Option<int>> {
    Seq::new(
        codes.len(),
        |i: int|
            match codes[i] {
                Some(code) => Some(code_of(to, from[code])),
                None => None,
            },
    )
}

/// The distinct texts of a list of cells, in the order in which they first come.
pub open spec fn distinct(cells: Seq<Option<Seq<char>>>) -> Seq<Seq<char>>
    decreases cells.len(),
{
    if cells.len() == 0 {
        Seq::empty()
    } else {
        match cells.last() {
            Some(v) => with_entry(distinct(cells.drop_last()), v),
            None => distinct(cells.drop_last()),
        }
    }
}

/// The codes of a list of cells in a dictionary.
pub open spec fn coded(cells: Seq<Option<Seq<char>>>, dict: Seq<Seq<char>>) -> Seq<Option<int>> {
    Seq::new(
        cells.len(),
        |i: int|
            match cells[i] {
                Some(v) => Some(code_of(dict, v)),
                None => None,
            },
    )
}

/// The most distinct texts with which a column of `len` cells is turned into a dictionary: a
/// twentieth of the cells, but at least 16 and at most 256.
pub open spec fn dict_limit(len: nat) -> nat {
    if len / 20 < 16 {
        16
    } else if len / 20 > 256 {
        256
    } else {
        len / 20
    }
}

/// What a column holds.
#[verifier::ext_equal]
pub enum ColumnView {
    /// Texts.
    Text(Seq<Option<Seq<char>>>),
    /// Integers.
    Int(Seq<Option<i64>>),
    /// Floating point numbers, by the texts that they were written as.
    Float(Seq<Option<Seq<char>>>),
    /// Truth values.
    Bool(Seq<Option<bool>>),
    /// Texts, each by its place in the dictionary.
    Dict { codes: Seq<Option<int>>, dict: Seq<Seq<char>> },
}

/// The truth value that a text stands for.
pub open spec fn bool_of(text: Seq<char>) -> Option<bool> {
    if text == "true"@ {
        Some(true)
    } else if text == "false"@ {
        Some(false)
    } else {
        None
    }
}

/// The text that stands for a truth value.
pub open spec fn bool_text(b: bool) -> Seq<char> {
    if b {
        "true"@
    } else {
        "false"@
    }
}

impl ColumnView {
    /// The empty column of a type.
    pub open spec fn empty(field_type: FieldType) -> ColumnView {
        match field_type {
            FieldType::String => ColumnView::Text(Seq::empty()),
            FieldType::Int64 => ColumnView::Int(Seq::empty()),
            FieldType::Float64 => ColumnView::Float(Seq::empty()),
            FieldType::Boolean => ColumnView::Bool(Seq::empty()),
            FieldType::Dictionary => ColumnView::Dict { codes: Seq::empty(), dict: Seq::empty() },
        }
    }

    /// The type of the column.
    pub open spec fn kind(self) -> FieldType {
        match self {
            ColumnView::Text(_) => FieldType::String,
            ColumnView::Int(_) => FieldType::Int64,
            ColumnView::Float(_) => FieldType::Float64,
            ColumnView::Bool(_) => FieldType::Boolean,
            ColumnView::Dict { .. } => FieldType::Dictionary,
        }
    }

    /// The number of cells.
    pub open spec fn len(self) -> nat {
        match self {
            ColumnView::Text(cells) => cells.len(),
            ColumnView::Int(cells) => cells.len(),
            ColumnView::Float(cells) => cells.len(),
            ColumnView::Bool(cells) => cells.len(),
            ColumnView::Dict { codes, dict } => codes.len(),
        }
    }

    /// The column after a value arrives. A text that is no value of the column's type becomes
    /// null.
    pub open spec fn pushed(self, value: Option<Seq<char>>) -> ColumnView {
        match self {
            ColumnView::Text(cells) => ColumnView::Text(cells.push(value)),
            ColumnView::Int(cells) => ColumnView::Int(
                cells.push(
                    match value {
                        Some(v) => int_of(encode_utf8(v)),
                        None => None,
                    },
                ),
            ),
            ColumnView::Float(cells) => ColumnView::Float(cells.push(value)),
            ColumnView::Bool(cells) => ColumnView::Bool(
                cells.push(
                    match value {
                        Some(v) => bool_of(v),
                        None => None,
                    },
                ),
            ),
            ColumnView::Dict { codes, dict } => match value {
                Some(v) => ColumnView::Dict {
                    codes: codes.push(Some(code_of(with_entry(dict, v), v))),
                    dict: with_entry(dict, v),
                },
                None => ColumnView::Dict { codes: codes.push(None), dict },
            },
        }
    }

    /// The column without its last cell. A dictionary keeps its entries.
    pub open spec fn popped(self) -> ColumnView {
        if self.len() == 0 {
            self
        } else {
            match self {
                ColumnView::Text(cells) => ColumnView::Text(cells.drop_last()),
                ColumnView::Int(cells) => ColumnView::Int(cells.drop_last()),
                ColumnView::Float(cells) => ColumnView::Float(cells.drop_last()),
                ColumnView::Bool(cells) => ColumnView::Bool(cells.drop_last()),
                ColumnView::Dict { codes, dict } => ColumnView::Dict {
                    codes: codes.drop_last(),
                    dict,
                },
            }
        }
    }

    /// Cell `i` as a text, a floating point number as it was written; a cell past the end is null.
    pub open spec fn text_at(self, i: int) -> Option<Seq<char>> {
        if i < 0 || i >= self.len() {
            None
        } else {
            match self {
                ColumnView::Text(cells) => cells[i],
                ColumnView::Int(cells) => match cells[i] {
                    Some(n) => Some(decode_utf8(decimal(n as int))),
                    None => None,
                },
                ColumnView::Float(cells) => cells[i],
                ColumnView::Bool(cells) => match cells[i] {
                    Some(b) => Some(bool_text(b)),
                    None => None,
                },
                ColumnView::Dict { codes, dict } => match codes[i] {
                    Some(code) => Some(dict[code]),
                    None => None,
                },
            }
        }
    }
}

impl ColumnView {
    /// What a filter compares in cell `i`: its text, and in a column of floating point numbers the
    /// text of the number, which is `number`.
    pub open spec fn filter_text(self, i: int, number: Option<Seq<char>>) -> Option<Seq<char>> {
        if self is Float && self.text_at(i) is Some {
            number
        } else {
            self.text_at(i)
        }
    }

    /// The column with the cells of another one of its type after its own.
    pub open spec fn extended(self, other: ColumnView) -> Option<ColumnView> {
        match (self, other) {
            (ColumnView::Text(a), ColumnView::Text(b)) => Some(ColumnView::Text(a + b)),
            (ColumnView::Int(a), ColumnView::Int(b)) => Some(ColumnView::Int(a + b)),
            (ColumnView::Float(a), ColumnView::Float(b)) => Some(ColumnView::Float(a + b)),
            (ColumnView::Bool(a), ColumnView::Bool(b)) => Some(ColumnView::Bool(a + b)),
            (
                ColumnView::Dict { codes: a, dict: to },
                ColumnView::Dict { codes: b, dict: from },
            ) => Some(
                ColumnView::Dict {
                    codes: a + recoded(b, from, with_entries(to, from)),
                    dict: with_entries(to, from),
                },
            ),
            _ => None,
        }
    }

    /// The column as a dictionary, where it is a text column of at least `min_rows` cells with few
    /// distinct texts.
    pub open spec fn upgraded(self, min_rows: nat) -> ColumnView {
        match self {
            ColumnView::Text(cells) => if cells.len() < min_rows || distinct(cells).len()
                > dict_limit(cells.len()) {
                self
            } else {
                ColumnView::Dict { codes: coded(cells, distinct(cells)), dict: distinct(cells) }
            },
            _ => self,
        }
    }
}

/// A column under construction.
pub enum ColumnBuilder {
    String(StrColumn),
    Int64(Vec<Option<i64>>),
    /// Floating point numbers, by the texts that they were written as.
    Float64(Vec<Option<String>>),
    Boolean(Vec<Option<bool>>),
    Dictionary {
        codes: Vec<Option<usize>>,
        dict: Vec<String>,
        /// The place of each text in `dict`.
        index: StringHashMap<usize>,
    },
}

/// An optional text.
pub open spec fn opt_text(s: Option<String>) -> Option<Seq<char>> {
    match s {
        Some(t) => Some(t@),
        None => None,
    }
}

/// The optional texts of a list.
pub open spec fn opt_texts(list: Seq<Option<String>>) -> Seq<Option<Seq<char>>> {
    Seq::new(list.len(), |i: int| opt_text(list[i]))
}

/// The texts of a dictionary.
pub open spec fn dict_texts(dict: Seq<String>) -> Seq<Seq<char>> {
    Seq::new(dict.len(), |i: int| dict[i]@)
}

/// The codes of a list as mathematical integers.
pub open spec fn opt_codes(list: Seq<Option<usize>>) -> Seq<Option<int>> {
    Seq::new(
        list.len(),
        |i: int|
            match list[i] {
                Some(code) => Some(code as int),
                None => None,
            },
    )
}

/// `index` maps each text of the dictionary, and no other, to its place.
pub open spec fn indexes(index: Map<Seq<char>, usize>, dict: Seq<Seq<char>>) -> bool {
    &&& forall|i: int|
        0 <= i < dict.len() ==> index.contains_key(#[trigger] dict[i]) && index[dict[i]] == i
    &&& forall|v: Seq<char>| #[trigger]
        index.contains_key(v) ==> index[v] < dict.len() && dict[index[v] as int] == v
}

/// In a list without repeats the place of an element is its code.
pub proof fn lemma_code_of(dict: Seq<Seq<char>>, i: int)
    requires
        dict.no_duplicates(),
        0 <= i < dict.len(),
    ensures
        dict.contains(dict[i]),
        code_of(dict, dict[i]) == i,
    decreases dict.len(),
{
    let head = dict.drop_last();
    if i < head.len() {
        assert(head[i] == dict[i]);
        assert forall|a: int, b: int| 0 <= a < head.len() && 0 <= b < head.len() && a
            != b implies head[a] != head[b] by {
            assert(head[a] == dict[a] && head[b] == dict[b]);
        }
        lemma_code_of(head, i);
    } else if head.contains(dict[i]) {
        let j = choose|j: int| 0 <= j < head.len() && head[j] == dict[i];
        assert(dict[j] == dict[i]);
    }
}

/// The code of an entry is the place of the entry.
pub proof fn lemma_code_holds(dict: Seq<Seq<char>>, v: Seq<char>)
    requires
        dict.contains(v),
    ensures
        0 <= code_of(dict, v) < dict.len(),
        dict[code_of(dict, v)] == v,
    decreases dict.len(),
{
    let head = dict.drop_last();
    if head.contains(v) {
        lemma_code_holds(head, v);
        assert(head[code_of(head, v)] == dict[code_of(head, v)]);
    } else {
        let j = choose|j: int| 0 <= j < dict.len() && dict[j] == v;
        if j < head.len() {
            assert(head[j] == v);
        }
    }
}

/// An indexed dictionary has no repeats.
proof fn lemma_indexes_once(index: Map<Seq<char>, usize>, dict: Seq<Seq<char>>)
    requires
        indexes(index, dict),
    ensures
        dict.no_duplicates(),
{
    assert forall|a: int, b: int| 0 <= a < dict.len() && 0 <= b < dict.len() && a != b implies dict[a]
        != dict[b] by {
        assert(index[dict[a]] == a);
        assert(index[dict[b]] == b);
    }
}

/// The code of `v` in the dictionary; a text that is not in it yet is added at its end.
pub fn dict_code(dict: &mut Vec<String>, index: &mut StringHashMap<usize>, v: &str) -> (code: usize)
    requires
        indexes(old(index)@, dict_texts(old(dict)@)),
    ensures
        indexes(final(index)@, dict_texts(final(dict)@)),
        dict_texts(final(dict)@) == with_entry(dict_texts(old(dict)@), v@),
        code == code_of(dict_texts(final(dict)@), v@),
        code < final(dict)@.len(),
{
    let ghost before = dict_texts(dict@);
    if let Some(code) = index.get(v) {
        proof {
            lemma_indexes_once(index@, before);
            lemma_code_of(before, *code as int);
        }
        return *code;
    }
    let code: usize = dict.len();
    proof {
        if before.contains(v@) {
            let i = choose|i: int| 0 <= i < before.len() && before[i] == v@;
            assert(index@.contains_key(before[i]));
        }
    }
    dict.push(v.to_owned());
    index.insert(v.to_owned(), code);
    proof {
        let after = dict_texts(dict@);
        assert(after =~= before.push(v@));
        assert forall|i: int| 0 <= i < after.len() implies index@.contains_key(#[trigger] after[i])
            && index@[after[i]] == i by {
            if i < before.len() {
                assert(after[i] == before[i]);
                assert(before.contains(before[i]));
            }
        }
        assert forall|w: Seq<char>| #[trigger] index@.contains_key(w) implies index@[w]
            < after.len() && after[index@[w] as int] == w by {
            if w != v@ {
                assert(before[index@[w] as int] == w);
            }
        }
        lemma_indexes_once(index@, after);
        lemma_code_of(after, code as int);
    }
    code
}

impl View for ColumnBuilder {
    type V = ColumnView;

    open spec fn view(&self) -> ColumnView {
        match *self {
            ColumnBuilder::String(column) => ColumnView::Text(column@),
            ColumnBuilder::Int64(cells) => ColumnView::Int(cells@),
            ColumnBuilder::Float64(cells) => ColumnView::Float(opt_texts(cells@)),
            ColumnBuilder::Boolean(cells) => ColumnView::Bool(cells@),
            ColumnBuilder::Dictionary { codes, dict, index } => ColumnView::Dict {
                codes: opt_codes(codes@),
                dict: dict_texts(dict@),
            },
        }
    }
}

impl ColumnBuilder {
    /// The parts of the column fit together: a text column is well formed, and in a dictionary
    /// each code is the place of an entry and each entry is indexed.
    pub open spec fn wf(&self) -> bool {
        match *self {
            ColumnBuilder::String(column) => column.wf(),
            ColumnBuilder::Dictionary { codes, dict, index } => {
                &&& indexes(index@, dict_texts(dict@))
                &&& forall|i: int|
                    0 <= i < codes@.len() ==> (#[trigger] codes@[i] matches Some(code) ==> code
                        < dict@.len())
            },
            _ => true,
        }
    }

    /// The empty column of a type.
    pub fn with_capacity(cap: usize, field_type: &FieldType) -> (column: Self)
        ensures
            column.wf(),
            column@ == ColumnView::empty(*field_type),
    {
        let column = match field_type {
            FieldType::String => ColumnBuilder::String(StrColumn::with_capacity(cap)),
            FieldType::Int64 => ColumnBuilder::Int64(Vec::with_capacity(room(cap))),
            FieldType::Float64 => ColumnBuilder::Float64(Vec::with_capacity(room(cap))),
            FieldType::Boolean => ColumnBuilder::Boolean(Vec::with_capacity(room(cap))),
            FieldType::Dictionary => ColumnBuilder::Dictionary {
                codes: Vec::with_capacity(room(cap)),
                dict: Vec::new(),
                index: StringHashMap::new(),
            },
        };
        assert(column@ =~= ColumnView::empty(*field_type));
        column
    }

    /// The number of cells.
    pub fn len(&self) -> (n: usize)
        ensures
            n == self@.len(),
    {
        match self {
            ColumnBuilder::String(column) => column.len(),
            ColumnBuilder::Int64(cells) => cells.len(),
            ColumnBuilder::Float64(cells) => cells.len(),
            ColumnBuilder::Boolean(cells) => cells.len(),
            ColumnBuilder::Dictionary { codes, .. } => codes.len(),
        }
    }

    /// Appends a value. A text that is no value of the column's type becomes null.
    pub fn push_str(&mut self, value: Option<&str>)
        requires
            old(self).wf(),
        ensures
            final(self).wf(),
            final(self)@ == old(self)@.pushed(
                match value {
                    Some(v) => Some(v@),
                    None => None,
                },
            ),
    {
        let ghost before = old(self)@;
        let ghost added: Option<Seq<char>> = match value {
            Some(v) => Some(v@),
            None => None,
        };
        match self {
            ColumnBuilder::String(column) => {
                column.push(value);
            },
            ColumnBuilder::Int64(cells) => {
                let cell: Option<i64> = match value {
                    Some(v) => parse_int(v.as_bytes()),
                    None => None,
                };
                cells.push(cell);
            },
            ColumnBuilder::Float64(cells) => {
                let cell: Option<String> = match value {
                    Some(v) => Some(v.to_owned()),
                    None => None,
                };
                let ghost old_cells = cells@;
                cells.push(cell);
                assert(opt_texts(cells@) =~= opt_texts(old_cells).push(added));
            },
            ColumnBuilder::Boolean(cells) => {
                let cell: Option<bool> = match value {
                    Some(v) => parse_bool(v),
                    None => None,
                };
                cells.push(cell);
            },
            ColumnBuilder::Dictionary { codes, dict, index } => {
                let ghost old_codes = codes@;
                let ghost old_dict = dict@;
                match value {
                    Some(v) => {
                        let code: usize = dict_code(dict, index, v);
                        assert(dict_texts(dict@).len() == dict@.len());
                        assert(dict_texts(old_dict).len() == old_dict.len());
                        codes.push(Some(code));
                        assert(opt_codes(codes@) =~= opt_codes(old_codes).push(Some(code as int)));
                    },
                    None => {
                        codes.push(None);
                        assert(opt_codes(codes@) =~= opt_codes(old_codes).push(None));
                    },
                }
            },
        }
    }

    /// Appends a value. A text that is no value of the column's type becomes null.
    pub fn push(&mut self, value: Option<String>)
        requires
            old(self).wf(),
        ensures
            final(self).wf(),
            final(self)@ == old(self)@.pushed(opt_text(value)),
    {
        match value {
            Some(v) => self.push_str(Some(v.as_str())),
            None => self.push_str(None),
        }
    }

    /// Removes the last cell, if there is one.
    pub fn pop(&mut self)
        requires
            old(self).wf(),
        ensures
            final(self).wf(),
            final(self)@ == old(self)@.popped(),
    {
        match self {
            ColumnBuilder::String(column) => {
                column.pop();
            },
            ColumnBuilder::Int64(cells) => {
                let ghost before = cells@;
                let _ = cells.pop();
                assert(before.len() > 0 ==> cells@ =~= before.drop_last());
            },
            ColumnBuilder::Float64(cells) => {
                let ghost before = cells@;
                let _ = cells.pop();
                assert(before.len() > 0 ==> opt_texts(cells@) =~= opt_texts(before).drop_last());
            },
            ColumnBuilder::Boolean(cells) => {
                let ghost before = cells@;
                let _ = cells.pop();
                assert(before.len() > 0 ==> cells@ =~= before.drop_last());
            },
            ColumnBuilder::Dictionary { codes, .. } => {
                let ghost before = codes@;
                let _ = codes.pop();
                assert(before.len() > 0 ==> opt_codes(codes@) =~= opt_codes(before).drop_last());
            },
        }
    }
}

/// One more entry leaves the codes of those that are there as they are.
proof fn lemma_entry_keeps(dict: Seq<Seq<char>>, w: Seq<char>, v: Seq<char>)
    requires
        dict.contains(v),
    ensures
        with_entry(dict, w).contains(v),
        code_of(with_entry(dict, w), v) == code_of(dict, v),
{
    if !dict.contains(w) {
        let after = dict.push(w);
        assert(after.drop_last() =~= dict);
        let i = choose|i: int| 0 <= i < dict.len() && dict[i] == v;
        assert(after[i] == v);
    }
}

impl ColumnBuilder {
    /// The type of the column.
    pub fn field_type(&self) -> (kind: FieldType)
        ensures
            kind == self@.kind(),
    {
        match self {
            ColumnBuilder::String(_) => FieldType::String,
            ColumnBuilder::Int64(_) => FieldType::Int64,
            ColumnBuilder::Float64(_) => FieldType::Float64,
            ColumnBuilder::Boolean(_) => FieldType::Boolean,
            ColumnBuilder::Dictionary { .. } => FieldType::Dictionary,
        }
    }

    /// What a filter compares in cell `index`; a cell past the end is null. In a column of floating
    /// point numbers that is the text of the number, which `number` holds where the cell is one.
    pub fn get_filter_value(&self, index: usize, number: Option<&str>) -> (value: Option<String>)
        requires
            self.wf(),
        ensures
            opt_text(value) == self@.filter_text(
                index as int,
                match number {
                    Some(text) => Some(text@),
                    None => None,
                },
            ),
    {
        if index >= self.len() {
            return None;
        }
        match self {
            ColumnBuilder::String(column) => match column.get(index) {
                Some(s) => Some(s.to_owned()),
                None => None,
            },
            ColumnBuilder::Int64(cells) => match cells[index] {
                Some(n) => Some(int_text(n)),
                None => None,
            },
            ColumnBuilder::Float64(cells) => match (&cells[index], number) {
                (Some(_), Some(text)) => Some(text.to_owned()),
                _ => None,
            },
            ColumnBuilder::Boolean(cells) => match cells[index] {
                Some(true) => Some("true".to_owned()),
                Some(false) => Some("false".to_owned()),
                None => None,
            },
            ColumnBuilder::Dictionary { codes, dict, .. } => match codes[index] {
                Some(code) => Some(dict[code].clone()),
                None => None,
            },
        }
    }

    /// The texts of a text column.
    pub fn as_str_vec(&self) -> (texts: Vec<Option<String>>)
        requires
            self.wf(),
            self is String,
        ensures
            ColumnView::Text(opt_texts(texts@)) == self@,
    {
        let mut texts: Vec<Option<String>> = Vec::new();
        let mut i: usize = 0;
        let len: usize = self.len();
        assert(opt_texts(texts@) =~= Seq::empty());
        while i < len
            invariant
                self.wf(),
                self is String,
                len == self@.len(),
                i <= len,
                opt_texts(texts@) == self@->Text_0.take(i as int),
            decreases len - i,
        {
            let ghost before = texts@;
            let cell = self.get_filter_value(i, None);
            texts.push(cell);
            assert(opt_texts(texts@) =~= opt_texts(before).push(opt_text(cell)));
            assert(self@->Text_0.take(i + 1) =~= self@->Text_0.take(i as int).push(
                self@->Text_0[i as int],
            ));
            i += 1;
        }
        assert(self@->Text_0.take(len as int) =~= self@->Text_0);
        texts
    }
}

/// Appends the texts of `from` to a dictionary, each once. Returns the code of each.
fn add_entries(
    dict: &mut Vec<String>,
    index: &mut StringHashMap<usize>,
    from: &Vec<String>,
) -> (codes: Vec<usize>)
    requires
        indexes(old(index)@, dict_texts(old(dict)@)),
    ensures
        indexes(final(index)@, dict_texts(final(dict)@)),
        dict_texts(final(dict)@) == with_entries(dict_texts(old(dict)@), dict_texts(from@)),
        codes@.len() == from@.len(),
        forall|i: int|
            0 <= i < codes@.len() ==> (#[trigger] codes@[i]) < final(dict)@.len() && codes@[i]
                == code_of(dict_texts(final(dict)@), from@[i]@),
{
    let ghost start = dict_texts(dict@);
    let ghost texts = dict_texts(from@);
    let mut codes: Vec<usize> = Vec::new();
    let mut i: usize = 0;
    while i < from.len()
        invariant
            i <= from@.len(),
            texts == dict_texts(from@),
            indexes(index@, dict_texts(dict@)),
            dict_texts(dict@) == with_entries(start, texts.take(i as int)),
            codes@.len() == i,
            forall|k: int|
                0 <= k < i ==> (#[trigger] codes@[k]) < dict@.len() && dict_texts(dict@).contains(
                    texts[k],
                ) && codes@[k] == code_of(dict_texts(dict@), texts[k]),
        decreases from@.len() - i,
    {
        let ghost before = dict_texts(dict@);
        let ghost before_len = dict@.len();
        let ghost old_codes = codes@;
        assert(texts.take(i + 1).drop_last() =~= texts.take(i as int));
        assert(texts.take(i + 1).last() == texts[i as int]);
        let code: usize = dict_code(dict, index, from[i].as_str());
        codes.push(code);
        proof {
            assert(dict_texts(dict@).len() == dict@.len());
            assert(before.len() == before_len);
            assert forall|k: int| 0 <= k < i implies (#[trigger] codes@[k]) < dict@.len()
                && dict_texts(dict@).contains(texts[k]) && codes@[k] == code_of(
                dict_texts(dict@),
                texts[k],
            ) by {
                assert(old_codes[k] == codes@[k]);
                lemma_entry_keeps(before, texts[i as int], texts[k]);
            }
            lemma_entry_added(before, texts[i as int]);
        }
        i += 1;
    }
    assert(texts.take(texts.len() as int) =~= texts);
    codes
}

/// An added entry is in the dictionary.
proof fn lemma_entry_added(dict: Seq<Seq<char>>, v: Seq<char>)
    ensures
        with_entry(dict, v).contains(v),
{
    if !dict.contains(v) {
        assert(dict.push(v)[dict.len() as int] == v);
    }
}

/// The cells of a text column as codes in a dictionary of its distinct texts, unless these are
/// more than `limit`.
fn encode_column(column: &StrColumn, limit: usize) -> (encoded: Option<
    (Vec<Option<usize>>, Vec<String>, StringHashMap<usize>),
>)
    requires
        column.wf(),
    ensures
        match encoded {
            Some(e) => distinct(column@).len() <= limit && dict_texts(e.1@) == distinct(column@)
                && opt_codes(e.0@) == coded(column@, distinct(column@)) && indexes(
                e.2@,
                dict_texts(e.1@),
            ) && forall|k: int|
                0 <= k < e.0@.len() ==> (#[trigger] e.0@[k] matches Some(code) ==> code
                    < e.1@.len()),
            None => distinct(column@).len() > limit,
        },
{
    let len: usize = column.len();
    let ghost cells = column@;
    let mut codes: Vec<Option<usize>> = Vec::with_capacity(room(len));
    let mut dict: Vec<String> = Vec::new();
    let mut index: StringHashMap<usize> = StringHashMap::new();
    let mut i: usize = 0;
    proof {
        assert(dict_texts(dict@) =~= Seq::empty());
        assert(cells.take(0) =~= Seq::empty());
        assert(opt_codes(codes@) =~= coded(cells.take(0), dict_texts(dict@)));
    }
    while i < len
        invariant
            column.wf(),
            column@ == cells,
            cells.len() == len,
            i <= len,
            dict@.len() <= limit,
            indexes(index@, dict_texts(dict@)),
            dict_texts(dict@) == distinct(cells.take(i as int)),
            opt_codes(codes@) == coded(cells.take(i as int), dict_texts(dict@)),
            codes@.len() == i,
            forall|k: int|
                0 <= k < i ==> (#[trigger] codes@[k] matches Some(code) ==> code
                    < dict@.len()),
            forall|k: int|
                0 <= k < i ==> (#[trigger] cells[k] matches Some(v) ==> dict_texts(
                    dict@,
                ).contains(v)),
        decreases len - i,
    {
        let ghost before = dict_texts(dict@);
        let ghost before_len = dict@.len();
        let ghost old_codes = codes@;
        assert(cells.take(i + 1).drop_last() =~= cells.take(i as int));
        assert(cells.take(i + 1).last() == cells[i as int]);
        let code: Option<usize> = match column.get(i) {
            Some(s) => Some(dict_code(&mut dict, &mut index, s)),
            None => None,
        };
        codes.push(code);
        proof {
            assert(dict_texts(dict@).len() == dict@.len());
            assert(before.len() == before_len);
            assert forall|k: int| 0 <= k < i implies (#[trigger] cells[k] matches Some(v)
                ==> dict_texts(dict@).contains(v) && code_of(dict_texts(dict@), v) == code_of(
                before,
                v,
            )) by {
                if let (Some(v), Some(w)) = (cells[k], cells[i as int]) {
                    lemma_entry_keeps(before, w, v);
                }
            }
            if let Some(w) = cells[i as int] {
                lemma_entry_added(before, w);
            }
            let now = coded(cells.take(i + 1), dict_texts(dict@));
            assert forall|k: int| 0 <= k < i + 1 implies opt_codes(codes@)[k] == now[k] by {
                if k < i {
                    assert(opt_codes(codes@)[k] == opt_codes(old_codes)[k]);
                    assert(opt_codes(old_codes)[k] == coded(cells.take(i as int), before)[k]);
                    assert(cells.take(i as int)[k] == cells[k]);
                    assert(cells.take(i + 1)[k] == cells[k]);
                }
            }
            assert(opt_codes(codes@) =~= now);
        }
        if dict.len() > limit {
            proof {
                lemma_distinct_grows(cells, i + 1);
            }
            return None;
        }
        i += 1;
    }
    assert(cells.take(len as int) =~= cells);
    assert(dict_texts(dict@).len() == dict@.len());
    Some((codes, dict, index))
}

impl ColumnBuilder {
    /// Appends the cells of another column, which must be of the same type.
    pub fn extend_owned(&mut self, other: ColumnBuilder) -> (done: Result<(), String>)
        requires
            old(self).wf(),
            other.wf(),
        ensures
            final(self).wf(),
            match old(self)@.extended(other@) {
                Some(view) => done is Ok && final(self)@ == view,
                None => done matches Err(message) && message@
                    == "extend_owned: column type mismatch across chunks"@ && final(self)@
                    == old(self)@,
            },
    {
        match (self, other) {
            (ColumnBuilder::String(a), ColumnBuilder::String(b)) => {
                a.append(&b);
            },
            (ColumnBuilder::Int64(a), ColumnBuilder::Int64(b)) => {
                let mut b = b;
                a.append(&mut b);
            },
            (ColumnBuilder::Float64(a), ColumnBuilder::Float64(b)) => {
                let mut b = b;
                let ghost before = a@;
                let ghost more = b@;
                a.append(&mut b);
                assert(opt_texts(a@) =~= opt_texts(before) + opt_texts(more));
            },
            (ColumnBuilder::Boolean(a), ColumnBuilder::Boolean(b)) => {
                let mut b = b;
                a.append(&mut b);
            },
            (
                ColumnBuilder::Dictionary { codes: a_codes, dict: a_dict, index: a_index },
                ColumnBuilder::Dictionary { codes: b_codes, dict: b_dict, index: _ },
            ) => {
                let ghost start = opt_codes(a_codes@);
                let ghost old_codes = a_codes@;
                let ghost old_dict = dict_texts(a_dict@);
                let remap = add_entries(a_dict, a_index, &b_dict);
                let ghost merged = dict_texts(a_dict@);
                let ghost wanted = recoded(opt_codes(b_codes@), dict_texts(b_dict@), merged);
                proof {
                    lemma_entries_grow(old_dict, dict_texts(b_dict@));
                    assert(merged.len() == a_dict@.len());
                }
                let mut i: usize = 0;
                assert(start + wanted.take(0) =~= start);
                while i < b_codes.len()
                    invariant
                        i <= b_codes@.len(),
                        remap@.len() == b_dict@.len(),
                        merged == dict_texts(a_dict@),
                        wanted == recoded(opt_codes(b_codes@), dict_texts(b_dict@), merged),
                        forall|k: int|
                            0 <= k < remap@.len() ==> (#[trigger] remap@[k]) < a_dict@.len()
                                && remap@[k] == code_of(merged, b_dict@[k]@),
                        forall|k: int|
                            0 <= k < b_codes@.len() ==> (#[trigger] b_codes@[k] matches Some(code)
                                ==> code < b_dict@.len()),
                        forall|k: int|
                            0 <= k < a_codes@.len() ==> (#[trigger] a_codes@[k] matches Some(code)
                                ==> code < a_dict@.len()),
                        opt_codes(a_codes@) == start + wanted.take(i as int),
                    decreases b_codes@.len() - i,
                {
                    let ghost before = a_codes@;
                    assert(opt_codes(b_codes@)[i as int] == (match b_codes@[i as int] {
                        Some(code) => Some(code as int),
                        None => None,
                    }));
                    let cell: Option<usize> = match b_codes[i] {
                        Some(code) => Some(remap[code]),
                        None => None,
                    };
                    a_codes.push(cell);
                    proof {
                        let added: Option<int> = match cell {
                            Some(code) => Some(code as int),
                            None => None,
                        };
                        assert(wanted[i as int] == added);
                        assert(wanted.take(i + 1) =~= wanted.take(i as int).push(added));
                        assert(opt_codes(a_codes@) =~= opt_codes(before).push(added));
                        assert(opt_codes(a_codes@) =~= start + wanted.take(i + 1));
                    }
                    i += 1;
                }
                assert(wanted.take(b_codes@.len() as int) =~= wanted);
            },
            _ => {
                return Err("extend_owned: column type mismatch across chunks".to_owned());
            },
        }
        Ok(())
    }

    /// Turns a text column of at least `min_rows` cells with few distinct texts into a dictionary.
    pub fn try_upgrade_to_dict(&mut self, min_rows: usize)
        requires
            old(self).wf(),
        ensures
            final(self).wf(),
            final(self)@ == old(self)@.upgraded(min_rows as nat),
    {
        let encoded = match &*self {
            ColumnBuilder::String(column) => {
                let len: usize = column.len();
                if len < min_rows {
                    None
                } else {
                    let share: usize = len / 20;
                    let limit: usize = if share < 16 {
                        16
                    } else if share > 256 {
                        256
                    } else {
                        share
                    };
                    encode_column(column, limit)
                }
            },
            _ => None,
        };
        if let Some((codes, dict, index)) = encoded {
            *self = ColumnBuilder::Dictionary { codes, dict, index };
        }
    }
}

/// More entries do not make a dictionary shorter.
proof fn lemma_entries_grow(dict: Seq<Seq<char>>, more: Seq<Seq<char>>)
    ensures
        dict.len() <= with_entries(dict, more).len(),
    decreases more.len(),
{
    if more.len() > 0 {
        lemma_entries_grow(dict, more.drop_last());
    }
}

/// The first `n` cells have no more distinct texts than all cells.
proof fn lemma_distinct_grows(cells: Seq<Option<Seq<char>>>, n: int)
    requires
        0 <= n <= cells.len(),
    ensures
        distinct(cells.take(n)).len() <= distinct(cells).len(),
    decreases cells.len(),
{
    if n == cells.len() {
        assert(cells.take(n) =~= cells);
    } else {
        assert(cells.drop_last().take(n) =~= cells.take(n));
        lemma_distinct_grows(cells.drop_last(), n);
    }
}

/// The truth value that a text stands for.
fn parse_bool(text: &str) -> (b: Option<bool>)
    ensures
        b == bool_of(text@),
{
    if same_text(text, "true") {
        Some(true)
    } else if same_text(text, "false") {
        Some(false)
    } else {
        None
    }
}

/// The cells that are kept: cell `i` goes where `keep[i]` is false.
pub open spec fn retained<A>(cells: Seq<A>, keep: Seq<bool>) -> Seq<A>
    decreases cells.len(),
{
    if cells.len() == 0 {
        cells
    } else {
        let before = retained(cells.drop_last(), keep);
        if cells.len() <= keep.len() && !keep[cells.len() - 1] {
            before
        } else {
            before.push(cells.last())
        }
    }
}

/// The cells that are kept stay in order among the mapped ones.
pub proof fn lemma_retained_map<A, B>(cells: Seq<A>, keep: Seq<bool>, f: spec_fn(A) -> B)
    ensures
        retained(cells.map_values(f), keep) == retained(cells, keep).map_values(f),
    decreases cells.len(),
{
    let mapped = cells.map_values(f);
    if cells.len() > 0 {
        lemma_retained_map(cells.drop_last(), keep, f);
        assert(mapped.drop_last() =~= cells.drop_last().map_values(f));
        let before = retained(cells.drop_last(), keep);
        assert(before.push(cells.last()).map_values(f) =~= before.map_values(f).push(
            f(cells.last()),
        ));
    } else {
        assert(mapped =~= Seq::empty());
        assert(retained(cells, keep).map_values(f) =~= Seq::empty());
    }
}

/// What is kept was there.
pub proof fn lemma_retained_from<A>(cells: Seq<A>, keep: Seq<bool>)
    ensures
        forall|i: int|
            0 <= i < retained(cells, keep).len() ==> cells.contains(
                #[trigger] retained(cells, keep)[i],
            ),
    decreases cells.len(),
{
    if cells.len() > 0 {
        let front = cells.drop_last();
        lemma_retained_from(front, keep);
        let kept = retained(cells, keep);
        assert forall|i: int| 0 <= i < kept.len() implies cells.contains(#[trigger] kept[i]) by {
            if i < retained(front, keep).len() {
                assert(kept[i] == retained(front, keep)[i]);
                let k = choose|k: int| 0 <= k < front.len() && front[k] == kept[i];
                assert(cells[k] == kept[i]);
            } else {
                assert(cells[cells.len() - 1] == kept[i]);
            }
        }
    }
}

/// The kept items of a list.
fn retain_items<A>(items: Vec<A>, keep: &[bool]) -> (kept: Vec<A>)
    ensures
        kept@ == retained(items@, keep@),
{
    let ghost all = items@;
    let mut left = items;
    let mut reversed: Vec<A> = Vec::new();
    assert(retained(left@, keep@) + reversed@.reverse() =~= retained(all, keep@));
    let mut n: usize = left.len();
    while n > 0
        invariant
            n == left@.len(),
            retained(left@, keep@) + reversed@.reverse() == retained(all, keep@),
        decreases n,
    {
        let ghost before = left@;
        let ghost out = reversed@;
        match left.pop() {
            Some(item) => {
                assert(left@ =~= before.drop_last());
                if n > keep.len() || keep[n - 1] {
                    reversed.push(item);
                    assert(reversed@.reverse() =~= seq![item] + out.reverse());
                    assert(retained(left@, keep@).push(item) + out.reverse() =~= retained(
                        left@,
                        keep@,
                    ) + (seq![item] + out.reverse()));
                }
            },
            None => {},
        }
        n -= 1;
    }
    assert(retained(left@, keep@) =~= Seq::empty());
    let mut kept: Vec<A> = Vec::new();
    assert(Seq::<A>::empty() + reversed@.reverse() =~= reversed@.reverse());
    loop
        invariant
            all == items@,
            kept@ + reversed@.reverse() == retained(all, keep@),
        decreases reversed@.len(),
    {
        let ghost before = reversed@;
        let ghost out = kept@;
        match reversed.pop() {
            Some(item) => {
                kept.push(item);
                assert(before.reverse() =~= seq![item] + reversed@.reverse());
                assert(out + (seq![item] + reversed@.reverse()) =~= out.push(item)
                    + reversed@.reverse());
            },
            None => {
                assert(reversed@.reverse() =~= Seq::empty());
                assert(kept@ + Seq::<A>::empty() =~= kept@);
                return kept;
            },
        }
    }
}

impl StrColumn {
    /// The column of the kept cells.
    fn retained(&self, keep: &[bool]) -> (kept: StrColumn)
        requires
            self.wf(),
        ensures
            kept.wf(),
            kept@ == retained(self@, keep@),
    {
        let len: usize = self.len();
        let mut kept = StrColumn::with_capacity(len);
        let mut i: usize = 0;
        assert(self@.take(0) =~= Seq::empty());
        while i < len
            invariant
                len == self@.len(),
                i <= len,
                self.wf(),
                kept.wf(),
                kept@ == retained(self@.take(i as int), keep@),
            decreases len - i,
        {
            assert(self@.take(i + 1).drop_last() =~= self@.take(i as int));
            assert(self@.take(i + 1).last() == self@[i as int]);
            if i >= keep.len() || keep[i] {
                kept.push(self.get(i));
            }
            i += 1;
        }
        assert(self@.take(len as int) =~= self@);
        kept
    }
}

impl ColumnView {
    /// The column of the kept cells. A dictionary keeps its entries.
    pub open spec fn retained(self, keep: Seq<bool>) -> ColumnView {
        match self {
            ColumnView::Text(cells) => ColumnView::Text(retained(cells, keep)),
            ColumnView::Int(cells) => ColumnView::Int(retained(cells, keep)),
            ColumnView::Float(cells) => ColumnView::Float(retained(cells, keep)),
            ColumnView::Bool(cells) => ColumnView::Bool(retained(cells, keep)),
            ColumnView::Dict { codes, dict } => ColumnView::Dict {
                codes: retained(codes, keep),
                dict,
            },
        }
    }
}

impl ColumnBuilder {
    /// Removes each cell `i` for which `keep[i]` is false.
    pub fn retain(&mut self, keep: &[bool])
        requires
            old(self).wf(),
        ensures
            final(self).wf(),
            final(self)@ == old(self)@.retained(keep@),
    {
        match self {
            ColumnBuilder::String(column) => {
                *column = column.retained(keep);
            },
            ColumnBuilder::Int64(cells) => {
                let mut items: Vec<Option<i64>> = Vec::new();
                std::mem::swap(&mut items, cells);
                *cells = retain_items(items, keep);
            },
            ColumnBuilder::Float64(cells) => {
                let mut items: Vec<Option<String>> = Vec::new();
                std::mem::swap(&mut items, cells);
                let ghost f = |text: Option<String>| opt_text(text);
                proof {
                    lemma_retained_map(items@, keep@, f);
                    assert(opt_texts(items@) =~= items@.map_values(f));
                }
                *cells = retain_items(items, keep);
                assert(opt_texts(cells@) =~= cells@.map_values(f));
            },
            ColumnBuilder::Boolean(cells) => {
                let mut items: Vec<Option<bool>> = Vec::new();
                std::mem::swap(&mut items, cells);
                *cells = retain_items(items, keep);
            },
            ColumnBuilder::Dictionary { codes, dict, .. } => {
                let mut items: Vec<Option<usize>> = Vec::new();
                std::mem::swap(&mut items, codes);
                let ghost f = |code: Option<usize>|
                    match code {
                        Some(c) => Some(c as int),
                        None => None,
                    };
                proof {
                    lemma_retained_map(items@, keep@, f);
                    lemma_retained_from(items@, keep@);
                    assert(opt_codes(items@) =~= items@.map_values(f));
                }
                let ghost all = items@;
                *codes = retain_items(items, keep);
                proof {
                    assert(opt_codes(codes@) =~= codes@.map_values(f));
                    assert forall|i: int| 0 <= i < codes@.len() implies (
                    #[trigger] codes@[i] matches Some(code) ==> code < dict@.len()) by {
                        let k = choose|k: int| 0 <= k < all.len() && all[k] == codes@[i];
                        assert(all[k] == codes@[i]);
                    }
                }
            },
        }
    }
}

} // verus!

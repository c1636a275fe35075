//! What becomes of a value: the text that bytes stand for, and the cell that a text is stored as.

use vstd::prelude::*;
use vstd::utf8::{
    decode_utf8, decode_utf8_encode_utf8, encode_utf8, encode_utf8_decode_utf8,
    encode_utf8_valid_utf8, valid_utf8,
};

use crate::bytes::{lemma_byte_from, AMPERSAND};
use crate::column::{
    bool_of, bool_text, code_of, distinct, lemma_code_holds, with_entry, ColumnBuilder, ColumnView,
};
use crate::events::value_text;
use crate::laws::{pushed_value_is_last, sound, stored};
use crate::numbers::{
    all_digits, decimal, decimal_reads_back, digits_of, digits_value, int_of, lemma_ascii_valid,
    lemma_digits_of,
};
use crate::plan::FieldType;
use crate::text::{decoded, plain_text, unescaped};

verus! {

/// A text without an `&` is read back from its bytes as it is, whatever it holds besides.
pub proof fn text_without_entities_is_read_back(t: Seq<char>)
    requires
        forall|i: int| 0 <= i < encode_utf8(t).len() ==> encode_utf8(t)[i] != 0x26u8,
    ensures
        plain_text(encode_utf8(t)) == t,
        decoded(encode_utf8(t)) == t,
        value_text(encode_utf8(t)) == Ok::<Seq<char>, Seq<char>>(t),
{
    encode_utf8_valid_utf8(t);
    encode_utf8_decode_utf8(t);
    lemma_byte_from(encode_utf8(t), AMPERSAND, 0);
}

/// A text with an `&` somewhere in it is read with its entities replaced. Where they cannot be, a
/// value is refused with the message, and a text of the scanner stays as it is.
pub proof fn text_with_entities_is_unescaped(t: Seq<char>, i: int)
    requires
        0 <= i < encode_utf8(t).len(),
        encode_utf8(t)[i] == 0x26u8,
    ensures
        plain_text(encode_utf8(t)) == t,
        value_text(encode_utf8(t)) == unescaped(t),
        unescaped(t) matches Ok(p) ==> decoded(encode_utf8(t)) == p,
        unescaped(t) is Err ==> decoded(encode_utf8(t)) == t,
{
    encode_utf8_valid_utf8(t);
    encode_utf8_decode_utf8(t);
    lemma_byte_from(encode_utf8(t), AMPERSAND, 0);
}

/// Bytes that are no text stand for the empty text.
pub proof fn bytes_that_are_no_text_are_empty(raw: Seq<u8>)
    requires
        !valid_utf8(raw),
    ensures
        plain_text(raw).len() == 0,
{
}

/// The text of a truth value reads back, and no other text stands for it.
pub proof fn truth_values_read_back(b: bool, text: Seq<char>)
    ensures
        bool_of(bool_text(b)) == Some(b),
        bool_of(text) == Some(b) <==> text == bool_text(b),
{
    reveal_strlit("true");
    reveal_strlit("false");
    assert("true"@.len() != "false"@.len());
}

/// A column of truth values holds `true` and `false` as they were written, and as the truth values
/// that they name. Any other text is null.
pub proof fn truth_values_are_stored(column: ColumnView, text: Seq<char>)
    requires
        column.kind() == FieldType::Boolean,
    ensures
        ({
            let after = column.pushed(Some(text));
            let at = column.len() as int;
            &&& after matches ColumnView::Bool(cells) && cells.len() == at + 1 && (cells[at]
                == Some(true) <==> text == "true"@) && (cells[at] == Some(false) <==> text
                == "false"@)
            &&& text == "true"@ || text == "false"@ ==> after.text_at(at) == Some(text)
            &&& text != "true"@ && text != "false"@ ==> after.text_at(at) is None
        }),
{
    reveal_strlit("true");
    reveal_strlit("false");
    assert("true"@.len() != "false"@.len());
}

/// A value that arrives in a column of texts, of floating point numbers or of dictionary entries is
/// stored as it came: none is turned into null or into another text.
pub proof fn texts_are_stored_as_they_came(column: ColumnView, v: Seq<char>)
    requires
        sound(column),
        column.kind() == FieldType::String || column.kind() == FieldType::Float64 || column.kind()
            == FieldType::Dictionary,
    ensures
        stored(column.kind(), Some(v)) == Some(v),
        column.pushed(Some(v)).len() == column.len() + 1,
        column.pushed(Some(v)).text_at(column.len() as int) == Some(v),
{
    pushed_value_is_last(column, Some(v));
    let none = Seq::<Seq<char>>::empty();
    assert(with_entry(none, v) =~= seq![v]);
    assert(seq![v][0] == v);
    lemma_code_holds(with_entry(none, v), v);
}

/// A null is stored as null in a column of any type, and a cell past the end is null.
pub proof fn nulls_are_stored(column: ColumnView, i: int)
    requires
        sound(column),
    ensures
        stored(column.kind(), None) is None,
        column.pushed(None).len() == column.len() + 1,
        column.pushed(None).text_at(column.len() as int) is None,
        i >= column.len() ==> column.text_at(i) is None,
{
    pushed_value_is_last(column, None);
}

/// A column of integers holds the integer that a text stands for, and reads it back in its decimal
/// form. A text that stands for none is null.
pub proof fn integers_are_stored(column: ColumnView, v: Seq<char>)
    requires
        column.kind() == FieldType::Int64,
    ensures
        ({
            let after = column.pushed(Some(v));
            let at = column.len() as int;
            &&& after matches ColumnView::Int(cells) && cells.len() == at + 1 && cells[at]
                == int_of(encode_utf8(v))
            &&& int_of(encode_utf8(v)) matches Some(n) ==> after.text_at(at) == Some(
                decode_utf8(decimal(n as int)),
            )
            &&& int_of(encode_utf8(v)) is None ==> after.text_at(at) is None
        }),
{
}

/// An integer that was written in its decimal form is stored, and reads back as it was written.
pub proof fn written_integers_read_back(column: ColumnView, n: i64)
    requires
        column.kind() == FieldType::Int64,
    ensures
        ({
            let text = decode_utf8(decimal(n as int));
            let at = column.len() as int;
            &&& column.pushed(Some(text)) matches ColumnView::Int(cells) && cells.last() == Some(n)
            &&& column.pushed(Some(text)).text_at(at) == Some(text)
        }),
{
    decimal_reads_back(n);
    lemma_decimal_valid(n as int);
    decode_utf8_encode_utf8(decimal(n as int));
}

/// The decimal form of a number is text.
proof fn lemma_decimal_valid(n: int)
    ensures
        valid_utf8(decimal(n)),
{
    let s = decimal(n);
    if n < 0 {
        lemma_digits_of((-n) as nat);
        assert forall|i: int| 0 <= i < s.len() implies (#[trigger] s[i]) < 0x80 by {
            if i > 0 {
                assert(s[i] == digits_of((-n) as nat)[i - 1]);
            }
        }
    } else {
        lemma_digits_of(n as nat);
    }
    lemma_ascii_valid(s);
}

/// Only zero starts with a zero.
proof fn lemma_first_digit(n: nat)
    ensures
        digits_of(n).len() > 0,
        n == 0 ==> digits_of(n) == seq![0x30u8],
        n > 0 ==> 0x31 <= digits_of(n)[0] <= 0x39,
    decreases n,
{
    if n >= 10 {
        lemma_first_digit(n / 10);
        assert(digits_of(n)[0] == digits_of(n / 10)[0]);
    }
}

/// The decimal form of a number has a `-` where the number is below zero and no other sign, and
/// digits after it, of which the first is no zero unless it is the only one.
pub proof fn decimal_form_is_plain(n: int)
    ensures
        n == 0 ==> decimal(n) == seq![0x30u8],
        n > 0 ==> 0x31 <= decimal(n)[0] <= 0x39 && forall|i: int|
            0 <= i < decimal(n).len() ==> 0x30 <= #[trigger] decimal(n)[i] <= 0x39,
        n < 0 ==> decimal(n).len() > 1 && decimal(n)[0] == 0x2d && decimal(n).skip(1) == decimal(-n),
{
    if n < 0 {
        lemma_digits_of((-n) as nat);
        assert(decimal(n).skip(1) =~= decimal(-n));
    } else {
        lemma_first_digit(n as nat);
        lemma_digits_of(n as nat);
    }
}

/// A zero before digits does not count.
proof fn lemma_leading_zero(d: Seq<u8>)
    ensures
        digits_value(seq![0x30u8] + d) == digits_value(d),
    decreases d.len(),
{
    let s = seq![0x30u8] + d;
    if d.len() == 0 {
        assert(s.drop_last() =~= Seq::empty());
        assert(digits_value(s.drop_last()) == 0);
    } else {
        assert(s.drop_last() =~= seq![0x30u8] + d.drop_last());
        lemma_leading_zero(d.drop_last());
    }
}

/// Digits read as an integer with or without a `+` or zeros before them, and with a `-` as the
/// opposite one. Nothing without a digit, and nothing that holds anything but digits after a sign,
/// is an integer.
pub proof fn integers_are_read(d: Seq<u8>, n: i64, i: int)
    ensures
        d.len() > 0 && all_digits(d) ==> int_of(seq![0x2bu8] + d) == int_of(d),
        d.len() > 0 && all_digits(d) ==> int_of(seq![0x30u8] + d) == int_of(d),
        d.len() > 0 && all_digits(d) && int_of(d) == Some(n) ==> n >= 0 && int_of(seq![0x2du8] + d)
            == Some((-n) as i64),
        d.len() == 0 ==> int_of(d) is None && int_of(seq![0x2bu8] + d) is None && int_of(
            seq![0x2du8] + d,
        ) is None,
        0 < i < d.len() && !(0x30 <= d[i] <= 0x39) ==> int_of(d) is None,
        d.len() > 0 && !(0x30 <= d[0] <= 0x39) && d[0] != 0x2b && d[0] != 0x2d ==> int_of(
            d,
        ) is None,
{
    assert((seq![0x2bu8] + d).skip(1) =~= d);
    assert((seq![0x2du8] + d).skip(1) =~= d);
    if d.len() > 0 && all_digits(d) {
        lemma_leading_zero(d);
        lemma_digits_at_least_zero(d);
        let s = seq![0x30u8] + d;
        assert(all_digits(s)) by {
            assert forall|k: int| 0 <= k < s.len() implies 0x30 <= #[trigger] s[k] <= 0x39 by {
                if k > 0 {
                    assert(s[k] == d[k - 1]);
                }
            }
        }
        assert(0x30 <= d[0] <= 0x39);
    }
    if 0 < i < d.len() && !(0x30 <= d[i] <= 0x39) {
        assert(d.skip(1)[i - 1] == d[i]);
    }
}

/// Digits stand for no number below zero.
proof fn lemma_digits_at_least_zero(d: Seq<u8>)
    requires
        all_digits(d),
    ensures
        digits_value(d) >= 0,
    decreases d.len(),
{
    if d.len() > 0 {
        let head = d.drop_last();
        assert forall|i: int| 0 <= i < head.len() implies 0x30 <= #[trigger] head[i] <= 0x39 by {
            assert(head[i] == d[i]);
        }
        lemma_digits_at_least_zero(head);
        assert(0x30 <= d[d.len() - 1] <= 0x39);
    }
}

/// The cells of a column are what the table shows: numbers and truth values as they are, and texts
/// by their characters.
pub proof fn cells_are_shown_as_they_are(column: ColumnBuilder, i: int)
    ensures
        match column {
            ColumnBuilder::String(cells) => column@ == ColumnView::Text(cells@),
            ColumnBuilder::Int64(cells) => column@ == ColumnView::Int(cells@),
            ColumnBuilder::Boolean(cells) => column@ == ColumnView::Bool(cells@),
            ColumnBuilder::Float64(cells) => column@.kind() == FieldType::Float64 && column@.len()
                == cells@.len() && (0 <= i < cells@.len() ==> match cells@[i] {
                Some(s) => column@.text_at(i) == Some(s@),
                None => column@.text_at(i) is None,
            }),
            ColumnBuilder::Dictionary { codes, dict, index } => column@.kind()
                == FieldType::Dictionary && column@.len() == codes@.len() && (0 <= i < codes@.len()
                ==> match codes@[i] {
                Some(code) => code < dict@.len() ==> column@.text_at(i) == Some(dict@[code as int]@),
                None => column@.text_at(i) is None,
            }),
        },
{
}

/// What a filter compares is the text of the cell, and in a column of floating point numbers the
/// text of the number; nothing where the cell is null.
pub proof fn filters_compare_cells(column: ColumnView, i: int, number: Option<Seq<char>>)
    ensures
        column.kind() != FieldType::Float64 ==> column.filter_text(i, number) == column.text_at(i),
        column.kind() == FieldType::Float64 && column.text_at(i) is Some ==> column.filter_text(
            i,
            number,
        ) == number,
        column.text_at(i) is None ==> column.filter_text(i, number) is None,
{
}

/// A dictionary entry stays at its place, a new one comes after the others, and none comes twice.
pub proof fn entries_come_once(dict: Seq<Seq<char>>, v: Seq<char>)
    ensures
        dict.contains(v) ==> with_entry(dict, v) == dict,
        !dict.contains(v) ==> with_entry(dict, v).len() == dict.len() + 1 && with_entry(
            dict,
            v,
        ).last() == v && with_entry(dict, v).drop_last() == dict,
        dict.no_duplicates() ==> with_entry(dict, v).no_duplicates(),
        with_entry(dict, v)[code_of(with_entry(dict, v), v)] == v,
{
    if !dict.contains(v) {
        let after = dict.push(v);
        assert(after.drop_last() =~= dict);
        assert(after[dict.len() as int] == v);
        if dict.no_duplicates() {
            assert forall|a: int, b: int| 0 <= a < after.len() && 0 <= b < after.len() && a
                != b implies after[a] != after[b] by {
                if a < dict.len() {
                    assert(dict.contains(dict[a]));
                }
                if b < dict.len() {
                    assert(dict.contains(dict[b]));
                }
            }
        }
    }
    lemma_code_holds(with_entry(dict, v), v);
}

/// The distinct texts of a list of cells: each text of a cell, and no other, and none twice.
pub proof fn distinct_texts_are_those_of_the_cells(cells: Seq<Option<Seq<char>>>)
    ensures
        distinct(cells).no_duplicates(),
        forall|v: Seq<char>| #[trigger] distinct(cells).contains(v) <==> cells.contains(Some(v)),
    decreases cells.len(),
{
    if cells.len() > 0 {
        let front = cells.drop_last();
        let before = distinct(front);
        distinct_texts_are_those_of_the_cells(front);
        if let Some(w) = cells.last() {
            entries_come_once(before, w);
        }
        assert forall|v: Seq<char>| #[trigger] distinct(cells).contains(v) <==> cells.contains(
            Some(v),
        ) by {
            assert(before.contains(v) <==> front.contains(Some(v)));
            if cells.contains(Some(v)) {
                let k = choose|k: int| 0 <= k < cells.len() && cells[k] == Some(v);
                if k < front.len() {
                    assert(front[k] == Some(v));
                }
            }
            if front.contains(Some(v)) {
                let k = choose|k: int| 0 <= k < front.len() && front[k] == Some(v);
                assert(cells[k] == Some(v));
            }
            if let Some(w) = cells.last() {
                assert(cells[cells.len() - 1] == Some(w));
                let after = with_entry(before, w);
                if before.contains(v) {
                    let k = choose|k: int| 0 <= k < before.len() && before[k] == v;
                    assert(after[k] == v);
                }
                if after.contains(v) && !before.contains(v) {
                    let k = choose|k: int| 0 <= k < after.len() && after[k] == v;
                    if k < before.len() {
                        assert(before[k] == v);
                    }
                }
                if v == w {
                    if !before.contains(w) {
                        assert(after[before.len() as int] == w);
                    }
                }
            }
        }
    }
}

/// A text column becomes a dictionary where it has enough cells and few distinct texts: up to 16
/// are few, more than 256 are not, and in between a twentieth of the cells. No other column does.
pub proof fn few_texts_become_a_dictionary(column: ColumnView, min_rows: nat)
    ensures
        column.kind() != FieldType::String ==> column.upgraded(min_rows) == column,
        column matches ColumnView::Text(cells) ==> {
            let few = distinct(cells).len();
            let after = column.upgraded(min_rows);
            &&& cells.len() < min_rows ==> after == column
            &&& few > 256 ==> after == column
            &&& 16 < few <= 256 && few * 20 > cells.len() ==> after == column
            &&& cells.len() >= min_rows && few <= 16 ==> after.kind() == FieldType::Dictionary
            &&& cells.len() >= min_rows && few <= 256 && few * 20 <= cells.len() ==> after.kind()
                == FieldType::Dictionary
        },
{
}

} // verus!

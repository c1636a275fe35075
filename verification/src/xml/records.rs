//! Records of the splitter: each is a row as it is written, and ends where the row does.

use vstd::prelude::*;

use crate::bytes::{
    first_where, lemma_byte_from, lemma_first_where, lemma_first_where_is, occurs_at, GT,
};
use crate::markup::{row_start_at, CDATA_CLOSE, CDATA_OPEN, COMMENT_CLOSE, COMMENT_OPEN};
use crate::xml::scanned::{
    body_bytes, body_is_scanned_as_its_last_text, good_slot, lemma_row_starts, slots_bytes, Slot,
};
use crate::xml::splitter::{
    near_open_construct, next_open_row, next_record, open_closes, open_row_starts, record_end,
    record_rows, unclosed_before, SKIP_WINDOW,
};
use crate::xml::tokens::{close_prefix, close_starts, lemma_open_tag_bounds, open_tag, OpenTagView};
use crate::xml::written::{
    all_white, close_bytes, good_tag, lemma_both_stand, lemma_close_hit, lemma_occurs, no_markup,
    stands_at, tag_bytes, tag_is_scanned, white, Tagged,
};

verus! {

/// An opener stands in the 65536 bytes before `at`, and its closer does not stand between the two.
pub open spec fn open_before(bytes: Seq<u8>, opener: Seq<u8>, closer: Seq<u8>, at: int) -> bool {
    exists|p: int|
        {
            &&& at - 65536 <= p
            &&& p + opener.len() <= at
            &&& #[trigger] stands_at(bytes, opener, p)
            &&& forall|c: int|
                p + opener.len() <= c && c + closer.len() <= at ==> !#[trigger] stands_at(
                    bytes,
                    closer,
                    c,
                )
        }
}

/// A place is taken to lie in a comment or CDATA section if and only if an opener of one stands
/// near before it that is not closed before it.
pub proof fn places_lie_in_what_is_open_before_them(bytes: Seq<u8>, at: int)
    ensures
        near_open_construct(bytes, at) <==> {
            ||| open_before(
                bytes,
                seq![0x3cu8, 0x21u8, 0x2du8, 0x2du8],
                seq![0x2du8, 0x2du8, 0x3eu8],
                at,
            )
            ||| open_before(
                bytes,
                seq![0x3cu8, 0x21u8, 0x5bu8, 0x43u8, 0x44u8, 0x41u8, 0x54u8, 0x41u8, 0x5bu8],
                seq![0x5du8, 0x5du8, 0x3eu8],
                at,
            )
        },
{
    assert(COMMENT_OPEN@ =~= seq![0x3cu8, 0x21u8, 0x2du8, 0x2du8]);
    assert(COMMENT_CLOSE@ =~= seq![0x2du8, 0x2du8, 0x3eu8]);
    assert(CDATA_OPEN@ =~= seq![
        0x3cu8,
        0x21u8,
        0x5bu8,
        0x43u8,
        0x44u8,
        0x41u8,
        0x54u8,
        0x41u8,
        0x5bu8,
    ]);
    assert(CDATA_CLOSE@ =~= seq![0x5du8, 0x5du8, 0x3eu8]);
    lemma_open_before(bytes, COMMENT_OPEN@, COMMENT_CLOSE@, at);
    lemma_open_before(bytes, CDATA_OPEN@, CDATA_CLOSE@, at);
}

/// The two ways to say that a place lies behind an unclosed opener agree.
proof fn lemma_open_before(bytes: Seq<u8>, opener: Seq<u8>, closer: Seq<u8>, at: int)
    ensures
        unclosed_before(bytes, opener, closer, at) == open_before(bytes, opener, closer, at),
{
    if open_before(bytes, opener, closer, at) {
        let p = choose|p: int|
            {
                &&& at - 65536 <= p
                &&& p + opener.len() <= at
                &&& #[trigger] stands_at(bytes, opener, p)
                &&& forall|c: int|
                    p + opener.len() <= c && c + closer.len() <= at ==> !#[trigger] stands_at(
                        bytes,
                        closer,
                        c,
                    )
            };
        lemma_occurs(bytes, opener, p);
        assert forall|c: int|
            p + opener.len() <= c && c + closer.len()
                <= at implies !#[trigger] occurs_at(bytes, closer, c) by {
            lemma_occurs(bytes, closer, c);
            assert(!stands_at(bytes, closer, c));
        }
    }
    if unclosed_before(bytes, opener, closer, at) {
        let p = choose|p: int|
            {
                &&& at - SKIP_WINDOW <= p
                &&& p + opener.len() <= at
                &&& #[trigger] occurs_at(bytes, opener, p)
                &&& forall|c: int|
                    p + opener.len() <= c && c + closer.len()
                        <= at ==> !#[trigger] occurs_at(bytes, closer, c)
            };
        lemma_occurs(bytes, opener, p);
        assert forall|c: int|
            p + opener.len() <= c && c + closer.len() <= at implies !#[trigger] stands_at(
            bytes,
            closer,
            c,
        ) by {
            lemma_occurs(bytes, closer, c);
            assert(!occurs_at(bytes, closer, c));
        }
    }
}

/// The bytes of a row: its tag, and its body and close tag unless it is self-closing.
pub open spec fn record_bytes(
    tag: Tagged,
    slots: Seq<Slot>,
    lead: Seq<u8>,
    tail: Seq<u8>,
) -> Seq<u8> {
    if tag.closing {
        tag_bytes(tag)
    } else {
        tag_bytes(tag) + body_bytes(slots, lead, tag.name, tail)
    }
}

/// A record ends where its row does: with the close tag of the row, or with its own tag where that
/// is self-closing.
pub proof fn record_ends_with_its_row(
    bytes: Seq<u8>,
    tag: Tagged,
    slots: Seq<Slot>,
    lead: Seq<u8>,
    tail: Seq<u8>,
    at: int,
)
    requires
        stands_at(bytes, record_bytes(tag, slots, lead, tail), at),
        good_tag(tag),
        forall|i: int|
            0 <= i < slots.len() ==> good_slot(#[trigger] slots[i], tag.name, Seq::empty()),
        no_markup(lead),
        all_white(tail),
        !tag.closing ==> !near_open_construct(
            bytes,
            at + tag_bytes(tag).len() + slots_bytes(slots).len() + lead.len(),
        ),
    ensures
        record_end(bytes, tag.name, at) == at + record_bytes(tag, slots, lead, tail).len(),
        row_start_at(bytes, tag.name, at),
{
    if tag.closing {
        tag_is_scanned(bytes, tag, at);
        lemma_row_starts(bytes, tag, at);
    } else {
        let body = body_bytes(slots, lead, tag.name, tail);
        let none = Seq::<(int, int)>::empty();
        lemma_both_stand(bytes, tag_bytes(tag), body, at);
        tag_is_scanned(bytes, tag, at);
        lemma_row_starts(bytes, tag, at);
        let from = at + tag_bytes(tag).len();
        let place = from + slots_bytes(slots).len() + lead.len();
        body_is_scanned_as_its_last_text(
            bytes,
            slots,
            lead,
            tag.name,
            tail,
            from,
            Seq::empty(),
            Seq::empty(),
            none,
        );
        lemma_both_stand(bytes, slots_bytes(slots), lead + close_bytes(tag.name, tail), from);
        lemma_both_stand(
            bytes,
            lead,
            close_bytes(tag.name, tail),
            from + slots_bytes(slots).len(),
        );
        lemma_close_hit(bytes, tag.name, tail, place, none);
        let hit = close_starts(bytes, close_prefix(tag.name), none);
        let open = open_closes(bytes, tag.name);
        lemma_first_where(from, bytes.len() as int, hit);
        assert(first_where(from, bytes.len() as int, hit) == Some(place));
        assert(open(place));
        assert forall|j: int| from <= j < place implies !#[trigger] open(j) by {
            assert(!hit(j));
        }
        lemma_first_where_is(from, bytes.len() as int, open, Some(place));
    }
}

/// The next record boundary is the end of the first row that starts there, where neither its start
/// nor its end lies in a comment or CDATA section.
pub proof fn next_record_is_the_end_of_the_next_row(
    bytes: Seq<u8>,
    tag: Tagged,
    slots: Seq<Slot>,
    lead: Seq<u8>,
    tail: Seq<u8>,
    from: int,
    at: int,
)
    requires
        stands_at(bytes, record_bytes(tag, slots, lead, tail), at),
        good_tag(tag),
        forall|i: int|
            0 <= i < slots.len() ==> good_slot(#[trigger] slots[i], tag.name, Seq::empty()),
        no_markup(lead),
        all_white(tail),
        !tag.closing ==> !near_open_construct(
            bytes,
            at + tag_bytes(tag).len() + slots_bytes(slots).len() + lead.len(),
        ),
        from <= at,
        !near_open_construct(bytes, at),
        !near_open_construct(bytes, at + record_bytes(tag, slots, lead, tail).len()),
        forall|j: int| from <= j < at ==> !#[trigger] row_start_at(bytes, tag.name, j),
    ensures
        next_record(bytes, tag.name, from) == Some(
            at + record_bytes(tag, slots, lead, tail).len(),
        ),
{
    record_ends_with_its_row(bytes, tag, slots, lead, tail, at);
    let hit = record_rows(bytes, tag.name);
    assert(hit(at));
    assert forall|j: int| from <= j < at implies !#[trigger] hit(j) by {
        assert(!row_start_at(bytes, tag.name, j));
    }
    assert(at < bytes.len());
    lemma_first_where_is(from, bytes.len() as int, hit, Some(at));
}

/// A close tag of the name `tag` stands at `at`, with `>` or white space behind the name, and does
/// not lie behind an unclosed opener.
pub open spec fn row_closes_at(bytes: Seq<u8>, tag: Seq<u8>, at: int) -> bool {
    let end = at + 2 + tag.len();
    &&& stands_at(bytes, seq![0x3cu8, 0x2fu8] + tag, at)
    &&& end < bytes.len()
    &&& bytes[end] == 0x3e || white(bytes[end])
    &&& !near_open_construct(bytes, at)
}

/// A row with a body ends with the first `>` behind the first close tag of its name that lies
/// behind no unclosed opener. Where there is none, and where the tag of the row does not end, the
/// row reaches to the end of the input.
pub proof fn row_ends_at_its_first_close_tag(
    bytes: Seq<u8>,
    tag: Seq<u8>,
    row: int,
    open: OpenTagView,
    close: int,
    gt: int,
)
    requires
        0 <= row < bytes.len(),
        open_tag(bytes, row) == Some(open),
        !open.self_closing,
    ensures
        open.after <= close && row_closes_at(bytes, tag, close) && (forall|j: int|
            open.after <= j < close ==> !#[trigger] row_closes_at(bytes, tag, j)) && close
            + tag.len() + 2 <= gt < bytes.len() && bytes[gt] == 0x3e && (forall|j: int|
            close + tag.len() + 2 <= j < gt ==> #[trigger] bytes[j] != 0x3e) ==> record_end(
            bytes,
            tag,
            row,
        ) == gt + 1,
        (forall|j: int| open.after <= j < bytes.len() ==> !#[trigger] row_closes_at(bytes, tag, j))
            ==> record_end(bytes, tag, row) == bytes.len(),
{
    let hit = open_closes(bytes, tag);
    lemma_open_tag_bounds(bytes, row);
    assert forall|j: int| 0 <= j implies #[trigger] hit(j) == row_closes_at(bytes, tag, j) by {
        lemma_occurs(bytes, close_prefix(tag), j);
        assert(close_prefix(tag) =~= seq![0x3cu8, 0x2fu8] + tag);
    }
    if open.after <= close && row_closes_at(bytes, tag, close) && (forall|j: int|
        open.after <= j < close ==> !#[trigger] row_closes_at(bytes, tag, j)) && close + tag.len()
        + 2 <= gt < bytes.len() && bytes[gt] == 0x3e && (forall|j: int|
        close + tag.len() + 2 <= j < gt ==> #[trigger] bytes[j] != 0x3e) {
        assert(hit(close));
        lemma_first_where_is(open.after, bytes.len() as int, hit, Some(close));
        lemma_byte_from(bytes, GT, close + close_prefix(tag).len());
    }
    if forall|j: int| open.after <= j < bytes.len() ==> !#[trigger] row_closes_at(bytes, tag, j) {
        lemma_first_where_is(open.after, bytes.len() as int, hit, None);
    }
}

/// The next record is the first row at or after `from` that neither starts nor ends behind an
/// unclosed opener, and the next row start the first that does not stand behind one.
pub proof fn rows_behind_openers_do_not_count(bytes: Seq<u8>, tag: Seq<u8>, from: int, row: int)
    requires
        from <= row,
        row_start_at(bytes, tag, row),
        !near_open_construct(bytes, row),
    ensures
        (forall|j: int|
            from <= j < row && !near_open_construct(bytes, j) ==> !#[trigger] row_start_at(
                bytes,
                tag,
                j,
            )) ==> next_open_row(bytes, tag, from) == Some(row),
        !near_open_construct(bytes, record_end(bytes, tag, row)) && (forall|j: int|
            from <= j < row && !near_open_construct(bytes, j) && !near_open_construct(
                bytes,
                record_end(bytes, tag, j),
            ) ==> !#[trigger] row_start_at(bytes, tag, j)) ==> next_record(bytes, tag, from)
            == Some(record_end(bytes, tag, row)),
{
    let starts = open_row_starts(bytes, tag);
    let rows = record_rows(bytes, tag);
    lemma_first_where(from, bytes.len() as int, starts);
    lemma_first_where(from, bytes.len() as int, rows);
    assert(starts(row));
    if forall|j: int|
        from <= j < row && !near_open_construct(bytes, j) ==> !#[trigger] row_start_at(
            bytes,
            tag,
            j,
        ) {
        assert forall|j: int| from <= j < row implies !#[trigger] starts(j) by {
            assert(!row_start_at(bytes, tag, j) || near_open_construct(bytes, j));
        }
        lemma_first_where_is(from, bytes.len() as int, starts, Some(row));
    }
    if !near_open_construct(bytes, record_end(bytes, tag, row)) && (forall|j: int|
        from <= j < row && !near_open_construct(bytes, j) && !near_open_construct(
            bytes,
            record_end(bytes, tag, j),
        ) ==> !#[trigger] row_start_at(bytes, tag, j)) {
        assert(rows(row));
        assert forall|j: int| from <= j < row implies !#[trigger] rows(j) by {
            assert(!row_start_at(bytes, tag, j) || near_open_construct(bytes, j)
                || near_open_construct(bytes, record_end(bytes, tag, j)));
        }
        lemma_first_where_is(from, bytes.len() as int, rows, Some(row));
    }
}

/// There is no next record where every row starts or ends behind an unclosed opener, and no next
/// row start where every row stands behind one.
pub proof fn no_record_without_rows(bytes: Seq<u8>, tag: Seq<u8>, from: int)
    ensures
        (forall|j: int|
            from <= j && !near_open_construct(bytes, j) ==> !#[trigger] row_start_at(bytes, tag, j))
            ==> next_open_row(bytes, tag, from) is None && next_record(bytes, tag, from) is None,
{
    let starts = open_row_starts(bytes, tag);
    let rows = record_rows(bytes, tag);
    lemma_first_where(from, bytes.len() as int, starts);
    lemma_first_where(from, bytes.len() as int, rows);
    if let Some(at) = first_where(from, bytes.len() as int, starts) {
        assert(row_start_at(bytes, tag, at));
    }
    if let Some(at) = first_where(from, bytes.len() as int, rows) {
        assert(row_start_at(bytes, tag, at));
    }
}

} // verus!

//! Rows as they are written: the bytes of tags, attributes and values, and what each is scanned as.

use vstd::prelude::*;

use crate::bytes::{
    byte_from, bytes_from, first_where, lemma_byte_from, lemma_bytes_from, lemma_first_where,
    lemma_first_where_is, occurs_at, GT, LT,
};
use crate::markup::{
    construct_end, ends_name, in_span, in_spans, lemma_next_row, next_row, ordered_spans,
    row_start_at, span_end, CDATA_CLOSE, CDATA_OPEN, COMMENT_CLOSE, COMMENT_OPEN, DECLARATION_OPEN,
};
use crate::xml::splitter::special_spans;
use crate::xml::tokens::{
    attr_step, attr_value, close_extent, close_prefix, close_starts, key_ends, key_stop,
    lemma_attr_step, lemma_name_stop, lemma_skip_space, name_ends, name_stop, open_tag, quote_or_gt,
    skip_space, tag_gt, token, trim_end, AttrStep, OpenTagView, TokenView,
};

verus! {

/// `part` stands in `bytes` at offset `at`.
pub open spec fn stands_at(bytes: Seq<u8>, part: Seq<u8>, at: int) -> bool {
    &&& 0 <= at
    &&& at + part.len() <= bytes.len()
    &&& forall|i: int| 0 <= i < part.len() ==> bytes[at + i] == #[trigger] part[i]
}

/// Two parts stand one after the other.
pub proof fn lemma_both_stand(bytes: Seq<u8>, a: Seq<u8>, b: Seq<u8>, at: int)
    requires
        stands_at(bytes, a + b, at),
    ensures
        stands_at(bytes, a, at),
        stands_at(bytes, b, at + a.len()),
{
    let both = a + b;
    assert forall|i: int| 0 <= i < a.len() implies bytes[at + i] == #[trigger] a[i] by {
        assert(both[i] == a[i]);
    }
    assert forall|i: int| 0 <= i < b.len() implies bytes[at + a.len() + i] == #[trigger] b[i] by {
        assert(both[i + a.len()] == b[i]);
        assert(bytes[at + (i + a.len())] == both[i + a.len()]);
    }
}

/// White space: space, tab, carriage return and line feed.
pub open spec fn white(b: u8) -> bool {
    b == 0x20 || b == 0x09 || b == 0x0d || b == 0x0a
}

/// Nothing but white space.
pub open spec fn all_white(s: Seq<u8>) -> bool {
    forall|i: int| 0 <= i < s.len() ==> white(#[trigger] s[i])
}

/// The bytes hold no `<`.
pub open spec fn no_markup(s: Seq<u8>) -> bool {
    forall|i: int| 0 <= i < s.len() ==> #[trigger] s[i] != 0x3c
}

/// The bytes may name an element.
pub open spec fn names_element(s: Seq<u8>) -> bool {
    &&& s.len() > 0
    &&& s[0] != 0x21 && s[0] != 0x3f
    &&& forall|i: int|
        0 <= i < s.len() ==> !white(#[trigger] s[i]) && s[i] != 0x3e && s[i] != 0x2f && s[i] != 0x3c
}

/// An attribute as it is written: white space, the key, `=`, white space, and the value in quotes.
pub struct Attr {
    pub blank: Seq<u8>,
    pub key: Seq<u8>,
    pub gap: Seq<u8>,
    pub quote: u8,
    pub value: Seq<u8>,
}

/// The bytes of an attribute.
pub open spec fn attr_bytes(a: Attr) -> Seq<u8> {
    a.blank + (a.key + (seq![0x3du8] + (a.gap + (seq![a.quote] + (a.value + seq![a.quote])))))
}

/// The attribute can be told from what stands around it: its key holds neither white space nor a
/// `=`, and its value not the quote that it stands in.
pub open spec fn told(a: Attr) -> bool {
    &&& all_white(a.blank)
    &&& forall|i: int| 0 <= i < a.key.len() ==> !white(#[trigger] a.key[i]) && a.key[i] != 0x3d
    &&& all_white(a.gap)
    &&& a.quote == 0x22 || a.quote == 0x27
    &&& !a.value.contains(a.quote)
}

/// The attribute may stand in a tag: there is white space before it, and its key holds neither
/// quotes nor a `>`.
pub open spec fn fair(a: Attr) -> bool {
    &&& told(a)
    &&& a.blank.len() > 0
    &&& forall|i: int|
        0 <= i < a.key.len() ==> (#[trigger] a.key[i]) != 0x22 && a.key[i] != 0x27 && a.key[i]
            != 0x3e
}

/// The attribute is well formed: it may stand in a tag, has a key, and holds no `<`.
pub open spec fn well_formed(a: Attr) -> bool {
    &&& fair(a)
    &&& a.key.len() > 0 && no_markup(a.key)
    &&& no_markup(a.value)
}

/// All attributes may stand in a tag.
pub open spec fn all_fair(attrs: Seq<Attr>) -> bool {
    forall|i: int| 0 <= i < attrs.len() ==> fair(#[trigger] attrs[i])
}

/// All attributes are well formed.
pub open spec fn all_well_formed(attrs: Seq<Attr>) -> bool {
    forall|i: int| 0 <= i < attrs.len() ==> well_formed(#[trigger] attrs[i])
}

/// The bytes of attributes, one after the other.
pub open spec fn attrs_bytes(attrs: Seq<Attr>) -> Seq<u8>
    decreases attrs.len(),
{
    if attrs.len() == 0 {
        Seq::empty()
    } else {
        attr_bytes(attrs[0]) + attrs_bytes(attrs.drop_first())
    }
}

/// The places of the parts of an attribute.
proof fn lemma_attr_parts(bytes: Seq<u8>, a: Attr, at: int)
    requires
        stands_at(bytes, attr_bytes(a), at),
        told(a),
    ensures
        ({
            let key = at + a.blank.len();
            let eq = key + a.key.len();
            let quote = eq + 1 + a.gap.len();
            let close = quote + 1 + a.value.len();
            &&& close + 1 == at + attr_bytes(a).len()
            &&& close < bytes.len()
            &&& stands_at(bytes, a.blank, at)
            &&& stands_at(bytes, a.key, key)
            &&& bytes[eq] == 0x3d
            &&& stands_at(bytes, a.gap, eq + 1)
            &&& bytes[quote] == a.quote
            &&& stands_at(bytes, a.value, quote + 1)
            &&& bytes[close] == a.quote
            &&& fair(a) ==> forall|i: int|
                at <= i < quote ==> (#[trigger] bytes[i]) != 0x22 && bytes[i] != 0x27 && bytes[i]
                    != 0x3e
            &&& forall|i: int| quote < i < close ==> #[trigger] bytes[i] != a.quote
            &&& well_formed(a) ==> forall|i: int| at <= i <= close ==> #[trigger] bytes[i] != 0x3c
        }),
{
    let q = seq![a.quote];
    let eq = seq![0x3du8];
    let tail = a.value + q;
    let quoted = q + tail;
    let after = a.gap + quoted;
    let valued = eq + after;
    let keyed = a.key + valued;
    lemma_both_stand(bytes, a.blank, keyed, at);
    let k = at + a.blank.len();
    lemma_both_stand(bytes, a.key, valued, k);
    let e = k + a.key.len();
    lemma_both_stand(bytes, eq, after, e);
    lemma_both_stand(bytes, a.gap, quoted, e + 1);
    let p = e + 1 + a.gap.len();
    lemma_both_stand(bytes, q, tail, p);
    lemma_both_stand(bytes, a.value, q, p + 1);
    let c = p + 1 + a.value.len();
    assert(bytes[e + 0] == eq[0]);
    assert(bytes[p + 0] == q[0]);
    assert(bytes[c + 0] == q[0]);
    assert forall|i: int| at <= i < p implies (fair(a) ==> (#[trigger] bytes[i]) != 0x22 && bytes[i]
        != 0x27 && bytes[i] != 0x3e) && (well_formed(a) ==> bytes[i] != 0x3c) by {
        if i < k {
            assert(bytes[at + (i - at)] == a.blank[i - at]);
        } else if i < e {
            assert(bytes[k + (i - k)] == a.key[i - k]);
        } else if i > e {
            assert(bytes[e + 1 + (i - e - 1)] == a.gap[i - e - 1]);
        }
    }
    assert forall|i: int| p < i < c implies #[trigger] bytes[i] != a.quote && (well_formed(a)
        ==> bytes[i] != 0x3c) by {
        assert(bytes[p + 1 + (i - p - 1)] == a.value[i - p - 1]);
    }
}

/// No `>` that ends a tag lies in an attribute.
proof fn lemma_gt_past_attr(bytes: Seq<u8>, a: Attr, at: int)
    requires
        stands_at(bytes, attr_bytes(a), at),
        fair(a),
    ensures
        tag_gt(bytes, at) == tag_gt(bytes, at + attr_bytes(a).len()),
{
    lemma_attr_parts(bytes, a, at);
    let quote = at + a.blank.len() + a.key.len() + 1 + a.gap.len();
    let close = quote + 1 + a.value.len();
    let hit = quote_or_gt(bytes);
    assert(hit(quote));
    assert forall|j: int| at <= j < quote implies !#[trigger] hit(j) by {
        assert(bytes[j] != 0x22);
    }
    lemma_first_where_is(at, bytes.len() as int, hit, Some(quote));
    lemma_byte_from(bytes, bytes[quote], quote + 1);
    assert(byte_from(bytes, bytes[quote], quote + 1) == Some(close)) by {
        if let Some(i) = byte_from(bytes, bytes[quote], quote + 1) {
            if i < close {
                assert(bytes[i] != a.quote);
            }
        }
    }
}

/// No `>` that ends a tag lies in its attributes.
proof fn lemma_gt_past_attrs(bytes: Seq<u8>, attrs: Seq<Attr>, at: int)
    requires
        stands_at(bytes, attrs_bytes(attrs), at),
        all_fair(attrs),
    ensures
        tag_gt(bytes, at) == tag_gt(bytes, at + attrs_bytes(attrs).len()),
        all_well_formed(attrs) ==> forall|i: int|
            at <= i < at + attrs_bytes(attrs).len() ==> (#[trigger] bytes[i]) != 0x3c,
        attrs.len() > 0 ==> attrs_bytes(attrs).len() > 0 && white(bytes[at]) && bytes[at
            + attrs_bytes(attrs).len() - 1] != 0x2f,
    decreases attrs.len(),
{
    if attrs.len() > 0 {
        let a = attrs[0];
        let tail = attrs.drop_first();
        assert(fair(a));
        assert forall|i: int| 0 <= i < tail.len() implies fair(#[trigger] tail[i]) by {
            assert(tail[i] == attrs[i + 1]);
        }
        if all_well_formed(attrs) {
            assert(well_formed(a));
            assert forall|i: int| 0 <= i < tail.len() implies well_formed(#[trigger] tail[i]) by {
                assert(tail[i] == attrs[i + 1]);
            }
        }
        lemma_both_stand(bytes, attr_bytes(a), attrs_bytes(tail), at);
        lemma_attr_parts(bytes, a, at);
        lemma_gt_past_attr(bytes, a, at);
        lemma_gt_past_attrs(bytes, tail, at + attr_bytes(a).len());
        assert(bytes[at + 0] == a.blank[0]);
        if tail.len() == 0 {
            assert(attrs_bytes(tail).len() == 0);
        }
    }
}

/// A tag as it is written: its name, attributes and white space between `<` and `>`, with a `/`
/// before the `>` where it is self-closing.
pub struct Tagged {
    pub name: Seq<u8>,
    pub attrs: Seq<Attr>,
    pub trail: Seq<u8>,
    pub closing: bool,
}

/// What ends a tag.
pub open spec fn tag_end(closing: bool) -> Seq<u8> {
    if closing {
        seq![0x2fu8, 0x3eu8]
    } else {
        seq![0x3eu8]
    }
}

/// The bytes of a tag.
pub open spec fn tag_bytes(tag: Tagged) -> Seq<u8> {
    seq![0x3cu8] + (tag.name + (attrs_bytes(tag.attrs) + (tag.trail + tag_end(tag.closing))))
}

/// The tag has a name, and its attributes may stand in it.
pub open spec fn fair_tag(tag: Tagged) -> bool {
    names_element(tag.name) && all_fair(tag.attrs) && all_white(tag.trail)
}

/// The tag is well formed.
pub open spec fn good_tag(tag: Tagged) -> bool {
    names_element(tag.name) && all_well_formed(tag.attrs) && all_white(tag.trail)
}

/// A tag is scanned as what is written in it, whatever its attributes hold in quotes.
pub proof fn tag_is_scanned(bytes: Seq<u8>, tag: Tagged, at: int)
    requires
        stands_at(bytes, tag_bytes(tag), at),
        fair_tag(tag),
    ensures
        open_tag(bytes, at) == Some(
            OpenTagView {
                name: tag.name,
                interior: attrs_bytes(tag.attrs) + tag.trail,
                after: at + tag_bytes(tag).len(),
                self_closing: tag.closing,
            },
        ),
        bytes[at] == 0x3c,
        bytes[at + 1] == tag.name[0],
        at + 1 < bytes.len(),
        good_tag(tag) ==> forall|i: int|
            at < i < at + tag_bytes(tag).len() ==> (#[trigger] bytes[i]) != 0x3c,
{
    let lt = seq![0x3cu8];
    let end = tag_end(tag.closing);
    let list = attrs_bytes(tag.attrs);
    let last = tag.trail + end;
    let inside = list + last;
    let named = tag.name + inside;
    lemma_both_stand(bytes, lt, named, at);
    lemma_both_stand(bytes, tag.name, inside, at + 1);
    let stop = at + 1 + tag.name.len();
    lemma_both_stand(bytes, list, last, stop);
    let trail = stop + list.len();
    lemma_both_stand(bytes, tag.trail, end, trail);
    let fin = trail + tag.trail.len();
    let gt = fin + end.len() - 1;
    assert(bytes[at + 0] == lt[0]);
    assert(bytes[at + 1 + 0] == tag.name[0]);
    assert(bytes[fin + 0] == end[0]);
    assert(bytes[fin + (end.len() - 1)] == end[end.len() - 1]);
    lemma_gt_past_attrs(bytes, tag.attrs, stop);
    // The name ends where the attributes, the white space or the end begin.
    assert(ends_name(bytes[stop])) by {
        if tag.attrs.len() > 0 {
            assert(white(bytes[stop]));
        } else {
            assert(list.len() == 0);
            if tag.trail.len() > 0 {
                assert(bytes[trail + 0] == tag.trail[0]);
            }
        }
    }
    lemma_name_stop(bytes, at + 1);
    assert(name_stop(bytes, at + 1) == stop) by {
        let n = name_stop(bytes, at + 1);
        if n < stop {
            assert(bytes[at + 1 + (n - at - 1)] == tag.name[n - at - 1]);
        }
    }
    // Nothing between the attributes and the `>` is a quote or another `>`.
    let hit = quote_or_gt(bytes);
    assert(hit(gt));
    assert forall|j: int| trail <= j < gt implies !#[trigger] hit(j) && bytes[j] != 0x3c by {
        if j < fin {
            assert(bytes[trail + (j - trail)] == tag.trail[j - trail]);
        }
    }
    lemma_first_where_is(trail, bytes.len() as int, hit, Some(gt));
    assert(tag_gt(bytes, stop) == Some(gt));
    assert((bytes[gt - 1] == 0x2f) == tag.closing) by {
        if !tag.closing {
            if tag.trail.len() > 0 {
                assert(bytes[trail + (tag.trail.len() - 1)] == tag.trail[tag.trail.len() - 1]);
            } else if tag.attrs.len() > 0 {
                assert(bytes[stop + list.len() - 1] != 0x2f);
            } else {
                assert(list.len() == 0);
                assert(bytes[at + 1 + (tag.name.len() - 1)] == tag.name[tag.name.len() - 1]);
            }
        }
    }
    assert(bytes.subrange(at + 1, stop) =~= tag.name) by {
        assert forall|i: int| 0 <= i < tag.name.len() implies bytes.subrange(at + 1, stop)[i]
            == tag.name[i] by {
            assert(bytes[at + 1 + i] == tag.name[i]);
        }
    }
    assert(bytes.subrange(stop, fin) =~= list + tag.trail) by {
        assert forall|i: int| 0 <= i < fin - stop implies bytes.subrange(stop, fin)[i] == (list
            + tag.trail)[i] by {
            if i < list.len() {
                assert(bytes[stop + i] == list[i]);
            } else {
                assert(bytes[trail + (i - list.len())] == tag.trail[i - list.len()]);
            }
        }
    }
    assert forall|i: int| good_tag(tag) && at < i < at + tag_bytes(tag).len() implies (
    #[trigger] bytes[i]) != 0x3c by {
        if i < stop {
            assert(bytes[at + 1 + (i - at - 1)] == tag.name[i - at - 1]);
        } else if i < trail {
            assert(bytes[i] != 0x3c);
        } else if i < gt {
            assert(!hit(i));
        }
    }
}

/// An attribute is scanned as the key and the value that are written in it, whatever they are.
#[verifier::rlimit(30)]
pub proof fn attribute_is_scanned(a: Attr, rest: Seq<u8>)
    requires
        told(a),
    ensures
        attr_step(attr_bytes(a) + rest) == (AttrStep::Pair { key: a.key, value: a.value, rest }),
{
    let s = attr_bytes(a) + rest;
    assert(stands_at(s, attr_bytes(a), 0)) by {
        assert forall|i: int| 0 <= i < attr_bytes(a).len() implies s[0 + i] == #[trigger] attr_bytes(
            a,
        )[i] by {}
    }
    lemma_attr_parts(s, a, 0);
    let key = a.blank.len() as int;
    let eq = key + a.key.len();
    let quote = eq + 1 + a.gap.len();
    let close = quote + 1 + a.value.len();
    lemma_skip_space(s, 0);
    assert(skip_space(s, 0) == key) by {
        let n = skip_space(s, 0);
        if a.key.len() > 0 {
            assert(s[key + 0] == a.key[0]);
        }
        if n < key {
            assert(s[0 + n] == a.blank[n]);
        }
    }
    let hit = key_ends(s);
    assert(hit(eq));
    assert forall|j: int| key <= j < eq implies !#[trigger] hit(j) by {
        assert(s[key + (j - key)] == a.key[j - key]);
    }
    lemma_first_where_is(key, s.len() as int, hit, Some(eq));
    lemma_skip_space(s, eq + 1);
    assert(skip_space(s, eq + 1) == quote) by {
        let n = skip_space(s, eq + 1);
        if n < quote {
            assert(s[eq + 1 + (n - eq - 1)] == a.gap[n - eq - 1]);
        }
    }
    lemma_byte_from(s, s[quote], quote + 1);
    assert(byte_from(s, s[quote], quote + 1) == Some(close)) by {
        if let Some(i) = byte_from(s, s[quote], quote + 1) {
            if i < close {
                assert(s[i] != a.quote);
            }
        }
    }
    assert(s.subrange(key, eq) =~= a.key) by {
        assert forall|i: int| 0 <= i < a.key.len() implies s.subrange(key, eq)[i] == a.key[i] by {
            assert(s[key + i] == a.key[i]);
        }
    }
    assert(s.subrange(quote + 1, close) =~= a.value) by {
        assert forall|i: int| 0 <= i < a.value.len() implies s.subrange(quote + 1, close)[i]
            == a.value[i] by {
            assert(s[quote + 1 + i] == a.value[i]);
        }
    }
    assert(s.subrange(close + 1, s.len() as int) =~= rest);
}

/// White space holds no attribute.
pub proof fn white_space_is_no_attribute(s: Seq<u8>)
    requires
        all_white(s),
    ensures
        attr_step(s) is End,
{
    lemma_skip_space(s, 0);
}

/// The value of the first attribute with one of the keys is found, however many follow; none is
/// found where no attribute has one.
pub proof fn first_attribute_is_found(
    attrs: Seq<Attr>,
    trail: Seq<u8>,
    keys: Seq<Seq<u8>>,
    i: int,
)
    requires
        all_well_formed(attrs),
        all_white(trail),
        0 <= i <= attrs.len(),
        forall|j: int| 0 <= j < i ==> !keys.contains((#[trigger] attrs[j]).key),
        i < attrs.len() ==> keys.contains(attrs[i].key),
    ensures
        attr_value(attrs_bytes(attrs) + trail, keys) == Ok::<Option<Seq<u8>>, ()>(
            if i < attrs.len() {
                Some(attrs[i].value)
            } else {
                None
            },
        ),
    decreases attrs.len(),
{
    let s = attrs_bytes(attrs) + trail;
    if attrs.len() == 0 {
        assert(s =~= trail);
        white_space_is_no_attribute(trail);
    } else {
        let tail = attrs.drop_first();
        assert(well_formed(attrs[0]));
        attribute_is_scanned(attrs[0], attrs_bytes(tail) + trail);
        assert(s =~= attr_bytes(attrs[0]) + (attrs_bytes(tail) + trail));
        lemma_attr_step(s);
        if i > 0 {
            assert(!keys.contains(attrs[0].key));
            assert forall|k: int| 0 <= k < tail.len() implies well_formed(#[trigger] tail[k]) by {
                assert(tail[k] == attrs[k + 1]);
            }
            assert forall|j: int| 0 <= j < i - 1 implies !keys.contains(
                (#[trigger] tail[j]).key,
            ) by {
                assert(tail[j] == attrs[j + 1]);
            }
            first_attribute_is_found(tail, trail, keys, i - 1);
        }
    }
}

/// Text before markup is passed over.
proof fn lemma_text_passed(bytes: Seq<u8>, cur: int, to: int, regions: Seq<(int, int)>)
    requires
        0 <= cur <= to <= bytes.len(),
        forall|i: int| cur <= i < to ==> (#[trigger] bytes[i]) != 0x3c,
    ensures
        token(bytes, cur, regions) == token(bytes, to, regions),
{
    lemma_byte_from(bytes, LT, cur);
    lemma_byte_from(bytes, LT, to);
    match (byte_from(bytes, LT, cur), byte_from(bytes, LT, to)) {
        (Some(a), Some(b)) => {
            assert(bytes[a] == 0x3c && bytes[b] == 0x3c);
        },
        (Some(a), None) => {
            assert(bytes[a] == 0x3c);
        },
        (None, Some(b)) => {
            assert(bytes[b] == 0x3c);
        },
        _ => {},
    }
}

/// A tag with text before it is the next piece of markup.
pub proof fn tag_is_the_next_markup(
    bytes: Seq<u8>,
    lead: Seq<u8>,
    tag: Tagged,
    cur: int,
    regions: Seq<(int, int)>,
)
    requires
        stands_at(bytes, lead + tag_bytes(tag), cur),
        no_markup(lead),
        good_tag(tag),
        !in_spans(regions, cur + lead.len()),
    ensures
        token(bytes, cur, regions) == TokenView::Open(
            OpenTagView {
                name: tag.name,
                interior: attrs_bytes(tag.attrs) + tag.trail,
                after: cur + lead.len() + tag_bytes(tag).len(),
                self_closing: tag.closing,
            },
        ),
{
    let at = cur + lead.len();
    lemma_both_stand(bytes, lead, tag_bytes(tag), cur);
    assert forall|i: int| cur <= i < at implies (#[trigger] bytes[i]) != 0x3c by {
        assert(bytes[cur + (i - cur)] == lead[i - cur]);
    }
    lemma_text_passed(bytes, cur, at, regions);
    tag_is_scanned(bytes, tag, at);
    lemma_byte_from(bytes, LT, at);
}

/// A close tag as it is written, with white space before its `>`.
pub open spec fn close_bytes(name: Seq<u8>, tail: Seq<u8>) -> Seq<u8> {
    seq![0x3cu8, 0x2fu8] + (name + (tail + seq![0x3eu8]))
}

/// The places of the parts of a close tag.
proof fn lemma_close_parts(bytes: Seq<u8>, name: Seq<u8>, tail: Seq<u8>, at: int)
    requires
        stands_at(bytes, close_bytes(name, tail), at),
        names_element(name),
        all_white(tail),
    ensures
        ({
            let end = at + 2 + name.len();
            let gt = end + tail.len();
            &&& gt + 1 == at + close_bytes(name, tail).len()
            &&& gt < bytes.len()
            &&& bytes[at] == 0x3c && bytes[at + 1] == 0x2f && bytes[gt] == 0x3e
            &&& stands_at(bytes, name, at + 2)
            &&& stands_at(bytes, tail, end)
            &&& forall|i: int| at < i < gt ==> (#[trigger] bytes[i]) != 0x3e && bytes[i] != 0x3c
            &&& white(bytes[end]) || bytes[end] == 0x3e
        }),
{
    let open = seq![0x3cu8, 0x2fu8];
    let fin = seq![0x3eu8];
    let ended = tail + fin;
    let named = name + ended;
    lemma_both_stand(bytes, open, named, at);
    lemma_both_stand(bytes, name, ended, at + 2);
    let end = at + 2 + name.len();
    lemma_both_stand(bytes, tail, fin, end);
    let gt = end + tail.len();
    assert(bytes[at + 0] == open[0]);
    assert(bytes[at + 1] == open[1]);
    assert(bytes[gt + 0] == fin[0]);
    assert forall|i: int| at < i < gt implies (#[trigger] bytes[i]) != 0x3e && bytes[i] != 0x3c by {
        if i >= end {
            assert(bytes[end + (i - end)] == tail[i - end]);
        } else if i >= at + 2 {
            assert(bytes[at + 2 + (i - at - 2)] == name[i - at - 2]);
        }
    }
    if tail.len() > 0 {
        assert(bytes[end + 0] == tail[0]);
    }
}

/// White space behind a name is cut off.
proof fn lemma_trimmed(name: Seq<u8>, tail: Seq<u8>)
    requires
        names_element(name),
        all_white(tail),
    ensures
        trim_end(name + tail) == name,
    decreases tail.len(),
{
    if tail.len() == 0 {
        assert(name + tail =~= name);
        assert(!white(name[name.len() - 1]));
    } else {
        assert((name + tail).drop_last() =~= name + tail.drop_last());
        assert(white(tail[tail.len() - 1]));
        lemma_trimmed(name, tail.drop_last());
    }
}

/// A close tag with text before it is the next piece of markup; the white space in it does not
/// count.
pub proof fn close_tag_is_the_next_markup(
    bytes: Seq<u8>,
    lead: Seq<u8>,
    name: Seq<u8>,
    tail: Seq<u8>,
    cur: int,
    regions: Seq<(int, int)>,
)
    requires
        stands_at(bytes, lead + close_bytes(name, tail), cur),
        no_markup(lead),
        names_element(name),
        all_white(tail),
        !in_spans(regions, cur + lead.len()),
    ensures
        token(bytes, cur, regions) == (TokenView::Close {
            name,
            after: cur + lead.len() + close_bytes(name, tail).len(),
        }),
{
    let at = cur + lead.len();
    lemma_both_stand(bytes, lead, close_bytes(name, tail), cur);
    assert forall|i: int| cur <= i < at implies (#[trigger] bytes[i]) != 0x3c by {
        assert(bytes[cur + (i - cur)] == lead[i - cur]);
    }
    lemma_text_passed(bytes, cur, at, regions);
    lemma_close_parts(bytes, name, tail, at);
    let gt = at + 2 + name.len() + tail.len();
    lemma_byte_from(bytes, LT, at);
    lemma_byte_from(bytes, GT, at + 2);
    assert(byte_from(bytes, GT, at + 2) == Some(gt)) by {
        if let Some(i) = byte_from(bytes, GT, at + 2) {
            if i < gt {
                assert(bytes[i] != 0x3e);
            }
        }
    }
    assert(bytes.subrange(at + 2, gt) =~= name + tail) by {
        assert forall|i: int| 0 <= i < gt - at - 2 implies bytes.subrange(at + 2, gt)[i] == (name
            + tail)[i] by {
            if i < name.len() {
                assert(bytes[at + 2 + i] == name[i]);
            } else {
                assert(bytes[at + 2 + name.len() + (i - name.len())] == tail[i - name.len()]);
            }
        }
    }
    lemma_trimmed(name, tail);
}

/// The close tag of an element whose body holds no markup is found right after the body.
pub proof fn close_tag_is_found(
    bytes: Seq<u8>,
    text: Seq<u8>,
    name: Seq<u8>,
    tail: Seq<u8>,
    from: int,
    regions: Seq<(int, int)>,
)
    requires
        stands_at(bytes, text + close_bytes(name, tail), from),
        no_markup(text),
        names_element(name),
        all_white(tail),
        !in_spans(regions, from + text.len()),
    ensures
        close_extent(bytes, close_prefix(name), regions, from) == Some(
            (from + text.len(), from + text.len() + close_bytes(name, tail).len()),
        ),
        bytes.subrange(from, from + text.len()) == text,
{
    let at = from + text.len();
    lemma_both_stand(bytes, text, close_bytes(name, tail), from);
    assert forall|i: int| from <= i < at implies (#[trigger] bytes[i]) != 0x3c by {
        assert(bytes[from + (i - from)] == text[i - from]);
    }
    assert(bytes.subrange(from, at) =~= text) by {
        assert forall|i: int| 0 <= i < text.len() implies bytes.subrange(from, at)[i] == text[i] by {
            assert(bytes[from + i] == text[i]);
        }
    }
    lemma_close_hit(bytes, name, tail, at, regions);
    let hit = close_starts(bytes, close_prefix(name), regions);
    assert forall|j: int| from <= j < at implies !#[trigger] hit(j) by {
        lemma_hit_is_close(bytes, close_prefix(name), regions, j);
    }
    lemma_first_where_is(from, bytes.len() as int, hit, Some(at));
}

/// A close tag of a name starts with `<`, `/` and the name.
pub proof fn lemma_close_hit(
    bytes: Seq<u8>,
    name: Seq<u8>,
    tail: Seq<u8>,
    at: int,
    regions: Seq<(int, int)>,
)
    requires
        stands_at(bytes, close_bytes(name, tail), at),
        names_element(name),
        all_white(tail),
        !in_spans(regions, at),
    ensures
        close_starts(bytes, close_prefix(name), regions)(at),
        at < bytes.len(),
        byte_from(bytes, GT, at + close_prefix(name).len()) == Some(
            at + close_bytes(name, tail).len() - 1,
        ),
{
    lemma_close_parts(bytes, name, tail, at);
    let pat = close_prefix(name);
    let end = at + 2 + name.len();
    let gt = end + tail.len();
    assert(bytes.subrange(at, at + pat.len()) =~= pat) by {
        assert forall|i: int| 0 <= i < pat.len() implies bytes.subrange(at, at + pat.len())[i]
            == pat[i] by {
            if i >= 2 {
                assert(bytes[at + 2 + (i - 2)] == name[i - 2]);
            }
        }
    }
    lemma_byte_from(bytes, GT, end);
    assert(byte_from(bytes, GT, end) == Some(gt)) by {
        if let Some(i) = byte_from(bytes, GT, end) {
            if i < gt {
                assert(bytes[i] != 0x3e);
            }
        }
    }
}

/// Where a close tag may start, `<` and `/` stand.
pub proof fn lemma_hit_is_close(
    bytes: Seq<u8>,
    pat: Seq<u8>,
    regions: Seq<(int, int)>,
    j: int,
)
    requires
        pat.len() >= 2,
        pat[0] == 0x3c,
        pat[1] == 0x2f,
    ensures
        close_starts(bytes, pat, regions)(j) ==> 0 <= j && j + 1 < bytes.len() && bytes[j] == 0x3c
            && bytes[j + 1] == 0x2f,
{
    if close_starts(bytes, pat, regions)(j) {
        assert(bytes.subrange(j, j + pat.len())[0] == pat[0]);
        assert(bytes.subrange(j, j + pat.len())[1] == pat[1]);
    }
}

/// No close tag of another name starts in a close tag.
pub proof fn lemma_other_close(
    bytes: Seq<u8>,
    name: Seq<u8>,
    tail: Seq<u8>,
    close: Seq<u8>,
    at: int,
    regions: Seq<(int, int)>,
)
    requires
        stands_at(bytes, close_bytes(name, tail), at),
        names_element(name),
        names_element(close),
        all_white(tail),
        name != close,
    ensures
        forall|j: int|
            at <= j < at + close_bytes(name, tail).len() ==> !#[trigger] close_starts(
                bytes,
                close_prefix(close),
                regions,
            )(j),
{
    lemma_close_parts(bytes, name, tail, at);
    let pat = close_prefix(close);
    let hit = close_starts(bytes, pat, regions);
    let end = at + 2 + name.len();
    let gt = end + tail.len();
    assert forall|j: int| at <= j <= gt implies !#[trigger] hit(j) by {
        lemma_hit_is_close(bytes, pat, regions, j);
        if hit(j) {
            assert(j == at);
            let stop = at + pat.len();
            assert(bytes.subrange(at, stop) == pat);
            assert forall|i: int| 0 <= i < close.len() implies bytes[at + 2 + i] == close[i] by {
                assert(bytes.subrange(at, stop)[i + 2] == pat[i + 2]);
            }
            if close.len() < name.len() {
                assert(bytes[at + 2 + close.len()] == name[close.len() as int]);
            } else if name.len() < close.len() {
                assert(bytes[at + 2 + name.len()] == close[name.len() as int]);
            } else {
                assert(name =~= close) by {
                    assert forall|i: int| 0 <= i < name.len() implies name[i] == close[i] by {
                        assert(bytes[at + 2 + i] == name[i]);
                    }
                }
            }
        }
    }
}

/// An attribute without a `=` right after its key, without a quote after that, or without the same
/// quote at its end is malformed.
pub proof fn malformed_attributes(blank: Seq<u8>, key: Seq<u8>, gap: Seq<u8>, rest: Seq<u8>)
    requires
        all_white(blank),
        all_white(gap),
        key.len() > 0,
        forall|i: int| 0 <= i < key.len() ==> !white(#[trigger] key[i]) && key[i] != 0x3d,
    ensures
        attr_step(blank + key) is Malformed,
        rest.len() > 0 && white(rest[0]) ==> attr_step((blank + key) + rest) is Malformed,
        rest.len() == 0 || (rest[0] != 0x22 && rest[0] != 0x27 && !white(rest[0])) ==> attr_step(
            (blank + key) + (seq![0x3du8] + (gap + rest)),
        ) is Malformed,
        rest.len() > 0 && (rest[0] == 0x22 || rest[0] == 0x27) && !rest.skip(1).contains(rest[0])
            ==> attr_step((blank + key) + (seq![0x3du8] + (gap + rest))) is Malformed,
{
    lemma_key_alone(blank, key, Seq::empty());
    assert((blank + key) + Seq::<u8>::empty() =~= blank + key);
    if rest.len() > 0 && white(rest[0]) {
        lemma_key_alone(blank, key, rest);
    }
    let valued = seq![0x3du8] + (gap + rest);
    let s = (blank + key) + valued;
    lemma_key_alone(blank, key, valued);
    let eq: int = (blank.len() + key.len()) as int;
    assert(s[eq] == valued[0]);
    assert forall|i: int| 0 <= i < gap.len() implies s[eq + 1 + i] == #[trigger] gap[i] by {
        assert(valued[1 + i] == gap[i]);
        assert(s[eq + (1 + i)] == valued[1 + i]);
    }
    let from = eq + 1;
    let quote = from + gap.len();
    assert forall|i: int| 0 <= i < rest.len() implies s[quote + i] == #[trigger] rest[i] by {
        assert(valued[1 + gap.len() + i] == rest[i]);
        assert(s[eq + (1 + gap.len() + i)] == valued[1 + gap.len() + i]);
    }
    lemma_skip_space(s, from);
    let n = skip_space(s, from);
    if n < quote {
        assert(s[eq + 1 + (n - eq - 1)] == gap[n - eq - 1]);
    }
    if rest.len() > 0 && !white(rest[0]) {
        assert(s[quote + 0] == rest[0]);
        assert(n == quote);
        if rest[0] == 0x22 || rest[0] == 0x27 {
            lemma_byte_from(s, s[quote], quote + 1);
            if let Some(i) = byte_from(s, s[quote], quote + 1) {
                assert(s[quote + (i - quote)] == rest[i - quote]);
                assert(rest.skip(1)[i - quote - 1] == rest[i - quote]);
            }
        }
    }
}

/// A key ends where it is written to end.
proof fn lemma_key_alone(blank: Seq<u8>, key: Seq<u8>, rest: Seq<u8>)
    requires
        all_white(blank),
        key.len() > 0,
        forall|i: int| 0 <= i < key.len() ==> !white(#[trigger] key[i]) && key[i] != 0x3d,
        rest.len() == 0 || white(rest[0]) || rest[0] == 0x3d,
    ensures
        skip_space((blank + key) + rest, 0) == blank.len(),
        key_stop((blank + key) + rest, blank.len() as int) == blank.len() + key.len(),
{
    let s = (blank + key) + rest;
    let k = blank.len() as int;
    let e = k + key.len();
    assert forall|i: int| 0 <= i < blank.len() implies s[i] == #[trigger] blank[i] by {}
    assert forall|i: int| 0 <= i < key.len() implies s[k + i] == #[trigger] key[i] by {}
    lemma_skip_space(s, 0);
    let n = skip_space(s, 0);
    if n < k {
        assert(s[n] == blank[n]);
    }
    assert(s[k + 0] == key[0]);
    let hit = key_ends(s);
    assert forall|j: int| k <= j < e implies !#[trigger] hit(j) by {
        assert(s[k + (j - k)] == key[j - k]);
    }
    if rest.len() > 0 {
        assert(s[e] == rest[0]);
        assert(hit(e));
        lemma_first_where_is(k, s.len() as int, hit, Some(e));
    } else {
        lemma_first_where_is(k, s.len() as int, hit, None);
    }
}

/// A comment as it is written.
pub open spec fn comment_bytes(body: Seq<u8>) -> Seq<u8> {
    seq![0x3cu8, 0x21u8, 0x2du8, 0x2du8] + (body + seq![0x2du8, 0x2du8, 0x3eu8])
}

/// A CDATA section as it is written.
pub open spec fn cdata_bytes(body: Seq<u8>) -> Seq<u8> {
    seq![0x3cu8, 0x21u8, 0x5bu8, 0x43u8, 0x44u8, 0x41u8, 0x54u8, 0x41u8, 0x5bu8] + (body + seq![
        0x5du8,
        0x5du8,
        0x3eu8,
    ])
}

/// `close` ends `body` and stands nowhere before that.
pub open spec fn first_ends(body: Seq<u8>, close: Seq<u8>) -> bool {
    forall|j: int| 0 <= j < body.len() ==> !#[trigger] stands_at(body + close, close, j)
}

/// Bytes occur where they stand.
pub proof fn lemma_occurs(bytes: Seq<u8>, part: Seq<u8>, at: int)
    ensures
        occurs_at(bytes, part, at) == stands_at(bytes, part, at),
{
    if 0 <= at && at + part.len() <= bytes.len() {
        let here = bytes.subrange(at, at + part.len());
        if stands_at(bytes, part, at) {
            assert forall|i: int| 0 <= i < part.len() implies here[i] == part[i] by {
                assert(bytes[at + i] == part[i]);
            }
            assert(here =~= part);
        }
        if here == part {
            assert forall|i: int| 0 <= i < part.len() implies bytes[at + i] == #[trigger] part[i] by {
                assert(here[i] == bytes[at + i]);
            }
        }
    }
}

/// The first close marker is the one that ends the body.
proof fn lemma_first_close(bytes: Seq<u8>, body: Seq<u8>, close: Seq<u8>, from: int)
    requires
        stands_at(bytes, body + close, from),
        first_ends(body, close),
    ensures
        bytes_from(bytes, close, from) == Some(from + body.len()),
{
    let end = from + body.len();
    lemma_both_stand(bytes, body, close, from);
    lemma_occurs(bytes, close, end);
    lemma_bytes_from(bytes, close, from);
    if let Some(i) = bytes_from(bytes, close, from) {
        if i < end {
            let j = i - from;
            lemma_occurs(bytes, close, i);
            let both = body + close;
            assert(stands_at(both, close, j)) by {
                assert forall|k: int| 0 <= k < close.len() implies both[j + k] == #[trigger] close[k] by {
                    assert(bytes[i + k] == close[k]);
                    assert(bytes[from + (j + k)] == both[j + k]);
                }
            }
        }
    }
}

/// A comment ends with the first `-->` after its start, and a CDATA section with the first `]]>`,
/// whatever they hold; neither is read as markup in a row.
pub proof fn comments_and_sections_end_at_their_close(
    bytes: Seq<u8>,
    body: Seq<u8>,
    at: int,
    regions: Seq<(int, int)>,
)
    ensures
        stands_at(bytes, comment_bytes(body), at) && first_ends(
            body,
            seq![0x2du8, 0x2du8, 0x3eu8],
        ) ==> {
            let end = at + comment_bytes(body).len();
            &&& construct_end(bytes, at) == Some(end)
            &&& !in_spans(regions, at) ==> token(bytes, at, regions) == TokenView::Skip(end)
        },
        stands_at(bytes, cdata_bytes(body), at) && first_ends(
            body,
            seq![0x5du8, 0x5du8, 0x3eu8],
        ) ==> {
            let end = at + cdata_bytes(body).len();
            &&& construct_end(bytes, at) == Some(end)
            &&& !in_spans(regions, at) ==> token(bytes, at, regions) == TokenView::Skip(end)
        },
{
    lemma_byte_from(bytes, LT, at);
    lemma_occurs(bytes, COMMENT_OPEN@, at);
    lemma_occurs(bytes, CDATA_OPEN@, at);
    if stands_at(bytes, comment_bytes(body), at) && first_ends(
        body,
        seq![0x2du8, 0x2du8, 0x3eu8],
    ) {
        let open = seq![0x3cu8, 0x21u8, 0x2du8, 0x2du8];
        let close = seq![0x2du8, 0x2du8, 0x3eu8];
        assert(COMMENT_OPEN@ =~= open);
        assert(COMMENT_CLOSE@ =~= close);
        lemma_both_stand(bytes, open, body + close, at);
        lemma_first_close(bytes, body, close, at + 4);
        assert(bytes[at + 0] == open[0]);
        assert(bytes[at + 1] == open[1]);
    }
    if stands_at(bytes, cdata_bytes(body), at) && first_ends(body, seq![0x5du8, 0x5du8, 0x3eu8]) {
        let open = seq![
            0x3cu8,
            0x21u8,
            0x5bu8,
            0x43u8,
            0x44u8,
            0x41u8,
            0x54u8,
            0x41u8,
            0x5bu8,
        ];
        let close = seq![0x5du8, 0x5du8, 0x3eu8];
        assert(CDATA_OPEN@ =~= open);
        assert(CDATA_CLOSE@ =~= close);
        lemma_both_stand(bytes, open, body + close, at);
        lemma_first_close(bytes, body, close, at + 9);
        assert(bytes[at + 0] == open[0]);
        assert(bytes[at + 1] == open[1]);
        assert(bytes[at + 2] == open[2]);
        assert(COMMENT_OPEN@[2] == 0x2d);
    }
}

/// A processing instruction or a declaration in a row is passed over up to its `>`.
pub proof fn declarations_end_at_their_close(
    bytes: Seq<u8>,
    body: Seq<u8>,
    at: int,
    regions: Seq<(int, int)>,
)
    requires
        stands_at(bytes, (seq![0x3cu8] + body) + seq![0x3eu8], at),
        body.len() > 0,
        body[0] == 0x3f || (body[0] == 0x21 && body.len() > 1 && body[1] != 0x2d && body[1] != 0x5b),
        !body.contains(0x3eu8),
        !in_spans(regions, at),
    ensures
        token(bytes, at, regions) == TokenView::Skip(at + body.len() + 2),
{
    let head = seq![0x3cu8] + body;
    let close = seq![0x3eu8];
    lemma_both_stand(bytes, head, close, at);
    lemma_both_stand(bytes, seq![0x3cu8], body, at);
    let gt = at + 1 + body.len();
    assert(bytes[at + 0] == head[0]);
    assert(bytes[at + 1 + 0] == body[0]);
    if body.len() > 1 {
        assert(bytes[at + 1 + 1] == body[1]);
    }
    assert(bytes[gt + 0] == close[0]);
    lemma_byte_from(bytes, LT, at);
    lemma_byte_from(bytes, GT, at + 1);
    assert(byte_from(bytes, GT, at + 1) == Some(gt)) by {
        if let Some(i) = byte_from(bytes, GT, at + 1) {
            if i < gt {
                assert(bytes[at + 1 + (i - at - 1)] == body[i - at - 1]);
            }
        }
    }
    lemma_occurs(bytes, COMMENT_OPEN@, at);
    lemma_occurs(bytes, CDATA_OPEN@, at);
    if stands_at(bytes, COMMENT_OPEN@, at) {
        assert(bytes[at + 1] == COMMENT_OPEN@[1]);
        assert(bytes[at + 2] == COMMENT_OPEN@[2]);
    }
    if stands_at(bytes, CDATA_OPEN@, at) {
        assert(bytes[at + 1] == CDATA_OPEN@[1]);
        assert(bytes[at + 2] == CDATA_OPEN@[2]);
    }
}

/// A document without `<!` has no comments and no CDATA sections.
pub proof fn no_declaration_no_regions(bytes: Seq<u8>)
    requires
        forall|i: int|
            0 <= i < bytes.len() - 1 && #[trigger] bytes[i] == 0x3c ==> bytes[i + 1] != 0x21,
    ensures
        special_spans(bytes, 0).len() == 0,
{
    lemma_bytes_from(bytes, DECLARATION_OPEN@, 0);
    if let Some(at) = bytes_from(bytes, DECLARATION_OPEN@, 0) {
        lemma_occurs(bytes, DECLARATION_OPEN@, at);
        assert(bytes[at + 0] == DECLARATION_OPEN@[0]);
        assert(bytes[at + 1] == DECLARATION_OPEN@[1]);
        assert(bytes[at] == 0x3c);
    }
}

/// A row starts where `<` and its name stand, and white space, `>` or `/` after them, and nowhere
/// else.
pub proof fn rows_start_with_their_name(bytes: Seq<u8>, tag: Seq<u8>, at: int)
    ensures
        row_start_at(bytes, tag, at) <==> {
            let end = at + 1 + tag.len();
            &&& stands_at(bytes, seq![0x3cu8] + tag, at)
            &&& end < bytes.len()
            &&& white(bytes[end]) || bytes[end] == 0x3e || bytes[end] == 0x2f
        },
{
    let whole = seq![0x3cu8] + tag;
    lemma_occurs(bytes, tag, at + 1);
    if stands_at(bytes, whole, at) {
        lemma_both_stand(bytes, seq![0x3cu8], tag, at);
        assert(bytes[at + 0] == whole[0]);
    }
    if row_start_at(bytes, tag, at) {
        assert forall|i: int| 0 <= i < whole.len() implies bytes[at + i] == #[trigger] whole[i] by {
            if i > 0 {
                assert(bytes[at + 1 + (i - 1)] == tag[i - 1]);
            }
        }
    }
}

/// A `<` with no name behind it ends the scan, and so does one with no `>` behind it.
pub proof fn mark_that_opens_nothing_ends_the_scan(
    bytes: Seq<u8>,
    cur: int,
    lt: int,
    regions: Seq<(int, int)>,
)
    requires
        0 <= cur <= lt < bytes.len(),
        bytes[lt] == 0x3c,
        forall|i: int| cur <= i < lt ==> #[trigger] bytes[i] != 0x3c,
        !in_spans(regions, lt),
        lt + 1 < bytes.len() ==> white(bytes[lt + 1]) || bytes[lt + 1] == 0x3e || forall|i: int|
            lt < i < bytes.len() ==> #[trigger] bytes[i] != 0x3e,
    ensures
        token(bytes, cur, regions) is End,
{
    lemma_byte_from(bytes, LT, cur);
    assert(byte_from(bytes, LT, cur) == Some(lt));
    if lt + 1 < bytes.len() {
        if forall|i: int| lt < i < bytes.len() ==> #[trigger] bytes[i] != 0x3e {
            lemma_byte_from(bytes, GT, lt + 1);
            lemma_byte_from(bytes, GT, lt + 2);
            lemma_close_needs_gt(bytes, COMMENT_CLOSE@, lt + COMMENT_OPEN@.len(), lt);
            lemma_close_needs_gt(bytes, CDATA_CLOSE@, lt + CDATA_OPEN@.len(), lt);
            lemma_name_stop(bytes, lt + 1);
            lemma_no_gt(bytes, name_stop(bytes, lt + 1));
        } else {
            lemma_name_stop(bytes, lt + 1);
            assert(ends_name(bytes[lt + 1]));
            assert(name_ends(bytes)(lt + 1));
            assert(name_stop(bytes, lt + 1) == lt + 1);
        }
    }
}

/// Bytes that end with a `>` stand nowhere behind the last `>`.
proof fn lemma_close_needs_gt(bytes: Seq<u8>, close: Seq<u8>, from: int, lt: int)
    requires
        lt < from,
        close.len() > 0,
        close.last() == 0x3e,
        forall|i: int| lt < i < bytes.len() ==> #[trigger] bytes[i] != 0x3e,
    ensures
        bytes_from(bytes, close, from) is None,
{
    lemma_bytes_from(bytes, close, from);
    if let Some(at) = bytes_from(bytes, close, from) {
        let here = bytes.subrange(at, at + close.len());
        assert(here == close);
        assert(here[close.len() - 1] == bytes[at + close.len() - 1]);
    }
}

/// Without a `>` no tag ends.
proof fn lemma_no_gt(bytes: Seq<u8>, from: int)
    requires
        0 <= from,
        forall|i: int| from <= i < bytes.len() ==> #[trigger] bytes[i] != 0x3e,
    ensures
        tag_gt(bytes, from) is None,
    decreases bytes.len() - from,
{
    lemma_first_where(from, bytes.len() as int, quote_or_gt(bytes));
    if let Some(at) = first_where(from, bytes.len() as int, quote_or_gt(bytes)) {
        lemma_byte_from(bytes, bytes[at], at + 1);
        if let Some(close) = byte_from(bytes, bytes[at], at + 1) {
            lemma_no_gt(bytes, close + 1);
        }
    }
}

/// A close tag with nothing but white space in it closes that, and so no element that has a name.
pub proof fn close_tag_without_a_name_closes_no_element(
    bytes: Seq<u8>,
    blank: Seq<u8>,
    at: int,
    regions: Seq<(int, int)>,
)
    requires
        all_white(blank),
        stands_at(bytes, close_bytes(Seq::empty(), blank), at),
        !in_spans(regions, at),
    ensures
        token(bytes, at, regions) == (TokenView::Close {
            name: blank,
            after: at + close_bytes(Seq::empty(), blank).len(),
        }),
{
    let all = close_bytes(Seq::empty(), blank);
    let gt = at + 2 + blank.len();
    assert(all =~= seq![0x3cu8, 0x2fu8] + (blank + seq![0x3eu8]));
    assert(bytes[at + 0] == all[0]);
    assert(bytes[at + 1] == all[1]);
    assert(bytes[at + (2 + blank.len())] == all[2 + blank.len() as int]);
    assert forall|i: int| 0 <= i < blank.len() implies bytes[at + 2 + i] == #[trigger] blank[i] by {
        assert(bytes[at + (2 + i)] == all[2 + i]);
    }
    lemma_byte_from(bytes, LT, at);
    lemma_byte_from(bytes, GT, at + 2);
    assert(byte_from(bytes, GT, at + 2) == Some(gt)) by {
        if let Some(i) = byte_from(bytes, GT, at + 2) {
            if i < gt {
                assert(bytes[at + 2 + (i - at - 2)] == blank[i - at - 2]);
            }
        }
    }
    assert(bytes.subrange(at + 2, gt) =~= blank);
    lemma_all_trimmed(blank);
}

/// Nothing is left of white space.
proof fn lemma_all_trimmed(blank: Seq<u8>)
    requires
        all_white(blank),
    ensures
        trim_end(blank).len() == 0,
    decreases blank.len(),
{
    if blank.len() > 0 {
        assert(white(blank[blank.len() - 1]));
        lemma_all_trimmed(blank.drop_last());
    }
}

/// The end of the first region that a place lies in.
proof fn lemma_span_end(regions: Seq<(int, int)>, k: int, at: int)
    requires
        0 <= k < regions.len(),
        in_span(regions[k], at),
        forall|j: int| 0 <= j < k ==> !in_span(#[trigger] regions[j], at),
    ensures
        span_end(regions, at) == regions[k].1,
    decreases regions.len(),
{
    if k > 0 {
        let tail = regions.drop_first();
        assert(!in_span(regions[0], at));
        assert(tail[k - 1] == regions[k]);
        assert forall|j: int| 0 <= j < k - 1 implies !in_span(#[trigger] tail[j], at) by {
            assert(tail[j] == regions[j + 1]);
        }
        lemma_span_end(tail, k - 1, at);
    }
}

/// Where the next `<` lies in one of the regions, which do not overlap, the scan goes on at the end
/// of that region.
pub proof fn regions_are_passed_over_whole(
    bytes: Seq<u8>,
    cur: int,
    lt: int,
    regions: Seq<(int, int)>,
    k: int,
    hi: int,
)
    requires
        0 <= cur <= lt < bytes.len() - 1,
        bytes[lt] == 0x3c,
        forall|i: int| cur <= i < lt ==> #[trigger] bytes[i] != 0x3c,
        ordered_spans(regions, 0, hi),
        0 <= k < regions.len(),
        regions[k].0 <= lt < regions[k].1,
    ensures
        span_end(regions, lt) == regions[k].1,
        token(bytes, cur, regions) == TokenView::Skip(regions[k].1),
{
    lemma_byte_from(bytes, LT, cur);
    assert(byte_from(bytes, LT, cur) == Some(lt));
    assert(in_span(regions[k], lt));
    assert forall|j: int| 0 <= j < k implies !in_span(#[trigger] regions[j], lt) by {
        assert(regions[j].1 <= regions[k].0);
    }
    lemma_span_end(regions, k, lt);
}

/// Rows in comments and sections do not count: the next row is the first at or after `from` that
/// starts in none of the regions.
pub proof fn rows_in_regions_do_not_count(
    bytes: Seq<u8>,
    tag: Seq<u8>,
    regions: Seq<(int, int)>,
    from: int,
    at: int,
)
    ensures
        from <= at && row_start_at(bytes, tag, at) && !in_spans(regions, at) && (forall|j: int|
            from <= j < at && !in_spans(regions, j) ==> !#[trigger] row_start_at(bytes, tag, j))
            ==> next_row(bytes, tag, regions, from) == Some(at),
        (forall|j: int|
            from <= j && !in_spans(regions, j) ==> !#[trigger] row_start_at(bytes, tag, j))
            ==> next_row(bytes, tag, regions, from) is None,
{
    lemma_next_row(bytes, tag, regions, from);
    if let Some(found) = next_row(bytes, tag, regions, from) {
        assert(row_start_at(bytes, tag, found));
    }
}

/// Close tags in comments and sections do not count: an element ends with the first `>` behind the
/// first close tag of its name that stands in none of the regions.
pub proof fn close_tags_in_regions_do_not_count(
    bytes: Seq<u8>,
    name: Seq<u8>,
    regions: Seq<(int, int)>,
    from: int,
    at: int,
    gt: int,
)
    requires
        0 <= from <= at,
        closes_at(bytes, name, at),
        !in_spans(regions, at),
        forall|j: int| from <= j < at && !in_spans(regions, j) ==> !#[trigger] closes_at(
            bytes,
            name,
            j,
        ),
        at + 2 + name.len() <= gt < bytes.len(),
        bytes[gt] == 0x3e,
        forall|j: int| at + 2 + name.len() <= j < gt ==> #[trigger] bytes[j] != 0x3e,
    ensures
        close_extent(bytes, close_prefix(name), regions, from) == Some((at, gt + 1)),
{
    let hit = close_starts(bytes, close_prefix(name), regions);
    assert(close_prefix(name) =~= seq![0x3cu8, 0x2fu8] + name);
    lemma_occurs(bytes, close_prefix(name), at);
    assert(hit(at));
    assert forall|j: int| from <= j < at implies !#[trigger] hit(j) by {
        lemma_occurs(bytes, close_prefix(name), j);
        assert(in_spans(regions, j) || !closes_at(bytes, name, j));
    }
    lemma_first_where_is(from, bytes.len() as int, hit, Some(at));
    lemma_byte_from(bytes, GT, at + close_prefix(name).len());
}

/// A close tag of the name stands at `at`, with `>` or white space behind the name.
pub open spec fn closes_at(bytes: Seq<u8>, name: Seq<u8>, at: int) -> bool {
    let end = at + 2 + name.len();
    &&& stands_at(bytes, seq![0x3cu8, 0x2fu8] + name, at)
    &&& end < bytes.len()
    &&& bytes[end] == 0x3e || white(bytes[end])
}

/// `part` does not stand at or after `from`.
pub open spec fn stands_nowhere(bytes: Seq<u8>, part: Seq<u8>, from: int) -> bool {
    forall|j: int| from <= j ==> !#[trigger] stands_at(bytes, part, j)
}

/// A comment or section that is not closed reaches to the end of the input.
pub proof fn unclosed_comments_reach_to_the_end(bytes: Seq<u8>, at: int)
    ensures
        stands_at(bytes, seq![0x3cu8, 0x21u8, 0x2du8, 0x2du8], at) && stands_nowhere(
            bytes,
            seq![0x2du8, 0x2du8, 0x3eu8],
            at + 4,
        ) ==> construct_end(bytes, at) == Some(bytes.len() as int),
        stands_at(
            bytes,
            seq![0x3cu8, 0x21u8, 0x5bu8, 0x43u8, 0x44u8, 0x41u8, 0x54u8, 0x41u8, 0x5bu8],
            at,
        ) && stands_nowhere(bytes, seq![0x5du8, 0x5du8, 0x3eu8], at + 9) ==> construct_end(
            bytes,
            at,
        ) == Some(bytes.len() as int),
{
    let comment = seq![0x3cu8, 0x21u8, 0x2du8, 0x2du8];
    let section = seq![0x3cu8, 0x21u8, 0x5bu8, 0x43u8, 0x44u8, 0x41u8, 0x54u8, 0x41u8, 0x5bu8];
    assert(COMMENT_OPEN@ =~= comment);
    assert(CDATA_OPEN@ =~= section);
    assert(COMMENT_CLOSE@ =~= seq![0x2du8, 0x2du8, 0x3eu8]);
    assert(CDATA_CLOSE@ =~= seq![0x5du8, 0x5du8, 0x3eu8]);
    lemma_occurs(bytes, COMMENT_OPEN@, at);
    lemma_occurs(bytes, CDATA_OPEN@, at);
    lemma_bytes_from(bytes, COMMENT_CLOSE@, at + 4);
    lemma_bytes_from(bytes, CDATA_CLOSE@, at + 9);
    if let Some(j) = bytes_from(bytes, COMMENT_CLOSE@, at + 4) {
        lemma_occurs(bytes, COMMENT_CLOSE@, j);
    }
    if let Some(j) = bytes_from(bytes, CDATA_CLOSE@, at + 9) {
        lemma_occurs(bytes, CDATA_CLOSE@, j);
    }
    if stands_at(bytes, comment, at) && stands_at(bytes, section, at) {
        assert(bytes[at + 2] == comment[2]);
        assert(bytes[at + 2] == section[2]);
    }
}

} // verus!

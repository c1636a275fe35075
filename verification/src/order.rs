//! The order of the columns: it is the same whether new columns come one by one or as those of
//! another table.

use vstd::prelude::*;

use crate::columnar::{insert_place, lemma_place_holds, place_before, place_of, EngineView};

verus! {

/// The order with a column of this name: a new one goes to its place.
pub open spec fn placed(
    order: Seq<Seq<char>>,
    schema: Seq<Seq<char>>,
    name: Seq<char>,
) -> Seq<Seq<char>> {
    if order.contains(name) {
        order
    } else {
        order.insert(insert_place(order, schema, name), name)
    }
}

/// The order with a column of each of these names, which come one after the other.
pub open spec fn placed_all(
    order: Seq<Seq<char>>,
    schema: Seq<Seq<char>>,
    names: Seq<Seq<char>>,
) -> Seq<Seq<char>>
    decreases names.len(),
{
    if names.len() == 0 {
        order
    } else {
        placed(placed_all(order, schema, names.drop_last()), schema, names.last())
    }
}

/// The name comes after place `p` in the schema.
pub open spec fn later(schema: Seq<Seq<char>>, name: Seq<char>, p: int) -> bool {
    schema.contains(name) && place_of(schema, name) > p
}

/// The order has a name that comes after place `p` in the schema.
spec fn has_later(order: Seq<Seq<char>>, schema: Seq<Seq<char>>, p: int) -> bool {
    exists|k: int| 0 <= k < order.len() && later(schema, #[trigger] order[k], p)
}

/// The place before which a name goes holds the first later one.
pub proof fn lemma_first_later(order: Seq<Seq<char>>, schema: Seq<Seq<char>>, p: int)
    ensures
        0 <= place_before(order, schema, p) <= order.len(),
        forall|k: int|
            0 <= k < place_before(order, schema, p) ==> !later(schema, #[trigger] order[k], p),
        place_before(order, schema, p) < order.len() ==> later(
            schema,
            order[place_before(order, schema, p)],
            p,
        ),
    decreases order.len(),
{
    if order.len() > 0 {
        let tail = order.drop_first();
        lemma_first_later(tail, schema, p);
        if !later(schema, order[0], p) {
            let at = place_before(order, schema, p);
            assert forall|k: int| 0 <= k < at implies !later(schema, #[trigger] order[k], p) by {
                if k > 0 {
                    assert(order[k] == tail[k - 1]);
                }
            }
            if at < order.len() {
                assert(order[at] == tail[at - 1]);
            }
        }
    }
}

/// Only one place holds the first later name.
proof fn lemma_is_first_later(order: Seq<Seq<char>>, schema: Seq<Seq<char>>, p: int, at: int)
    requires
        0 <= at <= order.len(),
        forall|k: int| 0 <= k < at ==> !later(schema, #[trigger] order[k], p),
        at < order.len() ==> later(schema, order[at], p),
    ensures
        place_before(order, schema, p) == at,
{
    lemma_first_later(order, schema, p);
    let first = place_before(order, schema, p);
    if first < at {
        assert(later(schema, order[first], p));
    }
    if at < first {
        assert(!later(schema, order[at], p));
    }
}

/// A name in its place leaves the others.
proof fn lemma_placed_has(order: Seq<Seq<char>>, schema: Seq<Seq<char>>, name: Seq<char>)
    ensures
        forall|other: Seq<char>| #[trigger]
            placed(order, schema, name).contains(other) <==> order.contains(other) || other == name,
        forall|p: int| has_later(order, schema, p) ==> #[trigger] has_later(
            placed(order, schema, name),
            schema,
            p,
        ),
{
    if !order.contains(name) {
        lemma_first_later(order, schema, place_of(schema, name));
        let at = insert_place(order, schema, name);
        let after = placed(order, schema, name);
        assert(after[at] == name);
        assert forall|k: int| 0 <= k < order.len() implies #[trigger] order[k] == after[if k < at {
            k
        } else {
            k + 1
        }] by {}
        assert forall|other: Seq<char>| #[trigger] after.contains(other) implies order.contains(
            other,
        ) || other == name by {
            let k = after.index_of(other);
            if k < at {
                assert(order[k] == other);
            } else if k > at {
                assert(order[k - 1] == other);
            }
        }
        assert forall|other: Seq<char>| order.contains(other) implies #[trigger] after.contains(
            other,
        ) by {
            let k = order.index_of(other);
            assert(order[k] == other);
        }
        assert forall|p: int| has_later(order, schema, p) implies #[trigger] has_later(
            after,
            schema,
            p,
        ) by {
            let k = choose|k: int| 0 <= k < order.len() && later(schema, #[trigger] order[k], p);
            assert(order[k] == after[if k < at {
                k
            } else {
                k + 1
            }]);
        }
    }
}

/// Names in their places leave the others.
proof fn lemma_placed_all_has(order: Seq<Seq<char>>, schema: Seq<Seq<char>>, names: Seq<Seq<char>>)
    ensures
        forall|other: Seq<char>| #[trigger]
            placed_all(order, schema, names).contains(other) <==> order.contains(other)
                || names.contains(other),
        forall|p: int| has_later(order, schema, p) ==> #[trigger] has_later(
            placed_all(order, schema, names),
            schema,
            p,
        ),
    decreases names.len(),
{
    if names.len() > 0 {
        let front = names.drop_last();
        lemma_placed_all_has(order, schema, front);
        lemma_placed_has(placed_all(order, schema, front), schema, names.last());
        assert forall|other: Seq<char>| #[trigger] names.contains(other) <==> front.contains(other)
            || other == names.last() by {
            if names.contains(other) {
                let k = names.index_of(other);
                if k < front.len() {
                    assert(front[k] == other);
                }
            }
            if front.contains(other) {
                let k = front.index_of(other);
                assert(names[k] == other);
            }
            assert(names[names.len() - 1] == names.last());
        }
    }
}

/// Two names of the schema, the first before the second, may come in either order.
proof fn lemma_two_new(order: Seq<Seq<char>>, schema: Seq<Seq<char>>, a: Seq<char>, b: Seq<char>)
    requires
        schema.contains(a),
        schema.contains(b),
        place_of(schema, a) < place_of(schema, b),
        !order.contains(a),
        !order.contains(b),
    ensures
        placed(placed(order, schema, a), schema, b) == placed(placed(order, schema, b), schema, a),
{
    let pa = place_of(schema, a);
    let pb = place_of(schema, b);
    let at = place_before(order, schema, pa);
    let bt = place_before(order, schema, pb);
    lemma_first_later(order, schema, pa);
    lemma_first_later(order, schema, pb);
    if bt < at {
        assert(later(schema, order[bt], pa));
    }
    lemma_placed_has(order, schema, a);
    lemma_placed_has(order, schema, b);
    let x = placed(order, schema, a);
    let y = placed(order, schema, b);
    assert(x == order.insert(at, a));
    assert(y == order.insert(bt, b));
    assert(place_before(x, schema, pb) == bt + 1) by {
        assert forall|k: int| 0 <= k < bt + 1 implies !later(schema, #[trigger] x[k], pb) by {
            if k < at {
                assert(x[k] == order[k]);
            } else if k > at {
                assert(x[k] == order[k - 1]);
            }
        }
        if bt + 1 < x.len() {
            assert(x[bt + 1] == order[bt]);
        }
        lemma_is_first_later(x, schema, pb, bt + 1);
    }
    assert(place_before(y, schema, pa) == at) by {
        assert forall|k: int| 0 <= k < at implies !later(schema, #[trigger] y[k], pa) by {
            assert(y[k] == order[k]);
        }
        if at < bt {
            assert(y[at] == order[at]);
        }
        lemma_is_first_later(y, schema, pa, at);
    }
    assert(x.insert(bt + 1, b) =~= y.insert(at, a));
}

/// A name of the schema and another one may come in either order, where the other one is in the
/// schema too or a later name is there already.
proof fn lemma_two_placed(order: Seq<Seq<char>>, schema: Seq<Seq<char>>, a: Seq<char>, b: Seq<char>)
    requires
        schema.contains(a),
        schema.contains(b) || has_later(order, schema, place_of(schema, a)),
        a != b,
    ensures
        placed(placed(order, schema, a), schema, b) == placed(placed(order, schema, b), schema, a),
{
    lemma_placed_has(order, schema, a);
    lemma_placed_has(order, schema, b);
    if !order.contains(a) && !order.contains(b) {
        if schema.contains(b) {
            lemma_place_holds(schema, a);
            lemma_place_holds(schema, b);
            if place_of(schema, a) < place_of(schema, b) {
                lemma_two_new(order, schema, a, b);
            } else {
                lemma_two_new(order, schema, b, a);
            }
        } else {
            let pa = place_of(schema, a);
            let at = place_before(order, schema, pa);
            lemma_first_later(order, schema, pa);
            let k = choose|k: int| 0 <= k < order.len() && later(schema, #[trigger] order[k], pa);
            let y = placed(order, schema, b);
            assert(y == order.insert(order.len() as int, b));
            assert(at < order.len());
            assert forall|k: int| 0 <= k < at implies !later(schema, #[trigger] y[k], pa) by {
                assert(y[k] == order[k]);
            }
            assert(y[at] == order[at]);
            lemma_is_first_later(y, schema, pa, at);
            let x = placed(order, schema, a);
            assert(x.insert(x.len() as int, b) =~= y.insert(at, a));
        }
    }
}

/// A name of the schema may come before or after other names, where a later one is there already.
proof fn lemma_placed_before(
    order: Seq<Seq<char>>,
    schema: Seq<Seq<char>>,
    name: Seq<char>,
    names: Seq<Seq<char>>,
)
    requires
        schema.contains(name),
        has_later(order, schema, place_of(schema, name)),
        !names.contains(name),
    ensures
        placed_all(placed(order, schema, name), schema, names) == placed(
            placed_all(order, schema, names),
            schema,
            name,
        ),
    decreases names.len(),
{
    if names.len() > 0 {
        let front = names.drop_last();
        assert forall|k: int| 0 <= k < front.len() implies front[k] != name by {
            assert(front[k] == names[k]);
        }
        assert(names.last() == names[names.len() - 1]);
        lemma_placed_before(order, schema, name, front);
        lemma_placed_all_has(order, schema, front);
        lemma_two_placed(placed_all(order, schema, front), schema, name, names.last());
    }
}

/// The names of two lists come one after the other.
proof fn lemma_placed_in_turn(
    order: Seq<Seq<char>>,
    schema: Seq<Seq<char>>,
    names: Seq<Seq<char>>,
    more: Seq<Seq<char>>,
)
    ensures
        placed_all(order, schema, names + more) == placed_all(
            placed_all(order, schema, names),
            schema,
            more,
        ),
    decreases more.len(),
{
    if more.len() == 0 {
        assert(names + more =~= names);
    } else {
        assert((names + more).drop_last() =~= names + more.drop_last());
        lemma_placed_in_turn(order, schema, names, more.drop_last());
    }
}

/// A new column goes to the same place in a table whether it comes to the table itself or to
/// another one whose columns the table takes over.
pub proof fn placed_in_either(
    order: Seq<Seq<char>>,
    schema: Seq<Seq<char>>,
    names: Seq<Seq<char>>,
    name: Seq<char>,
)
    ensures
        placed_all(order, schema, placed(names, schema, name)) == placed(
            placed_all(order, schema, names),
            schema,
            name,
        ),
{
    lemma_placed_all_has(order, schema, names);
    if !names.contains(name) {
        let p = place_of(schema, name);
        lemma_first_later(names, schema, p);
        let at = insert_place(names, schema, name);
        let all = placed(names, schema, name);
        let head = names.take(at);
        let tail = names.skip(at);
        let first = placed_all(order, schema, head);
        assert(all =~= head.push(name) + tail);
        assert(head.push(name).drop_last() =~= head);
        lemma_placed_in_turn(order, schema, head.push(name), tail);
        assert(names =~= head + tail);
        lemma_placed_in_turn(order, schema, head, tail);
        if at < names.len() {
            let next = tail[0];
            let rest = tail.drop_first();
            assert(next == names[at]);
            assert(tail =~= seq![next] + rest);
            assert forall|k: int| 0 <= k < rest.len() implies rest[k] != name by {
                assert(rest[k] == names[at + 1 + k]);
            }
            let both = placed(first, schema, name);
            lemma_placed_in_turn(both, schema, seq![next], rest);
            lemma_placed_in_turn(first, schema, seq![next], rest);
            assert(seq![next].drop_last() =~= Seq::empty());
            assert(placed_all(both, schema, seq![next]) == placed(both, schema, next)) by {
                reveal_with_fuel(placed_all, 2);
            }
            assert(placed_all(first, schema, seq![next]) == placed(first, schema, next)) by {
                reveal_with_fuel(placed_all, 2);
            }
            lemma_two_placed(first, schema, name, next);
            let then = placed(first, schema, next);
            lemma_placed_has(first, schema, next);
            assert(then.contains(next));
            let k = then.index_of(next);
            assert(later(schema, then[k], p));
            lemma_placed_before(then, schema, name, rest);
        }
    }
}

/// A table that takes over columns puts each in its place.
pub proof fn lemma_columns_placed(m: EngineView, other: EngineView, n: nat)
    requires
        n <= other.order.len(),
    ensures
        m.with_columns_of(other, n).plan == m.plan,
        m.with_columns_of(other, n).order == placed_all(
            m.order,
            m.plan.schema_order,
            other.order.take(n as int),
        ),
    decreases n,
{
    if n > 0 {
        lemma_columns_placed(m, other, (n - 1) as nat);
        assert(other.order.take(n as int).drop_last() =~= other.order.take(n - 1));
    }
}

} // verus!

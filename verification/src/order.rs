use crate::names::{
    added_names, common_names, name_list, name_position, removed_names, selected_names,
};
use crate::text::text_before;
use vstd::prelude::*;

verus! {

/// No text comes before itself.
pub proof fn lemma_before_irreflexive(a: Seq<char>)
    ensures
        !text_before(a, a),
    decreases a.len(),
{
    if a.len() > 0 {
        lemma_before_irreflexive(a.drop_first());
    }
}

/// Of two different texts one comes before the other.
pub proof fn lemma_before_total(a: Seq<char>, b: Seq<char>)
    ensures
        a == b || text_before(a, b) || text_before(b, a),
    decreases a.len(),
{
    if a.len() == 0 || b.len() == 0 {
        if a.len() == 0 && b.len() == 0 {
            assert(a =~= b);
        }
    } else if a[0] == b[0] {
        lemma_before_total(a.drop_first(), b.drop_first());
        if a.drop_first() == b.drop_first() {
            assert(a =~= seq![a[0]] + a.drop_first());
            assert(b =~= seq![b[0]] + b.drop_first());
        }
    }
}

/// A text that comes before a text that comes before a third comes before
/// the third.
pub proof fn lemma_before_transitive(a: Seq<char>, b: Seq<char>, c: Seq<char>)
    requires
        text_before(a, b),
        text_before(b, c),
    ensures
        text_before(a, c),
    decreases a.len(),
{
    if a.len() > 0 && a[0] == b[0] && b[0] == c[0] {
        lemma_before_transitive(a.drop_first(), b.drop_first(), c.drop_first());
    }
}

/// Of two texts at most one comes before the other.
pub proof fn lemma_before_asymmetric(a: Seq<char>, b: Seq<char>)
    ensures
        !(text_before(a, b) && text_before(b, a)),
{
    if text_before(a, b) && text_before(b, a) {
        lemma_before_transitive(a, b, a);
        lemma_before_irreflexive(a);
    }
}

/// Whether each name comes before all names behind it.
pub open spec fn in_order(names: Seq<Seq<char>>) -> bool {
    forall|i: int, j: int|
        0 <= i < j < names.len() ==> text_before(#[trigger] names[i], #[trigger] names[j])
}

/// Where a name goes into names that are in order, the names before it
/// come before it and it comes before the names behind it, if it is not
/// among them.
pub proof fn lemma_position_splits(sorted: Seq<Seq<char>>, name: Seq<char>)
    requires
        in_order(sorted),
        !sorted.contains(name),
    ensures
        ({
            let pos = name_position(sorted, name);
            &&& 0 <= pos <= sorted.len()
            &&& forall|k: int| 0 <= k < pos ==> text_before(#[trigger] sorted[k], name)
            &&& forall|k: int| pos <= k < sorted.len() ==> text_before(name, #[trigger] sorted[k])
        }),
    decreases sorted.len(),
{
    if sorted.len() > 0 {
        let last = sorted.last();
        let rest = sorted.drop_last();
        assert(sorted[sorted.len() - 1] == last);
        if text_before(name, last) {
            assert forall|i: int, j: int| 0 <= i < j < rest.len() implies text_before(
                #[trigger] rest[i],
                #[trigger] rest[j],
            ) by {
                assert(rest[i] == sorted[i]);
                assert(rest[j] == sorted[j]);
            }
            if rest.contains(name) {
                let k = choose|k: int| 0 <= k < rest.len() && rest[k] == name;
                assert(sorted[k] == name);
            }
            lemma_position_splits(rest, name);
            let pos = name_position(rest, name);
            assert forall|k: int| 0 <= k < pos implies text_before(#[trigger] sorted[k], name) by {
                assert(sorted[k] == rest[k]);
            }
            assert forall|k: int| pos <= k < sorted.len() implies text_before(
                name,
                #[trigger] sorted[k],
            ) by {
                if k < rest.len() {
                    assert(sorted[k] == rest[k]);
                }
            }
        } else {
            lemma_before_total(name, last);
            assert forall|k: int| 0 <= k < sorted.len() implies text_before(
                #[trigger] sorted[k],
                name,
            ) by {
                if k < sorted.len() - 1 {
                    lemma_before_transitive(sorted[k], last, name);
                }
            }
        }
    }
}

/// The list of names is in order.
pub proof fn lemma_name_list_in_order(names: Seq<Seq<char>>, upto: int)
    requires
        0 <= upto <= names.len(),
    ensures
        in_order(name_list(names, upto)),
    decreases upto,
{
    if upto > 0 {
        let head = name_list(names, upto - 1);
        let name = names[upto - 1];
        lemma_name_list_in_order(names, upto - 1);
        if !head.contains(name) {
            lemma_position_splits(head, name);
            let pos = name_position(head, name);
            let list = head.insert(pos, name);
            assert forall|i: int, j: int| 0 <= i < j < list.len() implies text_before(
                #[trigger] list[i],
                #[trigger] list[j],
            ) by {
                if j < pos {
                    assert(list[i] == head[i] && list[j] == head[j]);
                } else if j == pos {
                    assert(list[i] == head[i]);
                } else if i < pos {
                    assert(list[i] == head[i] && list[j] == head[j - 1]);
                } else if i == pos {
                    assert(list[j] == head[j - 1]);
                } else {
                    assert(list[i] == head[i - 1] && list[j] == head[j - 1]);
                }
            }
        }
    }
}

/// Two lists in order that hold the same names are the same list.
pub proof fn lemma_order_is_unique(a: Seq<Seq<char>>, b: Seq<Seq<char>>)
    requires
        in_order(a),
        in_order(b),
        forall|name: Seq<char>| a.contains(name) <==> b.contains(name),
    ensures
        a == b,
    decreases a.len(),
{
    if a.len() == 0 {
        if b.len() > 0 {
            assert(b.contains(b[0]));
        }
        assert(a =~= b);
    } else {
        let top = a.last();
        assert(a[a.len() - 1] == top);
        assert(a.contains(top));
        let at = choose|k: int| 0 <= k < b.len() && b[k] == top;
        if at < b.len() - 1 {
            let above = b[b.len() - 1];
            assert(b.contains(above));
            let back = choose|k: int| 0 <= k < a.len() && a[k] == above;
            if back < a.len() - 1 {
                lemma_before_asymmetric(top, above);
            } else {
                lemma_before_irreflexive(top);
            }
        }
        let a_rest = a.drop_last();
        let b_rest = b.drop_last();
        assert forall|i: int, j: int| 0 <= i < j < a_rest.len() implies text_before(
            #[trigger] a_rest[i],
            #[trigger] a_rest[j],
        ) by {
            assert(a_rest[i] == a[i] && a_rest[j] == a[j]);
        }
        assert forall|i: int, j: int| 0 <= i < j < b_rest.len() implies text_before(
            #[trigger] b_rest[i],
            #[trigger] b_rest[j],
        ) by {
            assert(b_rest[i] == b[i] && b_rest[j] == b[j]);
        }
        assert forall|name: Seq<char>| a_rest.contains(name) <==> b_rest.contains(name) by {
            if a_rest.contains(name) {
                let k = choose|k: int| 0 <= k < a_rest.len() && a_rest[k] == name;
                assert(a[k] == name);
                assert(a.contains(name));
                let m = choose|m: int| 0 <= m < b.len() && b[m] == name;
                if m == b.len() - 1 {
                    lemma_before_irreflexive(top);
                }
                assert(b_rest[m] == name);
            }
            if b_rest.contains(name) {
                let k = choose|k: int| 0 <= k < b_rest.len() && b_rest[k] == name;
                assert(b[k] == name);
                assert(b.contains(name));
                let m = choose|m: int| 0 <= m < a.len() && a[m] == name;
                if m == a.len() - 1 {
                    lemma_before_irreflexive(top);
                }
                assert(a_rest[m] == name);
            }
        }
        lemma_order_is_unique(a_rest, b_rest);
        assert(a =~= a_rest.push(top));
        assert(b =~= b_rest.push(top));
    }
}

/// The list of names depends only on which names there are: two lists of
/// names that hold the same names have the same list in order.
pub proof fn lemma_name_list_is_canonical(a: Seq<Seq<char>>, b: Seq<Seq<char>>)
    requires
        forall|name: Seq<char>| a.contains(name) <==> b.contains(name),
    ensures
        name_list(a, a.len() as int) == name_list(b, b.len() as int),
{
    let x = name_list(a, a.len() as int);
    let y = name_list(b, b.len() as int);
    lemma_name_list_in_order(a, a.len() as int);
    lemma_name_list_in_order(b, b.len() as int);
    assert(a.take(a.len() as int) =~= a);
    assert(b.take(b.len() as int) =~= b);
    assert forall|name: Seq<char>| x.contains(name) <==> y.contains(name) by {
        crate::names::lemma_name_list_holds(a, a.len() as int, name);
        crate::names::lemma_name_list_holds(b, b.len() as int, name);
    }
    lemma_order_is_unique(x, y);
}

proof fn lemma_selected_in_order(
    keys: Seq<Seq<char>>,
    others: Seq<Seq<char>>,
    shared: bool,
    upto: int,
)
    requires
        in_order(keys),
        0 <= upto <= keys.len(),
    ensures
        in_order(selected_names(keys, others, shared, upto)),
        forall|k: int, m: int|
            0 <= k < selected_names(keys, others, shared, upto).len() && upto <= m < keys.len()
                ==> text_before(
                #[trigger] selected_names(keys, others, shared, upto)[k],
                #[trigger] keys[m],
            ),
    decreases upto,
{
    if upto > 0 {
        lemma_selected_in_order(keys, others, shared, upto - 1);
        let head = selected_names(keys, others, shared, upto - 1);
        let list = selected_names(keys, others, shared, upto);
        if others.contains(keys[upto - 1]) == shared {
            assert forall|i: int, j: int| 0 <= i < j < list.len() implies text_before(
                #[trigger] list[i],
                #[trigger] list[j],
            ) by {
                assert(list[i] == head[i]);
                if j < head.len() {
                    assert(list[j] == head[j]);
                } else {
                    assert(text_before(head[i], keys[upto - 1]));
                }
            }
            assert forall|k: int, m: int|
                0 <= k < list.len() && upto <= m < keys.len() implies text_before(
                #[trigger] list[k],
                #[trigger] keys[m],
            ) by {
                if k < head.len() {
                    assert(list[k] == head[k]);
                    assert(text_before(head[k], keys[m]));
                } else {
                    assert(text_before(keys[upto - 1], keys[m]));
                }
            }
        }
    }
}

/// The three lists of names are in the order of a dictionary, so that none
/// holds a name twice.
pub proof fn lemma_name_changes_in_order(old: Seq<Seq<char>>, new: Seq<Seq<char>>)
    ensures
        in_order(removed_names(old, new)),
        in_order(added_names(old, new)),
        in_order(common_names(old, new)),
{
    let old_keys = name_list(old, old.len() as int);
    let new_keys = name_list(new, new.len() as int);
    lemma_name_list_in_order(old, old.len() as int);
    lemma_name_list_in_order(new, new.len() as int);
    lemma_selected_in_order(old_keys, new, false, old_keys.len() as int);
    lemma_selected_in_order(new_keys, old, false, new_keys.len() as int);
    lemma_selected_in_order(old_keys, new, true, old_keys.len() as int);
}

} // verus!

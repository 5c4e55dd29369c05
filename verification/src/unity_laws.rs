use crate::diff::Context;
use crate::order::{lemma_before_irreflexive, lemma_before_total, lemma_before_transitive};
use crate::unity::{
    added_object_line, child_path, changed_lines, children_walk, compare_text, component_change, key_before, key_list,
    key_position,
    last_with_key, names_at, nth_named, occurrence_of, one_sided_lines, partner, removed_lines,
    resolved, roots, roots_walk, scene_report, visit_walk, ComponentView, KeyView, NodeView,
};
use vstd::prelude::*;

verus! {

/// The number of times a name stands among the first names does not go down
/// as more names are taken.
pub proof fn lemma_occurrence_grows(names: Seq<Seq<char>>, name: Seq<char>, a: int, b: int)
    requires
        0 <= a <= b <= names.len(),
    ensures
        occurrence_of(names, name, a) <= occurrence_of(names, name, b),
    decreases b - a,
{
    if a < b {
        lemma_occurrence_grows(names, name, a, b - 1);
    }
}

/// What `nth_named` finds from `from` on, for the count `n`: a position of
/// `name` with exactly `n` more of `name` between `from` and itself; or
/// nothing, where fewer than `n + 1` of `name` stand from `from` on.
pub proof fn lemma_nth_named(names: Seq<Seq<char>>, name: Seq<char>, n: nat, from: int)
    requires
        0 <= from <= names.len(),
    ensures
        ({
            let found = nth_named(names, name, n, from);
            &&& from <= found <= names.len()
            &&& found < names.len() ==> names[found] == name && occurrence_of(names, name, found)
                == occurrence_of(names, name, from) + n
            &&& found == names.len() ==> occurrence_of(names, name, names.len() as int)
                <= occurrence_of(names, name, from) + n
        }),
    decreases names.len() - from,
{
    if from < names.len() {
        if names[from] == name {
            if n > 0 {
                lemma_nth_named(names, name, (n - 1) as nat, from + 1);
            }
        } else {
            lemma_nth_named(names, name, n, from + 1);
        }
    }
}

/// The new sibling at `k` is matched with the old sibling of the same name
/// that has as many siblings of that name before it as the new one has; it
/// is matched with none exactly when the old siblings of that name are too
/// few. Nothing but the names of the siblings and their order counts.
pub proof fn lemma_partner_has_same_rank(
    old_names: Seq<Seq<char>>,
    new_names: Seq<Seq<char>>,
    k: int,
)
    requires
        0 <= k < new_names.len(),
    ensures
        ({
            let p = partner(old_names, new_names, k);
            let name = new_names[k];
            &&& 0 <= p <= old_names.len()
            &&& p < old_names.len() ==> old_names[p] == name && occurrence_of(old_names, name, p)
                == occurrence_of(new_names, name, k)
            &&& p == old_names.len() <==> occurrence_of(old_names, name, old_names.len() as int)
                <= occurrence_of(new_names, name, k)
        }),
{
    let name = new_names[k];
    let n = occurrence_of(new_names, name, k);
    lemma_nth_named(old_names, name, n, 0);
    let p = partner(old_names, new_names, k);
    if p < old_names.len() {
        lemma_occurrence_grows(old_names, name, p + 1, old_names.len() as int);
    }
}

/// Two different new siblings are never matched with the same old sibling.
pub proof fn lemma_partners_differ(
    old_names: Seq<Seq<char>>,
    new_names: Seq<Seq<char>>,
    j: int,
    k: int,
)
    requires
        0 <= j < k < new_names.len(),
        partner(old_names, new_names, j) < old_names.len(),
    ensures
        partner(old_names, new_names, j) != partner(old_names, new_names, k),
{
    lemma_partner_has_same_rank(old_names, new_names, j);
    lemma_partner_has_same_rank(old_names, new_names, k);
    if new_names[j] == new_names[k] {
        lemma_occurrence_grows(new_names, new_names[k], j + 1, k);
    }
}

/// Where the old and the new siblings have the same names in the same
/// order, each new sibling is matched with the old sibling at its own
/// position: of two old and two new siblings of one name, the first go
/// together and the second go together.
pub proof fn lemma_same_names_pair_in_order(names: Seq<Seq<char>>, k: int)
    requires
        0 <= k < names.len(),
    ensures
        partner(names, names, k) == k,
{
    lemma_pair_from(names, k, 0);
}

proof fn lemma_pair_from(names: Seq<Seq<char>>, k: int, from: int)
    requires
        0 <= from <= k < names.len(),
    ensures
        occurrence_of(names, names[k], from) <= occurrence_of(names, names[k], k),
        nth_named(
            names,
            names[k],
            (occurrence_of(names, names[k], k) - occurrence_of(names, names[k], from)) as nat,
            from,
        ) == k,
    decreases k - from,
{
    lemma_occurrence_grows(names, names[k], from, k);
    if from < k {
        lemma_occurrence_grows(names, names[k], from + 1, k);
        lemma_pair_from(names, k, from + 1);
    }
}

proof fn lemma_last_with_key_found(
    components: Seq<ComponentView>,
    key: KeyView,
    i: int,
    upto: int,
)
    requires
        0 <= i < upto <= components.len(),
        components[i].key == key,
    ensures
        i <= last_with_key(components, key, upto) < upto,
        components[last_with_key(components, key, upto)].key == key,
    decreases upto,
{
    if components[upto - 1].key != key {
        lemma_last_with_key_found(components, key, i, upto - 1);
    }
}

proof fn lemma_key_position_bounds(sorted: Seq<KeyView>, key: KeyView)
    ensures
        0 <= key_position(sorted, key) <= sorted.len(),
    decreases sorted.len(),
{
    if sorted.len() > 0 && key_before(key, sorted.last()) {
        lemma_key_position_bounds(sorted.drop_last(), key);
    }
}

/// Each key in the list of the keys of components is the key of one of
/// them.
proof fn lemma_listed_keys_are_found(components: Seq<ComponentView>, upto: int, k: int)
    requires
        0 <= upto <= components.len(),
        0 <= k < key_list(components, upto).len(),
    ensures
        last_with_key(components, key_list(components, upto)[k], components.len() as int) >= 0,
    decreases upto,
{
    if upto > 0 {
        let head = key_list(components, upto - 1);
        let key = components[upto - 1].key;
        if head.contains(key) {
            lemma_listed_keys_are_found(components, upto - 1, k);
        } else {
            lemma_key_position_bounds(head, key);
            let pos = key_position(head, key);
            if k < pos {
                lemma_listed_keys_are_found(components, upto - 1, k);
            } else if k == pos {
                lemma_last_with_key_found(components, key, upto - 1, components.len() as int);
            } else {
                lemma_listed_keys_are_found(components, upto - 1, k - 1);
            }
        }
    }
}

proof fn lemma_no_one_sided_lines(
    what: Seq<char>,
    components: Seq<ComponentView>,
    path: Seq<char>,
    upto: int,
)
    requires
        0 <= upto <= key_list(components, components.len() as int).len(),
    ensures
        one_sided_lines(
            what,
            key_list(components, components.len() as int),
            components,
            path,
            upto,
        ) == Seq::<char>::empty(),
    decreases upto,
{
    if upto > 0 {
        lemma_no_one_sided_lines(what, components, path, upto - 1);
        lemma_listed_keys_are_found(components, components.len() as int, upto - 1);
    }
}

proof fn lemma_no_changed_lines(
    cx: Context,
    keys: Seq<KeyView>,
    components: Seq<ComponentView>,
    path: Seq<char>,
    upto: int,
)
    requires
        0 <= upto <= keys.len(),
    ensures
        changed_lines(cx, keys, components, components, path, upto) == Seq::<char>::empty(),
    decreases upto,
{
    if upto > 0 {
        lemma_no_changed_lines(cx, keys, components, path, upto - 1);
        let i = last_with_key(components, keys[upto - 1], components.len() as int);
        if 0 <= i {
            assert(component_change(cx, components[i], components[i], path) == Seq::<
                char,
            >::empty());
        }
    }
}

/// Comparing the components of a node with themselves reports nothing.
pub proof fn lemma_compare_same(cx: Context, components: Seq<ComponentView>, path: Seq<char>)
    ensures
        compare_text(cx, components, components, path) == Seq::<char>::empty(),
{
    let keys = key_list(components, components.len() as int);
    lemma_no_one_sided_lines("Added"@, components, path, keys.len() as int);
    lemma_no_one_sided_lines("Removed"@, components, path, keys.len() as int);
    lemma_no_changed_lines(cx, keys, components, path, keys.len() as int);
    assert(compare_text(cx, components, components, path) =~= Seq::<char>::empty());
}

proof fn lemma_children_same(
    cx: Context,
    scene: Seq<NodeView>,
    kids: Seq<int>,
    path: Seq<char>,
    upto: int,
    fuel: nat,
)
    requires
        0 <= upto <= kids.len(),
    ensures
        children_walk(cx, scene, scene, kids, kids, path, upto, fuel).text == Seq::<
            char,
        >::empty(),
    decreases fuel, 0int, upto,
{
    if fuel > 0 && upto > 0 {
        lemma_children_same(cx, scene, kids, path, upto - 1, fuel);
        let k = upto - 1;
        let names = names_at(scene, kids);
        lemma_same_names_pair_in_order(names, k);
        let below = child_path(path, scene[kids[k]].name);
        lemma_visit_same(cx, scene, kids[k], below, (fuel - 1) as nat);
        assert(children_walk(cx, scene, scene, kids, kids, path, upto, fuel).text =~= Seq::<
            char,
        >::empty());
    }
}

/// Walking a node against itself reports nothing, however deep the walk
/// goes.
pub proof fn lemma_visit_same(
    cx: Context,
    scene: Seq<NodeView>,
    pos: int,
    path: Seq<char>,
    fuel: nat,
)
    ensures
        visit_walk(cx, scene, scene, pos, pos, path, fuel).text == Seq::<char>::empty(),
    decreases fuel, 1int, 0int,
{
    lemma_compare_same(cx, scene[pos].components, path);
    let kids = resolved(scene, scene[pos].children);
    lemma_children_same(cx, scene, kids, path, kids.len() as int, fuel);
    assert(visit_walk(cx, scene, scene, pos, pos, path, fuel).text =~= Seq::<char>::empty());
}

proof fn lemma_roots_same(cx: Context, scene: Seq<NodeView>, tops: Seq<int>, upto: int, fuel: nat)
    requires
        0 <= upto <= tops.len(),
    ensures
        roots_walk(cx, scene, scene, tops, tops, upto, fuel).text == Seq::<char>::empty(),
    decreases upto,
{
    if upto > 0 {
        lemma_roots_same(cx, scene, tops, upto - 1, fuel);
        let k = upto - 1;
        lemma_same_names_pair_in_order(names_at(scene, tops), k);
        lemma_visit_same(cx, scene, tops[k], scene[tops[k]].name, fuel);
        assert(roots_walk(cx, scene, scene, tops, tops, upto, fuel).text =~= Seq::<char>::empty());
    }
}

/// The walk of a tree against itself reports no node as added and no
/// component as added, removed or changed.
pub proof fn lemma_self_walk_is_silent(cx: Context, scene: Seq<NodeView>)
    ensures
        ({
            let tops = roots(scene, scene.len() as int);
            roots_walk(cx, scene, scene, tops, tops, tops.len() as int, scene.len()).text == Seq::<
                char,
            >::empty()
        }),
{
    let tops = roots(scene, scene.len() as int);
    lemma_roots_same(cx, scene, tops, tops.len() as int, scene.len());
}

/// Whether the node at `pos` hangs below the node at `top`, `depth` steps
/// down: a step leads from a node to one of the nodes that its children
/// name.
pub open spec fn hangs_below(scene: Seq<NodeView>, top: int, pos: int, depth: nat) -> bool
    decreases depth, 0int,
{
    if depth == 0 {
        pos == top
    } else {
        let kids = resolved(scene, scene[top].children);
        hangs_below_one(scene, kids, kids.len() as int, pos, (depth - 1) as nat)
    }
}

/// Whether the node at `pos` hangs below one of the first `upto` of the
/// nodes at `tops`, `depth` steps down.
pub open spec fn hangs_below_one(
    scene: Seq<NodeView>,
    tops: Seq<int>,
    upto: int,
    pos: int,
    depth: nat,
) -> bool
    decreases depth, upto + 1,
{
    if upto <= 0 || upto > tops.len() {
        false
    } else {
        hangs_below(scene, tops[upto - 1], pos, depth) || hangs_below_one(
            scene,
            tops,
            upto - 1,
            pos,
            depth,
        )
    }
}

/// The node among the first `upto` of the nodes at `tops` that the node at
/// `pos` hangs below.
proof fn lemma_hangs_below_which(
    scene: Seq<NodeView>,
    tops: Seq<int>,
    upto: int,
    pos: int,
    depth: nat,
) -> (j: int)
    requires
        hangs_below_one(scene, tops, upto, pos, depth),
    ensures
        0 <= j < upto <= tops.len(),
        hangs_below(scene, tops[j], pos, depth),
    decreases upto,
{
    if hangs_below(scene, tops[upto - 1], pos, depth) {
        upto - 1
    } else {
        lemma_hangs_below_which(scene, tops, upto - 1, pos, depth)
    }
}

/// Whether the node at `pos` hangs below a node without a parent, fewer
/// steps down than there are nodes.
pub open spec fn hangs_in_forest(scene: Seq<NodeView>, pos: int) -> bool {
    let tops = roots(scene, scene.len() as int);
    exists|depth: nat|
        depth < scene.len() && #[trigger] hangs_below_one(
            scene,
            tops,
            tops.len() as int,
            pos,
            depth,
        )
}

/// Whether the nodes form a forest: each hangs below a node without a
/// parent.
pub open spec fn is_forest(scene: Seq<NodeView>) -> bool {
    forall|pos: int| 0 <= pos < scene.len() ==> #[trigger] hangs_in_forest(scene, pos)
}

proof fn lemma_children_seen(
    cx: Context,
    scene: Seq<NodeView>,
    kids: Seq<int>,
    path: Seq<char>,
    j: int,
    upto: int,
    fuel: nat,
    pos: int,
)
    requires
        0 <= j < upto <= kids.len(),
        fuel > 0,
        visit_walk(
            cx,
            scene,
            scene,
            kids[j],
            kids[j],
            child_path(path, scene[kids[j]].name),
            (fuel - 1) as nat,
        ).seen.contains(pos),
    ensures
        children_walk(cx, scene, scene, kids, kids, path, upto, fuel).seen.contains(pos),
    decreases upto,
{
    let k = upto - 1;
    lemma_same_names_pair_in_order(names_at(scene, kids), k);
    if j < k {
        lemma_children_seen(cx, scene, kids, path, j, upto - 1, fuel, pos);
    }
}

/// A walk of a node against itself sees each node that hangs below it, as
/// far down as the walk goes.
proof fn lemma_visit_sees(
    cx: Context,
    scene: Seq<NodeView>,
    top: int,
    path: Seq<char>,
    fuel: nat,
    pos: int,
    depth: nat,
)
    requires
        hangs_below(scene, top, pos, depth),
        depth <= fuel,
    ensures
        visit_walk(cx, scene, scene, top, top, path, fuel).seen.contains(pos),
    decreases depth,
{
    if depth > 0 {
        let kids = resolved(scene, scene[top].children);
        let j = lemma_hangs_below_which(
            scene,
            kids,
            kids.len() as int,
            pos,
            (depth - 1) as nat,
        );
        let below = child_path(path, scene[kids[j]].name);
        lemma_visit_sees(cx, scene, kids[j], below, (fuel - 1) as nat, pos, (depth - 1) as nat);
        lemma_children_seen(cx, scene, kids, path, j, kids.len() as int, fuel, pos);
    }
}

proof fn lemma_roots_seen(
    cx: Context,
    scene: Seq<NodeView>,
    tops: Seq<int>,
    k: int,
    upto: int,
    fuel: nat,
    pos: int,
)
    requires
        0 <= k < upto <= tops.len(),
        visit_walk(cx, scene, scene, tops[k], tops[k], scene[tops[k]].name, fuel).seen.contains(
            pos,
        ),
    ensures
        roots_walk(cx, scene, scene, tops, tops, upto, fuel).seen.contains(pos),
    decreases upto,
{
    let last = upto - 1;
    lemma_same_names_pair_in_order(names_at(scene, tops), last);
    if k < last {
        lemma_roots_seen(cx, scene, tops, k, upto - 1, fuel, pos);
    }
}

proof fn lemma_nothing_removed(scene: Seq<NodeView>, seen: Set<int>, upto: int)
    requires
        0 <= upto <= scene.len(),
        forall|pos: int| 0 <= pos < scene.len() ==> seen.contains(pos),
    ensures
        removed_lines(scene, seen, upto) == Seq::<char>::empty(),
    decreases upto,
{
    if upto > 0 {
        lemma_nothing_removed(scene, seen, upto - 1);
    }
}

/// Comparing a forest with itself reports nothing: no node and no
/// component is added, removed or changed.
pub proof fn lemma_self_diff_is_silent(cx: Context, scene: Seq<NodeView>)
    requires
        is_forest(scene),
    ensures
        scene_report(cx, scene, scene) == Seq::<char>::empty(),
{
    let tops = roots(scene, scene.len() as int);
    let walk = roots_walk(cx, scene, scene, tops, tops, tops.len() as int, scene.len());
    lemma_self_walk_is_silent(cx, scene);
    assert forall|pos: int| 0 <= pos < scene.len() implies walk.seen.contains(pos) by {
        assert(hangs_in_forest(scene, pos));
        let depth = choose|depth: nat|
            depth < scene.len() && #[trigger] hangs_below_one(
                scene,
                tops,
                tops.len() as int,
                pos,
                depth,
            );
        let k = lemma_hangs_below_which(scene, tops, tops.len() as int, pos, depth);
        lemma_visit_sees(cx, scene, tops[k], scene[tops[k]].name, scene.len(), pos, depth);
        lemma_roots_seen(cx, scene, tops, k, tops.len() as int, scene.len(), pos);
    }
    lemma_nothing_removed(scene, walk.seen, scene.len() as int);
    assert(scene_report(cx, scene, scene) =~= Seq::<char>::empty());
}

/// The keys of components are in a row: no key comes before itself, of two
/// different keys one comes before the other, and a key that comes before a
/// key that comes before a third comes before the third.
pub proof fn lemma_keys_are_in_a_row(a: KeyView, b: KeyView, c: KeyView)
    ensures
        !key_before(a, a),
        a == b || key_before(a, b) || key_before(b, a),
        key_before(a, b) && key_before(b, c) ==> key_before(a, c),
{
    match (a, b, c) {
        (KeyView::Script(x), KeyView::Script(y), KeyView::Script(z)) => {
            lemma_before_irreflexive(x);
            lemma_before_total(x, y);
            if key_before(a, b) && key_before(b, c) {
                lemma_before_transitive(x, y, z);
            }
        },
        (KeyView::Script(x), KeyView::Script(y), _) => {
            lemma_before_irreflexive(x);
            lemma_before_total(x, y);
        },
        (KeyView::Script(x), _, _) => {
            lemma_before_irreflexive(x);
        },
        _ => {},
    }
}

/// What the walk of the children of a matched pair does with the child at
/// position `k`, where the walk goes at least one level down. If the child
/// has a partner, the two are walked and the partner is seen; nothing says
/// that the child was added. If it has none, it is reported as added and
/// no old node is seen for it.
pub proof fn lemma_child_step(
    cx: Context,
    old: Seq<NodeView>,
    new: Seq<NodeView>,
    old_kids: Seq<int>,
    new_kids: Seq<int>,
    path: Seq<char>,
    k: int,
    fuel: nat,
)
    requires
        fuel > 0,
        0 <= k < new_kids.len(),
    ensures
        ({
            let head = children_walk(cx, old, new, old_kids, new_kids, path, k, fuel);
            let next = children_walk(cx, old, new, old_kids, new_kids, path, k + 1, fuel);
            let below = child_path(path, new[new_kids[k]].name);
            let p = partner(names_at(old, old_kids), names_at(new, new_kids), k);
            if p < old_kids.len() {
                let walk = visit_walk(
                    cx,
                    old,
                    new,
                    old_kids[p],
                    new_kids[k],
                    below,
                    (fuel - 1) as nat,
                );
                &&& next.text == head.text + walk.text
                &&& next.seen == head.seen.union(walk.seen)
                &&& next.seen.contains(old_kids[p])
            } else {
                &&& next.text == head.text + added_object_line(below)
                &&& next.seen == head.seen
            }
        }),
{
}

proof fn lemma_children_keep_seen(
    cx: Context,
    old: Seq<NodeView>,
    new: Seq<NodeView>,
    old_kids: Seq<int>,
    new_kids: Seq<int>,
    path: Seq<char>,
    from: int,
    upto: int,
    fuel: nat,
    pos: int,
)
    requires
        fuel > 0,
        0 <= from <= upto <= new_kids.len(),
        children_walk(cx, old, new, old_kids, new_kids, path, from, fuel).seen.contains(pos),
    ensures
        children_walk(cx, old, new, old_kids, new_kids, path, upto, fuel).seen.contains(pos),
    decreases upto - from,
{
    if from < upto {
        lemma_children_keep_seen(cx, old, new, old_kids, new_kids, path, from, upto - 1, fuel, pos);
        lemma_child_step(cx, old, new, old_kids, new_kids, path, upto - 1, fuel);
    }
}

/// The walk of a matched pair of nodes pairs each child of the new node
/// with the old child of the same name and the same rank among the children
/// of that name, and sees that old child: it is not reported as removed.
pub proof fn lemma_visit_sees_partners(
    cx: Context,
    old: Seq<NodeView>,
    new: Seq<NodeView>,
    old_pos: int,
    new_pos: int,
    path: Seq<char>,
    k: int,
)
    requires
        0 <= new_pos < new.len(),
        0 <= k < resolved(new, new[new_pos].children).len(),
        partner(
            names_at(old, resolved(old, old[old_pos].children)),
            names_at(new, resolved(new, new[new_pos].children)),
            k,
        ) < resolved(old, old[old_pos].children).len(),
    ensures
        ({
            let old_kids = resolved(old, old[old_pos].children);
            let new_kids = resolved(new, new[new_pos].children);
            let p = partner(names_at(old, old_kids), names_at(new, new_kids), k);
            visit_walk(cx, old, new, old_pos, new_pos, path, new.len()).seen.contains(old_kids[p])
        }),
{
    let old_kids = resolved(old, old[old_pos].children);
    let new_kids = resolved(new, new[new_pos].children);
    let p = partner(names_at(old, old_kids), names_at(new, new_kids), k);
    lemma_child_step(cx, old, new, old_kids, new_kids, path, k, new.len());
    lemma_children_keep_seen(
        cx,
        old,
        new,
        old_kids,
        new_kids,
        path,
        k + 1,
        new_kids.len() as int,
        new.len(),
        old_kids[p],
    );
}

/// Of two old and two new children of one name, under a matched pair of
/// nodes, the first go together and the second go together, whatever else
/// differs between them: the walk of the pair is the comparison of the pair
/// and then the walks of the two pairs of children, in this order; it sees
/// both old children and reports no child as added.
pub proof fn lemma_two_children_of_one_name(
    cx: Context,
    old: Seq<NodeView>,
    new: Seq<NodeView>,
    old_pos: int,
    new_pos: int,
    path: Seq<char>,
    name: Seq<char>,
)
    requires
        0 <= new_pos < new.len(),
        resolved(old, old[old_pos].children).len() == 2,
        resolved(new, new[new_pos].children).len() == 2,
        old[resolved(old, old[old_pos].children)[0]].name == name,
        old[resolved(old, old[old_pos].children)[1]].name == name,
        new[resolved(new, new[new_pos].children)[0]].name == name,
        new[resolved(new, new[new_pos].children)[1]].name == name,
    ensures
        ({
            let o = resolved(old, old[old_pos].children);
            let n = resolved(new, new[new_pos].children);
            let below = child_path(path, name);
            let depth = (new.len() - 1) as nat;
            let first = visit_walk(cx, old, new, o[0], n[0], below, depth);
            let second = visit_walk(cx, old, new, o[1], n[1], below, depth);
            let walk = visit_walk(cx, old, new, old_pos, new_pos, path, new.len());
            &&& walk.text == compare_text(
                cx,
                old[old_pos].components,
                new[new_pos].components,
                path,
            ) + first.text + second.text
            &&& walk.seen == first.seen.union(second.seen).insert(old_pos)
            &&& walk.seen.contains(o[0])
            &&& walk.seen.contains(o[1])
        }),
{
    let o = resolved(old, old[old_pos].children);
    let n = resolved(new, new[new_pos].children);
    let old_names = names_at(old, o);
    let new_names = names_at(new, n);
    assert(old_names =~= new_names);
    lemma_same_names_pair_in_order(new_names, 0);
    lemma_same_names_pair_in_order(new_names, 1);
    lemma_child_step(cx, old, new, o, n, path, 0, new.len());
    lemma_child_step(cx, old, new, o, n, path, 1, new.len());
    let below = child_path(path, name);
    let depth = (new.len() - 1) as nat;
    let first = visit_walk(cx, old, new, o[0], n[0], below, depth);
    let second = visit_walk(cx, old, new, o[1], n[1], below, depth);
    let none = children_walk(cx, old, new, o, n, path, 0, new.len());
    let both = children_walk(cx, old, new, o, n, path, 2, new.len());
    assert(none.text =~= Seq::<char>::empty());
    assert(none.seen =~= Set::<int>::empty());
    assert(both.text =~= first.text + second.text);
    assert(both.seen =~= first.seen.union(second.seen));
    let here = compare_text(cx, old[old_pos].components, new[new_pos].components, path);
    assert(here + both.text =~= here + first.text + second.text);
    assert(first.seen.contains(o[0]));
    assert(second.seen.contains(o[1]));
}

} // verus!

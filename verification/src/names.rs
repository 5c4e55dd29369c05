use crate::text::{is_text_before, str_equal, text_before};
use vstd::prelude::*;

verus! {

/// The texts that a list of strings stands for.
pub open spec fn names_view(names: Seq<String>) -> Seq<Seq<char>> {
    names.map_values(|n: String| n@)
}

/// Where `name` goes into names that are in order: behind the last name
/// that does not come after it.
pub open spec fn name_position(sorted: Seq<Seq<char>>, name: Seq<char>) -> int
    decreases sorted.len(),
{
    if sorted.len() == 0 {
        0
    } else if text_before(name, sorted.last()) {
        name_position(sorted.drop_last(), name)
    } else {
        sorted.len() as int
    }
}

/// The first `upto` names, each once, in the order of a dictionary.
pub open spec fn name_list(names: Seq<Seq<char>>, upto: int) -> Seq<Seq<char>>
    decreases upto,
{
    if upto <= 0 || upto > names.len() {
        Seq::empty()
    } else {
        let head = name_list(names, upto - 1);
        let name = names[upto - 1];
        if head.contains(name) {
            head
        } else {
            head.insert(name_position(head, name), name)
        }
    }
}

/// The first `upto` of the names `keys` that `others` holds (`shared`) or
/// does not hold (otherwise), in their order.
pub open spec fn selected_names(
    keys: Seq<Seq<char>>,
    others: Seq<Seq<char>>,
    shared: bool,
    upto: int,
) -> Seq<Seq<char>>
    decreases upto,
{
    if upto <= 0 || upto > keys.len() {
        Seq::empty()
    } else {
        let head = selected_names(keys, others, shared, upto - 1);
        if others.contains(keys[upto - 1]) == shared {
            head.push(keys[upto - 1])
        } else {
            head
        }
    }
}

/// The names of the old side that the new side lacks, in order.
pub open spec fn removed_names(old: Seq<Seq<char>>, new: Seq<Seq<char>>) -> Seq<Seq<char>> {
    let keys = name_list(old, old.len() as int);
    selected_names(keys, new, false, keys.len() as int)
}

/// The names of the new side that the old side lacks, in order.
pub open spec fn added_names(old: Seq<Seq<char>>, new: Seq<Seq<char>>) -> Seq<Seq<char>> {
    let keys = name_list(new, new.len() as int);
    selected_names(keys, old, false, keys.len() as int)
}

/// The names that both sides have, in order.
pub open spec fn common_names(old: Seq<Seq<char>>, new: Seq<Seq<char>>) -> Seq<Seq<char>> {
    let keys = name_list(old, old.len() as int);
    selected_names(keys, new, true, keys.len() as int)
}

/// How the names of two versions relate: the names only the old one has, the
/// names only the new one has, and the names both have, each list in the
/// order of a dictionary and without a name twice.
#[derive(Debug)]
pub struct NameChanges {
    pub removed: Vec<String>,
    pub added: Vec<String>,
    pub same: Vec<String>,
}

/// Whether `names` holds `name`.
pub fn has_name(names: &Vec<String>, name: &str) -> (found: bool)
    ensures
        found == names_view(names@).contains(name@),
{
    let ghost all = names_view(names@);
    let mut i: usize = 0;
    while i < names.len()
        invariant
            i <= names.len(),
            all == names_view(names@),
            forall|k: int| 0 <= k < i ==> all[k] != name@,
        decreases names.len() - i,
    {
        if str_equal(names[i].as_str(), name) {
            assert(all[i as int] == name@);
            return true;
        }
        i += 1;
    }
    false
}

/// The names, each once, in the order of a dictionary.
pub fn sorted_names(names: &Vec<String>) -> (sorted: Vec<String>)
    ensures
        names_view(sorted@) == name_list(names_view(names@), names.len() as int),
{
    let ghost all = names_view(names@);
    let mut sorted: Vec<String> = Vec::new();
    let mut i: usize = 0;
    proof {
        assert(names_view(sorted@) =~= Seq::<Seq<char>>::empty());
    }
    while i < names.len()
        invariant
            i <= names.len(),
            all == names_view(names@),
            names_view(sorted@) == name_list(all, i as int),
        decreases names.len() - i,
    {
        let name = &names[i];
        let ghost so_far = names_view(sorted@);
        proof {
            assert(all[i as int] == name@);
        }
        if !has_name(&sorted, name.as_str()) {
            let mut pos: usize = sorted.len();
            proof {
                assert(so_far.take(pos as int) =~= so_far);
            }
            while pos > 0 && is_text_before(name.as_str(), sorted[pos - 1].as_str())
                invariant
                    pos <= sorted.len(),
                    so_far == names_view(sorted@),
                    name_position(so_far, name@) == name_position(so_far.take(pos as int), name@),
                decreases pos,
            {
                proof {
                    assert(so_far.take(pos as int).drop_last() =~= so_far.take(pos as int - 1));
                    assert(so_far.take(pos as int).last() == so_far[pos as int - 1]);
                }
                pos -= 1;
            }
            let copy = name.clone();
            proof {
                assert(names_view(sorted@.insert(pos as int, copy)) =~= so_far.insert(
                    pos as int,
                    name@,
                ));
            }
            sorted.insert(pos, copy);
        }
        i += 1;
    }
    sorted
}

/// The names of `keys` that `others` holds (`shared`) or does not hold
/// (otherwise), in their order.
fn select_names(keys: &Vec<String>, others: &Vec<String>, shared: bool) -> (selected: Vec<String>)
    ensures
        names_view(selected@) == selected_names(
            names_view(keys@),
            names_view(others@),
            shared,
            keys.len() as int,
        ),
{
    let ghost all = names_view(keys@);
    let ghost rest = names_view(others@);
    let mut selected: Vec<String> = Vec::new();
    let mut i: usize = 0;
    proof {
        assert(names_view(selected@) =~= Seq::<Seq<char>>::empty());
    }
    while i < keys.len()
        invariant
            i <= keys.len(),
            all == names_view(keys@),
            rest == names_view(others@),
            names_view(selected@) == selected_names(all, rest, shared, i as int),
        decreases keys.len() - i,
    {
        proof {
            assert(all[i as int] == keys[i as int]@);
        }
        if has_name(others, keys[i].as_str()) == shared {
            let copy = keys[i].clone();
            proof {
                assert(names_view(selected@.push(copy)) =~= names_view(selected@).push(copy@));
            }
            selected.push(copy);
        }
        i += 1;
    }
    selected
}

/// Classifies the names of two versions.
pub fn name_changes(old: &Vec<String>, new: &Vec<String>) -> (changes: NameChanges)
    ensures
        names_view(changes.removed@) == removed_names(names_view(old@), names_view(new@)),
        names_view(changes.added@) == added_names(names_view(old@), names_view(new@)),
        names_view(changes.same@) == common_names(names_view(old@), names_view(new@)),
{
    let old_keys = sorted_names(old);
    let new_keys = sorted_names(new);
    NameChanges {
        removed: select_names(&old_keys, new, false),
        added: select_names(&new_keys, old, false),
        same: select_names(&old_keys, new, true),
    }
}

/// The list of the first `upto` names holds exactly these names.
pub proof fn lemma_name_list_holds(names: Seq<Seq<char>>, upto: int, name: Seq<char>)
    requires
        0 <= upto <= names.len(),
    ensures
        name_list(names, upto).contains(name) <==> names.take(upto).contains(name),
    decreases upto,
{
    if upto > 0 {
        let head = name_list(names, upto - 1);
        let last = names[upto - 1];
        lemma_name_list_holds(names, upto - 1, name);
        lemma_name_list_holds(names, upto - 1, last);
        lemma_name_position_bounds(head, last);
        let pos = name_position(head, last);
        let list = name_list(names, upto);
        let taken = names.take(upto);
        let fewer = names.take(upto - 1);
        if taken.contains(name) {
            let k = choose|k: int| 0 <= k < taken.len() && taken[k] == name;
            if k < upto - 1 {
                assert(fewer[k] == name);
            }
        }
        if fewer.contains(name) {
            let k = choose|k: int| 0 <= k < fewer.len() && fewer[k] == name;
            assert(taken[k] == name);
        }
        assert(names.take(upto)[upto - 1] == last);
        if !head.contains(last) {
            assert(list == head.insert(pos, last));
            assert(list[pos] == last);
            if head.contains(name) {
                let k = choose|k: int| 0 <= k < head.len() && head[k] == name;
                if k < pos {
                    assert(list[k] == name);
                } else {
                    assert(list[k + 1] == name);
                }
            }
            if list.contains(name) && name != last {
                let k = choose|k: int| 0 <= k < list.len() && list[k] == name;
                if k < pos {
                    assert(head[k] == name);
                } else {
                    assert(head[k - 1] == name);
                }
            }
        }
    } else {
        assert(names.take(0) =~= Seq::<Seq<char>>::empty());
    }
}

proof fn lemma_name_position_bounds(sorted: Seq<Seq<char>>, name: Seq<char>)
    ensures
        0 <= name_position(sorted, name) <= sorted.len(),
    decreases sorted.len(),
{
    if sorted.len() > 0 && text_before(name, sorted.last()) {
        lemma_name_position_bounds(sorted.drop_last(), name);
    }
}

/// A selection holds exactly the names of `keys` that `others` holds, or
/// does not hold.
pub proof fn lemma_selected_holds(
    keys: Seq<Seq<char>>,
    others: Seq<Seq<char>>,
    shared: bool,
    upto: int,
    name: Seq<char>,
)
    requires
        0 <= upto <= keys.len(),
    ensures
        selected_names(keys, others, shared, upto).contains(name) <==> keys.take(upto).contains(
            name,
        ) && others.contains(name) == shared,
    decreases upto,
{
    if upto > 0 {
        lemma_selected_holds(keys, others, shared, upto - 1, name);
        let head = selected_names(keys, others, shared, upto - 1);
        let list = selected_names(keys, others, shared, upto);
        assert(keys.take(upto)[upto - 1] == keys[upto - 1]);
        let taken = keys.take(upto);
        let fewer = keys.take(upto - 1);
        if taken.contains(name) {
            let k = choose|k: int| 0 <= k < taken.len() && taken[k] == name;
            if k < upto - 1 {
                assert(fewer[k] == name);
            }
        }
        if fewer.contains(name) {
            let k = choose|k: int| 0 <= k < fewer.len() && fewer[k] == name;
            assert(taken[k] == name);
        }
        if others.contains(keys[upto - 1]) == shared {
            assert(list == head.push(keys[upto - 1]));
            assert(list[head.len() as int] == keys[upto - 1]);
            if head.contains(name) {
                let k = choose|k: int| 0 <= k < head.len() && head[k] == name;
                assert(list[k] == name);
            }
            if list.contains(name) && name != keys[upto - 1] {
                let k = choose|k: int| 0 <= k < list.len() && list[k] == name;
                assert(head[k] == name);
            }
        }
    } else {
        assert(keys.take(0) =~= Seq::<Seq<char>>::empty());
    }
}

/// The three lists split each version's names in two: a name is removed
/// exactly when only the old side has it, added exactly when only the new
/// side has it, and common exactly when both have it. So the old names are
/// the removed and the common ones, the new names are the added and the
/// common ones, and no name is in two of the three lists.
pub proof fn lemma_name_changes_partition(old: Seq<Seq<char>>, new: Seq<Seq<char>>, name: Seq<char>)
    ensures
        removed_names(old, new).contains(name) <==> old.contains(name) && !new.contains(name),
        added_names(old, new).contains(name) <==> new.contains(name) && !old.contains(name),
        common_names(old, new).contains(name) <==> old.contains(name) && new.contains(name),
{
    let old_keys = name_list(old, old.len() as int);
    let new_keys = name_list(new, new.len() as int);
    lemma_name_list_holds(old, old.len() as int, name);
    lemma_name_list_holds(new, new.len() as int, name);
    assert(old.take(old.len() as int) =~= old);
    assert(new.take(new.len() as int) =~= new);
    lemma_selected_holds(old_keys, new, false, old_keys.len() as int, name);
    lemma_selected_holds(new_keys, old, false, new_keys.len() as int, name);
    lemma_selected_holds(old_keys, new, true, old_keys.len() as int, name);
    assert(old_keys.take(old_keys.len() as int) =~= old_keys);
    assert(new_keys.take(new_keys.len() as int) =~= new_keys);
}

} // verus!

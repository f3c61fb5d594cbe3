//! The store's laws: what holds across operations, proved once and for all
//! over the transitions the operations' contracts name.

use vstd::prelude::*;

use crate::codec::{
    lemma_action_round_trip, lemma_task_round_trip, parse_action, ser_action, ser_task,
};
use crate::decimal::{
    dec_rec, dec_val, lemma_dec_rec_digits, lemma_dec_val_of_dec_rec, spec_dec_id,
};
use crate::store::{
    clear_transition, create_transition, current_tree, find_decoded, history_rec,
    lemma_refs_set_same, max_entry_id, next_id_of, ref_path_of, sort_ids, store_wf, tip_of,
    update_transition, StoreV,
};
use crate::task::{
    lemma_props_find_bounds, lemma_props_set_keep, lemma_props_set_same, props_find, props_has,
    props_set, props_val, TaskAction, TaskV,
};

verus! {

/// The entry name that carries a task's latest action.
pub open spec fn action_name(id: Seq<char>) -> Seq<char> {
    "action-"@ + id
}

/// The action entry's name never collides with the task's own entry.
proof fn lemma_action_name_distinct(id: Seq<char>)
    ensures
        action_name(id) != id,
{
    reveal_strlit("action-");
    assert(action_name(id).len() == id.len() + 7);
}

/// Creating then looking the task up returns it unchanged, field for field.
pub proof fn lemma_create_then_find(s: StoreV, t: TaskV)
    requires
        store_wf(s),
        t.id is Some,
    ensures
        find_decoded(create_transition(s, t), t.id->Some_0) == Some(t),
{
    let id = t.id->Some_0;
    let aname = action_name(id);
    lemma_action_name_distinct(id);
    let ct = current_tree(s);
    let tree1 = props_set(props_set(ct, id, ser_task(t)), aname, ser_action(TaskAction::TaskCreate));
    let s1 = create_transition(s, t);
    lemma_refs_set_same(s.refs, ref_path_of(s), s.commits.len() as int);
    assert(ref_path_of(s1) == ref_path_of(s));
    assert(tip_of(s1) == Some(s.commits.len() as int));
    assert(s1.commits[s.commits.len() as int].tree == tree1);
    lemma_props_set_same(ct, id, ser_task(t));
    lemma_props_set_keep(props_set(ct, id, ser_task(t)), aname, ser_action(TaskAction::TaskCreate), id);
    lemma_props_find_bounds(tree1, id);
    assert(props_val(tree1, id) == ser_task(t));
    lemma_task_round_trip(t);
}

/// The greatest entry number is at least the number of any one entry.
proof fn lemma_max_entry_ge(t: Seq<(Seq<char>, Seq<char>)>, i: int, v: u64)
    requires
        0 <= i < t.len(),
        spec_dec_id(t[i].0) == Some(v),
    ensures
        max_entry_id(t) >= v,
    decreases t.len(),
{
    if i == t.len() - 1 {
        assert(t.last() == t[i]);
    } else {
        assert(t.drop_last()[i] == t[i]);
        lemma_max_entry_ge(t.drop_last(), i, v);
    }
}

/// Freshly assigned ids are strictly increasing decimal integers: the id a
/// create assigns is one past the greatest number in the tree, and the next
/// assignment after that create is strictly greater.  (Assigning past the
/// signed 64-bit bound would make the new name unreadable, so the bound is
/// assumed.)
pub proof fn lemma_create_ids_increase(s: StoreV, t: TaskV)
    requires
        store_wf(s),
        max_entry_id(current_tree(s)) < 0x7fff_ffff_ffff_ffff,
    ensures
        ({
            let id1 = next_id_of(s);
            let s1 = create_transition(s, TaskV { id: Some(id1), ..t });
            &&& dec_val(id1) == max_entry_id(current_tree(s)) + 1
            &&& dec_val(next_id_of(s1)) > dec_val(id1)
        }),
{
    let ct = current_tree(s);
    let m = max_entry_id(ct);
    let id1 = next_id_of(s);
    lemma_dec_val_of_dec_rec((m + 1) as nat);
    lemma_dec_rec_digits((m + 1) as nat);
    assert(spec_dec_id(id1) == Some((m + 1) as u64));
    let t2 = TaskV { id: Some(id1), ..t };
    let aname = action_name(id1);
    lemma_action_name_distinct(id1);
    let tree1 = props_set(
        props_set(ct, id1, ser_task(t2)),
        aname,
        ser_action(TaskAction::TaskCreate),
    );
    let s1 = create_transition(s, t2);
    lemma_refs_set_same(s.refs, ref_path_of(s), s.commits.len() as int);
    assert(ref_path_of(s1) == ref_path_of(s));
    assert(current_tree(s1) == tree1);
    lemma_props_set_same(ct, id1, ser_task(t2));
    lemma_props_set_keep(props_set(ct, id1, ser_task(t2)), aname, ser_action(TaskAction::TaskCreate), id1);
    lemma_props_find_bounds(tree1, id1);
    let e = props_find(tree1, id1);
    assert(tree1[e].0 == id1);
    lemma_max_entry_ge(tree1, e, (m + 1) as u64);
    lemma_dec_val_of_dec_rec((max_entry_id(tree1) + 1) as nat);
}

/// A create under a fresh id grows the tree by exactly two entries — the
/// task blob and its action sibling — which is what lets `clear_tasks`
/// count tasks as half the tree.
pub proof fn lemma_create_adds_two_entries(s: StoreV, t: TaskV)
    requires
        store_wf(s),
        t.id is Some,
        !props_has(current_tree(s), t.id->Some_0),
        !props_has(current_tree(s), action_name(t.id->Some_0)),
    ensures
        current_tree(create_transition(s, t)).len() == current_tree(s).len() + 2,
{
    let id = t.id->Some_0;
    let aname = action_name(id);
    lemma_action_name_distinct(id);
    let ct = current_tree(s);
    let tree1 = props_set(props_set(ct, id, ser_task(t)), aname, ser_action(TaskAction::TaskCreate));
    lemma_props_set_keep(ct, id, ser_task(t), aname);
    let s1 = create_transition(s, t);
    lemma_refs_set_same(s.refs, ref_path_of(s), s.commits.len() as int);
    assert(ref_path_of(s1) == ref_path_of(s));
    assert(current_tree(s1) == tree1);
}

/// After an update that supplies an action, the history's newest entry is
/// that action (whenever the walk decodes at all).
pub proof fn lemma_update_action_recorded(s: StoreV, t: TaskV, a: TaskAction)
    requires
        store_wf(s),
        t.id is Some,
        tip_of(s) is Some,
    ensures
        ({
            let s1 = update_transition(s, t, Some(a));
            let ci = tip_of(s1)->Some_0;
            history_rec(s1, ci, t.id->Some_0, 10) matches Some(l) ==> l.len() >= 1
                && l.reverse().last() == Some(a)
        }),
{
    let id = t.id->Some_0;
    let aname = action_name(id);
    lemma_action_name_distinct(id);
    let ct = current_tree(s);
    let tree1 = props_set(ct, id, ser_task(t));
    let tree2 = props_set(tree1, aname, ser_action(a));
    let s1 = update_transition(s, t, Some(a));
    lemma_refs_set_same(s.refs, ref_path_of(s), s.commits.len() as int);
    assert(ref_path_of(s1) == ref_path_of(s));
    assert(tip_of(s1) == Some(s.commits.len() as int));
    let ci = tip_of(s1)->Some_0;
    assert(s1.commits[ci].tree == tree2);
    lemma_props_set_same(tree1, aname, ser_action(a));
    lemma_props_find_bounds(tree2, aname);
    lemma_action_round_trip(a);
    assert(parse_action(tree2[props_find(tree2, aname)].1) == Some(a));
    match history_rec(s1, ci, id, 10) {
        Some(l) => {
            assert(l[0] == Some(a));
            assert(l.reverse().last() == l[0]);
        },
        None => {},
    }
}

/// After an update that supplies no action, the newest history entry is
/// unchanged: the prior commit's action entry for the task is carried over.
pub proof fn lemma_update_keeps_action(s: StoreV, t: TaskV)
    requires
        store_wf(s),
        t.id is Some,
        tip_of(s) is Some,
    ensures
        ({
            let id = t.id->Some_0;
            let s1 = update_transition(s, t, None);
            let ci = tip_of(s1)->Some_0;
            let c0 = tip_of(s)->Some_0;
            history_rec(s1, ci, id, 10) matches Some(l) ==> (history_rec(s, c0, id, 10)
                matches Some(l0) ==> (l.len() >= 1 && l0.len() >= 1 && l[0] == l0[0]))
        }),
{
    let id = t.id->Some_0;
    let aname = action_name(id);
    lemma_action_name_distinct(id);
    let ct = current_tree(s);
    let tree1 = props_set(ct, id, ser_task(t));
    let s1 = update_transition(s, t, None);
    lemma_refs_set_same(s.refs, ref_path_of(s), s.commits.len() as int);
    assert(ref_path_of(s1) == ref_path_of(s));
    assert(tip_of(s1) == Some(s.commits.len() as int));
    let ci = tip_of(s1)->Some_0;
    let c0 = tip_of(s)->Some_0;
    crate::store::lemma_refs_find_bounds(s.refs, ref_path_of(s));
    assert(0 <= s.refs[crate::store::refs_find(s.refs, ref_path_of(s))].1 < s.commits.len());
    assert(s1.commits[ci].tree == tree1);
    assert(s1.commits[c0].tree == s.commits[c0].tree);
    lemma_props_set_keep(ct, id, ser_task(t), aname);
    assert(props_find(tree1, aname) >= 0 <==> props_find(ct, aname) >= 0) by {
        lemma_props_find_bounds(tree1, aname);
        lemma_props_find_bounds(ct, aname);
    }
}

/// After a clear, no task can be found under any id.
pub proof fn lemma_clear_then_find(s: StoreV, id: Seq<char>)
    requires
        store_wf(s),
    ensures
        find_decoded(clear_transition(s), id) is None,
{
    let s1 = clear_transition(s);
    lemma_refs_set_same(s.refs, ref_path_of(s), s.commits.len() as int);
    assert(ref_path_of(s1) == ref_path_of(s));
    assert(tip_of(s1) == Some(s.commits.len() as int));
    assert(s1.commits[tip_of(s1)->Some_0].tree =~= Seq::<(Seq<char>, Seq<char>)>::empty());
}

/// Ascending order, element by element.
pub open spec fn sorted_asc(s: Seq<u64>) -> bool {
    forall|i: int| 0 <= i && i + 1 < s.len() ==> #[trigger] s[i] <= s[i + 1]
}

proof fn lemma_insert_sorted_sorted(x: u64, s: Seq<u64>)
    requires
        sorted_asc(s),
    ensures
        sorted_asc(crate::store::insert_sorted(x, s)),
    decreases s.len(),
{
    let t = crate::store::insert_sorted(x, s);
    if s.len() == 0 {
    } else if x < s[0] {
        assert forall|i: int| 0 <= i && i + 1 < t.len() implies #[trigger] t[i] <= t[i + 1] by {
            if i > 0 {
                assert(t[i] == s[i - 1]);
                assert(t[i + 1] == s[i]);
            }
        }
    } else {
        assert(forall|m: int| 0 <= m < s.drop_first().len() ==> #[trigger] s.drop_first()[m] == s[m
            + 1]);
        lemma_insert_sorted_sorted(x, s.drop_first());
        let u = crate::store::insert_sorted(x, s.drop_first());
        assert(t =~= seq![s[0]] + u);
        assert forall|i: int| 0 <= i && i + 1 < t.len() implies #[trigger] t[i] <= t[i + 1] by {
            if i == 0 {
                assert(t[1] == u[0]);
                if s.drop_first().len() == 0 {
                    assert(u[0] == x);
                } else if x < s.drop_first()[0] {
                    assert(u[0] == x);
                } else {
                    assert(u[0] == s.drop_first()[0]);
                    assert(s[0] <= s[1]);
                }
            } else {
                assert(t[i] == u[i - 1]);
                assert(t[i + 1] == u[i]);
            }
        }
    }
}

/// The ids in a delete message come out in ascending numeric order.
pub proof fn lemma_sort_ids_sorted(s: Seq<u64>)
    ensures
        sorted_asc(sort_ids(s)),
    decreases s.len(),
{
    if s.len() > 0 {
        lemma_sort_ids_sorted(s.drop_last());
        lemma_insert_sorted_sorted(s.last(), sort_ids(s.drop_last()));
    }
}

proof fn lemma_insert_sorted_multiset(x: u64, s: Seq<u64>)
    ensures
        crate::store::insert_sorted(x, s).to_multiset() == s.to_multiset().insert(x),
    decreases s.len(),
{
    broadcast use vstd::seq_lib::group_to_multiset_ensures;

    let t = crate::store::insert_sorted(x, s);
    if s.len() == 0 {
        assert(t =~= Seq::<u64>::empty().push(x));
        assert(Seq::<u64>::empty().push(x).to_multiset() =~= Seq::<u64>::empty()
            .to_multiset().insert(x));
        assert(s.to_multiset() =~= Seq::<u64>::empty().to_multiset());
    } else if x < s[0] {
        assert(t == seq![x] + s);
        assert(t.remove(0) =~= s);
        assert(t[0] == x);
        assert(t.remove(0).to_multiset() =~= t.to_multiset().remove(t[0]));
        assert(t.to_multiset().contains(x)) by {
            assert(t.contains(x)) by {
                assert(t[0] == x);
            }
        }
        assert(t.to_multiset() =~= s.to_multiset().insert(x));
    } else {
        let u = crate::store::insert_sorted(x, s.drop_first());
        lemma_insert_sorted_multiset(x, s.drop_first());
        assert(t == seq![s[0]] + u);
        assert(t.remove(0) =~= u);
        assert(t[0] == s[0]);
        assert(t.remove(0).to_multiset() =~= t.to_multiset().remove(t[0]));
        assert(t.to_multiset().contains(s[0])) by {
            assert(t.contains(s[0])) by {
                assert(t[0] == s[0]);
            }
        }
        assert(s.remove(0) =~= s.drop_first());
        assert(s.remove(0).to_multiset() =~= s.to_multiset().remove(s[0]));
        assert(s.to_multiset().contains(s[0])) by {
            assert(s.contains(s[0]));
        }
        assert(t.to_multiset() =~= u.to_multiset().insert(s[0]));
        assert(s.to_multiset() =~= s.drop_first().to_multiset().insert(s[0]));
        assert(t.to_multiset() =~= s.to_multiset().insert(x));
    }
}

/// Sorting rearranges the given ids and loses none.
pub proof fn lemma_sort_ids_multiset(s: Seq<u64>)
    ensures
        sort_ids(s).to_multiset() == s.to_multiset(),
    decreases s.len(),
{
    broadcast use vstd::seq_lib::group_to_multiset_ensures;

    if s.len() > 0 {
        lemma_sort_ids_multiset(s.drop_last());
        lemma_insert_sorted_multiset(s.last(), sort_ids(s.drop_last()));
        assert(s.drop_last().push(s.last()) =~= s);
        assert(s.drop_last().push(s.last()).to_multiset() =~= s.drop_last()
            .to_multiset().insert(s.last()));
    }
}

/// A history walk returns at most as many entries as its bound allows.
pub proof fn lemma_history_len(s: StoreV, ci: int, id: Seq<char>, fuel: nat)
    ensures
        history_rec(s, ci, id, fuel) matches Some(l) ==> l.len() <= fuel,
    decreases fuel,
{
    if fuel > 0 {
        match s.commits[ci].parent {
            None => {},
            Some(p) => {
                lemma_history_len(s, p, id, (fuel - 1) as nat);
            },
        }
    }
}

} // verus!

//! Laws of the pattern tree: how repeated registrations behave, and why a
//! more general registered pattern never shadows a more specific one.

use vstd::prelude::*;

use crate::pattern::{
    lemma_subsumes_matches, lemma_subsumes_reflexive, lemma_subsumes_transitive,
    lemma_wildcard_matches, spec_matches, spec_subsumes, KeyEvent, KeyState,
};
use crate::tree::{
    descend_from, first_subsuming, has_matching_child, insert_target, lemma_descend_props,
    lemma_first_subsuming_mem, lemma_insert_wf, lemma_nearest_sound, nearest_in, spec_add_action,
    spec_insert, spec_insert_binding, strictly_refining, tree_wf, valid_links, GNode,
};

verus! {

/// `first_subsuming` looks only at the patterns of the listed children, so
/// it is unchanged between arenas that agree on those patterns.
proof fn lemma_first_subsuming_congruent(
    t1: Seq<GNode>,
    t2: Seq<GNode>,
    cs: Seq<int>,
    p: KeyState,
)
    requires
        forall|k: int|
            0 <= k < cs.len() ==> {
                let c = #[trigger] cs[k];
                0 <= c < t1.len() && c < t2.len() && t2[c].pattern == t1[c].pattern
            },
    ensures
        first_subsuming(t2, cs, p) == first_subsuming(t1, cs, p),
    decreases cs.len(),
{
    if cs.len() > 0 {
        assert(cs[0] == cs[0]);
        assert forall|k: int|
            0 <= k < cs.drop_first().len() implies {
            let c = #[trigger] cs.drop_first()[k];
            0 <= c < t1.len() && c < t2.len() && t2[c].pattern == t1[c].pattern
        } by {
            assert(cs.drop_first()[k] == cs[k + 1]);
        }
        lemma_first_subsuming_congruent(t1, t2, cs.drop_first(), p);
    }
}

/// The insertion descent looks only at patterns and child lists, so it is
/// unchanged between arenas of equal shape (for instance before and after
/// binding an action somewhere).
proof fn lemma_descend_same_structure(t1: Seq<GNode>, t2: Seq<GNode>, i: int, p: KeyState)
    requires
        valid_links(t1),
        t1.len() == t2.len(),
        forall|j: int|
            0 <= j < t1.len() ==> (#[trigger] t2[j]).pattern == t1[j].pattern && t2[j].children
                == t1[j].children,
        0 <= i < t1.len(),
    ensures
        descend_from(t2, i, p) == descend_from(t1, i, p),
    decreases t1.len() - i,
{
    assert(valid_links(t2)) by {
        assert forall|ii: int, kk: int|
            0 <= ii < t2.len() && 0 <= kk < t2[ii].children.len() implies ii
            < #[trigger] t2[ii].children[kk] < t2.len() by {
            assert(t2[ii].children == t1[ii].children);
        }
    }
    let cs = t1[i].children;
    assert forall|k: int|
        0 <= k < cs.len() implies {
        let c = #[trigger] cs[k];
        0 <= c < t1.len() && c < t2.len() && t2[c].pattern == t1[c].pattern
    } by {}
    lemma_first_subsuming_congruent(t1, t2, cs, p);
    lemma_first_subsuming_mem(t1, cs, p);
    match first_subsuming(t1, cs, p) {
        Some(c) => {
            lemma_descend_same_structure(t1, t2, c, p);
        },
        None => {},
    }
}

/// Scanning one more child after an unsuccessful scan succeeds exactly when
/// that child's pattern subsumes `p`.
proof fn lemma_first_subsuming_push(t: Seq<GNode>, cs: Seq<int>, m: int, p: KeyState)
    requires
        first_subsuming(t, cs, p) is None,
    ensures
        first_subsuming(t, cs.push(m), p) == if spec_subsumes(t[m].pattern, p) {
            Some(m)
        } else {
            None::<int>
        },
    decreases cs.len(),
{
    if cs.len() == 0 {
        assert(cs.push(m)[0] == m);
        assert(cs.push(m).drop_first() =~= Seq::<int>::empty());
    } else {
        assert(cs.push(m)[0] == cs[0]);
        assert(cs.push(m).drop_first() =~= cs.drop_first().push(m));
        lemma_first_subsuming_push(t, cs.drop_first(), m, p);
    }
}

/// After inserting pattern `p`, the descent for `p` comes to rest exactly at
/// the node that now holds `p`: repeating the descent finds the node the
/// insertion produced.
pub proof fn lemma_descend_after_insert(t: Seq<GNode>, p: KeyState)
    requires
        tree_wf(t),
    ensures
        descend_from(spec_insert(t, p), 0, p) == insert_target(t, p),
        spec_insert(t, p)[insert_target(t, p)].pattern == p,
        insert_target(spec_insert(t, p), p) == insert_target(t, p),
        spec_insert(spec_insert(t, p), p) == spec_insert(t, p),
{
    lemma_insert_wf(t, p);
    lemma_descend_props(t, 0, p);
    let k = descend_from(t, 0, p);
    if t[k].pattern == p {
    } else {
        lemma_descend_after_insert_from(t, p, 0);
    }
    let t1 = spec_insert(t, p);
    let n = insert_target(t, p);
    assert(t1[n].pattern == p);
    assert(insert_target(t1, p) == n);
    assert(spec_insert(t1, p) == t1);
}

/// Induction along the descent path for [`lemma_descend_after_insert`], in
/// the case where the insertion attached a fresh node.
proof fn lemma_descend_after_insert_from(t: Seq<GNode>, p: KeyState, i: int)
    requires
        tree_wf(t),
        0 <= i < t.len(),
        descend_from(t, i, p) == descend_from(t, 0, p),
        t[descend_from(t, 0, p)].pattern != p,
    ensures
        descend_from(spec_insert(t, p), i, p) == t.len() as int,
    decreases t.len() - i,
{
    lemma_insert_wf(t, p);
    lemma_descend_props(t, 0, p);
    lemma_descend_props(t, i, p);
    let k = descend_from(t, 0, p);
    let m = t.len() as int;
    let t1 = spec_insert(t, p);
    let cs = t[i].children;
    lemma_first_subsuming_mem(t, cs, p);
    match first_subsuming(t, cs, p) {
        Some(c) => {
            // The walk has not rested yet, so `i` is not the node the fresh
            // leaf was attached to, and its child list is unchanged.
            lemma_descend_props(t, c, p);
            assert(i != k);
            assert(t1[i].children == cs);
            assert forall|kk: int|
                0 <= kk < cs.len() implies {
                let cc = #[trigger] cs[kk];
                0 <= cc < t.len() && cc < t1.len() && t1[cc].pattern == t[cc].pattern
            } by {}
            lemma_first_subsuming_congruent(t, t1, cs, p);
            lemma_descend_after_insert_from(t, p, c);
        },
        None => {
            assert(descend_from(t, i, p) == i);
            assert(i == k);
            assert(t1[k].children == cs.push(m));
            assert forall|kk: int|
                0 <= kk < cs.len() implies {
                let cc = #[trigger] cs[kk];
                0 <= cc < t.len() && cc < t1.len() && t1[cc].pattern == t[cc].pattern
            } by {}
            lemma_first_subsuming_congruent(t, t1, cs, p);
            lemma_first_subsuming_push(t1, cs, m, p);
            lemma_subsumes_reflexive(p);
            assert(first_subsuming(t1, t1[k].children, p) == Some(m));
            assert(t1[m].children =~= Seq::<int>::empty());
            assert(first_subsuming(t1, t1[m].children, p) is None);
            assert(descend_from(t1, m, p) == m);
        },
    }
}

/// Binding an action at a node preserves well-formedness, changes no
/// pattern and no child list, and leaves the action bound there.
pub proof fn lemma_add_action_wf(t: Seq<GNode>, n: int, a: Seq<char>)
    requires
        tree_wf(t),
        0 <= n < t.len(),
    ensures
        tree_wf(spec_add_action(t, n, a)),
        spec_add_action(t, n, a).len() == t.len(),
        forall|j: int|
            0 <= j < t.len() ==> (#[trigger] spec_add_action(t, n, a)[j]).pattern == t[j].pattern
                && spec_add_action(t, n, a)[j].children == t[j].children,
        spec_add_action(t, n, a)[n].actions.contains(a),
        forall|b: Seq<char>|
            #[trigger] t[n].actions.contains(b) ==> spec_add_action(t, n, a)[n].actions.contains(b),
        forall|j: int| 0 <= j < t.len() && j != n ==> (#[trigger] spec_add_action(t, n, a)[j]).actions
            == t[j].actions,
{
    let t1 = spec_add_action(t, n, a);
    if t[n].actions.contains(a) {
    } else {
        assert(t1[n].actions == t[n].actions.push(a));
        assert(t1[n].actions[t[n].actions.len() as int] == a);
        assert(t1[n].actions.contains(a));
        assert forall|b: Seq<char>| #[trigger] t[n].actions.contains(b) implies t1[n].actions.contains(
            b,
        ) by {
            let j = choose|j: int| 0 <= j < t[n].actions.len() && t[n].actions[j] == b;
            assert(t1[n].actions[j] == b);
        }
        assert(valid_links(t1)) by {
            assert forall|i: int, kk: int|
                0 <= i < t1.len() && 0 <= kk < t1[i].children.len() implies i
                < #[trigger] t1[i].children[kk] < t1.len() by {
                assert(t1[i].children == t[i].children);
            }
        }
        assert(strictly_refining(t1)) by {
            assert forall|i: int, kk: int|
                0 <= i < t1.len() && 0 <= kk < t1[i].children.len() implies {
                let c = #[trigger] t1[i].children[kk];
                spec_subsumes(t1[i].pattern, t1[c].pattern) && t1[i].pattern != t1[c].pattern
            } by {
                assert(t1[i].children == t[i].children);
                let c = t1[i].children[kk];
                assert(t1[i].pattern == t[i].pattern);
                assert(t1[c].pattern == t[c].pattern);
            }
        }
        assert(crate::tree::distinct_actions(t1)) by {
            assert forall|nn: int| 0 <= nn < t1.len() implies crate::tree::distinct_strs(
                #[trigger] t1[nn].actions,
            ) by {
                if nn != n {
                    assert(t1[nn].actions == t[nn].actions);
                } else {
                    assert forall|i: int, j: int|
                        0 <= i < j < t1[nn].actions.len() implies t1[nn].actions[i] != t1[nn].actions[j] by {
                        if j == t1[nn].actions.len() - 1 {
                            assert(t1[nn].actions[i] == t[nn].actions[i]);
                            assert(t[nn].actions.contains(t[nn].actions[i]));
                        }
                    }
                }
            }
        }
    }
}

/// Registering the same `(pattern, action)` binding twice yields the same
/// arena as registering it once, and the action sits exactly once in the
/// action list of the node holding the pattern (that list is
/// duplicate-free).
pub proof fn lemma_insert_idempotent(t: Seq<GNode>, p: KeyState, a: Seq<char>)
    requires
        tree_wf(t),
    ensures
        spec_insert_binding(spec_insert_binding(t, p, a), p, a) == spec_insert_binding(t, p, a),
        tree_wf(spec_insert_binding(t, p, a)),
        0 <= insert_target(t, p) < spec_insert_binding(t, p, a).len(),
        spec_insert_binding(t, p, a)[insert_target(t, p)].pattern == p,
        spec_insert_binding(t, p, a)[insert_target(t, p)].actions.contains(a),
        crate::tree::distinct_strs(spec_insert_binding(t, p, a)[insert_target(t, p)].actions),
{
    lemma_insert_wf(t, p);
    lemma_descend_after_insert(t, p);
    let t1 = spec_insert(t, p);
    let n = insert_target(t, p);
    lemma_add_action_wf(t1, n, a);
    let tb = spec_add_action(t1, n, a);
    lemma_descend_same_structure(t1, tb, 0, p);
    assert(descend_from(tb, 0, p) == n);
    assert(tb[n].pattern == p);
    assert(insert_target(tb, p) == n);
    assert(spec_insert(tb, p) == tb);
    assert(spec_add_action(tb, n, a) == tb);
    assert(spec_insert_binding(tb, p, a) == tb);
}

/// Registering two different actions under structurally-equal patterns
/// merges them: the second registration adds no node, and the node holding
/// the pattern ends up with both actions bound.
pub proof fn lemma_insert_merges(t: Seq<GNode>, p: KeyState, a1: Seq<char>, a2: Seq<char>)
    requires
        tree_wf(t),
    ensures
        ({
            let t1 = spec_insert_binding(t, p, a1);
            let t2 = spec_insert_binding(t1, p, a2);
            let n = insert_target(t, p);
            &&& t2.len() == t1.len()
            &&& insert_target(t1, p) == n
            &&& 0 <= n < t2.len()
            &&& t2[n].pattern == p
            &&& t2[n].actions.contains(a1)
            &&& t2[n].actions.contains(a2)
            &&& tree_wf(t2)
        }),
{
    lemma_insert_wf(t, p);
    lemma_descend_after_insert(t, p);
    let ti = spec_insert(t, p);
    let n = insert_target(t, p);
    lemma_add_action_wf(ti, n, a1);
    let t1 = spec_add_action(ti, n, a1);
    lemma_descend_same_structure(ti, t1, 0, p);
    assert(insert_target(t1, p) == n);
    assert(spec_insert(t1, p) == t1);
    lemma_add_action_wf(t1, n, a2);
    assert(spec_insert_binding(t1, p, a2) == spec_add_action(t1, n, a2));
}

/// Node `b` lies in the subtree rooted at node `a`.
pub open spec fn in_subtree(t: Seq<GNode>, a: int, b: int) -> bool
    decreases t.len() - a,
        when valid_links(t) && 0 <= a < t.len()
{
    b == a || exists|k: int|
        0 <= k < t[a].children.len() && in_subtree(t, #[trigger] t[a].children[k], b)
}

/// Along any subtree, patterns only get more specific: an ancestor's
/// pattern subsumes every descendant's pattern.
pub proof fn lemma_subtree_subsumes(t: Seq<GNode>, a: int, b: int)
    requires
        valid_links(t),
        strictly_refining(t),
        0 <= a < t.len(),
        in_subtree(t, a, b),
    ensures
        0 <= b < t.len(),
        spec_subsumes(t[a].pattern, t[b].pattern),
    decreases t.len() - a,
{
    if b == a {
        lemma_subsumes_reflexive(t[a].pattern);
    } else {
        let k = choose|k: int|
            0 <= k < t[a].children.len() && in_subtree(t, #[trigger] t[a].children[k], b);
        let c = t[a].children[k];
        lemma_subtree_subsumes(t, c, b);
        lemma_subsumes_transitive(t[a].pattern, t[c].pattern, t[b].pattern);
    }
}

/// Deepest-match: when pattern `b` sits strictly below pattern `a` in the
/// tree and an event matches node `b`'s pattern, the query never reports
/// node `a` -- some strictly more specific node wins on that branch.
pub proof fn lemma_deepest_match(t: Seq<GNode>, a: int, b: int, e: KeyEvent)
    requires
        tree_wf(t),
        0 <= a < t.len(),
        in_subtree(t, a, b),
        a != b,
        spec_matches(t[b].pattern, e),
    ensures
        !nearest_in(t, 0, e).contains(a),
{
    if nearest_in(t, 0, e).contains(a) {
        lemma_wildcard_matches(e);
        lemma_nearest_sound(t, 0, e);
        let j = choose|j: int| 0 <= j < nearest_in(t, 0, e).len() && nearest_in(t, 0, e)[j] == a;
        assert(!has_matching_child(t, a, e));
        let k = choose|k: int|
            0 <= k < t[a].children.len() && in_subtree(t, #[trigger] t[a].children[k], b);
        let c = t[a].children[k];
        lemma_subtree_subsumes(t, c, b);
        lemma_subsumes_matches(t[c].pattern, t[b].pattern, e);
        assert(spec_matches(t[t[a].children[k]].pattern, e));
        assert(false);
    }
}

} // verus!

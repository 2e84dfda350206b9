//! The pattern tree: an arena of nodes ordered by subsumption.
//!
//! Each node owns one [`KeyState`] pattern and the set of action names bound
//! to it; children are stored as arena indices.  Along every root path the
//! patterns grow strictly more specific, so a depth-first walk that follows
//! matching children finds, for a concrete event, every maximally-specific
//! registered pattern.

use vstd::prelude::*;

use crate::pattern::{spec_matches, spec_subsumes, spec_wildcard, KeyEvent, KeyState};

verus! {

/// One pattern together with the action names bound to it.
///
/// The action list carries no duplicates (see [`distinct_actions`]); its
/// order is the order in which actions were first bound.
pub struct KeyMap(pub KeyState, pub Vec<String>);

/// One arena node: a [`KeyMap`] plus the arena indices of its children.
pub struct Node {
    pub value: KeyMap,
    pub children: Vec<usize>,
}

/// The mathematical image of one node.
pub ghost struct GNode {
    pub pattern: KeyState,
    pub actions: Seq<Seq<char>>,
    pub children: Seq<int>,
}

/// The pattern tree.  The node at index 0 is the root and always carries the
/// fully-wildcard pattern, so every event matches at least the root.
pub struct Tree {
    pub nodes: Vec<Node>,
}

impl View for Node {
    type V = GNode;

    open spec fn view(&self) -> GNode {
        GNode {
            pattern: self.value.0,
            actions: self.value.1@.map_values(|s: String| s@),
            children: self.children@.map_values(|c: usize| c as int),
        }
    }
}

impl View for Tree {
    type V = Seq<GNode>;

    open spec fn view(&self) -> Seq<GNode> {
        self.nodes@.map_values(|n: Node| n@)
    }
}

/// Every child index points into the arena, and strictly forward: a node's
/// children were all allocated after it.  This is what makes every walk
/// along child edges terminate.
pub open spec fn valid_links(t: Seq<GNode>) -> bool {
    forall|i: int, k: int|
        0 <= i < t.len() && 0 <= k < t[i].children.len() ==> i < #[trigger] t[i].children[k]
            < t.len()
}

/// Every parent pattern strictly subsumes each child's pattern: it subsumes
/// it and is not structurally equal to it.
pub open spec fn strictly_refining(t: Seq<GNode>) -> bool {
    forall|i: int, k: int|
        0 <= i < t.len() && 0 <= k < t[i].children.len() ==> {
            let c = #[trigger] t[i].children[k];
            spec_subsumes(t[i].pattern, t[c].pattern) && t[i].pattern != t[c].pattern
        }
}

/// No sequence of action names carries a duplicate.
pub open spec fn distinct_strs(s: Seq<Seq<char>>) -> bool {
    forall|i: int, j: int| 0 <= i < j < s.len() ==> s[i] != s[j]
}

/// Every node's action list is duplicate-free.
pub open spec fn distinct_actions(t: Seq<GNode>) -> bool {
    forall|n: int| 0 <= n < t.len() ==> distinct_strs(#[trigger] t[n].actions)
}

/// Well-formedness of the whole arena.
pub open spec fn tree_wf(t: Seq<GNode>) -> bool {
    &&& t.len() > 0
    &&& t[0].pattern == spec_wildcard()
    &&& valid_links(t)
    &&& strictly_refining(t)
    &&& distinct_actions(t)
}

/// The first child in `cs` whose pattern subsumes `p`, if any.
pub open spec fn first_subsuming(t: Seq<GNode>, cs: Seq<int>, p: KeyState) -> Option<int>
    decreases cs.len(),
{
    if cs.len() == 0 {
        None
    } else if spec_subsumes(t[cs[0]].pattern, p) {
        Some(cs[0])
    } else {
        first_subsuming(t, cs.drop_first(), p)
    }
}

/// What [`first_subsuming`] returns: a member of `cs` whose pattern subsumes
/// `p`, or `None` exactly when no member's pattern does.
pub proof fn lemma_first_subsuming_mem(t: Seq<GNode>, cs: Seq<int>, p: KeyState)
    ensures
        match first_subsuming(t, cs, p) {
            Some(c) => cs.contains(c) && spec_subsumes(t[c].pattern, p),
            None => forall|k: int| 0 <= k < cs.len() ==> !spec_subsumes(t[#[trigger] cs[k]].pattern, p),
        },
    decreases cs.len(),
{
    if cs.len() == 0 {
    } else if spec_subsumes(t[cs[0]].pattern, p) {
        assert(cs.contains(cs[0]));
    } else {
        lemma_first_subsuming_mem(t, cs.drop_first(), p);
        match first_subsuming(t, cs.drop_first(), p) {
            Some(c) => {
                let k = choose|k: int| 0 <= k < cs.drop_first().len() && cs.drop_first()[k] == c;
                assert(cs[k + 1] == c);
            },
            None => {
                assert forall|k: int| 0 <= k < cs.len() implies !spec_subsumes(
                    t[#[trigger] cs[k]].pattern,
                    p,
                ) by {
                    if k > 0 {
                        assert(cs.drop_first()[k - 1] == cs[k]);
                    }
                }
            },
        }
    }
}

/// The node where the insertion descent for pattern `p`, started at node
/// `i`, comes to rest: the walk follows the first child whose pattern
/// subsumes `p` until no child does.
pub open spec fn descend_from(t: Seq<GNode>, i: int, p: KeyState) -> int
    decreases t.len() - i,
        when valid_links(t) && 0 <= i < t.len()
{
    match first_subsuming(t, t[i].children, p) {
        Some(c) => {
            proof {
                lemma_first_subsuming_mem(t, t[i].children, p);
            }
            descend_from(t, c, p)
        },
        None => i,
    }
}

/// The index of the node that holds pattern `p` after inserting `p`: the
/// resting node itself when its pattern is structurally equal to `p`, and a
/// freshly appended node otherwise.
pub open spec fn insert_target(t: Seq<GNode>, p: KeyState) -> int {
    let k = descend_from(t, 0, p);
    if t[k].pattern == p {
        k
    } else {
        t.len() as int
    }
}

/// The arena after inserting pattern `p` (with no action bound yet): either
/// unchanged, when a structurally-equal pattern already sits on the descent
/// path, or extended with one fresh leaf attached to the resting node.
pub open spec fn spec_insert(t: Seq<GNode>, p: KeyState) -> Seq<GNode> {
    let k = descend_from(t, 0, p);
    if t[k].pattern == p {
        t
    } else {
        let m = t.len() as int;
        t.update(
            k,
            GNode { pattern: t[k].pattern, actions: t[k].actions, children: t[k].children.push(m) },
        ).push(GNode { pattern: p, actions: Seq::empty(), children: Seq::empty() })
    }
}

/// The arena after binding action `a` at node `n`: unchanged when `a` is
/// already bound there, else with `a` appended to that node's action list.
pub open spec fn spec_add_action(t: Seq<GNode>, n: int, a: Seq<char>) -> Seq<GNode> {
    if t[n].actions.contains(a) {
        t
    } else {
        t.update(
            n,
            GNode { pattern: t[n].pattern, actions: t[n].actions.push(a), children: t[n].children },
        )
    }
}

/// The arena after registering the binding `(p, a)`: insert the pattern,
/// then bind the action at the resulting node.
pub open spec fn spec_insert_binding(t: Seq<GNode>, p: KeyState, a: Seq<char>) -> Seq<GNode> {
    spec_add_action(spec_insert(t, p), insert_target(t, p), a)
}

/// Whether some child of node `i` carries a pattern matching event `e`.
pub open spec fn has_matching_child(t: Seq<GNode>, i: int, e: KeyEvent) -> bool {
    exists|k: int|
        0 <= k < t[i].children.len() && spec_matches(t[#[trigger] t[i].children[k]].pattern, e)
}

/// The maximally-specific matches for event `e` in the subtree rooted at
/// node `i` (whose own pattern is assumed to match): when some child
/// matches, the walk descends into every matching child and node `i` itself
/// is not recorded; when no child matches, node `i` is the most specific
/// match along this path.
pub open spec fn nearest_in(t: Seq<GNode>, i: int, e: KeyEvent) -> Seq<int>
    decreases t.len() - i, 1int, 0int,
        when valid_links(t) && 0 <= i < t.len()
{
    if has_matching_child(t, i, e) {
        nearest_among(t, i, t[i].children, e)
    } else {
        seq![i]
    }
}

/// The concatenation, in order, of the maximal matches found under each
/// matching member of `cs` (a suffix-closed portion of node `i`'s children).
pub open spec fn nearest_among(t: Seq<GNode>, i: int, cs: Seq<int>, e: KeyEvent) -> Seq<int>
    decreases t.len() - i, 0int, cs.len(),
        when valid_links(t) && 0 <= i < t.len() && (forall|k: int|
            0 <= k < cs.len() ==> i < #[trigger] cs[k] < t.len())
{
    if cs.len() == 0 {
        Seq::empty()
    } else {
        (if spec_matches(t[cs[0]].pattern, e) {
            nearest_in(t, cs[0], e)
        } else {
            Seq::empty()
        }) + nearest_among(t, i, cs.drop_first(), e)
    }
}

/// Soundness and completeness of the walk: it returns at least one node
/// (the subtree root is a fallback), and every returned node lies in the
/// subtree, matches the event, and has no matching child -- it is maximal.
pub proof fn lemma_nearest_sound(t: Seq<GNode>, i: int, e: KeyEvent)
    requires
        valid_links(t),
        0 <= i < t.len(),
        spec_matches(t[i].pattern, e),
    ensures
        nearest_in(t, i, e).len() >= 1,
        forall|j: int|
            0 <= j < nearest_in(t, i, e).len() ==> {
                let r = #[trigger] nearest_in(t, i, e)[j];
                &&& i <= r < t.len()
                &&& spec_matches(t[r].pattern, e)
                &&& !has_matching_child(t, r, e)
            },
    decreases t.len() - i, 1int, 0int,
{
    if has_matching_child(t, i, e) {
        lemma_nearest_among_sound(t, i, t[i].children, e);
        let k = choose|k: int|
            0 <= k < t[i].children.len() && spec_matches(t[t[i].children[k]].pattern, e);
        assert(t[i].children.contains(t[i].children[k]));
    }
}

/// The part of [`lemma_nearest_sound`] that walks a child list.
pub proof fn lemma_nearest_among_sound(t: Seq<GNode>, i: int, cs: Seq<int>, e: KeyEvent)
    requires
        valid_links(t),
        0 <= i < t.len(),
        forall|k: int| 0 <= k < cs.len() ==> i < #[trigger] cs[k] < t.len(),
    ensures
        (exists|k: int| 0 <= k < cs.len() && spec_matches(t[#[trigger] cs[k]].pattern, e))
            ==> nearest_among(t, i, cs, e).len() >= 1,
        forall|j: int|
            0 <= j < nearest_among(t, i, cs, e).len() ==> {
                let r = #[trigger] nearest_among(t, i, cs, e)[j];
                &&& i < r < t.len()
                &&& spec_matches(t[r].pattern, e)
                &&& !has_matching_child(t, r, e)
            },
    decreases t.len() - i, 0int, cs.len(),
{
    if cs.len() == 0 {
    } else {
        let head: Seq<int> = if spec_matches(t[cs[0]].pattern, e) {
            nearest_in(t, cs[0], e)
        } else {
            Seq::empty()
        };
        if spec_matches(t[cs[0]].pattern, e) {
            lemma_nearest_sound(t, cs[0], e);
        }
        lemma_nearest_among_sound(t, i, cs.drop_first(), e);
        assert forall|k: int|
            0 <= k < cs.drop_first().len() implies i < #[trigger] cs.drop_first()[k]
            < t.len() by {
            assert(cs.drop_first()[k] == cs[k + 1]);
        }
        if exists|k: int| 0 <= k < cs.len() && spec_matches(t[#[trigger] cs[k]].pattern, e) {
            let k = choose|k: int| 0 <= k < cs.len() && spec_matches(t[cs[k]].pattern, e);
            if k == 0 {
                assert(nearest_in(t, cs[0], e).len() >= 1);
            } else {
                assert(cs.drop_first()[k - 1] == cs[k]);
                assert(nearest_among(t, i, cs.drop_first(), e).len() >= 1);
            }
        }
        assert forall|j: int|
            0 <= j < nearest_among(t, i, cs, e).len() implies {
            let r = #[trigger] nearest_among(t, i, cs, e)[j];
            &&& i < r < t.len()
            &&& spec_matches(t[r].pattern, e)
            &&& !has_matching_child(t, r, e)
        } by {
            if j < head.len() {
                assert(nearest_among(t, i, cs, e)[j] == head[j]);
            } else {
                assert(nearest_among(t, i, cs, e)[j] == nearest_among(t, i, cs.drop_first(), e)[
                    j - head.len()
                ]);
            }
        }
    }
}

/// When no member of `cs` matches the event, the walk over `cs` finds
/// nothing.
pub proof fn lemma_nearest_among_no_match(t: Seq<GNode>, i: int, cs: Seq<int>, e: KeyEvent)
    requires
        valid_links(t),
        0 <= i < t.len(),
        forall|k: int| 0 <= k < cs.len() ==> i < #[trigger] cs[k] < t.len(),
        forall|k: int| 0 <= k < cs.len() ==> !spec_matches(t[#[trigger] cs[k]].pattern, e),
    ensures
        nearest_among(t, i, cs, e) == Seq::<int>::empty(),
    decreases cs.len(),
{
    if cs.len() > 0 {
        assert forall|k: int|
            0 <= k < cs.drop_first().len() implies i < #[trigger] cs.drop_first()[k] < t.len()
            && !spec_matches(t[cs.drop_first()[k]].pattern, e) by {
            assert(cs.drop_first()[k] == cs[k + 1]);
        }
        lemma_nearest_among_no_match(t, i, cs.drop_first(), e);
        assert(nearest_among(t, i, cs, e) =~= Seq::<int>::empty());
    }
}

/// Extending the walked prefix of a child list by one child appends that
/// child's matches (if it matches) to the accumulated result.
pub proof fn lemma_nearest_among_snoc(t: Seq<GNode>, i: int, cs: Seq<int>, k: int, e: KeyEvent)
    requires
        valid_links(t),
        0 <= i < t.len(),
        forall|kk: int| 0 <= kk < cs.len() ==> i < #[trigger] cs[kk] < t.len(),
        0 <= k < cs.len(),
    ensures
        nearest_among(t, i, cs.take(k + 1), e) == nearest_among(t, i, cs.take(k), e) + (
        if spec_matches(t[cs[k]].pattern, e) {
            nearest_in(t, cs[k], e)
        } else {
            Seq::<int>::empty()
        }),
    decreases k,
{
    let tail: Seq<int> = if spec_matches(t[cs[k]].pattern, e) {
        nearest_in(t, cs[k], e)
    } else {
        Seq::empty()
    };
    assert forall|kk: int|
        0 <= kk < cs.take(k + 1).len() implies i < #[trigger] cs.take(k + 1)[kk] < t.len() by {
        assert(cs.take(k + 1)[kk] == cs[kk]);
    }
    assert forall|kk: int|
        0 <= kk < cs.take(k).len() implies i < #[trigger] cs.take(k)[kk] < t.len() by {
        assert(cs.take(k)[kk] == cs[kk]);
    }
    if k == 0 {
        assert(cs.take(0) =~= Seq::<int>::empty());
        assert(cs.take(1)[0] == cs[0]);
        assert(cs.take(1).drop_first() =~= Seq::<int>::empty());
        assert(cs.take(1).len() == 1);
        assert(nearest_among(t, i, Seq::<int>::empty(), e) == Seq::<int>::empty());
        assert(nearest_among(t, i, cs.take(1), e) == (if spec_matches(
            t[cs.take(1)[0]].pattern,
            e,
        ) {
            nearest_in(t, cs.take(1)[0], e)
        } else {
            Seq::<int>::empty()
        }) + nearest_among(t, i, cs.take(1).drop_first(), e));
        assert(nearest_among(t, i, cs.take(1), e) =~= Seq::<int>::empty() + tail);
        assert(nearest_among(t, i, cs.take(0), e) + tail =~= Seq::<int>::empty() + tail);
    } else {
        assert forall|kk: int|
            0 <= kk < cs.drop_first().len() implies i < #[trigger] cs.drop_first()[kk]
            < t.len() by {
            assert(cs.drop_first()[kk] == cs[kk + 1]);
        }
        lemma_nearest_among_snoc(t, i, cs.drop_first(), k - 1, e);
        assert(cs.drop_first()[k - 1] == cs[k]);
        let head: Seq<int> = if spec_matches(t[cs[0]].pattern, e) {
            nearest_in(t, cs[0], e)
        } else {
            Seq::empty()
        };
        assert(cs.take(k + 1)[0] == cs[0]);
        assert(cs.take(k)[0] == cs[0]);
        assert(cs.take(k + 1).drop_first() =~= cs.drop_first().take(k));
        assert(cs.take(k).drop_first() =~= cs.drop_first().take(k - 1));
        assert(nearest_among(t, i, cs.take(k + 1), e) == head + nearest_among(
            t,
            i,
            cs.drop_first().take(k),
            e,
        ));
        assert(nearest_among(t, i, cs.take(k), e) == head + nearest_among(
            t,
            i,
            cs.drop_first().take(k - 1),
            e,
        ));
        assert((head + nearest_among(t, i, cs.drop_first().take(k - 1), e)) + tail =~= head + (
        nearest_among(t, i, cs.drop_first().take(k - 1), e) + tail));
    }
}

/// Where the descent from node `i` comes to rest: at a node at or after `i`,
/// whose children offer nothing subsuming `p`, and whose own pattern still
/// subsumes `p` whenever node `i`'s did.
pub proof fn lemma_descend_props(t: Seq<GNode>, i: int, p: KeyState)
    requires
        valid_links(t),
        0 <= i < t.len(),
    ensures
        i <= descend_from(t, i, p) < t.len(),
        first_subsuming(t, t[descend_from(t, i, p)].children, p) is None,
        spec_subsumes(t[i].pattern, p) ==> spec_subsumes(t[descend_from(t, i, p)].pattern, p),
    decreases t.len() - i,
{
    lemma_first_subsuming_mem(t, t[i].children, p);
    match first_subsuming(t, t[i].children, p) {
        Some(c) => {
            lemma_descend_props(t, c, p);
        },
        None => {},
    }
}

/// Inserting a pattern into a well-formed arena keeps it well-formed.
pub proof fn lemma_insert_wf(t: Seq<GNode>, p: KeyState)
    requires
        tree_wf(t),
    ensures
        tree_wf(spec_insert(t, p)),
        spec_insert(t, p).len() >= t.len(),
        0 <= insert_target(t, p) < spec_insert(t, p).len(),
        spec_insert(t, p)[insert_target(t, p)].pattern == p,
{
    lemma_descend_props(t, 0, p);
    crate::pattern::lemma_wildcard_subsumes(p);
    let k = descend_from(t, 0, p);
    if t[k].pattern == p {
    } else {
        let t1 = spec_insert(t, p);
        let m = t.len() as int;
        assert(valid_links(t1)) by {
            assert forall|i: int, kk: int|
                0 <= i < t1.len() && 0 <= kk < t1[i].children.len() implies i
                < #[trigger] t1[i].children[kk] < t1.len() by {
                if i == k && kk == t1[i].children.len() - 1 {
                } else {
                    assert(t1[i].children[kk] == t[i].children[kk]);
                }
            }
        }
        assert(strictly_refining(t1)) by {
            assert forall|i: int, kk: int|
                0 <= i < t1.len() && 0 <= kk < t1[i].children.len() implies {
                let c = #[trigger] t1[i].children[kk];
                spec_subsumes(t1[i].pattern, t1[c].pattern) && t1[i].pattern != t1[c].pattern
            } by {
                if i == k && kk == t1[i].children.len() - 1 {
                    assert(t1[i].children[kk] == m);
                } else {
                    assert(t1[i].children[kk] == t[i].children[kk]);
                    assert(0 <= kk < t[i].children.len());
                }
            }
        }
        assert(distinct_actions(t1)) by {
            assert forall|n: int| 0 <= n < t1.len() implies distinct_strs(
                #[trigger] t1[n].actions,
            ) by {
                if n < t.len() {
                    assert(t1[n].actions == t[n].actions);
                }
            }
        }
    }
}

impl Tree {
    /// Well-formedness of the tree.
    pub open spec fn wf(&self) -> bool {
        tree_wf(self@)
    }

    /// The first child of node `i` whose pattern subsumes `p`, if any.
    fn first_subsuming_child(&self, i: usize, p: &KeyState) -> (r: Option<usize>)
        requires
            valid_links(self@),
            i < self@.len(),
        ensures
            match r {
                Some(c) => c < self@.len() && first_subsuming(self@, self@[i as int].children, *p)
                    == Some(c as int),
                None => first_subsuming(self@, self@[i as int].children, *p) is None,
            },
    {
        let ghost t = self@;
        let ghost cm = t[i as int].children;
        let n_children = self.nodes[i].children.len();
        proof {
            assert(cm.len() == n_children);
        }
        let mut k: usize = 0;
        proof {
            assert(cm.skip(0) =~= cm);
        }
        while k < n_children
            invariant
                valid_links(t),
                i < t.len(),
                t == self@,
                cm == t[i as int].children,
                cm.len() == n_children,
                n_children == self.nodes@[i as int].children@.len(),
                k <= n_children,
                first_subsuming(t, cm.skip(k as int), *p) == first_subsuming(t, cm, *p),
            decreases n_children - k,
        {
            let c = self.nodes[i].children[k];
            proof {
                assert(cm[k as int] == c as int);
                assert(0 <= c < t.len());
                assert(cm.skip(k as int)[0] == cm[k as int]);
            }
            if self.nodes[c].value.0.subsumes(p) {
                return Some(c);
            }
            proof {
                assert(cm.skip(k as int).drop_first() =~= cm.skip(k as int + 1));
            }
            k = k + 1;
        }
        proof {
            assert(cm.skip(n_children as int) =~= Seq::<int>::empty());
        }
        None
    }

    /// Descend from the root along children whose patterns subsume `key`;
    /// reuse the resting node when its pattern is structurally equal to
    /// `key`, else attach a fresh child for `key` there.  Returns the index
    /// of the node that now holds `key`.
    pub fn find_or_insert(&mut self, key: KeyState) -> (n: usize)
        requires
            old(self).wf(),
        ensures
            final(self)@ == spec_insert(old(self)@, key),
            final(self).wf(),
            n as int == insert_target(old(self)@, key),
            n < final(self)@.len(),
            final(self)@[n as int].pattern == key,
    {
        let ghost t0 = self@;
        proof {
            crate::pattern::lemma_wildcard_subsumes(key);
            lemma_insert_wf(t0, key);
        }
        let mut cur: usize = 0;
        loop
            invariant
                self == old(self),
                t0 == self@,
                tree_wf(t0),
                cur < t0.len(),
                spec_subsumes(t0[cur as int].pattern, key),
                descend_from(t0, cur as int, key) == descend_from(t0, 0, key),
            ensures
                self == old(self),
                cur < t0.len(),
                cur as int == descend_from(t0, 0, key),
                spec_subsumes(t0[cur as int].pattern, key),
            decreases t0.len() - cur,
        {
            match self.first_subsuming_child(cur, &key) {
                Some(c) => {
                    proof {
                        lemma_first_subsuming_mem(t0, t0[cur as int].children, key);
                        assert(t0[cur as int].children.contains(c as int));
                        let kk = choose|kk: int|
                            0 <= kk < t0[cur as int].children.len() && t0[cur as int].children[kk]
                                == c as int;
                        assert(cur < c);
                        assert((c as int) < t0.len());
                        assert(descend_from(t0, cur as int, key) == descend_from(t0, c as int, key));
                    }
                    cur = c;
                },
                None => {
                    proof {
                        assert(descend_from(t0, cur as int, key) == cur as int);
                    }
                    break ;
                },
            }
        }
        let ghost k = descend_from(t0, 0, key);
        if self.nodes[cur].value.0.key_eq(&key) {
            proof {
                assert(t0[k].pattern == key);
                assert(self@ == spec_insert(t0, key));
            }
            cur
        } else {
            let m = self.nodes.len();
            self.nodes.push(Node { value: KeyMap(key, Vec::new()), children: Vec::new() });
            self.nodes[cur].children.push(m);
            proof {
                let t1 = spec_insert(t0, key);
                assert(self@ =~= t1) by {
                    assert forall|j: int| 0 <= j < self@.len() implies self@[j] == t1[j] by {
                        if j == k {
                            assert(self.nodes@[j].children@ =~= old(self).nodes@[j].children@.push(
                                m,
                            ));
                            assert(self@[j].children =~= t0[j].children.push(m as int));
                            assert(self@[j].actions =~= t0[j].actions);
                        } else if j < m {
                            assert(self.nodes@[j] == old(self).nodes@[j]);
                        } else {
                            assert(self@[j].actions =~= Seq::<Seq<char>>::empty());
                            assert(self@[j].children =~= Seq::<int>::empty());
                        }
                    }
                }
            }
            m
        }
    }

    /// Bind `action` at node `n`, unless it is already bound there.
    pub fn add_action(&mut self, n: usize, action: String)
        requires
            old(self).wf(),
            n < old(self)@.len(),
        ensures
            final(self)@ == spec_add_action(old(self)@, n as int, action@),
            final(self).wf(),
            final(self)@.len() == old(self)@.len(),
    {
        let ghost t0 = self@;
        let ghost acts = t0[n as int].actions;
        let n_actions = self.nodes[n].value.1.len();
        let mut j: usize = 0;
        while j < n_actions
            invariant
                t0 == self@,
                self == old(self),
                n < t0.len(),
                tree_wf(t0),
                acts == t0[n as int].actions,
                acts.len() == n_actions,
                n_actions == self.nodes@[n as int].value.1@.len(),
                j <= n_actions,
                forall|jj: int| 0 <= jj < j ==> acts[jj] != action@,
            decreases n_actions - j,
        {
            if self.nodes[n].value.1[j] == action {
                proof {
                    assert(acts[j as int] == action@);
                    assert(acts.contains(action@));
                    assert(self@ == spec_add_action(t0, n as int, action@));
                }
                return ;
            }
            proof {
                assert(acts[j as int] == self.nodes@[n as int].value.1@[j as int]@);
            }
            j = j + 1;
        }
        proof {
            assert(!acts.contains(action@)) by {
                if acts.contains(action@) {
                    let jj = choose|jj: int| 0 <= jj < acts.len() && acts[jj] == action@;
                }
            }
        }
        self.nodes[n].value.1.push(action);
        proof {
            let t1 = spec_add_action(t0, n as int, action@);
            assert(self@ =~= t1) by {
                assert forall|i: int| 0 <= i < self@.len() implies self@[i] == t1[i] by {
                    if i == n {
                        assert(self.nodes@[i].value.1@ =~= old(self).nodes@[i].value.1@.push(
                            action,
                        ));
                        assert(self@[i].actions =~= t0[i].actions.push(action@));
                    } else {
                        assert(self.nodes@[i] == old(self).nodes@[i]);
                    }
                }
            }
            assert(tree_wf(self@)) by {
                assert(valid_links(t1)) by {
                    assert forall|i: int, kk: int|
                        0 <= i < t1.len() && 0 <= kk < t1[i].children.len() implies i
                        < #[trigger] t1[i].children[kk] < t1.len() by {
                        assert(t1[i].children == t0[i].children);
                    }
                }
                assert(strictly_refining(t1)) by {
                    assert forall|i: int, kk: int|
                        0 <= i < t1.len() && 0 <= kk < t1[i].children.len() implies {
                        let c = #[trigger] t1[i].children[kk];
                        spec_subsumes(t1[i].pattern, t1[c].pattern) && t1[i].pattern != t1[c].pattern
                    } by {
                        assert(t1[i].children == t0[i].children);
                        assert(t1[i].pattern == t0[i].pattern);
                        let c = t1[i].children[kk];
                        assert(t1[c].pattern == t0[c].pattern);
                    }
                }
                assert(distinct_actions(t1)) by {
                    assert forall|nn: int| 0 <= nn < t1.len() implies distinct_strs(
                        #[trigger] t1[nn].actions,
                    ) by {
                        if nn != n {
                            assert(t1[nn].actions == t0[nn].actions);
                        }
                    }
                }
            }
        }
    }

    /// A tree holding only the fully-wildcard root with no bound actions.
    pub fn with_root() -> (t: Tree)
        ensures
            t.wf(),
            t@.len() == 1,
            t@[0].pattern == spec_wildcard(),
            t@[0].actions == Seq::<Seq<char>>::empty(),
    {
        let root = Node { value: KeyMap(KeyState::default(), Vec::new()), children: Vec::new() };
        let t = Tree { nodes: vec![root] };
        proof {
            assert(t@ =~= seq![t.nodes@[0]@]);
            assert(t@[0].actions =~= Seq::<Seq<char>>::empty());
            assert(t@[0].children =~= Seq::<int>::empty());
        }
        t
    }

    /// Depth-first helper for [`Tree::all_nearest`]: appends to `out` the
    /// maximal matches found in the subtree rooted at node `i`.
    fn collect_nearest(&self, i: usize, key: &KeyEvent, out: &mut Vec<usize>)
        requires
            valid_links(self@),
            i < self@.len(),
        ensures
            final(out)@.map_values(|u: usize| u as int) == old(out)@.map_values(|u: usize| u as int)
                + nearest_in(self@, i as int, *key),
        decreases self@.len() - i,
    {
        let ghost t = self@;
        let ghost cm = t[i as int].children;
        let ghost out0 = out@.map_values(|u: usize| u as int);
        proof {
            assert forall|kk: int| 0 <= kk < cm.len() implies i < #[trigger] cm[kk] < t.len() by {}
            assert(cm.take(0) =~= Seq::<int>::empty());
            assert(out@.map_values(|u: usize| u as int) =~= out0 + nearest_among(
                t,
                i as int,
                cm.take(0),
                *key,
            ));
        }
        let n_children = self.nodes[i].children.len();
        let mut found = false;
        let mut k: usize = 0;
        while k < n_children
            invariant
                valid_links(t),
                i < t.len(),
                t == self@,
                cm == t[i as int].children,
                cm.len() == n_children,
                n_children == self.nodes@[i as int].children@.len(),
                k <= n_children,
                forall|kk: int| 0 <= kk < cm.len() ==> i < #[trigger] cm[kk] < t.len(),
                found == exists|kk: int|
                    0 <= kk < k && spec_matches(t[#[trigger] cm[kk]].pattern, *key),
                out@.map_values(|u: usize| u as int) == out0 + nearest_among(
                    t,
                    i as int,
                    cm.take(k as int),
                    *key,
                ),
            decreases n_children - k,
        {
            let c = self.nodes[i].children[k];
            proof {
                assert(cm[k as int] == c as int);
            }
            if self.nodes[c].value.0.subsumes_event(key) {
                self.collect_nearest(c, key, out);
                proof {
                    lemma_nearest_among_snoc(t, i as int, cm, k as int, *key);
                }
                found = true;
            } else {
                proof {
                    lemma_nearest_among_snoc(t, i as int, cm, k as int, *key);
                    assert(out@.map_values(|u: usize| u as int) =~= out0 + nearest_among(
                        t,
                        i as int,
                        cm.take(k as int + 1),
                        *key,
                    ));
                }
            }
            k = k + 1;
        }
        proof {
            assert(cm.take(n_children as int) =~= cm);
        }
        if !found {
            proof {
                assert(!has_matching_child(t, i as int, *key));
                lemma_nearest_among_no_match(t, i as int, cm, *key);
            }
            out.push(i);
            proof {
                assert(out@.map_values(|u: usize| u as int) =~= out0 + seq![i as int]);
                assert(nearest_in(t, i as int, *key) == seq![i as int]);
            }
        } else {
            proof {
                assert(has_matching_child(t, i as int, *key));
                assert(nearest_in(t, i as int, *key) == nearest_among(t, i as int, cm, *key));
            }
        }
    }

    /// All maximally-specific registered patterns matching `key`, as arena
    /// node indices in depth-first discovery order.  The result is never
    /// empty: the fully-wildcard root is the fallback match.
    pub fn all_nearest(&self, key: &KeyEvent) -> (res: Vec<usize>)
        requires
            self.wf(),
        ensures
            res@.map_values(|u: usize| u as int) == nearest_in(self@, 0, *key),
            res@.len() >= 1,
            forall|j: int| 0 <= j < res@.len() ==> (#[trigger] res@[j]) < self@.len(),
    {
        proof {
            crate::pattern::lemma_wildcard_matches(*key);
            lemma_nearest_sound(self@, 0, *key);
        }
        let mut out: Vec<usize> = Vec::new();
        proof {
            assert(out@.map_values(|u: usize| u as int) =~= Seq::<int>::empty());
        }
        self.collect_nearest(0, key, &mut out);
        proof {
            assert(out@.map_values(|u: usize| u as int) =~= nearest_in(self@, 0, *key));
            assert(out@.len() == nearest_in(self@, 0, *key).len());
            assert forall|j: int| 0 <= j < out@.len() implies (#[trigger] out@[j])
                < self@.len() by {
                assert(out@.map_values(|u: usize| u as int)[j] == out@[j] as int);
            }
        }
        out
    }

    /// How many nodes the arena holds.
    pub fn node_count(&self) -> (n: usize)
        ensures
            n == self@.len(),
    {
        self.nodes.len()
    }

    /// The action names bound at node `n`.
    pub fn actions_of(&self, n: usize) -> (r: &Vec<String>)
        requires
            n < self@.len(),
        ensures
            r@.map_values(|s: String| s@) == self@[n as int].actions,
    {
        &self.nodes[n].value.1
    }

    /// The pattern held at node `n`.
    pub fn pattern_of(&self, n: usize) -> (r: &KeyState)
        requires
            n < self@.len(),
        ensures
            *r == self@[n as int].pattern,
    {
        &self.nodes[n].value.0
    }
}

} // verus!

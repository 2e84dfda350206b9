//! The per-session tracker: a pattern tree plus the set of action names
//! currently considered held down.
//!
//! Every key event is matched against the tree; the actions bound to the
//! maximal matches are returned to the caller and drive the active set.
//! A release event deactivates by re-querying with the state field pinned
//! to `Pressed` (all other fields, modifiers included, taken from the
//! release event itself), so a binding authored against the pressed chord
//! is found again -- unless the modifiers drifted between press and
//! release, in which case the action deliberately stays active.

use vstd::prelude::*;

use crate::config::{
    attr_views, pattern_from_attrs, spec_default_binding_pattern, spec_pattern_fold, ConfigError,
};
use crate::pattern::{ElementState, KeyEvent, KeyState};
use crate::tree::{
    distinct_strs, nearest_in, spec_insert_binding, tree_wf, GNode, Tree,
};

verus! {

/// The views of a list of action names.
pub open spec fn names_of(v: Seq<String>) -> Seq<Seq<char>> {
    v.map_values(|s: String| s@)
}

/// The action names bound to the listed nodes, concatenated in order.
pub open spec fn fired_from(t: Seq<GNode>, idxs: Seq<int>) -> Seq<Seq<char>>
    decreases idxs.len(),
{
    if idxs.len() == 0 {
        Seq::empty()
    } else {
        t[idxs[0]].actions + fired_from(t, idxs.drop_first())
    }
}

/// Every action name bound across the maximal matches for event `e`, in
/// discovery order (an action bound to several matching nodes appears once
/// per node).
pub open spec fn spec_fired(t: Seq<GNode>, e: KeyEvent) -> Seq<Seq<char>> {
    fired_from(t, nearest_in(t, 0, e))
}

/// The event `e` with its button state forced to `Pressed` and every other
/// field unchanged.
pub open spec fn spec_press(e: KeyEvent) -> KeyEvent {
    KeyEvent { state: ElementState::Pressed, ..e }
}

/// Walking one more listed node appends exactly its bound actions.
proof fn lemma_fired_from_snoc(t: Seq<GNode>, idxs: Seq<int>, k: int)
    requires
        0 <= k < idxs.len(),
    ensures
        fired_from(t, idxs.take(k + 1)) == fired_from(t, idxs.take(k)) + t[idxs[k]].actions,
    decreases k,
{
    if k == 0 {
        assert(idxs.take(0) =~= Seq::<int>::empty());
        assert(idxs.take(1)[0] == idxs[0]);
        assert(idxs.take(1).drop_first() =~= Seq::<int>::empty());
        assert(idxs.take(1).len() == 1);
        assert(fired_from(t, Seq::<int>::empty()) == Seq::<Seq<char>>::empty());
        assert(fired_from(t, idxs.take(1)) == t[idxs.take(1)[0]].actions + fired_from(
            t,
            idxs.take(1).drop_first(),
        ));
        assert(fired_from(t, idxs.take(1)) =~= Seq::<Seq<char>>::empty() + t[idxs[0]].actions);
        assert(fired_from(t, idxs.take(0)) + t[idxs[0]].actions =~= Seq::<Seq<char>>::empty()
            + t[idxs[0]].actions);
    } else {
        lemma_fired_from_snoc(t, idxs.drop_first(), k - 1);
        assert(idxs.drop_first()[k - 1] == idxs[k]);
        assert(idxs.take(k + 1)[0] == idxs[0]);
        assert(idxs.take(k)[0] == idxs[0]);
        assert(idxs.take(k + 1).drop_first() =~= idxs.drop_first().take(k));
        assert(idxs.take(k).drop_first() =~= idxs.drop_first().take(k - 1));
        assert(fired_from(t, idxs.take(k + 1)) == t[idxs[0]].actions + fired_from(
            t,
            idxs.drop_first().take(k),
        ));
        assert(fired_from(t, idxs.take(k)) == t[idxs[0]].actions + fired_from(
            t,
            idxs.drop_first().take(k - 1),
        ));
        assert((t[idxs[0]].actions + fired_from(t, idxs.drop_first().take(k - 1)))
            + t[idxs[k]].actions =~= t[idxs[0]].actions + (fired_from(
            t,
            idxs.drop_first().take(k - 1),
        ) + t[idxs[k]].actions));
    }
}

/// Membership in a pushed name list.
proof fn lemma_names_push_contains(m: Seq<Seq<char>>, a: Seq<char>)
    ensures
        forall|x: Seq<char>| #[trigger] m.push(a).contains(x) <==> m.contains(x) || x == a,
{
    assert forall|x: Seq<char>| #[trigger] m.push(a).contains(x) implies m.contains(x) || x
        == a by {
        let i = choose|i: int| 0 <= i < m.push(a).len() && m.push(a)[i] == x;
        if i < m.len() {
            assert(m[i] == x);
        }
    }
    assert forall|x: Seq<char>| m.contains(x) || x == a implies #[trigger] m.push(a).contains(
        x,
    ) by {
        if m.contains(x) {
            let i = choose|i: int| 0 <= i < m.len() && m[i] == x;
            assert(m.push(a)[i] == x);
        } else {
            assert(m.push(a)[m.len() as int] == x);
        }
    }
}

/// Whether `s` is one of the names in `v`.
fn contains_action(v: &Vec<String>, s: &String) -> (r: bool)
    ensures
        r == names_of(v@).contains(s@),
{
    let mut j: usize = 0;
    while j < v.len()
        invariant
            j <= v@.len(),
            forall|jj: int| 0 <= jj < j ==> names_of(v@)[jj] != s@,
        decreases v@.len() - j,
    {
        if v[j].eq(s) {
            proof {
                assert(names_of(v@)[j as int] == s@);
            }
            return true;
        }
        j = j + 1;
    }
    proof {
        if names_of(v@).contains(s@) {
            let jj = choose|jj: int| 0 <= jj < names_of(v@).len() && names_of(v@)[jj] == s@;
        }
    }
    false
}

/// Add `s` to a duplicate-free name list unless it is already there.
fn insert_unique(v: &mut Vec<String>, s: String)
    requires
        distinct_strs(names_of(old(v)@)),
    ensures
        distinct_strs(names_of(final(v)@)),
        names_of(final(v)@).to_set() == names_of(old(v)@).to_set().insert(s@),
{
    let ghost m0 = names_of(v@);
    if contains_action(v, &s) {
        proof {
            assert(names_of(v@).to_set() =~= m0.to_set().insert(s@));
        }
    } else {
        v.push(s);
        proof {
            assert(names_of(v@) =~= m0.push(s@));
            lemma_names_push_contains(m0, s@);
            assert(distinct_strs(names_of(v@))) by {
                assert forall|i: int, j: int|
                    0 <= i < j < names_of(v@).len() implies names_of(v@)[i] != names_of(v@)[j] by {
                    if j == m0.len() {
                        assert(m0.contains(m0[i]));
                    }
                }
            }
            assert(names_of(v@).to_set() =~= m0.to_set().insert(s@));
        }
    }
}

/// Remove `s` from a duplicate-free name list, if it is there.
fn remove_action(v: &mut Vec<String>, s: &String)
    requires
        distinct_strs(names_of(old(v)@)),
    ensures
        distinct_strs(names_of(final(v)@)),
        names_of(final(v)@).to_set() == names_of(old(v)@).to_set().remove(s@),
{
    let ghost m0 = names_of(v@);
    let mut j: usize = 0;
    while j < v.len()
        invariant
            j <= v@.len(),
            v == old(v),
            m0 == names_of(v@),
            distinct_strs(m0),
            forall|jj: int| 0 <= jj < j ==> m0[jj] != s@,
        decreases v@.len() - j,
    {
        if v[j].eq(s) {
            proof {
                assert(m0[j as int] == s@);
            }
            v.remove(j);
            proof {
                let m1 = names_of(v@);
                assert(m1 =~= m0.remove(j as int));
                assert forall|idx: int| 0 <= idx < m1.len() implies m1[idx] == (if idx < j {
                    m0[idx]
                } else {
                    m0[idx + 1]
                }) by {}
                assert(distinct_strs(m1)) by {
                    assert forall|a: int, b: int| 0 <= a < b < m1.len() implies m1[a] != m1[b] by {}
                }
                assert(m1.to_set() =~= m0.to_set().remove(s@)) by {
                    assert forall|x: Seq<char>| #[trigger] m1.contains(x) implies m0.contains(x)
                        && x != s@ by {
                        let idx = choose|idx: int| 0 <= idx < m1.len() && m1[idx] == x;
                        if idx < j {
                            assert(m0[idx] == x);
                            assert(x != s@);
                        } else {
                            assert(m0[idx + 1] == x);
                            assert(x != s@) by {
                                if x == s@ {
                                    assert(m0[j as int] == m0[idx + 1]);
                                }
                            }
                        }
                    }
                    assert forall|x: Seq<char>| m0.contains(x) && x != s@ implies #[trigger] m1.contains(
                        x,
                    ) by {
                        let idx = choose|idx: int| 0 <= idx < m0.len() && m0[idx] == x;
                        if idx < j {
                            assert(m1[idx] == x);
                        } else {
                            assert(idx != j);
                            assert(m1[idx - 1] == x);
                        }
                    }
                }
            }
            return ;
        }
        j = j + 1;
    }
    proof {
        assert(!m0.contains(s@)) by {
            if m0.contains(s@) {
                let jj = choose|jj: int| 0 <= jj < m0.len() && m0[jj] == s@;
            }
        }
        assert(m0.to_set() =~= m0.to_set().remove(s@));
    }
}

/// The session tracker: the binding tree and the currently-held action
/// names.
pub struct ControlMason {
    pub key_tree: Tree,
    pub active: Vec<String>,
}

impl ControlMason {
    /// Well-formedness: the tree is well-formed and the active list carries
    /// no duplicate names.
    pub open spec fn wf(&self) -> bool {
        &&& self.key_tree.wf()
        &&& distinct_strs(names_of(self.active@))
    }

    /// The set of action names currently considered held.
    pub open spec fn active_set(&self) -> Set<Seq<char>> {
        names_of(self.active@).to_set()
    }

    /// Register a binding: insert (or find) the node holding `key` and bind
    /// `action` there.  Called once per configured binding, never during
    /// event handling.
    pub fn insert(&mut self, key: KeyState, action: String)
        requires
            old(self).wf(),
        ensures
            final(self).wf(),
            final(self).key_tree@ == spec_insert_binding(old(self).key_tree@, key, action@),
            final(self).active == old(self).active,
    {
        let node = self.key_tree.find_or_insert(key);
        self.key_tree.add_action(node, action);
    }

    /// Read one declarative key binding: build a pattern from the
    /// `(name, token)` attribute pairs of a configuration node and register
    /// it under `action`.  A rejected token is reported and nothing is
    /// inserted.
    pub fn read_key(&mut self, attrs: &Vec<(String, String)>, action: String) -> (r: Result<
        (),
        ConfigError,
    >)
        requires
            old(self).wf(),
        ensures
            final(self).wf(),
            match spec_pattern_fold(spec_default_binding_pattern(), attr_views(attrs@)) {
                Ok(p) => {
                    &&& r is Ok
                    &&& final(self).key_tree@ == spec_insert_binding(
                        old(self).key_tree@,
                        p,
                        action@,
                    )
                    &&& final(self).active == old(self).active
                },
                Err(e) => r == Err::<(), ConfigError>(e) && *final(self) == *old(self),
            },
    {
        match pattern_from_attrs(attrs) {
            Ok(p) => {
                self.insert(p, action);
                Ok(())
            },
            Err(e) => Err(e),
        }
    }

    /// Handle one concrete key event.
    ///
    /// Returns every action name bound across the maximal matches for the
    /// event, in discovery order.  A pressed event adds the returned names
    /// to the active set.  A released event re-queries with the state field
    /// forced to `Pressed` (modifiers as on the release event itself) and
    /// removes the names bound across those matches; nothing is added.
    pub fn handle_key(&mut self, key: KeyEvent) -> (fired: Vec<String>)
        requires
            old(self).wf(),
        ensures
            final(self).wf(),
            final(self).key_tree == old(self).key_tree,
            names_of(fired@) == spec_fired(old(self).key_tree@, key),
            key.state is Pressed ==> final(self).active_set() == old(self).active_set().union(
                spec_fired(old(self).key_tree@, key).to_set(),
            ),
            key.state is Released ==> final(self).active_set() == old(self).active_set().difference(
                spec_fired(old(self).key_tree@, spec_press(key)).to_set(),
            ),
    {
        let ghost t = self.key_tree@;
        let ghost active0 = self.active_set();
        let nearest = self.key_tree.all_nearest(&key);
        let ghost nm = nearest@.map_values(|u: usize| u as int);
        let mut fired: Vec<String> = Vec::new();
        let mut i: usize = 0;
        proof {
            assert(nm.take(0) =~= Seq::<int>::empty());
            assert(names_of(fired@) =~= fired_from(t, nm.take(0)));
        }
        while i < nearest.len()
            invariant
                self == old(self),
                t == self.key_tree@,
                tree_wf(t),
                nearest@.map_values(|u: usize| u as int) == nm,
                forall|j: int| 0 <= j < nearest@.len() ==> (#[trigger] nearest@[j]) < t.len(),
                i <= nearest@.len(),
                nm.len() == nearest@.len(),
                names_of(fired@) == fired_from(t, nm.take(i as int)),
            decreases nearest@.len() - i,
        {
            let n = nearest[i];
            proof {
                assert(nm[i as int] == n as int);
            }
            let acts = self.key_tree.actions_of(n);
            let ghost am = t[n as int].actions;
            let ghost fired_before = names_of(fired@);
            let mut j: usize = 0;
            while j < acts.len()
                invariant
                    j <= acts@.len(),
                    am == acts@.map_values(|s: String| s@),
                    am.len() == acts@.len(),
                    fired_before == names_of(fired@).take(fired_before.len() as int),
                    names_of(fired@) == fired_before + am.take(j as int),
                decreases acts@.len() - j,
            {
                let ghost fm = names_of(fired@);
                fired.push(acts[j].clone());
                proof {
                    assert(acts@[j as int]@ == am[j as int]);
                    assert(names_of(fired@) =~= fm.push(am[j as int]));
                    assert(names_of(fired@) =~= fired_before + am.take(j as int + 1));
                    assert(fired_before =~= names_of(fired@).take(fired_before.len() as int));
                }
                j = j + 1;
            }
            proof {
                assert(am.take(am.len() as int) =~= am);
                lemma_fired_from_snoc(t, nm, i as int);
                assert(names_of(fired@) == fired_from(t, nm.take(i as int + 1)));
            }
            i = i + 1;
        }
        proof {
            assert(nm.take(nm.len() as int) =~= nm);
            assert(names_of(fired@) == spec_fired(t, key));
        }
        let pressed = match key.state {
            ElementState::Pressed => true,
            ElementState::Released => false,
        };
        if pressed {
            let ghost fm = names_of(fired@);
            let mut j: usize = 0;
            proof {
                assert(fm.take(0) =~= Seq::<Seq<char>>::empty());
                assert(self.active_set() =~= active0.union(fm.take(0).to_set()));
            }
            while j < fired.len()
                invariant
                    j <= fired@.len(),
                    fm == names_of(fired@),
                    fm.len() == fired@.len(),
                    self.key_tree == old(self).key_tree,
                    distinct_strs(names_of(self.active@)),
                    self.active_set() == active0.union(fm.take(j as int).to_set()),
                decreases fired@.len() - j,
            {
                let ghost before = self.active_set();
                insert_unique(&mut self.active, fired[j].clone());
                proof {
                    assert(fm[j as int] == fired@[j as int]@);
                    assert(fm.take(j as int + 1) =~= fm.take(j as int).push(fm[j as int]));
                    lemma_names_push_contains(fm.take(j as int), fm[j as int]);
                    assert(self.active_set() =~= active0.union(fm.take(j as int + 1).to_set()));
                }
                j = j + 1;
            }
            proof {
                assert(fm.take(fm.len() as int) =~= fm);
            }
        } else {
            let synth = KeyEvent { state: ElementState::Pressed, ..key };
            proof {
                assert(synth == spec_press(key));
            }
            let nearest2 = self.key_tree.all_nearest(&synth);
            let ghost nm2 = nearest2@.map_values(|u: usize| u as int);
            let ghost goal = spec_fired(t, spec_press(key));
            let mut i2: usize = 0;
            proof {
                assert(nm2.take(0) =~= Seq::<int>::empty());
                assert(self.active_set() =~= active0.difference(
                    fired_from(t, nm2.take(0)).to_set(),
                ));
            }
            while i2 < nearest2.len()
                invariant
                    t == self.key_tree@,
                    self.key_tree == old(self).key_tree,
                    tree_wf(t),
                    nearest2@.map_values(|u: usize| u as int) == nm2,
                    forall|j: int| 0 <= j < nearest2@.len() ==> (#[trigger] nearest2@[j]) < t.len(),
                    i2 <= nearest2@.len(),
                    nm2.len() == nearest2@.len(),
                    distinct_strs(names_of(self.active@)),
                    self.active_set() == active0.difference(
                        fired_from(t, nm2.take(i2 as int)).to_set(),
                    ),
                decreases nearest2@.len() - i2,
            {
                let n = nearest2[i2];
                proof {
                    assert(nm2[i2 as int] == n as int);
                }
                let acts = self.key_tree.actions_of(n);
                let ghost am = t[n as int].actions;
                let ghost removed_before = fired_from(t, nm2.take(i2 as int));
                let mut j: usize = 0;
                while j < acts.len()
                    invariant
                        j <= acts@.len(),
                        am == acts@.map_values(|s: String| s@),
                        am.len() == acts@.len(),
                        t == self.key_tree@,
                        self.key_tree == old(self).key_tree,
                        distinct_strs(names_of(self.active@)),
                        self.active_set() == active0.difference(
                            (removed_before + am.take(j as int)).to_set(),
                        ),
                    decreases acts@.len() - j,
                {
                    remove_action(&mut self.active, &acts[j]);
                    proof {
                        assert(acts@[j as int]@ == am[j as int]);
                        assert(removed_before + am.take(j as int + 1) =~= (removed_before + am.take(
                            j as int,
                        )).push(am[j as int]));
                        lemma_names_push_contains(removed_before + am.take(j as int), am[j as int]);
                        assert(self.active_set() =~= active0.difference(
                            (removed_before + am.take(j as int + 1)).to_set(),
                        ));
                    }
                    j = j + 1;
                }
                proof {
                    assert(am.take(am.len() as int) =~= am);
                    lemma_fired_from_snoc(t, nm2, i2 as int);
                    assert(removed_before + am =~= fired_from(t, nm2.take(i2 as int + 1)));
                    assert(self.active_set() == active0.difference(
                        fired_from(t, nm2.take(i2 as int + 1)).to_set(),
                    ));
                }
                i2 = i2 + 1;
            }
            proof {
                assert(nm2.take(nm2.len() as int) =~= nm2);
                assert(self.active_set() == active0.difference(goal.to_set()));
            }
        }
        fired
    }
}

impl Default for ControlMason {
    /// A tracker with an empty binding tree (only the wildcard root) and an
    /// empty active set.
    fn default() -> (r: ControlMason)
        ensures
            r.wf(),
            r.key_tree@.len() == 1,
            r.key_tree@[0].actions == Seq::<Seq<char>>::empty(),
            r.active@ == Seq::<String>::empty(),
    {
        let r = ControlMason { key_tree: Tree::with_root(), active: Vec::new() };
        proof {
            assert(names_of(r.active@) =~= Seq::<Seq<char>>::empty());
        }
        r
    }
}

} // verus!

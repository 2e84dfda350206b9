//! Key-event patterns and the subsumption relation over them.
//!
//! A [`KeyState`] is a partially-specified filter over the attributes of a
//! key event: every field is optional, and `None` means "matches any value
//! of that field".  A [`KeyEvent`] is a fully concrete event as delivered by
//! the host windowing system (only the virtual key code may be absent).

use vstd::prelude::*;

verus! {

/// Whether a key was pushed down or let go.
#[derive(Clone, Copy, Debug, PartialEq, Eq, Structural)]
pub enum ElementState {
    Pressed,
    Released,
}

/// A partially-specified filter over key-event attributes.
///
/// `None` in any field is a wildcard: it matches every value of that field.
/// Two patterns are structurally equal iff all fields are pairwise equal,
/// wildcards included.
#[derive(Clone, Copy, Debug)]
pub struct KeyState {
    pub scancode: Option<u32>,
    pub state: Option<ElementState>,
    pub shift: Option<bool>,
    pub ctrl: Option<bool>,
    pub alt: Option<bool>,
    pub logo: Option<bool>,
    pub virtual_keycode: Option<u32>,
}

/// A concrete key event: every field is populated except that the host may
/// not know a virtual key code for the key.
#[derive(Clone, Copy, Debug)]
pub struct KeyEvent {
    pub scancode: u32,
    pub state: ElementState,
    pub shift: bool,
    pub ctrl: bool,
    pub alt: bool,
    pub logo: bool,
    pub virtual_keycode: Option<u32>,
}

/// Pattern `a` subsumes pattern `b`: wherever `a` is concrete, `b` carries
/// exactly the same value.  Wildcard fields of `a` impose no constraint.
pub open spec fn spec_subsumes(a: KeyState, b: KeyState) -> bool {
    &&& a.scancode is Some ==> a.scancode == b.scancode
    &&& a.state is Some ==> a.state == b.state
    &&& a.virtual_keycode is Some ==> a.virtual_keycode == b.virtual_keycode
    &&& a.shift is Some ==> a.shift == b.shift
    &&& a.ctrl is Some ==> a.ctrl == b.ctrl
    &&& a.alt is Some ==> a.alt == b.alt
    &&& a.logo is Some ==> a.logo == b.logo
}

/// Pattern `p` matches the concrete event `e`: every concrete field of `p`
/// equals the event's value; wildcard fields of `p` are a free pass.
pub open spec fn spec_matches(p: KeyState, e: KeyEvent) -> bool {
    &&& p.scancode is Some ==> p.scancode == Some(e.scancode)
    &&& p.state is Some ==> p.state == Some(e.state)
    &&& p.virtual_keycode is Some ==> p.virtual_keycode == e.virtual_keycode
    &&& p.shift is Some ==> p.shift == Some(e.shift)
    &&& p.ctrl is Some ==> p.ctrl == Some(e.ctrl)
    &&& p.alt is Some ==> p.alt == Some(e.alt)
    &&& p.logo is Some ==> p.logo == Some(e.logo)
}

/// The fully-wildcard pattern, which subsumes every pattern and matches
/// every event.
pub open spec fn spec_wildcard() -> KeyState {
    KeyState {
        scancode: None,
        state: None,
        shift: None,
        ctrl: None,
        alt: None,
        logo: None,
        virtual_keycode: None,
    }
}

/// The fully concrete pattern that describes exactly the event `e`.
pub open spec fn spec_pattern_of_event(e: KeyEvent) -> KeyState {
    KeyState {
        scancode: Some(e.scancode),
        state: Some(e.state),
        shift: Some(e.shift),
        ctrl: Some(e.ctrl),
        alt: Some(e.alt),
        logo: Some(e.logo),
        virtual_keycode: e.virtual_keycode,
    }
}

fn opt_u32_eq(a: &Option<u32>, b: &Option<u32>) -> (r: bool)
    ensures
        r == (*a == *b),
{
    match (a, b) {
        (None, None) => true,
        (Some(x), Some(y)) => x == y,
        _ => false,
    }
}

fn opt_bool_eq(a: &Option<bool>, b: &Option<bool>) -> (r: bool)
    ensures
        r == (*a == *b),
{
    match (a, b) {
        (None, None) => true,
        (Some(x), Some(y)) => x == y,
        _ => false,
    }
}

fn opt_state_eq(a: &Option<ElementState>, b: &Option<ElementState>) -> (r: bool)
    ensures
        r == (*a == *b),
{
    match (a, b) {
        (None, None) => true,
        (Some(x), Some(y)) => x == y,
        _ => false,
    }
}

impl KeyState {
    /// Structural equality: all fields pairwise equal, wildcards included.
    pub fn key_eq(&self, other: &KeyState) -> (r: bool)
        ensures
            r == (*self == *other),
    {
        opt_u32_eq(&self.scancode, &other.scancode)
            && opt_state_eq(&self.state, &other.state)
            && opt_u32_eq(&self.virtual_keycode, &other.virtual_keycode)
            && opt_bool_eq(&self.shift, &other.shift)
            && opt_bool_eq(&self.ctrl, &other.ctrl)
            && opt_bool_eq(&self.alt, &other.alt)
            && opt_bool_eq(&self.logo, &other.logo)
    }

    /// Field-wise subsumption test against another pattern.
    pub fn subsumes(&self, other: &KeyState) -> (r: bool)
        ensures
            r == spec_subsumes(*self, *other),
    {
        (self.scancode.is_none() || opt_u32_eq(&self.scancode, &other.scancode))
            && (self.state.is_none() || opt_state_eq(&self.state, &other.state))
            && (self.virtual_keycode.is_none()
                || opt_u32_eq(&self.virtual_keycode, &other.virtual_keycode))
            && (self.shift.is_none() || opt_bool_eq(&self.shift, &other.shift))
            && (self.ctrl.is_none() || opt_bool_eq(&self.ctrl, &other.ctrl))
            && (self.alt.is_none() || opt_bool_eq(&self.alt, &other.alt))
            && (self.logo.is_none() || opt_bool_eq(&self.logo, &other.logo))
    }

    /// Field-wise match test against a concrete key event.
    pub fn subsumes_event(&self, other: &KeyEvent) -> (r: bool)
        ensures
            r == spec_matches(*self, *other),
    {
        (self.scancode.is_none() || opt_u32_eq(&self.scancode, &Some(other.scancode)))
            && (self.state.is_none() || opt_state_eq(&self.state, &Some(other.state)))
            && (self.virtual_keycode.is_none()
                || opt_u32_eq(&self.virtual_keycode, &other.virtual_keycode))
            && (self.shift.is_none() || opt_bool_eq(&self.shift, &Some(other.shift)))
            && (self.ctrl.is_none() || opt_bool_eq(&self.ctrl, &Some(other.ctrl)))
            && (self.alt.is_none() || opt_bool_eq(&self.alt, &Some(other.alt)))
            && (self.logo.is_none() || opt_bool_eq(&self.logo, &Some(other.logo)))
    }
}

impl Default for KeyState {
    /// The fully-wildcard pattern.
    fn default() -> (r: KeyState)
        ensures
            r == spec_wildcard(),
    {
        KeyState {
            scancode: None,
            state: None,
            shift: None,
            ctrl: None,
            alt: None,
            logo: None,
            virtual_keycode: None,
        }
    }
}

/// Subsumption is reflexive.
pub proof fn lemma_subsumes_reflexive(a: KeyState)
    ensures
        spec_subsumes(a, a),
{
}

/// Subsumption is antisymmetric: mutual subsumption forces structural
/// equality.
pub proof fn lemma_subsumes_antisymmetric(a: KeyState, b: KeyState)
    requires
        spec_subsumes(a, b),
        spec_subsumes(b, a),
    ensures
        a == b,
{
}

/// Subsumption is transitive.
pub proof fn lemma_subsumes_transitive(a: KeyState, b: KeyState, c: KeyState)
    requires
        spec_subsumes(a, b),
        spec_subsumes(b, c),
    ensures
        spec_subsumes(a, c),
{
}

/// A pattern that subsumes another matches every event the latter matches.
pub proof fn lemma_subsumes_matches(a: KeyState, b: KeyState, e: KeyEvent)
    requires
        spec_subsumes(a, b),
        spec_matches(b, e),
    ensures
        spec_matches(a, e),
{
}

/// The fully-wildcard pattern subsumes every pattern.
pub proof fn lemma_wildcard_subsumes(b: KeyState)
    ensures
        spec_subsumes(spec_wildcard(), b),
{
}

/// The fully-wildcard pattern matches every event.
pub proof fn lemma_wildcard_matches(e: KeyEvent)
    ensures
        spec_matches(spec_wildcard(), e),
{
}

/// Matching an event is the same as subsuming the fully concrete pattern of
/// that event.
pub proof fn lemma_matches_is_subsumes_of_event(p: KeyState, e: KeyEvent)
    ensures
        spec_matches(p, e) == spec_subsumes(p, spec_pattern_of_event(e)),
{
}

} // verus!

//! Parsing of declarative binding attributes into pattern fields.
//!
//! Attribute values are textual tokens: `"*"` is the wildcard, button
//! states are `"pressed"`/`"released"` (case-insensitively), modifier flags
//! are `"true"`/`"false"` (case-insensitively), and scan codes are decimal
//! numbers.  A token that parses to no known value is reported as a
//! recoverable error, never inserted into the tree.

use vstd::prelude::*;

use crate::pattern::{ElementState, KeyState};

verus! {

/// Why a binding attribute was rejected.
#[derive(Clone, Copy, Debug, PartialEq, Eq, Structural)]
pub enum ConfigError {
    /// An attribute string does not parse to a known scan code, button
    /// state, or modifier boolean.
    MalformedToken,
    /// A selector is used where only literal tokens are understood (a
    /// non-wildcard virtual key code, for instance).
    UnsupportedSelector,
    /// A binding configuration omits the action name.
    MissingRequiredAttribute,
}

/// ASCII lowercase of one character; everything outside `'A'..='Z'` is
/// left alone.
pub open spec fn lower_char(c: char) -> char {
    if 'A' <= c && c <= 'Z' {
        ((c as u8) + 32) as char
    } else {
        c
    }
}

/// ASCII lowercase of a character sequence.
pub open spec fn lower_chars(s: Seq<char>) -> Seq<char> {
    s.map_values(|c: char| lower_char(c))
}

use vstd::string::is_ascii_spec_bytes;
use vstd::string::StrSliceExecFns;
use vstd::string::StringSliceAdditionalSpecFns;
use vstd::utf8::is_ascii_chars;

/// A sequence with a non-ASCII character never lowercases to an
/// all-ASCII sequence.
proof fn lemma_non_ascii_lower_ne(s: Seq<char>, lit: Seq<char>)
    requires
        !is_ascii_chars(s),
        is_ascii_chars(lit),
    ensures
        lower_chars(s) != lit,
{
    let i = choose|i: int| 0 <= i < s.len() && !('\0' <= #[trigger] s[i] <= '\u{7f}');
    if lower_chars(s) == lit {
        assert(lower_chars(s)[i] == lit[i]);
        assert(lower_char(s[i]) == s[i]);
    }
}

/// Case-insensitive comparison of `s` against an ASCII literal that is
/// already lowercase.
fn token_eq_lower(s: &str, lit: &str) -> (r: bool)
    requires
        is_ascii_chars(lit@),
        lower_chars(lit@) == lit@,
    ensures
        r == (lower_chars(s@) == lit@),
{
    if !s.is_ascii() {
        proof {
            lemma_non_ascii_lower_ne(s@, lit@);
        }
        return false;
    }
    let bs = s.as_bytes_vec();
    let bl = lit.as_bytes_vec();
    proof {
        is_ascii_spec_bytes(s);
        is_ascii_spec_bytes(lit);
        assert(bs@.len() == s@.len());
        assert(bl@.len() == lit@.len());
    }
    if bs.len() != bl.len() {
        proof {
            assert(lower_chars(s@).len() == s@.len());
        }
        return false;
    }
    let n = bs.len();
    let mut i: usize = 0;
    while i < n
        invariant
            is_ascii_chars(s@),
            is_ascii_chars(lit@),
            lower_chars(lit@) == lit@,
            s@.len() == n,
            lit@.len() == n,
            bs@.len() == n,
            bl@.len() == n,
            forall|k: int| 0 <= k < n ==> bs@[k] == s@[k] as u8 && bl@[k] == lit@[k] as u8,
            i <= n,
            forall|k: int| 0 <= k < i ==> lower_chars(s@)[k] == lit@[k],
        decreases n - i,
    {
        let a = bs[i];
        let b = bl[i];
        let la = if 65 <= a && a <= 90 {
            a + 32
        } else {
            a
        };
        proof {
            let c = s@[i as int];
            let d = lit@[i as int];
            assert('\0' <= c <= '\u{7f}');
            assert('\0' <= d <= '\u{7f}');
            assert(la == lower_char(c) as u8);
            assert(lower_char(c) <= '\u{7f}');
        }
        if la != b {
            proof {
                assert(lower_chars(s@)[i as int] != lit@[i as int]);
            }
            return false;
        }
        proof {
            assert(lower_chars(s@)[i as int] == lit@[i as int]);
        }
        i = i + 1;
    }
    proof {
        assert(lower_chars(s@) =~= lit@);
    }
    true
}

/// Exact comparison of `s` against an ASCII literal.
fn str_eq_ascii_lit(s: &str, lit: &str) -> (r: bool)
    requires
        is_ascii_chars(lit@),
    ensures
        r == (s@ == lit@),
{
    if !s.is_ascii() {
        proof {
            let i = choose|i: int| 0 <= i < s@.len() && !('\0' <= #[trigger] s@[i] <= '\u{7f}');
            if s@ == lit@ {
                assert('\0' <= lit@[i] <= '\u{7f}');
            }
        }
        return false;
    }
    let bs = s.as_bytes_vec();
    let bl = lit.as_bytes_vec();
    proof {
        is_ascii_spec_bytes(s);
        is_ascii_spec_bytes(lit);
        assert(bs@.len() == s@.len());
        assert(bl@.len() == lit@.len());
    }
    if bs.len() != bl.len() {
        return false;
    }
    let n = bs.len();
    let mut i: usize = 0;
    while i < n
        invariant
            is_ascii_chars(s@),
            is_ascii_chars(lit@),
            s@.len() == n,
            lit@.len() == n,
            bs@.len() == n,
            bl@.len() == n,
            forall|k: int| 0 <= k < n ==> bs@[k] == s@[k] as u8 && bl@[k] == lit@[k] as u8,
            i <= n,
            forall|k: int| 0 <= k < i ==> s@[k] == lit@[k],
        decreases n - i,
    {
        let a = bs[i];
        let b = bl[i];
        if a != b {
            proof {
                assert('\0' <= s@[i as int] <= '\u{7f}');
                assert('\0' <= lit@[i as int] <= '\u{7f}');
            }
            return false;
        }
        proof {
            assert('\0' <= s@[i as int] <= '\u{7f}');
            assert('\0' <= lit@[i as int] <= '\u{7f}');
            assert(s@[i as int] == lit@[i as int]);
        }
        i = i + 1;
    }
    proof {
        assert(s@ =~= lit@);
    }
    true
}

/// Result of parsing a button-state token: `"pressed"`, `"released"` or
/// the wildcard `"*"`, case-insensitively.
pub open spec fn spec_state_token(s: Seq<char>) -> Result<Option<ElementState>, ConfigError> {
    if lower_chars(s) == "pressed"@ {
        Ok(Some(ElementState::Pressed))
    } else if lower_chars(s) == "released"@ {
        Ok(Some(ElementState::Released))
    } else if lower_chars(s) == "*"@ {
        Ok(None)
    } else {
        Err(ConfigError::MalformedToken)
    }
}

/// Result of parsing a modifier token: `"true"`, `"false"` or the wildcard
/// `"*"`, case-insensitively.
pub open spec fn spec_modifier_token(s: Seq<char>) -> Result<Option<bool>, ConfigError> {
    if lower_chars(s) == "*"@ {
        Ok(None)
    } else if lower_chars(s) == "true"@ {
        Ok(Some(true))
    } else if lower_chars(s) == "false"@ {
        Ok(Some(false))
    } else {
        Err(ConfigError::MalformedToken)
    }
}

/// Result of parsing a virtual-key-code token: only the wildcard is
/// understood; any literal key name is an unsupported selector.
pub open spec fn spec_virtual_token(s: Seq<char>) -> Result<Option<u32>, ConfigError> {
    if lower_chars(s) == "*"@ {
        Ok(None)
    } else {
        Err(ConfigError::UnsupportedSelector)
    }
}

/// A decimal digit.
pub open spec fn is_dec_digit(c: char) -> bool {
    '0' <= c && c <= '9'
}

/// Whether every character of `s` is a decimal digit.
pub open spec fn all_dec_digits(s: Seq<char>) -> bool {
    forall|i: int| 0 <= i < s.len() ==> is_dec_digit(#[trigger] s[i])
}

/// The number denoted by a sequence of decimal digits, most significant
/// first.
pub open spec fn dec_value(s: Seq<char>) -> int
    decreases s.len(),
{
    if s.len() == 0 {
        0
    } else {
        dec_value(s.drop_last()) * 10 + (s.last() as u32 - ('0' as u32))
    }
}

/// The digit portion of a scan-code token: everything after an optional
/// leading plus sign.
pub open spec fn spec_digits_of(s: Seq<char>) -> Seq<char> {
    if s.len() > 0 && s[0] == '+' {
        s.drop_first()
    } else {
        s
    }
}

/// Result of parsing a scan-code token: the wildcard `"*"`, or a decimal
/// number (optionally preceded by a plus sign) that fits in 32 bits.
pub open spec fn spec_scan_token(s: Seq<char>) -> Result<Option<u32>, ConfigError> {
    if lower_chars(s) == "*"@ {
        Ok(None)
    } else {
        let d = spec_digits_of(s);
        if d.len() > 0 && all_dec_digits(d) && dec_value(d) <= u32::MAX {
            Ok(Some(dec_value(d) as u32))
        } else {
            Err(ConfigError::MalformedToken)
        }
    }
}

/// A digit string denotes a non-negative number.
proof fn lemma_dec_value_nonneg(s: Seq<char>)
    requires
        all_dec_digits(s),
    ensures
        dec_value(s) >= 0,
    decreases s.len(),
{
    if s.len() > 0 {
        assert forall|i: int| 0 <= i < s.drop_last().len() implies is_dec_digit(
            #[trigger] s.drop_last()[i],
        ) by {
            assert(s.drop_last()[i] == s[i]);
        }
        lemma_dec_value_nonneg(s.drop_last());
        assert(s[s.len() - 1] == s.last());
    }
}

/// A prefix of a digit string never denotes more than the whole string.
proof fn lemma_dec_prefix_bound(s: Seq<char>, j: int)
    requires
        all_dec_digits(s),
        0 <= j <= s.len(),
    ensures
        dec_value(s.take(j)) <= dec_value(s),
    decreases s.len() - j,
{
    if j == s.len() {
        assert(s.take(j) =~= s);
    } else {
        assert forall|i: int| 0 <= i < s.take(j).len() implies is_dec_digit(
            #[trigger] s.take(j)[i],
        ) by {
            assert(s.take(j)[i] == s[i]);
        }
        lemma_dec_value_nonneg(s.take(j));
        assert(s.take(j + 1).drop_last() =~= s.take(j));
        assert(s.take(j + 1).last() == s[j]);
        assert(dec_value(s.take(j + 1)) == dec_value(s.take(j)) * 10 + (s[j] as u32 - ('0'
            as u32)));
        assert(is_dec_digit(s[j]));
        lemma_dec_prefix_bound(s, j + 1);
    }
}

/// Shared facts about the literal tokens and attribute names understood by
/// the parser: they are ASCII, and the value tokens are already lowercase.
proof fn lemma_config_literals()
    ensures
        is_ascii_chars("pressed"@),
        lower_chars("pressed"@) == "pressed"@,
        is_ascii_chars("released"@),
        lower_chars("released"@) == "released"@,
        is_ascii_chars("true"@),
        lower_chars("true"@) == "true"@,
        is_ascii_chars("false"@),
        lower_chars("false"@) == "false"@,
        is_ascii_chars("*"@),
        lower_chars("*"@) == "*"@,
        is_ascii_chars("state"@),
        is_ascii_chars("scan"@),
        is_ascii_chars("virtual"@),
        is_ascii_chars("shift"@),
        is_ascii_chars("ctrl"@),
        is_ascii_chars("alt"@),
        is_ascii_chars("logo"@),
{
    reveal_strlit("pressed");
    reveal_strlit("released");
    reveal_strlit("true");
    reveal_strlit("false");
    reveal_strlit("*");
    reveal_strlit("state");
    reveal_strlit("scan");
    reveal_strlit("virtual");
    reveal_strlit("shift");
    reveal_strlit("ctrl");
    reveal_strlit("alt");
    reveal_strlit("logo");
    assert(lower_chars("pressed"@) =~= "pressed"@);
    assert(lower_chars("released"@) =~= "released"@);
    assert(lower_chars("true"@) =~= "true"@);
    assert(lower_chars("false"@) =~= "false"@);
    assert(lower_chars("*"@) =~= "*"@);
}

/// Parse a button-state token.
pub fn state_from_token(s: &str) -> (r: Result<Option<ElementState>, ConfigError>)
    ensures
        r == spec_state_token(s@),
{
    proof {
        lemma_config_literals();
    }
    if token_eq_lower(s, "pressed") {
        Ok(Some(ElementState::Pressed))
    } else if token_eq_lower(s, "released") {
        Ok(Some(ElementState::Released))
    } else if token_eq_lower(s, "*") {
        Ok(None)
    } else {
        Err(ConfigError::MalformedToken)
    }
}

/// Parse a modifier-flag token.
pub fn modifier_from_token(s: &str) -> (r: Result<Option<bool>, ConfigError>)
    ensures
        r == spec_modifier_token(s@),
{
    proof {
        lemma_config_literals();
    }
    if token_eq_lower(s, "*") {
        Ok(None)
    } else if token_eq_lower(s, "true") {
        Ok(Some(true))
    } else if token_eq_lower(s, "false") {
        Ok(Some(false))
    } else {
        Err(ConfigError::MalformedToken)
    }
}

/// Parse a virtual-key-code token.
pub fn virtual_from_token(s: &str) -> (r: Result<Option<u32>, ConfigError>)
    ensures
        r == spec_virtual_token(s@),
{
    proof {
        lemma_config_literals();
    }
    if token_eq_lower(s, "*") {
        Ok(None)
    } else {
        Err(ConfigError::UnsupportedSelector)
    }
}

/// Parse a scan-code token.
pub fn scan_from_token(s: &str) -> (r: Result<Option<u32>, ConfigError>)
    ensures
        r == spec_scan_token(s@),
{
    proof {
        lemma_config_literals();
    }
    if token_eq_lower(s, "*") {
        return Ok(None);
    }
    let ghost d = spec_digits_of(s@);
    if !s.is_ascii() {
        proof {
            let i = choose|i: int| 0 <= i < s@.len() && !('\0' <= #[trigger] s@[i] <= '\u{7f}');
            if s@.len() > 0 && s@[0] == '+' {
                assert(i != 0);
                assert(d[i - 1] == s@[i]);
                assert(!is_dec_digit(d[i - 1]));
            } else {
                assert(!is_dec_digit(d[i]));
            }
        }
        return Err(ConfigError::MalformedToken);
    }
    let bs = s.as_bytes_vec();
    proof {
        is_ascii_spec_bytes(s);
        assert(bs@.len() == s@.len());
    }
    let n = bs.len();
    if n == 0 {
        return Err(ConfigError::MalformedToken);
    }
    let mut start: usize = 0;
    if bs[0] == 43 {
        start = 1;
        proof {
            assert(s@[0] as u8 == 43);
            assert('\0' <= s@[0] <= '\u{7f}');
            assert(s@[0] == '+');
            assert(d =~= s@.skip(1));
        }
    } else {
        proof {
            assert(s@[0] as u8 != 43);
            assert(s@[0] != '+');
            assert(d =~= s@.skip(0));
        }
    }
    if start == n {
        proof {
            assert(d.len() == 0);
        }
        return Err(ConfigError::MalformedToken);
    }
    let mut val: u32 = 0;
    let mut i: usize = start;
    proof {
        assert(d.take(0) =~= Seq::<char>::empty());
    }
    while i < n
        invariant
            is_ascii_chars(s@),
            s@.len() == n,
            bs@.len() == n,
            forall|k: int| 0 <= k < n ==> bs@[k] == s@[k] as u8,
            d == spec_digits_of(s@),
            d =~= s@.skip(start as int),
            start <= i <= n,
            start <= 1,
            d.len() == n - start,
            lower_chars(s@) != "*"@,
            all_dec_digits(d.take(i - start as int)),
            val == dec_value(d.take(i - start as int)),
        decreases n - i,
    {
        let ghost k = i - start as int;
        let c = bs[i];
        proof {
            assert(d[k] == s@[i as int]);
            assert('\0' <= s@[i as int] <= '\u{7f}');
        }
        if c < 48 || c > 57 {
            proof {
                assert(!is_dec_digit(d[k]));
                assert(!all_dec_digits(d));
            }
            return Err(ConfigError::MalformedToken);
        }
        let digit = (c - 48) as u32;
        proof {
            assert(is_dec_digit(d[k]));
            assert(digit == d[k] as u32 - ('0' as u32));
            assert(d.take(k + 1).drop_last() =~= d.take(k));
            assert(d.take(k + 1).last() == d[k]);
            assert(dec_value(d.take(k + 1)) == dec_value(d.take(k)) * 10 + digit);
            assert forall|kk: int| 0 <= kk < d.take(k + 1).len() implies is_dec_digit(
                #[trigger] d.take(k + 1)[kk],
            ) by {
                assert(d.take(k + 1)[kk] == d.take(k).push(d[k])[kk]);
                if kk < k {
                    assert(d.take(k + 1)[kk] == d.take(k)[kk]);
                }
            }
        }
        if val > (u32::MAX - digit) / 10 {
            proof {
                assert(dec_value(d.take(k + 1)) > u32::MAX) by {
                    assert(val >= (u32::MAX - digit) / 10 + 1);
                    assert(((u32::MAX - digit) / 10) * 10 + (u32::MAX - digit) % 10 == u32::MAX
                        - digit);
                }
                if all_dec_digits(d) {
                    lemma_dec_prefix_bound(d, k + 1);
                    assert(dec_value(d) > u32::MAX);
                }
            }
            return Err(ConfigError::MalformedToken);
        }
        proof {
            assert(val * 10 + digit <= u32::MAX) by {
                assert(val <= (u32::MAX - digit) / 10);
                assert(((u32::MAX - digit) / 10) * 10 + (u32::MAX - digit) % 10 == u32::MAX
                    - digit);
            }
        }
        val = val * 10 + digit;
        i = i + 1;
    }
    proof {
        assert(d.take(n - start as int) =~= d);
        assert(all_dec_digits(d));
        assert(d.len() > 0);
        assert(dec_value(d) == val);
        assert(spec_scan_token(s@) == Ok::<Option<u32>, ConfigError>(Some(val)));
    }
    Ok(Some(val))
}

/// One attribute applied to a partially-built pattern: recognised names
/// set the corresponding field from their parsed token, unknown names are
/// ignored.
pub open spec fn spec_apply_attr(p: KeyState, k: Seq<char>, v: Seq<char>) -> Result<
    KeyState,
    ConfigError,
> {
    if k == "state"@ {
        match spec_state_token(v) {
            Ok(x) => Ok(KeyState { state: x, ..p }),
            Err(e) => Err(e),
        }
    } else if k == "scan"@ {
        match spec_scan_token(v) {
            Ok(x) => Ok(KeyState { scancode: x, ..p }),
            Err(e) => Err(e),
        }
    } else if k == "virtual"@ {
        match spec_virtual_token(v) {
            Ok(x) => Ok(KeyState { virtual_keycode: x, ..p }),
            Err(e) => Err(e),
        }
    } else if k == "shift"@ {
        match spec_modifier_token(v) {
            Ok(x) => Ok(KeyState { shift: x, ..p }),
            Err(e) => Err(e),
        }
    } else if k == "ctrl"@ {
        match spec_modifier_token(v) {
            Ok(x) => Ok(KeyState { ctrl: x, ..p }),
            Err(e) => Err(e),
        }
    } else if k == "alt"@ {
        match spec_modifier_token(v) {
            Ok(x) => Ok(KeyState { alt: x, ..p }),
            Err(e) => Err(e),
        }
    } else if k == "logo"@ {
        match spec_modifier_token(v) {
            Ok(x) => Ok(KeyState { logo: x, ..p }),
            Err(e) => Err(e),
        }
    } else {
        Ok(p)
    }
}

/// All attributes applied in order to a partially-built pattern, stopping
/// at the first rejected token.
pub open spec fn spec_pattern_fold(p: KeyState, attrs: Seq<(Seq<char>, Seq<char>)>) -> Result<
    KeyState,
    ConfigError,
>
    decreases attrs.len(),
{
    if attrs.len() == 0 {
        Ok(p)
    } else {
        match spec_apply_attr(p, attrs[0].0, attrs[0].1) {
            Ok(p2) => spec_pattern_fold(p2, attrs.drop_first()),
            Err(e) => Err(e),
        }
    }
}

/// The pattern a binding starts from before its attributes are read:
/// pressed state, no modifiers, any scan code, any virtual key code.
pub open spec fn spec_default_binding_pattern() -> KeyState {
    KeyState {
        scancode: None,
        state: Some(ElementState::Pressed),
        shift: Some(false),
        ctrl: Some(false),
        alt: Some(false),
        logo: Some(false),
        virtual_keycode: None,
    }
}

/// The views of a list of attribute pairs.
pub open spec fn attr_views(attrs: Seq<(String, String)>) -> Seq<(Seq<char>, Seq<char>)> {
    attrs.map_values(|pr: (String, String)| (pr.0@, pr.1@))
}

/// Build a key pattern from `(name, token)` attribute pairs, starting from
/// the default binding pattern and rejecting the first malformed token.
pub fn pattern_from_attrs(attrs: &Vec<(String, String)>) -> (r: Result<KeyState, ConfigError>)
    ensures
        r == spec_pattern_fold(spec_default_binding_pattern(), attr_views(attrs@)),
{
    proof {
        lemma_config_literals();
    }
    let ghost views = attr_views(attrs@);
    let mut p = KeyState {
        scancode: None,
        state: Some(ElementState::Pressed),
        shift: Some(false),
        ctrl: Some(false),
        alt: Some(false),
        logo: Some(false),
        virtual_keycode: None,
    };
    let mut i: usize = 0;
    proof {
        assert(views.skip(0) =~= views);
    }
    while i < attrs.len()
        invariant
            views == attr_views(attrs@),
            views.len() == attrs@.len(),
            i <= attrs@.len(),
            spec_pattern_fold(spec_default_binding_pattern(), views) == spec_pattern_fold(
                p,
                views.skip(i as int),
            ),
        decreases attrs@.len() - i,
    {
        let ghost rest = views.skip(i as int);
        proof {
            lemma_config_literals();
            assert(rest[0] == views[i as int]);
            assert(views[i as int] == (attrs@[i as int].0@, attrs@[i as int].1@));
            assert(rest.drop_first() =~= views.skip(i as int + 1));
        }
        let k = &attrs[i].0;
        let v = &attrs[i].1;
        if str_eq_ascii_lit(k.as_str(), "state") {
            match state_from_token(v.as_str()) {
                Ok(x) => {
                    p.state = x;
                },
                Err(e) => {
                    return Err(e);
                },
            }
        } else if str_eq_ascii_lit(k.as_str(), "scan") {
            match scan_from_token(v.as_str()) {
                Ok(x) => {
                    p.scancode = x;
                },
                Err(e) => {
                    return Err(e);
                },
            }
        } else if str_eq_ascii_lit(k.as_str(), "virtual") {
            match virtual_from_token(v.as_str()) {
                Ok(x) => {
                    p.virtual_keycode = x;
                },
                Err(e) => {
                    return Err(e);
                },
            }
        } else if str_eq_ascii_lit(k.as_str(), "shift") {
            match modifier_from_token(v.as_str()) {
                Ok(x) => {
                    p.shift = x;
                },
                Err(e) => {
                    return Err(e);
                },
            }
        } else if str_eq_ascii_lit(k.as_str(), "ctrl") {
            match modifier_from_token(v.as_str()) {
                Ok(x) => {
                    p.ctrl = x;
                },
                Err(e) => {
                    return Err(e);
                },
            }
        } else if str_eq_ascii_lit(k.as_str(), "alt") {
            match modifier_from_token(v.as_str()) {
                Ok(x) => {
                    p.alt = x;
                },
                Err(e) => {
                    return Err(e);
                },
            }
        } else if str_eq_ascii_lit(k.as_str(), "logo") {
            match modifier_from_token(v.as_str()) {
                Ok(x) => {
                    p.logo = x;
                },
                Err(e) => {
                    return Err(e);
                },
            }
        }
        i = i + 1;
    }
    proof {
        assert(views.skip(views.len() as int) =~= Seq::<(Seq<char>, Seq<char>)>::empty());
    }
    Ok(p)
}

} // verus!

//! Name sanitization: maps a raw file or symbol name (a byte string) to a
//! canonical identifier that is safe to emit in DOT output, or rejects it.
//!
//! Rules, in order: reject the empty name, the exact global-offset-table
//! artifact, anonymous constant-pool labels (`.LC...`) and names carrying the
//! reserved leading-underscore prefix; then drop a trailing `.o`, keep only
//! the basename, and replace `-` and `.` (both structural in DOT) by `_`.
//!
//! The number of leading underscores that counts as reserved is an explicit
//! policy value (at least 1), since linker conventions differ on whether one
//! or two leading underscores mark a reserved name.

use vstd::prelude::*;

verus! {

/// ASCII byte values the sanitizer's rules are stated over.
pub const B_UNDERSCORE: u8 = 95;

pub const B_SLASH: u8 = 47;

pub const B_DOT: u8 = 46;

pub const B_DASH: u8 = 45;

pub const B_LOWER_O: u8 = 111;

pub const B_UPPER_L: u8 = 76;

pub const B_UPPER_C: u8 = 67;


/// The exact byte string of the global-offset-table linker artifact,
/// `_GLOBAL_OFFSET_TABLE_`.
pub open spec fn got_name() -> Seq<u8> {
    seq![
        B_UNDERSCORE, 71, B_UPPER_L, 79, 66, 65, B_UPPER_L, B_UNDERSCORE, 79, 70, 70, 83, 69, 84, B_UNDERSCORE,
        84, 65, 66, B_UPPER_L, 69, B_UNDERSCORE,
    ]
}

/// Index just after the last `/` in `v`, or 0 when `v` has none.
pub open spec fn basename_start(v: Seq<u8>) -> int
    decreases v.len(),
{
    if v.len() == 0 {
        0
    } else if v[v.len() - 1] == B_SLASH {
        v.len() as int
    } else {
        basename_start(v.subrange(0, v.len() - 1))
    }
}

/// Index just before a trailing `.o` suffix, or the length when there is none.
pub open spec fn trimmed_end(v: Seq<u8>) -> int {
    if v.len() >= 2 && v[v.len() - 2] == B_DOT && v[v.len() - 1] == B_LOWER_O {
        v.len() - 2
    } else {
        v.len() as int
    }
}

/// DOT uses `-` and `.` as structural characters; both become `_`.
pub open spec fn replace_byte(b: u8) -> u8 {
    if b == B_DASH || b == B_DOT {
        B_UNDERSCORE
    } else {
        b
    }
}

/// `s` with every `-` and `.` replaced by `_`.
pub open spec fn replace_all(s: Seq<u8>) -> Seq<u8> {
    Seq::new(s.len(), |i: int| replace_byte(s[i]))
}

/// A raw name is rejected when it is empty, is the global-offset-table
/// artifact, is an anonymous constant-pool label, or begins with `reserved`
/// underscores.
pub open spec fn is_rejected(v: Seq<u8>, reserved: int) -> bool {
    ||| v.len() == 0
    ||| v == got_name()
    ||| (v.len() >= 3 && v[0] == B_DOT && v[1] == B_UPPER_L && v[2] == B_UPPER_C)
    ||| (v.len() >= reserved && (forall|i: int| 0 <= i < reserved ==> v[i] == B_UNDERSCORE))
}

/// Canonical form of an accepted name: drop a trailing `.o`, keep only the
/// basename, replace `-` and `.` by `_`.
pub open spec fn canonical_form(v: Seq<u8>) -> Seq<u8> {
    replace_all(v.subrange(basename_start(v), trimmed_end(v)))
}

/// The whole sanitizer: `None` when the name is rejected, otherwise its
/// canonical form.
pub open spec fn sanitize_spec(v: Seq<u8>, reserved: int) -> Option<Seq<u8>> {
    if is_rejected(v, reserved) {
        None
    } else {
        Some(canonical_form(v))
    }
}

/// `basename_start` points just after a `/`, and no `/` follows it.
pub proof fn lemma_basename_start_props(v: Seq<u8>)
    ensures
        0 <= basename_start(v) <= v.len(),
        basename_start(v) == 0 || v[basename_start(v) - 1] == B_SLASH,
        forall|j: int| basename_start(v) <= j < v.len() ==> v[j] != B_SLASH,
        basename_start(v) <= trimmed_end(v),
    decreases v.len(),
{
    if v.len() == 0 {
    } else if v[v.len() - 1] == B_SLASH {
    } else {
        let pre = v.subrange(0, v.len() - 1);
        lemma_basename_start_props(pre);
        assert forall|j: int| basename_start(v) <= j < v.len() implies v[j] != B_SLASH by {
            if j < v.len() - 1 {
                assert(v[j] == pre[j]);
            }
        }
        if basename_start(v) > 0 {
            assert(v[basename_start(v) - 1] == pre[basename_start(v) - 1]);
        }
    }
    if trimmed_end(v) < v.len() && basename_start(v) > trimmed_end(v) {
        assert(v[basename_start(v) - 1] == B_SLASH);
        assert(basename_start(v) - 1 == v.len() - 2 || basename_start(v) - 1 == v.len() - 1);
        assert(false);
    }
}

/// The two characterizing properties pin `basename_start` down uniquely.
pub proof fn lemma_basename_start_unique(v: Seq<u8>, s: int)
    requires
        0 <= s <= v.len(),
        s == 0 || v[s - 1] == B_SLASH,
        forall|j: int| s <= j < v.len() ==> v[j] != B_SLASH,
    ensures
        basename_start(v) == s,
{
    lemma_basename_start_props(v);
    let bs = basename_start(v);
    if bs < s {
        assert(v[s - 1] != B_SLASH);
        assert(false);
    }
    if bs > s {
        assert(v[bs - 1] != B_SLASH);
        assert(false);
    }
}

/// Byte-vector equality, decided element by element.
pub(crate) fn bytes_eq(a: &Vec<u8>, b: &Vec<u8>) -> (r: bool)
    ensures
        r == (a@ == b@),
{
    if a.len() != b.len() {
        return false;
    }
    let mut i: usize = 0;
    while i < a.len()
        invariant
            i <= a.len(),
            a@.len() == b@.len(),
            forall|j: int| 0 <= j < i ==> a@[j] == b@[j],
        decreases a.len() - i,
    {
        if a[i] != b[i] {
            return false;
        }
        i += 1;
    }
    proof {
        assert(a@ =~= b@);
    }
    true
}

/// The global-offset-table name as a concrete byte vector.
fn got_vec() -> (r: Vec<u8>)
    ensures
        r@ == got_name(),
{
    let mut g: Vec<u8> = Vec::new();
    g.push(B_UNDERSCORE);
    g.push(71);
    g.push(B_UPPER_L);
    g.push(79);
    g.push(66);
    g.push(65);
    g.push(B_UPPER_L);
    g.push(B_UNDERSCORE);
    g.push(79);
    g.push(70);
    g.push(70);
    g.push(83);
    g.push(69);
    g.push(84);
    g.push(B_UNDERSCORE);
    g.push(84);
    g.push(65);
    g.push(66);
    g.push(B_UPPER_L);
    g.push(69);
    g.push(B_UNDERSCORE);
    proof {
        assert(g@ =~= got_name());
    }
    g
}

/// Sanitize a raw name under the given reserved-underscore policy: `None`
/// when the name is rejected, otherwise its canonical DOT-safe form.
pub fn mangle_as_valid_dot_name(v: &Vec<u8>, reserved: usize) -> (r: Option<Vec<u8>>)
    requires
        reserved >= 1,
    ensures
        (r is None) == is_rejected(v@, reserved as int),
        r matches Some(out) ==> out@ == canonical_form(v@),
{
    let n = v.len();
    if n == 0 {
        return None;
    }
    let got = got_vec();
    if bytes_eq(v, &got) {
        return None;
    }
    if n >= 3 && v[0] == B_DOT && v[1] == B_UPPER_L && v[2] == B_UPPER_C {
        return None;
    }
    if reserved <= n {
        let mut i: usize = 0;
        let mut all_u: bool = true;
        while i < reserved
            invariant
                i <= reserved,
                reserved <= n,
                n == v@.len(),
                all_u == (forall|j: int| 0 <= j < i ==> v@[j] == B_UNDERSCORE),
            decreases reserved - i,
        {
            if v[i] != B_UNDERSCORE {
                all_u = false;
            }
            i += 1;
        }
        if all_u {
            return None;
        }
    }
    assert(!is_rejected(v@, reserved as int));

    // end of the kept range: a trailing ".o" is dropped
    let end: usize = if n >= 2 && v[n - 2] == B_DOT && v[n - 1] == B_LOWER_O {
        n - 2
    } else {
        n
    };
    assert(end as int == trimmed_end(v@));

    // start of the kept range: just after the last '/'
    let mut start: usize = 0;
    let mut i: usize = 0;
    while i < n
        invariant
            i <= n,
            n == v@.len(),
            start <= i,
            start == 0 || v@[start - 1] == B_SLASH,
            forall|j: int| start <= j < i ==> v@[j] != B_SLASH,
        decreases n - i,
    {
        if v[i] == B_SLASH {
            start = i + 1;
        }
        i += 1;
    }
    proof {
        lemma_basename_start_unique(v@, start as int);
        if end < n && start > end {
            assert(v@[start - 1] == B_SLASH);
            assert(false);
        }
    }

    let mut out: Vec<u8> = Vec::new();
    let mut j: usize = start;
    while j < end
        invariant
            start <= j <= end,
            end <= n,
            n == v@.len(),
            out@ == replace_all(v@.subrange(start as int, j as int)),
        decreases end - j,
    {
        let b = v[j];
        if b == B_DASH || b == B_DOT {
            out.push(B_UNDERSCORE);
        } else {
            out.push(b);
        }
        proof {
            assert(out@ =~= replace_all(v@.subrange(start as int, j + 1)));
        }
        j += 1;
    }
    proof {
        assert(out@ =~= canonical_form(v@));
    }
    Some(out)
}

/// The sanitizer is a pure function of its input: equal names under equal
/// policies always sanitize identically.
pub proof fn lemma_sanitizer_deterministic(a: Seq<u8>, b: Seq<u8>, reserved: int)
    requires
        a == b,
    ensures
        sanitize_spec(a, reserved) == sanitize_spec(b, reserved),
{
}

/// The rejection set: the empty name, the global-offset-table artifact,
/// every `.LC`-prefixed constant-pool label and every name carrying the
/// reserved underscore prefix are always rejected.
pub proof fn lemma_rejection_set(s: Seq<u8>, reserved: int)
    ensures
        sanitize_spec(Seq::<u8>::empty(), reserved) is None,
        sanitize_spec(got_name(), reserved) is None,
        s.len() >= 3 && s[0] == B_DOT && s[1] == B_UPPER_L && s[2] == B_UPPER_C ==> sanitize_spec(
            s,
            reserved,
        ) is None,
        s.len() >= reserved && (forall|i: int| 0 <= i < reserved ==> s[i] == B_UNDERSCORE)
            ==> sanitize_spec(s, reserved) is None,
{
}

} // verus!

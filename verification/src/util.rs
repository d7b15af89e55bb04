//! Small shared helpers: whitespace tests on strings, and the two
//! identity-and-time sources the daemon draws from its surroundings.
use vstd::prelude::*;

verus! {

/// The characters with Unicode's `White_Space` property.
pub open spec fn is_ws_char(c: char) -> bool {
    c == ' ' || c == '\t' || c == '\n' || c == '\r' || c == '\u{b}' || c == '\u{c}' || c
        == '\u{85}' || c == '\u{a0}' || c == '\u{1680}' || (0x2000 <= (c as u32) && (c as u32)
        <= 0x200a) || c == '\u{2028}' || c == '\u{2029}' || c == '\u{202f}' || c == '\u{205f}' || c
        == '\u{3000}'
}

/// Empty or whitespace-only.
pub open spec fn blank(s: Seq<char>) -> bool {
    forall|i: int| 0 <= i < s.len() ==> is_ws_char(#[trigger] s[i])
}

/// Whether one character is whitespace.
pub fn is_ws(c: char) -> (r: bool)
    ensures
        r == is_ws_char(c),
{
    c == ' ' || c == '\t' || c == '\n' || c == '\r' || c == '\u{b}' || c == '\u{c}' || c
        == '\u{85}' || c == '\u{a0}' || c == '\u{1680}' || (0x2000 <= (c as u32) && (c as u32)
        <= 0x200a) || c == '\u{2028}' || c == '\u{2029}' || c == '\u{202f}' || c == '\u{205f}' || c
        == '\u{3000}'
}

/// Whether a string is empty or consists of whitespace only.
pub fn is_blank(s: &str) -> (r: bool)
    ensures
        r == blank(s@),
{
    let n = s.unicode_len();
    let mut i: usize = 0;
    while i < n
        invariant
            i <= n,
            n == s@.len(),
            forall|j: int| 0 <= j < i ==> is_ws_char(#[trigger] s@[j]),
        decreases n - i,
    {
        let c = s.get_char(i);
        if !is_ws(c) {
            return false;
        }
        i = i + 1;
    }
    true
}

/// Whether two strings hold the same characters.
pub fn str_eq(a: &str, b: &str) -> (r: bool)
    ensures
        r == (a@ == b@),
{
    let alen = a.unicode_len();
    let blen = b.unicode_len();
    if alen != blen {
        proof {
            if a@ == b@ {
                assert(a@.len() == b@.len());
            }
        }
        return false;
    }
    let mut i: usize = 0;
    while i < alen
        invariant
            i <= alen,
            alen == a@.len(),
            blen == b@.len(),
            alen == blen,
            forall|j: int| 0 <= j < i ==> a@[j] == b@[j],
        decreases alen - i,
    {
        if a.get_char(i) != b.get_char(i) {
            proof {
                if a@ == b@ {
                    assert(a@[i as int] == b@[i as int]);
                }
            }
            return false;
        }
        i = i + 1;
    }
    proof {
        assert(a@ =~= b@);
    }
    true
}


/// The ASCII-lowercased scalar value of a character.
pub open spec fn lower_u(c: char) -> u32 {
    if 65 <= (c as u32) && (c as u32) <= 90 {
        ((c as u32) + 32) as u32
    } else {
        c as u32
    }
}

/// Case-insensitive (ASCII) string equality.
pub open spec fn eq_ignore_ascii(a: Seq<char>, b: Seq<char>) -> bool {
    a.len() == b.len() && forall|i: int| 0 <= i < a.len() ==> lower_u(#[trigger] a[i]) == lower_u(b[i])
}

/// Whether two strings are equal up to ASCII case.
pub fn str_eq_ignore_ascii_case(a: &str, b: &str) -> (r: bool)
    ensures
        r == eq_ignore_ascii(a@, b@),
{
    let alen = a.unicode_len();
    let blen = b.unicode_len();
    if alen != blen {
        return false;
    }
    let mut i: usize = 0;
    while i < alen
        invariant
            i <= alen,
            alen == a@.len(),
            blen == b@.len(),
            alen == blen,
            forall|j: int| 0 <= j < i ==> lower_u(#[trigger] a@[j]) == lower_u(b@[j]),
        decreases alen - i,
    {
        let ca = a.get_char(i);
        let cb = b.get_char(i);
        let la: u32 = if 65 <= (ca as u32) && (ca as u32) <= 90 {
            (ca as u32) + 32
        } else {
            ca as u32
        };
        let lb: u32 = if 65 <= (cb as u32) && (cb as u32) <= 90 {
            (cb as u32) + 32
        } else {
            cb as u32
        };
        if la != lb {
            return false;
        }
        i = i + 1;
    }
    true
}

/// Whether `needle` occurs as a contiguous run of `hay`.
pub open spec fn contains_sub(hay: Seq<char>, needle: Seq<char>) -> bool {
    exists|k: int|
        0 <= k <= hay.len() - needle.len() && #[trigger] hay.subrange(k, k + needle.len() as int)
            == needle
}

/// Whether `needle` occurs at position `k` of `hay`.
fn matches_at(hay: &str, needle: &str, k: usize) -> (r: bool)
    requires
        k + needle@.len() <= hay@.len(),
    ensures
        r == (hay@.subrange(k as int, k + needle@.len() as int) == needle@),
{
    let n = needle.unicode_len();
    let h = hay.unicode_len();
    let mut j: usize = 0;
    while j < n
        invariant
            j <= n,
            n == needle@.len(),
            h == hay@.len(),
            k + n <= h,
            forall|j2: int| 0 <= j2 < j ==> hay@[k + j2] == needle@[j2],
        decreases n - j,
    {
        if hay.get_char(k + j) != needle.get_char(j) {
            proof {
                if hay@.subrange(k as int, k + needle@.len() as int) == needle@ {
                    assert(hay@.subrange(k as int, k + needle@.len() as int)[j as int] == hay@[k
                        + j]);
                }
            }
            return false;
        }
        j = j + 1;
    }
    proof {
        assert(hay@.subrange(k as int, k + needle@.len() as int) =~= needle@);
    }
    true
}

/// Substring search.
#[verifier::loop_isolation(false)]
pub fn str_contains(hay: &str, needle: &str) -> (r: bool)
    ensures
        r == contains_sub(hay@, needle@),
{
    let h = hay.unicode_len();
    let n = needle.unicode_len();
    if n > h {
        return false;
    }
    let bound = h - n;
    let mut k: usize = 0;
    loop
        invariant
            k <= bound,
            forall|k2: int|
                0 <= k2 < k ==> #[trigger] hay@.subrange(k2, k2 + needle@.len() as int)
                    != needle@,
        decreases bound - k,
    {
        if matches_at(hay, needle, k) {
            return true;
        }
        proof {
            assert(hay@.subrange(k as int, k + needle@.len() as int) != needle@);
        }
        if k == bound {
            proof {
                if contains_sub(hay@, needle@) {
                    let w = choose|w: int|
                        0 <= w <= hay@.len() - needle@.len() && #[trigger] hay@.subrange(
                            w,
                            w + needle@.len() as int,
                        ) == needle@;
                    if w < k {
                        assert(hay@.subrange(w, w + needle@.len() as int) != needle@);
                    }
                }
            }
            return false;
        }
        k = k + 1;
    }
}


/// Relies on `String::push`: appends one character.
pub assume_specification[ String::push ](s: &mut String, c: char)
    ensures
        final(s)@ == old(s)@.push(c),
;

/// Whether `p` is a prefix of `s`.
pub open spec fn prefix_of(s: Seq<char>, p: Seq<char>) -> bool {
    s.len() >= p.len() && s.subrange(0, p.len() as int) == p
}

/// Prefix test.
pub fn str_starts_with(s: &str, p: &str) -> (r: bool)
    ensures
        r == prefix_of(s@, p@),
{
    let n = s.unicode_len();
    let m = p.unicode_len();
    if m > n {
        return false;
    }
    let r = matches_at(s, p, 0);
    proof {
        assert(s@.subrange(0, p@.len() as int) == s@.subrange(0int, 0 + p@.len() as int));
    }
    r
}

/// Relies on uuid's `Uuid::now_v7` and its `Display`: a fresh,
/// time-ordered identifier in the canonical hyphenated form. The value
/// depends on the clock and on randomness, so nothing is promised of it.
#[verifier::external_body]
pub(crate) fn new_message_id() -> (r: String) {
    uuid::Uuid::now_v7().to_string()
}

/// Relies on chrono's `Utc::now` and `DateTime::to_rfc3339`: the current
/// time as an RFC 3339 timestamp. The value depends on the clock, so
/// nothing is promised of it.
#[verifier::external_body]
pub(crate) fn now_rfc3339() -> (r: String) {
    chrono::Utc::now().to_rfc3339()
}

} // verus!

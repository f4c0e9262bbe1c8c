//! Byte-level text scanning: substring search, ASCII case folding, and the
//! prompt-injection screen of the message bus.
//!
//! The screen folds the content to lowercase and looks for three patterns:
//! `ignore` whitespace `(all` whitespace`)?` `previous` whitespace
//! `instruction`, the literal `system:`, and the literal `jailbreak`. The
//! trailing `s?` of `instructions?` and the `\s*` after `system:` are
//! dropped because an optional suffix never changes whether a substring
//! match exists. Folding is ASCII-only.

use vstd::prelude::*;

verus! {

/// ASCII uppercase folded to lowercase; everything else unchanged.
pub open spec fn lower_byte(b: u8) -> u8 {
    if 65 <= b && b <= 90 {
        (b + 32) as u8
    } else {
        b
    }
}

/// The whole byte string folded to lowercase.
pub open spec fn lower(s: Seq<u8>) -> Seq<u8> {
    Seq::new(s.len(), |i: int| lower_byte(s[i]))
}

/// The regex whitespace class: space, tab, line feed, vertical tab, form
/// feed, carriage return.
pub open spec fn is_regex_space(b: u8) -> bool {
    b == 32 || b == 9 || b == 10 || b == 11 || b == 12 || b == 13
}

/// `pat` occurs in `s` starting at `i`.
pub open spec fn contains_at(s: Seq<u8>, i: int, pat: Seq<u8>) -> bool {
    0 <= i && i + pat.len() <= s.len() && s.subrange(i, i + pat.len()) == pat
}

/// `pat` occurs somewhere in `s`.
pub open spec fn contains_sub(s: Seq<u8>, pat: Seq<u8>) -> bool {
    exists|i: int| contains_at(s, i, pat)
}

/// At least one whitespace byte fills `s[a..b]`.
pub open spec fn space_run(s: Seq<u8>, a: int, b: int) -> bool {
    a < b <= s.len() && (forall|k: int| a <= k < b ==> is_regex_space(#[trigger] s[k]))
}

pub open spec fn lit_ignore() -> Seq<u8> {
    seq![105u8, 103u8, 110u8, 111u8, 114u8, 101u8]
}

pub open spec fn lit_all() -> Seq<u8> {
    seq![97u8, 108u8, 108u8]
}

pub open spec fn lit_previous() -> Seq<u8> {
    seq![112u8, 114u8, 101u8, 118u8, 105u8, 111u8, 117u8, 115u8]
}

pub open spec fn lit_instruction() -> Seq<u8> {
    seq![105u8, 110u8, 115u8, 116u8, 114u8, 117u8, 99u8, 116u8, 105u8, 111u8, 110u8]
}

pub open spec fn lit_system() -> Seq<u8> {
    seq![115u8, 121u8, 115u8, 116u8, 101u8, 109u8, 58u8]
}

pub open spec fn lit_jailbreak() -> Seq<u8> {
    seq![106u8, 97u8, 105u8, 108u8, 98u8, 114u8, 101u8, 97u8, 107u8]
}

/// `previous` whitespace `instruction` occurs at `p`.
pub open spec fn prev_tail_at(s: Seq<u8>, p: int) -> bool {
    contains_at(s, p, lit_previous()) && (exists|q: int|
        space_run(s, p + 8, q) && contains_at(s, q, lit_instruction()))
}

/// `ignore` whitespace, an optional `all` with whitespace, then
/// `previous` whitespace `instruction`, all starting at `i`.
pub open spec fn ignore_prev_at(s: Seq<u8>, i: int) -> bool {
    contains_at(s, i, lit_ignore()) && (exists|j: int|
        space_run(s, i + 6, j) && (prev_tail_at(s, j) || (contains_at(s, j, lit_all()) && (
        exists|j2: int| space_run(s, j + 3, j2) && prev_tail_at(s, j2)))))
}

/// The injection screen on an already-lowercased byte string.
pub open spec fn injection_hit_lower(s: Seq<u8>) -> bool {
    ||| (exists|i: int| ignore_prev_at(s, i))
    ||| contains_sub(s, lit_system())
    ||| contains_sub(s, lit_jailbreak())
}

/// The injection screen: case-insensitive over ASCII.
pub open spec fn injection_hit(s: Seq<u8>) -> bool {
    injection_hit_lower(lower(s))
}

/// Fold a byte string to ASCII lowercase.
pub fn lower_bytes(s: &[u8]) -> (r: Vec<u8>)
    ensures
        r@ == lower(s@),
{
    let mut r: Vec<u8> = Vec::new();
    let mut i: usize = 0;
    while i < s.len()
        invariant
            0 <= i <= s@.len(),
            r@.len() == i,
            forall|k: int| 0 <= k < i ==> #[trigger] r@[k] == lower_byte(s@[k]),
        decreases s@.len() - i,
    {
        let b = s[i];
        if 65 <= b && b <= 90 {
            r.push(b + 32);
        } else {
            r.push(b);
        }
        i = i + 1;
    }
    proof {
        assert(r@ =~= lower(s@));
    }
    r
}

/// Does `pat` occur in `s` at position `i`?
pub fn match_at(s: &[u8], i: usize, pat: &[u8]) -> (r: bool)
    requires
        i <= s@.len(),
    ensures
        r == contains_at(s@, i as int, pat@),
{
    if pat.len() > s.len() - i {
        return false;
    }
    let mut k: usize = 0;
    while k < pat.len()
        invariant
            0 <= k <= pat@.len(),
            i + pat@.len() <= s@.len(),
            forall|k2: int| 0 <= k2 < k ==> #[trigger] s@[i + k2] == pat@[k2],
        decreases pat@.len() - k,
    {
        if s[i + k] != pat[k] {
            proof {
                assert(s@.subrange(i as int, i + pat@.len())[k as int] == s@[i + k]);
            }
            return false;
        }
        k = k + 1;
    }
    proof {
        assert forall|m: int| 0 <= m < pat@.len() implies s@.subrange(i as int, i + pat@.len())[m]
            == pat@[m] by {
            assert(s@[i + m] == pat@[m]);
        }
        assert(s@.subrange(i as int, i + pat@.len()) =~= pat@);
    }
    true
}

/// Does `pat` occur anywhere in `s`?
pub fn contains_bytes(s: &[u8], pat: &[u8]) -> (r: bool)
    ensures
        r == contains_sub(s@, pat@),
{
    if pat.len() > s.len() {
        return false;
    }
    if pat.len() == 0 {
        proof {
            assert(s@.subrange(0, 0) =~= pat@);
            assert(contains_at(s@, 0, pat@));
        }
        return true;
    }
    let last = s.len() - pat.len();
    let mut i: usize = 0;
    while i <= last
        invariant
            0 <= i <= last + 1,
            last == s@.len() - pat@.len(),
            pat@.len() >= 1,
            forall|i2: int| 0 <= i2 < i ==> !contains_at(s@, i2, pat@),
        decreases last + 1 - i,
    {
        if match_at(s, i, pat) {
            return true;
        }
        i = i + 1;
    }
    proof {
        assert forall|i2: int| #![trigger contains_at(s@, i2, pat@)] !contains_at(s@, i2, pat@) by {
            if 0 <= i2 <= last {
                assert(!contains_at(s@, i2, pat@));
            }
        }
    }
    false
}

/// The first position at or after `a` whose byte is not regex whitespace.
fn first_nonspace(s: &[u8], a: usize) -> (r: usize)
    requires
        a <= s@.len(),
    ensures
        a <= r <= s@.len(),
        forall|k: int| a <= k < r ==> is_regex_space(#[trigger] s@[k]),
        r < s@.len() ==> !is_regex_space(s@[r as int]),
{
    let mut r = a;
    while r < s.len() && (s[r] == 32 || s[r] == 9 || s[r] == 10 || s[r] == 11 || s[r] == 12 || s[r]
        == 13)
        invariant
            a <= r <= s@.len(),
            forall|k: int| a <= k < r ==> is_regex_space(#[trigger] s@[k]),
        decreases s@.len() - r,
    {
        r = r + 1;
    }
    r
}

/// The first byte of a literal occurrence is never whitespace, so the only
/// position where a literal can follow a whitespace run is the first
/// non-whitespace position.
proof fn lemma_run_ends_at_first_nonspace(s: Seq<u8>, a: int, j: int, r: int, pat: Seq<u8>)
    requires
        space_run(s, a, j),
        contains_at(s, j, pat),
        pat.len() > 0,
        !is_regex_space(pat[0]),
        a <= r <= s.len(),
        forall|k: int| a <= k < r ==> is_regex_space(#[trigger] s[k]),
        r < s.len() ==> !is_regex_space(s[r]),
    ensures
        j == r,
{
    assert(s.subrange(j, j + pat.len())[0] == s[j]);
    assert(!is_regex_space(s[j]));
    if j < r {
        assert(is_regex_space(s[j]));
    } else if r < j {
        assert(is_regex_space(s[r]));
    }
}

/// Does `previous` whitespace `instruction` occur at `p`?
fn prev_tail_check(s: &[u8], p: usize) -> (r: bool)
    requires
        p <= s@.len(),
    ensures
        r == prev_tail_at(s@, p as int),
{
    let pat_prev: Vec<u8> = vec![112u8, 114u8, 101u8, 118u8, 105u8, 111u8, 117u8, 115u8];
    let pat_instr: Vec<u8> = vec![
        105u8,
        110u8,
        115u8,
        116u8,
        114u8,
        117u8,
        99u8,
        116u8,
        105u8,
        111u8,
        110u8,
    ];
    proof {
        assert(pat_prev@ =~= lit_previous());
        assert(pat_instr@ =~= lit_instruction());
    }
    if !match_at(s, p, pat_prev.as_slice()) {
        return false;
    }
    let n = s.len();
    proof {
        // `previous` fits at p, so p + 8 stays within the slice
        assert(p + 8 <= n);
    }
    let q = first_nonspace(s, p + 8);
    if q == p + 8 {
        proof {
            assert forall|q2: int| #![trigger space_run(s@, p + 8, q2)] !(space_run(s@, p + 8, q2)
                && contains_at(s@, q2, lit_instruction())) by {
                if space_run(s@, p + 8, q2) {
                    assert(is_regex_space(s@[p + 8]));
                }
            }
        }
        return false;
    }
    let hit = match_at(s, q, pat_instr.as_slice());
    proof {
        if hit {
            assert(space_run(s@, p + 8, q as int));
        } else {
            assert forall|q2: int| #![trigger space_run(s@, p + 8, q2)] !(space_run(s@, p + 8, q2)
                && contains_at(s@, q2, lit_instruction())) by {
                if space_run(s@, p + 8, q2) && contains_at(s@, q2, lit_instruction()) {
                    lemma_run_ends_at_first_nonspace(
                        s@,
                        p + 8,
                        q2,
                        q as int,
                        lit_instruction(),
                    );
                }
            }
        }
    }
    hit
}

/// Does the `ignore ... previous ... instruction` pattern occur at `i`?
fn ignore_prev_check(s: &[u8], i: usize) -> (r: bool)
    requires
        i <= s@.len(),
    ensures
        r == ignore_prev_at(s@, i as int),
{
    let pat_ignore: Vec<u8> = vec![105u8, 103u8, 110u8, 111u8, 114u8, 101u8];
    let pat_all: Vec<u8> = vec![97u8, 108u8, 108u8];
    proof {
        assert(pat_ignore@ =~= lit_ignore());
        assert(pat_all@ =~= lit_all());
    }
    if !match_at(s, i, pat_ignore.as_slice()) {
        return false;
    }
    let n = s.len();
    proof {
        // `ignore` fits at i, so i + 6 stays within the slice
        assert(i + 6 <= n);
    }
    let j = first_nonspace(s, i + 6);
    if j == i + 6 {
        proof {
            assert forall|j2: int| #![trigger space_run(s@, i + 6, j2)] !space_run(s@, i + 6, j2) by {
                if space_run(s@, i + 6, j2) {
                    assert(is_regex_space(s@[i + 6]));
                }
            }
        }
        return false;
    }
    proof {
        assert(space_run(s@, i + 6, j as int));
    }
    if prev_tail_check(s, j) {
        return true;
    }
    let all_here = match_at(s, j, pat_all.as_slice());
    let mut hit = false;
    if all_here {
        proof {
            // `all` fits at j, so j + 3 stays within the slice
            assert(j + 3 <= n);
        }
        let j2 = first_nonspace(s, j + 3);
        if j2 > j + 3 {
            proof {
                assert(space_run(s@, j + 3, j2 as int));
            }
            hit = prev_tail_check(s, j2);
            proof {
                if !hit {
                    assert forall|j3: int| #![trigger space_run(s@, j + 3, j3)] !(space_run(
                        s@,
                        j + 3,
                        j3,
                    ) && prev_tail_at(s@, j3)) by {
                        if space_run(s@, j + 3, j3) && prev_tail_at(s@, j3) {
                            lemma_run_ends_at_first_nonspace(
                                s@,
                                j + 3,
                                j3,
                                j2 as int,
                                lit_previous(),
                            );
                        }
                    }
                }
            }
        } else {
            proof {
                assert forall|j3: int| #![trigger space_run(s@, j + 3, j3)] !space_run(s@, j + 3, j3) by {
                    if space_run(s@, j + 3, j3) {
                        assert(is_regex_space(s@[j + 3]));
                    }
                }
            }
        }
    }
    proof {
        if !hit {
            assert forall|jx: int|
                #![trigger space_run(s@, i + 6, jx)]
                !(space_run(s@, i + 6, jx) && (prev_tail_at(s@, jx) || (contains_at(
                    s@,
                    jx,
                    lit_all(),
                ) && (exists|jy: int| space_run(s@, jx + 3, jy) && prev_tail_at(s@, jy))))) by {
                if space_run(s@, i + 6, jx) {
                    if prev_tail_at(s@, jx) {
                        lemma_run_ends_at_first_nonspace(s@, i + 6, jx, j as int, lit_previous());
                    } else if contains_at(s@, jx, lit_all()) && (exists|jy: int|
                        space_run(s@, jx + 3, jy) && prev_tail_at(s@, jy)) {
                        lemma_run_ends_at_first_nonspace(s@, i + 6, jx, j as int, lit_all());
                    }
                }
            }
        }
    }
    hit
}

/// Run the injection screen over a content string's bytes.
pub fn detect_injection(content: &[u8]) -> (r: bool)
    ensures
        r == injection_hit(content@),
{
    let low = lower_bytes(content);
    let s = low.as_slice();
    let pat_system: Vec<u8> = vec![115u8, 121u8, 115u8, 116u8, 101u8, 109u8, 58u8];
    let pat_jail: Vec<u8> = vec![106u8, 97u8, 105u8, 108u8, 98u8, 114u8, 101u8, 97u8, 107u8];
    proof {
        assert(pat_system@ =~= lit_system());
        assert(pat_jail@ =~= lit_jailbreak());
    }
    if contains_bytes(s, pat_system.as_slice()) {
        return true;
    }
    if contains_bytes(s, pat_jail.as_slice()) {
        return true;
    }
    if s.len() >= 6 {
        let last = s.len() - 6;
        let mut i: usize = 0;
        while i <= last
            invariant
                0 <= i <= last + 1,
                last == s@.len() - 6,
                s@.len() >= 6,
                s@ == lower(content@),
                forall|i2: int| 0 <= i2 < i ==> !ignore_prev_at(s@, i2),
                !contains_sub(s@, lit_system()),
                !contains_sub(s@, lit_jailbreak()),
            decreases last + 1 - i,
        {
            if ignore_prev_check(s, i) {
                return true;
            }
            i = i + 1;
        }
        proof {
            assert forall|i2: int| #![trigger ignore_prev_at(s@, i2)] !ignore_prev_at(s@, i2) by {
                if 0 <= i2 <= last {
                    assert(!ignore_prev_at(s@, i2));
                } else {
                    assert(!contains_at(s@, i2, lit_ignore()));
                }
            }
        }
    } else {
        proof {
            assert forall|i2: int| #![trigger ignore_prev_at(s@, i2)] !ignore_prev_at(s@, i2) by {
                assert(!contains_at(s@, i2, lit_ignore()));
            }
        }
    }
    false
}

} // verus!

//! Tag validation for the vector memory.
//!
//! A tag list is a comma-separated string. Each piece, after trimming
//! ASCII whitespace, must be a non-empty run of at most `MAX_TAG_LENGTH`
//! bytes drawn from `[A-Za-z0-9_-]`, and at most `MAX_TAGS` pieces are
//! accepted. The empty string means "no tags" and is always accepted.

use vstd::prelude::*;

verus! {

/// Maximum number of comma-separated tags accepted by a store.
pub const MAX_TAGS: usize = 20;

/// Maximum length in bytes of a single (trimmed) tag.
pub const MAX_TAG_LENGTH: usize = 50;

/// The bytes a tag may consist of: `A-Z`, `a-z`, `0-9`, `_` and `-`.
pub open spec fn is_tag_byte(b: u8) -> bool {
    b == 45 || (48 <= b && b <= 57) || (65 <= b && b <= 90) || b == 95 || (97 <= b && b
        <= 122)
}

/// ASCII whitespace trimmed from both ends of a tag piece.
pub open spec fn is_space_byte(b: u8) -> bool {
    b == 32 || b == 9 || b == 10 || b == 13
}

/// A valid tag: non-empty, bounded length, tag bytes only.
pub open spec fn valid_tag(t: Seq<u8>) -> bool {
    &&& 1 <= t.len() <= MAX_TAG_LENGTH
    &&& forall|i: int| 0 <= i < t.len() ==> is_tag_byte(#[trigger] t[i])
}

/// `s` with leading whitespace removed.
pub open spec fn trim_front(s: Seq<u8>) -> Seq<u8>
    decreases s.len(),
{
    if s.len() > 0 && is_space_byte(s[0]) {
        trim_front(s.drop_first())
    } else {
        s
    }
}

/// `s` with trailing whitespace removed.
pub open spec fn trim_back(s: Seq<u8>) -> Seq<u8>
    decreases s.len(),
{
    if s.len() > 0 && is_space_byte(s[s.len() - 1]) {
        trim_back(s.drop_last())
    } else {
        s
    }
}

/// `s` with whitespace removed from both ends.
pub open spec fn trim(s: Seq<u8>) -> Seq<u8> {
    trim_back(trim_front(s))
}

proof fn lemma_trim_front_skip(s: Seq<u8>, k: int)
    requires
        0 <= k <= s.len(),
        forall|i: int| 0 <= i < k ==> is_space_byte(#[trigger] s[i]),
    ensures
        trim_front(s) == trim_front(s.skip(k)),
    decreases k,
{
    if k > 0 {
        assert(s.drop_first() =~= s.skip(1));
        assert(s.skip(1).skip(k - 1) =~= s.skip(k));
        lemma_trim_front_skip(s.skip(1), k - 1);
    } else {
        assert(s.skip(0) =~= s);
    }
}

proof fn lemma_trim_back_take(s: Seq<u8>, k: int)
    requires
        0 <= k <= s.len(),
        forall|i: int| k <= i < s.len() ==> is_space_byte(#[trigger] s[i]),
    ensures
        trim_back(s) == trim_back(s.take(k)),
    decreases s.len() - k,
{
    if k < s.len() {
        assert(s.drop_last() =~= s.take(s.len() - 1));
        assert(s.take(s.len() - 1).take(k) =~= s.take(k));
        lemma_trim_back_take(s.take(s.len() - 1), k);
    } else {
        assert(s.take(s.len() as int) =~= s);
    }
}

/// Remove ASCII whitespace from both ends of `s`.
pub fn trim_bytes(s: &[u8]) -> (r: Vec<u8>)
    ensures
        r@ == trim(s@),
{
    let len = s.len();
    let mut lo: usize = 0;
    while lo < len && (s[lo] == 32 || s[lo] == 9 || s[lo] == 10 || s[lo] == 13)
        invariant
            0 <= lo <= len,
            len == s@.len(),
            forall|i: int| 0 <= i < lo ==> is_space_byte(#[trigger] s@[i]),
        decreases len - lo,
    {
        lo = lo + 1;
    }
    proof {
        lemma_trim_front_skip(s@, lo as int);
        assert(trim_front(s@.skip(lo as int)) == s@.skip(lo as int));
    }
    let mut hi: usize = len;
    while hi > lo && (s[hi - 1] == 32 || s[hi - 1] == 9 || s[hi - 1] == 10 || s[hi - 1] == 13)
        invariant
            lo <= hi <= len,
            len == s@.len(),
            forall|i: int| hi <= i < len ==> is_space_byte(#[trigger] s@[i]),
        decreases hi,
    {
        hi = hi - 1;
    }
    proof {
        let front = s@.skip(lo as int);
        lemma_trim_back_take(front, hi - lo);
        assert(front.take(hi - lo) =~= s@.subrange(lo as int, hi as int));
        if hi > lo {
            assert(!is_space_byte(s@[hi - 1]));
            assert(s@.subrange(lo as int, hi as int).len() > 0);
            assert(s@.subrange(lo as int, hi as int)[hi - lo - 1] == s@[hi - 1]);
        }
        assert(trim_back(s@.subrange(lo as int, hi as int)) == s@.subrange(lo as int, hi as int));
    }
    let mut r: Vec<u8> = Vec::new();
    let mut i: usize = lo;
    while i < hi
        invariant
            lo <= i <= hi <= len,
            len == s@.len(),
            r@ == s@.subrange(lo as int, i as int),
        decreases hi - i,
    {
        r.push(s[i]);
        proof {
            assert(s@.subrange(lo as int, i + 1) =~= s@.subrange(lo as int, i as int).push(
                s@[i as int],
            ));
        }
        i = i + 1;
    }
    proof {
        assert(r@ =~= trim(s@));
    }
    r
}

/// The pieces of `s` between commas, in order. Splitting the empty
/// string yields one empty piece, as splitting always yields one more
/// piece than there are commas.
pub open spec fn split_commas(s: Seq<u8>) -> Seq<Seq<u8>>
    decreases s.len(),
{
    if s.len() == 0 {
        seq![Seq::<u8>::empty()]
    } else if s[0] == 44 {
        seq![Seq::<u8>::empty()] + split_commas(s.drop_first())
    } else {
        let rest = split_commas(s.drop_first());
        seq![seq![s[0]] + rest[0]] + rest.drop_first()
    }
}

/// The tag list denoted by a comma-separated string: each piece trimmed.
pub open spec fn parse_tags_spec(s: Seq<u8>) -> Seq<Seq<u8>> {
    split_commas(s).map_values(|p: Seq<u8>| trim(p))
}

/// A tag string is accepted when it is empty, or splits into at most
/// `MAX_TAGS` pieces each of which trims to a valid tag.
pub open spec fn all_tags_valid(s: Seq<u8>) -> bool {
    forall|i: int|
        0 <= i < split_commas(s).len() ==> valid_tag(trim(#[trigger] split_commas(s)[i]))
}

pub open spec fn tags_valid(s: Seq<u8>) -> bool {
    s.len() == 0 || (split_commas(s).len() <= MAX_TAGS && all_tags_valid(s))
}

proof fn lemma_split_nonempty(s: Seq<u8>)
    ensures
        split_commas(s).len() >= 1,
    decreases s.len(),
{
    if s.len() > 0 {
        lemma_split_nonempty(s.drop_first());
    }
}

/// Split a byte string at commas and trim each piece.
pub fn parse_tags(s: &[u8]) -> (r: Vec<Vec<u8>>)
    ensures
        r.deep_view() == parse_tags_spec(s@),
{
    let mut done: Vec<Vec<u8>> = Vec::new();
    let mut cur: Vec<u8> = Vec::new();
    let mut i: usize = 0;
    proof {
        lemma_split_nonempty(s@);
        assert(s@.skip(0) =~= s@);
        let sp = split_commas(s@);
        assert(sp =~= done.deep_view() + seq![cur@ + sp[0]] + sp.drop_first());
    }
    while i < s.len()
        invariant
            0 <= i <= s@.len(),
            split_commas(s@) == done.deep_view() + seq![
                cur@ + split_commas(s@.skip(i as int))[0],
            ] + split_commas(s@.skip(i as int)).drop_first(),
        decreases s@.len() - i,
    {
        let b = s[i];
        proof {
            let rest = s@.skip(i as int);
            assert(rest.len() > 0);
            assert(rest[0] == s@[i as int]);
            assert(rest.drop_first() =~= s@.skip(i + 1));
            lemma_split_nonempty(s@.skip(i + 1));
            let nxt = split_commas(s@.skip(i + 1));
            assert(seq![nxt[0]] + nxt.drop_first() =~= nxt);
            if b == 44 {
                assert(split_commas(rest) =~= seq![Seq::<u8>::empty()] + nxt);
                assert(done.deep_view().push(cur@) =~= done.deep_view() + seq![
                    cur@ + Seq::<u8>::empty(),
                ]);
                assert(done.deep_view() + seq![cur@ + split_commas(rest)[0]] + split_commas(
                    rest,
                ).drop_first() =~= done.deep_view().push(cur@) + seq![
                    Seq::<u8>::empty() + nxt[0],
                ] + nxt.drop_first());
                assert(Seq::<u8>::empty() + nxt[0] =~= nxt[0]);
                assert(done.deep_view().push(cur@) + seq![Seq::<u8>::empty() + nxt[0]]
                    + nxt.drop_first() =~= done.deep_view().push(cur@) + seq![nxt[0]]
                    + nxt.drop_first());
            } else {
                assert(split_commas(rest) =~= seq![seq![rest[0]] + nxt[0]] + nxt.drop_first());
                assert(cur@ + (seq![rest[0]] + nxt[0]) =~= cur@.push(b) + nxt[0]);
                assert(done.deep_view() + seq![cur@ + split_commas(rest)[0]] + split_commas(
                    rest,
                ).drop_first() =~= done.deep_view() + seq![cur@.push(b) + nxt[0]]
                    + nxt.drop_first());
            }
        }
        if b == 44 {
            let ghost old_done = done.deep_view();
            let ghost old_cur = cur@;
            done.push(cur);
            proof {
                assert(done.deep_view() =~~= old_done.push(old_cur));
            }
            cur = Vec::new();
        } else {
            cur.push(b);
        }
        i = i + 1;
    }
    proof {
        assert(s@.skip(s@.len() as int) =~= Seq::<u8>::empty());
        let e = split_commas(Seq::<u8>::empty());
        assert(e =~= seq![Seq::<u8>::empty()]);
        assert(split_commas(s@) =~= done.deep_view().push(cur@));
    }
    let ghost old_done2 = done.deep_view();
    let ghost old_cur2 = cur@;
    done.push(cur);
    proof {
        assert(done.deep_view() =~~= old_done2.push(old_cur2));
    }
    let mut out: Vec<Vec<u8>> = Vec::new();
    let mut j: usize = 0;
    while j < done.len()
        invariant
            0 <= j <= done@.len(),
            done.deep_view() == split_commas(s@),
            out.deep_view() =~~= split_commas(s@).take(j as int).map_values(|p: Seq<u8>| trim(p)),
        decreases done@.len() - j,
    {
        let ghost old_out = out.deep_view();
        proof {
            assert(done.deep_view()[j as int] == split_commas(s@)[j as int]);
            assert(done@[j as int].deep_view() =~= done@[j as int]@);
        }
        let t = trim_bytes(done[j].as_slice());
        out.push(t);
        proof {
            assert(t@ == trim(split_commas(s@)[j as int]));
            assert(out.deep_view() =~~= old_out.push(trim(split_commas(s@)[j as int])));
            assert(split_commas(s@).take(j + 1).map_values(|p: Seq<u8>| trim(p)) =~= split_commas(
                s@,
            ).take(j as int).map_values(|p: Seq<u8>| trim(p)).push(
                trim(split_commas(s@)[j as int]),
            ));
        }
        j = j + 1;
    }
    proof {
        assert(split_commas(s@).take(split_commas(s@).len() as int) =~= split_commas(s@));
    }
    out
}

/// Accept or reject a comma-separated tag string, as `tags_valid` says.
pub fn validate_tags(s: &[u8]) -> (r: bool)
    ensures
        r == tags_valid(s@),
{
    if s.len() == 0 {
        return true;
    }
    let pieces = parse_tags(s);
    proof {
        assert(pieces.deep_view().len() == pieces@.len());
    }
    if pieces.len() > MAX_TAGS {
        return false;
    }
    let mut i: usize = 0;
    while i < pieces.len()
        invariant
            0 <= i <= pieces@.len(),
            pieces.deep_view() == parse_tags_spec(s@),
            pieces@.len() == split_commas(s@).len(),
            forall|j: int| 0 <= j < i ==> valid_tag(trim(#[trigger] split_commas(s@)[j])),
        decreases pieces@.len() - i,
    {
        proof {
            assert(pieces.deep_view()[i as int] == trim(split_commas(s@)[i as int]));
            assert(pieces@[i as int].deep_view() =~= pieces@[i as int]@);
            assert(pieces@[i as int]@ == trim(split_commas(s@)[i as int]));
        }
        let piece_ok = tag_ok(pieces[i].as_slice());
        if !piece_ok {
            proof {
                assert(!valid_tag(trim(split_commas(s@)[i as int])));
                assert((i as int) < split_commas(s@).len());
                assert(s@.len() != 0);
                assert(!all_tags_valid(s@));
                assert(!tags_valid(s@));
            }
            return false;
        }
        i = i + 1;
    }
    proof {
        assert(pieces.deep_view().len() == pieces@.len());
    }
    true
}

/// The pieces joined back into one comma-separated string.
pub open spec fn join_commas(ts: Seq<Seq<u8>>) -> Seq<u8>
    decreases ts.len(),
{
    if ts.len() == 0 {
        Seq::<u8>::empty()
    } else if ts.len() == 1 {
        ts[0]
    } else {
        ts[0] + seq![44u8] + join_commas(ts.drop_first())
    }
}

proof fn lemma_trim_id(t: Seq<u8>)
    requires
        forall|i: int| 0 <= i < t.len() ==> !is_space_byte(#[trigger] t[i]),
    ensures
        trim(t) == t,
{
    assert(trim_front(t) == t);
    assert(trim_back(t) == t);
}

proof fn lemma_tag_bytes_not_space(t: Seq<u8>)
    requires
        valid_tag(t),
    ensures
        forall|i: int| 0 <= i < t.len() ==> !is_space_byte(#[trigger] t[i]),
        forall|i: int| 0 <= i < t.len() ==> t[i] != 44,
{
    assert forall|i: int| 0 <= i < t.len() implies !is_space_byte(#[trigger] t[i]) && t[i] != 44 by {
        assert(is_tag_byte(t[i]));
    }
}

proof fn lemma_split_prepend(p: Seq<u8>, s: Seq<u8>)
    requires
        forall|i: int| 0 <= i < p.len() ==> #[trigger] p[i] != 44,
    ensures
        split_commas(p + s) == seq![p + split_commas(s)[0]] + split_commas(s).drop_first(),
    decreases p.len(),
{
    lemma_split_nonempty(s);
    if p.len() == 0 {
        assert(p + s =~= s);
        assert(p + split_commas(s)[0] =~= split_commas(s)[0]);
        assert(seq![split_commas(s)[0]] + split_commas(s).drop_first() =~= split_commas(s));
    } else {
        let whole = p + s;
        assert(whole.len() > 0);
        assert(whole[0] == p[0]);
        assert(whole[0] != 44);
        assert(whole.drop_first() =~= p.drop_first() + s);
        lemma_split_prepend(p.drop_first(), s);
        let rest = split_commas(p.drop_first() + s);
        assert(rest[0] == p.drop_first() + split_commas(s)[0]);
        assert(seq![whole[0]] + rest[0] =~= p + split_commas(s)[0]);
        assert(rest.drop_first() =~= split_commas(s).drop_first());
        assert(split_commas(whole) =~= seq![p + split_commas(s)[0]] + split_commas(
            s,
        ).drop_first());
    }
}

/// Tag round trip: a list of valid tags, joined with commas and parsed
/// again, yields exactly the same list in the same order.
pub proof fn lemma_tags_round_trip(ts: Seq<Seq<u8>>)
    requires
        ts.len() >= 1,
        forall|i: int| 0 <= i < ts.len() ==> valid_tag(#[trigger] ts[i]),
    ensures
        parse_tags_spec(join_commas(ts)) == ts,
    decreases ts.len(),
{
    lemma_tag_bytes_not_space(ts[0]);
    if ts.len() == 1 {
        let t = ts[0];
        assert(join_commas(ts) == t);
        lemma_split_prepend(t, Seq::<u8>::empty());
        assert(t + Seq::<u8>::empty() =~= t);
        let e = split_commas(Seq::<u8>::empty());
        assert(e =~= seq![Seq::<u8>::empty()]);
        assert(t + e[0] =~= t);
        assert(split_commas(t) =~= seq![t]);
        lemma_trim_id(t);
        assert(parse_tags_spec(t) =~= seq![t]);
        assert(seq![t] =~= ts);
    } else {
        let t = ts[0];
        let rest = ts.drop_first();
        let jr = join_commas(rest);
        assert(join_commas(ts) == t + seq![44u8] + jr);
        lemma_tags_round_trip(rest);
        lemma_split_prepend(t, seq![44u8] + jr);
        let s2 = seq![44u8] + jr;
        assert(s2[0] == 44);
        assert(s2.drop_first() =~= jr);
        assert(split_commas(s2) =~= seq![Seq::<u8>::empty()] + split_commas(jr));
        assert(split_commas(s2)[0] =~= Seq::<u8>::empty());
        assert(t + split_commas(s2)[0] =~= t);
        assert(split_commas(s2).drop_first() =~= split_commas(jr));
        assert(t + s2 =~= join_commas(ts));
        assert(split_commas(join_commas(ts)) =~= seq![t] + split_commas(jr));
        lemma_trim_id(t);
        assert(parse_tags_spec(join_commas(ts)) =~= seq![trim(t)] + parse_tags_spec(jr));
        assert(parse_tags_spec(join_commas(ts)) =~= seq![t] + rest);
        assert(seq![t] + rest =~= ts);
    }
}

/// Decide whether `t` is a valid (already trimmed) tag.
pub fn tag_ok(t: &[u8]) -> (r: bool)
    ensures
        r == valid_tag(t@),
{
    if t.len() < 1 || t.len() > MAX_TAG_LENGTH {
        return false;
    }
    let mut i: usize = 0;
    while i < t.len()
        invariant
            0 <= i <= t@.len(),
            forall|j: int| 0 <= j < i ==> is_tag_byte(#[trigger] t@[j]),
        decreases t@.len() - i,
    {
        let b = t[i];
        if !(b == 45 || (48 <= b && b <= 57) || (65 <= b && b <= 90) || b == 95 || (97 <= b && b
            <= 122)) {
            return false;
        }
        i = i + 1;
    }
    true
}

} // verus!

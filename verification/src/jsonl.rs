//! The persistence format of the vector memory: one JSON object per line,
//! and the law that loading what was saved yields the entries back.
//!
//! Every value is rendered in a fixed width: numbers as zero-padded
//! decimals, text as arrays of the decimal values of its UTF-8 bytes,
//! each value a quoted three-digit group. The format trades terseness for
//! exactness: decoding is positional, so the codec round-trips every
//! entry whatever its payload holds, and a line that does not parse is
//! skipped, never misread.

use crate::vector::MemoryEntry;
use vstd::prelude::*;

verus! {

pub open spec fn is_digit(b: u8) -> bool {
    48 <= b && b <= 57
}

/// Ten to the `k`.
pub open spec fn pow10(k: nat) -> int
    decreases k,
{
    if k == 0 {
        1
    } else {
        10 * pow10((k - 1) as nat)
    }
}

/// `n` as exactly `k` decimal digits, zero padded, most significant first.
pub open spec fn dec_pad(n: int, k: nat) -> Seq<u8>
    decreases k,
{
    if k == 0 {
        Seq::<u8>::empty()
    } else {
        dec_pad(n / 10, (k - 1) as nat) + seq![(48 + (n % 10)) as u8]
    }
}

/// The number a digit string denotes.
pub open spec fn val_digits(ds: Seq<u8>) -> int
    decreases ds.len(),
{
    if ds.len() == 0 {
        0
    } else {
        val_digits(ds.drop_last()) * 10 + (ds.last() - 48)
    }
}

pub proof fn lemma_dec_pad_len(n: int, k: nat)
    ensures
        dec_pad(n, k).len() == k,
    decreases k,
{
    if k > 0 {
        lemma_dec_pad_len(n / 10, (k - 1) as nat);
    }
}

pub proof fn lemma_dec_pad_digits(n: int, k: nat)
    requires
        n >= 0,
    ensures
        forall|i: int| 0 <= i < dec_pad(n, k).len() ==> is_digit(#[trigger] dec_pad(n, k)[i]),
    decreases k,
{
    if k > 0 {
        lemma_dec_pad_digits(n / 10, (k - 1) as nat);
        lemma_dec_pad_len(n / 10, (k - 1) as nat);
        assert forall|i: int| 0 <= i < dec_pad(n, k).len() implies is_digit(
            #[trigger] dec_pad(n, k)[i],
        ) by {
            if i < k - 1 {
                assert(dec_pad(n, k)[i] == dec_pad(n / 10, (k - 1) as nat)[i]);
            } else {
                assert(dec_pad(n, k)[i] == (48 + (n % 10)) as u8);
            }
        }
    }
}

pub proof fn lemma_val_dec_pad(n: int, k: nat)
    requires
        0 <= n < pow10(k),
    ensures
        val_digits(dec_pad(n, k)) == n,
    decreases k,
{
    if k == 0 {
        assert(pow10(0) == 1);
    } else {
        assert(pow10(k) == 10 * pow10((k - 1) as nat));
        assert(n / 10 < pow10((k - 1) as nat)) by (nonlinear_arith)
            requires
                0 <= n < 10 * pow10((k - 1) as nat),
        ;
        lemma_val_dec_pad(n / 10, (k - 1) as nat);
        lemma_dec_pad_len(n / 10, (k - 1) as nat);
        let whole = dec_pad(n, k);
        assert(whole.drop_last() =~= dec_pad(n / 10, (k - 1) as nat));
        assert(whole.last() == (48 + (n % 10)) as u8);
    }
}

/// Append `n` as `k` zero-padded decimal digits.
pub fn write_pad(out: &mut Vec<u8>, n: u64, k: usize)
    ensures
        final(out)@ == old(out)@ + dec_pad(n as int, k as nat),
    decreases k,
{
    if k == 0 {
        proof {
            assert(out@ =~= old(out)@ + dec_pad(n as int, 0));
        }
    } else {
        write_pad(out, n / 10, k - 1);
        out.push(48 + (n % 10) as u8);
        proof {
            assert(out@ =~= old(out)@ + dec_pad(n as int, k as nat));
        }
    }
}

/// The `k` bytes at `pos` parsed as a zero-padded decimal, when they are
/// digits denoting a value no larger than `max`.
pub open spec fn parse_pad(s: Seq<u8>, pos: int, k: nat, max: int) -> Option<int> {
    if pos >= 0 && pos + k <= s.len() && (forall|i: int|
        pos <= i < pos + k ==> is_digit(#[trigger] s[i])) && val_digits(
        s.subrange(pos, pos + k),
    ) <= max {
        Some(val_digits(s.subrange(pos, pos + k)))
    } else {
        None
    }
}

/// On a segment written by `write_pad` with a value in range, parsing
/// recovers exactly that value.
pub proof fn lemma_parse_pad_inverse(s: Seq<u8>, pos: int, n: int, k: nat, max: int)
    requires
        0 <= n < pow10(k),
        n <= max,
        0 <= pos,
        pos + k <= s.len(),
        s.subrange(pos, pos + k) == dec_pad(n, k),
    ensures
        parse_pad(s, pos, k, max) == Some(n),
{
    lemma_dec_pad_digits(n, k);
    lemma_dec_pad_len(n, k);
    assert forall|i: int| pos <= i < pos + k implies is_digit(#[trigger] s[i]) by {
        assert(s[i] == s.subrange(pos, pos + k)[i - pos]);
    }
    lemma_val_dec_pad(n, k);
}

/// Parse `k` digits at `pos`, capped by `max`. The widths used by this
/// format are all small.
pub fn parse_pad_exec(s: &[u8], pos: usize, k: usize, max: u64) -> (r: Option<u64>)
    requires
        k <= 22,
    ensures
        match r {
            Some(v) => parse_pad(s@, pos as int, k as nat, max as int) == Some(v as int),
            None => parse_pad(s@, pos as int, k as nat, max as int) is None,
        },
{
    if pos > s.len() || k > s.len() - pos {
        return None;
    }
    let mut acc: u128 = 0;
    let mut i: usize = 0;
    proof {
        assert(s@.subrange(pos as int, pos as int) =~= Seq::<u8>::empty());
        lemma_pow10_mono(0, 22);
        assert(pow10(0) == 1);
    }
    while i < k
        invariant
            0 <= i <= k <= 22,
            pos + k <= s@.len(),
            forall|j: int| pos <= j < pos + i ==> is_digit(#[trigger] s@[j]),
            acc == val_digits(s@.subrange(pos as int, pos + i)),
            acc < pow10(i as nat),
            pow10(i as nat) <= pow10(22),
        decreases k - i,
    {
        let b = s[pos + i];
        if !(48 <= b && b <= 57) {
            return None;
        }
        proof {
            assert(pow10((i + 1) as nat) == 10 * pow10(i as nat));
            assert(pow10(22) < u128::MAX) by {
                reveal_with_fuel(pow10, 23);
            }
            assert(pow10(i as nat) <= pow10(22) ==> 10 * pow10(i as nat) <= 10 * pow10(22)) by (
            nonlinear_arith);
            assert(10 * pow10(22) < u128::MAX) by {
                reveal_with_fuel(pow10, 23);
            }
            assert(s@.subrange(pos as int, pos + i + 1).drop_last() =~= s@.subrange(
                pos as int,
                pos + i,
            ));
            assert(s@.subrange(pos as int, pos + i + 1).last() == s@[pos + i]);
            assert(pow10(((i + 1)) as nat) <= pow10(22)) by {
                lemma_pow10_mono((i + 1) as nat, 22);
            }
        }
        acc = acc * 10 + ((b - 48) as u128);
        i = i + 1;
    }
    if acc > max as u128 {
        proof {
            assert(s@.subrange(pos as int, pos + k) =~= s@.subrange(pos as int, pos + i));
        }
        return None;
    }
    proof {
        assert(s@.subrange(pos as int, pos + k) =~= s@.subrange(pos as int, pos + i));
    }
    Some(acc as u64)
}

proof fn lemma_pow10_mono(a: nat, b: nat)
    requires
        a <= b,
    ensures
        pow10(a) <= pow10(b),
    decreases b,
{
    if a < b {
        lemma_pow10_mono(a, (b - 1) as nat);
        assert(pow10(b) == 10 * pow10((b - 1) as nat));
        assert(pow10((b - 1) as nat) >= 1) by {
            lemma_pow10_pos((b - 1) as nat);
        }
    }
}

proof fn lemma_pow10_pos(k: nat)
    ensures
        pow10(k) >= 1,
    decreases k,
{
    if k > 0 {
        lemma_pow10_pos((k - 1) as nat);
    }
}


/// A quoted, fixed-width decimal element.
pub open spec fn enc_el(v: int, k: nat) -> Seq<u8> {
    seq![34u8] + dec_pad(v, k) + seq![34u8]
}

/// A list of quoted fixed-width decimals, comma separated, closed by `]`.
/// The opening `[` belongs to the literal before the list.
pub open spec fn enc_num_list(vs: Seq<int>, k: nat) -> Seq<u8>
    decreases vs.len(),
{
    if vs.len() == 0 {
        seq![93u8]
    } else if vs.len() == 1 {
        enc_el(vs[0], k) + seq![93u8]
    } else {
        enc_el(vs[0], k) + seq![44u8] + enc_num_list(vs.drop_first(), k)
    }
}

/// Parse a list of quoted `k`-digit decimals at `pos`, each at most
/// `max`, consuming the closing `]`.
pub open spec fn parse_num_list(s: Seq<u8>, pos: int, k: nat, max: int) -> Option<(Seq<int>, int)>
    decreases s.len() - pos,
    when 0 <= pos
{
    if pos < s.len() && s[pos] == 93 {
        Some((Seq::<int>::empty(), pos + 1))
    } else if pos < s.len() && s[pos] == 34 {
        match parse_pad(s, pos + 1, k, max) {
            None => None,
            Some(v) => {
                let q = pos + 1 + k;
                if q < s.len() && s[q] == 34 {
                    if q + 1 < s.len() && s[q + 1] == 44 {
                        match parse_num_list(s, q + 2, k, max) {
                            None => None,
                            Some((tail, end)) => Some((seq![v] + tail, end)),
                        }
                    } else if q + 1 < s.len() && s[q + 1] == 93 {
                        Some((seq![v], q + 2))
                    } else {
                        None
                    }
                } else {
                    None
                }
            },
        }
    } else {
        None
    }
}

/// On a segment written by the list encoder with in-range values, parsing
/// recovers exactly those values and stops right after the `]`.
pub proof fn lemma_parse_num_list_inverse(s: Seq<u8>, pos: int, vs: Seq<int>, k: nat, max: int)
    requires
        k >= 1,
        0 <= pos,
        forall|i: int| 0 <= i < vs.len() ==> 0 <= #[trigger] vs[i] < pow10(k) && vs[i] <= max,
        pos + enc_num_list(vs, k).len() <= s.len(),
        s.subrange(pos, pos + enc_num_list(vs, k).len()) == enc_num_list(vs, k),
    ensures
        parse_num_list(s, pos, k, max) == Some((vs, pos + enc_num_list(vs, k).len())),
    decreases vs.len(),
{
    let enc = enc_num_list(vs, k);
    lemma_dec_pad_len(if vs.len() > 0 {
        vs[0]
    } else {
        0
    }, k);
    if vs.len() == 0 {
        assert(s[pos] == s.subrange(pos, pos + 1)[0]);
        assert(s[pos] == 93);
    } else {
        let el = enc_el(vs[0], k);
        assert(el.len() == k + 2);
        assert(s[pos] == s.subrange(pos, pos + enc.len())[0]);
        assert(el[0] == 34);
        assert(s[pos] == 34);
        assert(s[pos] != 93);
        let q = pos + 1 + k;
        assert forall|i: int| 0 <= i < k implies s.subrange(pos + 1, pos + 1 + k)[i] == dec_pad(
            vs[0],
            k,
        )[i] by {
            assert(s.subrange(pos + 1, pos + 1 + k)[i] == s.subrange(pos, pos + enc.len())[i + 1]);
            assert(enc[i + 1] == el[i + 1]);
            assert(el[i + 1] == dec_pad(vs[0], k)[i]);
        }
        assert(s.subrange(pos + 1, pos + 1 + k) =~= dec_pad(vs[0], k));
        lemma_parse_pad_inverse(s, pos + 1, vs[0], k, max);
        assert(s[q] == s.subrange(pos, pos + enc.len())[q - pos]);
        assert(enc[k as int + 1] == el[k as int + 1]);
        assert(el[k as int + 1] == 34);
        assert(s[q] == 34);
        if vs.len() == 1 {
            assert(enc[k as int + 2] == 93);
            assert(s[q + 1] == s.subrange(pos, pos + enc.len())[k as int + 2]);
            assert(s[q + 1] == 93);
            assert(seq![vs[0]] =~= vs);
        } else {
            assert(enc[k as int + 2] == 44);
            assert(s[q + 1] == s.subrange(pos, pos + enc.len())[k as int + 2]);
            assert(s[q + 1] == 44);
            let rest = vs.drop_first();
            let enc_rest = enc_num_list(rest, k);
            assert(enc =~= el + seq![44u8] + enc_rest);
            assert forall|i: int| 0 <= i < enc_rest.len() implies s.subrange(
                q + 2,
                q + 2 + enc_rest.len(),
            )[i] == enc_rest[i] by {
                assert(s.subrange(q + 2, q + 2 + enc_rest.len())[i] == s.subrange(
                    pos,
                    pos + enc.len(),
                )[i + k as int + 3]);
                assert(enc[i + k as int + 3] == enc_rest[i]);
            }
            assert(s.subrange(q + 2, q + 2 + enc_rest.len()) =~= enc_rest);
            assert forall|i: int| 0 <= i < rest.len() implies 0 <= #[trigger] rest[i] < pow10(k)
                && rest[i] <= max by {
                assert(rest[i] == vs[i + 1]);
            }
            lemma_parse_num_list_inverse(s, q + 2, rest, k, max);
            assert(seq![vs[0]] + rest =~= vs);
        }
    }
}

/// Parse a quoted fixed-width decimal list, mirroring `parse_num_list`.
pub fn parse_num_list_exec(s: &[u8], pos: usize, k: usize, max: u64) -> (r: Option<(
    Vec<u64>,
    usize,
)>)
    requires
        1 <= k <= 22,
    ensures
        match r {
            Some(p) => parse_num_list(s@, pos as int, k as nat, max as int) == Some(
                (p.0@.map_values(|v: u64| v as int), p.1 as int),
            ),
            None => parse_num_list(s@, pos as int, k as nat, max as int) is None,
        },
    decreases s@.len() - pos,
{
    if pos < s.len() && s[pos] == 93 {
        let vs: Vec<u64> = Vec::new();
        proof {
            assert(vs@.map_values(|v: u64| v as int) =~= Seq::<int>::empty());
        }
        return Some((vs, pos + 1));
    }
    if !(pos < s.len() && s[pos] == 34) {
        return None;
    }
    match parse_pad_exec(s, pos + 1, k, max) {
        None => None,
        Some(v) => {
            let q = pos + 1 + k;
            if !(q < s.len() && s[q] == 34) {
                return None;
            }
            if q + 1 < s.len() && s[q + 1] == 44 {
                match parse_num_list_exec(s, q + 2, k, max) {
                    None => None,
                    Some(p) => {
                        let ghost tail_ints = p.0@.map_values(|x: u64| x as int);
                        let mut vs = p.0;
                        vs.insert(0, v);
                        proof {
                            assert(vs@.map_values(|x: u64| x as int) =~= seq![v as int]
                                + tail_ints);
                        }
                        Some((vs, p.1))
                    },
                }
            } else if q + 1 < s.len() && s[q + 1] == 93 {
                let mut vs: Vec<u64> = Vec::new();
                vs.push(v);
                proof {
                    assert(vs@.map_values(|x: u64| x as int) =~= seq![v as int]);
                }
                Some((vs, q + 2))
            } else {
                None
            }
        },
    }
}

/// Append one quoted fixed-width decimal list (with its closing `]`),
/// reading the values from `xs[from..]`.
pub fn write_u8_list(out: &mut Vec<u8>, xs: &[u8], from: usize)
    requires
        from <= xs@.len(),
    ensures
        final(out)@ == old(out)@ + enc_num_list(
            xs@.skip(from as int).map_values(|b: u8| b as int),
            3,
        ),
    decreases xs@.len() - from,
{
    let ghost vs = xs@.skip(from as int).map_values(|b: u8| b as int);
    if from == xs.len() {
        out.push(93);
        proof {
            assert(vs =~= Seq::<int>::empty());
            assert(out@ =~= old(out)@ + enc_num_list(vs, 3));
        }
    } else {
        out.push(34);
        write_pad(out, xs[from] as u64, 3);
        out.push(34);
        proof {
            assert(vs.len() == xs@.len() - from);
            assert(vs[0] == xs@[from as int] as int);
        }
        if from + 1 == xs.len() {
            out.push(93);
            proof {
                assert(out@ =~= old(out)@ + (enc_el(vs[0], 3) + seq![93u8]));
                assert(enc_num_list(vs, 3) =~= enc_el(vs[0], 3) + seq![93u8]);
                assert(out@ =~= old(out)@ + enc_num_list(vs, 3));
            }
        } else {
            out.push(44);
            let ghost mid = out@;
            write_u8_list(out, xs, from + 1);
            proof {
                let rest = xs@.skip(from + 1).map_values(|b: u8| b as int);
                assert(vs.drop_first() =~= rest);
                assert(mid =~= old(out)@ + enc_el(vs[0], 3) + seq![44u8]);
                assert(out@ =~= mid + enc_num_list(rest, 3));
                assert(enc_num_list(vs, 3) =~= enc_el(vs[0], 3) + seq![44u8] + enc_num_list(
                    rest,
                    3,
                ));
                assert(out@ =~= old(out)@ + enc_num_list(vs, 3));
            }
        }
    }
}

/// Append one quoted fixed-width decimal list of 32-bit values.
pub fn write_u32_list(out: &mut Vec<u8>, xs: &[u32], from: usize)
    requires
        from <= xs@.len(),
    ensures
        final(out)@ == old(out)@ + enc_num_list(
            xs@.skip(from as int).map_values(|b: u32| b as int),
            10,
        ),
    decreases xs@.len() - from,
{
    let ghost vs = xs@.skip(from as int).map_values(|b: u32| b as int);
    if from == xs.len() {
        out.push(93);
        proof {
            assert(vs =~= Seq::<int>::empty());
            assert(out@ =~= old(out)@ + enc_num_list(vs, 10));
        }
    } else {
        out.push(34);
        write_pad(out, xs[from] as u64, 10);
        out.push(34);
        proof {
            assert(vs.len() == xs@.len() - from);
            assert(vs[0] == xs@[from as int] as int);
        }
        if from + 1 == xs.len() {
            out.push(93);
            proof {
                assert(out@ =~= old(out)@ + (enc_el(vs[0], 10) + seq![93u8]));
                assert(enc_num_list(vs, 10) =~= enc_el(vs[0], 10) + seq![93u8]);
                assert(out@ =~= old(out)@ + enc_num_list(vs, 10));
            }
        } else {
            out.push(44);
            let ghost mid = out@;
            write_u32_list(out, xs, from + 1);
            proof {
                let rest = xs@.skip(from + 1).map_values(|b: u32| b as int);
                assert(vs.drop_first() =~= rest);
                assert(mid =~= old(out)@ + enc_el(vs[0], 10) + seq![44u8]);
                assert(out@ =~= mid + enc_num_list(rest, 10));
                assert(enc_num_list(vs, 10) =~= enc_el(vs[0], 10) + seq![44u8] + enc_num_list(
                    rest,
                    10,
                ));
                assert(out@ =~= old(out)@ + enc_num_list(vs, 10));
            }
        }
    }
}


pub open spec fn lit_text() -> Seq<u8> {
    vstd::utf8::encode_utf8("{\"text\":["@)
}

pub open spec fn lit_vector() -> Seq<u8> {
    vstd::utf8::encode_utf8(",\"vector\":["@)
}

pub open spec fn lit_tags() -> Seq<u8> {
    vstd::utf8::encode_utf8(",\"tags\":["@)
}

pub open spec fn lit_timestamp() -> Seq<u8> {
    vstd::utf8::encode_utf8(",\"timestamp_ms\":\""@)
}

pub open spec fn lit_source() -> Seq<u8> {
    vstd::utf8::encode_utf8("\",\"source\":["@)
}

pub open spec fn lit_temporal() -> Seq<u8> {
    vstd::utf8::encode_utf8(",\"temporal_type\":["@)
}

pub open spec fn lit_from() -> Seq<u8> {
    vstd::utf8::encode_utf8(",\"valid_from_ms\":\""@)
}

pub open spec fn lit_to() -> Seq<u8> {
    vstd::utf8::encode_utf8("\",\"valid_to_ms\":\""@)
}

pub open spec fn lit_etype() -> Seq<u8> {
    vstd::utf8::encode_utf8("\",\"entity_type\":["@)
}

pub open spec fn lit_eid() -> Seq<u8> {
    vstd::utf8::encode_utf8(",\"entity_id\":["@)
}

pub open spec fn lit_close() -> Seq<u8> {
    vstd::utf8::encode_utf8("}"@)
}

pub open spec fn u8_ints(s: Seq<u8>) -> Seq<int> {
    s.map_values(|b: u8| b as int)
}

pub open spec fn u32_ints(s: Seq<u32>) -> Seq<int> {
    s.map_values(|v: u32| v as int)
}

/// One entry as a line of JSON: byte values of the text fields as quoted
/// three-digit decimals, embedding components as quoted ten-digit
/// decimals of their bit patterns, and timestamps as quoted twenty-digit
/// decimals.
#[verifier::opaque]
pub open spec fn enc_entry(e: MemoryEntry) -> Seq<u8> {
    lit_text() + enc_num_list(u8_ints(vstd::utf8::encode_utf8(e.text@)), 3) + lit_vector()
        + enc_num_list(u32_ints(e.vector@), 10) + lit_tags() + enc_num_list(
        u8_ints(vstd::utf8::encode_utf8(e.tags@)),
        3,
    ) + lit_timestamp() + dec_pad(e.timestamp_ms as int, 20) + lit_source() + enc_num_list(
        u8_ints(vstd::utf8::encode_utf8(e.source@)),
        3,
    ) + lit_temporal() + enc_num_list(u8_ints(vstd::utf8::encode_utf8(e.temporal_type@)), 3)
        + lit_from() + dec_pad(e.valid_from_ms as int, 20) + lit_to() + dec_pad(
        e.valid_to_ms as int,
        20,
    ) + lit_etype() + enc_num_list(u8_ints(vstd::utf8::encode_utf8(e.entity_type@)), 3)
        + lit_eid() + enc_num_list(u8_ints(vstd::utf8::encode_utf8(e.entity_id@)), 3)
        + lit_close()
}

/// Append the bytes of a literal.
fn push_lit(out: &mut Vec<u8>, lit: &str)
    ensures
        final(out)@ == old(out)@ + vstd::utf8::encode_utf8(lit@),
{
    let lb = lit.as_bytes();
    let mut i: usize = 0;
    while i < lb.len()
        invariant
            0 <= i <= lb@.len(),
            out@ == old(out)@ + lb@.take(i as int),
        decreases lb@.len() - i,
    {
        out.push(lb[i]);
        proof {
            assert(lb@.take(i + 1) =~= lb@.take(i as int).push(lb@[i as int]));
        }
        i = i + 1;
    }
    proof {
        assert(lb@.take(lb@.len() as int) =~= lb@);
    }
}

/// Append the bytes of a string's UTF-8 form as a quoted decimal list.
fn write_text_list(out: &mut Vec<u8>, s: &str)
    ensures
        final(out)@ == old(out)@ + enc_num_list(u8_ints(vstd::utf8::encode_utf8(s@)), 3),
{
    let sb = s.as_bytes();
    proof {
        assert(sb@.skip(0) =~= sb@);
    }
    write_u8_list(out, sb, 0);
}

/// Render one entry as its line.
pub fn encode_entry(e: &MemoryEntry) -> (r: Vec<u8>)
    ensures
        r@ == enc_entry(*e),
{
    let mut out: Vec<u8> = Vec::new();
    push_lit(&mut out, "{\"text\":[");
    write_text_list(&mut out, e.text.as_str());
    push_lit(&mut out, ",\"vector\":[");
    proof {
        assert(e.vector@.skip(0) =~= e.vector@);
    }
    write_u32_list(&mut out, e.vector.as_slice(), 0);
    push_lit(&mut out, ",\"tags\":[");
    write_text_list(&mut out, e.tags.as_str());
    push_lit(&mut out, ",\"timestamp_ms\":\"");
    write_pad(&mut out, e.timestamp_ms, 20);
    push_lit(&mut out, "\",\"source\":[");
    write_text_list(&mut out, e.source.as_str());
    push_lit(&mut out, ",\"temporal_type\":[");
    write_text_list(&mut out, e.temporal_type.as_str());
    push_lit(&mut out, ",\"valid_from_ms\":\"");
    write_pad(&mut out, e.valid_from_ms, 20);
    push_lit(&mut out, "\",\"valid_to_ms\":\"");
    write_pad(&mut out, e.valid_to_ms, 20);
    push_lit(&mut out, "\",\"entity_type\":[");
    write_text_list(&mut out, e.entity_type.as_str());
    push_lit(&mut out, ",\"entity_id\":[");
    write_text_list(&mut out, e.entity_id.as_str());
    push_lit(&mut out, "}");
    proof {
        reveal(enc_entry);
        assert(out@ =~= enc_entry(*e));
    }
    out
}


/// The raw values one parsed line denotes.
pub struct ParsedEntry {
    pub text: Seq<int>,
    pub vector: Seq<int>,
    pub tags: Seq<int>,
    pub timestamp_ms: int,
    pub source: Seq<int>,
    pub temporal_type: Seq<int>,
    pub valid_from_ms: int,
    pub valid_to_ms: int,
    pub entity_type: Seq<int>,
    pub entity_id: Seq<int>,
}

/// The literal occurs at `pos`; the position after it.
pub open spec fn expect(s: Seq<u8>, pos: int, lit: Seq<u8>) -> Option<int> {
    if 0 <= pos && pos + lit.len() <= s.len() && s.subrange(pos, pos + lit.len()) == lit {
        Some(pos + lit.len())
    } else {
        None
    }
}

/// Text, vector, tags and timestamp, with the position after the
/// timestamp's digits.
pub open spec fn parse_head(s: Seq<u8>) -> Option<(Seq<int>, Seq<int>, Seq<int>, int, int)> {
    match expect(s, 0, lit_text()) {
        None => None,
        Some(p1) => match parse_num_list(s, p1, 3, 255) {
            None => None,
            Some((text, p2)) => match expect(s, p2, lit_vector()) {
                None => None,
                Some(p3) => match parse_num_list(s, p3, 10, 4294967295) {
                    None => None,
                    Some((vector, p4)) => match expect(s, p4, lit_tags()) {
                        None => None,
                        Some(p5) => match parse_num_list(s, p5, 3, 255) {
                            None => None,
                            Some((tags, p6)) => match expect(s, p6, lit_timestamp()) {
                                None => None,
                                Some(p7) => match parse_pad(s, p7, 20, u64::MAX as int) {
                                    None => None,
                                    Some(ts) => Some((text, vector, tags, ts, p7 + 20)),
                                },
                            },
                        },
                    },
                },
            },
        },
    }
}

/// Source, temporal type and the validity window, with the position after
/// the window's digits.
pub open spec fn parse_mid(s: Seq<u8>, pos: int) -> Option<(Seq<int>, Seq<int>, int, int, int)> {
    match expect(s, pos, lit_source()) {
        None => None,
        Some(p8) => match parse_num_list(s, p8, 3, 255) {
            None => None,
            Some((source, p9)) => match expect(s, p9, lit_temporal()) {
                None => None,
                Some(p10) => match parse_num_list(s, p10, 3, 255) {
                    None => None,
                    Some((temporal, p11)) => match expect(s, p11, lit_from()) {
                        None => None,
                        Some(p12) => match parse_pad(s, p12, 20, u64::MAX as int) {
                            None => None,
                            Some(vf) => match expect(s, p12 + 20, lit_to()) {
                                None => None,
                                Some(p13) => match parse_pad(s, p13, 20, u64::MAX as int) {
                                    None => None,
                                    Some(vt) => Some((source, temporal, vf, vt, p13 + 20)),
                                },
                            },
                        },
                    },
                },
            },
        },
    }
}

/// Entity linkage and the closing brace, which must end the line.
pub open spec fn parse_tail(s: Seq<u8>, pos: int) -> Option<(Seq<int>, Seq<int>)> {
    match expect(s, pos, lit_etype()) {
        None => None,
        Some(p14) => match parse_num_list(s, p14, 3, 255) {
            None => None,
            Some((etype, p15)) => match expect(s, p15, lit_eid()) {
                None => None,
                Some(p16) => match parse_num_list(s, p16, 3, 255) {
                    None => None,
                    Some((eid, p17)) => match expect(s, p17, lit_close()) {
                        None => None,
                        Some(p18) => if p18 == s.len() {
                            Some((etype, eid))
                        } else {
                            None
                        },
                    },
                },
            },
        },
    }
}

/// Parse one line of the persistence format.
pub open spec fn parse_entry(s: Seq<u8>) -> Option<ParsedEntry> {
    match parse_head(s) {
        None => None,
        Some((text, vector, tags, ts, pa)) => match parse_mid(s, pa) {
            None => None,
            Some((source, temporal, vf, vt, pb)) => match parse_tail(s, pb) {
                None => None,
                Some((etype, eid)) => Some(
                    ParsedEntry {
                        text,
                        vector,
                        tags,
                        timestamp_ms: ts,
                        source,
                        temporal_type: temporal,
                        valid_from_ms: vf,
                        valid_to_ms: vt,
                        entity_type: etype,
                        entity_id: eid,
                    },
                ),
            },
        },
    }
}

/// The decoded entry carries exactly the values the line denotes.
pub open spec fn entry_matches(e: MemoryEntry, p: ParsedEntry) -> bool {
    &&& p.text == u8_ints(vstd::utf8::encode_utf8(e.text@))
    &&& p.vector == u32_ints(e.vector@)
    &&& p.tags == u8_ints(vstd::utf8::encode_utf8(e.tags@))
    &&& p.timestamp_ms == e.timestamp_ms
    &&& p.source == u8_ints(vstd::utf8::encode_utf8(e.source@))
    &&& p.temporal_type == u8_ints(vstd::utf8::encode_utf8(e.temporal_type@))
    &&& p.valid_from_ms == e.valid_from_ms
    &&& p.valid_to_ms == e.valid_to_ms
    &&& p.entity_type == u8_ints(vstd::utf8::encode_utf8(e.entity_type@))
    &&& p.entity_id == u8_ints(vstd::utf8::encode_utf8(e.entity_id@))
}

/// The byte values of a parsed field, as bytes.
pub open spec fn ints_u8(s: Seq<int>) -> Seq<u8> {
    s.map_values(|v: int| v as u8)
}

/// Every text field of the parsed line is valid UTF-8.
pub open spec fn parsed_text_ok(p: ParsedEntry) -> bool {
    &&& vstd::utf8::valid_utf8(ints_u8(p.text))
    &&& vstd::utf8::valid_utf8(ints_u8(p.tags))
    &&& vstd::utf8::valid_utf8(ints_u8(p.source))
    &&& vstd::utf8::valid_utf8(ints_u8(p.temporal_type))
    &&& vstd::utf8::valid_utf8(ints_u8(p.entity_type))
    &&& vstd::utf8::valid_utf8(ints_u8(p.entity_id))
}

/// The parsed values of a text field, as a string.
fn field_to_string(vs: &Vec<u64>) -> (r: Option<String>)
    requires
        forall|i: int| 0 <= i < vs@.len() ==> #[trigger] vs@[i] <= 255,
    ensures
        match r {
            Some(t) => vstd::utf8::encode_utf8(t@) =~= ints_u8(
                vs@.map_values(|v: u64| v as int),
            ),
            None => !vstd::utf8::valid_utf8(ints_u8(vs@.map_values(|v: u64| v as int))),
        },
{
    let mut bytes: Vec<u8> = Vec::new();
    let mut i: usize = 0;
    while i < vs.len()
        invariant
            0 <= i <= vs@.len(),
            forall|j: int| 0 <= j < vs@.len() ==> #[trigger] vs@[j] <= 255,
            bytes@.len() == i,
            forall|j: int| 0 <= j < i ==> #[trigger] bytes@[j] == vs@[j] as u8,
        decreases vs@.len() - i,
    {
        bytes.push(vs[i] as u8);
        i = i + 1;
    }
    proof {
        assert(bytes@ =~= ints_u8(vs@.map_values(|v: u64| v as int)));
    }
    crate::host::bytes_to_string(bytes)
}

/// Decode the first fields of a line, mirroring `parse_head`.
#[verifier::spinoff_prover]
fn decode_head(s: &[u8]) -> (r: Option<(Vec<u64>, Vec<u64>, Vec<u64>, u64, usize)>)
    ensures
        match r {
            Some(h) => parse_head(s@) == Some(
                (
                    h.0@.map_values(|v: u64| v as int),
                    h.1@.map_values(|v: u64| v as int),
                    h.2@.map_values(|v: u64| v as int),
                    h.3 as int,
                    h.4 as int,
                ),
            ),
            None => parse_head(s@) is None,
        },
{
    let n = s.len();
    let p1 = match expect_lit(s, 0, "{\"text\":[") {
        None => {
            return None;
        },
        Some(p) => p,
    };
    let (text_raw, p2) = match parse_num_list_exec(s, p1, 3, 255) {
        None => {
            return None;
        },
        Some(x) => x,
    };
    let p3 = match expect_lit(s, p2, ",\"vector\":[") {
        None => {
            return None;
        },
        Some(p) => p,
    };
    let (vector_raw, p4) = match parse_num_list_exec(s, p3, 10, 4294967295) {
        None => {
            return None;
        },
        Some(x) => x,
    };
    let p5 = match expect_lit(s, p4, ",\"tags\":[") {
        None => {
            return None;
        },
        Some(p) => p,
    };
    let (tags_raw, p6) = match parse_num_list_exec(s, p5, 3, 255) {
        None => {
            return None;
        },
        Some(x) => x,
    };
    let p7 = match expect_lit(s, p6, ",\"timestamp_ms\":\"") {
        None => {
            return None;
        },
        Some(p) => p,
    };
    let ts = match parse_pad_exec(s, p7, 20, u64::MAX) {
        None => {
            return None;
        },
        Some(v) => v,
    };
    proof {
        assert(p7 + 20 <= n);
    }
    Some((text_raw, vector_raw, tags_raw, ts, p7 + 20))
}

/// Decode the middle fields of a line, mirroring `parse_mid`.
#[verifier::spinoff_prover]
fn decode_mid(s: &[u8], pos: usize) -> (r: Option<(Vec<u64>, Vec<u64>, u64, u64, usize)>)
    ensures
        match r {
            Some(h) => parse_mid(s@, pos as int) == Some(
                (
                    h.0@.map_values(|v: u64| v as int),
                    h.1@.map_values(|v: u64| v as int),
                    h.2 as int,
                    h.3 as int,
                    h.4 as int,
                ),
            ),
            None => parse_mid(s@, pos as int) is None,
        },
{
    let n = s.len();
    let p8 = match expect_lit(s, pos, "\",\"source\":[") {
        None => {
            return None;
        },
        Some(p) => p,
    };
    let (source_raw, p9) = match parse_num_list_exec(s, p8, 3, 255) {
        None => {
            return None;
        },
        Some(x) => x,
    };
    let p10 = match expect_lit(s, p9, ",\"temporal_type\":[") {
        None => {
            return None;
        },
        Some(p) => p,
    };
    let (temporal_raw, p11) = match parse_num_list_exec(s, p10, 3, 255) {
        None => {
            return None;
        },
        Some(x) => x,
    };
    let p12 = match expect_lit(s, p11, ",\"valid_from_ms\":\"") {
        None => {
            return None;
        },
        Some(p) => p,
    };
    let vf = match parse_pad_exec(s, p12, 20, u64::MAX) {
        None => {
            return None;
        },
        Some(v) => v,
    };
    proof {
        assert(p12 + 20 <= n);
    }
    let p13 = match expect_lit(s, p12 + 20, "\",\"valid_to_ms\":\"") {
        None => {
            return None;
        },
        Some(p) => p,
    };
    let vt = match parse_pad_exec(s, p13, 20, u64::MAX) {
        None => {
            return None;
        },
        Some(v) => v,
    };
    proof {
        assert(p13 + 20 <= n);
    }
    Some((source_raw, temporal_raw, vf, vt, p13 + 20))
}

/// Decode the entity fields and the closing brace, mirroring `parse_tail`.
#[verifier::spinoff_prover]
fn decode_tail(s: &[u8], pos: usize) -> (r: Option<(Vec<u64>, Vec<u64>)>)
    ensures
        match r {
            Some(h) => parse_tail(s@, pos as int) == Some(
                (h.0@.map_values(|v: u64| v as int), h.1@.map_values(|v: u64| v as int)),
            ),
            None => parse_tail(s@, pos as int) is None,
        },
{
    let n = s.len();
    let p14 = match expect_lit(s, pos, "\",\"entity_type\":[") {
        None => {
            return None;
        },
        Some(p) => p,
    };
    let (etype_raw, p15) = match parse_num_list_exec(s, p14, 3, 255) {
        None => {
            return None;
        },
        Some(x) => x,
    };
    let p16 = match expect_lit(s, p15, ",\"entity_id\":[") {
        None => {
            return None;
        },
        Some(p) => p,
    };
    let (eid_raw, p17) = match parse_num_list_exec(s, p16, 3, 255) {
        None => {
            return None;
        },
        Some(x) => x,
    };
    let p18 = match expect_lit(s, p17, "}") {
        None => {
            return None;
        },
        Some(p) => p,
    };
    if p18 != n {
        return None;
    }
    Some((etype_raw, eid_raw))
}

/// Decode one line. A line that does not follow the format, or whose text
/// fields are not valid UTF-8, yields nothing.
#[verifier::rlimit(100)]
#[verifier::spinoff_prover]
pub fn decode_entry(line: &[u8]) -> (r: Option<MemoryEntry>)
    ensures
        match r {
            Some(e) => parse_entry(line@) is Some && entry_matches(e, parse_entry(line@)->Some_0),
            None => parse_entry(line@) is None || !parsed_text_ok(parse_entry(line@)->Some_0),
        },
{
    let s = line;
    let (text_raw, vector_raw, tags_raw, ts, pa) = match decode_head(s) {
        None => {
            return None;
        },
        Some(x) => x,
    };
    let (source_raw, temporal_raw, vf, vt, pb) = match decode_mid(s, pa) {
        None => {
            return None;
        },
        Some(x) => x,
    };
    let (etype_raw, eid_raw) = match decode_tail(s, pb) {
        None => {
            return None;
        },
        Some(x) => x,
    };
    // the vector components are bit patterns of 32-bit values
    let ghost p1 = expect(s@, 0, lit_text())->Some_0;
    let ghost p3 = expect(
        s@,
        parse_num_list(s@, p1, 3, 255)->Some_0.1,
        lit_vector(),
    )->Some_0;
    proof {
        lemma_exec_list_bounded(s@, p3, 10, 4294967295, vector_raw@);
    }
    let mut vector: Vec<u32> = Vec::new();
    let mut i: usize = 0;
    while i < vector_raw.len()
        invariant
            0 <= i <= vector_raw@.len(),
            forall|j: int| 0 <= j < vector_raw@.len() ==> #[trigger] vector_raw@[j] <= 4294967295,
            vector@.len() == i,
            forall|j: int| 0 <= j < i ==> #[trigger] vector@[j] == vector_raw@[j] as u32,
        decreases vector_raw@.len() - i,
    {
        vector.push(vector_raw[i] as u32);
        i = i + 1;
    }
    proof {
        lemma_exec_field_bounded(s@, text_raw@, tags_raw@, source_raw@, temporal_raw@, etype_raw@, eid_raw@, pa as int, pb as int);
    }
    let text = match field_to_string(&text_raw) {
        None => {
            return None;
        },
        Some(t) => t,
    };
    let tags = match field_to_string(&tags_raw) {
        None => {
            return None;
        },
        Some(t) => t,
    };
    let source = match field_to_string(&source_raw) {
        None => {
            return None;
        },
        Some(t) => t,
    };
    let temporal_type = match field_to_string(&temporal_raw) {
        None => {
            return None;
        },
        Some(t) => t,
    };
    let entity_type = match field_to_string(&etype_raw) {
        None => {
            return None;
        },
        Some(t) => t,
    };
    let entity_id = match field_to_string(&eid_raw) {
        None => {
            return None;
        },
        Some(t) => t,
    };
    let e = MemoryEntry {
        text,
        vector,
        tags,
        timestamp_ms: ts,
        source,
        temporal_type,
        valid_from_ms: vf,
        valid_to_ms: vt,
        entity_type,
        entity_id,
    };
    proof {
        assert(u32_ints(e.vector@) =~= vector_raw@.map_values(|v: u64| v as int));
        lemma_text_field_matches(e.text@, text_raw@);
        lemma_text_field_matches(e.tags@, tags_raw@);
        lemma_text_field_matches(e.source@, source_raw@);
        lemma_text_field_matches(e.temporal_type@, temporal_raw@);
        lemma_text_field_matches(e.entity_type@, etype_raw@);
        lemma_text_field_matches(e.entity_id@, eid_raw@);
    }
    Some(e)
}

/// A recovered string matches its parsed byte values.
proof fn lemma_text_field_matches(t: Seq<char>, raw: Seq<u64>)
    requires
        vstd::utf8::encode_utf8(t) == ints_u8(raw.map_values(|v: u64| v as int)),
        forall|j: int| 0 <= j < raw.len() ==> #[trigger] raw[j] <= 255,
    ensures
        u8_ints(vstd::utf8::encode_utf8(t)) == raw.map_values(|v: u64| v as int),
{
    let m = raw.map_values(|v: u64| v as int);
    assert forall|j: int| 0 <= j < m.len() implies u8_ints(ints_u8(m))[j] == m[j] by {
        assert(ints_u8(m)[j] == m[j] as u8);
        assert(m[j] == raw[j] as int);
    }
    assert(u8_ints(vstd::utf8::encode_utf8(t)) =~= m);
}

/// Bounds for every text field's values, extracted from the three parse
/// stages.
proof fn lemma_exec_field_bounded(
    s: Seq<u8>,
    text_raw: Seq<u64>,
    tags_raw: Seq<u64>,
    source_raw: Seq<u64>,
    temporal_raw: Seq<u64>,
    etype_raw: Seq<u64>,
    eid_raw: Seq<u64>,
    pa: int,
    pb: int,
)
    requires
        parse_head(s) is Some,
        parse_head(s)->Some_0.0 == text_raw.map_values(|v: u64| v as int),
        parse_head(s)->Some_0.2 == tags_raw.map_values(|v: u64| v as int),
        parse_head(s)->Some_0.4 == pa,
        parse_mid(s, pa) is Some,
        parse_mid(s, pa)->Some_0.0 == source_raw.map_values(|v: u64| v as int),
        parse_mid(s, pa)->Some_0.1 == temporal_raw.map_values(|v: u64| v as int),
        parse_mid(s, pa)->Some_0.4 == pb,
        parse_tail(s, pb) is Some,
        parse_tail(s, pb)->Some_0.0 == etype_raw.map_values(|v: u64| v as int),
        parse_tail(s, pb)->Some_0.1 == eid_raw.map_values(|v: u64| v as int),
    ensures
        forall|j: int| 0 <= j < text_raw.len() ==> #[trigger] text_raw[j] <= 255,
        forall|j: int| 0 <= j < tags_raw.len() ==> #[trigger] tags_raw[j] <= 255,
        forall|j: int| 0 <= j < source_raw.len() ==> #[trigger] source_raw[j] <= 255,
        forall|j: int| 0 <= j < temporal_raw.len() ==> #[trigger] temporal_raw[j] <= 255,
        forall|j: int| 0 <= j < etype_raw.len() ==> #[trigger] etype_raw[j] <= 255,
        forall|j: int| 0 <= j < eid_raw.len() ==> #[trigger] eid_raw[j] <= 255,
{
    let p1 = expect(s, 0, lit_text())->Some_0;
    lemma_exec_list_bounded(s, p1, 3, 255, text_raw);
    let p2 = parse_num_list(s, p1, 3, 255)->Some_0.1;
    let p3 = expect(s, p2, lit_vector())->Some_0;
    let p4 = parse_num_list(s, p3, 10, 4294967295)->Some_0.1;
    let p5 = expect(s, p4, lit_tags())->Some_0;
    lemma_exec_list_bounded(s, p5, 3, 255, tags_raw);
    let p8 = expect(s, pa, lit_source())->Some_0;
    lemma_exec_list_bounded(s, p8, 3, 255, source_raw);
    let p9 = parse_num_list(s, p8, 3, 255)->Some_0.1;
    let p10 = expect(s, p9, lit_temporal())->Some_0;
    lemma_exec_list_bounded(s, p10, 3, 255, temporal_raw);
    let p14 = expect(s, pb, lit_etype())->Some_0;
    lemma_exec_list_bounded(s, p14, 3, 255, etype_raw);
    let p15 = parse_num_list(s, p14, 3, 255)->Some_0.1;
    let p16 = expect(s, p15, lit_eid())->Some_0;
    lemma_exec_list_bounded(s, p16, 3, 255, eid_raw);
}

/// Bounds carried from a list parse onto the machine values the decoder
/// collected.
proof fn lemma_exec_list_bounded(s: Seq<u8>, pos: int, k: nat, max: int, vsv: Seq<u64>)
    requires
        0 <= pos,
        parse_num_list(s, pos, k, max) is Some,
        parse_num_list(s, pos, k, max)->Some_0.0 == vsv.map_values(|v: u64| v as int),
    ensures
        forall|j: int| 0 <= j < vsv.len() ==> #[trigger] vsv[j] <= max,
{
    lemma_list_values_bounded(s, pos, k, max);
    assert forall|j: int| 0 <= j < vsv.len() implies #[trigger] vsv[j] <= max by {
        assert(vsv.map_values(|v: u64| v as int)[j] == vsv[j] as int);
        assert(parse_num_list(s, pos, k, max)->Some_0.0[j] <= max);
    }
}

/// Every value a list parse accepted is within the cap it was parsed
/// under.
proof fn lemma_list_values_bounded(s: Seq<u8>, pos: int, k: nat, max: int)
    requires
        0 <= pos,
        parse_num_list(s, pos, k, max) is Some,
    ensures
        forall|j: int|
            0 <= j < parse_num_list(s, pos, k, max)->Some_0.0.len() ==> (0 <= #[trigger]
            parse_num_list(s, pos, k, max)->Some_0.0[j] <= max),
    decreases s.len() - pos,
{
    let vs = parse_num_list(s, pos, k, max)->Some_0.0;
    if pos < s.len() && s[pos] == 93 {
    } else if pos < s.len() && s[pos] == 34 {
        match parse_pad(s, pos + 1, k, max) {
            None => {},
            Some(v) => {
                assert(forall|i: int|
                    0 <= i < k ==> is_digit(#[trigger] s.subrange(pos + 1, pos + 1 + k)[i]));
                lemma_val_digits_nonneg(s.subrange(pos + 1, pos + 1 + k));
                let q = pos + 1 + k;
                if q < s.len() && s[q] == 34 {
                    if q + 1 < s.len() && s[q + 1] == 44 {
                        lemma_list_values_bounded(s, q + 2, k, max);
                        let tail = parse_num_list(s, q + 2, k, max)->Some_0.0;
                        assert forall|j: int| 0 <= j < vs.len() implies (0 <= #[trigger] vs[j]
                            <= max) by {
                            if j > 0 {
                                assert(vs[j] == tail[j - 1]);
                            }
                        }
                    }
                }
            },
        }
    }
}

proof fn lemma_val_digits_nonneg(ds: Seq<u8>)
    requires
        forall|i: int| 0 <= i < ds.len() ==> is_digit(#[trigger] ds[i]),
    ensures
        val_digits(ds) >= 0,
    decreases ds.len(),
{
    if ds.len() > 0 {
        assert(forall|i: int| 0 <= i < ds.drop_last().len() ==> is_digit(
            #[trigger] ds.drop_last()[i],
        ));
        lemma_val_digits_nonneg(ds.drop_last());
    }
}

/// The literal occurs at `pos`?
fn expect_lit(s: &[u8], pos: usize, lit: &str) -> (r: Option<usize>)
    ensures
        match r {
            Some(p) => expect(s@, pos as int, vstd::utf8::encode_utf8(lit@)) == Some(p as int)
                && pos <= p <= s@.len(),
            None => expect(s@, pos as int, vstd::utf8::encode_utf8(lit@)) is None,
        },
{
    let lb = lit.as_bytes();
    if pos > s.len() || lb.len() > s.len() - pos {
        return None;
    }
    if crate::scan::match_at(s, pos, lb) {
        Some(pos + lb.len())
    } else {
        None
    }
}


/// Whether a parsed line also has decodable text fields.
pub open spec fn line_keeps(line: Seq<u8>) -> bool {
    parse_entry(line) is Some && parsed_text_ok(parse_entry(line)->Some_0)
}

/// What loading a list of lines yields: the parsed values of every line
/// that follows the format, in order; blank and unparsable lines are
/// skipped.
pub open spec fn load_spec(lines: Seq<Seq<u8>>) -> Seq<ParsedEntry>
    decreases lines.len(),
{
    if lines.len() == 0 {
        Seq::<ParsedEntry>::empty()
    } else {
        load_spec(lines.drop_last()) + (if line_keeps(lines.last()) {
            seq![parse_entry(lines.last())->Some_0]
        } else {
            Seq::<ParsedEntry>::empty()
        })
    }
}

/// A decoded entry's text fields are valid UTF-8 as parsed.
pub proof fn lemma_decoded_text_ok(e: MemoryEntry, p: ParsedEntry)
    requires
        entry_matches(e, p),
    ensures
        parsed_text_ok(p),
{
    broadcast use vstd::utf8::encode_utf8_valid_utf8;

    assert(ints_u8(p.text) =~= vstd::utf8::encode_utf8(e.text@));
    assert(ints_u8(p.tags) =~= vstd::utf8::encode_utf8(e.tags@));
    assert(ints_u8(p.source) =~= vstd::utf8::encode_utf8(e.source@));
    assert(ints_u8(p.temporal_type) =~= vstd::utf8::encode_utf8(e.temporal_type@));
    assert(ints_u8(p.entity_type) =~= vstd::utf8::encode_utf8(e.entity_type@));
    assert(ints_u8(p.entity_id) =~= vstd::utf8::encode_utf8(e.entity_id@));
}

/// Render entries as lines, one per entry.
pub fn encode_entries(entries: &Vec<MemoryEntry>) -> (lines: Vec<Vec<u8>>)
    ensures
        lines@.len() == entries@.len(),
        forall|i: int| 0 <= i < entries@.len() ==> #[trigger] lines@[i]@ == enc_entry(entries@[i]),
{
    let mut lines: Vec<Vec<u8>> = Vec::new();
    let mut i: usize = 0;
    while i < entries.len()
        invariant
            0 <= i <= entries@.len(),
            lines@.len() == i,
            forall|j: int| 0 <= j < i ==> #[trigger] lines@[j]@ == enc_entry(entries@[j]),
        decreases entries@.len() - i,
    {
        let line = encode_entry(&entries[i]);
        lines.push(line);
        i = i + 1;
    }
    lines
}

/// Load entries back from lines, skipping whatever does not parse.
pub fn decode_entries(lines: &Vec<Vec<u8>>) -> (r: Vec<MemoryEntry>)
    ensures
        r@.len() == load_spec(lines@.map_values(|l: Vec<u8>| l@)).len(),
        forall|i: int|
            0 <= i < r@.len() ==> entry_matches(
                #[trigger] r@[i],
                load_spec(lines@.map_values(|l: Vec<u8>| l@))[i],
            ),
{
    let ghost lv = lines@.map_values(|l: Vec<u8>| l@);
    let mut r: Vec<MemoryEntry> = Vec::new();
    let mut i: usize = 0;
    proof {
        assert(lv.take(0) =~= Seq::<Seq<u8>>::empty());
    }
    while i < lines.len()
        invariant
            0 <= i <= lines@.len(),
            lv == lines@.map_values(|l: Vec<u8>| l@),
            r@.len() == load_spec(lv.take(i as int)).len(),
            forall|j: int|
                0 <= j < r@.len() ==> entry_matches(
                    #[trigger] r@[j],
                    load_spec(lv.take(i as int))[j],
                ),
        decreases lines@.len() - i,
    {
        proof {
            assert(lv.take(i + 1).drop_last() =~= lv.take(i as int));
            assert(lv.take(i + 1).last() == lv[i as int]);
            assert(lv[i as int] == lines@[i as int]@);
        }
        let line = &lines[i];
        match decode_entry(line.as_slice()) {
            Some(e) => {
                proof {
                    lemma_decoded_text_ok(e, parse_entry(lv[i as int])->Some_0);
                    assert(line_keeps(lv[i as int]));
                }
                r.push(e);
            },
            None => {
                proof {
                    assert(!line_keeps(lv[i as int]));
                    assert(load_spec(lv.take(i + 1)) =~= load_spec(lv.take(i as int)));
                }
            },
        }
        i = i + 1;
    }
    proof {
        assert(lv.take(lv.len() as int) =~= lv);
    }
    r
}


/// The pieces an encoded line is made of, in order.
pub open spec fn piece(e: MemoryEntry, k: int) -> Seq<u8> {
    if k == 0 {
        lit_text()
    } else if k == 1 {
        enc_num_list(u8_ints(vstd::utf8::encode_utf8(e.text@)), 3)
    } else if k == 2 {
        lit_vector()
    } else if k == 3 {
        enc_num_list(u32_ints(e.vector@), 10)
    } else if k == 4 {
        lit_tags()
    } else if k == 5 {
        enc_num_list(u8_ints(vstd::utf8::encode_utf8(e.tags@)), 3)
    } else if k == 6 {
        lit_timestamp()
    } else if k == 7 {
        dec_pad(e.timestamp_ms as int, 20)
    } else if k == 8 {
        lit_source()
    } else if k == 9 {
        enc_num_list(u8_ints(vstd::utf8::encode_utf8(e.source@)), 3)
    } else if k == 10 {
        lit_temporal()
    } else if k == 11 {
        enc_num_list(u8_ints(vstd::utf8::encode_utf8(e.temporal_type@)), 3)
    } else if k == 12 {
        lit_from()
    } else if k == 13 {
        dec_pad(e.valid_from_ms as int, 20)
    } else if k == 14 {
        lit_to()
    } else if k == 15 {
        dec_pad(e.valid_to_ms as int, 20)
    } else if k == 16 {
        lit_etype()
    } else if k == 17 {
        enc_num_list(u8_ints(vstd::utf8::encode_utf8(e.entity_type@)), 3)
    } else if k == 18 {
        lit_eid()
    } else if k == 19 {
        enc_num_list(u8_ints(vstd::utf8::encode_utf8(e.entity_id@)), 3)
    } else if k == 20 {
        lit_close()
    } else {
        Seq::<u8>::empty()
    }
}

/// The offset at which piece `k` starts.
pub open spec fn offset(e: MemoryEntry, k: int) -> int
    decreases k,
{
    if k <= 0 {
        0
    } else {
        offset(e, k - 1) + piece(e, k - 1).len()
    }
}

/// The first `k` pieces, concatenated.
pub open spec fn prefix_enc(e: MemoryEntry, k: int) -> Seq<u8>
    decreases k,
{
    if k <= 0 {
        Seq::<u8>::empty()
    } else {
        prefix_enc(e, k - 1) + piece(e, k - 1)
    }
}

/// The line is exactly its pieces.
#[verifier::rlimit(100)]
#[verifier::spinoff_prover]
proof fn lemma_enc_is_pieces(e: MemoryEntry)
    ensures
        enc_entry(e) == prefix_enc(e, 21),
        enc_entry(e).len() == offset(e, 21),
        offset(e, 21) >= 0,
{
    reveal(enc_entry);
    reveal_with_fuel(prefix_enc, 22);
    reveal_with_fuel(offset, 22);
    assert(enc_entry(e) =~= prefix_enc(e, 21));
    lemma_offsets_nonneg(e, 21);
    assert(prefix_enc(e, 21).len() == offset(e, 21)) by {
        lemma_prefix_len(e, 21);
    }
}

proof fn lemma_prefix_len(e: MemoryEntry, k: int)
    requires
        k >= 0,
    ensures
        prefix_enc(e, k).len() == offset(e, k),
    decreases k,
{
    if k > 0 {
        lemma_prefix_len(e, k - 1);
        assert(prefix_enc(e, k) == prefix_enc(e, k - 1) + piece(e, k - 1));
        assert(offset(e, k) == offset(e, k - 1) + piece(e, k - 1).len());
    }
}

proof fn lemma_offsets_nonneg(e: MemoryEntry, k: int)
    ensures
        offset(e, k) >= 0,
    decreases (if k <= 0 {
        0int
    } else {
        k
    }),
{
    if k > 0 {
        assert(offset(e, k) == offset(e, k - 1) + piece(e, k - 1).len());
        lemma_offsets_nonneg(e, k - 1);
    }
}

/// Each piece stands at its offset in the encoded line.
proof fn lemma_segment(e: MemoryEntry, k: int)
    requires
        0 <= k <= 21,
    ensures
        enc_entry(e).subrange(0, offset(e, k)) == prefix_enc(e, k),
        k < 21 ==> enc_entry(e).subrange(offset(e, k), offset(e, k + 1)) == piece(e, k),
        0 <= offset(e, k) <= enc_entry(e).len(),
        k < 21 ==> offset(e, k + 1) <= enc_entry(e).len(),
    decreases 21 - k,
{
    lemma_enc_is_pieces(e);
    lemma_offsets_nonneg(e, k);
    lemma_prefix_len(e, k);
    if k == 21 {
        assert(enc_entry(e).subrange(0, offset(e, 21)) =~= enc_entry(e));
    } else {
        lemma_segment(e, k + 1);
        assert(prefix_enc(e, k + 1) == prefix_enc(e, k) + piece(e, k));
        lemma_prefix_split(enc_entry(e), offset(e, k + 1), prefix_enc(e, k), piece(e, k));
    }
}

/// Carving the last piece off a prefix of `s`.
proof fn lemma_prefix_split(s: Seq<u8>, a: int, x: Seq<u8>, y: Seq<u8>)
    requires
        0 <= a <= s.len(),
        s.subrange(0, a) == x + y,
    ensures
        s.subrange(0, a - y.len()) == x,
        s.subrange(a - y.len(), a) == y,
{
    assert(a == x.len() + y.len()) by {
        assert(s.subrange(0, a).len() == a);
    }
    assert forall|i: int| 0 <= i < x.len() implies s.subrange(0, a - y.len())[i] == x[i] by {
        assert(s.subrange(0, a)[i] == (x + y)[i]);
        assert(s.subrange(0, a - y.len())[i] == s[i]);
        assert(s.subrange(0, a)[i] == s[i]);
    }
    assert(s.subrange(0, a - y.len()) =~= x);
    assert forall|i: int| 0 <= i < y.len() implies s.subrange(a - y.len(), a)[i] == y[i] by {
        assert(s.subrange(0, a)[x.len() + i] == (x + y)[x.len() + i]);
        assert((x + y)[x.len() + i] == y[i]);
        assert(s.subrange(a - y.len(), a)[i] == s[a - y.len() + i]);
        assert(s.subrange(0, a)[x.len() + i] == s[x.len() + i]);
    }
    assert(s.subrange(a - y.len(), a) =~= y);
}


/// The offset just past the timestamp segment of an encoded line.
pub open spec fn head_end(e: MemoryEntry) -> int {
    offset(e, 8)
}

/// The offset just past the validity window of an encoded line.
pub open spec fn mid_end(e: MemoryEntry) -> int {
    offset(e, 16)
}

/// The leading fields of an encoded line parse back to their values.
#[verifier::rlimit(100)]
#[verifier::spinoff_prover]
proof fn lemma_seg_head(e: MemoryEntry)
    ensures
        parse_head(enc_entry(e)) == Some(
            (
                u8_ints(vstd::utf8::encode_utf8(e.text@)),
                u32_ints(e.vector@),
                u8_ints(vstd::utf8::encode_utf8(e.tags@)),
                e.timestamp_ms as int,
                head_end(e),
            ),
        ),
{
    let sbytes = enc_entry(e);
    let text_i = u8_ints(vstd::utf8::encode_utf8(e.text@));
    let vec_i = u32_ints(e.vector@);
    let tags_i = u8_ints(vstd::utf8::encode_utf8(e.tags@));
    lemma_segment(e, 0);
    lemma_segment(e, 1);
    lemma_segment(e, 2);
    lemma_segment(e, 3);
    lemma_segment(e, 4);
    lemma_segment(e, 5);
    lemma_segment(e, 6);
    lemma_segment(e, 7);
    lemma_segment(e, 8);
    assert(pow10(3) == 1000) by {
        reveal_with_fuel(pow10, 4);
    }
    assert(pow10(10) == 10000000000) by {
        reveal_with_fuel(pow10, 11);
    }
    assert(u64::MAX < pow10(20)) by {
        reveal_with_fuel(pow10, 21);
    }
    assert forall|i: int| 0 <= i < text_i.len() implies 0 <= #[trigger] text_i[i] < pow10(3)
        && text_i[i] <= 255 by {
        assert(text_i[i] == vstd::utf8::encode_utf8(e.text@)[i] as int);
    }
    assert forall|i: int| 0 <= i < vec_i.len() implies 0 <= #[trigger] vec_i[i] < pow10(10)
        && vec_i[i] <= 4294967295 by {
        assert(vec_i[i] == e.vector@[i] as int);
    }
    assert forall|i: int| 0 <= i < tags_i.len() implies 0 <= #[trigger] tags_i[i] < pow10(3)
        && tags_i[i] <= 255 by {
        assert(tags_i[i] == vstd::utf8::encode_utf8(e.tags@)[i] as int);
    }
    assert(expect(sbytes, offset(e, 0), lit_text()) == Some(offset(e, 1)));
    lemma_parse_num_list_inverse(sbytes, offset(e, 1), text_i, 3, 255);
    assert(expect(sbytes, offset(e, 2), lit_vector()) == Some(offset(e, 3)));
    lemma_parse_num_list_inverse(sbytes, offset(e, 3), vec_i, 10, 4294967295);
    assert(expect(sbytes, offset(e, 4), lit_tags()) == Some(offset(e, 5)));
    lemma_parse_num_list_inverse(sbytes, offset(e, 5), tags_i, 3, 255);
    assert(expect(sbytes, offset(e, 6), lit_timestamp()) == Some(offset(e, 7)));
    lemma_dec_pad_len(e.timestamp_ms as int, 20);
    lemma_parse_pad_inverse(sbytes, offset(e, 7), e.timestamp_ms as int, 20, u64::MAX as int);
    assert(offset(e, 0) == 0);
    assert(offset(e, 8) == offset(e, 7) + 20);
}

/// The middle fields of an encoded line parse back to their values.
#[verifier::rlimit(100)]
#[verifier::spinoff_prover]
proof fn lemma_seg_mid(e: MemoryEntry)
    ensures
        parse_mid(enc_entry(e), head_end(e)) == Some(
            (
                u8_ints(vstd::utf8::encode_utf8(e.source@)),
                u8_ints(vstd::utf8::encode_utf8(e.temporal_type@)),
                e.valid_from_ms as int,
                e.valid_to_ms as int,
                mid_end(e),
            ),
        ),
{
    let sbytes = enc_entry(e);
    let src_i = u8_ints(vstd::utf8::encode_utf8(e.source@));
    let tmp_i = u8_ints(vstd::utf8::encode_utf8(e.temporal_type@));
    lemma_segment(e, 8);
    lemma_segment(e, 9);
    lemma_segment(e, 10);
    lemma_segment(e, 11);
    lemma_segment(e, 12);
    lemma_segment(e, 13);
    lemma_segment(e, 14);
    lemma_segment(e, 15);
    lemma_segment(e, 16);
    assert(pow10(3) == 1000) by {
        reveal_with_fuel(pow10, 4);
    }
    assert(u64::MAX < pow10(20)) by {
        reveal_with_fuel(pow10, 21);
    }
    assert forall|i: int| 0 <= i < src_i.len() implies 0 <= #[trigger] src_i[i] < pow10(3)
        && src_i[i] <= 255 by {
        assert(src_i[i] == vstd::utf8::encode_utf8(e.source@)[i] as int);
    }
    assert forall|i: int| 0 <= i < tmp_i.len() implies 0 <= #[trigger] tmp_i[i] < pow10(3)
        && tmp_i[i] <= 255 by {
        assert(tmp_i[i] == vstd::utf8::encode_utf8(e.temporal_type@)[i] as int);
    }
    assert(expect(sbytes, offset(e, 8), lit_source()) == Some(offset(e, 9)));
    lemma_parse_num_list_inverse(sbytes, offset(e, 9), src_i, 3, 255);
    assert(expect(sbytes, offset(e, 10), lit_temporal()) == Some(offset(e, 11)));
    lemma_parse_num_list_inverse(sbytes, offset(e, 11), tmp_i, 3, 255);
    assert(expect(sbytes, offset(e, 12), lit_from()) == Some(offset(e, 13)));
    lemma_dec_pad_len(e.valid_from_ms as int, 20);
    lemma_parse_pad_inverse(sbytes, offset(e, 13), e.valid_from_ms as int, 20, u64::MAX as int);
    assert(offset(e, 14) == offset(e, 13) + 20);
    assert(expect(sbytes, offset(e, 14), lit_to()) == Some(offset(e, 15)));
    lemma_dec_pad_len(e.valid_to_ms as int, 20);
    lemma_parse_pad_inverse(sbytes, offset(e, 15), e.valid_to_ms as int, 20, u64::MAX as int);
    assert(offset(e, 16) == offset(e, 15) + 20);
}

/// The entity fields and the closing brace of an encoded line parse back.
#[verifier::rlimit(100)]
#[verifier::spinoff_prover]
proof fn lemma_seg_tail(e: MemoryEntry)
    ensures
        parse_tail(enc_entry(e), mid_end(e)) == Some(
            (
                u8_ints(vstd::utf8::encode_utf8(e.entity_type@)),
                u8_ints(vstd::utf8::encode_utf8(e.entity_id@)),
            ),
        ),
{
    let sbytes = enc_entry(e);
    let et_i = u8_ints(vstd::utf8::encode_utf8(e.entity_type@));
    let ei_i = u8_ints(vstd::utf8::encode_utf8(e.entity_id@));
    lemma_segment(e, 16);
    lemma_segment(e, 17);
    lemma_segment(e, 18);
    lemma_segment(e, 19);
    lemma_segment(e, 20);
    lemma_segment(e, 21);
    assert(pow10(3) == 1000) by {
        reveal_with_fuel(pow10, 4);
    }
    assert forall|i: int| 0 <= i < et_i.len() implies 0 <= #[trigger] et_i[i] < pow10(3)
        && et_i[i] <= 255 by {
        assert(et_i[i] == vstd::utf8::encode_utf8(e.entity_type@)[i] as int);
    }
    assert forall|i: int| 0 <= i < ei_i.len() implies 0 <= #[trigger] ei_i[i] < pow10(3)
        && ei_i[i] <= 255 by {
        assert(ei_i[i] == vstd::utf8::encode_utf8(e.entity_id@)[i] as int);
    }
    assert(expect(sbytes, offset(e, 16), lit_etype()) == Some(offset(e, 17)));
    lemma_parse_num_list_inverse(sbytes, offset(e, 17), et_i, 3, 255);
    assert(expect(sbytes, offset(e, 18), lit_eid()) == Some(offset(e, 19)));
    lemma_parse_num_list_inverse(sbytes, offset(e, 19), ei_i, 3, 255);
    assert(expect(sbytes, offset(e, 20), lit_close()) == Some(offset(e, 21)));
    lemma_enc_is_pieces(e);
    assert(offset(e, 21) == sbytes.len());
}

/// Round trip for one entry: the line the encoder writes parses back to
/// exactly the entry's values (the content of the vector memory's
/// persistence law).
pub proof fn lemma_entry_round_trip(e: MemoryEntry)
    ensures
        parse_entry(enc_entry(e)) is Some,
        entry_matches(e, parse_entry(enc_entry(e))->Some_0),
        line_keeps(enc_entry(e)),
{
    lemma_seg_head(e);
    lemma_seg_mid(e);
    lemma_seg_tail(e);
    lemma_decoded_text_ok(e, parse_entry(enc_entry(e))->Some_0);
}

/// Loading what was saved yields the entries back: for any entries, the
/// lines the encoder writes load as exactly those entries, in order.
pub proof fn lemma_save_load_round_trip(entries: Seq<MemoryEntry>, lines: Seq<Seq<u8>>)
    requires
        lines.len() == entries.len(),
        forall|i: int| 0 <= i < lines.len() ==> #[trigger] lines[i] == enc_entry(entries[i]),
    ensures
        load_spec(lines).len() == entries.len(),
        forall|i: int|
            0 <= i < entries.len() ==> entry_matches(
                #[trigger] entries[i],
                load_spec(lines)[i],
            ),
    decreases lines.len(),
{
    if lines.len() > 0 {
        assert forall|i: int| 0 <= i < lines.len() - 1 implies #[trigger] lines.drop_last()[i]
            == enc_entry(entries.drop_last()[i]) by {
            assert(lines[i] == enc_entry(entries[i]));
        }
        lemma_save_load_round_trip(entries.drop_last(), lines.drop_last());
        lemma_entry_round_trip(entries.last());
        assert(lines.last() == enc_entry(entries.last()));
        assert(load_spec(lines) == load_spec(lines.drop_last()) + seq![
            parse_entry(lines.last())->Some_0,
        ]);
        assert forall|i: int| 0 <= i < entries.len() implies entry_matches(
            #[trigger] entries[i],
            load_spec(lines)[i],
        ) by {
            if i < entries.len() - 1 {
                assert(load_spec(lines)[i] == load_spec(lines.drop_last())[i]);
                assert(entry_matches(entries.drop_last()[i], load_spec(lines.drop_last())[i]));
                assert(entries.drop_last()[i] == entries[i]);
            } else {
                assert(load_spec(lines)[i] == parse_entry(lines.last())->Some_0);
                assert(entries[i] == entries.last());
            }
        }
    }
}

} // verus!

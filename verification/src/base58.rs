//! Base-58 text, the form in which program identifiers and transaction
//! signatures arrive: a byte string is read as a big-endian number and written
//! in the 58-character alphabet that omits `0`, `O`, `I` and `l`; each leading
//! zero byte becomes a leading `1`.

use vstd::arithmetic::div_mod::lemma_fundamental_div_mod;
use vstd::arithmetic::div_mod::lemma_fundamental_div_mod_converse;
use vstd::prelude::*;

verus! {

/// Value of an ASCII byte as a base-58 digit, or -1 where the byte is not in
/// the alphabet.
pub open spec fn digit_value(b: u8) -> int {
    if 49 <= b && b <= 57 {
        b - 49  // '1'..='9' stand for 0..=8
    } else if 65 <= b && b <= 72 {
        b - 56  // 'A'..='H' stand for 9..=16
    } else if 74 <= b && b <= 78 {
        b - 57  // 'J'..='N' stand for 17..=21
    } else if 80 <= b && b <= 90 {
        b - 58  // 'P'..='Z' stand for 22..=32
    } else if 97 <= b && b <= 107 {
        b - 64  // 'a'..='k' stand for 33..=43
    } else if 109 <= b && b <= 122 {
        b - 65  // 'm'..='z' stand for 44..=57
    } else {
        -1
    }
}

pub open spec fn is_digit(b: u8) -> bool {
    digit_value(b) >= 0
}

/// The ASCII byte that stands for digit value `v`, for 0 <= v < 58.
pub open spec fn digit_byte(v: int) -> u8 {
    if v <= 8 {
        (v + 49) as u8
    } else if v <= 16 {
        (v + 56) as u8
    } else if v <= 21 {
        (v + 57) as u8
    } else if v <= 32 {
        (v + 58) as u8
    } else if v <= 43 {
        (v + 64) as u8
    } else {
        (v + 65) as u8
    }
}

pub open spec fn all_digits(s: Seq<u8>) -> bool {
    forall|i: int| 0 <= i < s.len() ==> is_digit(s[i])
}

/// The number a digit string denotes, most significant digit first.
pub open spec fn string_value(s: Seq<u8>) -> int
    decreases s.len(),
{
    if s.len() == 0 {
        0
    } else {
        string_value(s.drop_last()) * 58 + digit_value(s.last())
    }
}

pub open spec fn pow256(k: int) -> int
    decreases k,
{
    if k <= 0 {
        1
    } else {
        256 * pow256(k - 1)
    }
}

/// The number a byte string denotes read little-endian (least significant
/// byte first).
pub open spec fn le_value(s: Seq<u8>) -> int
    decreases s.len(),
{
    if s.len() == 0 {
        0
    } else {
        s[0] + 256 * le_value(s.drop_first())
    }
}

/// The number a byte string denotes read big-endian.
pub open spec fn be_value(s: Seq<u8>) -> int
    decreases s.len(),
{
    if s.len() == 0 {
        0
    } else {
        be_value(s.drop_last()) * 256 + s.last()
    }
}

/// The shortest big-endian byte string denoting `n`; empty for 0.
pub open spec fn min_be_bytes(n: int) -> Seq<u8>
    decreases n,
{
    if n <= 0 {
        Seq::empty()
    } else {
        min_be_bytes(n / 256).push((n % 256) as u8)
    }
}

/// The shortest base-58 digit string denoting `n`; empty for 0.
pub open spec fn min_digits(n: int) -> Seq<u8>
    decreases n,
{
    if n <= 0 {
        Seq::empty()
    } else {
        min_digits(n / 58).push(digit_byte(n % 58))
    }
}

/// How many copies of `b` the string starts with.
pub open spec fn leading(s: Seq<u8>, b: u8) -> int
    decreases s.len(),
{
    if s.len() == 0 {
        0
    } else if s[0] == b {
        1 + leading(s.drop_first(), b)
    } else {
        0
    }
}

pub open spec fn repeat_byte(b: u8, n: int) -> Seq<u8> {
    Seq::new(n as nat, |i: int| b)
}

/// What decoding base-58 text yields: nothing where some byte is not a
/// base-58 digit; otherwise one zero byte per leading '1', then the
/// big-endian bytes of the denoted number.
pub open spec fn decode_spec(s: Seq<u8>) -> Option<Seq<u8>> {
    if all_digits(s) {
        Some(repeat_byte(0, leading(s, 49)) + min_be_bytes(string_value(s)))
    } else {
        None
    }
}

/// What encoding a byte string yields: one '1' per leading zero byte, then
/// the base-58 digits of the denoted number.
pub open spec fn encode_spec(b: Seq<u8>) -> Seq<u8> {
    repeat_byte(49, leading(b, 0)) + min_digits(be_value(b))
}

proof fn lemma_digit_byte(v: int)
    requires
        0 <= v < 58,
    ensures
        is_digit(digit_byte(v)),
        digit_value(digit_byte(v)) == v,
        v > 0 ==> digit_byte(v) != 49,
{
}

proof fn lemma_pow256_pos(k: int)
    ensures
        pow256(k) >= 1,
    decreases k,
{
    if k > 0 {
        lemma_pow256_pos(k - 1);
    }
}

proof fn lemma_le_value_push(s: Seq<u8>, b: u8)
    ensures
        le_value(s.push(b)) == le_value(s) + b * pow256(s.len() as int),
    decreases s.len(),
{
    if s.len() == 0 {
        assert(s.push(b).drop_first() =~= Seq::<u8>::empty());
        assert(le_value(Seq::<u8>::empty()) == 0);
        assert(s.push(b)[0] == b);
        assert(le_value(s.push(b)) == s.push(b)[0] + 256 * le_value(s.push(b).drop_first()));
        assert(pow256(0) == 1);
    } else {
        assert(s.push(b).drop_first() =~= s.drop_first().push(b));
        lemma_le_value_push(s.drop_first(), b);
        let p: int = pow256(s.len() - 1);
        assert(pow256(s.len() as int) == 256 * p);
        assert(b * (256 * p) == 256 * (b * p)) by (nonlinear_arith);
    }
}

proof fn lemma_le_value_take_succ(s: Seq<u8>, j: int)
    requires
        0 <= j < s.len(),
    ensures
        le_value(s.take(j + 1)) == le_value(s.take(j)) + s[j] * pow256(j),
{
    assert(s.take(j + 1) =~= s.take(j).push(s[j]));
    lemma_le_value_push(s.take(j), s[j]);
}

proof fn lemma_le_value_bounds(s: Seq<u8>)
    ensures
        0 <= le_value(s) < pow256(s.len() as int),
    decreases s.len(),
{
    if s.len() > 0 {
        lemma_le_value_bounds(s.drop_first());
        assert(pow256(s.len() as int) == 256 * pow256(s.len() - 1));
    }
}

proof fn lemma_le_value_last(s: Seq<u8>)
    requires
        s.len() > 0,
    ensures
        le_value(s) == le_value(s.drop_last()) + s.last() * pow256(s.len() - 1),
{
    assert(s =~= s.drop_last().push(s.last()));
    lemma_le_value_push(s.drop_last(), s.last());
}

proof fn lemma_le_value_pos(s: Seq<u8>)
    requires
        s.len() > 0,
        s.last() != 0,
    ensures
        le_value(s) >= pow256(s.len() - 1),
{
    lemma_le_value_last(s);
    lemma_le_value_bounds(s.drop_last());
    lemma_pow256_pos(s.len() - 1);
    let p: int = pow256(s.len() - 1);
    assert(s.last() * p >= p) by (nonlinear_arith)
        requires
            s.last() >= 1,
            p >= 0,
    ;
}

/// A little-endian byte string whose top byte is not zero is the reverse of
/// the shortest big-endian string of its value.
proof fn lemma_min_be_of_le(s: Seq<u8>)
    requires
        s.len() == 0 || s.last() != 0,
    ensures
        min_be_bytes(le_value(s)) == s.reverse(),
    decreases s.len(),
{
    if s.len() == 0 {
        assert(s.reverse() =~= Seq::<u8>::empty());
    } else {
        let rest = s.drop_first();
        let b0: u8 = s[0];
        let n: int = le_value(s);
        if s.len() == 1 {
            assert(rest =~= Seq::<u8>::empty());
            assert(le_value(Seq::<u8>::empty()) == 0);
            assert(le_value(rest) == 0);
            assert(n == b0 + 256 * le_value(rest));
            lemma_fundamental_div_mod_converse(n, 256, 0, n);
            assert(min_be_bytes(0int) =~= Seq::<u8>::empty());
            assert(min_be_bytes(n) == min_be_bytes(0int).push((n % 256) as u8));
            assert(min_be_bytes(n) =~= s.reverse());
        } else {
            assert(rest.last() == s.last());
            lemma_min_be_of_le(rest);
            lemma_le_value_pos(rest);
            lemma_pow256_pos(rest.len() - 1);
            assert(n == le_value(rest) * 256 + b0);
            lemma_fundamental_div_mod_converse(n, 256, le_value(rest), b0 as int);
            assert(min_be_bytes(n) == rest.reverse().push(b0));
            assert(rest.reverse().push(b0) =~= s.reverse());
        }
    }
}

/// Connects the loop that counts a run of equal bytes to `leading`.
proof fn lemma_leading_from_points(s: Seq<u8>, b: u8, z: int)
    requires
        0 <= z <= s.len(),
        forall|k: int| 0 <= k < z ==> s[k] == b,
        z == s.len() || s[z] != b,
    ensures
        leading(s, b) == z,
    decreases z,
{
    if z == 0 {
    } else {
        let rest = s.drop_first();
        assert(forall|k: int| 0 <= k < z - 1 ==> rest[k] == s[k + 1] && s[k + 1] == b);
        assert(z - 1 == rest.len() || rest[z - 1] != b);
        lemma_leading_from_points(rest, b, z - 1);
    }
}

/// The facts the decoder needs of `leading`: it is a prefix length, every
/// byte of the prefix is `b`, and the byte after it (if any) is not.
proof fn lemma_leading_points(s: Seq<u8>, b: u8)
    ensures
        0 <= leading(s, b) <= s.len(),
        forall|i: int| 0 <= i < leading(s, b) ==> s[i] == b,
        leading(s, b) < s.len() ==> s[leading(s, b)] != b,
    decreases s.len(),
{
    if s.len() > 0 && s[0] == b {
        let rest = s.drop_first();
        lemma_leading_points(rest, b);
        assert(forall|i: int| 1 <= i < leading(s, b) ==> s[i] == rest[i - 1]);
    }
}

proof fn lemma_min_digits_all(n: int)
    ensures
        all_digits(min_digits(n)),
        n > 0 ==> min_digits(n).len() > 0 && min_digits(n)[0] != 49,
        n >= 0 ==> string_value(min_digits(n)) == n,
    decreases n,
{
    if n <= 0 {
        assert(min_digits(n) =~= Seq::<u8>::empty());
    } else {
        lemma_min_digits_all(n / 58);
        lemma_fundamental_div_mod(n, 58);
        lemma_digit_byte(n % 58);
        let md = min_digits(n);
        let prev = min_digits(n / 58);
        assert(md == prev.push(digit_byte(n % 58)));
        assert(md.drop_last() =~= prev);
        assert(md.last() == digit_byte(n % 58));
        assert(string_value(md) == string_value(prev) * 58 + digit_value(digit_byte(n % 58)));
        assert forall|i: int| 0 <= i < md.len() implies is_digit(md[i]) by {
            if i < prev.len() {
                assert(md[i] == prev[i]);
                assert(is_digit(prev[i]));
            } else {
                assert(md[i] == digit_byte(n % 58));
            }
        }
        if n / 58 == 0 {
            assert(min_digits(0int) =~= Seq::<u8>::empty());
            assert(md.len() == 1);
            assert(n % 58 == n);
            assert(md[0] == digit_byte(n));
        } else {
            assert(md[0] == prev[0]);
        }
    }
}

proof fn lemma_sv_ones(k: int)
    requires
        k >= 0,
    ensures
        string_value(repeat_byte(49, k)) == 0,
    decreases k,
{
    if k == 0 {
        assert(repeat_byte(49, 0) =~= Seq::<u8>::empty());
    } else {
        lemma_sv_ones(k - 1);
        let s = repeat_byte(49, k);
        assert(s.drop_last() =~= repeat_byte(49, k - 1));
        assert(s.last() == 49);
    }
}

proof fn lemma_sv_prefix(k: int, t: Seq<u8>)
    requires
        k >= 0,
    ensures
        string_value(repeat_byte(49, k) + t) == string_value(t),
    decreases t.len(),
{
    if t.len() == 0 {
        assert(repeat_byte(49, k) + t =~= repeat_byte(49, k));
        lemma_sv_ones(k);
    } else {
        lemma_sv_prefix(k, t.drop_last());
        let s = repeat_byte(49, k) + t;
        assert(s.drop_last() =~= repeat_byte(49, k) + t.drop_last());
        assert(s.last() == t.last());
    }
}

proof fn lemma_leading_prefix(b: u8, k: int, t: Seq<u8>)
    requires
        k >= 0,
        t.len() == 0 || t[0] != b,
    ensures
        leading(repeat_byte(b, k) + t, b) == k,
    decreases k,
{
    let s = repeat_byte(b, k) + t;
    if k == 0 {
        assert(s =~= t);
    } else {
        assert(s[0] == b);
        assert(s.drop_first() =~= repeat_byte(b, k - 1) + t);
        lemma_leading_prefix(b, k - 1, t);
    }
}

proof fn lemma_bv_zeros(k: int)
    requires
        k >= 0,
    ensures
        be_value(repeat_byte(0, k)) == 0,
    decreases k,
{
    if k == 0 {
        assert(repeat_byte(0, 0) =~= Seq::<u8>::empty());
    } else {
        lemma_bv_zeros(k - 1);
        let s = repeat_byte(0, k);
        assert(s.drop_last() =~= repeat_byte(0, k - 1));
        assert(s.last() == 0);
    }
}

proof fn lemma_bv_prefix(k: int, t: Seq<u8>)
    requires
        k >= 0,
    ensures
        be_value(repeat_byte(0, k) + t) == be_value(t),
    decreases t.len(),
{
    if t.len() == 0 {
        assert(repeat_byte(0, k) + t =~= repeat_byte(0, k));
        lemma_bv_zeros(k);
    } else {
        lemma_bv_prefix(k, t.drop_last());
        let s = repeat_byte(0, k) + t;
        assert(s.drop_last() =~= repeat_byte(0, k) + t.drop_last());
        assert(s.last() == t.last());
    }
}

proof fn lemma_be_value_nonneg(s: Seq<u8>)
    ensures
        be_value(s) >= 0,
    decreases s.len(),
{
    if s.len() > 0 {
        lemma_be_value_nonneg(s.drop_last());
    }
}

proof fn lemma_be_value_pos(s: Seq<u8>)
    requires
        s.len() > 0,
        s[0] != 0,
    ensures
        be_value(s) > 0,
    decreases s.len(),
{
    if s.len() == 1 {
        assert(s.drop_last() =~= Seq::<u8>::empty());
        assert(be_value(Seq::<u8>::empty()) == 0);
        assert(s.last() == s[0]);
    } else {
        assert(s.drop_last()[0] == s[0]);
        lemma_be_value_pos(s.drop_last());
        lemma_be_value_nonneg(s.drop_last());
    }
}

/// A big-endian byte string with no leading zero byte is the shortest one of
/// its value.
proof fn lemma_min_be_of_be(t: Seq<u8>)
    requires
        t.len() == 0 || t[0] != 0,
    ensures
        min_be_bytes(be_value(t)) == t,
    decreases t.len(),
{
    if t.len() == 0 {
        assert(be_value(t) == 0);
        assert(min_be_bytes(be_value(t)) =~= t);
    } else {
        let tp = t.drop_last();
        let n: int = be_value(t);
        lemma_be_value_nonneg(tp);
        if t.len() == 1 {
            assert(tp =~= Seq::<u8>::empty());
            assert(be_value(tp) == 0);
            assert(t.last() == t[0]);
        } else {
            assert(tp[0] == t[0]);
            lemma_be_value_pos(tp);
        }
        lemma_min_be_of_be(tp);
        assert(n == be_value(tp) * 256 + t.last());
        lemma_fundamental_div_mod_converse(n, 256, be_value(tp), t.last() as int);
        assert(n > 0);
        assert(min_be_bytes(n) == min_be_bytes(be_value(tp)).push((n % 256) as u8));
        assert(min_be_bytes(n) =~= t);
    }
}

/// Law: decoding inverts encoding — for every byte string `b`, the base-58
/// text `encode_spec(b)` decodes back to exactly `b`.
pub proof fn lemma_base58_round_trip(b: Seq<u8>)
    ensures
        decode_spec(encode_spec(b)) == Some(b),
{
    let z: int = leading(b, 0);
    lemma_leading_points(b, 0);
    let tail = b.skip(z);
    assert(b =~= repeat_byte(0, z) + tail);
    lemma_bv_prefix(z, tail);
    let v: int = be_value(b);
    assert(v == be_value(tail));
    lemma_be_value_nonneg(tail);
    lemma_min_digits_all(v);
    let digits = min_digits(v);
    let enc = encode_spec(b);
    assert(enc == repeat_byte(49, z) + digits);
    assert(digit_value(49) == 0);
    assert forall|i: int| 0 <= i < enc.len() implies is_digit(enc[i]) by {
        if i < z {
            assert(enc[i] == 49);
        } else {
            assert(enc[i] == digits[i - z]);
            assert(is_digit(digits[i - z]));
        }
    }
    assert(all_digits(enc));
    lemma_leading_prefix(49, z, digits);
    assert(leading(enc, 49) == z);
    lemma_sv_prefix(z, digits);
    assert(string_value(enc) == v);
    lemma_min_be_of_be(tail);
    assert(repeat_byte(0, leading(enc, 49)) + min_be_bytes(string_value(enc)) =~= b);
}

/// Base-58 digit value of one ASCII byte.
fn digit_of(b: u8) -> (r: Option<u8>)
    ensures
        match r {
            Some(d) => digit_value(b) == d as int,
            None => !is_digit(b),
        },
{
    if 49 <= b && b <= 57 {
        Some(b - 49)
    } else if 65 <= b && b <= 72 {
        Some(b - 56)
    } else if 74 <= b && b <= 78 {
        Some(b - 57)
    } else if 80 <= b && b <= 90 {
        Some(b - 58)
    } else if 97 <= b && b <= 107 {
        Some(b - 64)
    } else if 109 <= b && b <= 122 {
        Some(b - 65)
    } else {
        None
    }
}

/// Decodes base-58 text (given as its ASCII bytes) into the byte string it
/// stands for, or nothing where some byte is not in the alphabet.
pub fn base58_decode(text: &Vec<u8>) -> (r: Option<Vec<u8>>)
    ensures
        r matches Some(v) ==> decode_spec(text@) == Some(v@),
        r is None ==> decode_spec(text@) is None,
{
    let n = text.len();

    // Count the leading '1' digits; each stands for one zero byte.
    let mut ones: usize = 0;
    while ones < n && text[ones] == 49
        invariant
            ones <= n,
            n == text@.len(),
            forall|k: int| 0 <= k < ones ==> text@[k] == 49,
        decreases n - ones,
    {
        ones = ones + 1;
    }
    proof {
        lemma_leading_from_points(text@, 49, ones as int);
    }

    // The denoted number, accumulated little-endian with no zero top byte.
    let mut acc: Vec<u8> = Vec::new();
    let mut i: usize = 0;
    while i < n
        invariant
            i <= n,
            n == text@.len(),
            forall|k: int| 0 <= k < i ==> is_digit(text@[k]),
            le_value(acc@) == string_value(text@.take(i as int)),
            acc@.len() == 0 || acc@.last() != 0,
        decreases n - i,
    {
        let d: u8 = match digit_of(text[i]) {
            Some(d) => d,
            None => {
                return None;
            },
        };
        let dd: u32 = d as u32;
        assert(dd < 58);
        let ghost acc0 = acc@;
        let ghost v0: int = le_value(acc0);

        // acc := acc * 58 + d, with carry propagation.
        let mut carry: u32 = dd;
        let mut j: usize = 0;
        while j < acc.len()
            invariant
                j <= acc@.len(),
                acc@.len() == acc0.len(),
                carry <= 58,
                dd < 58,
                forall|k: int| j <= k < acc0.len() ==> acc@[k] == acc0[k],
                le_value(acc@.take(j as int)) + carry * pow256(j as int) == 58 * le_value(
                    acc0.take(j as int),
                ) + dd,
            decreases acc@.len() - j,
        {
            let aj: u32 = acc[j] as u32;
            let t: u32 = carry + aj * 58;
            let ghost pre = acc@;
            let ghost c0: int = carry as int;
            acc[j] = (t % 256) as u8;
            carry = t / 256;
            proof {
                let jj: int = j as int;
                let pj: int = pow256(jj);
                lemma_pow256_pos(jj);
                assert(acc@.take(jj) =~= pre.take(jj));
                assert(acc@.take(jj + 1) =~= pre.take(jj).push((t % 256) as u8));
                lemma_le_value_push(pre.take(jj), (t % 256) as u8);
                lemma_le_value_take_succ(acc0, jj);
                assert(aj == acc0[jj]);
                let tm: int = (t % 256) as int;
                let td: int = (t / 256) as int;
                assert(tm + 256 * td == c0 + 58 * aj);
                assert(tm * pj + td * (256 * pj) == c0 * pj + 58 * (aj * pj)) by (nonlinear_arith)
                    requires
                        tm + 256 * td == c0 + 58 * (aj as int),
                ;
                assert(pow256(jj + 1) == 256 * pj);
                assert(58 * (le_value(acc0.take(jj)) + acc0[jj] * pj) == 58 * le_value(
                    acc0.take(jj),
                ) + 58 * (acc0[jj] * pj));
            }
            j = j + 1;
        }
        proof {
            assert(acc@.take(acc@.len() as int) =~= acc@);
            assert(acc0.take(acc0.len() as int) =~= acc0);
        }

        // Spill what is left of the carry into new top bytes.
        let ghost len0: int = acc0.len() as int;
        while carry > 0
            invariant
                acc@.len() >= len0,
                le_value(acc@) + carry * pow256(acc@.len() as int) == 58 * v0 + dd,
                acc@.len() > len0 ==> (carry == 0 ==> acc@.last() != 0),
            decreases carry,
        {
            let ghost pre = acc@;
            let ghost c0: int = carry as int;
            let low: u8 = (carry % 256) as u8;
            acc.push(low);
            carry = carry / 256;
            proof {
                let ll: int = pre.len() as int;
                let p: int = pow256(ll);
                lemma_le_value_push(pre, low);
                assert((c0 % 256) * p + (c0 / 256) * (256 * p) == c0 * p) by (nonlinear_arith);
                assert(pow256(ll + 1) == 256 * p);
                if carry == 0 {
                    assert(c0 < 256);
                    assert(acc@.last() == low);
                    assert(low as int == c0 % 256 && c0 % 256 == c0 && c0 > 0);
                }
            }
        }
        proof {
            assert(pow256(acc@.len() as int) >= 1) by {
                lemma_pow256_pos(acc@.len() as int);
            }
            assert(le_value(acc@) == 58 * v0 + dd);
            // The top byte stays nonzero: where nothing was pushed, the value
            // alone rules a zero top byte out.
            if acc@.len() == len0 && len0 > 0 {
                lemma_le_value_pos(acc0);
                lemma_le_value_bounds(acc0);
                if acc@.last() == 0 {
                    lemma_le_value_last(acc@);
                    lemma_le_value_bounds(acc@.drop_last());
                    assert(le_value(acc@) < pow256(len0 - 1));
                    assert(false);
                }
            }
            let ii: int = i as int;
            assert(text@.take(ii + 1).drop_last() =~= text@.take(ii));
            assert(text@.take(ii + 1).last() == text@[ii]);
            assert(string_value(text@.take(ii + 1)) == string_value(text@.take(ii)) * 58
                + digit_value(text@[ii]));
        }
        i = i + 1;
    }
    proof {
        assert(text@.take(n as int) =~= text@);
        lemma_min_be_of_le(acc@);
    }

    // Assemble: one zero byte per leading '1', then the value's bytes,
    // most significant first.
    let mut out: Vec<u8> = Vec::new();
    let mut z: usize = 0;
    while z < ones
        invariant
            z <= ones,
            out@ == repeat_byte(0, z as int),
        decreases ones - z,
    {
        out.push(0);
        proof {
            assert(out@ =~= repeat_byte(0, z + 1));
        }
        z = z + 1;
    }
    let total: usize = acc.len();
    let mut k: usize = 0;
    while k < total
        invariant
            k <= total,
            total == acc@.len(),
            out@ == repeat_byte(0, ones as int) + acc@.reverse().take(k as int),
        decreases total - k,
    {
        let b: u8 = acc[total - 1 - k];
        out.push(b);
        proof {
            assert(acc@.reverse()[k as int] == b);
            assert(out@ =~= repeat_byte(0, ones as int) + acc@.reverse().take(k + 1));
        }
        k = k + 1;
    }
    proof {
        assert(acc@.reverse().take(acc@.len() as int) =~= acc@.reverse());
        assert(out@ == repeat_byte(0, leading(text@, 49)) + min_be_bytes(string_value(text@)));
    }
    Some(out)
}

} // verus!

use vstd::prelude::*;
use crate::stream::Stream;

verus! {

/// The least number of digits in the id part of a key.
pub const KEY_WIDTH: usize = 8;

/// The ASCII digits of `n`, most significant first, without leading zeros.
pub open spec fn digits(n: nat) -> Seq<u8>
    decreases n,
{
    if n < 10 {
        seq![(48 + n) as u8]
    } else {
        digits(n / 10).push((48 + n % 10) as u8)
    }
}

/// `k` ASCII zeros.
pub open spec fn zeros(k: nat) -> Seq<u8> {
    Seq::new(k, |i: int| 48u8)
}

/// The digits of `n`, left-padded with zeros to at least `KEY_WIDTH` bytes.
pub open spec fn padded(n: nat) -> Seq<u8> {
    let d = digits(n);
    if d.len() < KEY_WIDTH {
        zeros((KEY_WIDTH - d.len()) as nat) + d
    } else {
        d
    }
}

/// The ledger key of a line: `"<stream>:<padded id>"`.
pub open spec fn key_of(s: Stream, id: u64) -> Seq<u8> {
    s.name_spec().push(58u8) + padded(id as nat)
}

/// The number that a run of ASCII digits spells.
pub open spec fn value_of(d: Seq<u8>) -> nat
    decreases d.len(),
{
    if d.len() == 0 {
        0
    } else {
        value_of(d.drop_last()) * 10 + (d.last() - 48) as nat
    }
}

/// Every byte is an ASCII digit.
pub open spec fn all_digits(d: Seq<u8>) -> bool {
    forall|i: int| 0 <= i < d.len() ==> 48 <= #[trigger] d[i] <= 57
}

/// Ten to the power `k`.
pub open spec fn pow10(k: nat) -> nat
    decreases k,
{
    if k == 0 {
        1
    } else {
        10 * pow10((k - 1) as nat)
    }
}

/// The digits of `n` are digits, spell `n`, and are at most `k` when `n < 10^k`.
pub proof fn lemma_digits_shape(n: nat, k: nat)
    requires
        1 <= k,
        n < pow10(k),
    ensures
        1 <= digits(n).len() <= k,
        all_digits(digits(n)),
        value_of(digits(n)) == n,
    decreases n,
{
    let d = digits(n);
    if n >= 10 {
        assert(k > 1) by {
            if k == 1 {
                assert(pow10(1) == 10 * pow10(0));
            }
        }
        assert(pow10(k) == 10 * pow10((k - 1) as nat));
        lemma_digits_shape(n / 10, (k - 1) as nat);
        assert(d.drop_last() =~= digits(n / 10));
        vstd::arithmetic::div_mod::lemma_fundamental_div_mod(n as int, 10);
        assert(d.last() == (48 + n % 10) as u8);
        assert(value_of(d) == value_of(digits(n / 10)) * 10 + n % 10);
    } else {
        assert(d.drop_last() =~= Seq::<u8>::empty());
        assert(value_of(d.drop_last()) == 0);
        assert(value_of(d) == n);
    }
}

/// Every `u64` has at most twenty digits.
pub proof fn lemma_u64_digits(n: u64)
    ensures
        1 <= digits(n as nat).len() <= 20,
        all_digits(digits(n as nat)),
        value_of(digits(n as nat)) == n,
{
    reveal_with_fuel(pow10, 21);
    assert(pow10(20) == 100_000_000_000_000_000_000);
    lemma_digits_shape(n as nat, 20);
}

/// Appends the digits of `n` to `out`.
fn push_digits(n: u64, out: &mut Vec<u8>)
    requires
        old(out)@.len() + 20 <= usize::MAX,
    ensures
        final(out)@ == old(out)@ + digits(n as nat),
        final(out)@.len() <= old(out)@.len() + 20,
    decreases n,
{
    proof {
        lemma_u64_digits(n);
    }
    if n < 10 {
        out.push(48u8 + n as u8);
        assert(out@ =~= old(out)@ + digits(n as nat));
    } else {
        push_digits(n / 10, out);
        out.push(48u8 + (n % 10) as u8);
        assert(out@ =~= old(out)@ + digits(n as nat));
    }
}

/// Builds the ledger key of a line from its stream and sequence id.
pub fn encode_key(s: Stream, id: u64) -> (r: Vec<u8>)
    ensures
        r@ == key_of(s, id),
{
    proof {
        lemma_u64_digits(id);
    }
    let mut d: Vec<u8> = Vec::new();
    push_digits(id, &mut d);
    assert(d@ =~= digits(id as nat));
    let mut r = s.name();
    r.push(58u8);
    let mut i: usize = d.len();
    let ghost head = r@;
    while i < KEY_WIDTH
        invariant
            d@ == digits(id as nat),
            d.len() <= i <= KEY_WIDTH || i == d.len(),
            r@ == head + zeros((i - d.len()) as nat),
        decreases KEY_WIDTH - i,
    {
        r.push(48u8);
        i = i + 1;
        assert(r@ =~= head + zeros((i - d.len()) as nat));
    }
    let mut j: usize = 0;
    let ghost mid = r@;
    while j < d.len()
        invariant
            0 <= j <= d.len(),
            d.len() <= 20,
            mid.len() <= 6 + 1 + KEY_WIDTH,
            r@ == mid + d@.subrange(0, j as int),
        decreases d.len() - j,
    {
        r.push(d[j]);
        j = j + 1;
        assert(r@ =~= mid + d@.subrange(0, j as int));
    }
    assert(r@ =~= key_of(s, id));
    r
}

/// Leading zeros do not change the number that digits spell.
pub proof fn lemma_zeros_value(k: nat, d: Seq<u8>)
    ensures
        value_of(zeros(k) + d) == value_of(d),
    decreases d.len() + k,
{
    if d.len() == 0 {
        assert(zeros(k) + d =~= zeros(k));
        if k > 0 {
            assert(zeros(k).drop_last() =~= zeros((k - 1) as nat) + Seq::<u8>::empty());
            lemma_zeros_value((k - 1) as nat, Seq::<u8>::empty());
            assert(zeros((k - 1) as nat) + Seq::<u8>::empty() =~= zeros((k - 1) as nat));
        }
    } else {
        assert((zeros(k) + d).drop_last() =~= zeros(k) + d.drop_last());
        lemma_zeros_value(k, d.drop_last());
    }
}

/// The padded digits of `n` spell `n`.
pub proof fn lemma_padded_value(n: u64)
    ensures
        value_of(padded(n as nat)) == n,
{
    lemma_u64_digits(n);
    let d = digits(n as nat);
    if d.len() < KEY_WIDTH {
        lemma_zeros_value((KEY_WIDTH - d.len()) as nat, d);
    }
}

/// Two lines share a key only if they share a stream and an id.
pub proof fn lemma_key_injective(s: Stream, a: u64, t: Stream, b: u64)
    ensures
        key_of(s, a) == key_of(t, b) ==> s == t && a == b,
{
    if key_of(s, a) == key_of(t, b) {
        let ka = key_of(s, a);
        let kb = key_of(t, b);
        assert(ka.subrange(7, ka.len() as int) =~= padded(a as nat));
        assert(kb.subrange(7, kb.len() as int) =~= padded(b as nat));
        lemma_padded_value(a);
        lemma_padded_value(b);
        assert(ka[3] == s.name_spec()[3]);
        assert(kb[3] == t.name_spec()[3]);
    }
}

/// A prefix of a run of digits spells no more than the whole run.
pub proof fn lemma_prefix_value(d: Seq<u8>, i: int)
    requires
        0 <= i <= d.len(),
        all_digits(d),
    ensures
        value_of(d.subrange(0, i)) <= value_of(d),
    decreases d.len(),
{
    if i < d.len() {
        assert(all_digits(d.drop_last()));
        lemma_prefix_value(d.drop_last(), i);
        assert(d.drop_last().subrange(0, i) =~= d.subrange(0, i));
    } else {
        assert(d.subrange(0, i) =~= d);
    }
}

fn same_bytes(a: &Vec<u8>, b: &[u8]) -> (r: bool)
    ensures
        r == (a@ == b@),
{
    if a.len() != b.len() {
        return false;
    }
    let mut i: usize = 0;
    while i < a.len()
        invariant
            a@.len() == b@.len(),
            0 <= i <= a@.len(),
            a@.subrange(0, i as int) == b@.subrange(0, i as int),
        decreases a@.len() - i,
    {
        if a[i] != b[i] {
            assert(a@[i as int] != b@[i as int]);
            return false;
        }
        assert(a@.subrange(0, i + 1) =~= a@.subrange(0, i as int).push(a@[i as int]));
        assert(b@.subrange(0, i + 1) =~= b@.subrange(0, i as int).push(b@[i as int]));
        i = i + 1;
    }
    assert(a@ =~= a@.subrange(0, i as int));
    assert(b@ =~= b@.subrange(0, i as int));
    true
}

/// Reads the stream and the sequence id back out of a ledger key; `None`
/// exactly when `k` is not the key of any line.
pub fn decode_key(k: &[u8]) -> (r: Option<(Stream, u64)>)
    ensures
        r matches Some((s, id)) ==> key_of(s, id) == k@,
        (exists|s: Stream, id: u64| key_of(s, id) == k@) ==> r is Some,
{
    if k.len() < 7 || k[6] != 58u8 {
        proof {
            assert forall|s: Stream, id: u64| key_of(s, id) != k@ by {
                let ks = key_of(s, id);
                assert(ks[6] == 58u8);
            }
        }
        return None;
    }
    let s = if k[3] == 111u8 {
        Stream::Stdout
    } else {
        Stream::Stderr
    };
    let ghost rest = k@.subrange(7, k@.len() as int);
    let mut v: u64 = 0;
    let mut j: usize = 7;
    while j < k.len()
        invariant
            7 <= j <= k@.len(),
            rest == k@.subrange(7, k@.len() as int),
            all_digits(rest.subrange(0, j - 7)),
            v == value_of(rest.subrange(0, j - 7)),
        decreases k@.len() - j,
    {
        let b = k[j];
        if b < 48u8 || b > 57u8 {
            proof {
                assert forall|t: Stream, id: u64| key_of(t, id) != k@ by {
                    if key_of(t, id) == k@ {
                        lemma_u64_digits(id);
                        assert(rest =~= padded(id as nat));
                        let d = digits(id as nat);
                        if d.len() < KEY_WIDTH {
                            let z = zeros((KEY_WIDTH - d.len()) as nat);
                            assert(rest[j - 7] == (z + d)[j - 7]);
                        }
                    }
                }
            }
            return None;
        }
        let digit = (b - 48u8) as u64;
        if v > 1844674407370955161u64 || (v == 1844674407370955161u64 && digit > 5) {
            proof {
                assert forall|t: Stream, id: u64| key_of(t, id) != k@ by {
                    if key_of(t, id) == k@ {
                        lemma_u64_digits(id);
                        assert(rest =~= padded(id as nat));
                        lemma_padded_value(id);
                        let d = digits(id as nat);
                        if d.len() < KEY_WIDTH {
                            let z = zeros((KEY_WIDTH - d.len()) as nat);
                            assert forall|i: int| 0 <= i < rest.len() implies 48 <= #[trigger] rest[i]
                                <= 57 by {
                                assert(rest[i] == (z + d)[i]);
                            }
                        }
                        lemma_prefix_value(rest, j - 7 + 1);
                        assert(rest.subrange(0, j - 7 + 1).drop_last() =~= rest.subrange(0, j - 7));
                    }
                }
            }
            return None;
        }
        proof {
            assert(rest.subrange(0, j - 7 + 1).drop_last() =~= rest.subrange(0, j - 7));
        }
        v = v * 10 + digit;
        j = j + 1;
    }
    let again = encode_key(s, v);
    if same_bytes(&again, k) {
        Some((s, v))
    } else {
        proof {
            assert(rest.subrange(0, k@.len() - 7) =~= rest);
            assert forall|t: Stream, id: u64| key_of(t, id) != k@ by {
                if key_of(t, id) == k@ {
                    assert(rest =~= padded(id as nat));
                    lemma_padded_value(id);
                    assert(t.name_spec()[3] == k@[3]);
                    assert(t == s);
                }
            }
        }
        None
    }
}

} // verus!

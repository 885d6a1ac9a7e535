use vstd::prelude::*;

verus! {

/// The numeric value of a digit string, most significant digit first.
pub open spec fn digits_val(s: Seq<u8>) -> int
    decreases s.len(),
{
    if s.len() == 0 {
        0
    } else {
        digits_val(s.drop_last()) * 10 + (s.last() - 48)
    }
}

pub open spec fn all_digits(s: Seq<u8>) -> bool {
    forall|i: int| 0 <= i < s.len() ==> 48 <= #[trigger] s[i] <= 57
}

/// The bytes of the layer-change marker prefix.
pub open spec fn layer_prefix() -> Seq<u8> {
    seq![76u8, 65u8, 89u8, 69u8, 82u8, 58u8]
}

/// A well-formed layer marker comment: the prefix then at least one decimal
/// digit.
pub open spec fn is_layer_marker(s: Seq<u8>) -> bool {
    &&& s.len() > 6
    &&& s.take(6) == layer_prefix()
    &&& all_digits(s.skip(6))
}

proof fn lemma_digits_nonneg(s: Seq<u8>)
    requires
        all_digits(s),
    ensures
        digits_val(s) >= 0,
    decreases s.len(),
{
    if s.len() != 0 {
        assert(forall|i: int| 0 <= i < s.len() - 1 ==> s.drop_last()[i] == s[i]);
        lemma_digits_nonneg(s.drop_last());
        assert(48 <= s[s.len() - 1] <= 57);
        assert(s.last() == s[s.len() - 1]);
    }
}

/// More digits never shrink the value.
proof fn lemma_digits_prefix(s: Seq<u8>, k: int)
    requires
        all_digits(s),
        0 <= k <= s.len(),
    ensures
        digits_val(s.take(k)) <= digits_val(s),
    decreases s.len() - k,
{
    if k == s.len() {
        assert(s.take(k) =~= s);
    } else {
        assert(s.take(k + 1).drop_last() =~= s.take(k));
        assert(s.take(k + 1).last() == s[k]);
        assert(digits_val(s.take(k + 1)) == digits_val(s.take(k)) * 10 + (s[k] - 48));
        assert(all_digits(s.take(k))) by {
            assert(forall|i: int| 0 <= i < k ==> s.take(k)[i] == s[i]);
        }
        lemma_digits_nonneg(s.take(k));
        lemma_digits_prefix(s, k + 1);
    }
}

/// Recognise a layer-change comment and parse its layer index: the call
/// reports a value exactly for the prefix followed by a non-empty digit
/// string whose value fits in u64.
#[verifier::rlimit(100)]
pub fn parse_layer_marker(comment: &[u8]) -> (r: Option<u64>)
    ensures
        match r {
            Some(n) => is_layer_marker(comment@) && n == digits_val(comment@.skip(6)),
            None => !is_layer_marker(comment@) || digits_val(comment@.skip(6)) > u64::MAX,
        },
{
    let prefix: [u8; 6] = [76, 65, 89, 69, 82, 58];
    if comment.len() < 7 {
        return None;
    }
    let mut i: usize = 0;
    while i < 6
        invariant
            comment@.len() >= 7,
            i <= 6,
            prefix@ == layer_prefix(),
            forall|k: int| 0 <= k < i as int ==> comment@[k] == layer_prefix()[k],
        decreases 6 - i,
    {
        if comment[i] != prefix[i] {
            proof {
                assert(comment@.take(6)[i as int] != layer_prefix()[i as int]);
            }
            return None;
        }
        i = i + 1;
    }
    proof {
        assert(comment@.take(6) =~= layer_prefix());
    }
    let mut val: u64 = 0;
    let mut j: usize = 6;
    proof {
        assert(comment@.subrange(6, 6) =~= Seq::<u8>::empty());
    }
    while j < comment.len()
        invariant
            comment@.len() >= 7,
            6 <= j <= comment@.len(),
            comment@.take(6) == layer_prefix(),
            all_digits(comment@.subrange(6, j as int)),
            val as int == digits_val(comment@.subrange(6, j as int)),
        decreases comment@.len() - j,
    {
        let c = comment[j];
        if c < 48 || c > 57 {
            proof {
                if all_digits(comment@.skip(6)) {
                    assert(comment@.skip(6)[j as int - 6] == comment@[j as int]);
                    assert(false);
                }
            }
            return None;
        }
        let d = (c - 48) as u64;
        let limit = (u64::MAX - d) / 10;
        if val > limit {
            proof {
                vstd::arithmetic::div_mod::lemma_fundamental_div_mod(
                    (u64::MAX - d) as int,
                    10,
                );
                assert(val as int * 10 + d as int > u64::MAX) by (nonlinear_arith)
                    requires
                        val as int >= (u64::MAX as int - d as int) / 10 + 1,
                        u64::MAX as int - d as int == 10 * ((u64::MAX as int - d as int) / 10) + (
                        u64::MAX as int - d as int) % 10,
                        0 <= (u64::MAX as int - d as int) % 10 < 10,
                ;
                if is_layer_marker(comment@) {
                    let digits = comment@.skip(6);
                    assert(comment@.subrange(6, j as int + 1).drop_last() =~= comment@.subrange(
                        6,
                        j as int,
                    ));
                    assert(comment@.subrange(6, j as int + 1).last() == comment@[j as int]);
                    assert(digits_val(comment@.subrange(6, j as int + 1)) == val as int * 10 + (
                    comment@[j as int] - 48));
                    assert(digits.take(j as int + 1 - 6) =~= comment@.subrange(6, j as int + 1));
                    lemma_digits_prefix(digits, j as int + 1 - 6);
                    assert(digits_val(digits) > u64::MAX);
                }
            }
            return None;
        }
        proof {
            vstd::arithmetic::div_mod::lemma_fundamental_div_mod((u64::MAX - d) as int, 10);
            assert(val as int * 10 + d as int <= u64::MAX) by (nonlinear_arith)
                requires
                    0 <= val as int <= (u64::MAX as int - d as int) / 10,
                    u64::MAX as int - d as int == 10 * ((u64::MAX as int - d as int) / 10) + (
                    u64::MAX as int - d as int) % 10,
                    0 <= (u64::MAX as int - d as int) % 10 < 10,
            ;
            assert(comment@.subrange(6, j as int + 1).drop_last() =~= comment@.subrange(
                6,
                j as int,
            ));
            assert(comment@.subrange(6, j as int + 1).last() == comment@[j as int]);
            assert(forall|k: int|
                0 <= k < j as int + 1 - 6 ==> #[trigger] comment@.subrange(6, j as int + 1)[k]
                    == comment@[6 + k]);
        }
        val = val * 10 + d;
        j = j + 1;
    }
    proof {
        assert(comment@.subrange(6, comment@.len() as int) =~= comment@.skip(6));
    }
    Some(val)
}

} // verus!

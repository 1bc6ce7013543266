//! Small helpers shared with the layout writer.
use vstd::prelude::*;
use vstd::string::StringSliceAdditionalSpecFns;

verus! {

/// Style properties of size and front position along an axis: width and
/// left across, height and top down.
pub fn size_pos_props(lateral: bool) -> (r: (&'static str, &'static str))
    ensures
        lateral ==> r.0@ == "width"@ && r.1@ == "left"@,
        !lateral ==> r.0@ == "height"@ && r.1@ == "top"@,
{
    proof {
        reveal_strlit("width");
        reveal_strlit("left");
        reveal_strlit("height");
        reveal_strlit("top");
    }
    if lateral { ("width", "left") } else { ("height", "top") }
}

/// Whether every byte of `b` is an ASCII digit.
pub open spec fn all_digits(b: Seq<u8>) -> bool {
    forall|i: int| 0 <= i < b.len() ==> 48 <= #[trigger] b[i] <= 57
}

/// The number that the ASCII digits `b` write in decimal.
pub open spec fn digits_value(b: Seq<u8>) -> int
    decreases b.len(),
{
    if b.len() == 0 { 0 } else { digits_value(b.drop_last()) * 10 + (b.last() - 48) }
}

/// The id that an attribute value writes: decimal digits, after an optional
/// `+`, for a number that fits in a `u64`.
pub open spec fn dataset_id(b: Seq<u8>) -> Option<u64> {
    let d = if b.len() > 0 && b[0] == 43 { b.drop_first() } else { b };
    if d.len() > 0 && all_digits(d) && digits_value(d) <= u64::MAX {
        Some(digits_value(d) as u64)
    } else {
        None
    }
}

/// Digits after a prefix never lower the value.
proof fn lemma_digits_grow(b: Seq<u8>, i: int)
    requires
        0 <= i <= b.len(),
        all_digits(b),
    ensures
        digits_value(b.take(i)) <= digits_value(b),
        digits_value(b.take(i)) >= 0,
    decreases b.len() - i,
{
    if i < b.len() {
        lemma_digits_grow(b, i + 1);
        assert(b.take(i + 1).drop_last() =~= b.take(i));
        lemma_digits_nonneg(b.take(i));
    } else {
        assert(b.take(i) =~= b);
        lemma_digits_nonneg(b);
    }
}

/// The value of digits is never negative.
proof fn lemma_digits_nonneg(b: Seq<u8>)
    requires
        all_digits(b),
    ensures
        digits_value(b) >= 0,
    decreases b.len(),
{
    if b.len() > 0 {
        lemma_digits_nonneg(b.drop_last());
    }
}

/// Reads a carton id from the value of its attribute: see [`dataset_id`].
pub fn parse_dataset(value: &str) -> (r: Option<u64>)
    ensures
        r == dataset_id(value.spec_bytes()),
{
    let b = value.as_bytes();
    let ghost whole = value.spec_bytes();
    let start: usize = if b.len() > 0 && b[0] == 43u8 { 1 } else { 0 };
    let ghost d = if whole.len() > 0 && whole[0] == 43 { whole.drop_first() } else { whole };
    proof {
        assert(d =~= whole.subrange(start as int, whole.len() as int));
    }
    if start >= b.len() {
        assert(d.len() == 0);
        return None;
    }
    let mut acc: u64 = 0;
    let mut i: usize = start;
    while i < b.len()
        invariant
            b@ == whole,
            whole == value.spec_bytes(),
            start <= i <= whole.len(),
            d == whole.subrange(start as int, whole.len() as int),
            d == (if whole.len() > 0 && whole[0] == 43 { whole.drop_first() } else { whole }),
            all_digits(d.take(i - start)),
            acc as int == digits_value(d.take(i - start)),
        decreases whole.len() - i,
    {
        let c = b[i];
        if c < 48u8 || c > 57u8 {
            proof {
                assert(d[i - start] == c);
            }
            return None;
        }
        let digit: u64 = (c - 48u8) as u64;
        proof {
            assert(d.take(i - start + 1).drop_last() =~= d.take(i - start));
            assert(d.take(i - start + 1).last() == c);
        }
        if acc > (u64::MAX - digit) / 10 {
            proof {
                assert(all_digits(d) ==> digits_value(d) > u64::MAX) by {
                    if all_digits(d) {
                        lemma_digits_grow(d, i - start + 1);
                        assert(acc * 10 + digit > u64::MAX) by (nonlinear_arith)
                            requires acc > (u64::MAX - digit) / 10, digit <= 9;
                        assert(digits_value(d.take(i - start + 1)) == acc * 10 + digit);
                    }
                }
            }
            return None;
        }
        proof {
            assert(acc * 10 + digit <= u64::MAX) by (nonlinear_arith)
                requires acc <= (u64::MAX - digit) / 10, digit <= 9;
        }
        acc = acc * 10 + digit;
        i = i + 1;
    }
    proof {
        assert(d.take(i - start) =~= d);
        assert(d.len() > 0);
    }
    Some(acc)
}

} // verus!

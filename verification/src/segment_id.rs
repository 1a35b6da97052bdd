//! Segment ids: 128-bit values written as 32 hexadecimal digits.

use vstd::prelude::*;

verus! {

/// Identity of an index segment.
#[derive(Debug, Clone, Copy, PartialEq, Eq, Hash, PartialOrd, Ord, Structural)]
pub struct SegmentId {
    /// The 128 bits of the id.
    pub value: u128,
}

/// `16^n`.
pub open spec fn pow16(n: nat) -> int
    decreases n,
{
    if n == 0 {
        1
    } else {
        16 * pow16((n - 1) as nat)
    }
}

/// The lowercase hexadecimal digit of `v`.
pub open spec fn hex_digit(v: int) -> u8 {
    if v < 10 {
        (48 + v) as u8
    } else {
        (87 + v) as u8
    }
}

/// The value of a hexadecimal digit in either case.
pub open spec fn digit_value(c: u8) -> Option<int> {
    if 48 <= c <= 57 {
        Some(c - 48)
    } else if 97 <= c <= 102 {
        Some(c - 87)
    } else if 65 <= c <= 70 {
        Some(c - 55)
    } else {
        None
    }
}

/// The `n` lowest hexadecimal digits of `v`, most significant first.
pub open spec fn hex_digits(v: int, n: nat) -> Seq<u8>
    decreases n,
{
    if n == 0 {
        Seq::empty()
    } else {
        hex_digits(v / 16, (n - 1) as nat).push(hex_digit(v % 16))
    }
}

/// Every byte is a hexadecimal digit.
pub open spec fn all_hex(s: Seq<u8>) -> bool {
    forall|i: int| 0 <= i < s.len() ==> digit_value(#[trigger] s[i]) is Some
}

/// The number that a string of hexadecimal digits stands for.
pub open spec fn hex_value(s: Seq<u8>) -> int
    decreases s.len(),
{
    if s.len() == 0 {
        0
    } else {
        16 * hex_value(s.drop_last()) + digit_value(s.last())->0
    }
}

proof fn lemma_pow16_mono(a: nat, b: nat)
    requires
        a <= b,
    ensures
        1 <= pow16(a) <= pow16(b),
    decreases b,
{
    if a < b {
        lemma_pow16_mono(a, (b - 1) as nat);
    } else if a > 0 {
        lemma_pow16_mono((a - 1) as nat, (a - 1) as nat);
    }
}

proof fn lemma_pow16_32()
    ensures
        pow16(32) == 0x1_0000_0000_0000_0000_0000_0000_0000_0000,
{
    reveal_with_fuel(pow16, 33);
}

proof fn lemma_hex_value_bound(s: Seq<u8>)
    requires
        all_hex(s),
    ensures
        0 <= hex_value(s) < pow16(s.len()),
    decreases s.len(),
{
    if s.len() > 0 {
        assert(digit_value(s[s.len() - 1]) is Some);
        assert forall|i: int| 0 <= i < s.drop_last().len() implies digit_value(
            #[trigger] s.drop_last()[i],
        ) is Some by {
            assert(s.drop_last()[i] == s[i]);
        }
        lemma_hex_value_bound(s.drop_last());
    }
}

/// The digits of a number are digits, as many as asked for, and read back as it.
pub proof fn lemma_hex_round_trip(v: int, n: nat)
    requires
        0 <= v < pow16(n),
    ensures
        hex_digits(v, n).len() == n,
        all_hex(hex_digits(v, n)),
        hex_value(hex_digits(v, n)) == v,
    decreases n,
{
    if n > 0 {
        lemma_hex_round_trip(v / 16, (n - 1) as nat);
        let front = hex_digits(v / 16, (n - 1) as nat);
        let s = hex_digits(v, n);
        assert(s.drop_last() =~= front);
        assert(digit_value(hex_digit(v % 16)) == Some(v % 16));
        assert forall|i: int| 0 <= i < s.len() implies digit_value(#[trigger] s[i]) is Some by {
            if i < front.len() {
                assert(s[i] == front[i]);
            }
        }
    }
}

impl SegmentId {
    /// The 32 digits of the id.
    pub open spec fn hex(&self) -> Seq<u8> {
        hex_digits(self.value as int, 32)
    }

    /// The 32 digits of the id read back as the id.
    pub proof fn lemma_hex(&self)
        ensures
            self.hex().len() == 32,
            all_hex(self.hex()),
            hex_value(self.hex()) == self.value,
    {
        lemma_pow16_32();
        lemma_hex_round_trip(self.value as int, 32);
    }

    /// The id as 32 lowercase hexadecimal ASCII digits.
    pub fn uuid_hex(&self) -> (r: Vec<u8>)
        ensures
            r@ == self.hex(),
            r@.len() == 32,
    {
        let mut out: Vec<u8> = Vec::new();
        let mut v: u128 = self.value;
        let mut left: usize = 32;
        assert(self.hex() =~= hex_digits(v as int, 32) + out@);
        while left > 0
            invariant
                left <= 32,
                self.hex() == hex_digits(v as int, left as nat) + out@,
            decreases left,
        {
            let d: u8 = (v % 16) as u8;
            let c: u8 = if d < 10 {
                48 + d
            } else {
                87 + d
            };
            let ghost before = out@;
            out.insert(0, c);
            proof {
                let front = hex_digits(v as int / 16, (left - 1) as nat);
                assert(hex_digits(v as int, left as nat) == front.push(c));
                assert(out@ =~= seq![c] + before);
                assert(front.push(c) + before =~= front + out@);
            }
            v = v / 16;
            left = left - 1;
        }
        assert(hex_digits(v as int, 0) + out@ =~= out@);
        proof {
            self.lemma_hex();
        }
        out
    }

    /// The id that 32 hexadecimal ASCII digits stand for, in either case.
    pub fn from_uuid_hex(hex: &[u8]) -> (r: Option<SegmentId>)
        ensures
            match r {
                Some(id) => hex@.len() == 32 && all_hex(hex@) && id.value == hex_value(hex@),
                None => hex@.len() != 32 || !all_hex(hex@),
            },
    {
        if hex.len() != 32 {
            return None;
        }
        let mut acc: u128 = 0;
        let mut i: usize = 0;
        assert(hex@.take(0) =~= Seq::<u8>::empty());
        while i < 32
            invariant
                i <= 32,
                hex@.len() == 32,
                all_hex(hex@.take(i as int)),
                acc == hex_value(hex@.take(i as int)),
            decreases 32 - i,
        {
            let c: u8 = hex[i];
            let d: u8 = if 48 <= c && c <= 57 {
                c - 48
            } else if 97 <= c && c <= 102 {
                c - 87
            } else if 65 <= c && c <= 70 {
                c - 55
            } else {
                assert(digit_value(hex@[i as int]) is None);
                return None;
            };
            proof {
                lemma_hex_value_bound(hex@.take(i as int));
                lemma_pow16_mono((i + 1) as nat, 32);
                lemma_pow16_32();
                assert(pow16((i + 1) as nat) == 16 * pow16(i as nat));
                assert(hex@.take(i + 1).drop_last() =~= hex@.take(i as int));
                assert forall|j: int| 0 <= j < i + 1 implies digit_value(
                    #[trigger] hex@.take(i + 1)[j],
                ) is Some by {
                    if j < i {
                        assert(hex@.take(i as int)[j] == hex@.take(i + 1)[j]);
                    }
                }
            }
            acc = 16 * acc + d as u128;
            i = i + 1;
        }
        assert(hex@.take(32) =~= hex@);
        Some(SegmentId { value: acc })
    }
}

} // verus!

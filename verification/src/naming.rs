//! The names of the chunk files: `chunk_0.json`, `chunk_1.json`, and so on.

use vstd::prelude::*;

verus! {

/// The ASCII code of the digit `0`.
pub const DIGIT_ZERO: u8 = 48;

/// The decimal digits of `n` in ASCII, the most significant first, without
/// leading zeros.
pub open spec fn decimal(n: nat) -> Seq<u8>
    decreases n,
{
    if n < 10 {
        seq![(DIGIT_ZERO + n) as u8]
    } else {
        decimal(n / 10).push((DIGIT_ZERO + n % 10) as u8)
    }
}

/// What every chunk file name begins with: `chunk_`.
pub open spec fn name_prefix() -> Seq<u8> {
    seq![99u8, 104u8, 117u8, 110u8, 107u8, 95u8]
}

/// What every chunk file name ends with: `.json`.
pub open spec fn name_suffix() -> Seq<u8> {
    seq![46u8, 106u8, 115u8, 111u8, 110u8]
}

/// The name of the chunk file numbered `index`, in ASCII.
pub open spec fn chunk_name(index: nat) -> Seq<u8> {
    name_prefix() + decimal(index) + name_suffix()
}

/// Appends the decimal digits of `n` to `out`.
pub fn push_decimal(out: &mut Vec<u8>, n: u64)
    ensures
        final(out)@ == old(out)@ + decimal(n as nat),
{
    let mut low_first: Vec<u8> = Vec::new();
    let mut rest: u64 = n;
    while rest >= 10
        invariant
            decimal(n as nat) == decimal(rest as nat) + low_first@.reverse(),
        decreases rest,
    {
        let digit: u8 = DIGIT_ZERO + (rest % 10) as u8;
        proof {
            let grown = low_first@.push(digit);
            assert(grown.reverse() == seq![digit] + low_first@.reverse());
            assert(decimal(rest as nat) == decimal((rest / 10) as nat).push(digit));
        }
        low_first.push(digit);
        rest = rest / 10;
    }
    let ghost before = out@;
    out.push(DIGIT_ZERO + rest as u8);
    let mut i: usize = low_first.len();
    while i > 0
        invariant
            i <= low_first.len(),
            out@ == before + decimal(rest as nat) + low_first@.reverse().take(
                low_first.len() - i,
            ),
        decreases i,
    {
        i -= 1;
        out.push(low_first[i]);
        proof {
            let turned = low_first@.reverse();
            let taken = low_first.len() - i;
            assert(turned.take(taken) == turned.take(taken - 1).push(low_first@[i as int]));
        }
    }
    proof {
        let turned = low_first@.reverse();
        assert(turned.take(turned.len() as int) == turned);
        assert(before + decimal(rest as nat) + turned == before + (decimal(rest as nat) + turned));
    }
}

/// The name of the chunk file numbered `index`: `chunk_`, the number in decimal,
/// and `.json`, in ASCII.
pub fn chunk_file_name(index: u64) -> (name: Vec<u8>)
    ensures
        name@ == chunk_name(index as nat),
{
    let mut name: Vec<u8> = Vec::new();
    name.push(99);
    name.push(104);
    name.push(117);
    name.push(110);
    name.push(107);
    name.push(95);
    assert(name@ == name_prefix());
    push_decimal(&mut name, index);
    let ghost stem = name@;
    name.push(46);
    name.push(106);
    name.push(115);
    name.push(111);
    name.push(110);
    assert(name@ == stem + name_suffix());
    name
}

} // verus!

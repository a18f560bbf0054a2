//! The exact bytes written to the `pwm1` node for a duty value.

use vstd::prelude::*;

verus! {

/// Decimal digits of a non-negative number, most significant first, with
/// no leading zeros.
pub open spec fn dec_digits(n: int) -> Seq<u8>
    recommends
        0 <= n,
    decreases n,
{
    if n < 10 {
        seq![(n + 48) as u8]
    } else {
        dec_digits(n / 10).push((n % 10 + 48) as u8)
    }
}

/// The command written to the `pwm1` node: the duty value in decimal ASCII
/// followed by a newline.
pub open spec fn pwm_command_spec(pwm: u8) -> Seq<u8> {
    dec_digits(pwm as int).push(10)
}

/// Formats a duty value for the `pwm1` node.
pub fn pwm_command(pwm: u8) -> (v: Vec<u8>)
    ensures
        v@ == pwm_command_spec(pwm),
{
    let hundreds: u8 = pwm / 100;
    let tens: u8 = pwm / 10 % 10;
    let ones: u8 = pwm % 10;
    proof {
        reveal_with_fuel(dec_digits, 4);
        vstd::arithmetic::div_mod::lemma_div_denominator(pwm as int, 10, 10);
    }
    if pwm >= 100 {
        let v = vec![hundreds + 48, tens + 48, ones + 48, 10];
        proof {
            assert(v@ =~= pwm_command_spec(pwm));
        }
        v
    } else if pwm >= 10 {
        let v = vec![tens + 48, ones + 48, 10];
        proof {
            assert(v@ =~= pwm_command_spec(pwm));
        }
        v
    } else {
        let v = vec![ones + 48, 10];
        proof {
            assert(v@ =~= pwm_command_spec(pwm));
        }
        v
    }
}

} // verus!

//! Hexadecimal digits.

use vstd::prelude::*;

verus! {

broadcast use vstd::string::group_string_axioms;

/// A hexadecimal digit.
pub open spec fn hex_digit(d: int) -> char {
    if d < 10 {
        ('0' as int + d) as char
    } else {
        ('a' as int + d - 10) as char
    }
}

/// The last `width` hexadecimal digits of a number.
pub open spec fn hex(n: nat, width: nat) -> Seq<char>
    decreases width,
{
    if width == 0 {
        Seq::empty()
    } else {
        hex(n / 16, (width - 1) as nat).push(hex_digit((n % 16) as int))
    }
}

/// A hexadecimal digit.
fn digit(d: u8) -> (c: char)
    requires
        d < 16,
    ensures
        c == hex_digit(d as int),
{
    if d < 10 {
        (48 + d) as char
    } else {
        (87 + d) as char
    }
}

/// Writes the last `width` hexadecimal digits of a number.
pub fn push_hex(out: &mut String, n: u128, width: u8)
    ensures
        final(out)@ == old(out)@ + hex(n as nat, width as nat),
    decreases width,
{
    if width == 0 {
        assert(out@ + hex(n as nat, 0) =~= out@);
        return ;
    }
    push_hex(out, n / 16, width - 1);
    out.push(digit((n % 16) as u8));
    assert(out@ =~= old(out)@ + hex(n as nat, width as nat));
}

// ---------------------------------------------------------------------------
// Laws
// ---------------------------------------------------------------------------

/// There are as many digits as are asked for. The last is that of what is left
/// over sixteens, and the others are those of the sixteens.
pub proof fn digits_count_in_sixteens(n: nat, width: nat)
    ensures
        hex(n, width).len() == width,
        width > 0 ==> hex(n, width).last() == "0123456789abcdef"@[(n % 16) as int],
        width > 0 ==> hex(n, width).drop_last() == hex(n / 16, (width - 1) as nat),
    decreases width,
{
    reveal_strlit("0123456789abcdef");
    if width > 0 {
        digits_count_in_sixteens(n / 16, (width - 1) as nat);
        assert(hex(n, width).drop_last() =~= hex(n / 16, (width - 1) as nat));
    }
}

} // verus!

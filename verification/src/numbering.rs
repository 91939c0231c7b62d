//! Rendering of line numbers: decimal digits, right-aligned in a
//! six-column field padded with spaces, as the numbering modes print them.

use vstd::prelude::*;

verus! {

/// Decimal digits of `n`, most significant first, as ASCII bytes.
pub open spec fn dec_digits(n: nat) -> Seq<u8>
    decreases n,
{
    if n < 10 {
        seq![(48 + n) as u8]
    } else {
        dec_digits(n / 10).push((48 + n % 10) as u8)
    }
}

/// `k` ASCII space bytes.
pub open spec fn spaces(k: nat) -> Seq<u8> {
    Seq::new(k, |i: int| 32u8)
}

/// `s` right-aligned in a field of six columns: shorter digit strings are
/// preceded by spaces, longer ones are kept whole.
pub open spec fn pad6(s: Seq<u8>) -> Seq<u8> {
    if s.len() >= 6 {
        s
    } else {
        spaces((6 - s.len()) as nat) + s
    }
}

/// The rendered number field for line number `n`: its decimal digits,
/// right-aligned in six columns.
pub open spec fn number_field(n: nat) -> Seq<u8> {
    pad6(dec_digits(n))
}

fn dec_digits_exec(n: u128) -> (r: Vec<u8>)
    ensures
        r@ == dec_digits(n as nat),
    decreases n,
{
    if n < 10 {
        let mut v: Vec<u8> = Vec::new();
        v.push(48 + n as u8);
        v
    } else {
        let mut v = dec_digits_exec(n / 10);
        v.push(48 + (n % 10) as u8);
        v
    }
}

/// Renders line number `n` right-aligned in a six-column field.
pub fn render_number(n: u128) -> (r: Vec<u8>)
    ensures
        r@ == number_field(n as nat),
{
    let d = dec_digits_exec(n);
    let mut v: Vec<u8> = Vec::new();
    let pad: usize = if d.len() >= 6 {
        0
    } else {
        6 - d.len()
    };
    let mut j: usize = 0;
    while j < pad
        invariant
            j <= pad,
            v@ == spaces(j as nat),
        decreases pad - j,
    {
        v.push(32u8);
        assert(v@ =~= spaces((j + 1) as nat));
        j += 1;
    }
    let mut i: usize = 0;
    while i < d.len()
        invariant
            i <= d@.len(),
            v@ == spaces(pad as nat) + d@.take(i as int),
        decreases d@.len() - i,
    {
        let b = d[i];
        v.push(b);
        assert(v@ =~= spaces(pad as nat) + d@.take(i + 1));
        i += 1;
    }
    assert(d@.take(d@.len() as int) =~= d@);
    assert(pad == 0 ==> v@ =~= d@);
    v
}

} // verus!

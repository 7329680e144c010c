//! The text of a spectrum, for diagnostics.

use crate::arithmetic::absolute;
use crate::decimal::{decimal, padded, push_decimal, push_padded, push_shortened, shortened};
use crate::spectrum::{distance, Spectrum, UNIT};
use vstd::prelude::*;
use vstd::string::StringExecFns;

verus! {

/// An eigenvalue with as many decimals as it needs: a minus sign if it is
/// below zero, its whole part, and its decimals, if it has any, behind a
/// point.
pub open spec fn plain(value: int) -> Seq<char> {
    let size = absolute(value) as nat;
    let whole = size / (UNIT as nat);
    let part = size % (UNIT as nat);
    (if value < 0 {
        "-"@
    } else {
        Seq::empty()
    }) + decimal(whole) + (if part == 0 {
        Seq::empty()
    } else {
        "."@ + shortened(part, 7)
    })
}

/// An eigenvalue with its sign and seven decimals.
pub open spec fn signed(value: int) -> Seq<char> {
    let size = absolute(value) as nat;
    (if value < 0 {
        "-"@
    } else {
        "+"@
    }) + decimal(size / (UNIT as nat)) + "."@ + padded(size % (UNIT as nat), 7)
}

/// The text of a flag.
pub open spec fn flag_text(flag: bool) -> Seq<char> {
    if flag {
        "true"@
    } else {
        "false"@
    }
}

/// The first `count` eigenvalues: the first one plain, the others signed,
/// with a comma and a blank between them.
pub open spec fn eigenvalue_list(values: Seq<int>, count: int) -> Seq<char>
    decreases count,
{
    if count <= 1 {
        plain(values[0])
    } else {
        eigenvalue_list(values, count - 1) + ", "@ + signed(values[count - 1])
    }
}

/// The first `count` flags, with a comma and a blank between them.
pub open spec fn flag_list(flags: Seq<bool>, count: int) -> Seq<char>
    decreases count,
{
    if count <= 1 {
        flag_text(flags[0])
    } else {
        flag_list(flags, count - 1) + ", "@ + flag_text(flags[count - 1])
    }
}

/// The text of a spectrum: its eigenvalues, then its flags.
pub open spec fn rendering(values: Seq<int>, flags: Seq<bool>) -> Seq<char> {
    "Eigenvalues: "@ + eigenvalue_list(values, values.len() as int) + "; Tests: "@ + flag_list(
        flags,
        flags.len() as int,
    )
}

/// Appends an eigenvalue with as many decimals as it needs.
fn push_plain(out: &mut String, value: i64)
    ensures
        final(out)@ == old(out)@ + plain(value as int),
{
    let size = distance(value);
    let whole = size / (UNIT as u64);
    let part = size % (UNIT as u64);
    if value < 0 {
        out.append("-");
    }
    push_decimal(out, whole);
    if part != 0 {
        out.append(".");
        push_shortened(out, part, 7);
    }
    assert(out@ =~= old(out)@ + plain(value as int));
}

/// Appends an eigenvalue with its sign and seven decimals.
fn push_signed(out: &mut String, value: i64)
    ensures
        final(out)@ == old(out)@ + signed(value as int),
{
    let size = distance(value);
    if value < 0 {
        out.append("-");
    } else {
        out.append("+");
    }
    push_decimal(out, size / (UNIT as u64));
    out.append(".");
    push_padded(out, size % (UNIT as u64), 7);
    assert(out@ =~= old(out)@ + signed(value as int));
}

/// Appends the text of a flag.
fn push_flag(out: &mut String, flag: bool)
    ensures
        final(out)@ == old(out)@ + flag_text(flag),
{
    if flag {
        out.append("true");
    } else {
        out.append("false");
    }
}

impl Spectrum {
    /// The text of the spectrum: `Eigenvalues: `, the eigenvalues, `;
    /// Tests: `, and the flags. The first eigenvalue stands as it is, each
    /// other one with its sign and seven decimals.
    pub fn to_string(&self) -> (text: String)
        requires
            self@.len() >= 1,
            self.flags().len() >= 1,
        ensures
            text@ == rendering(self@, self.flags()),
    {
        let mut out = String::new();
        out.append("Eigenvalues: ");
        push_plain(&mut out, self.get(0));
        let n = self.len();
        let mut i: usize = 1;
        assert(out@ =~= "Eigenvalues: "@ + eigenvalue_list(self@, 1));
        while i < n
            invariant
                1 <= i <= n,
                n == self@.len(),
                out@ == "Eigenvalues: "@ + eigenvalue_list(self@, i as int),
            decreases n - i,
        {
            out.append(", ");
            push_signed(&mut out, self.get(i));
            assert(out@ =~= "Eigenvalues: "@ + eigenvalue_list(self@, i + 1));
            i += 1;
        }
        let ghost head = out@;
        out.append("; Tests: ");
        push_flag(&mut out, self.condition(0));
        let count = self.num_conditions();
        let mut j: usize = 1;
        assert(out@ =~= head + "; Tests: "@ + flag_list(self.flags(), 1));
        while j < count
            invariant
                1 <= j <= count,
                count == self.flags().len(),
                out@ == head + "; Tests: "@ + flag_list(self.flags(), j as int),
            decreases count - j,
        {
            out.append(", ");
            push_flag(&mut out, self.condition(j));
            assert(out@ =~= head + "; Tests: "@ + flag_list(self.flags(), j + 1));
            j += 1;
        }
        out
    }
}

} // verus!

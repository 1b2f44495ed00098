use vstd::prelude::*;

verus! {

/// The character that fills the unused tail of a base32 or base64 block.
pub const PAD: u8 = 0x3d;

/// The number of `=` characters that end `s`.
pub open spec fn trailing_pad(s: Seq<u8>) -> nat
    decreases s.len(),
{
    if s.len() > 0 && s.last() == PAD {
        1 + trailing_pad(s.drop_last())
    } else {
        0
    }
}

/// The last `trailing_pad(s)` characters of `s` are `=`, and the one before them is not.
pub proof fn lemma_trailing_pad_shape(s: Seq<u8>)
    ensures
        trailing_pad(s) <= s.len(),
        forall|i: int| s.len() - trailing_pad(s) <= i < s.len() ==> s[i] == PAD,
        trailing_pad(s) < s.len() ==> s[s.len() - trailing_pad(s) - 1] != PAD,
    decreases s.len(),
{
    if s.len() > 0 && s.last() == PAD {
        let t = s.drop_last();
        lemma_trailing_pad_shape(t);
        assert forall|i: int| s.len() - trailing_pad(s) <= i < s.len() implies s[i] == PAD by {
            if i < s.len() - 1 {
                assert(s[i] == t[i]);
            }
        }
    }
}

/// A text made of `t`, whose last character is not `=`, followed by `p` characters `=`
/// ends in exactly `p` of them.
pub proof fn lemma_trailing_pad_of(s: Seq<u8>, p: nat)
    requires
        p <= s.len(),
        forall|i: int| s.len() - p <= i < s.len() ==> s[i] == PAD,
        p < s.len() ==> s[s.len() - p - 1] != PAD,
    ensures
        trailing_pad(s) == p,
    decreases p,
{
    if p > 0 {
        lemma_trailing_pad_of(s.drop_last(), (p - 1) as nat);
    }
}

/// Position `j` of block `g`, in blocks of `c`, is position `c * g + j`.
pub proof fn lemma_block_index(c: int, g: int, j: int)
    requires
        c > 0,
        0 <= j < c,
    ensures
        (c * g + j) / c == g,
        (c * g + j) % c == j,
{
    assert(c * g == g * c) by (nonlinear_arith);
    vstd::arithmetic::div_mod::lemma_fundamental_div_mod_converse(c * g + j, c, g, j);
}

/// Counts the `=` characters that end `s`.
pub fn count_trailing_pad(s: &[u8]) -> (r: usize)
    ensures
        r == trailing_pad(s@),
{
    let mut i: usize = s.len();
    while i > 0 && s[i - 1] == PAD
        invariant
            i <= s@.len(),
            forall|k: int| i <= k < s@.len() ==> s@[k] == PAD,
        decreases i,
    {
        i = i - 1;
    }
    proof {
        lemma_trailing_pad_of(s@, (s@.len() - i) as nat);
    }
    s.len() - i
}

} // verus!

//! Fixed-capacity text and byte buffers, as the wire types hold them.
//!
//! A string of capacity `cap` bytes that is filled from a `&str` in one
//! push holds the whole text when its UTF-8 encoding fits, and nothing
//! otherwise; a byte buffer filled byte by byte keeps the first `cap` bytes.

use vstd::prelude::*;
use vstd::utf8::encode_utf8;

verus! {

/// What a string of capacity `cap` bytes holds after one push of `s`.
pub open spec fn fit_text(s: Seq<char>, cap: nat) -> Seq<char> {
    if encode_utf8(s).len() <= cap {
        s
    } else {
        Seq::empty()
    }
}

/// What a byte buffer of capacity `cap` holds after `b` is pushed into it byte by byte.
pub open spec fn fit_data(b: Seq<u8>, cap: nat) -> Seq<u8> {
    if b.len() <= cap {
        b
    } else {
        b.take(cap as int)
    }
}

/// Copies `s` into a string of capacity `cap` bytes.
pub fn fit_str(s: &str, cap: usize) -> (r: String)
    ensures
        r@ == fit_text(s@, cap as nat),
{
    if s.as_bytes().len() <= cap {
        s.to_owned()
    } else {
        String::new()
    }
}

/// Copies `b` into a byte buffer of capacity `cap`, dropping what does not fit.
pub fn fit_bytes(b: &[u8], cap: usize) -> (r: Vec<u8>)
    ensures
        r@ == fit_data(b@, cap as nat),
{
    let mut out: Vec<u8> = Vec::new();
    let mut i: usize = 0;
    while i < b.len() && i < cap
        invariant
            i <= b@.len(),
            i <= cap,
            out@ == b@.take(i as int),
        decreases b@.len() - i,
    {
        out.push(b[i]);
        i = i + 1;
        assert(out@ =~= b@.take(i as int));
    }
    assert(fit_data(b@, cap as nat) =~= b@.take(i as int));
    out
}

} // verus!

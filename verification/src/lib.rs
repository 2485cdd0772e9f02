//! Demangler for compiler-mangled symbol names, with a byte-buffer bridge.
//!
//! Two mangling schemes are recognised: a legacy scheme (`_ZN` followed by
//! length-prefixed path components and a closing `E`) and a versioned scheme
//! (`_R` followed by a recursive path grammar with generic arguments,
//! closure markers and positional back-references).  The demangler is a pure
//! function from an input byte string to either the demangled text or a
//! rejection; the bridge functions size and fill a caller-supplied buffer.

use vstd::prelude::*;

pub mod ast;
pub mod chars;
pub mod laws;
pub mod num;
pub mod parse;
pub mod render;

verus! {

use crate::parse::{parse_symbol, spec_parse_symbol};
use crate::render::{render_symbol, spec_render_symbol};

/// What one demangling attempt ends in: the demangled text, or a rejection.
/// Encoding errors, scheme mismatches and structural errors all come out as
/// `Rejected`; nothing else ever escapes a call.
#[derive(Debug)]
pub enum Outcome {
    Success(Vec<u8>),
    Rejected,
}

/// The demangled text of `s`, when `s` is a well-formed mangled name in a
/// supported scheme, under the chosen rendering mode.
pub open spec fn spec_demangle(s: Seq<u8>, verbose: bool) -> Option<Seq<u8>> {
    match spec_parse_symbol(s) {
        Option::None => Option::None,
        Option::Some(sym) => Option::Some(spec_render_symbol(sym, verbose)),
    }
}

/// What `measure_length` returns: the byte length of the bridge's output,
/// terminator included, or 0 when the input is rejected (or when the length
/// cannot be represented).
pub open spec fn spec_measure(s: Seq<u8>) -> int {
    match spec_demangle(s, true) {
        Option::None => 0,
        Option::Some(t) => if t.len() + 1 <= usize::MAX {
            t.len() + 1 as int
        } else {
            0
        },
    }
}

/// Demangle `input` under the chosen rendering mode.
///
/// Returns `Outcome::Success` holding exactly the text `spec_demangle`
/// describes, and `Outcome::Rejected` exactly when the input is not a
/// well-formed mangled name.
pub fn try_demangle(input: &[u8], verbose: bool) -> (r: Outcome)
    ensures
        match r {
            Outcome::Success(v) => spec_demangle(input@, verbose) == Some(v@),
            Outcome::Rejected => spec_demangle(input@, verbose) is None,
        },
{
    match parse_symbol(input) {
        None => Outcome::Rejected,
        Some(sym) => Outcome::Success(render_symbol(&sym, verbose)),
    }
}

/// Byte length the bridge's output needs, terminator included; 0 when the
/// input is not demanglable.  The bridge always renders the verbose mode.
pub fn measure_length(input: &[u8]) -> (r: usize)
    ensures
        r as int == spec_measure(input@),
{
    match try_demangle(input, true) {
        Outcome::Rejected => 0,
        Outcome::Success(v) => {
            let n = v.len();
            if n < usize::MAX {
                n + 1
            } else {
                0
            }
        },
    }
}

/// Demangle `input` into the prefix of `out`, whose length is the capacity.
///
/// On success the prefix of `out` holds exactly the demangled text followed
/// by one terminator byte, the rest of `out` is untouched, and `true` comes
/// back.  On rejection, or when the capacity cannot hold text and
/// terminator, `out` is untouched and `false` comes back: the output is
/// all-or-nothing.
pub fn demangle(input: &[u8], out: &mut Vec<u8>) -> (ok: bool)
    ensures
        final(out)@.len() == old(out)@.len(),
        match spec_demangle(input@, true) {
            Option::Some(t) => if t.len() + 1 <= old(out)@.len() {
                ok && final(out)@ =~= t + seq![0u8] + old(out)@.skip(t.len() + 1 as int)
            } else {
                !ok && final(out)@ == old(out)@
            },
            Option::None => !ok && final(out)@ == old(out)@,
        },
{
    match try_demangle(input, true) {
        Outcome::Rejected => false,
        Outcome::Success(v) => {
            if v.len() < out.len() {
                let n = v.len();
                let mut i: usize = 0;
                while i < n
                    invariant
                        0 <= i <= n < out@.len(),
                        n == v@.len(),
                        out@.len() == old(out)@.len(),
                        out@ =~= v@.subrange(0, i as int) + old(out)@.skip(i as int),
                    decreases n - i,
                {
                    out.set(i, v[i]);
                    proof {
                        assert(out@ =~= v@.subrange(0, i + 1) + old(out)@.skip(i + 1));
                    }
                    i = i + 1;
                }
                out.set(n, 0);
                proof {
                    assert(out@ =~= v@ + seq![0u8] + old(out)@.skip(n + 1));
                }
                true
            } else {
                false
            }
        },
    }
}

} // verus!

//! Structural parse of mangled names.
//!
//! Scheme sniffing looks at a fixed prefix: `_ZN` selects the legacy scheme,
//! `_R` the versioned one; anything else is rejected.  The legacy body is a
//! run of length-prefixed components closed by `E`.  The versioned body is a
//! recursive path grammar:
//!
//! ```text
//! path      = "C" ident                    crate root
//!           | "N" ns path ident            nested component, ns: "C" (closure)
//!                                          or a lower-case letter
//!           | "I" path args "E"            generic application
//!           | "B" base62 "_"               back-reference to an earlier
//!                                          byte position
//! args      = { path | "K" decimal }       closed by "E"
//! ident     = [ "s" base62 "_" ] decimal identifier-bytes
//! ```
//!
//! Parsing carries a depth budget: every step into a sub-path spends one
//! unit, and an exhausted budget is a structural error, so adversarial
//! nesting (or a back-reference cycle) is rejected rather than pursued.  A
//! back-reference must point strictly before the position where it occurs;
//! anything else is rejected without any out-of-range access.

use vstd::prelude::*;
use crate::ast::{Arg, ArgList, Ident, Path, SpecArg, SpecIdent, SpecPath, SpecSymbol, Symbol};
use crate::chars::{check_ident_char, check_ident_start, is_ident_char, is_ident_start, is_lower,
    valid_ident_bytes};
use crate::num::{parse_base62, parse_dec, spec_parse_base62, spec_parse_dec};

verus! {

/// Largest number of path nodes a versioned name may nest.
pub const MAX_DEPTH: usize = 64;

/// Namespace tag of a nested component: `C` marks a closure, a lower-case
/// letter an ordinary component.
pub open spec fn valid_ns(b: u8) -> bool {
    b == 67 || is_lower(b)
}

/// Identifier without its disambiguator: decimal length, then that many
/// identifier bytes.
pub open spec fn spec_parse_undis_ident(s: Seq<u8>, pos: int, dis: nat) -> Option<(SpecIdent, int)> {
    match spec_parse_dec(s, pos) {
        Option::None => Option::None,
        Option::Some((n, p)) => if p + n <= s.len() && valid_ident_bytes(
            s.subrange(p, p + n),
        ) {
            Option::Some((SpecIdent { dis, name: s.subrange(p, p + n) }, p + n))
        } else {
            Option::None
        },
    }
}

/// Identifier of the versioned scheme: an optional `s<base62>_`
/// disambiguator, then the identifier itself.
pub open spec fn spec_parse_v0_ident(s: Seq<u8>, pos: int) -> Option<(SpecIdent, int)> {
    if 0 <= pos < s.len() && s[pos] == 115 {
        match spec_parse_base62(s, pos + 1) {
            Option::None => Option::None,
            Option::Some((d, p)) => spec_parse_undis_ident(s, p, d),
        }
    } else {
        spec_parse_undis_ident(s, pos, 0)
    }
}

/// Legacy path component: decimal length (at least one), then that many
/// identifier bytes.
pub open spec fn spec_parse_elem(s: Seq<u8>, pos: int) -> Option<(Seq<u8>, int)> {
    match spec_parse_dec(s, pos) {
        Option::None => Option::None,
        Option::Some((n, p)) => if n >= 1 && p + n <= s.len() && valid_ident_bytes(
            s.subrange(p, p + n),
        ) {
            Option::Some((s.subrange(p, p + n), p + n))
        } else {
            Option::None
        },
    }
}

/// Legacy components up to and including the closing `E`.
pub open spec fn spec_parse_elems(s: Seq<u8>, pos: int) -> Option<(Seq<Seq<u8>>, int)>
    decreases s.len() - pos,
{
    if !(0 <= pos < s.len()) {
        Option::None
    } else if s[pos] == 69 {
        Option::Some((Seq::empty(), pos + 1))
    } else {
        match spec_parse_elem(s, pos) {
            Option::None => Option::None,
            Option::Some((e, p)) => if pos < p <= s.len() {
                match spec_parse_elems(s, p) {
                    Option::None => Option::None,
                    Option::Some((rest, q)) => Option::Some((seq![e] + rest, q)),
                }
            } else {
                Option::None
            },
        }
    }
}

/// Versioned path with a depth budget of `d` path nodes.
pub open spec fn spec_parse_path(s: Seq<u8>, pos: int, d: nat) -> Option<(SpecPath, int)>
    decreases d, s.len() - pos, 0nat,
{
    if d == 0 || !(0 <= pos < s.len()) {
        Option::None
    } else if s[pos] == 67 {
        match spec_parse_v0_ident(s, pos + 1) {
            Option::None => Option::None,
            Option::Some((id, p)) => Option::Some((SpecPath::Root { name: id }, p)),
        }
    } else if s[pos] == 78 {
        if pos + 1 < s.len() && valid_ns(s[pos + 1]) {
            match spec_parse_path(s, pos + 2, (d - 1) as nat) {
                Option::None => Option::None,
                Option::Some((parent, p)) => match spec_parse_v0_ident(s, p) {
                    Option::None => Option::None,
                    Option::Some((id, q)) => Option::Some(
                        (SpecPath::Nested { ns: s[pos + 1], parent: Box::new(parent), name: id }, q),
                    ),
                },
            }
        } else {
            Option::None
        }
    } else if s[pos] == 73 {
        match spec_parse_path(s, pos + 1, (d - 1) as nat) {
            Option::None => Option::None,
            Option::Some((base, p)) => if pos < p <= s.len() {
                match spec_parse_args(s, p, d) {
                    Option::None => Option::None,
                    Option::Some((args, q)) => Option::Some(
                        (SpecPath::Generic { base: Box::new(base), args }, q),
                    ),
                }
            } else {
                Option::None
            },
        }
    } else if s[pos] == 66 {
        match spec_parse_base62(s, pos + 1) {
            Option::None => Option::None,
            Option::Some((t, p)) => if t < pos {
                match spec_parse_path(s, t as int, (d - 1) as nat) {
                    Option::None => Option::None,
                    Option::Some((target, _)) => Option::Some((target, p)),
                }
            } else {
                Option::None
            },
        }
    } else {
        Option::None
    }
}

/// Generic arguments up to and including the closing `E`.
pub open spec fn spec_parse_args(s: Seq<u8>, pos: int, d: nat) -> Option<(Seq<SpecArg>, int)>
    decreases d, s.len() - pos, 2nat,
{
    if !(0 <= pos < s.len()) {
        Option::None
    } else if s[pos] == 69 {
        Option::Some((Seq::empty(), pos + 1))
    } else {
        match spec_parse_arg(s, pos, d) {
            Option::None => Option::None,
            Option::Some((a, p)) => if pos < p <= s.len() {
                match spec_parse_args(s, p, d) {
                    Option::None => Option::None,
                    Option::Some((rest, q)) => Option::Some((seq![a] + rest, q)),
                }
            } else {
                Option::None
            },
        }
    }
}

/// One generic argument: a numeric const argument after `K`, else a path.
pub open spec fn spec_parse_arg(s: Seq<u8>, pos: int, d: nat) -> Option<(SpecArg, int)>
    decreases d, s.len() - pos, 1nat,
{
    if d == 0 || !(0 <= pos < s.len()) {
        Option::None
    } else if s[pos] == 75 {
        match spec_parse_dec(s, pos + 1) {
            Option::None => Option::None,
            Option::Some((v, p)) => Option::Some((SpecArg::Num(v), p)),
        }
    } else {
        match spec_parse_path(s, pos, (d - 1) as nat) {
            Option::None => Option::None,
            Option::Some((q, p)) => Option::Some((SpecArg::Path(q), p)),
        }
    }
}

/// The legacy prefix `_ZN`.
pub open spec fn sniff_legacy(s: Seq<u8>) -> bool {
    s.len() >= 3 && s[0] == 95 && s[1] == 90 && s[2] == 78
}

/// The versioned prefix `_R`.
pub open spec fn sniff_versioned(s: Seq<u8>) -> bool {
    s.len() >= 2 && s[0] == 95 && s[1] == 82
}

/// Whether any supported scheme prefix matches.
pub open spec fn sniffs(s: Seq<u8>) -> bool {
    sniff_legacy(s) || sniff_versioned(s)
}

/// The accepted text encoding: ASCII.
pub open spec fn valid_encoding(s: Seq<u8>) -> bool {
    forall|i: int| 0 <= i < s.len() ==> #[trigger] s[i] < 128
}

/// A whole legacy name: `_ZN`, at least one component, `E`, nothing after.
pub open spec fn spec_parse_legacy(s: Seq<u8>) -> Option<Seq<Seq<u8>>> {
    match spec_parse_elems(s, 3) {
        Option::None => Option::None,
        Option::Some((es, p)) => if p == s.len() && es.len() >= 1 {
            Option::Some(es)
        } else {
            Option::None
        },
    }
}

/// A whole versioned name: `_R`, one path, nothing after.
pub open spec fn spec_parse_versioned(s: Seq<u8>) -> Option<SpecPath> {
    match spec_parse_path(s, 2, MAX_DEPTH as nat) {
        Option::None => Option::None,
        Option::Some((p, q)) => if q == s.len() {
            Option::Some(p)
        } else {
            Option::None
        },
    }
}

/// A whole mangled name under either scheme; encoding errors and scheme
/// mismatches reject before any structural work.
pub open spec fn spec_parse_symbol(s: Seq<u8>) -> Option<SpecSymbol> {
    if !valid_encoding(s) {
        Option::None
    } else if sniff_legacy(s) {
        match spec_parse_legacy(s) {
            Option::None => Option::None,
            Option::Some(es) => Option::Some(SpecSymbol::Legacy { elems: es }),
        }
    } else if sniff_versioned(s) {
        match spec_parse_versioned(s) {
            Option::None => Option::None,
            Option::Some(p) => Option::Some(SpecSymbol::Versioned { path: p }),
        }
    } else {
        Option::None
    }
}

/// Copy the bytes of `s` in `[start, end)` into a fresh vector.
pub fn copy_range(s: &[u8], start: usize, end: usize) -> (r: Vec<u8>)
    requires
        start <= end <= s@.len(),
    ensures
        r@ == s@.subrange(start as int, end as int),
{
    let mut v: Vec<u8> = Vec::new();
    let mut i = start;
    while i < end
        invariant
            start <= i <= end <= s@.len(),
            v@ == s@.subrange(start as int, i as int),
        decreases end - i,
    {
        v.push(s[i]);
        i = i + 1;
        proof {
            assert(v@ =~= s@.subrange(start as int, i as int));
        }
    }
    v
}

/// Decide whether the bytes of `s` in `[start, end)` form a well-formed
/// identifier body.
pub fn check_ident_range(s: &[u8], start: usize, end: usize) -> (r: bool)
    requires
        start <= end <= s@.len(),
    ensures
        r == valid_ident_bytes(s@.subrange(start as int, end as int)),
{
    let ghost sub = s@.subrange(start as int, end as int);
    if start < end && !check_ident_start(s[start]) {
        return false;
    }
    let mut i = start;
    while i < end
        invariant
            start <= i <= end <= s@.len(),
            forall|j: int| start <= j < i ==> is_ident_char(#[trigger] s@[j]),
        decreases end - i,
    {
        if !check_ident_char(s[i]) {
            proof {
                assert(s@.subrange(start as int, end as int)[i - start] == s@[i as int]);
            }
            return false;
        }
        i = i + 1;
    }
    proof {
        assert forall|k: int| 0 <= k < sub.len() implies is_ident_char(#[trigger] sub[k]) by {
            assert(sub[k] == s@[start + k]);
        }
        if sub.len() > 0 {
            assert(sub[0] == s@[start as int]);
        }
    }
    true
}

/// Parse an identifier body after its already-read disambiguator.
pub fn parse_undis_ident(s: &[u8], pos: usize, dis: usize) -> (r: Option<(Ident, usize)>)
    requires
        pos <= s@.len(),
    ensures
        match r {
            Some(t) => spec_parse_undis_ident(s@, pos as int, dis as nat) == Some(
                (t.0@, t.1 as int),
            ) && pos < t.1 <= s@.len(),
            None => spec_parse_undis_ident(s@, pos as int, dis as nat) is None,
        },
{
    match parse_dec(s, pos) {
        None => None,
        Some((n, p)) => {
            if n > s.len() - p {
                return None;
            }
            let end = p + n;
            if check_ident_range(s, p, end) {
                Some((Ident { dis, name: copy_range(s, p, end) }, end))
            } else {
                None
            }
        },
    }
}

/// Parse a versioned-scheme identifier, disambiguator included.
pub fn parse_v0_ident(s: &[u8], pos: usize) -> (r: Option<(Ident, usize)>)
    requires
        pos <= s@.len(),
    ensures
        match r {
            Some(t) => spec_parse_v0_ident(s@, pos as int) == Some((t.0@, t.1 as int)) && pos < t.1
                <= s@.len(),
            None => spec_parse_v0_ident(s@, pos as int) is None,
        },
{
    if pos < s.len() && s[pos] == 115 {
        match parse_base62(s, pos + 1) {
            None => None,
            Some((d, p)) => parse_undis_ident(s, p, d),
        }
    } else {
        parse_undis_ident(s, pos, 0)
    }
}

/// Parse one legacy path component.
pub fn parse_elem(s: &[u8], pos: usize) -> (r: Option<(Vec<u8>, usize)>)
    requires
        pos <= s@.len(),
    ensures
        match r {
            Some(t) => spec_parse_elem(s@, pos as int) == Some((t.0@, t.1 as int)) && pos < t.1
                <= s@.len(),
            None => spec_parse_elem(s@, pos as int) is None,
        },
{
    match parse_dec(s, pos) {
        None => None,
        Some((n, p)) => {
            if n < 1 || n > s.len() - p {
                return None;
            }
            let end = p + n;
            if check_ident_range(s, p, end) {
                Some((copy_range(s, p, end), end))
            } else {
                None
            }
        },
    }
}

/// Parse legacy components up to and including the closing `E`.
pub fn parse_elems(s: &[u8], pos: usize) -> (r: Option<(Vec<Vec<u8>>, usize)>)
    requires
        pos <= s@.len(),
    ensures
        match r {
            Some(t) => spec_parse_elems(s@, pos as int) == Some((t.0.deep_view(), t.1 as int))
                && pos < t.1 <= s@.len(),
            None => spec_parse_elems(s@, pos as int) is None,
        },
    decreases s@.len() - pos,
{
    if pos >= s.len() {
        return None;
    }
    if s[pos] == 69 {
        let empty: Vec<Vec<u8>> = Vec::new();
        proof {
            assert(empty.deep_view() =~= Seq::<Seq<u8>>::empty());
        }
        return Some((empty, pos + 1));
    }
    match parse_elem(s, pos) {
        None => None,
        Some((e, p)) => match parse_elems(s, p) {
            None => None,
            Some((mut rest, q)) => {
                let ghost old_vs = rest@;
                let ghost old_dv = rest.deep_view();
                rest.insert(0, e);
                proof {
                    assert(rest@ =~= seq![e] + old_vs);
                    assert(rest.deep_view() =~~= seq![e@] + old_dv);
                }
                Some((rest, q))
            },
        },
    }
}

/// Parse a versioned path with depth budget `d`.
pub fn parse_path(s: &[u8], pos: usize, d: usize) -> (r: Option<(Path, usize)>)
    requires
        pos <= s@.len(),
    ensures
        match r {
            Some(t) => spec_parse_path(s@, pos as int, d as nat) == Some((t.0@, t.1 as int)) && pos
                < t.1 <= s@.len(),
            None => spec_parse_path(s@, pos as int, d as nat) is None,
        },
    decreases d, s@.len() - pos, 0nat,
{
    if d == 0 || pos >= s.len() {
        return None;
    }
    let b = s[pos];
    if b == 67 {
        match parse_v0_ident(s, pos + 1) {
            None => None,
            Some((id, p)) => Some((Path::Root { name: id }, p)),
        }
    } else if b == 78 {
        if pos + 1 < s.len() && (s[pos + 1] == 67 || (97 <= s[pos + 1] && s[pos + 1] <= 122)) {
            let ns = s[pos + 1];
            match parse_path(s, pos + 2, d - 1) {
                None => None,
                Some((parent, p)) => match parse_v0_ident(s, p) {
                    None => None,
                    Some((id, q)) => Some(
                        (Path::Nested { ns, parent: Box::new(parent), name: id }, q),
                    ),
                },
            }
        } else {
            None
        }
    } else if b == 73 {
        match parse_path(s, pos + 1, d - 1) {
            None => None,
            Some((base, p)) => match parse_args(s, p, d) {
                None => None,
                Some((args, q)) => Some((Path::Generic { base: Box::new(base), args }, q)),
            },
        }
    } else if b == 66 {
        match parse_base62(s, pos + 1) {
            None => None,
            Some((t, p)) => if t < pos {
                match parse_path(s, t, d - 1) {
                    None => None,
                    Some((target, _)) => Some((target, p)),
                }
            } else {
                None
            },
        }
    } else {
        None
    }
}

/// Parse generic arguments up to and including the closing `E`.
pub fn parse_args(s: &[u8], pos: usize, d: usize) -> (r: Option<(ArgList, usize)>)
    requires
        pos <= s@.len(),
    ensures
        match r {
            Some(t) => spec_parse_args(s@, pos as int, d as nat) == Some((t.0@, t.1 as int)) && pos
                < t.1 <= s@.len(),
            None => spec_parse_args(s@, pos as int, d as nat) is None,
        },
    decreases d, s@.len() - pos, 2nat,
{
    if pos >= s.len() {
        return None;
    }
    if s[pos] == 69 {
        proof {
            assert(ArgList::Nil@ =~= Seq::<SpecArg>::empty());
        }
        return Some((ArgList::Nil, pos + 1));
    }
    match parse_arg(s, pos, d) {
        None => None,
        Some((a, p)) => match parse_args(s, p, d) {
            None => None,
            Some((rest, q)) => {
                let ghost rest_v = rest@;
                let cons = ArgList::Cons { head: a, tail: Box::new(rest) };
                proof {
                    assert(cons@ =~= seq![a@] + rest_v);
                }
                Some((cons, q))
            },
        },
    }
}

/// Parse one generic argument.
pub fn parse_arg(s: &[u8], pos: usize, d: usize) -> (r: Option<(Arg, usize)>)
    requires
        pos <= s@.len(),
    ensures
        match r {
            Some(t) => spec_parse_arg(s@, pos as int, d as nat) == Some((t.0@, t.1 as int)) && pos
                < t.1 <= s@.len(),
            None => spec_parse_arg(s@, pos as int, d as nat) is None,
        },
    decreases d, s@.len() - pos, 1nat,
{
    if d == 0 || pos >= s.len() {
        return None;
    }
    if s[pos] == 75 {
        match parse_dec(s, pos + 1) {
            None => None,
            Some((v, p)) => Some((Arg::Num(v), p)),
        }
    } else {
        match parse_path(s, pos, d - 1) {
            None => None,
            Some((q, p)) => Some((Arg::Path(Box::new(q)), p)),
        }
    }
}

/// Decide whether every byte of the input is ASCII.
pub fn check_encoding(s: &[u8]) -> (r: bool)
    ensures
        r == valid_encoding(s@),
{
    let mut i: usize = 0;
    while i < s.len()
        invariant
            0 <= i <= s@.len(),
            forall|j: int| 0 <= j < i ==> #[trigger] s@[j] < 128,
        decreases s@.len() - i,
    {
        if s[i] >= 128 {
            return false;
        }
        i = i + 1;
    }
    true
}

/// Parse a whole mangled name, exactly as `spec_parse_symbol` says.
pub fn parse_symbol(s: &[u8]) -> (r: Option<Symbol>)
    ensures
        match r {
            Some(sym) => spec_parse_symbol(s@) == Some(sym@),
            None => spec_parse_symbol(s@) is None,
        },
{
    if !check_encoding(s) {
        return None;
    }
    if s.len() >= 3 && s[0] == 95 && s[1] == 90 && s[2] == 78 {
        match parse_elems(s, 3) {
            None => None,
            Some((es, p)) => if p == s.len() && es.len() >= 1 {
                Some(Symbol::Legacy { elems: es })
            } else {
                None
            },
        }
    } else if s.len() >= 2 && s[0] == 95 && s[1] == 82 {
        match parse_path(s, 2, MAX_DEPTH) {
            None => None,
            Some((p, q)) => if q == s.len() {
                Some(Symbol::Versioned { path: p })
            } else {
                None
            },
        }
    } else {
        None
    }
}

} // verus!

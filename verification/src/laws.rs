//! Properties of the demangler, stated and proved over its models.
//!
//! The central ones are two round trips: any legacy name generated from
//! well-formed components demangles to those components joined by `::`,
//! and any versioned name generated from a well-formed path structure
//! demangles to the rendering of that structure — the same identifiers in
//! the same order.  Beside them stand the guarantees that an input failing
//! scheme sniffing is always rejected, that the measured length is exactly
//! the length the bridge writes, that an exhausted depth budget rejects,
//! and that a back-reference at or past its own position rejects.

use vstd::prelude::*;
use crate::ast::{SpecArg, SpecIdent, SpecPath, SpecSymbol};
use crate::chars::{is_base62_digit, is_digit, is_ident_char, is_ident_start, valid_ident_bytes};
use crate::num::{base62_bytes, dec_bytes, lemma_base62_bytes_digits, lemma_base62_run_end_exact,
    lemma_dec_bytes_digits, lemma_digit_run_end_exact, lemma_val_of_dec_bytes, spec_parse_base62,
    spec_parse_dec, val_of};
use crate::parse::{sniffs, spec_parse_arg, spec_parse_args, spec_parse_elem, spec_parse_elems,
    spec_parse_path, spec_parse_symbol, spec_parse_undis_ident, spec_parse_v0_ident,
    valid_encoding, valid_ns};
use crate::render::{spec_join_path, spec_render_legacy, spec_render_symbol};
use crate::{spec_demangle, spec_measure};

verus! {

/// A component a legacy-name generator may emit: non-empty, of
/// representable length, made of identifier bytes, starting with a letter
/// or underscore.
pub open spec fn valid_elem(e: Seq<u8>) -> bool {
    1 <= e.len() <= usize::MAX && valid_ident_bytes(e)
}

/// The legacy encoding of a component run: each component behind its
/// decimal length.
pub open spec fn spec_enc_elems(es: Seq<Seq<u8>>) -> Seq<u8>
    decreases es.len(),
{
    if es.len() == 0 {
        Seq::empty()
    } else {
        dec_bytes(es[0].len()) + es[0] + spec_enc_elems(es.drop_first())
    }
}

/// A generated legacy name: prefix, encoded components, closing `E`.
pub open spec fn spec_mangle_legacy(es: Seq<Seq<u8>>) -> Seq<u8> {
    seq![95u8, 90u8, 78u8] + spec_enc_elems(es) + seq![69u8]
}

/// Reading a decimal number where one was printed yields that number.
proof fn lemma_parse_dec_at(s: Seq<u8>, pos: int, n: nat)
    requires
        0 <= pos,
        pos + dec_bytes(n).len() <= s.len(),
        s.subrange(pos, pos + dec_bytes(n).len()) == dec_bytes(n),
        n <= usize::MAX,
        pos + dec_bytes(n).len() == s.len() || !is_digit(s[pos + dec_bytes(n).len()]),
    ensures
        spec_parse_dec(s, pos) == Some((n, pos + dec_bytes(n).len())),
{
    let k = dec_bytes(n).len() as int;
    lemma_dec_bytes_digits(n);
    assert forall|i: int| pos <= i < pos + k implies is_digit(#[trigger] s[i]) by {
        assert(s[i] == dec_bytes(n)[i - pos]);
    }
    lemma_digit_run_end_exact(s, pos, pos + k);
    assert(s[pos] == dec_bytes(n)[0]);
    if s[pos] == 48 {
        assert(n == 0);
        assert(k == 1);
    }
    assert(s.subrange(pos, pos + k) =~= dec_bytes(n));
    lemma_val_of_dec_bytes(n);
    assert(val_of(s.subrange(pos, pos + k), 10) == n);
}

/// Reading a legacy component where one was encoded yields that component.
proof fn lemma_parse_elem_at(s: Seq<u8>, pos: int, e: Seq<u8>)
    requires
        0 <= pos,
        valid_elem(e),
        pos + dec_bytes(e.len()).len() + e.len() <= s.len(),
        s.subrange(pos, pos + dec_bytes(e.len()).len() + e.len()) == dec_bytes(e.len()) + e,
    ensures
        spec_parse_elem(s, pos) == Some((e, pos + dec_bytes(e.len()).len() + e.len())),
{
    let k = dec_bytes(e.len()).len() as int;
    let enc = dec_bytes(e.len()) + e;
    assert(s.subrange(pos, pos + k) =~= dec_bytes(e.len())) by {
        assert forall|i: int| 0 <= i < k implies s.subrange(pos, pos + k)[i] == dec_bytes(
            e.len(),
        )[i] by {
            assert(s[pos + i] == enc[i]);
        }
    }
    assert(s[pos + k] == enc[k]);
    assert(enc[k] == e[0]);
    assert(is_ident_start(e[0]));
    assert(!is_digit(s[pos + k]));
    lemma_parse_dec_at(s, pos, e.len());
    assert(s.subrange(pos + k, pos + k + e.len()) =~= e) by {
        assert forall|i: int| 0 <= i < e.len() implies s.subrange(pos + k, pos + k + e.len())[i]
            == e[i] by {
            assert(s[pos + k + i] == enc[k + i]);
        }
    }
}

/// Reading legacy components where a run was encoded yields that run.
proof fn lemma_parse_elems_at(s: Seq<u8>, pos: int, es: Seq<Seq<u8>>)
    requires
        0 <= pos <= s.len(),
        forall|i: int| 0 <= i < es.len() ==> valid_elem(#[trigger] es[i]),
        s.subrange(pos, s.len() as int) == spec_enc_elems(es) + seq![69u8],
    ensures
        spec_parse_elems(s, pos) == Some((es, s.len() as int)),
    decreases es.len(),
{
    let suffix = spec_enc_elems(es) + seq![69u8];
    assert(s.len() - pos == suffix.len());
    if es.len() == 0 {
        assert(s[pos] == suffix[0]);
        assert(s[pos] == 69);
        assert(pos + 1 == s.len());
        assert(spec_parse_elems(s, pos) == Some((Seq::<Seq<u8>>::empty(), pos + 1)));
        assert(es =~= Seq::<Seq<u8>>::empty());
    } else {
        let e = es[0];
        let k = dec_bytes(e.len()).len() as int;
        let enc = dec_bytes(e.len()) + e;
        assert(spec_enc_elems(es) == enc + spec_enc_elems(es.drop_first()));
        assert forall|i: int| 0 <= i < enc.len() implies s[pos + i] == enc[i] by {
            assert(s[pos + i] == suffix[i]);
            assert(suffix[i] == (enc + spec_enc_elems(es.drop_first()))[i]);
        }
        assert(s.subrange(pos, pos + k + e.len()) =~= enc);
        lemma_parse_elem_at(s, pos, e);
        let p = pos + k + e.len();
        lemma_dec_bytes_digits(e.len());
        assert(s[pos] == enc[0]);
        assert(is_digit(s[pos]));
        assert(s[pos] != 69);
        assert(s.subrange(p, s.len() as int) =~= spec_enc_elems(es.drop_first()) + seq![69u8]) by {
            assert forall|i: int| 0 <= i < s.len() - p implies s[p + i] == (spec_enc_elems(
                es.drop_first(),
            ) + seq![69u8])[i] by {
                assert(s[p + i] == suffix[enc.len() + i]);
            }
        }
        lemma_parse_elems_at(s, p, es.drop_first());
        assert(spec_parse_elems(s, pos) == Some(
            (seq![e] + es.drop_first(), s.len() as int),
        ));
        assert(seq![e] + es.drop_first() =~= es);
    }
}

/// Every byte of an encoded component run is ASCII.
proof fn lemma_enc_elems_ascii(es: Seq<Seq<u8>>)
    requires
        forall|i: int| 0 <= i < es.len() ==> valid_elem(#[trigger] es[i]),
    ensures
        forall|i: int| 0 <= i < spec_enc_elems(es).len() ==> #[trigger] spec_enc_elems(es)[i]
            < 128,
    decreases es.len(),
{
    if es.len() > 0 {
        let e = es[0];
        let d = dec_bytes(e.len());
        let enc = d + e;
        lemma_dec_bytes_digits(e.len());
        lemma_enc_elems_ascii(es.drop_first());
        assert forall|i: int| 0 <= i < spec_enc_elems(es).len() implies #[trigger] spec_enc_elems(
            es,
        )[i] < 128 by {
            if i < d.len() {
                assert(spec_enc_elems(es)[i] == d[i]);
                assert(is_digit(d[i]));
            } else if i < enc.len() {
                assert(spec_enc_elems(es)[i] == e[i - d.len()]);
                assert(is_ident_char(e[i - d.len()]));
            } else {
                assert(spec_enc_elems(es)[i] == spec_enc_elems(es.drop_first())[i - enc.len()]);
            }
        }
    }
}

/// Round trip of the legacy scheme: a name generated from well-formed
/// components demangles, in either mode, to exactly those components joined
/// by `::` — the same identifiers in the same order.  (In the terse mode
/// this holds as stated whenever the last component is not a hash
/// component.)
pub proof fn lemma_legacy_round_trip(es: Seq<Seq<u8>>)
    requires
        es.len() >= 1,
        forall|i: int| 0 <= i < es.len() ==> valid_elem(#[trigger] es[i]),
    ensures
        spec_demangle(spec_mangle_legacy(es), true) == Some(spec_join_path(es)),
{
    let s = spec_mangle_legacy(es);
    let enc = spec_enc_elems(es);
    assert(s.len() == 3 + enc.len() + 1);
    assert(s[0] == 95 && s[1] == 90 && s[2] == 78);
    lemma_enc_elems_ascii(es);
    assert forall|i: int| 0 <= i < s.len() implies #[trigger] s[i] < 128 by {
        if 3 <= i < 3 + enc.len() {
            assert(s[i] == enc[i - 3]);
        }
    }
    assert(valid_encoding(s));
    assert(s.subrange(3, s.len() as int) =~= enc + seq![69u8]) by {
        assert forall|i: int| 0 <= i < s.len() - 3 implies s.subrange(3, s.len() as int)[i] == (enc
            + seq![69u8])[i] by {
            assert(s.subrange(3, s.len() as int)[i] == s[3 + i]);
        }
    }
    lemma_parse_elems_at(s, 3, es);
    assert(spec_render_symbol(crate::ast::SpecSymbol::Legacy { elems: es }, true)
        == spec_render_legacy(es, true));
    assert(spec_render_legacy(es, true) == spec_join_path(es));
}

/// A part of a byte string that equals a known part of a known whole.
proof fn lemma_sub_of_concat(s: Seq<u8>, pos: int, whole: Seq<u8>, off: int, part: Seq<u8>)
    requires
        0 <= pos,
        0 <= off,
        off + part.len() <= whole.len(),
        pos + whole.len() <= s.len(),
        s.subrange(pos, pos + whole.len()) == whole,
        forall|i: int| 0 <= i < part.len() ==> #[trigger] part[i] == whole[off + i],
    ensures
        s.subrange(pos + off, pos + off + part.len()) == part,
{
    assert(s.subrange(pos + off, pos + off + part.len()) =~= part) by {
        assert forall|i: int| 0 <= i < part.len() implies s.subrange(
            pos + off,
            pos + off + part.len(),
        )[i] == part[i] by {
            assert(s[pos + off + i] == s.subrange(pos, pos + whole.len())[off + i]);
        }
    }
}

/// A well-formed identifier of the versioned generator: non-empty, of
/// representable length and ordinal, made of identifier bytes.
pub open spec fn wf_ident(id: SpecIdent) -> bool {
    &&& id.dis <= usize::MAX
    &&& 1 <= id.name.len() <= usize::MAX
    &&& valid_ident_bytes(id.name)
}

/// A well-formed versioned path that fits in a depth budget of `d` nodes.
/// The generator emits no back-references.
pub open spec fn wf_path(p: SpecPath, d: nat) -> bool
    decreases p,
{
    &&& d >= 1
    &&& match p {
        SpecPath::Root { name } => wf_ident(name),
        SpecPath::Nested { ns, parent, name } => valid_ns(ns) && wf_path(*parent, (d - 1) as nat)
            && wf_ident(name),
        SpecPath::Generic { base, args } => wf_path(*base, (d - 1) as nat) && forall|i: int|
            0 <= i < args.len() ==> wf_arg(#[trigger] args[i], d),
    }
}

/// A well-formed generic argument under a depth budget of `d`.
pub open spec fn wf_arg(a: SpecArg, d: nat) -> bool
    decreases a,
{
    &&& d >= 1
    &&& match a {
        SpecArg::Path(p) => wf_path(p, (d - 1) as nat),
        SpecArg::Num(n) => n <= usize::MAX,
    }
}

/// The generated encoding of an identifier: the disambiguator when there is
/// one, then the decimal length, then the bytes.
pub open spec fn spec_mangle_ident(id: SpecIdent) -> Seq<u8> {
    if id.dis == 0 {
        dec_bytes(id.name.len()) + id.name
    } else {
        seq![115u8] + base62_bytes(id.dis) + seq![95u8] + dec_bytes(id.name.len()) + id.name
    }
}

/// The generated encoding of a versioned path.
pub open spec fn spec_mangle_path(p: SpecPath) -> Seq<u8>
    decreases p,
{
    match p {
        SpecPath::Root { name } => seq![67u8] + spec_mangle_ident(name),
        SpecPath::Nested { ns, parent, name } => seq![78u8, ns] + spec_mangle_path(*parent)
            + spec_mangle_ident(name),
        SpecPath::Generic { base, args } => seq![73u8] + spec_mangle_path(*base)
            + spec_mangle_args(args) + seq![69u8],
    }
}

/// The generated encoding of an argument run (without the closing `E`).
pub open spec fn spec_mangle_args(args: Seq<SpecArg>) -> Seq<u8>
    decreases args,
{
    if args.len() == 0 {
        Seq::empty()
    } else {
        spec_mangle_arg(args[0]) + spec_mangle_args(args.drop_first())
    }
}

/// The generated encoding of one generic argument.
pub open spec fn spec_mangle_arg(a: SpecArg) -> Seq<u8>
    decreases a,
{
    match a {
        SpecArg::Path(p) => spec_mangle_path(p),
        SpecArg::Num(n) => seq![75u8] + dec_bytes(n),
    }
}

/// A generated versioned name: prefix and one path.
pub open spec fn spec_mangle_versioned(p: SpecPath) -> Seq<u8> {
    seq![95u8, 82u8] + spec_mangle_path(p)
}

/// Number of structure nodes below a path, used as a proof measure.
pub open spec fn path_size(p: SpecPath) -> nat
    decreases p,
{
    match p {
        SpecPath::Root { name } => 1,
        SpecPath::Nested { ns, parent, name } => 1 + path_size(*parent),
        SpecPath::Generic { base, args } => 1 + path_size(*base) + args_size(args),
    }
}

/// Number of structure nodes below an argument run.
pub open spec fn args_size(args: Seq<SpecArg>) -> nat
    decreases args,
{
    if args.len() == 0 {
        0
    } else {
        1 + arg_size(args[0]) + args_size(args.drop_first())
    }
}

/// Number of structure nodes below one argument.
pub open spec fn arg_size(a: SpecArg) -> nat
    decreases a,
{
    match a {
        SpecArg::Path(p) => 1 + path_size(p),
        SpecArg::Num(n) => 1,
    }
}

/// An identifier body parses back where one was encoded, whatever the
/// disambiguator handed in.
proof fn lemma_parse_undis_at(s: Seq<u8>, pos: int, name: Seq<u8>, dis: nat)
    requires
        0 <= pos,
        1 <= name.len() <= usize::MAX,
        valid_ident_bytes(name),
        pos + dec_bytes(name.len()).len() + name.len() <= s.len(),
        s.subrange(pos, pos + dec_bytes(name.len()).len() + name.len()) == dec_bytes(name.len())
            + name,
    ensures
        spec_parse_undis_ident(s, pos, dis) == Some(
            (SpecIdent { dis, name }, pos + dec_bytes(name.len()).len() + name.len()),
        ),
{
    let k = dec_bytes(name.len()).len() as int;
    let enc = dec_bytes(name.len()) + name;
    lemma_sub_of_concat(s, pos, enc, 0, dec_bytes(name.len()));
    assert(s[pos + k] == enc[k]);
    assert(enc[k] == name[0]);
    assert(!is_digit(s[pos + k]));
    lemma_parse_dec_at(s, pos, name.len());
    lemma_sub_of_concat(s, pos, enc, k, name);
}

/// A whole identifier parses back where one was encoded.
proof fn lemma_parse_ident_at(s: Seq<u8>, pos: int, id: SpecIdent)
    requires
        0 <= pos,
        wf_ident(id),
        pos + spec_mangle_ident(id).len() <= s.len(),
        s.subrange(pos, pos + spec_mangle_ident(id).len()) == spec_mangle_ident(id),
    ensures
        spec_parse_v0_ident(s, pos) == Some((id, pos + spec_mangle_ident(id).len())),
{
    let m = spec_mangle_ident(id);
    if id.dis == 0 {
        lemma_dec_bytes_digits(id.name.len());
        assert(s[pos] == m[0]);
        assert(m[0] == dec_bytes(id.name.len())[0]);
        assert(s[pos] != 115);
        lemma_parse_undis_at(s, pos, id.name, 0);
        assert(SpecIdent { dis: 0, name: id.name } == id);
    } else {
        let b = base62_bytes(id.dis);
        assert(s[pos] == m[0]);
        assert(m[0] == 115);
        lemma_base62_bytes_digits(id.dis);
        assert forall|i: int| pos + 1 <= i < pos + 1 + b.len() implies is_base62_digit(
            #[trigger] s[i],
        ) by {
            assert(s[i] == m[i - pos]);
            assert(m[i - pos] == b[i - pos - 1]);
        }
        assert(s[pos + 1 + b.len()] == m[1 + b.len() as int]);
        assert(m[1 + b.len() as int] == 95);
        assert(!is_base62_digit(95u8));
        lemma_base62_run_end_exact(s, pos + 1, pos + 1 + b.len());
        assert(s.subrange(pos + 1, pos + 1 + b.len()) =~= b) by {
            assert forall|i: int| 0 <= i < b.len() implies s.subrange(
                pos + 1,
                pos + 1 + b.len(),
            )[i] == b[i] by {
                assert(s[pos + 1 + i] == m[1 + i]);
            }
        }
        assert(spec_parse_base62(s, pos + 1) == Some((id.dis, pos + 2 + b.len())));
        let p2 = pos + 2 + b.len();
        let tail = dec_bytes(id.name.len()) + id.name;
        lemma_sub_of_concat(s, pos, m, 2 + b.len() as int, tail);
        lemma_parse_undis_at(s, p2, id.name, id.dis);
        assert(SpecIdent { dis: id.dis, name: id.name } == id);
    }
}

/// The encoding of a path begins with its node tag.
proof fn lemma_mangle_path_first(p: SpecPath)
    ensures
        spec_mangle_path(p).len() >= 1,
        spec_mangle_path(p)[0] == 67 || spec_mangle_path(p)[0] == 78 || spec_mangle_path(p)[0]
            == 73,
{
    match p {
        SpecPath::Root { name } => {
            assert(spec_mangle_path(p)[0] == 67);
        },
        SpecPath::Nested { ns, parent, name } => {
            assert(spec_mangle_path(p)[0] == 78);
        },
        SpecPath::Generic { base, args } => {
            assert(spec_mangle_path(p)[0] == 73);
        },
    }
}

/// A path parses back, under its budget, where one was encoded.
#[verifier::rlimit(80)]
proof fn lemma_parse_path_at(s: Seq<u8>, pos: int, p: SpecPath, d: nat)
    requires
        0 <= pos,
        wf_path(p, d),
        pos + spec_mangle_path(p).len() <= s.len(),
        s.subrange(pos, pos + spec_mangle_path(p).len()) == spec_mangle_path(p),
    ensures
        spec_parse_path(s, pos, d) == Some((p, pos + spec_mangle_path(p).len())),
    decreases path_size(p),
{
    let m = spec_mangle_path(p);
    assert(s[pos] == m[0]);
    match p {
        SpecPath::Root { name } => {
            let mi = spec_mangle_ident(name);
            assert(s[pos] == 67);
            lemma_sub_of_concat(s, pos, m, 1, mi);
            lemma_parse_ident_at(s, pos + 1, name);
        },
        SpecPath::Nested { ns, parent, name } => {
            let mp = spec_mangle_path(*parent);
            let mi = spec_mangle_ident(name);
            assert(s[pos] == 78);
            assert(s[pos + 1] == m[1]);
            assert(m[1] == ns);
            lemma_sub_of_concat(s, pos, m, 2, mp);
            lemma_parse_path_at(s, pos + 2, *parent, (d - 1) as nat);
            lemma_sub_of_concat(s, pos, m, 2 + mp.len() as int, mi);
            lemma_parse_ident_at(s, pos + 2 + mp.len(), name);
            assert(spec_parse_path(s, pos, d) == Some(
                (
                    SpecPath::Nested { ns: s[pos + 1], parent: Box::new(*parent), name },
                    pos + m.len(),
                ),
            ));
            assert(SpecPath::Nested { ns: s[pos + 1], parent: Box::new(*parent), name } == p);
        },
        SpecPath::Generic { base, args } => {
            let mb = spec_mangle_path(*base);
            let ma = spec_mangle_args(args);
            assert(s[pos] == 73);
            lemma_sub_of_concat(s, pos, m, 1, mb);
            lemma_parse_path_at(s, pos + 1, *base, (d - 1) as nat);
            let p1 = pos + 1 + mb.len();
            lemma_sub_of_concat(s, pos, m, 1 + mb.len() as int, ma + seq![69u8]);
            assert(path_size(p) == 1 + path_size(*base) + args_size(args));
            lemma_parse_args_at(s, p1, args, d);
            assert(spec_parse_path(s, pos, d) == Some(
                (SpecPath::Generic { base: Box::new(*base), args }, pos + m.len()),
            ));
            assert(SpecPath::Generic { base: Box::new(*base), args } == p);
        },
    }
}

/// An argument run, with its closing `E`, parses back where one was
/// encoded.
#[verifier::rlimit(80)]
proof fn lemma_parse_args_at(s: Seq<u8>, pos: int, args: Seq<SpecArg>, d: nat)
    requires
        0 <= pos,
        forall|i: int| 0 <= i < args.len() ==> wf_arg(#[trigger] args[i], d),
        pos + spec_mangle_args(args).len() + 1 <= s.len(),
        s.subrange(pos, pos + spec_mangle_args(args).len() + 1) == spec_mangle_args(args) + seq![
            69u8,
        ],
    ensures
        spec_parse_args(s, pos, d) == Some((args, pos + spec_mangle_args(args).len() + 1)),
    decreases args_size(args),
{
    let whole = spec_mangle_args(args) + seq![69u8];
    if args.len() == 0 {
        assert(s[pos] == whole[0]);
        assert(s[pos] == 69);
        assert(args =~= Seq::<SpecArg>::empty());
    } else {
        let a = args[0];
        let ma = spec_mangle_arg(a);
        let rest = spec_mangle_args(args.drop_first());
        assert(spec_mangle_args(args) == ma + rest);
        assert forall|i: int| 0 <= i < ma.len() implies #[trigger] ma[i] == whole[i] by {
            assert(whole[i] == spec_mangle_args(args)[i]);
            assert(spec_mangle_args(args)[i] == (ma + rest)[i]);
        }
        lemma_sub_of_concat(s, pos, whole, 0, ma);
        let p1 = pos + ma.len();
        // the byte after this argument: the next argument's tag or `E`
        let after = whole[ma.len() as int];
        assert(after == (rest + seq![69u8])[0]) by {
            assert(whole =~= ma + (rest + seq![69u8]));
        }
        if args.len() == 1 {
            assert(rest.len() == 0);
            assert(after == 69);
            assert(!is_digit(after) && after != 75 && after != 67 && after != 78 && after != 73);
        } else {
            let a2 = args.drop_first()[0];
            assert(rest == spec_mangle_arg(a2) + spec_mangle_args(args.drop_first().drop_first()));
            match a2 {
                SpecArg::Path(q2) => {
                    lemma_mangle_path_first(q2);
                    assert(after == spec_mangle_path(q2)[0]);
                },
                SpecArg::Num(n2) => {
                    assert(after == 75);
                },
            }
        }
        assert(!is_digit(after) && after != 69 || args.len() == 1 && after == 69);
        assert(s[p1] == whole[ma.len() as int]);
        assert(s[pos] == s.subrange(pos, pos + ma.len() as int)[0]);
        assert(args_size(args) == 1 + arg_size(args[0]) + args_size(args.drop_first()));
        match a {
            SpecArg::Num(n) => {
                assert(ma[0] == 75);
                assert(s[pos] == 75);
                lemma_dec_bytes_digits(n);
                lemma_sub_of_concat(s, pos, whole, 1, dec_bytes(n));
                assert(!is_digit(s[p1]));
                lemma_parse_dec_at(s, pos + 1, n);
                assert(spec_parse_arg(s, pos, d) == Some((SpecArg::Num(n), p1)));
            },
            SpecArg::Path(q) => {
                lemma_mangle_path_first(q);
                assert(ma[0] == spec_mangle_path(q)[0]);
                assert(s[pos] == spec_mangle_path(q)[0]);
                assert(s[pos] != 69 && s[pos] != 75);
                assert(arg_size(args[0]) == 1 + path_size(q));
                lemma_parse_path_at(s, pos, q, (d - 1) as nat);
                assert(spec_parse_arg(s, pos, d) == Some((SpecArg::Path(q), p1)));
            },
        }
        assert(s.subrange(p1, p1 + rest.len() + 1) == rest + seq![69u8]) by {
            lemma_sub_of_concat(s, pos, whole, ma.len() as int, rest + seq![69u8]);
            assert forall|i: int| 0 <= i < rest.len() + 1 implies (rest + seq![69u8])[i] == whole[
                ma.len() + i
            ] by {
                assert(whole =~= ma + (rest + seq![69u8]));
            }
        }
        lemma_parse_args_at(s, p1, args.drop_first(), d);
        assert(spec_parse_args(s, pos, d) == Some(
            (seq![a] + args.drop_first(), pos + spec_mangle_args(args).len() + 1),
        ));
        assert(seq![a] + args.drop_first() =~= args);
    }
}

/// Every byte of an encoded identifier is ASCII.
proof fn lemma_mangle_ident_ascii(id: SpecIdent)
    requires
        wf_ident(id),
    ensures
        forall|i: int| 0 <= i < spec_mangle_ident(id).len() ==> #[trigger] spec_mangle_ident(
            id,
        )[i] < 128,
{
    let m = spec_mangle_ident(id);
    let dl = dec_bytes(id.name.len());
    lemma_dec_bytes_digits(id.name.len());
    lemma_base62_bytes_digits(id.dis);
    assert forall|i: int| 0 <= i < m.len() implies #[trigger] m[i] < 128 by {
        if id.dis == 0 {
            if i < dl.len() {
                assert(m[i] == dl[i]);
                assert(is_digit(dl[i]));
            } else {
                assert(m[i] == id.name[i - dl.len()]);
                assert(is_ident_char(id.name[i - dl.len()]));
            }
        } else {
            let b = base62_bytes(id.dis);
            if i == 0 {
            } else if i < 1 + b.len() {
                assert(m[i] == b[i - 1]);
                assert(is_base62_digit(b[i - 1]));
            } else if i == 1 + b.len() {
                assert(m[i] == 95);
            } else if i < 2 + b.len() + dl.len() {
                assert(m[i] == dl[i - 2 - b.len()]);
                assert(is_digit(dl[i - 2 - b.len()]));
            } else {
                assert(m[i] == id.name[i - 2 - b.len() - dl.len()]);
                assert(is_ident_char(id.name[i - 2 - b.len() - dl.len()]));
            }
        }
    }
}

/// Every byte of an encoded path is ASCII.
proof fn lemma_mangle_path_ascii(p: SpecPath, d: nat)
    requires
        wf_path(p, d),
    ensures
        forall|i: int| 0 <= i < spec_mangle_path(p).len() ==> #[trigger] spec_mangle_path(p)[i]
            < 128,
    decreases path_size(p),
{
    let m = spec_mangle_path(p);
    match p {
        SpecPath::Root { name } => {
            lemma_mangle_ident_ascii(name);
            assert forall|i: int| 0 <= i < m.len() implies #[trigger] m[i] < 128 by {
                if i >= 1 {
                    assert(m[i] == spec_mangle_ident(name)[i - 1]);
                }
            }
        },
        SpecPath::Nested { ns, parent, name } => {
            lemma_mangle_path_ascii(*parent, (d - 1) as nat);
            lemma_mangle_ident_ascii(name);
            let mp = spec_mangle_path(*parent);
            assert forall|i: int| 0 <= i < m.len() implies #[trigger] m[i] < 128 by {
                if i == 1 {
                    assert(m[i] == ns);
                } else if 2 <= i < 2 + mp.len() {
                    assert(m[i] == mp[i - 2]);
                } else if i >= 2 + mp.len() {
                    assert(m[i] == spec_mangle_ident(name)[i - 2 - mp.len()]);
                }
            }
        },
        SpecPath::Generic { base, args } => {
            lemma_mangle_path_ascii(*base, (d - 1) as nat);
            lemma_mangle_args_ascii(args, d);
            let mb = spec_mangle_path(*base);
            let ma = spec_mangle_args(args);
            assert forall|i: int| 0 <= i < m.len() implies #[trigger] m[i] < 128 by {
                if 1 <= i < 1 + mb.len() {
                    assert(m[i] == mb[i - 1]);
                } else if 1 + mb.len() <= i < 1 + mb.len() + ma.len() {
                    assert(m[i] == ma[i - 1 - mb.len()]);
                } else if i >= 1 + mb.len() + ma.len() {
                    assert(m[i] == 69);
                }
            }
        },
    }
}

/// Every byte of an encoded argument run is ASCII.
proof fn lemma_mangle_args_ascii(args: Seq<SpecArg>, d: nat)
    requires
        forall|i: int| 0 <= i < args.len() ==> wf_arg(#[trigger] args[i], d),
    ensures
        forall|i: int| 0 <= i < spec_mangle_args(args).len() ==> #[trigger] spec_mangle_args(
            args,
        )[i] < 128,
    decreases args_size(args),
{
    if args.len() > 0 {
        let ma = spec_mangle_arg(args[0]);
        let rest = spec_mangle_args(args.drop_first());
        lemma_mangle_args_ascii(args.drop_first(), d);
        assert(args_size(args) == 1 + arg_size(args[0]) + args_size(args.drop_first()));
        match args[0] {
            SpecArg::Path(q) => {
                assert(arg_size(args[0]) == 1 + path_size(q));
                lemma_mangle_path_ascii(q, (d - 1) as nat);
                assert forall|i: int| 0 <= i < ma.len() implies #[trigger] ma[i] < 128 by {
                    assert(ma[i] == spec_mangle_path(q)[i]);
                }
            },
            SpecArg::Num(n) => {
                lemma_dec_bytes_digits(n);
                assert forall|i: int| 0 <= i < ma.len() implies #[trigger] ma[i] < 128 by {
                    if i >= 1 {
                        assert(ma[i] == dec_bytes(n)[i - 1]);
                        assert(is_digit(dec_bytes(n)[i - 1]));
                    }
                }
            },
        }
        assert forall|i: int| 0 <= i < spec_mangle_args(args).len() implies
            #[trigger] spec_mangle_args(args)[i] < 128 by {
            assert(spec_mangle_args(args) == ma + rest);
            if i < ma.len() {
                assert(spec_mangle_args(args)[i] == ma[i]);
            } else {
                assert(spec_mangle_args(args)[i] == rest[i - ma.len()]);
            }
        }
    }
}

/// Round trip of the versioned scheme: a name generated from a well-formed
/// path structure — nested components, generic applications, const
/// arguments, closure markers — demangles to exactly the rendering of that
/// structure: the same identifiers in the same order.
pub proof fn lemma_versioned_round_trip(p: SpecPath)
    requires
        wf_path(p, crate::parse::MAX_DEPTH as nat),
    ensures
        spec_demangle(spec_mangle_versioned(p), true) == Some(crate::render::spec_render_path(p)),
{
    let s = spec_mangle_versioned(p);
    let m = spec_mangle_path(p);
    assert(s.len() == 2 + m.len());
    assert(s[0] == 95 && s[1] == 82);
    lemma_mangle_path_ascii(p, crate::parse::MAX_DEPTH as nat);
    assert forall|i: int| 0 <= i < s.len() implies #[trigger] s[i] < 128 by {
        if i >= 2 {
            assert(s[i] == m[i - 2]);
        }
    }
    assert(valid_encoding(s));
    assert(s.subrange(2, s.len() as int) =~= m) by {
        assert forall|i: int| 0 <= i < m.len() implies s.subrange(2, s.len() as int)[i] == m[i] by {
            assert(s.subrange(2, s.len() as int)[i] == s[2 + i]);
        }
    }
    lemma_parse_path_at(s, 2, p, crate::parse::MAX_DEPTH as nat);
    assert(spec_parse_symbol(s) == Some(SpecSymbol::Versioned { path: p }));
    assert(spec_render_symbol(SpecSymbol::Versioned { path: p }, true)
        == crate::render::spec_render_path(p));
}

/// Rejection is decided by the scheme prefix alone: whatever the mode, an
/// input that fails scheme sniffing is rejected, on this call and on every
/// repeated call, since the outcome is a function of the input.
pub proof fn lemma_unsniffed_rejected(s: Seq<u8>, verbose: bool)
    requires
        !sniffs(s),
    ensures
        spec_demangle(s, verbose) is None,
{
    assert(spec_parse_symbol(s) is None);
}

/// The measured length of an accepted input is exactly the length of its
/// demangled text plus one terminator byte — so a buffer of the measured
/// length suffices, and one byte fewer is below what `demangle` writes.
pub proof fn lemma_measure_is_exact_length(s: Seq<u8>, t: Seq<u8>)
    requires
        spec_demangle(s, true) == Some(t),
        t.len() + 1 <= usize::MAX,
    ensures
        spec_measure(s) == t.len() + 1,
        spec_measure(s) - 1 < t.len() + 1,
{
}

/// An exhausted depth budget is a structural error: no path parses under
/// it, whatever the input.
pub proof fn lemma_depth_exhausted(s: Seq<u8>, pos: int)
    ensures
        spec_parse_path(s, pos, 0) is None,
{
}

/// A back-reference to its own position or past it is rejected, under any
/// budget: only strictly earlier positions resolve.
pub proof fn lemma_backref_forward_rejected(s: Seq<u8>, pos: int, d: nat, t: nat, p: int)
    requires
        0 <= pos < s.len(),
        s[pos] == 66,
        spec_parse_base62(s, pos + 1) == Some((t, p)),
        t >= pos,
    ensures
        spec_parse_path(s, pos, d) is None,
{
}

} // verus!

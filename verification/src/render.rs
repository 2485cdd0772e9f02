//! Rendering of a parsed name as readable text.
//!
//! Path components are joined by `::`; generic arguments are wrapped in
//! `::<` and `>` and separated by `, `; a closure component renders as
//! `{closure#n}` (with its name after a colon when it has one), `n` being
//! its disambiguator ordinal.  Legacy names render in one of two modes: the
//! terse mode omits a trailing hash component (`h` followed by sixteen hex
//! digits), the verbose mode keeps every component.

use vstd::prelude::*;
use crate::ast::{Arg, ArgList, Path, SpecArg, SpecPath, SpecSymbol, Symbol};
use crate::chars::{check_hex_digit, is_hex_digit};
use crate::num::dec_bytes;

verus! {

/// Text of a rendered versioned path.
pub open spec fn spec_render_path(p: SpecPath) -> Seq<u8>
    decreases p,
{
    match p {
        SpecPath::Root { name } => name.name,
        SpecPath::Nested { ns, parent, name } => {
            if ns == 67 {
                spec_render_path(*parent) + seq![58u8, 58u8, 123u8, 99u8, 108u8, 111u8, 115u8, 117u8, 114u8, 101u8]
                    + (if name.name.len() > 0 {
                    seq![58u8] + name.name
                } else {
                    Seq::empty()
                }) + seq![35u8] + dec_bytes(name.dis) + seq![125u8]
            } else {
                spec_render_path(*parent) + seq![58u8, 58u8] + name.name
            }
        },
        SpecPath::Generic { base, args } => spec_render_path(*base) + seq![58u8, 58u8, 60u8]
            + spec_render_args(args) + seq![62u8],
    }
}

/// Text of a rendered generic-argument list, `, `-separated.
pub open spec fn spec_render_args(args: Seq<SpecArg>) -> Seq<u8>
    decreases args,
{
    if args.len() == 0 {
        Seq::empty()
    } else if args.len() == 1 {
        spec_render_arg(args[0])
    } else {
        spec_render_arg(args[0]) + seq![44u8, 32u8] + spec_render_args(args.drop_first())
    }
}

/// Text of one rendered generic argument.
pub open spec fn spec_render_arg(a: SpecArg) -> Seq<u8>
    decreases a,
{
    match a {
        SpecArg::Path(p) => spec_render_path(p),
        SpecArg::Num(n) => dec_bytes(n),
    }
}

/// Legacy hash component: `h` followed by sixteen hex digits.
pub open spec fn is_hash_elem(e: Seq<u8>) -> bool {
    e.len() == 17 && e[0] == 104 && forall|i: int| 1 <= i < 17 ==> is_hex_digit(#[trigger] e[i])
}

/// Legacy components joined by `::`.
pub open spec fn spec_join_path(es: Seq<Seq<u8>>) -> Seq<u8>
    decreases es,
{
    if es.len() == 0 {
        Seq::empty()
    } else if es.len() == 1 {
        es[0]
    } else {
        es[0] + seq![58u8, 58u8] + spec_join_path(es.drop_first())
    }
}

/// Text of a rendered legacy name; the terse mode drops a trailing hash
/// component when there is one and it is not the only component.
pub open spec fn spec_render_legacy(es: Seq<Seq<u8>>, verbose: bool) -> Seq<u8> {
    if !verbose && es.len() >= 2 && is_hash_elem(es.last()) {
        spec_join_path(es.drop_last())
    } else {
        spec_join_path(es)
    }
}

/// Text of a whole rendered name.
pub open spec fn spec_render_symbol(sym: SpecSymbol, verbose: bool) -> Seq<u8> {
    match sym {
        SpecSymbol::Legacy { elems } => spec_render_legacy(elems, verbose),
        SpecSymbol::Versioned { path } => spec_render_path(path),
    }
}

/// Append the bytes of `bs` to `out`.
pub fn push_bytes(out: &mut Vec<u8>, bs: &Vec<u8>)
    ensures
        final(out)@ == old(out)@ + bs@,
{
    let mut i: usize = 0;
    while i < bs.len()
        invariant
            0 <= i <= bs@.len(),
            out@ == old(out)@ + bs@.subrange(0, i as int),
        decreases bs@.len() - i,
    {
        out.push(bs[i]);
        i = i + 1;
        proof {
            assert(out@ =~= old(out)@ + bs@.subrange(0, i as int));
        }
    }
    proof {
        assert(out@ =~= old(out)@ + bs@);
    }
}

/// Append the decimal digits of `n` to `out`.
pub fn push_dec(out: &mut Vec<u8>, n: usize)
    ensures
        final(out)@ == old(out)@ + dec_bytes(n as nat),
    decreases n,
{
    if n < 10 {
        out.push(48 + n as u8);
        proof {
            assert(out@ =~= old(out)@ + dec_bytes(n as nat));
        }
    } else {
        push_dec(out, n / 10);
        out.push(48 + (n % 10) as u8);
        proof {
            assert(out@ =~= old(out)@ + dec_bytes(n as nat));
        }
    }
}

/// Append the rendering of `p` to `out`.
pub fn render_path(p: &Path, out: &mut Vec<u8>)
    ensures
        final(out)@ == old(out)@ + spec_render_path(p@),
    decreases *p, 0nat,
{
    match p {
        Path::Root { name } => {
            push_bytes(out, &name.name);
        },
        Path::Nested { ns, parent, name } => {
            render_path(parent, out);
            out.push(58);
            out.push(58);
            if *ns == 67 {
                out.push(123);
                out.push(99);
                out.push(108);
                out.push(111);
                out.push(115);
                out.push(117);
                out.push(114);
                out.push(101);
                if name.name.len() > 0 {
                    out.push(58);
                    push_bytes(out, &name.name);
                }
                out.push(35);
                push_dec(out, name.dis);
                out.push(125);
            } else {
                push_bytes(out, &name.name);
            }
            proof {
                assert(out@ =~= old(out)@ + spec_render_path(p@));
            }
        },
        Path::Generic { base, args } => {
            render_path(base, out);
            out.push(58);
            out.push(58);
            out.push(60);
            render_args(args, out);
            out.push(62);
            proof {
                assert(out@ =~= old(out)@ + spec_render_path(p@));
            }
        },
    }
}

/// Append the rendering of an argument list to `out`.
pub fn render_args(args: &ArgList, out: &mut Vec<u8>)
    ensures
        final(out)@ == old(out)@ + spec_render_args(args@),
    decreases *args, 2nat,
{
    match args {
        ArgList::Nil => {
            proof {
                assert(out@ =~= old(out)@ + spec_render_args(ArgList::Nil@));
            }
        },
        ArgList::Cons { head, tail } => {
            render_arg(head, out);
            match &**tail {
                ArgList::Nil => {
                    proof {
                        assert(tail@.len() == 0);
                        assert(args@.len() == 1);
                        assert(args@[0] == head@);
                        assert(out@ =~= old(out)@ + spec_render_args(args@));
                    }
                },
                ArgList::Cons { head: h2, tail: t2 } => {
                    out.push(44);
                    out.push(32);
                    render_args(tail, out);
                    proof {
                        assert((**tail)@ == seq![h2@] + (**t2)@);
                        assert(tail@.len() >= 1);
                        assert(args@.drop_first() =~= tail@);
                        assert(args@[0] == head@);
                        assert(out@ =~= old(out)@ + spec_render_args(args@));
                    }
                },
            }
        },
    }
}

/// Append the rendering of one argument to `out`.
pub fn render_arg(a: &Arg, out: &mut Vec<u8>)
    ensures
        final(out)@ == old(out)@ + spec_render_arg(a@),
    decreases *a, 1nat,
{
    match a {
        Arg::Path(p) => {
            render_path(p, out);
        },
        Arg::Num(n) => {
            push_dec(out, *n);
        },
    }
}

/// Decide whether a component is a legacy hash component.
pub fn check_hash_elem(e: &Vec<u8>) -> (r: bool)
    ensures
        r == is_hash_elem(e@),
{
    if e.len() != 17 {
        return false;
    }
    if e[0] != 104 {
        return false;
    }
    let mut i: usize = 1;
    while i < 17
        invariant
            1 <= i <= 17,
            e@.len() == 17,
            forall|j: int| 1 <= j < i ==> is_hex_digit(#[trigger] e@[j]),
        decreases 17 - i,
    {
        if !check_hex_digit(e[i]) {
            return false;
        }
        i = i + 1;
    }
    true
}

/// `::`-joining one more component onto an already joined prefix.
pub proof fn lemma_join_push(es: Seq<Seq<u8>>, e: Seq<u8>)
    ensures
        spec_join_path(es.push(e)) == if es.len() == 0 {
            e
        } else {
            spec_join_path(es) + seq![58u8, 58u8] + e
        },
    decreases es.len(),
{
    if es.len() == 0 {
        assert(es.push(e)[0] == e);
        assert(spec_join_path(es.push(e)) == e);
    } else {
        lemma_join_push(es.drop_first(), e);
        assert(es.push(e).drop_first() =~= es.drop_first().push(e));
        assert(es.push(e)[0] == es[0]);
        if es.len() == 1 {
            assert(es.drop_first().len() == 0);
            assert(spec_join_path(es.push(e)) == es[0] + seq![58u8, 58u8] + e);
            assert(spec_join_path(es) == es[0]);
        } else {
            assert(spec_join_path(es.push(e)) == es[0] + seq![58u8, 58u8] + (spec_join_path(
                es.drop_first(),
            ) + seq![58u8, 58u8] + e));
            assert(es[0] + seq![58u8, 58u8] + (spec_join_path(es.drop_first()) + seq![58u8, 58u8]
                + e) =~= (es[0] + seq![58u8, 58u8] + spec_join_path(es.drop_first())) + seq![
                58u8,
                58u8,
            ] + e);
        }
    }
}

/// Append the rendering of a legacy name to `out`.
pub fn render_legacy(elems: &Vec<Vec<u8>>, verbose: bool, out: &mut Vec<u8>)
    ensures
        final(out)@ == old(out)@ + spec_render_legacy(elems.deep_view(), verbose),
{
    let ghost dv = elems.deep_view();
    let n = elems.len();
    let count: usize = if !verbose && n >= 2 && check_hash_elem(&elems[n - 1]) {
        n - 1
    } else {
        n
    };
    proof {
        assert(dv.len() == n);
        if n >= 1 {
            assert(dv.last() == elems@[n - 1].deep_view());
            assert(elems@[n - 1].deep_view() =~= elems@[n - 1]@);
        }
    }
    let mut i: usize = 0;
    while i < count
        invariant
            0 <= i <= count <= n,
            n == elems@.len(),
            dv == elems.deep_view(),
            count == n || (count == n - 1 && !verbose && n >= 2 && is_hash_elem(dv.last())),
            count == n ==> !(!verbose && n >= 2 && is_hash_elem(dv.last())),
            out@ == old(out)@ + spec_join_path(dv.subrange(0, i as int)),
        decreases count - i,
    {
        if i > 0 {
            out.push(58);
            out.push(58);
        }
        push_bytes(out, &elems[i]);
        proof {
            let pref = dv.subrange(0, i as int);
            lemma_join_push(pref, dv[i as int]);
            assert(pref.push(dv[i as int]) =~= dv.subrange(0, i + 1));
            assert(elems@[i as int].deep_view() == dv[i as int]);
            if i > 0 {
                assert(out@ =~= old(out)@ + (spec_join_path(pref) + seq![58u8, 58u8]
                    + dv[i as int]));
            } else {
                assert(out@ =~= old(out)@ + dv[i as int]);
            }
        }
        i = i + 1;
    }
    proof {
        if count < n {
            assert(dv.subrange(0, count as int) =~= dv.drop_last());
            assert(spec_render_legacy(dv, verbose) == spec_join_path(dv.drop_last()));
        } else {
            assert(dv.subrange(0, count as int) =~= dv);
            assert(spec_render_legacy(dv, verbose) == spec_join_path(dv));
        }
    }
}

/// Render a whole parsed name, exactly as `spec_render_symbol` says.
pub fn render_symbol(sym: &Symbol, verbose: bool) -> (out: Vec<u8>)
    ensures
        out@ == spec_render_symbol(sym@, verbose),
{
    let mut out: Vec<u8> = Vec::new();
    match sym {
        Symbol::Legacy { elems } => {
            render_legacy(elems, verbose, &mut out);
            proof {
                assert(out@ =~= spec_render_symbol(sym@, verbose));
            }
        },
        Symbol::Versioned { path } => {
            render_path(path, &mut out);
            proof {
                assert(out@ =~= spec_render_symbol(sym@, verbose));
            }
        },
    }
    out
}

} // verus!

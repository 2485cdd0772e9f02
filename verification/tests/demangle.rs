//! Demangling scenarios: both schemes, both rendering modes, and the
//! rejection paths.

use rustc_demangle::{try_demangle, Outcome};

fn demangled(input: &[u8], verbose: bool) -> Option<Vec<u8>> {
    match try_demangle(input, verbose) {
        Outcome::Success(v) => Some(v),
        Outcome::Rejected => None,
    }
}

#[test]
fn legacy_simple_path() {
    assert_eq!(
        demangled(b"_ZN7example4mainE", true),
        Some(b"example::main".to_vec())
    );
    assert_eq!(
        demangled(b"_ZN7example4mainE", false),
        Some(b"example::main".to_vec())
    );
}

#[test]
fn legacy_multi_component() {
    assert_eq!(
        demangled(b"_ZN3std2io5Write5writeE", true),
        Some(b"std::io::Write::write".to_vec())
    );
}

#[test]
fn legacy_hash_suffix_modes() {
    let input = b"_ZN7example4main17h0123456789abcdefE";
    assert_eq!(
        demangled(input, true),
        Some(b"example::main::h0123456789abcdef".to_vec())
    );
    assert_eq!(demangled(input, false), Some(b"example::main".to_vec()));
}

#[test]
fn legacy_lone_hash_component_kept() {
    // The hash is the only component: the terse mode must not drop it.
    let input = b"_ZN17h0123456789abcdefE";
    assert_eq!(
        demangled(input, false),
        Some(b"h0123456789abcdef".to_vec())
    );
}

#[test]
fn legacy_truncated_rejected() {
    assert!(demangled(b"_ZN3foo3bar", true).is_none());
}

#[test]
fn legacy_empty_component_list_rejected() {
    assert!(demangled(b"_ZNE", true).is_none());
}

#[test]
fn legacy_leading_zero_length_rejected() {
    assert!(demangled(b"_ZN03abcE", true).is_none());
}

#[test]
fn legacy_overflowing_length_rejected() {
    assert!(demangled(b"_ZN99999999999999999999999abcE", true).is_none());
}

#[test]
fn rejection_is_deterministic() {
    let junk: &[u8] = b"hello world";
    assert!(demangled(junk, true).is_none());
    assert!(demangled(junk, true).is_none());
    assert!(demangled(junk, false).is_none());
}

#[test]
fn non_ascii_rejected() {
    let input: Vec<u8> = vec![95, 90, 78, 0xFF];
    assert!(demangled(&input, true).is_none());
}

#[test]
fn bare_prefixes_rejected() {
    assert!(demangled(b"_ZN", true).is_none());
    assert!(demangled(b"_R", true).is_none());
    assert!(demangled(b"", true).is_none());
}

#[test]
fn versioned_simple_path() {
    assert_eq!(
        demangled(b"_RNvC7example4main", true),
        Some(b"example::main".to_vec())
    );
}

#[test]
fn versioned_trailing_bytes_rejected() {
    assert!(demangled(b"_RNvC7example4mainX", true).is_none());
}

#[test]
fn versioned_const_generic_argument() {
    assert_eq!(
        demangled(b"_RINvC7example3fooK42E", true),
        Some(b"example::foo::<42>".to_vec())
    );
}

#[test]
fn versioned_two_generic_arguments() {
    assert_eq!(
        demangled(b"_RINvC1a1bNvC1c1dK7E", true),
        Some(b"a::b::<c::d, 7>".to_vec())
    );
}

#[test]
fn versioned_closure() {
    assert_eq!(
        demangled(b"_RNCNvC7example4main0", true),
        Some(b"example::main::{closure#0}".to_vec())
    );
}

#[test]
fn versioned_closure_with_ordinal() {
    assert_eq!(
        demangled(b"_RNCNvC7example4mainsa_0", true),
        Some(b"example::main::{closure#10}".to_vec())
    );
}

#[test]
fn versioned_named_closure() {
    assert_eq!(
        demangled(b"_RNCNvC7example4main2cb", true),
        Some(b"example::main::{closure:cb#0}".to_vec())
    );
}

#[test]
fn versioned_backref_shares_earlier_path() {
    assert_eq!(
        demangled(b"_RINvC3foo3barB3_E", true),
        Some(b"foo::bar::<foo::bar>".to_vec())
    );
}

#[test]
fn versioned_forward_backref_rejected() {
    // The back-reference at position 14 points at position 15.
    assert!(demangled(b"_RINvC3foo3barBf_E", true).is_none());
}

#[test]
fn versioned_backref_cycle_rejected() {
    // The back-reference points at the enclosing generic application; the
    // depth budget runs out instead of looping.
    assert!(demangled(b"_RINvC3foo3barB2_E", true).is_none());
}

fn nested_name(levels: usize) -> Vec<u8> {
    let mut s = b"_R".to_vec();
    for _ in 0..levels {
        s.extend_from_slice(b"Nv");
    }
    s.extend_from_slice(b"C3foo");
    for _ in 0..levels {
        s.extend_from_slice(b"1a");
    }
    s
}

#[test]
fn depth_just_inside_bound_accepted() {
    // 63 nested components below the crate root: 64 path nodes in all.
    let input = nested_name(63);
    let mut expected = b"foo".to_vec();
    for _ in 0..63 {
        expected.extend_from_slice(b"::a");
    }
    assert_eq!(demangled(&input, true), Some(expected));
}

#[test]
fn depth_one_past_bound_rejected() {
    // 65 path nodes: one past the configured maximum.
    assert!(demangled(&nested_name(64), true).is_none());
}

//! Buffer discipline of the bridge: measuring, writing, and the failure
//! sentinels.

use rustc_demangle::{demangle, measure_length};

#[test]
fn measure_of_empty_input_is_zero() {
    assert_eq!(measure_length(b""), 0);
}

#[test]
fn measure_of_rejected_input_is_zero() {
    assert_eq!(measure_length(b"_ZN3foo3bar"), 0);
    assert_eq!(measure_length(b"no scheme here"), 0);
}

#[test]
fn measure_counts_text_plus_terminator() {
    // "example::main" is 13 bytes; one terminator byte follows.
    assert_eq!(measure_length(b"_ZN7example4mainE"), 14);
}

#[test]
fn measure_uses_verbose_mode() {
    // The bridge keeps the hash component, so it is measured too.
    let input = b"_ZN7example4main17h0123456789abcdefE";
    assert_eq!(measure_length(input), b"example::main::h0123456789abcdef".len() + 1);
}

#[test]
fn demangle_writes_exactly_measured_bytes() {
    let input = b"_ZN7example4mainE";
    let needed = measure_length(input);
    let mut buf = vec![0xAAu8; needed];
    assert!(demangle(input, &mut buf));
    assert_eq!(&buf[..needed - 1], b"example::main");
    assert_eq!(buf[needed - 1], 0);
}

#[test]
fn demangle_with_one_byte_less_fails() {
    let input = b"_ZN7example4mainE";
    let needed = measure_length(input);
    let mut buf = vec![0xAAu8; needed - 1];
    assert!(!demangle(input, &mut buf));
    // all-or-nothing: nothing was written
    assert!(buf.iter().all(|&b| b == 0xAA));
}

#[test]
fn demangle_leaves_spare_capacity_untouched() {
    let input = b"_ZN7example4mainE";
    let needed = measure_length(input);
    let mut buf = vec![0xAAu8; needed + 5];
    assert!(demangle(input, &mut buf));
    assert_eq!(&buf[..needed - 1], b"example::main");
    assert_eq!(buf[needed - 1], 0);
    assert!(buf[needed..].iter().all(|&b| b == 0xAA));
}

#[test]
fn demangle_of_rejected_input_fails_without_writing() {
    let mut buf = vec![0xAAu8; 64];
    assert!(!demangle(b"_ZN3foo3bar", &mut buf));
    assert!(buf.iter().all(|&b| b == 0xAA));
}

#[test]
fn demangle_into_empty_buffer_fails() {
    let mut buf: Vec<u8> = Vec::new();
    assert!(!demangle(b"_ZN7example4mainE", &mut buf));
}

#[test]
fn demangle_versioned_through_bridge() {
    let input = b"_RINvC3foo3barB3_E";
    let needed = measure_length(input);
    let mut buf = vec![0u8; needed];
    assert!(demangle(input, &mut buf));
    assert_eq!(&buf[..needed - 1], b"foo::bar::<foo::bar>");
    assert_eq!(buf[needed - 1], 0);
}

use scraps::console::{console_kind, divisor_latch_bytes, ConsoleKind, DtbProp};

fn prop(name: &str, text: &str) -> Option<DtbProp> {
    Some(DtbProp { name: Some(name.as_bytes().to_vec()), text: Some(text.as_bytes().to_vec()) })
}

#[test]
fn first_compatible_property_names_the_console() {
    let props = vec![prop("reg", "x"), prop("compatible", "ns16550a"), prop("compatible", "pl011")];
    assert_eq!(console_kind(&props), Some(ConsoleKind::NS16550A));
    let props = vec![prop("compatible", "pl011")];
    assert_eq!(console_kind(&props), Some(ConsoleKind::PL011));
}

#[test]
fn unknown_or_missing_compatible_gives_none() {
    assert_eq!(console_kind(&vec![prop("compatible", "virtio")]), None);
    assert_eq!(console_kind(&vec![prop("reg", "ns16550a")]), None);
    assert_eq!(console_kind(&vec![]), None);
    let no_text = Some(DtbProp { name: Some(b"compatible".to_vec()), text: None });
    assert_eq!(console_kind(&vec![no_text, prop("compatible", "pl011")]), None);
}

#[test]
fn a_broken_property_list_gives_none() {
    assert_eq!(console_kind(&vec![prop("reg", "x"), None, prop("compatible", "pl011")]), None);
    let nameless = Some(DtbProp { name: None, text: Some(b"pl011".to_vec()) });
    assert_eq!(console_kind(&vec![nameless, prop("compatible", "pl011")]), Some(ConsoleKind::PL011));
}

#[test]
fn divisor_latch_splits_into_bytes() {
    assert_eq!(divisor_latch_bytes(12), (12, 0));
    assert_eq!(divisor_latch_bytes(592), (0x50, 0x02));
}

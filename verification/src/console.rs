//! Choosing a console driver from a device-tree node, and the values its setup writes.
use vstd::prelude::*;

verus! {

/// The UARTs that can serve as a console.
#[derive(Clone, Copy, PartialEq, Eq, Structural, Debug)]
pub enum ConsoleKind {
    NS16550A,
    PL011,
}

/// A property of a device-tree node as the console choice reads it: its name and its value
/// read as text, each `None` where the tree could not give it.
pub struct DtbProp {
    pub name: Option<Vec<u8>>,
    pub text: Option<Vec<u8>>,
}

/// `compatible`
pub open spec fn compatible_name() -> Seq<u8> {
    seq![0x63u8, 0x6f, 0x6d, 0x70, 0x61, 0x74, 0x69, 0x62, 0x6c, 0x65]
}

/// `ns16550a`
pub open spec fn ns16550a_name() -> Seq<u8> {
    seq![0x6eu8, 0x73, 0x31, 0x36, 0x35, 0x35, 0x30, 0x61]
}

/// `pl011`
pub open spec fn pl011_name() -> Seq<u8> {
    seq![0x70u8, 0x6c, 0x30, 0x31, 0x31]
}

/// The console named by a `compatible` text.
pub open spec fn kind_of_text(text: Seq<u8>) -> Option<ConsoleKind> {
    if text == ns16550a_name() {
        Some(ConsoleKind::NS16550A)
    } else if text == pl011_name() {
        Some(ConsoleKind::PL011)
    } else {
        None
    }
}

/// Whether a property is named `compatible`.
pub open spec fn is_compatible(p: DtbProp) -> bool {
    p.name matches Some(n) && n@ == compatible_name()
}

/// The console that properties `props[i..]` name: the first `compatible` property decides;
/// a `None` entry (the tree failed to give the next property) before it, a `compatible`
/// property without text, an unknown text or no such property give `None`.
pub open spec fn console_kind_from(props: Seq<Option<DtbProp>>, i: int) -> Option<ConsoleKind>
    decreases props.len() - i,
{
    if i < 0 || i >= props.len() {
        None
    } else {
        match props[i] {
            None => None,
            Some(p) => if is_compatible(p) {
                match p.text {
                    Some(t) => kind_of_text(t@),
                    None => None,
                }
            } else {
                console_kind_from(props, i + 1)
            },
        }
    }
}

/// Whether a byte vector holds exactly the given bytes.
fn bytes_are(v: &Vec<u8>, s: &[u8]) -> (r: bool)
    ensures
        r == (v@ == s@),
{
    if v.len() != s.len() {
        return false;
    }
    let mut i: usize = 0;
    while i < v.len()
        invariant
            v@.len() == s@.len(),
            i <= v@.len(),
            forall|j: int| 0 <= j < i ==> v@[j] == s@[j],
        decreases v.len() - i,
    {
        if v[i] != s[i] {
            return false;
        }
        i = i + 1;
    }
    assert(v@ =~= s@);
    true
}

/// The console that a node's `compatible` property names, `None` where there is none.
pub fn console_kind(props: &Vec<Option<DtbProp>>) -> (r: Option<ConsoleKind>)
    ensures
        r == console_kind_from(props@, 0),
{
    let compatible: [u8; 10] = [0x63, 0x6f, 0x6d, 0x70, 0x61, 0x74, 0x69, 0x62, 0x6c, 0x65];
    let ns16550a: [u8; 8] = [0x6e, 0x73, 0x31, 0x36, 0x35, 0x35, 0x30, 0x61];
    let pl011: [u8; 5] = [0x70, 0x6c, 0x30, 0x31, 0x31];
    assert(compatible@ =~= compatible_name());
    assert(ns16550a@ =~= ns16550a_name());
    assert(pl011@ =~= pl011_name());
    let mut i: usize = 0;
    while i < props.len()
        invariant
            i <= props@.len(),
            compatible@ == compatible_name(),
            ns16550a@ == ns16550a_name(),
            pl011@ == pl011_name(),
            console_kind_from(props@, 0) == console_kind_from(props@, i as int),
        decreases props.len() - i,
    {
        match &props[i] {
            None => {
                return None;
            },
            Some(p) => {
                let named = match &p.name {
                    Some(n) => bytes_are(n, compatible.as_slice()),
                    None => false,
                };
                if named {
                    match &p.text {
                        Some(t) => {
                            if bytes_are(t, ns16550a.as_slice()) {
                                return Some(ConsoleKind::NS16550A);
                            } else if bytes_are(t, pl011.as_slice()) {
                                return Some(ConsoleKind::PL011);
                            } else {
                                return None;
                            }
                        },
                        None => {
                            return None;
                        },
                    }
                }
            },
        }
        i = i + 1;
    }
    None
}

/// The two bytes of an NS16550A divisor latch: the low byte, then the high byte.
pub fn divisor_latch_bytes(divisor: u16) -> (r: (u8, u8))
    ensures
        r.0 == divisor % 256,
        r.1 == divisor / 256,
{
    let lo = (divisor & 0xFF) as u8;
    let hi = (divisor >> 8 & 0xff) as u8;
    assert(divisor & 0xFF == divisor % 256 && divisor >> 8 & 0xff == divisor / 256) by (bit_vector);
    (lo, hi)
}

} // verus!

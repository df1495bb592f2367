use crate::ocapn::types::{hex_pair, hex_pair_exec};
use vstd::prelude::*;
use vstd::string::StringSliceAdditionalSpecFns;
use vstd::utf8::is_continuation_byte;

verus! {

/// How a script node's text is shown.
#[derive(Debug, Clone, Copy, PartialEq, Eq)]
pub enum ScriptViewMode {
    Source,
    Rendered,
}

/// What the side panels show.
pub struct PanelState {
    pub library_search: String,
    pub show_library: bool,
    pub show_inspector: bool,
    pub show_log: bool,
    pub show_debug: bool,
    pub selected_node: Option<u64>,
    pub script_view: ScriptViewMode,
}

impl PanelState {
    /// The panels at start: library, inspector and log shown, debug hidden,
    /// nothing selected, scripts rendered.
    pub fn new() -> (r: PanelState)
        ensures
            r.library_search@ == Seq::<char>::empty(),
            r.show_library,
            r.show_inspector,
            r.show_log,
            !r.show_debug,
            r.selected_node is None,
            r.script_view == ScriptViewMode::Rendered,
    {
        PanelState {
            library_search: String::new(),
            show_library: true,
            show_inspector: true,
            show_log: true,
            show_debug: false,
            selected_node: None,
            script_view: ScriptViewMode::Rendered,
        }
    }
}

/// The number of `#` bytes at the start.
pub open spec fn leading_hashes(b: Seq<u8>) -> nat
    decreases b.len(),
{
    if b.len() > 0 && b[0] == 35u8 {
        1 + leading_hashes(b.skip(1))
    } else {
        0
    }
}

/// A channel of a color: the two hex digits as `u8::from_str_radix` reads
/// them, 128 where it cannot.
pub open spec fn channel_of(a: u8, b: u8) -> u8 {
    match hex_pair(a, b) {
        Some(v) => v,
        None => 128,
    }
}

/// The color `#rrggbb` (any number of leading `#`), channel by channel;
/// gray (128, 128, 128) for text shorter than six bytes.
pub open spec fn hex_color(s: Seq<u8>) -> (u8, u8, u8) {
    let t = s.skip(leading_hashes(s) as int);
    if t.len() >= 6 {
        (channel_of(t[0], t[1]), channel_of(t[2], t[3]), channel_of(t[4], t[5]))
    } else {
        (128, 128, 128)
    }
}

/// Slicing the first six bytes after the leading `#` into pairs falls on
/// character boundaries.
pub open spec fn color_sliceable(s: Seq<u8>) -> bool {
    let t = s.skip(leading_hashes(s) as int);
    t.len() >= 6 ==> (!is_continuation_byte(t[2]) && !is_continuation_byte(t[4]) && (t.len() > 6
        ==> !is_continuation_byte(t[6])))
}

/// The red, green and blue of a color written `#rrggbb`.
pub fn parse_hex_color(s: &str) -> (r: (u8, u8, u8))
    requires
        color_sliceable(s.spec_bytes()),
    ensures
        r == hex_color(s.spec_bytes()),
{
    let b = s.as_bytes();
    let ghost bs = b@;
    let mut i: usize = 0;
    assert(bs.skip(0) =~= bs);
    while i < b.len() && b[i] == 35u8
        invariant
            i <= bs.len(),
            bs == b@,
            leading_hashes(bs) == i + leading_hashes(bs.skip(i as int)),
        decreases bs.len() - i,
    {
        assert(bs.skip(i as int).skip(1) =~= bs.skip(i + 1));
        i = i + 1;
    }
    assert(leading_hashes(bs.skip(i as int)) == 0);
    if b.len() - i >= 6 {
        let r = match hex_pair_exec(b[i], b[i + 1]) {
            Some(v) => v,
            None => 128,
        };
        let g = match hex_pair_exec(b[i + 2], b[i + 3]) {
            Some(v) => v,
            None => 128,
        };
        let bl = match hex_pair_exec(b[i + 4], b[i + 5]) {
            Some(v) => v,
            None => 128,
        };
        (r, g, bl)
    } else {
        (128, 128, 128)
    }
}

} // verus!

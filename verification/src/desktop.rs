//! Placing the gadget window on the desktop layer.
use vstd::prelude::*;

use crate::text::{chars_of, same_text};

verus! {

/// The UTF-16 code units of a character.
pub open spec fn utf16_units(c: char) -> Seq<u16> {
    let n = c as int;
    if n < 0x10000 {
        seq![n as u16]
    } else {
        seq![(0xd800 + (n - 0x10000) / 0x400) as u16, (0xdc00 + (n - 0x10000) % 0x400) as u16]
    }
}

/// The UTF-16 code units of a text.
pub open spec fn utf16(s: Seq<char>) -> Seq<u16>
    decreases s.len(),
{
    if s.len() == 0 {
        Seq::empty()
    } else {
        utf16(s.drop_last()) + utf16_units(s.last())
    }
}

/// The code point of a character.
fn code_point(c: char) -> (r: u32)
    ensures
        r as int == c as int,
        r <= 0x10_ffff,
{
    c as u32
}

/// A text as a zero-terminated UTF-16 string.
pub fn wide(s: &str) -> (r: Vec<u16>)
    ensures
        r@ == utf16(s@).push(0),
{
    let v: Vec<char> = chars_of(s);
    let n: usize = v.len();
    let mut r: Vec<u16> = Vec::new();
    let mut i: usize = 0;
    while i < n
        invariant
            n == v@.len(),
            i <= n,
            r@ == utf16(v@.take(i as int)),
        decreases n - i,
    {
        let c: u32 = code_point(v[i]);
        let ghost before = r@;
        assert(v@.take(i + 1).drop_last() == v@.take(i as int));
        if c < 0x10000 {
            r.push(c as u16);
            assert(r@ =~= before + utf16_units(v@[i as int]));
        } else {
            let o: u32 = c - 0x10000;
            r.push((0xd800 + o / 0x400) as u16);
            r.push((0xdc00 + o % 0x400) as u16);
            assert(r@ =~= before + utf16_units(v@[i as int]));
        }
        i += 1;
    }
    assert(v@.take(n as int) == v@);
    r.push(0);
    r
}

/// Where the window has ended up.
#[derive(Clone, Copy, Debug, PartialEq, Eq, Structural)]
pub enum Placement {
    /// A plain window.
    Normal,
    /// Parented to the worker window behind the desktop icons.
    WorkerW,
    /// Parented to the program manager.
    WorkerWProgman,
    /// A tool window directly above the desktop.
    Bottom,
}

impl Placement {
    /// The name of the placement.
    pub open spec fn name(self) -> Seq<char> {
        match self {
            Placement::Normal => "normal"@,
            Placement::WorkerW => "workerw"@,
            Placement::WorkerWProgman => "workerw-progman"@,
            Placement::Bottom => "bottom"@,
        }
    }

    /// The name of the placement.
    pub fn label(&self) -> (r: &'static str)
        ensures
            r@ == self.name(),
    {
        match self {
            Placement::Normal => "normal",
            Placement::WorkerW => "workerw",
            Placement::WorkerWProgman => "workerw-progman",
            Placement::Bottom => "bottom",
        }
    }
}

/// What to do next to place the window.
#[derive(Clone, Copy, Debug, PartialEq, Eq, Structural)]
pub enum AttachStep {
    /// Parent the window to the worker window, if there is one.
    TryWorker,
    /// Parent the window to the program manager, if it is there.
    TryProgman,
    /// Make the window a tool window that the program manager owns, and pin it to the bottom.
    PinToBottom,
    /// Nothing; the window is placed.
    Done(Placement),
}

/// The first step for a configured mode.
pub open spec fn first_step(mode: Seq<char>) -> AttachStep {
    if mode == "normal"@ {
        AttachStep::Done(Placement::Normal)
    } else if mode == "bottom"@ {
        AttachStep::PinToBottom
    } else {
        AttachStep::TryWorker
    }
}

/// The step that follows one that took effect or did not. Parenting to the program manager is
/// tried only on request.
pub open spec fn next_step(mode: Seq<char>, step: AttachStep, took: bool) -> AttachStep {
    match step {
        AttachStep::TryWorker => if took {
            AttachStep::Done(Placement::WorkerW)
        } else if mode == "workerw"@ {
            AttachStep::TryProgman
        } else {
            AttachStep::PinToBottom
        },
        AttachStep::TryProgman => if took {
            AttachStep::Done(Placement::WorkerWProgman)
        } else {
            AttachStep::PinToBottom
        },
        AttachStep::PinToBottom => AttachStep::Done(Placement::Bottom),
        AttachStep::Done(p) => AttachStep::Done(p),
    }
}

/// Where the window ends up, given which of the two parentings take effect.
pub open spec fn placed(mode: Seq<char>, worker: bool, progman: bool) -> Placement {
    if mode == "normal"@ {
        Placement::Normal
    } else if mode == "bottom"@ {
        Placement::Bottom
    } else if worker {
        Placement::WorkerW
    } else if mode == "workerw"@ && progman {
        Placement::WorkerWProgman
    } else {
        Placement::Bottom
    }
}

/// Whether a step takes effect, given which of the two parentings do.
pub open spec fn takes(step: AttachStep, worker: bool, progman: bool) -> bool {
    match step {
        AttachStep::TryWorker => worker,
        AttachStep::TryProgman => progman,
        _ => true,
    }
}

/// The first step for a configured mode.
pub fn begin_attach(mode: &str) -> (r: AttachStep)
    ensures
        r == first_step(mode@),
{
    if same_text(mode, "normal") {
        AttachStep::Done(Placement::Normal)
    } else if same_text(mode, "bottom") {
        AttachStep::PinToBottom
    } else {
        AttachStep::TryWorker
    }
}

/// The step that follows one that took effect or did not.
pub fn continue_attach(mode: &str, step: AttachStep, took: bool) -> (r: AttachStep)
    ensures
        r == next_step(mode@, step, took),
{
    match step {
        AttachStep::TryWorker => if took {
            AttachStep::Done(Placement::WorkerW)
        } else if same_text(mode, "workerw") {
            AttachStep::TryProgman
        } else {
            AttachStep::PinToBottom
        },
        AttachStep::TryProgman => if took {
            AttachStep::Done(Placement::WorkerWProgman)
        } else {
            AttachStep::PinToBottom
        },
        AttachStep::PinToBottom => AttachStep::Done(Placement::Bottom),
        AttachStep::Done(p) => AttachStep::Done(p),
    }
}

/// Three steps after the first one at most, the window is placed, and where it ends up depends
/// only on the mode and on which parentings take effect.
pub proof fn attaching_ends(mode: Seq<char>, worker: bool, progman: bool)
    ensures
        ({
            let s0 = first_step(mode);
            let s1 = next_step(mode, s0, takes(s0, worker, progman));
            let s2 = next_step(mode, s1, takes(s1, worker, progman));
            let s3 = next_step(mode, s2, takes(s2, worker, progman));
            s3 == AttachStep::Done(placed(mode, worker, progman))
        }),
{
    reveal_strlit("normal");
    reveal_strlit("bottom");
    reveal_strlit("workerw");
    assert("normal"@[0] == 'n');
    assert("bottom"@[0] == 'b');
    assert("workerw"@[0] == 'w');
}

/// Unless it is asked for by name, the window is never parented to the program manager.
pub proof fn progman_only_on_request(mode: Seq<char>, worker: bool, progman: bool)
    requires
        mode != "workerw"@,
    ensures
        placed(mode, worker, progman) != Placement::WorkerWProgman,
        forall|took: bool|
            next_step(mode, AttachStep::TryWorker, took) != AttachStep::TryProgman,
{
}

/// Extended style of a window that does not take the focus.
pub const WS_EX_NOACTIVATE: i64 = 0x0800_0000;

/// Extended style of a tool window.
pub const WS_EX_TOOLWINDOW: i64 = 0x0000_0080;

/// The extended style of the pinned gadget: a tool window that does not take the focus.
pub open spec fn pinned(style: i64) -> i64 {
    style | WS_EX_TOOLWINDOW | WS_EX_NOACTIVATE
}

/// The extended style with which the window can take the focus, or cannot.
pub open spec fn focusable(style: i64, on: bool) -> i64 {
    if on {
        style & !WS_EX_NOACTIVATE
    } else {
        style | WS_EX_NOACTIVATE
    }
}

/// The extended style of the pinned gadget.
pub fn gadget_style(style: i64) -> (r: i64)
    ensures
        r == pinned(style),
{
    style | WS_EX_TOOLWINDOW | WS_EX_NOACTIVATE
}

/// The extended style with which the window can take the focus, or cannot.
pub fn activatable_style(style: i64, on: bool) -> (r: i64)
    ensures
        r == focusable(style, on),
{
    if on {
        style & !WS_EX_NOACTIVATE
    } else {
        style | WS_EX_NOACTIVATE
    }
}

/// Whether the focus has to be switched on and off: only a pinned window refuses it.
pub fn switches_focus(placement: &str) -> (r: bool)
    ensures
        r == (placement@ == Placement::Bottom.name()),
{
    same_text(placement, "bottom")
}

/// Switching the focus of the pinned gadget on and off again restores its style.
pub proof fn focus_switch_restores_style(style: i64)
    ensures
        focusable(focusable(pinned(style), true), false) == pinned(style),
{
    assert(((style | 0x0000_0080i64 | 0x0800_0000i64) & !0x0800_0000i64) | 0x0800_0000i64 == style
        | 0x0000_0080i64 | 0x0800_0000i64) by (bit_vector);
}

/// A character can be told from its UTF-16 code units: it is its one unit, or the offset from
/// 0x10000 that a high and a low surrogate hold in ten bits each.
pub proof fn utf16_units_hold_the_character(c: char)
    ensures
        (c as int) < 0x10000 ==> utf16_units(c).len() == 1 && utf16_units(c)[0] as int == c as int,
        (c as int) >= 0x10000 ==> {
            let (high, low) = (utf16_units(c)[0] as int, utf16_units(c)[1] as int);
            &&& utf16_units(c).len() == 2
            &&& 0xd800 <= high <= 0xdbff
            &&& 0xdc00 <= low <= 0xdfff
            &&& 0x10000 + (high - 0xd800) * 0x400 + (low - 0xdc00) == c as int
        },
{
    assert(0 <= c as int <= 0x10_ffff);
}

/// A text is written unit for unit: the units of two texts together are those of the first and
/// then those of the second, and one character has its own.
pub proof fn utf16_goes_by_character(a: Seq<char>, b: Seq<char>)
    ensures
        utf16(a + b) == utf16(a) + utf16(b),
        a.len() == 1 ==> utf16(a) == utf16_units(a[0]),
    decreases b.len(),
{
    reveal_with_fuel(utf16, 2);
    if a.len() == 1 {
        assert(utf16(a) =~= utf16_units(a[0]));
    }
    if b.len() == 0 {
        assert(a + b =~= a);
        assert(utf16(a) + utf16(b) =~= utf16(a));
    } else {
        utf16_goes_by_character(a, b.drop_last());
        assert((a + b).drop_last() =~= a + b.drop_last());
        assert(utf16(a + b) =~= utf16(a) + utf16(b));
    }
}

/// Where the window ends up goes by name: a normal window stays one and one at the bottom goes
/// there whatever can be parented, any other goes behind the icons where that takes effect, and
/// to the program manager only where it is asked for by the name "workerw"; else to the bottom.
pub proof fn placements_go_by_mode(mode: Seq<char>, worker: bool, progman: bool)
    ensures
        mode == "normal"@ ==> placed(mode, worker, progman).name() == "normal"@,
        mode == "bottom"@ ==> placed(mode, worker, progman).name() == "bottom"@,
        mode != "normal"@ && mode != "bottom"@ && worker ==> placed(mode, worker, progman).name()
            == "workerw"@,
        mode == "workerw"@ && !worker && progman ==> placed(mode, worker, progman).name()
            == "workerw-progman"@,
        mode == "workerw"@ && !worker && !progman ==> placed(mode, worker, progman).name()
            == "bottom"@,
        mode != "normal"@ && mode != "bottom"@ && mode != "workerw"@ && !worker ==> placed(
            mode,
            worker,
            progman,
        ).name() == "bottom"@,
{
    reveal_strlit("normal");
    reveal_strlit("bottom");
    reveal_strlit("workerw");
    assert("normal"@[0] == 'n');
    assert("bottom"@[0] == 'b');
    assert("workerw"@[0] == 'w');
}

/// The pinned gadget is a tool window that does not take the focus, and keeps every other bit of
/// its style.
pub proof fn pinning_sets_two_bits(style: i64)
    ensures
        pinned(style) & 0x0000_0080i64 != 0,
        pinned(style) & 0x0800_0000i64 != 0,
        pinned(style) & !0x0800_0080i64 == style & !0x0800_0080i64,
{
    assert((style | 0x0000_0080i64 | 0x0800_0000i64) & 0x0000_0080i64 != 0 && (style
        | 0x0000_0080i64 | 0x0800_0000i64) & 0x0800_0000i64 != 0 && (style | 0x0000_0080i64
        | 0x0800_0000i64) & !0x0800_0080i64 == style & !0x0800_0080i64) by (bit_vector);
}

/// Switching the focus on clears the one bit that refuses it, switching it off sets it, and either
/// keeps every other bit of the style.
pub proof fn focus_is_one_bit(style: i64)
    ensures
        focusable(style, true) & 0x0800_0000i64 == 0,
        focusable(style, false) & 0x0800_0000i64 != 0,
        focusable(style, true) & !0x0800_0000i64 == style & !0x0800_0000i64,
        focusable(style, false) & !0x0800_0000i64 == style & !0x0800_0000i64,
{
    assert((style & !0x0800_0000i64) & 0x0800_0000i64 == 0 && (style | 0x0800_0000i64)
        & 0x0800_0000i64 != 0 && (style & !0x0800_0000i64) & !0x0800_0000i64 == style
        & !0x0800_0000i64 && (style | 0x0800_0000i64) & !0x0800_0000i64 == style
        & !0x0800_0000i64) by (bit_vector);
}

} // verus!

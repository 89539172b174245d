use adsb_radar::desktop::{
    activatable_style, begin_attach, continue_attach, gadget_style, switches_focus, wide,
    AttachStep, Placement,
};

/// Runs the steps; `worker` and `progman` say which parentings take effect.
fn attach(mode: &str, worker: bool, progman: bool) -> (Placement, usize) {
    let mut step = begin_attach(mode);
    let mut tried = 0;
    loop {
        let took = match step {
            AttachStep::Done(p) => return (p, tried),
            AttachStep::TryWorker => worker,
            AttachStep::TryProgman => progman,
            AttachStep::PinToBottom => true,
        };
        tried += 1;
        step = continue_attach(mode, step, took);
    }
}

#[test]
fn modes_end_up_where_they_should() {
    assert_eq!(attach("normal", true, true), (Placement::Normal, 0));
    assert_eq!(attach("bottom", true, true), (Placement::Bottom, 1));
    assert_eq!(attach("auto", true, true), (Placement::WorkerW, 1));
    assert_eq!(attach("auto", false, true), (Placement::Bottom, 2));
    assert_eq!(attach("workerw", true, true), (Placement::WorkerW, 1));
    assert_eq!(attach("workerw", false, true), (Placement::WorkerWProgman, 2));
    assert_eq!(attach("workerw", false, false), (Placement::Bottom, 3));
    assert_eq!(attach("anything", false, true), (Placement::Bottom, 2));
}

#[test]
fn placements_have_names() {
    assert_eq!(Placement::Normal.label(), "normal");
    assert_eq!(Placement::WorkerW.label(), "workerw");
    assert_eq!(Placement::WorkerWProgman.label(), "workerw-progman");
    assert_eq!(Placement::Bottom.label(), "bottom");
}

#[test]
fn wide_strings_end_with_zero() {
    assert_eq!(wide(""), [0]);
    assert_eq!(wide("Wé"), [0x57, 0xe9, 0]);
    assert_eq!(wide("\u{1f6a8}"), [0xd83d, 0xdea8, 0]);
    let s = "Progman ✈ \u{10ffff}";
    let std: Vec<u16> = s.encode_utf16().chain(std::iter::once(0)).collect();
    assert_eq!(wide(s), std);
}

#[test]
fn focus_can_be_switched_and_restored() {
    let pinned = gadget_style(0x10);
    assert_eq!(pinned, 0x0800_0090);
    assert_eq!(activatable_style(pinned, true), 0x90);
    assert_eq!(activatable_style(activatable_style(pinned, true), false), pinned);
    assert!(switches_focus("bottom"));
    assert!(!switches_focus("workerw"));
    assert!(!switches_focus("normal"));
}

use taskdump::frame::{Forest, Frame};
use taskdump::location::Location;
use taskdump::tasks::{tasks, Tasks};
use taskdump::traced::Traced;
use taskdump::{backtrace, taskdump_tree};

fn loc(name: &'static str, rest: &'static (&'static str, u32, u32)) -> Location {
    Location::from_components(name, rest)
}

#[test]
fn location_components_read_back() {
    let l = loc("crate::foo::{{closure}}", &("src/lib.rs", 12, 3));
    assert_eq!(l.name(), Some("crate::foo::{{closure}}"));
    assert_eq!(l.file(), "src/lib.rs");
    assert_eq!(l.line(), 12);
    assert_eq!(l.column(), 3);
}

#[test]
fn location_to_string() {
    let l = loc("rust_out::main::{{closure}}", &("backtrace/src/location.rs", 8, 16));
    assert_eq!(
        l.to_string(),
        "rust_out::main::{{closure}} at backtrace/src/location.rs:8:16"
    );
    let l = loc("f", &("a.rs", 0, 1234567890));
    assert_eq!(l.to_string(), "f at a.rs:0:1234567890");
}

#[test]
fn location_same_as() {
    let a = loc("f", &("a.rs", 1, 2));
    let b = loc("f", &("a.rs", 1, 2));
    let c = loc("f", &("a.rs", 1, 3));
    let d = loc("g", &("a.rs", 1, 2));
    assert!(a.same_as(&b));
    assert!(!a.same_as(&c));
    assert!(!a.same_as(&d));
}

#[test]
fn frame_new_is_unattached() {
    let forest = Forest::new();
    let l = loc("f", &("a.rs", 1, 2));
    let f = Frame::new(l);
    assert_eq!(f.location(), l);
    assert_eq!(f.parent(&forest), None);
    let b = f.backtrace(&forest);
    assert_eq!(b, vec![l]);
    assert_eq!(tasks(&forest).len(), 0);
    assert_eq!(taskdump_tree(&forest, true, None).ok(), Some(String::new()));
}

#[test]
fn activation_attaches_below_active_frame() {
    let mut forest = Forest::new();
    let la = loc("a", &("a.rs", 1, 1));
    let lb = loc("b", &("b.rs", 2, 2));
    let lc = loc("c", &("c.rs", 3, 3));
    let mut a = Frame::new(la);
    let ia = a.activate(&mut forest, None).unwrap();
    let mut b = Frame::new(lb);
    let ib = b.activate(&mut forest, Some(ia)).unwrap();
    let mut c = Frame::new(lc);
    let ic = c.activate(&mut forest, Some(ib)).unwrap();
    assert_eq!(a.parent(&forest), None);
    assert_eq!(b.parent(&forest), Some(ia));
    assert_eq!(c.parent(&forest), Some(ib));
    assert_eq!(Frame::root(&forest, ic), ia);
    assert_eq!(forest.ancestors(ic), vec![ic, ib, ia]);
    assert_eq!(c.backtrace(&forest), vec![lc, lb, la]);
    assert_eq!(backtrace(&forest, Some(ic)), Some(vec![lc, lb, la]));
    assert_eq!(backtrace(&forest, None), None);
    assert_eq!(tasks(&forest).len(), 1);
    assert!(Frame::mutex(&forest, ia).unwrap().held);
    assert!(Frame::mutex(&forest, ib).is_none());
}

#[test]
fn root_lock_is_exclusive_and_released() {
    let mut forest = Forest::new();
    let mut a = Frame::new(loc("a", &("a.rs", 1, 1)));
    let ia = a.activate(&mut forest, None).unwrap();
    assert!(a.activate(&mut forest, None).is_err());
    Frame::deactivate(&mut forest, ia);
    assert!(!Frame::mutex(&forest, ia).unwrap().held);
    assert_eq!(a.activate(&mut forest, None).unwrap(), ia);
}

#[test]
fn release_detaches_and_reuses_slots() {
    let mut forest = Forest::new();
    let mut a = Frame::new(loc("a", &("a.rs", 1, 1)));
    let ia = a.activate(&mut forest, None).unwrap();
    let mut b = Frame::new(loc("b", &("b.rs", 2, 2)));
    let ib = b.activate(&mut forest, Some(ia)).unwrap();
    assert_eq!(forest.children(ia), &vec![ib]);
    b.release(&mut forest);
    assert!(!forest.is_live(ib));
    assert_eq!(forest.children(ia).len(), 0);
    Frame::deactivate(&mut forest, ia);
    a.release(&mut forest);
    assert!(!forest.is_live(ia));
    assert_eq!(tasks(&forest).len(), 0);
    let mut c = Frame::new(loc("c", &("c.rs", 3, 3)));
    let ic = c.activate(&mut forest, None).unwrap();
    assert!(ic == ia || ic == ib);
}

#[test]
fn children_most_recent_first() {
    let mut forest = Forest::new();
    let mut a = Frame::new(loc("a", &("a.rs", 1, 1)));
    let ia = a.activate(&mut forest, None).unwrap();
    let mut b = Frame::new(loc("b", &("b.rs", 2, 2)));
    let ib = b.activate(&mut forest, Some(ia)).unwrap();
    let mut c = Frame::new(loc("c", &("c.rs", 3, 3)));
    let ic = c.activate(&mut forest, Some(ia)).unwrap();
    assert_eq!(forest.children(ia), &vec![ic, ib]);
}

/// Two identical sibling subtrees, polled in turn inside a selection, are
/// drawn once with their count, below the most recent sibling.
#[test]
fn consolidate() {
    let l_sel = loc(
        "consolidate::selecting::{{closure}}",
        &("backtrace/tests/consolidate.rs", 10, 1),
    );
    let l_outer = loc(
        "consolidate::yielding_outer::{{closure}}",
        &("backtrace/tests/consolidate.rs", 20, 1),
    );
    let l_inner = loc(
        "consolidate::yielding_inner::{{closure}}",
        &("backtrace/tests/consolidate.rs", 25, 1),
    );
    let l_ready = loc(
        "consolidate::ready::{{closure}}",
        &("backtrace/tests/consolidate.rs", 30, 1),
    );
    let mut forest = Forest::new();
    let mut sel = Frame::new(l_sel);
    let s = sel.activate(&mut forest, None).unwrap();
    let mut keep = Vec::new();
    for _ in 0..2 {
        let mut outer = Frame::new(l_outer);
        let o = outer.activate(&mut forest, Some(s)).unwrap();
        let mut inner = Frame::new(l_inner);
        let i = inner.activate(&mut forest, Some(o)).unwrap();
        Frame::deactivate(&mut forest, i);
        Frame::deactivate(&mut forest, o);
        keep.push(outer);
        keep.push(inner);
    }
    let mut ready = Frame::new(l_ready);
    let r = ready.activate(&mut forest, Some(s)).unwrap();
    let dump = taskdump_tree(&forest, true, Some(r)).unwrap();
    assert_eq!(
        dump,
        "\
╼ consolidate::selecting::{{closure}} at backtrace/tests/consolidate.rs:10:1
  ├╼ consolidate::ready::{{closure}} at backtrace/tests/consolidate.rs:30:1
  └╼ 2x consolidate::yielding_outer::{{closure}} at backtrace/tests/consolidate.rs:20:1
     └╼ consolidate::yielding_inner::{{closure}} at backtrace/tests/consolidate.rs:25:1"
    );
    // Waiting changes nothing: the task is the caller's own.
    assert_eq!(taskdump_tree(&forest, false, Some(r)).ok(), Some(dump));
}

/// A task dumps itself from inside its own frames, and then from a nested
/// frame.
#[test]
fn reentrant() {
    let mut forest = Forest::new();
    let mut outer = Frame::new(loc("reentrant::outer::{{closure}}", &("backtrace/tests/reentrant.rs", 9, 1)));
    let o = outer.activate(&mut forest, None).unwrap();
    assert_eq!(
        Tasks::new().to_string(&forest, Some(o)),
        "╼ reentrant::outer::{{closure}} at backtrace/tests/reentrant.rs:9:1"
    );
    let mut inner = Frame::new(loc("reentrant::inner::{{closure}}", &("backtrace/tests/reentrant.rs", 20, 1)));
    let i = inner.activate(&mut forest, Some(o)).unwrap();
    assert_eq!(
        Tasks::new().to_string(&forest, Some(i)),
        "╼ reentrant::outer::{{closure}} at backtrace/tests/reentrant.rs:9:1\n  └╼ reentrant::inner::{{closure}} at backtrace/tests/reentrant.rs:20:1"
    );
}

/// A task polled elsewhere is drawn without its subframes, or waited for.
#[test]
fn polling_task_dump() {
    let mut forest = Forest::new();
    let mut outer = Frame::new(loc("deadlockless::outer", &("backtrace/tests/deadlockless.rs", 12, 1)));
    let o = outer.activate(&mut forest, None).unwrap();
    let mut inner = Frame::new(loc("deadlockless::inner", &("backtrace/tests/deadlockless.rs", 30, 1)));
    let _i = inner.activate(&mut forest, Some(o)).unwrap();
    let expected = "╼ deadlockless::outer at backtrace/tests/deadlockless.rs:12:1\n  └┈ [POLLING]";
    assert_eq!(taskdump_tree(&forest, true, None).ok(), Some(expected.to_string()));
    assert!(taskdump_tree(&forest, false, None).is_err());
    let t = &tasks(&forest)[0];
    assert_eq!(t.pretty_tree(&forest, true, None), None);
    assert_eq!(t.pretty_tree(&forest, false, None), Some(expected.to_string()));
    assert_eq!(t.to_string(&forest, None), expected);
    assert_eq!(t.location(&forest).to_string(), "deadlockless::outer at backtrace/tests/deadlockless.rs:12:1");
    Frame::deactivate(&mut forest, o);
    assert_eq!(
        taskdump_tree(&forest, false, None).unwrap(),
        "╼ deadlockless::outer at backtrace/tests/deadlockless.rs:12:1\n  └╼ deadlockless::inner at backtrace/tests/deadlockless.rs:30:1"
    );
}

#[test]
fn two_tasks_on_their_own_lines() {
    let mut forest = Forest::new();
    let mut a = Frame::new(loc("a", &("a.rs", 1, 1)));
    let _ = a.activate(&mut forest, None).unwrap();
    let mut b = Frame::new(loc("b", &("b.rs", 2, 2)));
    let ib = b.activate(&mut forest, None).unwrap();
    Frame::deactivate(&mut forest, ib);
    let dump = taskdump_tree(&forest, true, None).unwrap();
    let mut lines: Vec<&str> = dump.lines().collect();
    lines.sort();
    assert_eq!(lines, vec!["  └┈ [POLLING]", "╼ a at a.rs:1:1", "╼ b at b.rs:2:2"]);
}

#[test]
fn deep_tree_draws_bars() {
    let mut forest = Forest::new();
    let mut r = Frame::new(loc("r", &("r.rs", 1, 1)));
    let ir = r.activate(&mut forest, None).unwrap();
    let mut x = Frame::new(loc("x", &("x.rs", 1, 1)));
    let ix = x.activate(&mut forest, Some(ir)).unwrap();
    let mut y = Frame::new(loc("y", &("y.rs", 1, 1)));
    let _ = y.activate(&mut forest, Some(ix)).unwrap();
    let mut z = Frame::new(loc("z", &("z.rs", 1, 1)));
    let _ = z.activate(&mut forest, Some(ir)).unwrap();
    assert_eq!(
        Frame::fmt(&forest, ir, true),
        "╼ r at r.rs:1:1\n  ├╼ z at z.rs:1:1\n  └╼ x at x.rs:1:1\n     └╼ y at y.rs:1:1"
    );
    let mut w = Frame::new(loc("w", &("w.rs", 1, 1)));
    let _ = w.activate(&mut forest, Some(ix)).unwrap();
    assert_eq!(
        Frame::fmt(&forest, ir, true),
        "╼ r at r.rs:1:1\n  ├╼ z at z.rs:1:1\n  └╼ x at x.rs:1:1\n     ├╼ w at w.rs:1:1\n     └╼ y at y.rs:1:1"
    );
    let mut v = Frame::new(loc("v", &("v.rs", 1, 1)));
    let _ = v.activate(&mut forest, Some(ir)).unwrap();
    let mut u = Frame::new(loc("u", &("u.rs", 1, 1)));
    let _ = u.activate(&mut forest, Some(ix)).unwrap();
    assert_eq!(
        Frame::fmt(&forest, ir, true),
        "╼ r at r.rs:1:1\n  ├╼ v at v.rs:1:1\n  ├╼ z at z.rs:1:1\n  └╼ x at x.rs:1:1\n     ├╼ u at u.rs:1:1\n     ├╼ w at w.rs:1:1\n     └╼ y at y.rs:1:1"
    );
    assert_eq!(Frame::fmt(&forest, ir, false), "╼ r at r.rs:1:1\n  └┈ [POLLING]");
}

#[test]
fn identical_leaves_counted() {
    let mut forest = Forest::new();
    let mut r = Frame::new(loc("r", &("r.rs", 1, 1)));
    let ir = r.activate(&mut forest, None).unwrap();
    let mut keep = Vec::new();
    for _ in 0..12 {
        let mut c = Frame::new(loc("c", &("c.rs", 5, 6)));
        let _ = c.activate(&mut forest, Some(ir)).unwrap();
        keep.push(c);
    }
    assert_eq!(Frame::fmt(&forest, ir, true), "╼ r at r.rs:1:1\n  └╼ 12x c at c.rs:5:6");
}

#[test]
fn traced_activates_its_frame() {
    let mut forest = Forest::new();
    let mut t = Traced::new(41u32, loc("t", &("t.rs", 1, 1)));
    assert_eq!(t.frame().parent(&forest), None);
    let id = t.activate(&mut forest, None).unwrap();
    *t.future_mut() += 1;
    assert_eq!(*t.future_mut(), 42);
    assert_eq!(t.frame().location().to_string(), "t at t.rs:1:1");
    Frame::deactivate(&mut forest, id);
    t.release(&mut forest);
    assert!(!forest.is_live(id));
}

#[test]
fn unattached_frame_renders_alone() {
    let forest = Forest::new();
    let f = Frame::new(loc("foo", &("a.rs", 1, 2)));
    assert_eq!(f.render(&forest, false), "╼ foo at a.rs:1:2\n  └┈ [POLLING]");
    assert_eq!(f.render(&forest, true), "╼ foo at a.rs:1:2");
}

#[test]
fn attached_frame_renders_its_tree() {
    let mut forest = Forest::new();
    let mut a = Frame::new(loc("a", &("a.rs", 1, 1)));
    let ia = a.activate(&mut forest, None).unwrap();
    let mut b = Frame::new(loc("b", &("b.rs", 2, 2)));
    let _ = b.activate(&mut forest, Some(ia)).unwrap();
    assert_eq!(a.render(&forest, true), "╼ a at a.rs:1:1\n  └╼ b at b.rs:2:2");
}

#[test]
fn run_among_other_siblings_counted() {
    let mut forest = Forest::new();
    let mut r = Frame::new(loc("r", &("r.rs", 1, 1)));
    let ir = r.activate(&mut forest, None).unwrap();
    let mut keep = Vec::new();
    let order: [(&'static str, &'static (&'static str, u32, u32)); 5] = [
        ("x", &("x.rs", 1, 1)),
        ("c", &("c.rs", 2, 2)),
        ("c", &("c.rs", 2, 2)),
        ("c", &("c.rs", 2, 2)),
        ("y", &("y.rs", 3, 3)),
    ];
    for (name, rest) in order {
        let mut f = Frame::new(loc(name, rest));
        let _ = f.activate(&mut forest, Some(ir)).unwrap();
        keep.push(f);
    }
    assert_eq!(
        Frame::fmt(&forest, ir, true),
        "╼ r at r.rs:1:1\n  ├╼ y at y.rs:3:3\n  ├╼ 3x c at c.rs:2:2\n  └╼ x at x.rs:1:1"
    );
}

#[test]
fn tasks_known_by_slot() {
    let mut forest = Forest::new();
    let mut a = Frame::new(loc("a", &("a.rs", 1, 1)));
    let ia = a.activate(&mut forest, None).unwrap();
    let mut b = Frame::new(loc("b", &("b.rs", 2, 2)));
    let ib = b.activate(&mut forest, Some(ia)).unwrap();
    assert!(forest.is_task(ia));
    assert!(!forest.is_task(ib));
    assert_eq!(tasks(&forest)[0].root_slot(), ia);
    b.release(&mut forest);
    Frame::deactivate(&mut forest, ia);
    a.release(&mut forest);
    assert!(!forest.is_task(ia));
    assert_eq!(taskdump_tree(&forest, false, None).ok(), Some(String::new()));
}

/// A frame polled inside the drop of another task's frame is attached below
/// it, and a dump from there draws the whole task.
#[test]
fn poll_in_drop() {
    let mut forest = Forest::new();
    let mut outer = Frame::new(loc(
        "poll_in_drop::poll_in_drop::outer<poll_in_drop::util::Defer<poll_in_drop::poll_in_drop::{{closure}}::{{closure}}, ()>>::{{closure}}",
        &("backtrace/tests/poll-in-drop.rs", 16, 5),
    ));
    let o = outer.activate(&mut forest, None).unwrap();
    let mut inner = Frame::new(loc(
        "poll_in_drop::poll_in_drop::inner::{{closure}}",
        &("backtrace/tests/poll-in-drop.rs", 21, 5),
    ));
    let i = inner.activate(&mut forest, Some(o)).unwrap();
    assert_eq!(inner.parent(&forest), Some(o));
    assert_eq!(tasks(&forest).len(), 1);
    let dump = taskdump_tree(&forest, true, Some(i)).unwrap();
    assert_eq!(
        dump,
        "\
╼ poll_in_drop::poll_in_drop::outer<poll_in_drop::util::Defer<poll_in_drop::poll_in_drop::{{closure}}::{{closure}}, ()>>::{{closure}} at backtrace/tests/poll-in-drop.rs:16:5
  └╼ poll_in_drop::poll_in_drop::inner::{{closure}} at backtrace/tests/poll-in-drop.rs:21:5"
    );
}

/// A dump requested while another task is being polled does not wait for
/// it: the task is drawn with a note that it is being polled.
#[test]
fn contention() {
    let mut forest = Forest::new();
    let mut outer = Frame::new(loc("contention::outer::{{closure}}", &("backtrace/tests/contention.rs", 21, 1)));
    let o = outer.activate(&mut forest, None).unwrap();
    assert_eq!(
        taskdump_tree(&forest, true, None).ok(),
        Some("╼ contention::outer::{{closure}} at backtrace/tests/contention.rs:21:1\n  └┈ [POLLING]".to_string())
    );
    Frame::deactivate(&mut forest, o);
    outer.release(&mut forest);
    assert_eq!(taskdump_tree(&forest, true, None).ok(), Some(String::new()));
}

/// A waiting dump stops at a busy task and resumes from it once it is idle,
/// keeping what it drew before.
#[test]
fn waiting_dump_resumes_at_busy_task() {
    let mut forest = Forest::new();
    let mut a = Frame::new(loc("a", &("a.rs", 1, 1)));
    let ia = a.activate(&mut forest, None).unwrap();
    let mut b = Frame::new(loc("b", &("b.rs", 2, 2)));
    let ib = b.activate(&mut forest, None).unwrap();
    let mut c = Frame::new(loc("c", &("c.rs", 3, 3)));
    let _ic = c.activate(&mut forest, Some(ib)).unwrap();
    Frame::deactivate(&mut forest, ia);
    let mut d = match taskdump_tree(&forest, false, None) {
        Ok(_) => panic!("task b is busy"),
        Err(d) => d,
    };
    assert_eq!(d.advance(&forest, true, None), Some(ib));
    Frame::deactivate(&mut forest, ib);
    assert_eq!(d.advance(&forest, true, None), None);
    let dump = d.finish();
    let mut parts: Vec<&str> = dump.split("\n╼").collect();
    parts.sort();
    assert_eq!(parts.len(), 2);
    let whole = taskdump_tree(&forest, false, None).unwrap();
    let mut whole_parts: Vec<&str> = whole.split("\n╼").collect();
    whole_parts.sort();
    assert_eq!(parts, whole_parts);
    assert!(dump.contains("╼ a at a.rs:1:1"));
    assert!(dump.contains(" b at b.rs:2:2\n  └╼ c at c.rs:3:3"));
}

/// A task that goes away while a dump waits is left out of it.
#[test]
fn waiting_dump_skips_finished_task() {
    let mut forest = Forest::new();
    let mut a = Frame::new(loc("a", &("a.rs", 1, 1)));
    let ia = a.activate(&mut forest, None).unwrap();
    let mut d = match taskdump_tree(&forest, false, None) {
        Ok(_) => panic!("task a is busy"),
        Err(d) => d,
    };
    Frame::deactivate(&mut forest, ia);
    a.release(&mut forest);
    assert_eq!(d.advance(&forest, true, None), None);
    assert_eq!(d.finish(), "");
}

/// Identical siblings deep inside a task are drawn once with their count.
#[test]
fn nested_identical_siblings_counted() {
    let mut forest = Forest::new();
    let mut r = Frame::new(loc("r", &("r.rs", 1, 1)));
    let ir = r.activate(&mut forest, None).unwrap();
    let mut x = Frame::new(loc("x", &("x.rs", 2, 2)));
    let ix = x.activate(&mut forest, Some(ir)).unwrap();
    let mut keep = Vec::new();
    for _ in 0..2 {
        let mut y = Frame::new(loc("y", &("y.rs", 3, 3)));
        let iy = y.activate(&mut forest, Some(ix)).unwrap();
        let mut z = Frame::new(loc("z", &("z.rs", 4, 4)));
        let _ = z.activate(&mut forest, Some(iy)).unwrap();
        keep.push(y);
        keep.push(z);
    }
    let mut w = Frame::new(loc("w", &("w.rs", 5, 5)));
    let _ = w.activate(&mut forest, Some(ix)).unwrap();
    assert_eq!(
        Frame::fmt(&forest, ir, true),
        "╼ r at r.rs:1:1\n  └╼ x at x.rs:2:2\n     ├╼ w at w.rs:5:5\n     └╼ 2x y at y.rs:3:3\n        └╼ z at z.rs:4:4"
    );
}

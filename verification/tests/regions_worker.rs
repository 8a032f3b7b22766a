//! Data regions, and the turns of the workers.

use sismo::data_regions::{parse_line, parse_text, DataRegions, Region};
use sismo::worker_sdk::{
    read_i32, read_u64, wait_for_setup, CaptureKind, Event, Launch, LaunchStep, Rest, Worker,
    WorkerAction,
};

fn label_of(line: &str) -> String {
    parse_line(line).unwrap().2
}

#[test]
fn file_backed_labeled_by_basename() {
    let (start, end, label) =
        parse_line("7f1234500000-7f1234600000 rw-p 00012000 fd:01 1234  /usr/lib/libc.so.6")
            .unwrap();
    assert_eq!(start, 0x7f1234500000);
    assert_eq!(end, 0x7f1234600000);
    assert_eq!(label, "libc.so.6");
}

#[test]
fn bracketed_regions_kept_verbatim() {
    assert_eq!(label_of("01d8c000-01dad000 rw-p 00000000 00:00 0  [heap]"), "[heap]");
    assert_eq!(label_of("7ffd00000000-7ffd00021000 rw-p 00000000 00:00 0  [stack]"), "[stack]");
}

#[test]
fn anonymous_mapping_labeled_anon() {
    assert_eq!(label_of("7f0000000000-7f0000021000 rw-p 00000000 00:00 0 "), "[anon]");
    assert_eq!(label_of("7f0000000000-7f0000021000 rw-p 00000000 00:00 0"), "[anon]");
}

#[test]
fn non_path_token_kept_verbatim() {
    assert_eq!(
        label_of("7f0000000000-7f0000021000 rw-s 00000000 00:05 1  anon_inode:[io_uring]"),
        "anon_inode:[io_uring]"
    );
}

#[test]
fn find_locates_containing_region() {
    let regions = DataRegions {
        regions: vec![
            Region { start: 0x1000, end: 0x2000, label: "[heap]".into() },
            Region { start: 0x5000, end: 0x6000, label: "libc.so.6".into() },
        ],
    };
    assert_eq!(regions.find(0x1500).map(|r| r.label.as_str()), Some("[heap]"));
    assert_eq!(regions.find(0x5fff).map(|r| r.label.as_str()), Some("libc.so.6"));
    assert!(regions.find(0x3000).is_none()); // hole
    assert!(regions.find(0x6000).is_none()); // end exclusive
}

#[test]
fn lines_that_are_no_regions_are_passed_over() {
    assert!(parse_line("no region").is_none());
    // A path may hold blanks; one that is gone is marked behind it.
    assert_eq!(label_of("7f00-7f10 r-xp 00000000 fd:01 77   /opt/my lib.so"), "my lib.so");
    assert_eq!(label_of("7f00-7f10 r-xp 00000000 fd:01 77 /opt/my dir/a b.so"), "a b.so");
    assert_eq!(label_of("7f00-7f10 r-xp 00000000 fd:01 77 /opt/old.so (deleted)"), "old.so");
    assert_eq!(label_of("7f00-7f10 rw-p 00000000 00:00 0 [anon:my pool]"), "[anon:my pool]");
    assert_eq!(label_of("7f00-7f10 rw-p 00000000 00:00 0 "), "[anon]");
    let all = parse_text("1000-2000 rw-p 0 00:00 0 [heap]\nbroken\n3000-4000 rw-p 0 00:00 0\n");
    assert_eq!(all.len(), 2);
    assert_eq!(all[1].label, "[anon]");
    assert!(DataRegions::parse(None).is_none());
    let r = DataRegions::parse(Some("1000-2000 rw-p 0 00:00 0 [heap]\n")).unwrap();
    assert_eq!(r.find(0x1000).unwrap().end, 0x2000);
}

#[test]
fn set_before_wait_is_not_lost() {
    let mut e = Event::new();
    e.set();
    assert!(e.wait()); // must return immediately
    e.reset();
    assert!(!e.wait());
}

#[test]
fn a_signaled_event_is_not_slept_on() {
    let mut e = Event::default();
    assert_eq!(e.wait_timeout(5), 5);
    e.set();
    assert_eq!(e.wait_timeout(5), 0);
    assert_eq!(wait_for_setup(&mut e, false, true), Some(true));
    assert_eq!(wait_for_setup(&mut e, true, false), Some(false));
    assert_eq!(wait_for_setup(&mut e, false, false), None);
}

#[test]
fn little_endian_reads() {
    let b = [1, 2, 0, 0, 0, 0, 0, 0, 0xff, 0xff, 0xff, 0xff];
    assert_eq!(read_u64(&b, 0), 0x201);
    assert_eq!(read_i32(&b, 8), -1);
}

#[test]
fn heap_worker_emits_before_it_answers() {
    let mut w = Worker::new();
    w.on_setup();
    w.on_start();
    w.on_flush(7);
    w.on_stop(9);
    let mut open = true;
    let turn = w.heap_turn(&mut open).unwrap();
    assert_eq!(
        turn,
        vec![
            WorkerAction::Drain,
            WorkerAction::Drain,
            WorkerAction::Emit,
            WorkerAction::FlushDone(7),
            WorkerAction::Detach,
            WorkerAction::Drain,
            WorkerAction::ReportDropped,
            WorkerAction::Emit,
            WorkerAction::StopDone(9),
        ]
    );
    assert!(!open);
    assert_eq!(w.rest(5), Rest::Block);
    // A second stop finds the target detached.
    w.on_stop(10);
    assert_eq!(
        w.heap_turn(&mut open).unwrap(),
        vec![
            WorkerAction::Drain,
            WorkerAction::ReportDropped,
            WorkerAction::Emit,
            WorkerAction::StopDone(10),
        ]
    );
    w.shutdown();
    assert!(w.heap_turn(&mut open).is_none());
    assert_eq!(w.rest(5), Rest::Exit);
}

#[test]
fn other_workers_answer_each_stop() {
    let mut w = Worker::new();
    w.on_start();
    assert_eq!(w.rest(5), Rest::Poll(5));
    w.on_stop(3);
    assert_eq!(w.cpu_turn().unwrap(), vec![WorkerAction::Drain, WorkerAction::StopDone(3)]);
    assert!(w.cpu_turn().unwrap().is_empty());
    w.on_start();
    w.on_stop(4);
    assert_eq!(
        w.sched_turn(false).unwrap(),
        vec![WorkerAction::Drain, WorkerAction::Drain, WorkerAction::StopDone(4)]
    );
    w.on_stop(5);
    assert_eq!(w.sched_turn(true).unwrap(), vec![WorkerAction::StopDone(5)]);
    w.on_stop(0);
    w.on_flush(6);
    assert_eq!(w.park_turn().unwrap(), vec![WorkerAction::FlushDone(6)]);
}

#[test]
fn a_heap_worker_comes_to_its_turns() {
    let mut l = Launch::new(CaptureKind::Heap);
    let mut steps = Vec::new();
    while l.step != LaunchStep::Main {
        steps.push(l.step);
        l.advance(true);
    }
    assert_eq!(
        steps,
        vec![
            LaunchStep::AwaitSetup,
            LaunchStep::ResolveTarget,
            LaunchStep::OpenTask,
            LaunchStep::CreateSymbolizer,
            LaunchStep::LoadModules,
            LaunchStep::CreateRing,
            LaunchStep::Attach,
        ]
    );
    l.advance(true);
    assert_eq!(l.step, LaunchStep::Leave);
}

#[test]
fn a_worker_that_cannot_capture_parks() {
    let mut l = Launch::new(CaptureKind::Cpu);
    l.advance(true);
    l.advance(true);
    l.advance(true);
    assert_eq!(l.step, LaunchStep::LoadModules);
    l.advance(false);
    assert_eq!(l.step, LaunchStep::Park);
    l.advance(true);
    assert_eq!(l.step, LaunchStep::Leave);

    let mut l = Launch::new(CaptureKind::Cpu);
    l.advance(false);
    assert_eq!(l.step, LaunchStep::Leave);
}

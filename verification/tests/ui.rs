use talon::{
    bold, classify_event, crash_text, cyan, dim, green, line_text, paint, red, segment,
    status_text, MonitorAction, MonitorEvent, TalonMonitor,
};

#[test]
fn colours_wrap_text_only_when_enabled() {
    assert_eq!(dim("x", true), "\x1b[2mx\x1b[0m");
    assert_eq!(bold("x", true), "\x1b[1mx\x1b[0m");
    assert_eq!(cyan("x", true), "\x1b[36mx\x1b[0m");
    assert_eq!(green("x", true), "\x1b[32mx\x1b[0m");
    assert_eq!(red("x", true), "\x1b[31mx\x1b[0m");
    assert_eq!(paint("<", "y", true), "<y\x1b[0m");
    for f in [dim, bold, cyan, green, red] {
        assert_eq!(f("plain", false), "plain");
    }
}

#[test]
fn segment_is_a_faint_labelled_field() {
    assert_eq!(segment("rate", "12/s", false), " · rate 12/s");
    assert_eq!(
        segment("rate", "12/s", true),
        " \x1b[2m·\x1b[0m \x1b[2mrate\x1b[0m 12/s"
    );
}

#[test]
fn full_line_clears_the_status_line_on_a_terminal() {
    assert_eq!(line_text("done", true), "\x1b[2K\rdone");
    assert_eq!(line_text("done", false), "done");
}

#[test]
fn status_line_lists_the_fields() {
    assert_eq!(
        status_text("0h-0m-3s", "1.2k", "400/sec", 5, 0, "", false),
        "▸ 0h-0m-3s · execs 1.2k · rate 400/sec · corpus 5 · obj 0"
    );
    assert_eq!(
        status_text("0h-0m-3s", "12", "4/sec", 17, 2, "3/65536", false),
        "▸ 0h-0m-3s · execs 12 · rate 4/sec · corpus 17 · obj 2 · sig 3/65536"
    );
    assert_eq!(
        status_text("t", "e", "r", 1, 2, "", true),
        "\x1b[36m▸\x1b[0m t \x1b[2m·\x1b[0m \x1b[2mexecs\x1b[0m e \x1b[2m·\x1b[0m \x1b[2mrate\x1b[0m r \x1b[2m·\x1b[0m \x1b[2mcorpus\x1b[0m 1 \x1b[2m·\x1b[0m \x1b[2mobj\x1b[0m 2"
    );
}

#[test]
fn crash_line_reports_time_execs_and_corpus() {
    assert_eq!(
        crash_text("0h-0m-4s", "1.5M", 12, false),
        "✓ crash found · 0h-0m-4s 1.5M execs, corpus 12"
    );
    assert_eq!(
        crash_text("t", "9", 0, true),
        "\x1b[32m✓ crash found\x1b[0m \x1b[2m·\x1b[0m t 9 execs, corpus 0"
    );
}

#[test]
fn events_are_sorted_by_name() {
    assert_eq!(classify_event("UserStats"), MonitorEvent::Status);
    assert_eq!(classify_event("Client Heartbeat"), MonitorEvent::Status);
    assert_eq!(classify_event("Objective"), MonitorEvent::Objective);
    assert_eq!(classify_event("Testcase"), MonitorEvent::Other);
    assert_eq!(classify_event("userstats"), MonitorEvent::Other);
    assert_eq!(classify_event(""), MonitorEvent::Other);
}

#[test]
fn status_lines_are_throttled() {
    let mut m = TalonMonitor::new();
    assert_eq!(m.display("UserStats", 1_000, true), MonitorAction::DrawStatus);
    assert_eq!(m.display("UserStats", 1_000 + 299_999_999, true), MonitorAction::Nothing);
    assert_eq!(m.display("Client Heartbeat", 1_000 + 300_000_000, true), MonitorAction::DrawStatus);
    assert_eq!(m.last_draw, Some(300_001_000));

    let mut p = TalonMonitor::new();
    assert_eq!(p.display("UserStats", 0, false), MonitorAction::DrawStatus);
    assert_eq!(p.display("UserStats", 1_999_999_999, false), MonitorAction::Nothing);
    assert_eq!(p.display("UserStats", 2_000_000_000, false), MonitorAction::DrawStatus);
}

#[test]
fn crashes_are_always_announced() {
    let mut m = TalonMonitor::new();
    assert_eq!(m.display("UserStats", 10, true), MonitorAction::DrawStatus);
    assert_eq!(m.display("Objective", 11, true), MonitorAction::DrawCrash);
    assert_eq!(m.display("Objective", 12, true), MonitorAction::DrawCrash);
    assert_eq!(m.display("Log", 13, true), MonitorAction::Nothing);
    assert_eq!(m.last_draw, Some(10));
}

#[test]
fn a_clock_that_goes_back_counts_as_no_time() {
    let mut m = TalonMonitor::new();
    assert_eq!(m.display("UserStats", 5_000_000_000, false), MonitorAction::DrawStatus);
    assert_eq!(m.display("UserStats", 1, false), MonitorAction::Nothing);
}

use benchman::{BenchMan, ResultSet};

#[test]
fn test_benchman_nested() {
    let benchman = BenchMan::new("nested");
    let mut _sum: u64 = 0;
    let sw1 = benchman.get_stopwatch("outer");
    for i in 0..1000 {
        let sw2 = benchman.get_stopwatch("inner");
        for j in 0..100000 {
            _sum += i * j;
        }
        sw2.stop();
    }
    sw1.stop();
    println!("{}", benchman.render());
}

#[test]
fn test_nested_scenario_slices() {
    let benchman = BenchMan::new("nested");
    let outer = benchman.get_stopwatch("outer");
    for _ in 0..1000 {
        let inner = benchman.get_stopwatch("inner");
        let mut _sum: u64 = 0;
        for j in 0..10 {
            _sum += j;
        }
        inner.stop();
    }
    let before = benchman.slice(&vec![String::from("inner"), String::from("outer")]);
    assert_eq!(before.sample_count(&String::from("inner")), Some(1000));
    assert_eq!(before.sample_count(&String::from("outer")), None);
    outer.stop();
    let after = benchman.slice(&vec![String::from("inner"), String::from("outer")]);
    assert_eq!(after.sample_count(&String::from("inner")), Some(1000));
    assert_eq!(after.sample_count(&String::from("outer")), Some(1));
}

#[test]
fn test_reserved_without_recording_is_suppressed() {
    let benchman = BenchMan::new("session");
    let _sw = benchman.get_stopwatch("pending");
    // The timer has not been stopped, so "pending" has zero samples and
    // must not appear in the report.
    assert_eq!(benchman.render(), "session\n");
}

#[test]
fn test_report_order_is_first_requested() {
    let benchman = BenchMan::new("order");
    let swb = benchman.get_stopwatch("bbb");
    let swa = benchman.get_stopwatch("aaa");
    let swc = benchman.get_stopwatch("ccc");
    // Completion order differs from request order.
    swc.stop();
    swa.stop();
    swb.stop();
    let report = benchman.render();
    let pb = report.find("bbb (").unwrap();
    let pa = report.find("aaa (").unwrap();
    let pc = report.find("ccc (").unwrap();
    assert!(pb < pa);
    assert!(pa < pc);
}

#[test]
fn test_many_timers_same_tag() {
    let benchman = BenchMan::new("many");
    // Overlapping timers for the same tag: every one records exactly once.
    for _ in 0..10 {
        let mut batch = Vec::new();
        for _ in 0..20 {
            batch.push(benchman.get_stopwatch("hot"));
        }
        for sw in batch {
            sw.stop();
        }
    }
    let view = benchman.slice(&vec![String::from("hot")]);
    assert_eq!(view.sample_count(&String::from("hot")), Some(200));
}

#[test]
fn test_clone_shares_registry() {
    let benchman = BenchMan::new("shared");
    let clone = benchman.clone();
    clone.get_stopwatch("tag").stop();
    let view = benchman.slice(&vec![String::from("tag")]);
    assert_eq!(view.sample_count(&String::from("tag")), Some(1));
}

#[test]
fn test_repeated_reservation_keeps_one_slot() {
    let benchman = BenchMan::new("dedup");
    benchman.get_stopwatch("x").stop();
    benchman.get_stopwatch("x").stop();
    let report = benchman.render();
    assert_eq!(report.matches("x (2 samples)").count(), 1);
    assert_eq!(report.matches("x (").count(), 1);
}

#[test]
fn test_registry_report_exact_text() {
    let mut rs = ResultSet::new();
    rs.reserve_tag(String::from("t"));
    rs.add_result(String::from("t"), 100);
    assert_eq!(
        rs.render_all(),
        "t (1 samples)\n[ave.] 100ns\n100ns (>50%), 100ns (>95%), 100ns (>99%)\n"
    );
}

#[test]
fn test_registry_records_without_reservation_stay_hidden() {
    let mut rs = ResultSet::new();
    rs.add_result(String::from("quiet"), 5);
    // The tag was never reserved, so the report order does not include it.
    assert_eq!(rs.render_all(), "");
    // But the samples are there.
    assert_eq!(rs.lookup(&String::from("quiet")).map(|b| b.n()), Some(1));
}

#[test]
fn test_slice_keeps_requested_order_and_omits_absent() {
    let benchman = BenchMan::new("sv");
    benchman.get_stopwatch("one").stop();
    benchman.get_stopwatch("two").stop();
    let view = benchman.slice(&vec![
        String::from("two"),
        String::from("missing"),
        String::from("one"),
    ]);
    let text = view.render();
    let p2 = text.find("two (").unwrap();
    let p1 = text.find("one (").unwrap();
    assert!(p2 < p1);
    assert!(text.find("missing").is_none());
    assert_eq!(view.sample_count(&String::from("missing")), None);
}

#[test]
fn test_synthetic_zero_elapsed_in_registry() {
    let mut rs = ResultSet::new();
    rs.reserve_tag(String::from("z"));
    rs.add_result(String::from("z"), 0);
    let report = rs.render_all();
    assert_eq!(report, "z (1 samples)\n[ave.] 0ns\n0ns (>50%), 0ns (>95%), 0ns (>99%)\n");
}

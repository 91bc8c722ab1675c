use edu_json_parser::StopWatch;

#[test]
fn test_measure_time() {
    let _sw = StopWatch::start("wow!");
    {
        let x = 1;
        let y = 1;
        let _ = x + y;
    }
}

#[test]
fn stopwatch_reports_its_name() {
    let sw = StopWatch::start("sorting");
    assert_eq!("sorting", sw.name());
    let _nanos = sw.elapsed_nanos();
}

use match_engine::measure::Measure;
use std::time::Instant;

#[test]
fn test_measure_display() {
    let measure = Measure { name: "test_ns", start: Instant::now(), duration: 1 };
    assert_eq!(measure.to_text(), "test_ns took 1ns");

    let measure = Measure { name: "test_us", start: Instant::now(), duration: 1000 };
    assert_eq!(measure.to_text(), "test_us took 1us");

    let measure = Measure { name: "test_ms", start: Instant::now(), duration: 1000 * 1000 };
    assert_eq!(measure.to_text(), "test_ms took 1ms");

    let measure = Measure {
        name: "test_s",
        start: Instant::now(),
        duration: 1000 * 1000 * 1000,
    };
    assert_eq!(measure.to_text(), "test_s took 1.0s");

    let measure = Measure::start("test_not_stopped");
    assert_eq!(measure.to_text(), "test_not_stopped running");
}

#[test]
fn test_measure_this() {
    let expected = 1;
    let (actual, _measure) = Measure::this(|x| x, expected, "test");
    assert_eq!(actual, expected);

    let (result, _measure) = Measure::this(|pair: (i32, i32)| pair.0 + pair.1, (1, 2), "test");
    assert_eq!(result, 1 + 2);

    let (result, measure) = Measure::this(|x: u64| x * x, 5, "test");
    assert_eq!(result, 25);
    assert_eq!(measure.name, "test");
}

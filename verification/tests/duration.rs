use radiosity::duration::{format_human_duration, Duration};

fn shown(secs: u64, nanos: u32) -> String {
    format_human_duration(Duration { secs, nanos })
}

fn with_floats(secs: u64, nanos: u32) -> String {
    let d = std::time::Duration::new(secs, nanos);
    let us = d.as_micros();
    if us < 1_000 {
        format!("{us}µs")
    } else if us < 1_000_000 {
        format!("{:.2}ms", us as f64 / 1_000.0)
    } else {
        format!("{:.2}s", d.as_secs_f64())
    }
}

#[test]
fn microseconds() {
    assert_eq!(shown(0, 0), "0µs");
    assert_eq!(shown(0, 999), "0µs");
    assert_eq!(shown(0, 1_000), "1µs");
    assert_eq!(shown(0, 999_999), "999µs");
}

#[test]
fn milliseconds() {
    assert_eq!(shown(0, 1_000_000), "1.00ms");
    assert_eq!(shown(0, 1_500_000), "1.50ms");
    assert_eq!(shown(0, 12_345_678), "12.35ms");
    assert_eq!(shown(0, 1_005_000), "1.00ms");
    assert_eq!(shown(0, 1_125_000), "1.12ms");
    assert_eq!(shown(0, 999_999_999), "1000.00ms");
}

#[test]
fn seconds() {
    assert_eq!(shown(1, 0), "1.00s");
    assert_eq!(shown(1, 5_000_000), "1.00s");
    assert_eq!(shown(1, 125_000_000), "1.12s");
    assert_eq!(shown(2, 345_678_901), "2.35s");
    assert_eq!(shown(59, 999_999_999), "60.00s");
}

#[test]
fn minutes() {
    assert_eq!(shown(60, 0), "1m 0s");
    assert_eq!(shown(61, 999_999_999), "1m 1s");
    assert_eq!(shown(3_599, 0), "59m 59s");
}

#[test]
fn hours() {
    assert_eq!(shown(3_600, 0), "1h 0m");
    assert_eq!(shown(7_384, 0), "2h 3m");
    assert_eq!(shown(360_000, 0), "100h 0m");
    assert_eq!(shown(u64::MAX, 999_999_999), "5124095576030431h 0m");
}

#[test]
fn all_microseconds_below_a_second() {
    for us in 0..1_000_000u32 {
        assert_eq!(shown(0, us * 1_000), with_floats(0, us * 1_000));
    }
}

#[test]
fn seconds_as_floats_show_them() {
    for secs in 1..60u64 {
        for step in 0..2_000u32 {
            let nanos = step * 500_000;
            assert_eq!(shown(secs, nanos), with_floats(secs, nanos));
            let odd = (step * 499_979 + 77) % 1_000_000_000;
            assert_eq!(shown(secs, odd), with_floats(secs, odd));
        }
        for hundredth in 0..100u32 {
            let half = hundredth * 10_000_000 + 5_000_000;
            for nanos in half - 3..=half + 3 {
                assert_eq!(shown(secs, nanos), with_floats(secs, nanos));
            }
        }
    }
}

#[test]
fn millis_are_shown_to_the_nearest_hundredth() {
    for us in [1_000u32, 1_004, 1_005, 1_006, 500_000, 999_994] {
        let text = shown(0, us * 1_000);
        let hundredths: i64 = text.trim_end_matches("ms").replace('.', "").parse().unwrap();
        assert!((10 * hundredths - us as i64).abs() <= 5);
    }
}

#[test]
fn seconds_are_shown_to_the_nearest_hundredth() {
    for nanos in [0u32, 4_999_999, 5_000_000, 5_000_001, 994_999_999, 999_999_999] {
        let text = shown(31, nanos);
        let hundredths: i64 = text.trim_end_matches('s').replace('.', "").parse().unwrap();
        assert!((10_000_000 * hundredths - 31_000_000_000 - nanos as i64).abs() <= 5_000_000);
    }
}

#[test]
fn durations_from_nanoseconds() {
    let d = Duration::from_nanos(1_234_567_890);
    assert_eq!((d.secs, d.nanos), (1, 234_567_890));
    assert_eq!(d.as_micros(), 1_234_567);
    assert_eq!(Duration::from_nanos(u64::MAX).as_micros(), 18_446_744_073_709_551);
}

use hpc_inferno::{format_duration, Args};

#[test]
fn test_format_duration_zero() {
    assert_eq!(format_duration(0), "00:00:00");
}

#[test]
fn test_format_duration_seconds() {
    assert_eq!(format_duration(45), "00:00:45");
}

#[test]
fn test_format_duration_minutes() {
    assert_eq!(format_duration(125), "00:02:05");
}

#[test]
fn test_format_duration_hours() {
    assert_eq!(format_duration(3661), "01:01:01");
}

#[test]
fn test_format_duration_full_day() {
    assert_eq!(format_duration(86400), "24:00:00");
}

#[test]
fn test_format_duration_large() {
    assert_eq!(format_duration(90061), "25:01:01");
}

#[test]
fn test_args_default_values() {
    let args = Args {
        hours: 36,
        threads: 4,
        memory_mb: 512,
        verbose: false,
    };
    assert_eq!(args.hours, 36);
    assert_eq!(args.memory_mb, 512);
    assert!(!args.verbose);
}

#[test]
fn test_args_custom_values() {
    let args = Args {
        hours: 12,
        threads: 8,
        memory_mb: 1024,
        verbose: true,
    };
    assert_eq!(args.hours, 12);
    assert_eq!(args.threads, 8);
    assert_eq!(args.memory_mb, 1024);
    assert!(args.verbose);
}

use hpc_inferno::{format_duration, Args};

#[test]
fn test_integration_args_parsing() {
    let args = Args {
        hours: 36,
        threads: 4,
        memory_mb: 512,
        verbose: false,
    };
    assert_eq!(args.hours, 36);
    assert_eq!(args.threads, 4);
    assert_eq!(args.memory_mb, 512);
    assert!(!args.verbose);
}

#[test]
fn test_integration_custom_args() {
    let args = Args {
        hours: 6,
        threads: 2,
        memory_mb: 256,
        verbose: true,
    };
    assert_eq!(args.hours, 6);
    assert_eq!(args.threads, 2);
    assert_eq!(args.memory_mb, 256);
    assert!(args.verbose);
}

#[test]
fn test_integration_format_duration() {
    assert_eq!(format_duration(0), "00:00:00");
    assert_eq!(format_duration(59), "00:00:59");
    assert_eq!(format_duration(60), "00:01:00");
    assert_eq!(format_duration(3600), "01:00:00");
    assert_eq!(format_duration(3661), "01:01:01");
    assert_eq!(format_duration(86400), "24:00:00");
}

#[test]
fn test_integration_edge_cases() {
    assert_eq!(format_duration(1), "00:00:01");
    assert_eq!(format_duration(59), "00:00:59");
    assert_eq!(format_duration(60), "00:01:00");
    assert_eq!(format_duration(61), "00:01:01");
    assert_eq!(format_duration(3599), "00:59:59");
    assert_eq!(format_duration(3600), "01:00:00");
}

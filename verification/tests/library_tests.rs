use hpc_inferno::args::Args;
use hpc_inferno::duration::format_duration;
use hpc_inferno::memtest::{
    block_checksum, check_block, count_mismatches, fill_pattern, fill_random, invert_block,
    invert_block_at, new_pattern_block, pattern_for_chunk, zero_block, zero_block_at,
    MemoryStress, CHUNK_SIZE,
};
use hpc_inferno::monitor::{Monitor, TickAction};
use hpc_inferno::rng::{cpu_worker_rng, fill_words, SimpleRng};
use hpc_inferno::sysinfo::{cpu_times, get_memory_info, parse_millidegrees};
use hpc_inferno::text::{chars_of, parse_i32, parse_u32, parse_u64, split_whitespace, trim_bounds};
use std::sync::atomic::AtomicBool;

fn argv(words: &[&str]) -> Vec<String> {
    words.iter().map(|w| w.to_string()).collect()
}

fn chars(s: &str) -> Vec<char> {
    s.chars().collect()
}

#[test]
fn rng_first_draws_follow_the_recurrence() {
    let mut rng = SimpleRng::new(0);
    let mut state: u64 = 0x5DEECE66D;
    for _ in 0..5 {
        state = state.wrapping_mul(6364136223846793005).wrapping_add(1);
        assert_eq!(rng.next(), state);
    }
    let mut a = SimpleRng::new(42);
    let mut b = SimpleRng::new(42);
    for _ in 0..10 {
        assert_eq!(a.gen_u64(), b.gen_u64());
    }
}

#[test]
fn rng_exact_first_value() {
    let mut rng = SimpleRng::new(1);
    let expected = (1u64 + 0x5DEECE66D)
        .wrapping_mul(6364136223846793005)
        .wrapping_add(1);
    assert_eq!(rng.gen_u64(), expected);
}

#[test]
fn rng_unit_floats_lie_in_zero_one() {
    let mut rng = SimpleRng::new(7);
    for _ in 0..1000 {
        let bits = rng.gen_f64_bits();
        assert_eq!(bits >> 52, 0x3FF);
        let x = f64::from_bits(bits) - 1.0;
        assert!((0.0..1.0).contains(&x));
    }
}

#[test]
fn rng_cpu_worker_seed() {
    let mut a = cpu_worker_rng(3);
    let mut b = SimpleRng::new(3u64 ^ 0x5DEECE66D);
    assert_eq!(a.gen_u64(), b.gen_u64());
}

#[test]
fn rng_fill_words_draws_in_order() {
    let mut rng = SimpleRng::new(9);
    let mut reference = SimpleRng::new(9);
    let mut data = vec![0u64; 16];
    fill_words(&mut data, &mut rng);
    for w in data.iter() {
        assert_eq!(*w, reference.gen_u64());
    }
    assert_eq!(rng.gen_u64(), reference.gen_u64());
}

#[test]
fn duration_past_99_hours() {
    assert_eq!(format_duration(360000), "100:00:00");
    assert_eq!(format_duration(359999), "99:59:59");
    assert_eq!(format_duration(u64::MAX), "5124095576030431:00:15");
}

#[test]
fn duration_reads_back() {
    for secs in [0u64, 1, 59, 61, 3599, 3601, 86399, 123456789] {
        let text = format_duration(secs);
        let fields: Vec<u64> = text.split(':').map(|f| f.parse().unwrap()).collect();
        assert_eq!(fields.len(), 3);
        assert!(fields[1] < 60 && fields[2] < 60);
        assert_eq!(fields[0] * 3600 + fields[1] * 60 + fields[2], secs);
    }
}

#[test]
fn text_parsing_follows_from_str() {
    assert_eq!(parse_u32(&chars("42")), Some(42));
    assert_eq!(parse_u32(&chars("+42")), Some(42));
    assert_eq!(parse_u32(&chars("+")), None);
    assert_eq!(parse_u32(&chars("")), None);
    assert_eq!(parse_u32(&chars("-1")), None);
    assert_eq!(parse_u32(&chars("4294967295")), Some(u32::MAX));
    assert_eq!(parse_u32(&chars("4294967296")), None);
    assert_eq!(parse_u32(&chars("12a")), None);
    assert_eq!(parse_u32(&chars(" 1")), None);
    assert_eq!(parse_u64(&chars("18446744073709551615")), Some(u64::MAX));
    assert_eq!(parse_u64(&chars("18446744073709551616")), None);
    assert_eq!(parse_i32(&chars("-2147483648")), Some(i32::MIN));
    assert_eq!(parse_i32(&chars("-2147483649")), None);
    assert_eq!(parse_i32(&chars("2147483647")), Some(i32::MAX));
    assert_eq!(parse_i32(&chars("2147483648")), None);
    assert_eq!(parse_i32(&chars("-")), None);
    assert_eq!(parse_i32(&chars("+7")), Some(7));
    for s in ["0", "007", "+9", "-3", "x", "", "99999999999", "1_0"] {
        assert_eq!(parse_i32(&chars(s)), s.parse::<i32>().ok());
        assert_eq!(parse_u32(&chars(s)), s.parse::<u32>().ok());
    }
}

#[test]
fn text_words_and_trim() {
    let words = split_whitespace(&chars("  MemTotal:\t 16 kB\r\n"));
    let words: Vec<String> = words.iter().map(|w| w.iter().collect()).collect();
    assert_eq!(words, vec!["MemTotal:", "16", "kB"]);
    assert!(split_whitespace(&chars(" \u{3000}\u{a0} ")).is_empty());
    let s = chars("\u{2003} 45000\n");
    let (lo, hi) = trim_bounds(&s);
    let t: String = s[lo..hi].iter().collect();
    assert_eq!(t, "45000");
    assert_eq!(chars_of("héllo"), chars("héllo"));
}

#[test]
fn args_defaults() {
    let a = Args::parse(&argv(&["hpc-inferno"]));
    assert_eq!((a.hours, a.threads, a.memory_mb, a.verbose), (36, 4, 512, false));
    let a = Args::parse(&argv(&[]));
    assert_eq!((a.hours, a.threads, a.memory_mb, a.verbose), (36, 4, 512, false));
}

#[test]
fn args_options() {
    let a = Args::parse(&argv(&[
        "prog", "--hours", "1", "--threads", "8", "--memory-mb", "16", "--verbose",
    ]));
    assert_eq!((a.hours, a.threads, a.memory_mb, a.verbose), (1, 8, 16, true));
}

#[test]
fn args_unreadable_values_fall_back() {
    let a = Args::parse(&argv(&["prog", "--hours", "x", "--threads", "-2", "--memory-mb", ""]));
    assert_eq!((a.hours, a.threads, a.memory_mb), (36, 4, 512));
    let a = Args::parse(&argv(&["prog", "--threads", "2", "--threads", "zz"]));
    assert_eq!(a.threads, 4);
}

#[test]
fn args_value_is_the_next_word_whatever_it_is() {
    let a = Args::parse(&argv(&["prog", "--hours", "--verbose"]));
    assert_eq!(a.hours, 36);
    assert!(!a.verbose);
    let a = Args::parse(&argv(&["prog", "--verbose", "--hours"]));
    assert!(a.verbose);
    assert_eq!(a.hours, 36);
    let a = Args::parse(&argv(&["prog", "extra", "--hours", "2", "--hours", "5", "junk"]));
    assert_eq!(a.hours, 5);
}

#[test]
fn memory_info_from_meminfo() {
    let text = "MemTotal:       16384 kB\nMemFree:  100 kB\nMemAvailable:    4096 kB\n";
    assert_eq!(get_memory_info(text), Some(((16384 - 4096) * 1024, 16384 * 1024)));
    assert_eq!(get_memory_info(""), Some((0, 0)));
    assert_eq!(get_memory_info("MemAvailable: 10 kB\nMemTotal: 4 kB"), Some((0, 4096)));
    assert_eq!(get_memory_info("MemTotal:: x kB\nMemTotal\n"), Some((0, 0)));
    assert_eq!(get_memory_info("MemTotal: 18014398509481984 kB"), None);
    assert_eq!(
        get_memory_info("MemTotal: 18014398509481983 kB"),
        Some((18014398509481983 * 1024, 18014398509481983 * 1024))
    );
    assert_eq!(get_memory_info("memtotal: 5\nMemTotal 7"), Some((7168, 7168)));
}

#[test]
fn cpu_times_from_proc_stat() {
    let text = "cpu  10 20 30 40 50 60\ncpu0 1 2 3 4\n";
    assert_eq!(cpu_times(text), Some((60, 100)));
    assert_eq!(cpu_times("cpu 1 2 3\n9 9 9 9 9"), Some((0, 0)));
    assert_eq!(cpu_times(""), Some((0, 0)));
    assert_eq!(cpu_times("cpu x 2 3 4"), Some((5, 9)));
    assert_eq!(cpu_times("cpu 18446744073709551615 1 0 0"), None);
}

#[test]
fn thermal_readings() {
    assert_eq!(parse_millidegrees("45000\n"), Some(45000));
    assert_eq!(parse_millidegrees("  -5000 "), Some(-5000));
    assert_eq!(parse_millidegrees("N/A"), None);
    assert_eq!(parse_millidegrees(""), None);
    assert_eq!(parse_millidegrees("4 5"), None);
}

#[test]
fn memory_patterns() {
    assert_eq!(
        (0..6).map(pattern_for_chunk).collect::<Vec<u8>>(),
        vec![0xAA, 0x55, 0xFF, 0x00, 0xAA, 0x55]
    );
    let mut block = vec![7u8; 5];
    fill_pattern(&mut block, 0xAA);
    assert_eq!(block, vec![0xAA, 0x55, 0xAA, 0x55, 0xAA]);
    fill_pattern(&mut block, 0xFF);
    assert_eq!(block, vec![0xFF; 5]);
    invert_block(&mut block);
    assert_eq!(block, vec![0x00; 5]);
    let mut b = vec![1u8, 2, 200];
    invert_block(&mut b);
    assert_eq!(b, vec![254, 253, 55]);
    invert_block(&mut b);
    assert_eq!(b, vec![1, 2, 200]);
    zero_block(&mut b);
    assert_eq!(b, vec![0, 0, 0]);
}

#[test]
fn memory_random_fill_and_checksum() {
    let mut rng = SimpleRng::new(5);
    let mut reference = SimpleRng::new(5);
    let mut block = vec![0u8; 64];
    fill_random(&mut block, &mut rng);
    for b in block.iter() {
        assert_eq!(*b, reference.gen_u64() as u8);
    }
    assert_eq!(block_checksum(&vec![1u8, 2, 3]), 1 + 4 + 9);
    assert_eq!(block_checksum(&vec![]), 0);
    let mut expected = SimpleRng::new(5);
    assert_eq!(count_mismatches(&block, &mut expected), 0);
    assert_eq!(expected.gen_u64(), reference.gen_u64());
    block[3] ^= 1;
    block[10] = !block[10];
    let mut expected = SimpleRng::new(5);
    assert_eq!(count_mismatches(&block, &mut expected), 2);
    let mut wrong = SimpleRng::new(6);
    assert!(count_mismatches(&block, &mut wrong) > 50);
}

#[test]
fn memory_block_steps() {
    let block = new_pattern_block(1);
    assert_eq!(block.len(), CHUNK_SIZE);
    assert_eq!(&block[..4], &[0x55, 0xAA, 0x55, 0xAA]);
    assert!(new_pattern_block(2).iter().all(|b| *b == 0xFF));

    let mut m = MemoryStress::new(2).unwrap();
    let mut blocks: Vec<Vec<u8>> = Vec::new();
    assert!(!m.fill_next_block(&mut blocks, false));
    assert!(blocks.is_empty());
    assert!(m.fill_next_block(&mut blocks, true));
    assert!(m.fill_next_block(&mut blocks, true));
    assert!(!m.fill_next_block(&mut blocks, true));
    assert_eq!(blocks.len(), 2);

    let mut reference = SimpleRng::new(0xABCD1234u64 ^ 2);
    for block in blocks.iter() {
        for b in block.iter() {
            assert_eq!(*b, reference.gen_u64() as u8);
        }
    }

    let mut expected = SimpleRng::new(0xABCD1234u64 ^ 2);
    let first = check_block(&blocks, 0, &mut expected, true).unwrap();
    assert_eq!(first, (block_checksum(&blocks[0]), 0));
    assert_eq!(check_block(&blocks, 1, &mut expected, true).unwrap().1, 0);
    assert_eq!(check_block(&blocks, 2, &mut expected, true), None);
    assert_eq!(check_block(&blocks, 0, &mut expected, false), None);

    let original = blocks[0].clone();
    assert!(!invert_block_at(&mut blocks, 0, false));
    assert_eq!(blocks[0], original);
    assert!(invert_block_at(&mut blocks, 0, true));
    assert!(blocks[0].iter().zip(original.iter()).all(|(a, b)| *a == !*b));
    assert!(!invert_block_at(&mut blocks, 5, true));
    assert!(zero_block_at(&mut blocks, 1, true));
    assert!(blocks[1].iter().all(|b| *b == 0));
    assert!(!zero_block_at(&mut blocks, 0, false));
    assert_eq!(blocks[0].len(), CHUNK_SIZE);
}

#[test]
fn memory_stress_iterations() {
    assert!(MemoryStress::new(usize::MAX).is_none());
    let running = AtomicBool::new(true);
    let mut m = MemoryStress::new(1).unwrap();
    for i in 1..=10u64 {
        let report = m.run_iteration(&running);
        assert_eq!(report, i == 10);
        assert_eq!(m.iteration(), i);
        assert_eq!(m.total_errors(), 0);
    }
    let stopped = AtomicBool::new(false);
    let mut idle = MemoryStress::new(0).unwrap();
    assert!(!idle.run_iteration(&stopped));
    assert_eq!(idle.iteration(), 1);
    assert_eq!(CHUNK_SIZE, 1 << 20);
}

#[test]
fn monitor_reports_every_minute_and_completes() {
    let mut m = Monitor::new(1);
    assert_eq!(m.target_secs(), 3600);
    assert_eq!(m.tick(1, 1), TickAction::Report);
    assert_eq!(m.tick(2, 1), TickAction::Wait);
    assert_eq!(m.tick(60, 59), TickAction::Wait);
    assert_eq!(m.tick(61, 60), TickAction::Report);
    assert_eq!(m.tick(3600, 60), TickAction::Complete);
    let mut zero = Monitor::new(0);
    assert_eq!(zero.tick(1, 1), TickAction::Complete);
}

#[test]
fn args_laws_on_examples() {
    let base = ["prog", "--threads", "3", "--verbose"];
    let a = Args::parse(&argv(&base));
    let b = Args::parse(&argv(&["other-name", "--threads", "3", "--verbose"]));
    assert_eq!((a.hours, a.threads, a.memory_mb, a.verbose), (b.hours, b.threads, b.memory_mb, b.verbose));
    let c = Args::parse(&argv(&["prog", "--threads", "3", "unknown", "--verbose"]));
    assert_eq!((a.hours, a.threads, a.memory_mb, a.verbose), (c.hours, c.threads, c.memory_mb, c.verbose));
    let d = Args::parse(&argv(&["prog", "--threads", "3", "--verbose", "--memory-mb"]));
    assert_eq!((a.hours, a.threads, a.memory_mb, a.verbose), (d.hours, d.threads, d.memory_mb, d.verbose));
    let e = Args::parse(&argv(&["prog", "--threads", "3", "--verbose", "--threads", "9"]));
    assert_eq!((e.hours, e.threads, e.memory_mb, e.verbose), (36, 9, 512, true));
}

#[test]
fn meminfo_laws_on_examples() {
    let base = "MemTotal: 100 kB\nMemAvailable: 40 kB";
    let noisy = "MemTotal: 100 kB\nSwapTotal: 7 kB\n\nMemAvailable: 40 kB\nlonely";
    assert_eq!(get_memory_info(base), get_memory_info(noisy));
    assert_eq!(get_memory_info("MemTotal: 100 kB\nMemFree: 3 kB"), Some((102400, 102400)));
}

use bnc::config::{
    data_list, format_unique_path, gen_data_dir, set_data_dir, to_decimal, try_twice, unique_path,
    DataDir, Verdict, BNC_META_NAME, DEFAULT_DATA_DIR,
};
use bnc::Error;

#[test]
fn data_dir_is_set_once() {
    let mut cfg = DataDir::new();
    assert_eq!(set_data_dir(&mut cfg, "/var/data"), Ok(()));
    assert_eq!(set_data_dir(&mut cfg, "/elsewhere"), Err(Error::Initialization));
    assert_eq!(set_data_dir(&mut cfg, "/var/data"), Err(Error::Initialization));
    assert_eq!(gen_data_dir(&mut cfg, Some("/from/env")), "/var/data");
}

#[test]
fn data_dir_falls_back_to_the_environment_then_the_default() {
    let mut cfg = DataDir::new();
    assert_eq!(gen_data_dir(&mut cfg, Some("/from/env")), "/from/env");
    let mut cfg = DataDir::new();
    assert_eq!(gen_data_dir(&mut cfg, None), "/tmp/.bnc");
    assert_eq!(DEFAULT_DATA_DIR, "/tmp/.bnc");
}

#[test]
fn empty_data_dir_counts_as_none() {
    let mut cfg = DataDir::new();
    assert_eq!(set_data_dir(&mut cfg, ""), Ok(()));
    assert_eq!(gen_data_dir(&mut cfg, Some("/from/env")), "/from/env");
    assert_eq!(set_data_dir(&mut cfg, "/late"), Err(Error::Initialization));
}

#[test]
fn data_dir_cannot_be_set_after_first_use() {
    let mut cfg = DataDir::new();
    assert_eq!(gen_data_dir(&mut cfg, None), "/tmp/.bnc");
    assert_eq!(set_data_dir(&mut cfg, "/late"), Err(Error::Initialization));
    assert_eq!(gen_data_dir(&mut cfg, Some("/from/env")), "/tmp/.bnc");
}

#[test]
fn partitions_live_in_numbered_directories() {
    let dirs = data_list("/tmp/.bnc");
    let want: Vec<String> = (0..8).map(|i| format!("/tmp/.bnc/{}", i)).collect();
    assert_eq!(dirs, want);
}

#[test]
fn numerals_are_decimal() {
    assert_eq!(to_decimal(0), "0");
    assert_eq!(to_decimal(7), "7");
    assert_eq!(to_decimal(10), "10");
    assert_eq!(to_decimal(1234567890), "1234567890");
    assert_eq!(to_decimal(u64::MAX), "18446744073709551615");
}

#[test]
fn a_failed_opening_is_tried_once_more() {
    assert!(matches!(try_twice::<u8, &str>(true, Ok(1)), Verdict::Done(1)));
    assert!(matches!(try_twice::<u8, &str>(false, Ok(2)), Verdict::Done(2)));
    assert!(matches!(try_twice::<u8, &str>(true, Err("busy")), Verdict::Again("busy")));
    assert!(matches!(try_twice::<u8, &str>(false, Err("busy")), Verdict::Fatal("busy")));
}

#[test]
fn made_up_paths_name_time_place_and_nonce() {
    assert_eq!(BNC_META_NAME, "__extra_meta__");
    assert_eq!(
        format_unique_path(1700000000, "src/main.rs", 12, 5, 4242),
        "__extra_meta__/1700000000/src/main.rs_12_5_4242"
    );
    let p = unique_path(9, "f.rs", 1, 2);
    let rest = p.strip_prefix("__extra_meta__/9/f.rs_1_2_").unwrap();
    assert!(rest.parse::<u32>().is_ok());
    let mut seen = std::collections::HashSet::new();
    for _ in 0..64 {
        seen.insert(unique_path(9, "f.rs", 1, 2));
    }
    assert!(seen.len() > 1);
}

use bip39::Mnemonic;
use rand::prelude::SliceRandom;
use rand::seq::IteratorRandom;
use rand::Rng;
use sskr_bytewords::recover::recover;
use sskr_bytewords::split::split_random_phrase;

const TEST_ITERATIONS: usize = 1000;

fn ensure_recoverable(expected: &Mnemonic, shares: Vec<String>) {
    let recovered = recover(shares, &false).unwrap();
    assert_eq!(recovered.phrase(), expected.phrase());
}

fn ensure_unrecoverable(shares: Vec<String>) {
    let recovered = recover(shares, &false);
    assert!(recovered.is_err());
}

fn gen_random_params() -> (String, Vec<(usize, usize)>, usize) {
    let total_groups = rand::thread_rng().gen_range(1..=16);
    let group_threshold = rand::thread_rng().gen_range(1..=total_groups);
    let sizes: Vec<(usize, usize)> = (0..total_groups)
        .map(|_| {
            let n = rand::thread_rng().gen_range(1..=16);
            let m = if n == 1 { 1 } else { rand::thread_rng().gen_range(2..=n) };
            (m, n)
        })
        .collect();
    let spec = sizes
        .iter()
        .map(|(m, n)| format!("{}of{}", m, n))
        .collect::<Vec<String>>()
        .join(",");
    (spec, sizes, group_threshold)
}

#[test]
fn test_roundtrip_all_full_groups() {
    for _ in 0..TEST_ITERATIONS {
        let (spec, _sizes, group_threshold) = gen_random_params();
        let (mnemonic, groups) = split_random_phrase(&spec, group_threshold, &false).unwrap();
        ensure_recoverable(&mnemonic, groups.into_iter().flatten().collect());
    }
}

#[test]
fn test_roundtrip_all_sufficient_groups() {
    for _ in 0..TEST_ITERATIONS {
        let (spec, sizes, group_threshold) = gen_random_params();
        let (mnemonic, groups) = split_random_phrase(&spec, group_threshold, &false).unwrap();
        ensure_recoverable(
            &mnemonic,
            groups
                .into_iter()
                .zip(sizes.into_iter())
                .map(|(group, (m, _n))| group.into_iter().choose_multiple(&mut rand::thread_rng(), m))
                .flatten()
                .collect(),
        );
    }
}

#[test]
fn test_roundtrip_all_insufficient_groups() {
    for _ in 0..TEST_ITERATIONS {
        let (spec, sizes, group_threshold) = gen_random_params();
        let (_mnemonic, groups) = split_random_phrase(&spec, group_threshold, &false).unwrap();
        let mut shares: Vec<String> = groups
            .into_iter()
            .zip(sizes.into_iter())
            .map(|(group, (m, _n))| group.into_iter().choose_multiple(&mut rand::thread_rng(), m - 1))
            .flatten()
            .collect();
        if shares.len() == 0 {
            continue;
        }
        shares.shuffle(&mut rand::thread_rng());
        ensure_unrecoverable(shares);
    }
}

#[test]
fn test_roundtrip_enough_full_groups() {
    for _ in 0..TEST_ITERATIONS {
        let (spec, _sizes, group_threshold) = gen_random_params();
        let (mnemonic, groups) = split_random_phrase(&spec, group_threshold, &false).unwrap();
        ensure_recoverable(
            &mnemonic,
            groups
                .into_iter()
                .choose_multiple(&mut rand::thread_rng(), group_threshold)
                .into_iter()
                .flatten()
                .collect(),
        );
    }
}

#[test]
fn test_roundtrip_enough_sufficient_groups() {
    for _ in 0..TEST_ITERATIONS {
        let (spec, sizes, group_threshold) = gen_random_params();
        let (mnemonic, groups) = split_random_phrase(&spec, group_threshold, &false).unwrap();
        let mut shares: Vec<String> = groups
            .into_iter()
            .zip(sizes.into_iter())
            .map(|(group, (m, _n))| group.into_iter().choose_multiple(&mut rand::thread_rng(), m))
            .choose_multiple(&mut rand::thread_rng(), group_threshold)
            .into_iter()
            .flatten()
            .collect();
        shares.shuffle(&mut rand::thread_rng());
        ensure_recoverable(&mnemonic, shares);
    }
}

#[test]
fn test_roundtrip_enough_sufficient_groups_minus_one() {
    for _ in 0..TEST_ITERATIONS {
        let (spec, sizes, group_threshold) = gen_random_params();
        let (_mnemonic, groups) = split_random_phrase(&spec, group_threshold, &false).unwrap();
        let mut shares = groups
            .into_iter()
            .zip(sizes.into_iter())
            .map(|(group, (m, _n))| group.into_iter().choose_multiple(&mut rand::thread_rng(), m))
            .choose_multiple(&mut rand::thread_rng(), group_threshold)
            .into_iter()
            .flatten()
            .collect::<Vec<String>>();
        if shares.len() == 1 {
            continue;
        }
        shares.shuffle(&mut rand::thread_rng());
        ensure_unrecoverable(shares.split_last().unwrap().1.to_vec());
    }
}

#[test]
fn test_roundtrip_enough_insufficient_groups() {
    for _ in 0..TEST_ITERATIONS {
        let (spec, sizes, group_threshold) = gen_random_params();
        let (_mnemonic, groups) = split_random_phrase(&spec, group_threshold, &false).unwrap();
        let mut shares: Vec<String> = groups
            .into_iter()
            .zip(sizes.into_iter())
            .map(|(group, (m, _n))| group.into_iter().choose_multiple(&mut rand::thread_rng(), m - 1))
            .choose_multiple(&mut rand::thread_rng(), group_threshold)
            .into_iter()
            .flatten()
            .collect();
        if shares.len() == 0 {
            continue;
        }
        shares.shuffle(&mut rand::thread_rng());
        ensure_unrecoverable(shares);
    }
}

#[test]
fn test_roundtrip_not_enough_full_groups() {
    for _ in 0..TEST_ITERATIONS {
        let (spec, _sizes, group_threshold) = gen_random_params();
        let (_mnemonic, groups) = split_random_phrase(&spec, group_threshold, &false).unwrap();
        let mut shares: Vec<String> = groups
            .into_iter()
            .choose_multiple(&mut rand::thread_rng(), group_threshold - 1)
            .into_iter()
            .flatten()
            .collect();
        if shares.len() == 0 {
            continue;
        }
        shares.shuffle(&mut rand::thread_rng());
        ensure_unrecoverable(shares);
    }
}

#[test]
fn test_roundtrip_not_enough_sufficient_groups() {
    for _ in 0..TEST_ITERATIONS {
        let (spec, sizes, group_threshold) = gen_random_params();
        let (_mnemonic, groups) = split_random_phrase(&spec, group_threshold, &false).unwrap();
        let mut shares: Vec<String> = groups
            .into_iter()
            .zip(sizes.into_iter())
            .map(|(group, (m, _n))| group.into_iter().choose_multiple(&mut rand::thread_rng(), m))
            .choose_multiple(&mut rand::thread_rng(), group_threshold - 1)
            .into_iter()
            .flatten()
            .collect();
        if shares.len() == 0 {
            continue;
        }
        shares.shuffle(&mut rand::thread_rng());
        ensure_unrecoverable(shares);
    }
}

#[test]
fn test_roundtrip_not_enough_insufficient_groups() {
    for _ in 0..TEST_ITERATIONS {
        let (spec, sizes, group_threshold) = gen_random_params();
        let (_mnemonic, groups) = split_random_phrase(&spec, group_threshold, &false).unwrap();
        let mut shares: Vec<String> = groups
            .into_iter()
            .zip(sizes.into_iter())
            .map(|(group, (m, _n))| group.into_iter().choose_multiple(&mut rand::thread_rng(), m - 1))
            .choose_multiple(&mut rand::thread_rng(), group_threshold - 1)
            .into_iter()
            .flatten()
            .collect();
        if shares.len() == 0 {
            continue;
        }
        shares.shuffle(&mut rand::thread_rng());
        ensure_unrecoverable(shares);
    }
}

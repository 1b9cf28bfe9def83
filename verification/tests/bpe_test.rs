use std::collections::HashMap;

use mosaic_core::bpe::{
    build_vocabulary, build_vocabulary_and_encode, build_vocabulary_and_encode_rescan, decode, encode, is_ascii_only,
    most_frequent_pair_dense, should_use_incremental, DENSE_PAIR_THRESHOLD, MAX_INCREMENTAL_NAME_LEN, MAX_RULES, TOKEN_BASE,
};
use mosaic_core::incremental_bpe::IncrementalBpe;

fn reference_replace_pair(seq: &mut Vec<u16>, left: u16, right: u16, new_token: u16) {
    let mut i = 0;
    let mut out = 0;
    while i < seq.len() {
        if i + 1 < seq.len() && seq[i] == left && seq[i + 1] == right {
            seq[out] = new_token;
            i += 2;
        } else {
            seq[out] = seq[i];
            i += 1;
        }
        out += 1;
    }
    seq.truncate(out);
}

fn reference_build_vocabulary(names: &[&[u8]]) -> Vec<[u8; 2]> {
    let mut tokens: Vec<Vec<u16>> = names
        .iter()
        .map(|name| name.iter().map(|&b| b as u16).collect())
        .collect();
    let mut rules = Vec::new();

    for _ in 0..MAX_RULES {
        let mut pair_counts: HashMap<u32, u32> = HashMap::new();
        for seq in &tokens {
            for pair in seq.windows(2) {
                let pair = (pair[0] as u32) << 16 | pair[1] as u32;
                *pair_counts.entry(pair).or_default() += 1;
            }
        }

        match pair_counts
            .iter()
            .max_by_key(|&(&pair, &count)| (count, pair))
        {
            Some((&pair, &count)) if count > 1 => {
                let left = (pair >> 16) as u16;
                let right = pair as u16;
                let new_token = TOKEN_BASE as u16 + rules.len() as u16;
                rules.push([left as u8, right as u8]);
                for seq in &mut tokens {
                    reference_replace_pair(seq, left, right, new_token);
                }
            }
            _ => break,
        }
    }

    rules
}

#[test]
fn test_bpe_encode() {
    let names: Vec<&[u8]> = vec![
        b"engine_coolant_temp",
        b"engine_coolant_pressure",
        b"engine_oil_temp",
        b"engine_oil_pressure",
    ];
    let rules = build_vocabulary(&names);
    assert!(!rules.is_empty());

    for &name in &names {
        let encoded = encode(name, &rules);
        assert!(encoded.len() <= name.len());
    }
}

#[test]
fn test_build_vocabulary_and_encode_matches_separate_encoding() {
    let mut owned_names = vec![b"aaaaa".to_vec()];
    owned_names.extend((0..128).map(|i| {
        format!(
            "vehicle_data_collection_powertrain_group_{:03}_signal_measurement_{i:05}_value",
            i % 17
        )
        .into_bytes()
    }));
    let names: Vec<&[u8]> = owned_names.iter().map(Vec::as_slice).collect();

    let (rules, encoded) = build_vocabulary_and_encode(&names);
    assert_eq!(rules, reference_build_vocabulary(&names));
    assert_eq!(
        encoded,
        names
            .iter()
            .map(|name| encode(name, &rules))
            .collect::<Vec<_>>()
    );
}

#[test]
fn test_incremental_bpe_matches_rescan_for_overlapping_pairs() {
    let patterns: [&[u8]; 8] = [
        b"aaaaa",
        b"abababa",
        b"abcabcabc",
        b"zzzzzzzz",
        b"vehicle_vehicle_vehicle",
        b"signal_signal_value",
        b"001001001001",
        b"",
    ];
    let owned_names = (0..1_024)
        .map(|i| patterns[i % patterns.len()].to_vec())
        .collect::<Vec<_>>();
    let names = owned_names.iter().map(Vec::as_slice).collect::<Vec<_>>();

    assert!(should_use_incremental(&names));
    assert_eq!(
        IncrementalBpe::new(&names).build(),
        build_vocabulary_and_encode_rescan(&names)
    );
}

#[test]
fn test_incremental_bpe_handles_packed_index_and_name_length_boundaries() {
    let wide_names = (0..1_024)
        .map(|i| {
            format!(
                "vehicle_data_collection_powertrain_group_{:03}_controller_{:02}_signal_{i:05}",
                i % 173,
                i % 29
            )
            .into_bytes()
        })
        .collect::<Vec<_>>();
    assert!(wide_names.iter().map(Vec::len).sum::<usize>() > u16::MAX as usize);
    let wide_refs = wide_names.iter().map(Vec::as_slice).collect::<Vec<_>>();
    assert!(should_use_incremental(&wide_refs));
    assert_eq!(
        IncrementalBpe::new(&wide_refs).build(),
        build_vocabulary_and_encode_rescan(&wide_refs)
    );

    let max_length_names =
        vec![vec![b'a'; MAX_INCREMENTAL_NAME_LEN]; DENSE_PAIR_THRESHOLD / 255 + 1];
    let max_length_refs = max_length_names
        .iter()
        .map(Vec::as_slice)
        .collect::<Vec<_>>();
    assert!(should_use_incremental(&max_length_refs));
    assert_eq!(
        IncrementalBpe::new(&max_length_refs).build(),
        build_vocabulary_and_encode_rescan(&max_length_refs)
    );

    let over_limit_names =
        vec![vec![b'a'; MAX_INCREMENTAL_NAME_LEN + 1]; DENSE_PAIR_THRESHOLD / 256 + 1];
    let over_limit_refs = over_limit_names
        .iter()
        .map(Vec::as_slice)
        .collect::<Vec<_>>();
    assert!(!should_use_incremental(&over_limit_refs));
    assert_eq!(
        build_vocabulary_and_encode(&over_limit_refs),
        build_vocabulary_and_encode_rescan(&over_limit_refs)
    );

    let non_ascii_names = vec![vec![0x80; 3]; DENSE_PAIR_THRESHOLD / 2];
    let non_ascii_refs = non_ascii_names
        .iter()
        .map(Vec::as_slice)
        .collect::<Vec<_>>();
    assert!(!should_use_incremental(&non_ascii_refs));
    assert_eq!(
        build_vocabulary_and_encode(&non_ascii_refs),
        build_vocabulary_and_encode_rescan(&non_ascii_refs)
    );
}

#[test]
fn test_ascii_only() {
    assert!(is_ascii_only(&[b"hello", b"world"]));
    assert!(!is_ascii_only(&[b"hello", &[0x80, 0x81]]));
}

#[test]
fn test_dense_pair_counter_reuses_storage_and_preserves_tie_breaking() {
    let mut counts = vec![0; 1 << 16];
    let mut touched = Vec::new();

    let first = vec![vec![1, 2, 1, 3]];
    assert_eq!(
        most_frequent_pair_dense(&first, &mut counts, &mut touched),
        Some((2, 1, 1))
    );

    let second = vec![vec![255, 254, 255, 254]];
    assert_eq!(
        most_frequent_pair_dense(&second, &mut counts, &mut touched),
        Some((255, 254, 2))
    );
}

#[test]
fn test_dense_pair_counter_matches_hashmap_reference() {
    let mut state = 1u64;
    for _ in 0..32 {
        let mut names = Vec::new();
        for _ in 0..256 {
            let len = 4 + (state as usize % 28);
            let mut name = Vec::with_capacity(len);
            for _ in 0..len {
                state = state
                    .wrapping_mul(6_364_136_223_846_793_005)
                    .wrapping_add(1);
                name.push(b'a' + ((state >> 32) % 26) as u8);
            }
            names.push(name);
        }
        let refs: Vec<&[u8]> = names.iter().map(Vec::as_slice).collect();
        let (rules, encoded) = IncrementalBpe::new(&refs).build();
        assert_eq!(rules, reference_build_vocabulary(&refs));
        assert_eq!(
            encoded,
            refs.iter()
                .map(|name| encode(name, &rules))
                .collect::<Vec<_>>()
        );
        assert_eq!((rules, encoded), build_vocabulary_and_encode_rescan(&refs));
        if should_use_incremental(&refs) {
            assert_eq!(
                build_vocabulary_and_encode(&refs),
                build_vocabulary_and_encode_rescan(&refs)
            );
        }
    }
}

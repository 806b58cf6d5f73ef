use sskr_bytewords::bytewords::{byteword_string, byteword_string_to_bytes};
use sskr_bytewords::recover::{recover, RecoverError};
use sskr_bytewords::split::{split, SplitError};
use sskr_bytewords::groupspec::SpecError;

const PHRASE: &str =
    "abandon abandon abandon abandon abandon abandon abandon abandon abandon abandon abandon about";

fn split_phrase(spec: &str, group_threshold: usize, minimal: bool) -> Vec<Vec<String>> {
    let (mnemonic, groups) =
        split(&spec.to_string(), group_threshold, &PHRASE.to_string(), &minimal).unwrap();
    assert_eq!(mnemonic.phrase(), PHRASE);
    groups
}

fn payload(line: &str) -> Vec<u8> {
    let bytes = byteword_string_to_bytes(line, &false).unwrap();
    assert_eq!(&bytes[..3], &[0xd9, 0x01, 0x35]);
    bytes[4..].to_vec()
}

#[test]
fn two_of_three_and_three_of_five() {
    let groups = split_phrase("2of3,3of5", 1, false);
    assert_eq!(groups.len(), 2);
    assert_eq!(groups[0].len(), 3);
    assert_eq!(groups[1].len(), 5);
    for (a, b) in [(0, 1), (0, 2), (1, 2), (2, 0)] {
        let m = recover(vec![groups[0][a].clone(), groups[0][b].clone()], &false).unwrap();
        assert_eq!(m.phrase(), PHRASE);
    }
    let r = recover(vec![groups[0][0].clone(), groups[1][0].clone()], &false);
    assert!(matches!(r, Err(RecoverError::InsufficientGroups { needed: 1, ref satisfied }) if satisfied.is_empty()));
}

#[test]
fn two_singleton_groups_need_both() {
    let groups = split_phrase("1of1,1of1", 2, true);
    assert_eq!(groups.len(), 2);
    assert_eq!(groups[0].len(), 1);
    assert_eq!(groups[1].len(), 1);
    let both = vec![groups[1][0].clone(), groups[0][0].clone()];
    assert_eq!(recover(both, &true).unwrap().phrase(), PHRASE);
    let r = recover(vec![groups[0][0].clone()], &true);
    assert!(matches!(r, Err(RecoverError::InsufficientGroups { needed: 2, ref satisfied }) if *satisfied == vec![1]));
}

#[test]
fn tampered_group_index_never_yields_a_wrong_secret() {
    let groups = split_phrase("2of3,2of3", 2, false);
    let lines = vec![
        groups[0][0].clone(),
        groups[0][1].clone(),
        groups[1][0].clone(),
        groups[1][1].clone(),
    ];
    for target in 0..lines.len() {
        for new_index in 0..16u8 {
            let mut tampered = lines.clone();
            let mut bytes = byteword_string_to_bytes(&tampered[target], &false).unwrap();
            let header = 4 + 3;
            bytes[header] = (new_index << 4) | (bytes[header] & 0x0f);
            tampered[target] = byteword_string(&bytes, &false);
            match recover(tampered, &false) {
                Ok(m) => assert_eq!(m.phrase(), PHRASE),
                Err(_) => {}
            }
        }
    }
}

#[test]
fn split_shares_carry_their_positions() {
    let groups = split_phrase("2of3,3of5", 1, true);
    let mut ids = Vec::new();
    for (g, group) in groups.iter().enumerate() {
        for (m, line) in group.iter().enumerate() {
            let bytes = byteword_string_to_bytes(line, &true).unwrap();
            let share = &bytes[4..];
            ids.push((share[0], share[1]));
            assert_eq!(share[2], 0x01);
            assert_eq!(share[3] >> 4, g as u8);
            assert_eq!((share[3] & 0x0f) + 1, [2u8, 3][g]);
            assert_eq!(share[4], m as u8);
        }
    }
    assert!(ids.iter().all(|id| *id == ids[0]));
}

#[test]
fn shares_carry_the_tagged_envelope() {
    let groups = split_phrase("2of3", 1, false);
    let share = payload(&groups[0][0]);
    assert_eq!(share.len(), 5 + 16);
    assert_eq!(share[2], 0x00);
    assert_eq!(share[3] & 0x0f, 1);
}

#[test]
fn minimal_split_recovers_with_minimal_flag_only() {
    let groups = split_phrase("2of3", 1, true);
    let lines = vec![groups[0][0].clone(), groups[0][2].clone()];
    assert_eq!(recover(lines.clone(), &true).unwrap().phrase(), PHRASE);
    assert!(matches!(recover(lines, &false), Err(RecoverError::Bytewords(_, _))));
}

#[test]
fn rejects_specs_at_parse() {
    for (spec, gt) in [("1of3", 1), ("5of3", 1), ("2of3,", 1)] {
        let r = split(&spec.to_string(), gt, &PHRASE.to_string(), &false);
        assert!(matches!(r, Err(SplitError::Spec(_))), "{}", spec);
    }
    let seventeen = vec!["2of3"; 17].join(",");
    let r = split(&seventeen, 1, &PHRASE.to_string(), &false);
    assert!(matches!(r, Err(SplitError::Spec(SpecError::TooManyGroups))));
    let r = split(&"2of3".to_string(), 2, &PHRASE.to_string(), &false);
    assert!(matches!(r, Err(SplitError::GroupThreshold)));
    let r = split(&"2of3".to_string(), 0, &PHRASE.to_string(), &false);
    assert!(matches!(r, Err(SplitError::GroupThreshold)));
    let r = split(&"2of3".to_string(), 1, &"not a mnemonic".to_string(), &false);
    assert!(matches!(r, Err(SplitError::Mnemonic(_))));
}

#[test]
fn recovered_entropy_that_is_no_mnemonic_is_reported_in_hex() {
    let spec = sskr::Spec::new(1, vec![sskr::GroupSpec::new(1, 1).unwrap()]).unwrap();
    let secret = sskr::Secret::new([0xabu8; 18]).unwrap();
    let groups = sskr::sskr_generate(&spec, &secret).unwrap();
    let tagged = dcbor::CBOR::to_tagged_value(309u64, dcbor::CBOR::to_byte_string(&groups[0][0]));
    let line = byteword_string(&tagged.to_cbor_data(), &false);
    let r = recover(vec![line], &false);
    assert!(matches!(r, Err(RecoverError::Mnemonic(ref hex)) if *hex == "ab".repeat(18)));
}

#[test]
fn reports_undecodable_lines() {
    let r = recover(vec!["able acid".to_string()], &false);
    assert!(matches!(r, Err(RecoverError::Bytewords(_, _))));
    let groups = split_phrase("2of3", 1, false);
    let line = byteword_string(&[1, 2, 3, 4, 5, 6], &false);
    let r = recover(vec![groups[0][0].clone(), line, "able".to_string()], &false);
    assert!(matches!(r, Err(RecoverError::Envelope(2))));
    let r = recover(vec![groups[0][0].clone(), "able acid".to_string()], &false);
    assert!(matches!(r, Err(RecoverError::Bytewords(2, _))));
    assert!(matches!(recover(vec![], &false), Err(RecoverError::NoShares)));
}

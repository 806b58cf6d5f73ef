use sskr_bytewords::groupspec::{parse_group_spec, SpecError};
use sskr_bytewords::recover::{select_shares, RecoverError};
use sskr_bytewords::shares::{share_metadata, ShareError};

fn share(id: u16, gt: u8, gc: u8, gi: u8, mt: u8, mi: u8) -> Vec<u8> {
    vec![
        (id >> 8) as u8,
        id as u8,
        ((gt - 1) << 4) | (gc - 1),
        (gi << 4) | (mt - 1),
        mi,
        0xaa,
        0xbb,
    ]
}

#[test]
fn reads_header_fields() {
    let (id, meta) = share_metadata(&[0x12, 0x34, 0x13, 0x21, 0x05, 0xff], &false).unwrap();
    assert_eq!(id, 0x1234);
    assert_eq!(meta, [2, 2, 4, 5, 2]);
}

#[test]
fn rejects_short_header() {
    let r = share_metadata(&[0x12, 0x34, 0x13, 0x21], &false);
    assert!(matches!(r, Err(ShareError::TooShort(ref t)) if t == "brag edge brew curl"));
}

#[test]
fn rejects_group_threshold_above_count() {
    let r = share_metadata(&[0, 0, 0x31, 0x00, 0x00], &true);
    assert!(matches!(r, Err(ShareError::InvalidGroupThreshold(_))));
}

#[test]
fn rejects_reserved_bits() {
    let r = share_metadata(&[0, 0, 0x00, 0x00, 0x10], &false);
    assert!(matches!(r, Err(ShareError::InvalidReservedBits(_))));
}

#[test]
fn parses_group_spec() {
    assert_eq!(parse_group_spec("2of3,3of5").unwrap(), vec![(2, 3), (3, 5)]);
    assert_eq!(parse_group_spec("1of1").unwrap(), vec![(1, 1)]);
    assert_eq!(parse_group_spec("016of16").unwrap(), vec![(16, 16)]);
}

#[test]
fn rejects_bad_group_specs() {
    assert!(matches!(parse_group_spec("1of3"), Err(SpecError::OneOfMany(1))));
    assert!(matches!(parse_group_spec("5of3"), Err(SpecError::ThresholdAboveCount(1))));
    assert!(matches!(parse_group_spec("2of3,5of3"), Err(SpecError::ThresholdAboveCount(2))));
    assert!(matches!(parse_group_spec("2of17"), Err(SpecError::GroupSizeOutOfRange(1))));
    assert!(matches!(parse_group_spec("0of3"), Err(SpecError::GroupSizeOutOfRange(1))));
    for bad in ["", "2of3,", "2 of 3", "of3", "2of", "2x3", "99999999999999999999999of3"] {
        assert!(matches!(parse_group_spec(bad), Err(SpecError::Malformed)), "{}", bad);
    }
}

#[test]
fn rejects_seventeenth_group() {
    let sixteen = vec!["2of3"; 16].join(",");
    assert_eq!(parse_group_spec(&sixteen).unwrap().len(), 16);
    let seventeen = vec!["2of3"; 17].join(",");
    assert!(matches!(parse_group_spec(&seventeen), Err(SpecError::TooManyGroups)));
}

#[test]
fn selects_lowest_recoverable_groups() {
    let shares = vec![
        share(7, 2, 3, 2, 2, 0),
        share(7, 2, 3, 0, 2, 0),
        share(7, 2, 3, 1, 1, 0),
        share(7, 2, 3, 2, 2, 1),
        share(7, 2, 3, 0, 2, 1),
    ];
    let picked = select_shares(&shares, &false).unwrap();
    assert_eq!(picked, vec![shares[1].clone(), shares[2].clone(), shares[4].clone()]);
}

#[test]
fn reports_insufficient_groups() {
    let shares = vec![share(7, 2, 3, 0, 2, 0), share(7, 2, 3, 1, 1, 0), share(7, 2, 3, 2, 2, 0)];
    let r = select_shares(&shares, &false);
    assert!(matches!(
        r,
        Err(RecoverError::InsufficientGroups { needed: 2, ref satisfied }) if *satisfied == vec![2]
    ));
}

#[test]
fn reports_mismatches() {
    let r = select_shares(&vec![share(7, 1, 1, 0, 1, 0), share(8, 1, 1, 0, 1, 1)], &false);
    assert!(matches!(r, Err(RecoverError::MismatchedIdentifiers)));
    let r = select_shares(&vec![share(7, 1, 1, 0, 1, 0), share(7, 1, 2, 0, 1, 1)], &false);
    assert!(matches!(r, Err(RecoverError::MismatchedGroupParams)));
    let r = select_shares(
        &vec![share(7, 1, 2, 1, 2, 0), share(7, 1, 2, 1, 3, 1), share(7, 1, 2, 0, 1, 0)],
        &false,
    );
    assert!(matches!(r, Err(RecoverError::MismatchedMemberThreshold(2))));
    let r = select_shares(&vec![], &false);
    assert!(matches!(r, Err(RecoverError::NoShares)));
    let r = select_shares(&vec![vec![1, 2, 3]], &false);
    assert!(matches!(r, Err(RecoverError::Share(ShareError::TooShort(_)))));
}

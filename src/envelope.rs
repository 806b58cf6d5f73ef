use vstd::prelude::*;

verus! {

/// The CBOR tag that marks an SSKR share.
pub const SSKR_SHARE_TAG: u64 = 309;

/// The shortest CBOR head of major type `major` (0 to 7) with argument `n`.
pub open spec fn cbor_head(major: u8, n: nat) -> Seq<u8> {
    let m = major as int * 32;
    if n < 24 {
        seq![(m + n) as u8]
    } else if n < 0x100 {
        seq![(m + 24) as u8, n as u8]
    } else if n < 0x1_0000 {
        seq![(m + 25) as u8, (n / 0x100) as u8, (n % 0x100) as u8]
    } else if n < 0x1_0000_0000 {
        seq![
            (m + 26) as u8,
            (n / 0x100_0000) as u8,
            (n / 0x1_0000 % 0x100) as u8,
            (n / 0x100 % 0x100) as u8,
            (n % 0x100) as u8,
        ]
    } else {
        seq![
            (m + 27) as u8,
            (n / 0x100_0000_0000_0000) as u8,
            (n / 0x1_0000_0000_0000 % 0x100) as u8,
            (n / 0x100_0000_0000 % 0x100) as u8,
            (n / 0x1_0000_0000 % 0x100) as u8,
            (n / 0x100_0000 % 0x100) as u8,
            (n / 0x1_0000 % 0x100) as u8,
            (n / 0x100 % 0x100) as u8,
            (n % 0x100) as u8,
        ]
    }
}

/// The dCBOR encoding of `share` as a byte string under `tag`.
pub open spec fn tagged_bytes(tag: u64, share: Seq<u8>) -> Seq<u8> {
    cbor_head(6, tag as nat) + cbor_head(2, share.len()) + share
}

/// The byte string under `tag` that `data` encodes, if it is such an encoding.
pub open spec fn untagged_bytes(tag: u64, data: Seq<u8>) -> Option<Seq<u8>> {
    if exists|s: Seq<u8>| data == tagged_bytes(tag, s) {
        Some(choose|s: Seq<u8>| data == tagged_bytes(tag, s))
    } else {
        None
    }
}

/// Distinct byte strings have distinct encodings.
pub proof fn lemma_tagged_bytes_injective(tag: u64, s1: Seq<u8>, s2: Seq<u8>)
    requires
        tagged_bytes(tag, s1) == tagged_bytes(tag, s2),
    ensures
        s1 == s2,
{
    let d = tagged_bytes(tag, s1);
    let p = cbor_head(6, tag as nat).len();
    let h1 = cbor_head(2, s1.len()).len();
    let h2 = cbor_head(2, s2.len()).len();
    assert(d.len() == p + h1 + s1.len());
    assert(d.len() == p + h2 + s2.len());
    assert(s1.len() == s2.len());
    assert(s1 =~= d.skip(d.len() - s1.len()));
    assert(s2 =~= d.skip(d.len() - s2.len()));
}

/// Un-tagging the encoding of a byte string gives that byte string back.
pub proof fn lemma_untag_tagged(tag: u64, s: Seq<u8>)
    ensures
        untagged_bytes(tag, tagged_bytes(tag, s)) == Some(s),
        tagged_bytes(tag, s).len() > s.len(),
{
    let d = tagged_bytes(tag, s);
    assert(exists|t: Seq<u8>| d == tagged_bytes(tag, t));
    let t = choose|t: Seq<u8>| d == tagged_bytes(tag, t);
    lemma_tagged_bytes_injective(tag, s, t);
}

/// Relies on dcbor's `CBOR::to_byte_string`, `CBOR::to_tagged_value` and
/// `CBOR::to_cbor_data`: the tag's head, the byte string's head, then the bytes,
/// each head in its shortest form.
#[verifier::external_body]
pub fn tag_share(tag: u64, share: &[u8]) -> (r: Vec<u8>)
    ensures
        r@ == tagged_bytes(tag, share@),
{
    dcbor::CBOR::to_tagged_value(tag, dcbor::CBOR::to_byte_string(share)).to_cbor_data()
}

/// Relies on dcbor's `CBOR::try_from_data`, `CBOR::try_into_expected_tagged_value`
/// and `CBOR::try_into_byte_string`: the decoder refuses heads that are not in
/// their shortest form and bytes after the item, so it accepts exactly the
/// encodings that `tag_share` writes.
#[verifier::external_body]
pub fn untag_share(tag: u64, data: &[u8]) -> (r: Option<Vec<u8>>)
    ensures
        r matches Some(v) ==> data@ == tagged_bytes(tag, v@),
        r is None ==> forall|s: Seq<u8>| data@ != #[trigger] tagged_bytes(tag, s),
{
    dcbor::CBOR::try_from_data(data).ok()?.try_into_expected_tagged_value(tag).ok()?.try_into_byte_string().ok()
}

} // verus!

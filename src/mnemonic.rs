use vstd::prelude::*;

verus! {

/// Declares tiny-bip39's mnemonic, carried through unopened.
#[verifier::external_type_specification]
#[verifier::external_body]
pub struct ExMnemonic(bip39::Mnemonic);

/// Whether `n` bytes of entropy make a BIP-39 mnemonic: 128 to 256 bits, in steps of 32.
pub open spec fn entropy_len_ok(n: nat) -> bool {
    n == 16 || n == 20 || n == 24 || n == 28 || n == 32
}

/// The lower-case hex digit for `n`.
pub open spec fn hex_digit(n: u8) -> char {
    if n < 10 {
        (n + 48) as char
    } else {
        (n + 87) as char
    }
}

/// Two lower-case hex digits for each byte.
pub open spec fn hex_text(b: Seq<u8>) -> Seq<char>
    decreases b.len(),
{
    if b.len() == 0 {
        seq![]
    } else {
        hex_text(b.drop_last()) + seq![hex_digit(b.last() / 16), hex_digit(b.last() % 16)]
    }
}

/// The entropy that an English BIP-39 phrase encodes, if it is a valid one.
pub uninterp spec fn phrase_entropy(phrase: Seq<char>) -> Option<Seq<u8>>;

/// `phrase` is a valid phrase for `n` bytes of entropy.
pub open spec fn entropy_of_len(phrase: Seq<char>, n: nat) -> bool {
    phrase_entropy(phrase) matches Some(e) && e.len() == n
}

/// Relies on tiny-bip39's `Mnemonic::from_phrase` with the English word list
/// and `Mnemonic::entropy`: the mnemonic and the entropy it encodes, which
/// depend on the phrase alone.
#[verifier::external_body]
pub fn mnemonic_from_phrase(phrase: &str) -> (r: Result<(bip39::Mnemonic, Vec<u8>), String>)
    ensures
        r is Ok <==> phrase_entropy(phrase@) is Some,
        r matches Ok((_, e)) ==> phrase_entropy(phrase@) == Some(e@),
{
    let m = bip39::Mnemonic::from_phrase(phrase, bip39::Language::English).map_err(|e| e.to_string())?;
    let e = m.entropy().to_vec();
    Ok((m, e))
}

/// Relies on tiny-bip39's `Mnemonic::from_entropy` with the English word list,
/// which accepts 16, 20, 24, 28 or 32 bytes.
#[verifier::external_body]
pub fn mnemonic_from_entropy(entropy: &[u8]) -> (r: Result<bip39::Mnemonic, String>)
    ensures
        r is Ok <==> entropy_len_ok(entropy@.len()),
{
    bip39::Mnemonic::from_entropy(entropy, bip39::Language::English).map_err(|e| e.to_string())
}

/// Relies on tiny-bip39's `Mnemonic::new` and `Mnemonic::phrase`: the words of
/// a fresh random twelve-word English mnemonic, made from 16 bytes of entropy.
#[verifier::external_body]
pub fn random_phrase() -> (r: String)
    ensures
        entropy_of_len(r@, 16),
{
    bip39::Mnemonic::new(bip39::MnemonicType::Words12, bip39::Language::English).phrase().to_string()
}

/// Relies on hex's `encode`: two lower-case digits for each byte, in order.
#[verifier::external_body]
pub fn to_hex(bytes: &[u8]) -> (r: String)
    ensures
        r@ == hex_text(bytes@),
{
    hex::encode(bytes)
}

} // verus!

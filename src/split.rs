use vstd::prelude::*;
use crate::bytewords::{byteword_string, encoded};
use crate::engine::{
    generate, shares_shaped, sskr_group_ok, sskr_groups_ok, sskr_secret_len_ok, sskr_spec_ok,
    views3,
};
use crate::envelope::{tag_share, tagged_bytes, SSKR_SHARE_TAG};
use crate::recover::views;
use crate::groupspec::{
    group_problem, parse_group_spec, spec_accepted, spec_error_for, spec_groups, spec_terms,
    SpecError,
};
use crate::mnemonic::{mnemonic_from_phrase, phrase_entropy, random_phrase};

verus! {

/// Why a mnemonic could not be split.
#[derive(Debug)]
pub enum SplitError {
    /// The group specification was refused.
    Spec(SpecError),
    /// The group threshold is zero or larger than the number of groups.
    GroupThreshold,
    /// The phrase is not a valid English BIP-39 mnemonic.
    Mnemonic(String),
    /// The mnemonic's entropy, of this many bytes, is not a secret that can be split.
    Secret(usize),
    /// The secret-sharing engine failed.
    Engine(String),
}

/// Each text is the Bytewords text of the tagged share at the same place.
pub open spec fn texts_encode(t: Seq<Vec<String>>, g: Seq<Seq<Seq<u8>>>, minimal: bool) -> bool {
    &&& t.len() == g.len()
    &&& forall|i: int|
        0 <= i < t.len() ==> (#[trigger] t[i])@.len() == g[i].len() && forall|j: int|
            0 <= j < t[i]@.len() ==> (#[trigger] t[i]@[j])@ == encoded(
                tagged_bytes(SSKR_SHARE_TAG, g[i][j]),
                minimal,
            )
}

/// Reads a group specification and a group threshold: the member threshold and
/// count of each group, once both are known to be valid.
pub fn parse_spec(spec: &str, group_threshold: usize) -> (r: Result<Vec<(usize, usize)>, SplitError>)
    ensures
        (r matches Err(SplitError::Spec(_))) <==> !spec_accepted(spec@),
        r matches Err(SplitError::Spec(e)) ==> spec_error_for(e, spec@),
        (r matches Err(SplitError::GroupThreshold)) <==> spec_accepted(spec@) && !sskr_spec_ok(
            group_threshold,
            spec_terms(spec@).len(),
        ),
        (r is Ok) <==> spec_accepted(spec@) && sskr_spec_ok(
            group_threshold,
            spec_terms(spec@).len(),
        ),
        r matches Ok(v) ==> v@ == spec_groups(spec_terms(spec@)) && sskr_groups_ok(v@),
{
    let groups = match parse_group_spec(spec) {
        Ok(groups) => groups,
        Err(e) => {
            return Err(SplitError::Spec(e));
        },
    };
    assert(sskr_groups_ok(groups@)) by {
        assert forall|i: int| 0 <= i < groups@.len() implies sskr_group_ok(
            #[trigger] groups@[i].0,
            groups@[i].1,
        ) by {
            assert(group_problem(groups@[i]) == 0);
        }
    }
    if group_threshold == 0 || group_threshold > groups.len() {
        return Err(SplitError::GroupThreshold);
    }
    Ok(groups)
}

/// The Bytewords text of each share, each share first wrapped in its tagged envelope.
pub fn to_bytewords(groups: &Vec<Vec<Vec<u8>>>, minimal: &bool) -> (r: Vec<Vec<String>>)
    ensures
        texts_encode(r@, views3(groups@), *minimal),
{
    let ghost g = views3(groups@);
    let mut out: Vec<Vec<String>> = Vec::new();
    let mut i: usize = 0;
    while i < groups.len()
        invariant
            i <= groups@.len(),
            g == views3(groups@),
            texts_encode(out@, g.take(i as int), *minimal),
        decreases groups.len() - i,
    {
        let group = &groups[i];
        let mut texts: Vec<String> = Vec::new();
        let mut j: usize = 0;
        while j < group.len()
            invariant
                j <= group@.len(),
                group == groups@[i as int],
                texts@.len() == j,
                forall|b: int|
                    0 <= b < j ==> (#[trigger] texts@[b])@ == encoded(
                        tagged_bytes(SSKR_SHARE_TAG, group@[b]@),
                        *minimal,
                    ),
            decreases group.len() - j,
        {
            let wrapped = tag_share(SSKR_SHARE_TAG, group[j].as_slice());
            texts.push(byteword_string(wrapped.as_slice(), minimal));
            j += 1;
        }
        let ghost before = out@;
        out.push(texts);
        assert(g[i as int] == views(group@));
        assert(g.take(i + 1).drop_last() =~= g.take(i as int));
        assert forall|a: int| 0 <= a < out@.len() implies (#[trigger] out@[a])@.len() == g.take(
            i + 1,
        )[a].len() && forall|b: int|
            0 <= b < out@[a]@.len() ==> (#[trigger] out@[a]@[b])@ == encoded(
                tagged_bytes(SSKR_SHARE_TAG, g.take(i + 1)[a][b]),
                *minimal,
            ) by {
            if a < i {
                assert(out@[a] == before[a]);
                assert(g.take(i + 1)[a] == g.take(i as int)[a]);
            } else {
                assert(g.take(i + 1)[a] == views(group@));
            }
        }
        i += 1;
    }
    assert(g.take(g.len() as int) =~= g);
    out
}

/// Splits the mnemonic `phrase` into shares as the group specification says,
/// each share as Bytewords text, group by group.
pub fn split(spec: &String, group_threshold: usize, phrase: &String, minimal: &bool) -> (r: Result<
    (bip39::Mnemonic, Vec<Vec<String>>),
    SplitError,
>)
    ensures
        (r matches Err(SplitError::Spec(_))) <==> !spec_accepted(spec@),
        r matches Err(SplitError::Spec(e)) ==> spec_error_for(e, spec@),
        (r matches Err(SplitError::GroupThreshold)) <==> spec_accepted(spec@) && !sskr_spec_ok(
            group_threshold,
            spec_terms(spec@).len(),
        ),
        (r matches Err(SplitError::Mnemonic(_))) <==> spec_accepted(spec@) && sskr_spec_ok(
            group_threshold,
            spec_terms(spec@).len(),
        ) && phrase_entropy(phrase@) is None,
        (r matches Err(SplitError::Secret(_))) <==> spec_accepted(spec@) && sskr_spec_ok(
            group_threshold,
            spec_terms(spec@).len(),
        ) && (phrase_entropy(phrase@) matches Some(e) && !sskr_secret_len_ok(e.len())),
        r matches Ok((_, texts)) ==> spec_accepted(spec@) && sskr_spec_ok(
            group_threshold,
            spec_terms(spec@).len(),
        ) && (phrase_entropy(phrase@) matches Some(e) && sskr_secret_len_ok(e.len()) && exists|
            g: Seq<Seq<Seq<u8>>>,
        |
            #[trigger] shares_shaped(g, group_threshold, spec_groups(spec_terms(spec@)), e.len())
                && texts_encode(texts@, g, *minimal)),
{
    let groups = match parse_spec(spec.as_str(), group_threshold) {
        Ok(groups) => groups,
        Err(e) => {
            return Err(e);
        },
    };
    let (mnemonic, entropy) = match mnemonic_from_phrase(phrase.as_str()) {
        Ok(p) => p,
        Err(e) => {
            return Err(SplitError::Mnemonic(e));
        },
    };
    let n = entropy.len();
    if n < 16 || n > 32 || n % 2 != 0 {
        return Err(SplitError::Secret(n));
    }
    let shares = match generate(group_threshold, &groups, entropy.as_slice()) {
        Ok(g) => g,
        Err(e) => {
            return Err(SplitError::Engine(e));
        },
    };
    let texts = to_bytewords(&shares, minimal);
    proof {
        let g = views3(shares@);
        assert(groups@ == spec_groups(spec_terms(spec@)));
        assert(phrase_entropy(phrase@) == Some(entropy@));
        assert(shares_shaped(g, group_threshold, spec_groups(spec_terms(spec@)), entropy@.len()));
        assert(texts_encode(texts@, g, *minimal));
        assert(sskr_secret_len_ok(entropy@.len()));
        let e = phrase_entropy(phrase@)->0;
        assert(e == entropy@);
        assert(shares_shaped(g, group_threshold, spec_groups(spec_terms(spec@)), e.len())
            && texts_encode(texts@, g, *minimal));
    }
    Ok((mnemonic, texts))
}

/// Splits a fresh random twelve-word mnemonic, of 16 bytes of entropy, as `split` does.
pub fn split_random_phrase(spec: &String, group_threshold: usize, minimal: &bool) -> (r: Result<
    (bip39::Mnemonic, Vec<Vec<String>>),
    SplitError,
>)
    ensures
        (r matches Err(SplitError::Spec(_))) <==> !spec_accepted(spec@),
        r matches Err(SplitError::Spec(e)) ==> spec_error_for(e, spec@),
        (r matches Err(SplitError::GroupThreshold)) <==> spec_accepted(spec@) && !sskr_spec_ok(
            group_threshold,
            spec_terms(spec@).len(),
        ),
        !(r matches Err(SplitError::Mnemonic(_))),
        !(r matches Err(SplitError::Secret(_))),
        r matches Ok((_, texts)) ==> spec_accepted(spec@) && sskr_spec_ok(
            group_threshold,
            spec_terms(spec@).len(),
        ) && exists|g: Seq<Seq<Seq<u8>>>|
            #[trigger] shares_shaped(g, group_threshold, spec_groups(spec_terms(spec@)), 16)
                && texts_encode(texts@, g, *minimal),
{
    let phrase = random_phrase();
    split(spec, group_threshold, &phrase, minimal)
}

} // verus!

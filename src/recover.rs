use vstd::prelude::*;
use crate::bytewords::{
    byteword_string_to_bytes, decoded, encoded, lemma_round_trip, words_text, BytewordsError,
};
use crate::engine::{combine, combined};
use crate::envelope::{
    lemma_untag_tagged, tagged_bytes, untag_share, untagged_bytes, SSKR_SHARE_TAG,
};
use crate::mnemonic::{entropy_len_ok, hex_text, mnemonic_from_entropy, to_hex};
use crate::shares::{
    bad_group_threshold, bad_reserved_bits, header_fields, header_identifier, header_ok,
    share_metadata, ShareError, GROUP_COUNT, GROUP_INDEX, GROUP_THRESHOLD, HEADER_LEN,
    MEMBER_THRESHOLD,
};

verus! {

/// Number of groups that the 4-bit group index can name.
pub const MAX_GROUPS: usize = 16;

/// Why a set of shares could not be turned back into a mnemonic.
#[derive(Debug)]
pub enum RecoverError {
    /// No share was given.
    NoShares,
    /// A line (numbered from 1) is not valid Bytewords text.
    Bytewords(usize, BytewordsError),
    /// A line (numbered from 1) does not hold a share in its tagged envelope.
    Envelope(usize),
    /// A share's header was refused.
    Share(ShareError),
    /// The shares come from different splits.
    MismatchedIdentifiers,
    /// The shares disagree on the group threshold or the group count.
    MismatchedGroupParams,
    /// The shares of one group (numbered from 1) disagree on its member threshold.
    MismatchedMemberThreshold(usize),
    /// Too few groups have enough shares; the satisfied ones are numbered from 1.
    InsufficientGroups { needed: usize, satisfied: Vec<usize> },
    /// The secret-sharing engine refused the shares.
    Combination(String),
    /// The secret was recovered but is no valid mnemonic entropy; it is given in hex.
    Mnemonic(String),
}

/// The contents of a list of byte vectors.
pub open spec fn views(v: Seq<Vec<u8>>) -> Seq<Seq<u8>> {
    v.map_values(|b: Vec<u8>| b@)
}

/// `e` is the error that `share_metadata` gives for `s`.
pub open spec fn share_error_for(e: ShareError, s: Seq<u8>, minimal: bool) -> bool {
    match e {
        ShareError::TooShort(t) => s.len() < HEADER_LEN && t@ == words_text(s, minimal),
        ShareError::InvalidGroupThreshold(t) => s.len() >= HEADER_LEN && bad_group_threshold(s)
            && t@ == words_text(s, minimal),
        ShareError::InvalidReservedBits(t) => s.len() >= HEADER_LEN && !bad_group_threshold(s)
            && bad_reserved_bits(s) && t@ == words_text(s, minimal),
    }
}

/// Field `f` of the header of share `s`.
pub open spec fn field(s: Seq<u8>, f: usize) -> usize {
    header_fields(s)[f as int]
}

/// Every share has a well-formed header.
pub open spec fn headers_ok(ss: Seq<Seq<u8>>) -> bool {
    forall|i: int| 0 <= i < ss.len() ==> header_ok(#[trigger] ss[i])
}

/// Every share carries the identifier of the first.
pub open spec fn ids_agree(ss: Seq<Seq<u8>>) -> bool {
    forall|i: int| 0 <= i < ss.len() ==> header_identifier(#[trigger] ss[i]) == header_identifier(ss[0])
}

/// Every share carries the group threshold and group count of the first.
pub open spec fn params_agree(ss: Seq<Seq<u8>>) -> bool {
    forall|i: int|
        0 <= i < ss.len() ==> field(#[trigger] ss[i], GROUP_THRESHOLD) == field(ss[0], GROUP_THRESHOLD)
            && field(ss[i], GROUP_COUNT) == field(ss[0], GROUP_COUNT)
}

/// Share `s` belongs to group `g`.
pub open spec fn in_group(s: Seq<u8>, g: usize) -> bool {
    field(s, GROUP_INDEX) == g
}

/// How many of the first `n` shares belong to group `g`.
pub open spec fn group_size(ss: Seq<Seq<u8>>, g: usize, n: int) -> nat
    decreases n,
{
    if n <= 0 {
        0
    } else {
        group_size(ss, g, n - 1) + if in_group(ss[n - 1], g) {
            1nat
        } else {
            0nat
        }
    }
}

/// The shares of group `g` agree on its member threshold.
pub open spec fn thresholds_agree(ss: Seq<Seq<u8>>, g: usize) -> bool {
    forall|i: int, j: int|
        0 <= i < ss.len() && 0 <= j < ss.len() && in_group(#[trigger] ss[i], g) && in_group(
            #[trigger] ss[j],
            g,
        ) ==> field(ss[i], MEMBER_THRESHOLD) == field(ss[j], MEMBER_THRESHOLD)
}

/// Group `g` has at least as many shares as its member threshold.
pub open spec fn recoverable(ss: Seq<Seq<u8>>, g: usize) -> bool {
    exists|i: int|
        0 <= i < ss.len() && in_group(#[trigger] ss[i], g) && group_size(ss, g, ss.len() as int)
            >= field(ss[i], MEMBER_THRESHOLD)
}

/// The recoverable groups below `n`, in ascending order.
pub open spec fn recoverable_upto(ss: Seq<Seq<u8>>, n: usize) -> Seq<usize>
    decreases n,
{
    if n == 0 {
        seq![]
    } else {
        recoverable_upto(ss, (n - 1) as usize) + if recoverable(ss, (n - 1) as usize) {
            seq![(n - 1) as usize]
        } else {
            seq![]
        }
    }
}

/// All recoverable groups, in ascending order.
pub open spec fn recoverable_groups(ss: Seq<Seq<u8>>) -> Seq<usize> {
    recoverable_upto(ss, MAX_GROUPS)
}

/// The number of groups needed, as the first share states it.
pub open spec fn needed_groups(ss: Seq<Seq<u8>>) -> usize {
    field(ss[0], GROUP_THRESHOLD)
}

/// The groups used for recovery: the lowest recoverable ones, as many as needed.
pub open spec fn chosen_groups(ss: Seq<Seq<u8>>) -> Seq<usize> {
    recoverable_groups(ss).take(needed_groups(ss) as int)
}

/// The first `n` shares whose group is in `groups`, in their order.
pub open spec fn shares_in(ss: Seq<Seq<u8>>, groups: Seq<usize>, n: int) -> Seq<Seq<u8>>
    decreases n,
{
    if n <= 0 {
        seq![]
    } else {
        shares_in(ss, groups, n - 1) + if groups.contains(field(ss[n - 1], GROUP_INDEX)) {
            seq![ss[n - 1]]
        } else {
            seq![]
        }
    }
}

/// The shares agree with one another: non-empty, well-formed headers, one
/// identifier, one group threshold and count, one member threshold per group.
pub open spec fn shares_agree(ss: Seq<Seq<u8>>) -> bool {
    &&& ss.len() > 0
    &&& headers_ok(ss)
    &&& ids_agree(ss)
    &&& params_agree(ss)
    &&& forall|g: usize| g < MAX_GROUPS ==> #[trigger] thresholds_agree(ss, g)
}

/// `e` is the error that checking and selecting the shares `ss` gives.
pub open spec fn selection_error(ss: Seq<Seq<u8>>, minimal: bool, e: RecoverError) -> bool {
    match e {
        RecoverError::NoShares => ss.len() == 0,
        RecoverError::Share(se) => exists|k: int|
            0 <= k < ss.len() && share_error_for(se, #[trigger] ss[k], minimal) && headers_ok(
                ss.take(k),
            ),
        RecoverError::MismatchedIdentifiers => ss.len() > 0 && headers_ok(ss) && !ids_agree(ss),
        RecoverError::MismatchedGroupParams => ss.len() > 0 && headers_ok(ss) && ids_agree(ss)
            && !params_agree(ss),
        RecoverError::MismatchedMemberThreshold(k) => ss.len() > 0 && headers_ok(ss) && ids_agree(
            ss,
        ) && params_agree(ss) && 1 <= k <= MAX_GROUPS && !thresholds_agree(ss, (k - 1) as usize)
            && forall|g: usize| g < k - 1 ==> #[trigger] thresholds_agree(ss, g),
        RecoverError::InsufficientGroups { needed, satisfied } => shares_agree(ss)
            && recoverable_groups(ss).len() < needed_groups(ss) && needed == needed_groups(ss)
            && satisfied@ == recoverable_groups(ss).map_values(|g: usize| (g + 1) as usize),
        _ => false,
    }
}

/// The shares handed to the engine: every share of the chosen groups, in order.
pub open spec fn selected(ss: Seq<Seq<u8>>) -> Seq<Seq<u8>> {
    shares_in(ss, chosen_groups(ss), ss.len() as int)
}

/// Checks that decoded shares go together and picks those to combine: every
/// share of the lowest recoverable groups, as many groups as are needed.
pub fn select_shares(shares: &Vec<Vec<u8>>, minimal: &bool) -> (r: Result<
    Vec<Vec<u8>>,
    RecoverError,
>)
    ensures
        ({
            let ss = views(shares@);
            &&& (r matches Err(RecoverError::NoShares)) <==> ss.len() == 0
            &&& (r matches Err(RecoverError::Share(_))) <==> ss.len() > 0 && !headers_ok(ss)
            &&& r matches Err(RecoverError::Share(e)) ==> exists|k: int|
                0 <= k < ss.len() && share_error_for(e, #[trigger] ss[k], *minimal) && headers_ok(
                    ss.take(k),
                )
            &&& (r matches Err(RecoverError::MismatchedIdentifiers)) <==> ss.len() > 0
                && headers_ok(ss) && !ids_agree(ss)
            &&& (r matches Err(RecoverError::MismatchedGroupParams)) <==> ss.len() > 0
                && headers_ok(ss) && ids_agree(ss) && !params_agree(ss)
            &&& (r matches Err(RecoverError::MismatchedMemberThreshold(_))) <==> ss.len() > 0
                && headers_ok(ss) && ids_agree(ss) && params_agree(ss) && exists|g: usize|
                g < MAX_GROUPS && !#[trigger] thresholds_agree(ss, g)
            &&& r matches Err(RecoverError::MismatchedMemberThreshold(k)) ==> 1 <= k
                <= MAX_GROUPS && !thresholds_agree(ss, (k - 1) as usize) && forall|g: usize|
                g < k - 1 ==> #[trigger] thresholds_agree(ss, g)
            &&& (r matches Err(RecoverError::InsufficientGroups { .. })) <==> shares_agree(ss)
                && recoverable_groups(ss).len() < needed_groups(ss)
            &&& r matches Err(RecoverError::InsufficientGroups { needed, satisfied }) ==> needed
                == needed_groups(ss) && satisfied@ == recoverable_groups(ss).map_values(
                |g: usize| (g + 1) as usize,
            )
            &&& (r matches Ok(_)) <==> shares_agree(ss) && recoverable_groups(ss).len()
                >= needed_groups(ss)
            &&& r matches Ok(v) ==> views(v@) == shares_in(ss, chosen_groups(ss), ss.len() as int)
            &&& r matches Err(e) ==> selection_error(ss, *minimal, e)
            &&& !(r matches Err(RecoverError::Bytewords(_, _)))
            &&& !(r matches Err(RecoverError::Envelope(_)))
            &&& !(r matches Err(RecoverError::Combination(_)))
            &&& !(r matches Err(RecoverError::Mnemonic(_)))
        }),
{
    let ghost ss = views(shares@);
    let n = shares.len();
    if n == 0 {
        return Err(RecoverError::NoShares);
    }
    let mut ids: Vec<u16> = Vec::new();
    let mut metas: Vec<[usize; 5]> = Vec::new();
    let mut i: usize = 0;
    while i < n
        invariant
            n == shares@.len(),
            ss == views(shares@),
            i <= n,
            ids@.len() == i,
            metas@.len() == i,
            headers_ok(ss.take(i as int)),
            forall|k: int| 0 <= k < i ==> #[trigger] ids@[k] == header_identifier(ss[k]),
            forall|k: int| 0 <= k < i ==> (#[trigger] metas@[k])@ == header_fields(ss[k]),
        decreases n - i,
    {
        assert(ss[i as int] == shares@[i as int]@);
        match share_metadata(shares[i].as_slice(), minimal) {
            Ok((id, m)) => {
                ids.push(id);
                metas.push(m);
                assert(ss.take(i + 1).drop_last() =~= ss.take(i as int));
                assert(headers_ok(ss.take(i + 1)));
            },
            Err(e) => {
                assert(share_error_for(e, ss[i as int], *minimal));
                assert(!headers_ok(ss));
                return Err(RecoverError::Share(e));
            },
        }
        i += 1;
    }
    assert(ss.take(n as int) =~= ss);
    assert(headers_ok(ss));
    let id0 = ids[0];
    i = 0;
    while i < n
        invariant
            n == shares@.len() == ids@.len(),
            ss == views(shares@),
            i <= n,
            id0 == header_identifier(ss[0]),
            headers_ok(ss),
            forall|k: int| 0 <= k < n ==> #[trigger] ids@[k] == header_identifier(ss[k]),
            forall|k: int| 0 <= k < i ==> header_identifier(#[trigger] ss[k]) == id0,
        decreases n - i,
    {
        if ids[i] != id0 {
            assert(!ids_agree(ss)) by {
                assert(ids@[i as int] == header_identifier(ss[i as int]));
            }
            return Err(RecoverError::MismatchedIdentifiers);
        }
        i += 1;
    }
    assert(headers_ok(ss));
    assert(ids_agree(ss));
    let group_threshold = metas[0][GROUP_THRESHOLD];
    let group_count = metas[0][GROUP_COUNT];
    i = 0;
    while i < n
        invariant
            n == shares@.len() == metas@.len(),
            ss == views(shares@),
            i <= n,
            group_threshold == field(ss[0], GROUP_THRESHOLD),
            group_count == field(ss[0], GROUP_COUNT),
            headers_ok(ss),
            ids_agree(ss),
            forall|k: int| 0 <= k < n ==> (#[trigger] metas@[k])@ == header_fields(ss[k]),
            forall|k: int|
                0 <= k < i ==> field(#[trigger] ss[k], GROUP_THRESHOLD) == group_threshold && field(
                    ss[k],
                    GROUP_COUNT,
                ) == group_count,
        decreases n - i,
    {
        if metas[i][GROUP_THRESHOLD] != group_threshold || metas[i][GROUP_COUNT] != group_count {
            assert(!params_agree(ss)) by {
                assert(metas@[i as int]@ == header_fields(ss[i as int]));
            }
            return Err(RecoverError::MismatchedGroupParams);
        }
        i += 1;
    }
    assert(params_agree(ss));
    let mut groups: Vec<usize> = Vec::new();
    let mut g: usize = 0;
    while g < MAX_GROUPS
        invariant
            n == shares@.len() == metas@.len(),
            ss == views(shares@),
            g <= MAX_GROUPS,
            forall|k: int| 0 <= k < n ==> (#[trigger] metas@[k])@ == header_fields(ss[k]),
            forall|h: usize| h < g ==> #[trigger] thresholds_agree(ss, h),
            groups@ == recoverable_upto(ss, g),
            ss.len() > 0,
            headers_ok(ss),
            ids_agree(ss),
            params_agree(ss),
            group_threshold == needed_groups(ss),
            forall|j: int| 0 <= j < groups@.len() ==> #[trigger] groups@[j] < g,
        decreases MAX_GROUPS - g,
    {
        let mut count: usize = 0;
        let mut first: usize = 0;
        i = 0;
        while i < n
            invariant
                n == shares@.len() == metas@.len(),
                ss == views(shares@),
                i <= n,
                forall|k: int| 0 <= k < n ==> (#[trigger] metas@[k])@ == header_fields(ss[k]),
                count == group_size(ss, g, i as int),
                g < MAX_GROUPS,
                ss.len() > 0,
                headers_ok(ss),
                ids_agree(ss),
                params_agree(ss),
                forall|h: usize| h < g ==> #[trigger] thresholds_agree(ss, h),
                count <= i,
                count == 0 ==> forall|j: int| 0 <= j < i ==> !in_group(#[trigger] ss[j], g),
                count > 0 ==> first < i && in_group(ss[first as int], g),
                count > 0 ==> forall|j: int|
                    0 <= j < i && in_group(#[trigger] ss[j], g) ==> field(ss[j], MEMBER_THRESHOLD)
                        == field(ss[first as int], MEMBER_THRESHOLD),
            decreases n - i,
        {
            if metas[i][GROUP_INDEX] == g {
                if count > 0 && metas[i][MEMBER_THRESHOLD] != metas[first][MEMBER_THRESHOLD] {
                    assert(!thresholds_agree(ss, g)) by {
                        assert(in_group(ss[i as int], g));
                        assert(in_group(ss[first as int], g));
                    }
                    return Err(RecoverError::MismatchedMemberThreshold(g + 1));
                }
                if count == 0 {
                    first = i;
                }
                count += 1;
            }
            i += 1;
        }
        assert(thresholds_agree(ss, g));
        let ghost prev = groups@;
        if count > 0 && count >= metas[first][MEMBER_THRESHOLD] {
            groups.push(g);
            assert(recoverable(ss, g)) by {
                assert(in_group(ss[first as int], g));
            }
        } else {
            assert(!recoverable(ss, g));
        }
        assert(groups@ =~= recoverable_upto(ss, (g + 1) as usize));
        g += 1;
    }
    if groups.len() < group_threshold {
        assert(shares_agree(ss));
        assert(groups@ == recoverable_groups(ss));
        let mut satisfied: Vec<usize> = Vec::new();
        let mut k: usize = 0;
        while k < groups.len()
            invariant
                k <= groups@.len(),
                forall|j: int| 0 <= j < groups@.len() ==> #[trigger] groups@[j] < MAX_GROUPS,
                satisfied@ == groups@.take(k as int).map_values(|g: usize| (g + 1) as usize),
            decreases groups.len() - k,
        {
            satisfied.push(groups[k] + 1);
            assert(groups@.take(k + 1).drop_last() =~= groups@.take(k as int));
            assert(satisfied@ =~= groups@.take(k + 1).map_values(|g: usize| (g + 1) as usize));
            k += 1;
        }
        assert(groups@.take(groups@.len() as int) =~= groups@);
        return Err(RecoverError::InsufficientGroups { needed: group_threshold, satisfied });
    }
    assert(shares_agree(ss));
    assert(groups@ == recoverable_groups(ss));
    let mut out: Vec<Vec<u8>> = Vec::new();
    let ghost chosen = chosen_groups(ss);
    i = 0;
    while i < n
        invariant
            n == shares@.len() == metas@.len(),
            ss == views(shares@),
            i <= n,
            forall|k: int| 0 <= k < n ==> (#[trigger] metas@[k])@ == header_fields(ss[k]),
            group_threshold <= groups@.len(),
            chosen == groups@.take(group_threshold as int),
            views(out@) == shares_in(ss, chosen, i as int),
        decreases n - i,
    {
        let gi = metas[i][GROUP_INDEX];
        let mut k: usize = 0;
        let mut found = false;
        while k < group_threshold
            invariant
                k <= group_threshold <= groups@.len(),
                chosen == groups@.take(group_threshold as int),
                found <==> exists|j: int| 0 <= j < k && #[trigger] chosen[j] == gi,
            decreases group_threshold - k,
        {
            assert(chosen[k as int] == groups@[k as int]);
            if groups[k] == gi {
                found = true;
            }
            k += 1;
        }
        let ghost before = out@;
        if found {
            out.push(vstd::slice::slice_to_vec(shares[i].as_slice()));
        }
        assert(views(out@) =~= shares_in(ss, chosen, i + 1));
        i += 1;
    }
    Ok(out)
}

proof fn lemma_recoverable_upto(ss: Seq<Seq<u8>>, n: usize)
    ensures
        forall|k: int|
            0 <= k < recoverable_upto(ss, n).len() ==> #[trigger] recoverable_upto(ss, n)[k] < n
                && recoverable(ss, recoverable_upto(ss, n)[k]),
        forall|a: int, b: int|
            0 <= a < b < recoverable_upto(ss, n).len() ==> #[trigger] recoverable_upto(ss, n)[a]
                < #[trigger] recoverable_upto(ss, n)[b],
    decreases n,
{
    if n > 0 {
        let m = (n - 1) as usize;
        lemma_recoverable_upto(ss, m);
        let prev = recoverable_upto(ss, m);
        let cur = recoverable_upto(ss, n);
        let extra: Seq<usize> = if recoverable(ss, m) {
            seq![m]
        } else {
            seq![]
        };
        assert(cur == prev + extra);
        assert forall|k: int| 0 <= k < cur.len() implies #[trigger] cur[k] < n && recoverable(
            ss,
            cur[k],
        ) by {
            if k < prev.len() {
                assert(cur[k] == prev[k]);
            } else {
                assert(cur[k] == m);
            }
        }
        assert forall|a: int, b: int| 0 <= a < b < cur.len() implies #[trigger] cur[a]
            < #[trigger] cur[b] by {
            assert(cur[a] == prev[a]);
            if b < prev.len() {
                assert(cur[b] == prev[b]);
            } else {
                assert(cur[b] == m);
            }
        }
    }
}

proof fn lemma_shares_in_keeps(ss: Seq<Seq<u8>>, groups: Seq<usize>, n: int, i: int)
    requires
        0 <= i < n <= ss.len(),
        groups.contains(field(ss[i], GROUP_INDEX)),
    ensures
        shares_in(ss, groups, n).contains(ss[i]),
    decreases n,
{
    if i < n - 1 {
        lemma_shares_in_keeps(ss, groups, n - 1, i);
        let prev = shares_in(ss, groups, n - 1);
        let k = choose|k: int| 0 <= k < prev.len() && prev[k] == ss[i];
        assert(shares_in(ss, groups, n)[k] == ss[i]);
    } else {
        let prev = shares_in(ss, groups, n - 1);
        assert(shares_in(ss, groups, n)[prev.len() as int] == ss[i]);
    }
}

/// When shares agree and enough groups are recoverable, the selection spans
/// exactly as many distinct groups as the group threshold, each with at least
/// its member threshold of shares, and passes on every share of those groups.
pub proof fn lemma_selection_meets_thresholds(ss: Seq<Seq<u8>>)
    requires
        shares_agree(ss),
        recoverable_groups(ss).len() >= needed_groups(ss),
    ensures
        chosen_groups(ss).len() == needed_groups(ss),
        chosen_groups(ss).no_duplicates(),
        forall|k: int|
            0 <= k < chosen_groups(ss).len() ==> recoverable(ss, #[trigger] chosen_groups(ss)[k]),
        forall|i: int|
            0 <= i < ss.len() && chosen_groups(ss).contains(field(#[trigger] ss[i], GROUP_INDEX))
                ==> shares_in(ss, chosen_groups(ss), ss.len() as int).contains(ss[i]),
{
    let rec = recoverable_groups(ss);
    let chosen = chosen_groups(ss);
    lemma_recoverable_upto(ss, MAX_GROUPS);
    assert forall|k: int| 0 <= k < chosen.len() implies recoverable(ss, #[trigger] chosen[k]) by {
        assert(chosen[k] == rec[k]);
    }
    assert forall|a: int, b: int| 0 <= a < chosen.len() && 0 <= b < chosen.len() && a != b implies chosen[a]
        != chosen[b] by {
        assert(chosen[a] == rec[a]);
        assert(chosen[b] == rec[b]);
        if a < b {
            assert(rec[a] < rec[b]);
        } else {
            assert(rec[b] < rec[a]);
        }
    }
    assert forall|i: int|
        0 <= i < ss.len() && chosen.contains(field(#[trigger] ss[i], GROUP_INDEX)) implies shares_in(
        ss,
        chosen,
        ss.len() as int,
    ).contains(ss[i]) by {
        lemma_shares_in_keeps(ss, chosen, ss.len() as int, i);
    }
}

/// The share that a line of text carries, if it is valid Bytewords text of a
/// tagged share.
pub open spec fn line_share(l: Seq<char>, minimal: bool) -> Option<Seq<u8>> {
    match decoded(l, minimal) {
        Some(d) => untagged_bytes(SSKR_SHARE_TAG, d),
        None => None,
    }
}

/// Every line carries a share.
pub open spec fn lines_ok(ls: Seq<String>, minimal: bool) -> bool {
    forall|k: int| 0 <= k < ls.len() ==> line_share((#[trigger] ls[k])@, minimal) is Some
}

/// The shares that the lines carry.
pub open spec fn line_shares(ls: Seq<String>, minimal: bool) -> Seq<Seq<u8>> {
    ls.map_values(|l: String| line_share(l@, minimal)->0)
}

/// The Bytewords text of a tagged share, in either form, is a line that
/// carries that share.
pub proof fn lemma_share_text_round_trip(share: Seq<u8>, minimal: bool)
    ensures
        line_share(encoded(tagged_bytes(SSKR_SHARE_TAG, share), minimal), minimal) == Some(share),
{
    lemma_untag_tagged(SSKR_SHARE_TAG, share);
    lemma_round_trip(tagged_bytes(SSKR_SHARE_TAG, share), minimal);
}

/// Recovers the mnemonic from shares given as lines of Bytewords text.
pub fn recover(lines: Vec<String>, minimal: &bool) -> (r: Result<bip39::Mnemonic, RecoverError>)
    ensures
        (r matches Err(RecoverError::Bytewords(_, _))) || (r matches Err(RecoverError::Envelope(_)))
            <==> !lines_ok(lines@, *minimal),
        r matches Err(RecoverError::Bytewords(n, _)) ==> 1 <= n <= lines@.len() && decoded(
            lines@[n - 1]@,
            *minimal,
        ) is None && lines_ok(lines@.take(n - 1), *minimal),
        r matches Err(RecoverError::Envelope(n)) ==> 1 <= n <= lines@.len() && decoded(
            lines@[n - 1]@,
            *minimal,
        ) is Some && line_share(lines@[n - 1]@, *minimal) is None && lines_ok(
            lines@.take(n - 1),
            *minimal,
        ),
        lines_ok(lines@, *minimal) && !(shares_agree(line_shares(lines@, *minimal))
            && recoverable_groups(line_shares(lines@, *minimal)).len() >= needed_groups(
            line_shares(lines@, *minimal),
        )) ==> (r matches Err(e) && selection_error(line_shares(lines@, *minimal), *minimal, e)),
        lines_ok(lines@, *minimal) && shares_agree(line_shares(lines@, *minimal))
            && recoverable_groups(line_shares(lines@, *minimal)).len() >= needed_groups(
            line_shares(lines@, *minimal),
        ) ==> ((r is Ok) <==> (combined(selected(line_shares(lines@, *minimal))) matches Some(e)
            && entropy_len_ok(e.len()))),
        lines_ok(lines@, *minimal) && shares_agree(line_shares(lines@, *minimal))
            && recoverable_groups(line_shares(lines@, *minimal)).len() >= needed_groups(
            line_shares(lines@, *minimal),
        ) ==> ((r matches Err(RecoverError::Combination(_))) <==> combined(
            selected(line_shares(lines@, *minimal)),
        ) is None),
        r matches Err(RecoverError::Mnemonic(h)) ==> lines_ok(lines@, *minimal) && shares_agree(
            line_shares(lines@, *minimal),
        ) && (combined(selected(line_shares(lines@, *minimal))) matches Some(e) && h@ == hex_text(
            e,
        ) && !entropy_len_ok(e.len())),
{
    let mut shares: Vec<Vec<u8>> = Vec::new();
    let mut i: usize = 0;
    while i < lines.len()
        invariant
            i <= lines@.len(),
            shares@.len() == i,
            lines_ok(lines@.take(i as int), *minimal),
            forall|k: int|
                0 <= k < i ==> Some((#[trigger] shares@[k])@) == line_share(lines@[k]@, *minimal),
        decreases lines.len() - i,
    {
        let bytes = match byteword_string_to_bytes(lines[i].as_str(), minimal) {
            Ok(b) => b,
            Err(e) => {
                return Err(RecoverError::Bytewords(i + 1, e));
            },
        };
        match untag_share(SSKR_SHARE_TAG, bytes.as_slice()) {
            Some(share) => {
                proof {
                    lemma_untag_tagged(SSKR_SHARE_TAG, share@);
                }
                shares.push(share);
            },
            None => {
                return Err(RecoverError::Envelope(i + 1));
            },
        }
        assert(lines@.take(i + 1).drop_last() =~= lines@.take(i as int));
        assert(lines_ok(lines@.take(i + 1), *minimal));
        i += 1;
    }
    assert(lines@.take(lines@.len() as int) =~= lines@);
    assert(views(shares@) =~= line_shares(lines@, *minimal));
    let picked = select_shares(&shares, minimal)?;
    let entropy = match combine(&picked) {
        Ok(s) => s,
        Err(e) => {
            return Err(RecoverError::Combination(e));
        },
    };
    match mnemonic_from_entropy(entropy.as_slice()) {
        Ok(m) => Ok(m),
        Err(_) => Err(RecoverError::Mnemonic(to_hex(entropy.as_slice()))),
    }
}

} // verus!

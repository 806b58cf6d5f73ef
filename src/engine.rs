use vstd::prelude::*;
use crate::recover::{field, views};
use crate::shares::{
    header_identifier, header_ok, GROUP_COUNT, GROUP_INDEX, GROUP_THRESHOLD, HEADER_LEN,
    MEMBER_INDEX, MEMBER_THRESHOLD,
};

verus! {

/// Most shares in a group, and most groups, that sskr accepts.
pub const SSKR_MAX_COUNT: usize = 16;

/// A group of `member_count` shares, `member_threshold` of which recover it.
pub open spec fn sskr_group_ok(member_threshold: usize, member_count: usize) -> bool {
    0 < member_threshold <= member_count <= SSKR_MAX_COUNT
}

/// A split into `group_count` groups, `group_threshold` of which recover it.
pub open spec fn sskr_spec_ok(group_threshold: usize, group_count: nat) -> bool {
    0 < group_threshold <= group_count <= SSKR_MAX_COUNT
}

/// A secret length that sskr accepts.
pub open spec fn sskr_secret_len_ok(n: nat) -> bool {
    16 <= n <= 32 && n % 2 == 0
}

/// Every group has a threshold and count that sskr accepts.
pub open spec fn sskr_groups_ok(groups: Seq<(usize, usize)>) -> bool {
    forall|i: int| 0 <= i < groups.len() ==> sskr_group_ok(#[trigger] groups[i].0, groups[i].1)
}

/// Share `s` is member `j` of group `i` of a split with identifier `id`, as
/// sskr writes it: the header, then the member's part of a secret of `secret_len` bytes.
pub open spec fn share_shaped(
    s: Seq<u8>,
    id: u16,
    group_threshold: usize,
    groups: Seq<(usize, usize)>,
    i: int,
    j: int,
    secret_len: nat,
) -> bool {
    &&& s.len() == HEADER_LEN + secret_len
    &&& header_ok(s)
    &&& header_identifier(s) == id
    &&& field(s, GROUP_INDEX) == i
    &&& field(s, GROUP_THRESHOLD) == group_threshold
    &&& field(s, GROUP_COUNT) == groups.len()
    &&& field(s, MEMBER_INDEX) == j
    &&& field(s, MEMBER_THRESHOLD) == groups[i].0
}

/// `g` holds, group by group, the shares of one split of a secret of
/// `secret_len` bytes into `groups`: one list per group, one share per member.
pub open spec fn shares_shaped(
    g: Seq<Seq<Seq<u8>>>,
    group_threshold: usize,
    groups: Seq<(usize, usize)>,
    secret_len: nat,
) -> bool {
    &&& g.len() == groups.len()
    &&& forall|i: int| 0 <= i < g.len() ==> (#[trigger] g[i]).len() == groups[i].1
    &&& exists|id: u16| #[trigger] shares_shaped_with(g, id, group_threshold, groups, secret_len)
}

/// Every share in `g` sits at its own group and member position, under the identifier `id`.
pub open spec fn shares_shaped_with(
    g: Seq<Seq<Seq<u8>>>,
    id: u16,
    group_threshold: usize,
    groups: Seq<(usize, usize)>,
    secret_len: nat,
) -> bool {
    forall|i: int, j: int|
        0 <= i < g.len() && 0 <= j < g[i].len() ==> share_shaped(
            #[trigger] g[i][j],
            id,
            group_threshold,
            groups,
            i,
            j,
            secret_len,
        )
}

/// The contents of nested lists of byte vectors.
pub open spec fn views3(g: Seq<Vec<Vec<u8>>>) -> Seq<Seq<Seq<u8>>> {
    g.map_values(|v: Vec<Vec<u8>>| views(v@))
}

/// The secret that sskr rebuilds from `shares`, if it can.
pub uninterp spec fn combined(shares: Seq<Seq<u8>>) -> Option<Seq<u8>>;

/// Relies on sskr's `GroupSpec::new`, `Spec::new`, `Secret::new` and
/// `sskr_generate`: with valid limits every constructor succeeds, and each
/// share is serialized as its group and member position, under one random
/// identifier, followed by as many bytes as the secret has.
#[verifier::external_body]
pub fn generate(group_threshold: usize, groups: &Vec<(usize, usize)>, secret: &[u8]) -> (r: Result<
    Vec<Vec<Vec<u8>>>,
    String,
>)
    requires
        sskr_spec_ok(group_threshold, groups@.len()),
        sskr_groups_ok(groups@),
        sskr_secret_len_ok(secret@.len()),
    ensures
        r matches Ok(g) ==> shares_shaped(views3(g@), group_threshold, groups@, secret@.len()),
{
    let specs = groups.iter().map(|&(m, n)| sskr::GroupSpec::new(m, n)).collect::<Result<Vec<_>, _>>();
    let spec = sskr::Spec::new(group_threshold, specs.map_err(|e| e.to_string())?);
    let secret = sskr::Secret::new(secret).map_err(|e| e.to_string())?;
    sskr::sskr_generate(&spec.map_err(|e| e.to_string())?, &secret).map_err(|e| e.to_string())
}

/// Relies on sskr's `sskr_combine` and `Secret::data`: the secret that the
/// shares rebuild, which depends on the shares alone.
#[verifier::external_body]
pub fn combine(shares: &Vec<Vec<u8>>) -> (r: Result<Vec<u8>, String>)
    ensures
        r is Ok <==> combined(views(shares@)) is Some,
        r matches Ok(v) ==> combined(views(shares@)) == Some(v@),
{
    sskr::sskr_combine(shares).map(|s| s.data().to_vec()).map_err(|e| e.to_string())
}

} // verus!

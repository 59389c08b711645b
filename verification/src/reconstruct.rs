//! Putting the wrapped key and the ciphertext together again from the shards
//! of a quorum.
//!
//! The shard of the lowest owner names the quorum: its first fragment whose
//! owners are all at hand. The fragments that the first two members of the
//! quorum hold for the quorum are opened under the keys of the other members,
//! and the two results are joined.

use vstd::prelude::*;
use crate::aead::open;
use crate::aead::opened;
use crate::errors::crypto_error::CryptoError;
use crate::models::fragment::fragment_views;
use crate::models::fragment::Fragment;
use crate::models::fragment::FragmentView;
use crate::models::key::combine;
use crate::models::key::key_views;
use crate::models::key::Key;
use crate::models::key::KeyView;
use crate::models::shard::shard_views;
use crate::models::shard::Shard;
use crate::models::shard::ShardView;
use crate::order::as_ints;
use crate::order::sort_indices;
use crate::order::stable_order;
use crate::order::taken;
use crate::parts::rejoin_data;
use crate::parts::rejoined;

verus! {

/// What a quorum recovers: the wrapped primary key, the ciphertext, and the
/// nonce that goes with the primary key.
#[derive(Debug)]
pub struct Recovered {
    /// The primary key, still inside its canary layers.
    pub wrapped_key: Vec<u8>,
    /// The ciphertext.
    pub ciphertext: Vec<u8>,
    /// The nonce under which the ciphertext was sealed.
    pub pri_nonce: Vec<u8>,
}

/// What a [`Recovered`] holds, as plain sequences.
pub struct RecoveredView {
    pub wrapped_key: Seq<u8>,
    pub ciphertext: Seq<u8>,
    pub pri_nonce: Seq<u8>,
}

impl View for Recovered {
    type V = RecoveredView;

    open spec fn view(&self) -> RecoveredView {
        RecoveredView {
            wrapped_key: self.wrapped_key@,
            ciphertext: self.ciphertext@,
            pri_nonce: self.pri_nonce@,
        }
    }
}

/// The owners of `shards`, in order.
pub open spec fn owners_of(shards: Seq<ShardView>) -> Seq<u8> {
    shards.map_values(|s: ShardView| s.owner)
}

/// The keys of `shards`, in order.
pub open spec fn keys_in(shards: Seq<ShardView>) -> Seq<KeyView> {
    shards.map_values(|s: ShardView| s.key)
}

/// Every one of `owners` is among `present`.
pub open spec fn all_present(owners: Seq<u8>, present: Seq<u8>) -> bool {
    forall|i: int| 0 <= i < owners.len() ==> present.contains(#[trigger] owners[i])
}

/// Fragment `f` is the first of `fragments` whose owners are all among
/// `present`.
pub open spec fn is_first_covered(fragments: Seq<FragmentView>, present: Seq<u8>, f: int) -> bool {
    &&& 0 <= f < fragments.len()
    &&& all_present(fragments[f].owners, present)
    &&& forall|g: int| 0 <= g < f ==> !all_present((#[trigger] fragments[g]).owners, present)
}

/// The first of `fragments` whose owners are all among `present`, if there
/// is one.
pub open spec fn first_covered(fragments: Seq<FragmentView>, present: Seq<u8>) -> Option<int> {
    if exists|f: int| is_first_covered(fragments, present, f) {
        Some(choose|f: int| is_first_covered(fragments, present, f))
    } else {
        None
    }
}

/// Fragment `f` is the first of `fragments` whose owners are `owners`.
pub open spec fn is_first_for(fragments: Seq<FragmentView>, owners: Seq<u8>, f: int) -> bool {
    &&& 0 <= f < fragments.len()
    &&& fragments[f].owners == owners
    &&& forall|g: int| 0 <= g < f ==> (#[trigger] fragments[g]).owners != owners
}

/// The first of `fragments` whose owners are `owners`, if there is one.
pub open spec fn first_for(fragments: Seq<FragmentView>, owners: Seq<u8>) -> Option<int> {
    if exists|f: int| is_first_for(fragments, owners, f) {
        Some(choose|f: int| is_first_for(fragments, owners, f))
    } else {
        None
    }
}

/// The places in `order` at which `shards` has an owner among `quorum`, in
/// the order of `order`.
pub open spec fn member_places(shards: Seq<ShardView>, order: Seq<int>, quorum: Seq<u8>) -> Seq<int>
    decreases order.len(),
{
    if order.len() == 0 {
        order
    } else if quorum.contains(shards[order.last()].owner) {
        member_places(shards, order.drop_last(), quorum).push(order.last())
    } else {
        member_places(shards, order.drop_last(), quorum)
    }
}

/// The views of the shards that `members` refer to, in order.
pub open spec fn ref_views(members: Seq<&Shard>) -> Seq<ShardView> {
    members.map_values(|s: &Shard| s@)
}

/// The members of the quorum among `shards`, by owner, if they hold one.
pub open spec fn quorum_members(shards: Seq<ShardView>) -> Option<Seq<ShardView>> {
    match quorum_places(shards) {
        None => None,
        Some(places) => Some(taken(shards, places)),
    }
}

/// The places in `shards` of the members of the quorum, by owner: the shard
/// of the lowest owner names the quorum by its first fragment whose owners
/// all have a shard among `shards`; the members are the shards of that owner
/// and of those owners. There is no quorum without shards, or where no
/// fragment of the lowest owner is covered.
pub open spec fn quorum_places(shards: Seq<ShardView>) -> Option<Seq<int>> {
    let order = stable_order(owners_of(shards));
    if shards.len() == 0 {
        None
    } else {
        let lowest = shards[order[0]];
        match first_covered(lowest.fragments, owners_of(shards)) {
            None => None,
            Some(f) => Some(
                member_places(shards, order, seq![lowest.owner] + lowest.fragments[f].owners),
            ),
        }
    }
}

/// What the shards `members` of a quorum recover. The first member's
/// fragment for the other members gives everything but the first part, the
/// second member's fragment for the other members gives the first part.
pub open spec fn recovered_from(members: Seq<ShardView>) -> Result<RecoveredView, CryptoError> {
    if members.len() < 2 {
        Err(CryptoError::QuorumUnavailable)
    } else {
        let owners = owners_of(members);
        let keys = keys_in(members);
        match (
            first_for(members[0].fragments, owners.remove(0)),
            first_for(members[1].fragments, owners.remove(1)),
        ) {
            (Some(f0), Some(f1)) => {
                let without_first = members[0].fragments[f0];
                let without_second = members[1].fragments[f1];
                match (
                    opened(combine(keys.remove(0)), without_first.key),
                    opened(combine(keys.remove(1)), without_second.key),
                ) {
                    (Some(k0), Some(k1)) => Ok(
                        RecoveredView {
                            wrapped_key: rejoined(k0, k1, members.len() - 1),
                            ciphertext: rejoined(
                                without_first.ciphertext,
                                without_second.ciphertext,
                                members.len() - 1,
                            ),
                            pri_nonce: members[0].pri_nonce,
                        },
                    ),
                    _ => Err(CryptoError::QuorumDecryptFailure),
                }
            },
            _ => Err(CryptoError::QuorumUnavailable),
        }
    }
}

/// What `shards` recover: what their quorum recovers, if they hold one.
pub open spec fn reconstructed(shards: Seq<ShardView>) -> Result<RecoveredView, CryptoError> {
    match quorum_members(shards) {
        None => Err(CryptoError::QuorumUnavailable),
        Some(members) => recovered_from(members),
    }
}

/// Whether `x` is among `list`.
pub fn holds(list: &Vec<u8>, x: u8) -> (b: bool)
    ensures
        b == list@.contains(x),
{
    let mut i: usize = 0;
    while i < list.len()
        invariant
            i <= list.len(),
            forall|j: int| 0 <= j < i ==> list@[j] != x,
        decreases list.len() - i,
    {
        if list[i] == x {
            return true;
        }
        i += 1;
    }
    false
}

/// Whether every one of `owners` is among `present`.
pub fn covered(owners: &Vec<u8>, present: &Vec<u8>) -> (b: bool)
    ensures
        b == all_present(owners@, present@),
{
    let mut i: usize = 0;
    while i < owners.len()
        invariant
            i <= owners.len(),
            forall|j: int| 0 <= j < i ==> present@.contains(#[trigger] owners@[j]),
        decreases owners.len() - i,
    {
        if !holds(present, owners[i]) {
            return false;
        }
        i += 1;
    }
    true
}

/// Whether `a` and `b` hold the same bytes.
pub fn same_bytes(a: &Vec<u8>, b: &Vec<u8>) -> (same: bool)
    ensures
        same == (a@ == b@),
{
    if a.len() != b.len() {
        return false;
    }
    let mut i: usize = 0;
    while i < a.len()
        invariant
            i <= a.len(),
            a@.len() == b@.len(),
            forall|j: int| 0 <= j < i ==> a@[j] == b@[j],
        decreases a.len() - i,
    {
        if a[i] != b[i] {
            return false;
        }
        i += 1;
    }
    assert(a@ =~= b@);
    true
}

/// The owners of `shards`, in order.
pub fn shard_owners(shards: &Vec<Shard>) -> (owners: Vec<u8>)
    ensures
        owners@ == owners_of(shard_views(shards@)),
{
    let mut owners: Vec<u8> = Vec::new();
    let mut i: usize = 0;
    while i < shards.len()
        invariant
            i <= shards.len(),
            owners@ =~= owners_of(shard_views(shards@)).take(i as int),
        decreases shards.len() - i,
    {
        owners.push(shards[i].owner);
        i += 1;
    }
    assert(owners@ =~= owners_of(shard_views(shards@)));
    owners
}

/// The place of the first of `fragments` whose owners are all among
/// `present`.
pub fn find_covered(fragments: &Vec<Fragment>, present: &Vec<u8>) -> (found: Option<usize>)
    ensures
        match found {
            Some(f) => first_covered(fragment_views(fragments@), present@) == Some(f as int) && f
                < fragments@.len(),
            None => first_covered(fragment_views(fragments@), present@) is None,
        },
{
    let ghost all = fragment_views(fragments@);
    let mut f: usize = 0;
    while f < fragments.len()
        invariant
            f <= fragments.len(),
            all == fragment_views(fragments@),
            forall|g: int| 0 <= g < f ==> !all_present((#[trigger] all[g]).owners, present@),
        decreases fragments.len() - f,
    {
        if covered(&fragments[f].owners, present) {
            proof {
                assert(all[f as int].owners == fragments@[f as int].owners@);
                assert(is_first_covered(all, present@, f as int));
                lemma_first_covered_is_one(all, present@, f as int);
            }
            return Some(f);
        }
        proof {
            assert(all[f as int].owners == fragments@[f as int].owners@);
        }
        f += 1;
    }
    None
}

/// There is one first covered fragment at most.
pub proof fn lemma_first_covered_is_one(fragments: Seq<FragmentView>, present: Seq<u8>, f: int)
    requires
        is_first_covered(fragments, present, f),
    ensures
        first_covered(fragments, present) == Some(f),
{
    let g = choose|g: int| is_first_covered(fragments, present, g);
    if g < f {
        assert(!all_present(fragments[g].owners, present));
    } else if f < g {
        assert(!all_present(fragments[f].owners, present));
    }
}

/// The place of the first of `fragments` whose owners are `owners`.
pub fn find_for(fragments: &Vec<Fragment>, owners: &Vec<u8>) -> (found: Option<usize>)
    ensures
        match found {
            Some(f) => first_for(fragment_views(fragments@), owners@) == Some(f as int) && f
                < fragments@.len(),
            None => first_for(fragment_views(fragments@), owners@) is None,
        },
{
    let ghost all = fragment_views(fragments@);
    let mut f: usize = 0;
    while f < fragments.len()
        invariant
            f <= fragments.len(),
            all == fragment_views(fragments@),
            forall|g: int| 0 <= g < f ==> (#[trigger] all[g]).owners != owners@,
        decreases fragments.len() - f,
    {
        if same_bytes(&fragments[f].owners, owners) {
            proof {
                assert(all[f as int].owners == fragments@[f as int].owners@);
                assert(is_first_for(all, owners@, f as int));
                lemma_first_for_is_one(all, owners@, f as int);
            }
            return Some(f);
        }
        proof {
            assert(all[f as int].owners == fragments@[f as int].owners@);
        }
        f += 1;
    }
    None
}

/// There is one first fragment for given owners at most.
pub proof fn lemma_first_for_is_one(fragments: Seq<FragmentView>, owners: Seq<u8>, f: int)
    requires
        is_first_for(fragments, owners, f),
    ensures
        first_for(fragments, owners) == Some(f),
{
    let g = choose|g: int| is_first_for(fragments, owners, g);
    if g < f {
        assert(fragments[g].owners != owners);
    } else if f < g {
        assert(fragments[f].owners != owners);
    }
}

/// The members of the quorum among `shards`, by owner. The shard of the
/// lowest owner names the quorum by its first fragment whose owners all have
/// a shard among `shards`.
pub fn select_quorum<'a>(shards: &'a Vec<Shard>) -> (result: Option<Vec<&'a Shard>>)
    ensures
        match result {
            Some(members) => quorum_members(shard_views(shards@)) == Some(ref_views(members@)),
            None => quorum_members(shard_views(shards@)) is None,
        },
{
    let ghost all = shard_views(shards@);
    if shards.len() == 0 {
        return None;
    }
    let owners: Vec<u8> = shard_owners(shards);
    let order: Vec<usize> = sort_indices(&owners);
    let lowest: &Shard = &shards[order[0]];
    proof {
        assert(as_ints(order@)[0] == order@[0]);
        assert(all[order@[0] as int] == lowest@);
    }
    let f: usize = match find_covered(&lowest.fragments, &owners) {
        Some(f) => f,
        None => {
            return None;
        },
    };
    let mut quorum: Vec<u8> = Vec::new();
    quorum.push(lowest.owner);
    quorum.extend_from_slice(lowest.fragments[f].owners.as_slice());
    proof {
        assert(lowest@.fragments[f as int].owners == lowest.fragments@[f as int].owners@);
        assert(quorum@ =~= seq![lowest@.owner] + lowest@.fragments[f as int].owners);
    }
    let mut members: Vec<&Shard> = Vec::new();
    let mut k: usize = 0;
    proof {
        assert(as_ints(order@).take(0) =~= Seq::<int>::empty());
        assert(ref_views(members@) =~= taken(
            all,
            member_places(all, as_ints(order@).take(0), quorum@),
        ));
    }
    while k < order.len()
        invariant
            k <= order@.len(),
            all == shard_views(shards@),
            forall|a: int| 0 <= a < order@.len() ==> #[trigger] order@[a] < shards@.len(),
            ref_views(members@) == taken(
                all,
                member_places(all, as_ints(order@).take(k as int), quorum@),
            ),
        decreases order@.len() - k,
    {
        let shard: &Shard = &shards[order[k]];
        proof {
            let upto = as_ints(order@).take(k + 1);
            assert(upto.drop_last() =~= as_ints(order@).take(k as int));
            assert(upto.last() == order@[k as int]);
            assert(all[order@[k as int] as int] == shard@);
        }
        if holds(&quorum, shard.owner) {
            let ghost before = ref_views(members@);
            members.push(shard);
            proof {
                assert(ref_views(members@) =~= before.push(shard@));
                assert(taken(
                    all,
                    member_places(all, as_ints(order@).take(k + 1), quorum@),
                ) =~= before.push(shard@));
            }
        }
        k += 1;
    }
    proof {
        assert(as_ints(order@).take(order@.len() as int) =~= as_ints(order@));
    }
    Some(members)
}

/// The owners and the keys of all `members` but the one at `skip`, in order.
fn others_of(members: &Vec<&Shard>, skip: usize) -> (result: (Vec<u8>, Vec<Key>))
    requires
        skip < members@.len(),
    ensures
        result.0@ == owners_of(ref_views(members@)).remove(skip as int),
        key_views(result.1@) == keys_in(ref_views(members@)).remove(skip as int),
{
    let ghost all = ref_views(members@);
    let mut owners: Vec<u8> = Vec::new();
    let mut keys: Vec<Key> = Vec::new();
    let mut k: usize = 0;
    while k < members.len()
        invariant
            k <= members@.len(),
            skip < members@.len(),
            all == ref_views(members@),
            owners@.len() == if k <= skip {
                k as int
            } else {
                k - 1
            },
            keys@.len() == owners@.len(),
            forall|i: int|
                0 <= i < owners@.len() ==> #[trigger] owners@[i] == owners_of(all).remove(
                    skip as int,
                )[i],
            forall|i: int|
                0 <= i < keys@.len() ==> (#[trigger] keys@[i])@ == keys_in(all).remove(
                    skip as int,
                )[i],
        decreases members@.len() - k,
    {
        if k != skip {
            proof {
                assert(all[k as int] == members@[k as int]@);
            }
            owners.push(members[k].owner);
            keys.push(members[k].key.clone());
        }
        k += 1;
    }
    proof {
        assert(owners@ =~= owners_of(all).remove(skip as int));
        assert(key_views(keys@) =~= keys_in(all).remove(skip as int));
    }
    (owners, keys)
}

/// Recovers the wrapped key, the ciphertext and the primary nonce from the
/// shards `members` of a quorum, given by owner.
///
/// Fails with `QuorumUnavailable` where there are fewer than two members or
/// one of the first two holds no fragment for the others, and with
/// `QuorumDecryptFailure` where one of the two fragments does not open under
/// the keys of the others.
pub fn recover_from(members: &Vec<&Shard>) -> (result: Result<Recovered, CryptoError>)
    ensures
        match result {
            Ok(r) => recovered_from(ref_views(members@)) == Ok::<RecoveredView, CryptoError>(r@),
            Err(e) => recovered_from(ref_views(members@)) == Err::<RecoveredView, CryptoError>(e),
        },
{
    let ghost all = ref_views(members@);
    if members.len() < 2 {
        return Err(CryptoError::QuorumUnavailable);
    }
    let first: &Shard = members[0];
    let second: &Shard = members[1];
    proof {
        assert(all[0] == first@);
        assert(all[1] == second@);
    }
    let (owners0, keys0) = others_of(members, 0);
    let (owners1, keys1) = others_of(members, 1);
    let found0: Option<usize> = find_for(&first.fragments, &owners0);
    let found1: Option<usize> = find_for(&second.fragments, &owners1);
    let (f0, f1) = match (found0, found1) {
        (Some(f0), Some(f1)) => (f0, f1),
        _ => {
            return Err(CryptoError::QuorumUnavailable);
        },
    };
    let without_first: &Fragment = &first.fragments[f0];
    let without_second: &Fragment = &second.fragments[f1];
    proof {
        assert(first@.fragments[f0 as int] == without_first@);
        assert(second@.fragments[f1 as int] == without_second@);
    }
    let combo0: Key = Key::xor_keys(keys0.as_slice());
    let combo1: Key = Key::xor_keys(keys1.as_slice());
    let opened0: Option<Vec<u8>> = open(&combo0, without_first.key.as_slice());
    let opened1: Option<Vec<u8>> = open(&combo1, without_second.key.as_slice());
    let (k0, k1) = match (opened0, opened1) {
        (Some(k0), Some(k1)) => (k0, k1),
        _ => {
            return Err(CryptoError::QuorumDecryptFailure);
        },
    };
    let part_count: usize = members.len() - 1;
    let wrapped_key: Vec<u8> = rejoin_data(k0, k1, part_count);
    let ciphertext: Vec<u8> = rejoin_data(
        without_first.ciphertext.clone(),
        without_second.ciphertext.clone(),
        part_count,
    );
    Ok(
        Recovered {
            wrapped_key: wrapped_key,
            ciphertext: ciphertext,
            pri_nonce: first.pri_nonce.clone(),
        },
    )
}

/// Recovers the wrapped key, the ciphertext and the primary nonce from
/// `shards`, of which there may be more than a quorum, in any order.
///
/// Fails with `QuorumUnavailable` where the shards hold no quorum, and with
/// `QuorumDecryptFailure` where a fragment does not open.
pub fn reconstruct(shards: &Vec<Shard>) -> (result: Result<Recovered, CryptoError>)
    ensures
        match result {
            Ok(r) => reconstructed(shard_views(shards@)) == Ok::<RecoveredView, CryptoError>(r@),
            Err(e) => reconstructed(shard_views(shards@)) == Err::<RecoveredView, CryptoError>(e),
        },
{
    match select_quorum(shards) {
        Some(members) => recover_from(&members),
        None => Err(CryptoError::QuorumUnavailable),
    }
}

} // verus!

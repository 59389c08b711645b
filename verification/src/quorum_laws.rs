//! What holds of the shards that are dealt out: what they look like, that
//! fewer of them than a quorum recover nothing, and that a quorum or more of
//! them, in any order, recover what was dealt.

use vstd::prelude::*;
use crate::combos::binomial;
use crate::combos::combos;
use crate::combos::lemma_combo_found;
use crate::combos::lemma_combo_shape;
use crate::combos::lemma_combos_len;
use crate::distribute::dealt;
use crate::distribute::fragment_opens;
use crate::distribute::keys_of;
use crate::distribute::lemma_others;
use crate::distribute::others;
use crate::distribute::shard_dealt;
use crate::errors::crypto_error::CryptoError;
use crate::models::fragment::FragmentView;
use crate::models::key::KeyView;
use crate::models::shard::ShardView;
use crate::order::distinct_places;
use crate::order::lemma_distinct_places_len;
use crate::order::lemma_stable_order_upto;
use crate::order::stable_order;
use crate::order::taken;
use crate::parts::ascending;
use crate::parts::lemma_rank_is_insert_index;
use crate::parts::lemma_rejoined_elided;
use crate::parts::rank;
use crate::reconstruct::all_present;
use crate::reconstruct::first_covered;
use crate::reconstruct::first_for;
use crate::reconstruct::is_first_covered;
use crate::reconstruct::is_first_for;
use crate::reconstruct::keys_in;
use crate::reconstruct::member_places;
use crate::reconstruct::owners_of;
use crate::reconstruct::quorum_places;
use crate::reconstruct::reconstructed;
use crate::reconstruct::recovered_from;
use crate::reconstruct::RecoveredView;

verus! {

/// Each shard that is dealt out holds as many fragments as there are ways to
/// draw the rest of a quorum from the other trustees; the owners of each
/// fragment are that many, ascend, are trustees, and are not the shard's
/// owner.
pub proof fn lemma_fragment_shape(
    shards: Seq<ShardView>,
    ciphertext: Seq<u8>,
    wrapped_key: Seq<u8>,
    pri_nonce: Seq<u8>,
    keys: Seq<KeyView>,
    quorum: int,
    t: int,
    j: int,
)
    requires
        dealt(shards, ciphertext, wrapped_key, pri_nonce, keys, quorum),
        0 <= t < shards.len(),
        0 <= j < shards[t].fragments.len(),
    ensures
        shards[t].fragments.len() == binomial(shards.len() - 1, quorum - 1),
        shards[t].fragments[j].owners.len() == quorum - 1,
        ascending(shards[t].fragments[j].owners),
        forall|i: int|
            0 <= i < quorum - 1 ==> (#[trigger] shards[t].fragments[j].owners[i]) < shards.len()
                && shards[t].fragments[j].owners[i] != shards[t].owner,
{
    let trustees = shards.len() as int;
    let pool = others(trustees, t);
    let owners = shards[t].fragments[j].owners;
    assert(shard_dealt(shards[t], t, ciphertext, wrapped_key, pri_nonce, keys, quorum));
    lemma_others(trustees, t);
    lemma_combos_len(pool, quorum - 1);
    lemma_combo_shape(pool, quorum - 1, j);
    assert(owners == combos(pool, quorum - 1)[j]);
    assert forall|i: int| 0 <= i < quorum - 1 implies (#[trigger] owners[i]) < trustees
        && owners[i] != shards[t].owner by {
        assert(pool.contains(owners[i]));
        let m = choose|m: int| 0 <= m < pool.len() && pool[m] == owners[i];
        assert(pool[m] < trustees && pool[m] != t);
    }
}

/// Values of which none comes twice, all found in a sequence, are no more
/// than the sequence is long.
pub proof fn lemma_values_fit(vals: Seq<u8>, present: Seq<u8>)
    requires
        forall|a: int, b: int| 0 <= a < b < vals.len() ==> vals[a] != vals[b],
        all_present(vals, present),
    ensures
        vals.len() <= present.len(),
{
    let places = Seq::new(
        vals.len(),
        |i: int| choose|k: int| 0 <= k < present.len() && present[k] == vals[i],
    );
    assert forall|a: int| 0 <= a < places.len() implies 0 <= #[trigger] places[a] < present.len()
        && present[places[a]] == vals[a] by {
        assert(present.contains(vals[a]));
    }
    assert forall|a: int, b: int| 0 <= a < b < places.len() implies #[trigger] places[a]
        != #[trigger] places[b] by {
        assert(present[places[a]] == vals[a]);
        assert(present[places[b]] == vals[b]);
    }
    lemma_distinct_places_len(places, present.len() as int);
}

/// Of shards taken from those dealt out, each is the shard of its owner.
pub proof fn lemma_taken_shards(
    shards: Seq<ShardView>,
    ciphertext: Seq<u8>,
    wrapped_key: Seq<u8>,
    pri_nonce: Seq<u8>,
    keys: Seq<KeyView>,
    quorum: int,
    picked: Seq<int>,
)
    requires
        dealt(shards, ciphertext, wrapped_key, pri_nonce, keys, quorum),
        distinct_places(picked, shards.len() as int),
    ensures
        taken(shards, picked).len() == picked.len(),
        owners_of(taken(shards, picked)).len() == picked.len(),
        forall|i: int|
            0 <= i < picked.len() ==> (#[trigger] taken(shards, picked)[i]) == shards[picked[i]]
                && taken(shards, picked)[i].owner == picked[i] && owners_of(
                taken(shards, picked),
            )[i] == picked[i],
        forall|a: int, b: int|
            0 <= a < b < picked.len() ==> owners_of(taken(shards, picked))[a] != owners_of(
                taken(shards, picked),
            )[b],
{
    let sub = taken(shards, picked);
    assert forall|i: int| 0 <= i < picked.len() implies (#[trigger] sub[i]) == shards[picked[i]]
        && sub[i].owner == picked[i] && owners_of(sub)[i] == picked[i] by {
        assert(shard_dealt(
            shards[picked[i]],
            picked[i],
            ciphertext,
            wrapped_key,
            pri_nonce,
            keys,
            quorum,
        ));
    }
    assert forall|a: int, b: int| 0 <= a < b < picked.len() implies owners_of(sub)[a]
        != owners_of(sub)[b] by {
        assert(sub[a].owner == picked[a]);
        assert(sub[b].owner == picked[b]);
        assert(picked[a] != picked[b]);
    }
}

/// Fewer shards than a quorum, taken from those dealt out, recover nothing:
/// no fragment of theirs names owners that are all at hand.
pub proof fn lemma_quorum_necessity(
    shards: Seq<ShardView>,
    ciphertext: Seq<u8>,
    wrapped_key: Seq<u8>,
    pri_nonce: Seq<u8>,
    keys: Seq<KeyView>,
    quorum: int,
    picked: Seq<int>,
)
    requires
        dealt(shards, ciphertext, wrapped_key, pri_nonce, keys, quorum),
        distinct_places(picked, shards.len() as int),
        picked.len() < quorum,
    ensures
        reconstructed(taken(shards, picked)) == Err::<RecoveredView, CryptoError>(
            CryptoError::QuorumUnavailable,
        ),
{
    let sub = taken(shards, picked);
    let present = owners_of(sub);
    lemma_taken_shards(shards, ciphertext, wrapped_key, pri_nonce, keys, quorum, picked);
    if sub.len() > 0 {
        let order = stable_order(present);
        lemma_stable_order_upto(present, present.len() as int);
        let first = order[0];
        assert(0 <= first < sub.len());
        let lowest = sub[first];
        let t0 = picked[first];
        assert(lowest == shards[t0]);
        if exists|f: int| is_first_covered(lowest.fragments, present, f) {
            let f = choose|f: int| is_first_covered(lowest.fragments, present, f);
            let owners = lowest.fragments[f].owners;
            lemma_fragment_shape(shards, ciphertext, wrapped_key, pri_nonce, keys, quorum, t0, f);
            let vals = seq![lowest.owner] + owners;
            assert forall|a: int, b: int| 0 <= a < b < vals.len() implies vals[a] != vals[b] by {
                assert(vals[b] == owners[b - 1]);
                if a > 0 {
                    assert(vals[a] == owners[a - 1]);
                }
            }
            assert forall|i: int| 0 <= i < vals.len() implies present.contains(
                #[trigger] vals[i],
            ) by {
                if i == 0 {
                    assert(present[first] == lowest.owner);
                } else {
                    assert(vals[i] == owners[i - 1]);
                }
            }
            lemma_values_fit(vals, present);
        }
        assert(first_covered(lowest.fragments, present) is None);
    }
    assert(quorum_places(sub) is None);
}

/// Two ascending sequences that hold the same values are the same.
pub proof fn lemma_ascending_same(a: Seq<u8>, b: Seq<u8>)
    requires
        ascending(a),
        ascending(b),
        all_present(a, b),
        all_present(b, a),
    ensures
        a == b,
    decreases a.len(),
{
    if a.len() == 0 {
        if b.len() > 0 {
            assert(a.contains(b[0]));
        }
        assert(a =~= b);
    } else {
        assert(b.contains(a[0]));
        let top_a = a[a.len() - 1];
        let top_b = b[b.len() - 1];
        assert(b.contains(top_a));
        assert(a.contains(top_b));
        let at_b = choose|m: int| 0 <= m < b.len() && b[m] == top_a;
        let at_a = choose|m: int| 0 <= m < a.len() && a[m] == top_b;
        if at_b < b.len() - 1 {
            assert(b[at_b] < b[b.len() - 1]);
        }
        if at_a < a.len() - 1 {
            assert(a[at_a] < a[a.len() - 1]);
        }
        assert(top_a == top_b);
        let init_a = a.drop_last();
        let init_b = b.drop_last();
        assert forall|i: int| 0 <= i < init_a.len() implies init_b.contains(
            #[trigger] init_a[i],
        ) by {
            assert(init_a[i] == a[i]);
            assert(a[i] < a[a.len() - 1]);
            assert(b.contains(a[i]));
            let m = choose|m: int| 0 <= m < b.len() && b[m] == a[i];
            assert(init_b[m] == b[m]);
        }
        assert forall|i: int| 0 <= i < init_b.len() implies init_a.contains(
            #[trigger] init_b[i],
        ) by {
            assert(init_b[i] == b[i]);
            assert(b[i] < b[b.len() - 1]);
            assert(a.contains(b[i]));
            let m = choose|m: int| 0 <= m < a.len() && a[m] == b[i];
            assert(init_a[m] == a[m]);
        }
        assert(ascending(init_a)) by {
            assert forall|i: int, j: int| 0 <= i < j < init_a.len() implies init_a[i]
                < init_a[j] by {
                assert(a[i] < a[j]);
            }
        }
        assert(ascending(init_b)) by {
            assert forall|i: int, j: int| 0 <= i < j < init_b.len() implies init_b[i]
                < init_b[j] by {
                assert(b[i] < b[j]);
            }
        }
        lemma_ascending_same(init_a, init_b);
        assert(a =~= init_a.push(top_a));
        assert(b =~= init_b.push(top_b));
    }
}

/// Where some fragment's owners are all at hand, there is a first such
/// fragment.
pub proof fn lemma_first_covered_exists(fragments: Seq<FragmentView>, present: Seq<u8>, j: int)
    requires
        0 <= j < fragments.len(),
        all_present(fragments[j].owners, present),
    ensures
        first_covered(fragments, present) matches Some(f) && is_first_covered(
            fragments,
            present,
            f,
        ) && f <= j,
    decreases j,
{
    if forall|g: int| 0 <= g < j ==> !all_present((#[trigger] fragments[g]).owners, present) {
        assert(is_first_covered(fragments, present, j));
        crate::reconstruct::lemma_first_covered_is_one(fragments, present, j);
    } else {
        let g = choose|g: int| 0 <= g < j && all_present((#[trigger] fragments[g]).owners, present);
        lemma_first_covered_exists(fragments, present, g);
    }
}

/// Where some fragment has given owners, there is a first such fragment.
pub proof fn lemma_first_for_exists(fragments: Seq<FragmentView>, owners: Seq<u8>, j: int)
    requires
        0 <= j < fragments.len(),
        fragments[j].owners == owners,
    ensures
        first_for(fragments, owners) matches Some(f) && is_first_for(fragments, owners, f) && f
            <= j,
    decreases j,
{
    if forall|g: int| 0 <= g < j ==> (#[trigger] fragments[g]).owners != owners {
        assert(is_first_for(fragments, owners, j));
        crate::reconstruct::lemma_first_for_is_one(fragments, owners, j);
    } else {
        let g = choose|g: int| 0 <= g < j && (#[trigger] fragments[g]).owners == owners;
        lemma_first_for_exists(fragments, owners, g);
    }
}

/// The place of a byte among ascending bytes above it is the first, and
/// among ascending bytes of which just the first is below it, the second.
pub proof fn lemma_rank_low(owners: Seq<u8>, t: u8)
    requires
        ascending(owners),
    ensures
        (forall|i: int| 0 <= i < owners.len() ==> owners[i] > t) ==> rank(owners, t) == 0,
        owners.len() >= 1 && owners[0] < t && (forall|i: int|
            1 <= i < owners.len() ==> owners[i] > t) ==> rank(owners, t) == 1,
{
    lemma_rank_is_insert_index(owners, t);
    let r = rank(owners, t);
    if forall|i: int| 0 <= i < owners.len() ==> owners[i] > t {
        if r > 0 {
            assert(owners[0] < t);
        }
    }
    if owners.len() >= 1 && owners[0] < t && (forall|i: int|
        1 <= i < owners.len() ==> owners[i] > t) {
        if r == 0 {
            assert(owners[0] >= t);
        }
        if r > 1 {
            assert(owners[1] < t);
        }
    }
}

/// The shards of `owners`, of those dealt out, in the order of `owners`.
pub open spec fn shards_of(shards: Seq<ShardView>, owners: Seq<u8>) -> Seq<ShardView> {
    owners.map_values(|o: u8| shards[o as int])
}

/// What is left of an ascending sequence without one of its items ascends,
/// and holds none of the items twice.
proof fn lemma_remove_ascending(q: Seq<u8>, k: int)
    requires
        ascending(q),
        0 <= k < q.len(),
    ensures
        ascending(q.remove(k)),
        q.remove(k).len() == q.len() - 1,
        forall|i: int| 0 <= i < q.len() - 1 ==> (#[trigger] q.remove(k)[i]) != q[k],
        forall|i: int|
            0 <= i < q.len() - 1 ==> (#[trigger] q.remove(k)[i]) == q[if i < k {
                i
            } else {
                i + 1
            }],
{
    let rest = q.remove(k);
    assert forall|i: int| 0 <= i < q.len() - 1 implies (#[trigger] rest[i]) == q[if i < k {
        i
    } else {
        i + 1
    }] by {}
    assert forall|i: int, j: int| 0 <= i < j < rest.len() implies rest[i] < rest[j] by {
        let i0 = if i < k {
            i
        } else {
            i + 1
        };
        let j0 = if j < k {
            j
        } else {
            j + 1
        };
        assert(q[i0] < q[j0]);
    }
    assert forall|i: int| 0 <= i < q.len() - 1 implies (#[trigger] rest[i]) != q[k] by {
        if i < k {
            assert(q[i] < q[k]);
        } else {
            assert(q[k] < q[i + 1]);
        }
    }
}

/// Member `k` of a quorum, of the first two, holds a fragment for the other
/// members, which holds the ciphertext without part `k` and whose key opens,
/// under the keys of the others, to the wrapped key without part `k`.
proof fn lemma_member_fragment(
    shards: Seq<ShardView>,
    ciphertext: Seq<u8>,
    wrapped_key: Seq<u8>,
    pri_nonce: Seq<u8>,
    keys: Seq<KeyView>,
    quorum: int,
    q: Seq<u8>,
    k: int,
) -> (f: int)
    requires
        dealt(shards, ciphertext, wrapped_key, pri_nonce, keys, quorum),
        2 <= quorum,
        ascending(q),
        q.len() == quorum,
        forall|i: int| 0 <= i < q.len() ==> (#[trigger] q[i]) < shards.len(),
        0 <= k <= 1,
    ensures
        first_for(shards[q[k] as int].fragments, q.remove(k)) == Some(f),
        0 <= f < shards[q[k] as int].fragments.len(),
        shards[q[k] as int].fragments[f].ciphertext == crate::parts::elide(ciphertext, quorum, k),
        crate::aead::opened(
            crate::models::key::combine(keys_of(keys, q.remove(k))),
            shards[q[k] as int].fragments[f].key,
        ) == Some(crate::parts::elide(wrapped_key, quorum, k)),
{
    let trustees = shards.len() as int;
    let t = q[k];
    let rest = q.remove(k);
    let pool = others(trustees, t as int);
    let shard = shards[t as int];
    lemma_remove_ascending(q, k);
    lemma_others(trustees, t as int);
    assert(shard_dealt(shard, t as int, ciphertext, wrapped_key, pri_nonce, keys, quorum));
    assert forall|i: int| 0 <= i < rest.len() implies pool.contains(#[trigger] rest[i]) by {
        let i0 = if i < k {
            i
        } else {
            i + 1
        };
        assert(rest[i] == q[i0]);
        assert(q[i0] < trustees);
    }
    let j = lemma_combo_found(pool, rest);
    assert(shard.fragments[j].owners == rest);
    lemma_first_for_exists(shard.fragments, rest, j);
    let f = first_for(shard.fragments, rest)->Some_0;
    assert(is_first_for(shard.fragments, rest, f));
    assert(fragment_opens(shard.fragments[f], t, ciphertext, wrapped_key, keys, quorum));
    lemma_rank_low(rest, t);
    if k == 0 {
        assert forall|i: int| 0 <= i < rest.len() implies rest[i] > t by {
            assert(rest[i] == q[i + 1]);
            assert(q[0] < q[i + 1]);
        }
    } else {
        assert(rest[0] == q[0]);
        assert(q[0] < q[1]);
        assert forall|i: int| 1 <= i < rest.len() implies rest[i] > t by {
            assert(rest[i] == q[i + 1]);
            assert(q[1] < q[i + 1]);
        }
    }
    assert(rank(rest, t) == k);
    f
}

/// The shards of a quorum, by owner, recover what was dealt out.
pub proof fn lemma_members_recover(
    shards: Seq<ShardView>,
    ciphertext: Seq<u8>,
    wrapped_key: Seq<u8>,
    pri_nonce: Seq<u8>,
    keys: Seq<KeyView>,
    quorum: int,
    q: Seq<u8>,
)
    requires
        dealt(shards, ciphertext, wrapped_key, pri_nonce, keys, quorum),
        2 <= quorum,
        ascending(q),
        q.len() == quorum,
        forall|i: int| 0 <= i < q.len() ==> (#[trigger] q[i]) < shards.len(),
    ensures
        recovered_from(shards_of(shards, q)) == Ok::<RecoveredView, CryptoError>(
            RecoveredView {
                wrapped_key: wrapped_key,
                ciphertext: ciphertext,
                pri_nonce: pri_nonce,
            },
        ),
{
    let members = shards_of(shards, q);
    let owners = owners_of(members);
    let member_keys = keys_in(members);
    assert forall|i: int| 0 <= i < q.len() implies (#[trigger] members[i]).owner == q[i]
        && members[i].key == keys[q[i] as int] && members[i].pri_nonce == pri_nonce by {
        assert(shard_dealt(
            shards[q[i] as int],
            q[i] as int,
            ciphertext,
            wrapped_key,
            pri_nonce,
            keys,
            quorum,
        ));
    }
    assert(owners =~= q);
    assert(member_keys.remove(0) =~= keys_of(keys, q.remove(0)));
    assert(member_keys.remove(1) =~= keys_of(keys, q.remove(1)));
    let f0 = lemma_member_fragment(
        shards,
        ciphertext,
        wrapped_key,
        pri_nonce,
        keys,
        quorum,
        q,
        0,
    );
    let f1 = lemma_member_fragment(
        shards,
        ciphertext,
        wrapped_key,
        pri_nonce,
        keys,
        quorum,
        q,
        1,
    );
    assert(members[0] == shards[q[0] as int]);
    assert(members[1] == shards[q[1] as int]);
    lemma_rejoined_elided(wrapped_key, quorum);
    lemma_rejoined_elided(ciphertext, quorum);
}

/// The owner of the shard at place `i`.
pub open spec fn owner_at(shards: Seq<ShardView>, i: int) -> u8 {
    shards[i].owner
}

/// `order` holds places of `shards` whose owners ascend.
pub open spec fn owners_ascend(shards: Seq<ShardView>, order: Seq<int>) -> bool {
    &&& forall|k: int| 0 <= k < order.len() ==> 0 <= #[trigger] order[k] < shards.len()
    &&& forall|a: int, b: int|
        0 <= a < b < order.len() ==> owner_at(shards, #[trigger] order[a]) < owner_at(
            shards,
            #[trigger] order[b],
        )
}

/// Of places whose owners ascend, those whose owner is in a quorum are
/// places whose owners ascend, and they are all the places whose owner is in
/// the quorum.
proof fn lemma_member_places(shards: Seq<ShardView>, order: Seq<int>, quorum: Seq<u8>)
    requires
        owners_ascend(shards, order),
    ensures
        owners_ascend(shards, member_places(shards, order, quorum)),
        forall|i: int|
            0 <= i < member_places(shards, order, quorum).len() ==> quorum.contains(
                owner_at(shards, #[trigger] member_places(shards, order, quorum)[i]),
            ) && order.contains(member_places(shards, order, quorum)[i]),
        forall|k: int|
            0 <= k < order.len() && quorum.contains(owner_at(shards, #[trigger] order[k]))
                ==> member_places(shards, order, quorum).contains(order[k]),
    decreases order.len(),
{
    let places = member_places(shards, order, quorum);
    if order.len() > 0 {
        let init = order.drop_last();
        let last = order[order.len() - 1];
        let before = member_places(shards, init, quorum);
        assert(owners_ascend(shards, init)) by {
            assert forall|k: int| 0 <= k < init.len() implies 0 <= #[trigger] init[k]
                < shards.len() by {
                assert(init[k] == order[k]);
            }
            assert forall|a: int, b: int| 0 <= a < b < init.len() implies owner_at(
                shards,
                #[trigger] init[a],
            ) < owner_at(shards, #[trigger] init[b]) by {
                assert(init[a] == order[a] && init[b] == order[b]);
            }
        }
        lemma_member_places(shards, init, quorum);
        assert forall|i: int| 0 <= i < before.len() implies order.contains(
            #[trigger] before[i],
        ) && owner_at(shards, before[i]) < owner_at(shards, last) by {
            assert(init.contains(before[i]));
            let k = choose|k: int| 0 <= k < init.len() && init[k] == before[i];
            assert(order[k] == before[i]);
            assert(owner_at(shards, order[k]) < owner_at(shards, order[order.len() - 1]));
        }
        if quorum.contains(shards[last].owner) {
            assert(places == before.push(last));
            assert(places[before.len() as int] == last);
            assert forall|k: int| 0 <= k < places.len() implies 0 <= #[trigger] places[k]
                < shards.len() by {
                if k < before.len() {
                    assert(places[k] == before[k]);
                }
            }
            assert forall|a: int, b: int| 0 <= a < b < places.len() implies owner_at(
                shards,
                #[trigger] places[a],
            ) < owner_at(shards, #[trigger] places[b]) by {
                assert(places[a] == before[a]);
                if b < before.len() {
                    assert(places[b] == before[b]);
                }
            }
            assert forall|i: int| 0 <= i < places.len() implies quorum.contains(
                owner_at(shards, #[trigger] places[i]),
            ) && order.contains(places[i]) by {
                if i < before.len() {
                    assert(places[i] == before[i]);
                }
            }
            assert forall|k: int|
                0 <= k < order.len() && quorum.contains(
                    owner_at(shards, #[trigger] order[k]),
                ) implies places.contains(order[k]) by {
                if k < init.len() {
                    assert(init[k] == order[k]);
                    assert(before.contains(init[k]));
                    let i = choose|i: int| 0 <= i < before.len() && before[i] == init[k];
                    assert(places[i] == order[k]);
                }
            }
        } else {
            assert(places == before);
            assert forall|k: int|
                0 <= k < order.len() && quorum.contains(
                    owner_at(shards, #[trigger] order[k]),
                ) implies places.contains(order[k]) by {
                if k < init.len() {
                    assert(init[k] == order[k]);
                }
            }
        }
    }
}

/// Shards of which no two have one owner come, sorted by owner, with their
/// owners ascending, each of them once.
proof fn lemma_order_strict(sub: Seq<ShardView>)
    requires
        forall|a: int, b: int|
            0 <= a < b < sub.len() ==> owner_at(sub, a) != owner_at(sub, b),
    ensures
        owners_ascend(sub, stable_order(owners_of(sub))),
        stable_order(owners_of(sub)).len() == sub.len(),
        forall|i: int| 0 <= i < sub.len() ==> #[trigger] stable_order(owners_of(sub)).contains(i),
{
    let present = owners_of(sub);
    let order = stable_order(present);
    lemma_stable_order_upto(present, sub.len() as int);
    assert forall|a: int, b: int| 0 <= a < b < order.len() implies owner_at(
        sub,
        #[trigger] order[a],
    ) < owner_at(sub, #[trigger] order[b]) by {
        assert(crate::order::comes_before(present, order[a], order[b]));
        assert(present[order[a]] == sub[order[a]].owner);
        assert(present[order[b]] == sub[order[b]].owner);
        if order[a] < order[b] {
            assert(owner_at(sub, order[a]) != owner_at(sub, order[b]));
        } else if order[b] < order[a] {
            assert(owner_at(sub, order[b]) != owner_at(sub, order[a]));
        }
    }
}

/// Among a quorum or more of the shards dealt out, the shard of the lowest
/// owner names a quorum: its owner and as many others as a quorum needs,
/// ascending, all of them at hand.
proof fn lemma_quorum_named(
    shards: Seq<ShardView>,
    ciphertext: Seq<u8>,
    wrapped_key: Seq<u8>,
    pri_nonce: Seq<u8>,
    keys: Seq<KeyView>,
    quorum: int,
    picked: Seq<int>,
) -> (q: Seq<u8>)
    requires
        dealt(shards, ciphertext, wrapped_key, pri_nonce, keys, quorum),
        distinct_places(picked, shards.len() as int),
        picked.len() >= quorum,
    ensures
        quorum_places(taken(shards, picked)) == Some(
            member_places(
                taken(shards, picked),
                stable_order(owners_of(taken(shards, picked))),
                q,
            ),
        ),
        ascending(q),
        q.len() == quorum,
        forall|i: int| 0 <= i < q.len() ==> (#[trigger] q[i]) < shards.len(),
        all_present(q, owners_of(taken(shards, picked))),
{
    let trustees = shards.len() as int;
    let sub = taken(shards, picked);
    let present = owners_of(sub);
    let n = sub.len() as int;
    lemma_taken_shards(shards, ciphertext, wrapped_key, pri_nonce, keys, quorum, picked);
    let order = stable_order(present);
    assert forall|a: int, b: int| 0 <= a < b < sub.len() implies owner_at(sub, a) != owner_at(
        sub,
        b,
    ) by {
        assert(present[a] != present[b]);
    }
    lemma_order_strict(sub);
    let first = order[0];
    let lowest = sub[first];
    let a = picked[first];
    assert(0 <= first < n);
    assert(lowest == shards[a]);
    assert(lowest.owner == a);
    assert(present[first] == a);
    assert forall|i: int| 0 <= i < n implies present[i] >= a by {
        assert(order.contains(i));
        let k = choose|k: int| 0 <= k < order.len() && order[k] == i;
        if k > 0 {
            assert(owner_at(sub, order[0]) < owner_at(sub, order[k]));
        }
    }
    let next = Seq::new((quorum - 1) as nat, |m: int| present[order[m + 1]]);
    let pool = others(trustees, a);
    lemma_others(trustees, a);
    assert(ascending(next)) by {
        assert forall|i: int, j: int| 0 <= i < j < next.len() implies next[i] < next[j] by {
            assert(owner_at(sub, order[i + 1]) < owner_at(sub, order[j + 1]));
        }
    }
    assert forall|i: int| 0 <= i < next.len() implies pool.contains(#[trigger] next[i])
        && present.contains(next[i]) by {
        assert(owner_at(sub, order[0]) < owner_at(sub, order[i + 1]));
        assert(0 <= order[i + 1] < n);
        assert(next[i] == picked[order[i + 1]]);
    }
    let j = lemma_combo_found(pool, next);
    assert(shard_dealt(lowest, a, ciphertext, wrapped_key, pri_nonce, keys, quorum));
    assert(lowest.fragments[j].owners == next);
    lemma_first_covered_exists(lowest.fragments, present, j);
    let f = first_covered(lowest.fragments, present)->Some_0;
    assert(is_first_covered(lowest.fragments, present, f));
    let rest = lowest.fragments[f].owners;
    lemma_fragment_shape(shards, ciphertext, wrapped_key, pri_nonce, keys, quorum, a, f);
    let q = seq![lowest.owner] + rest;
    assert(q[0] == a);
    assert forall|i: int| 0 <= i < rest.len() implies (#[trigger] rest[i]) > a && q[i + 1]
        == rest[i] by {
        assert(present.contains(rest[i]));
        let m = choose|m: int| 0 <= m < present.len() && present[m] == rest[i];
        assert(present[m] >= a);
    }
    assert(ascending(q)) by {
        assert forall|i: int, k: int| 0 <= i < k < q.len() implies q[i] < q[k] by {
            assert(q[k] == rest[k - 1]);
            if i > 0 {
                assert(q[i] == rest[i - 1]);
            }
        }
    }
    assert forall|i: int| 0 <= i < q.len() implies (#[trigger] q[i]) < trustees
        && present.contains(q[i]) by {
        if i > 0 {
            assert(q[i] == rest[i - 1]);
        }
    }
    q
}

/// Of shards that come with their owners ascending, each once, those whose
/// owner is in a quorum that is at hand are the shards of the quorum, by
/// owner.
proof fn lemma_members_are(
    shards: Seq<ShardView>,
    sub: Seq<ShardView>,
    order: Seq<int>,
    q: Seq<u8>,
)
    requires
        owners_ascend(sub, order),
        forall|i: int| 0 <= i < sub.len() ==> #[trigger] order.contains(i),
        forall|i: int|
            0 <= i < sub.len() ==> owner_at(sub, i) < shards.len() && (#[trigger] sub[i])
                == shards[owner_at(sub, i) as int],
        ascending(q),
        all_present(q, owners_of(sub)),
    ensures
        taken(sub, member_places(sub, order, q)) == shards_of(shards, q),
{
    let present = owners_of(sub);
    let places = member_places(sub, order, q);
    lemma_member_places(sub, order, q);
    let members = taken(sub, places);
    let found = owners_of(members);
    assert forall|i: int| 0 <= i < places.len() implies (#[trigger] found[i]) == owner_at(
        sub,
        places[i],
    ) && members[i] == shards[found[i] as int] by {
        assert(members[i] == sub[places[i]]);
    }
    assert(ascending(found)) by {
        assert forall|i: int, k: int| 0 <= i < k < found.len() implies found[i] < found[k] by {
            assert(owner_at(sub, places[i]) < owner_at(sub, places[k]));
        }
    }
    assert(all_present(found, q)) by {
        assert forall|i: int| 0 <= i < found.len() implies q.contains(#[trigger] found[i]) by {
            assert(q.contains(owner_at(sub, places[i])));
        }
    }
    assert(all_present(q, found)) by {
        assert forall|i: int| 0 <= i < q.len() implies found.contains(#[trigger] q[i]) by {
            assert(present.contains(q[i]));
            let m = choose|m: int| 0 <= m < present.len() && present[m] == q[i];
            assert(order.contains(m));
            let k = choose|k: int| 0 <= k < order.len() && order[k] == m;
            assert(owner_at(sub, order[k]) == q[i]);
            assert(places.contains(order[k]));
            let p = choose|p: int| 0 <= p < places.len() && places[p] == order[k];
            assert(found[p] == q[i]);
        }
    }
    lemma_ascending_same(found, q);
    assert(members =~= shards_of(shards, q));
}

/// Shards dealt out for a quorum of one, however many and in any order,
/// recover nothing: the quorum that the lowest owner names has one member,
/// and a recovery needs two.
pub proof fn lemma_quorum_of_one(
    shards: Seq<ShardView>,
    ciphertext: Seq<u8>,
    wrapped_key: Seq<u8>,
    pri_nonce: Seq<u8>,
    keys: Seq<KeyView>,
    picked: Seq<int>,
)
    requires
        dealt(shards, ciphertext, wrapped_key, pri_nonce, keys, 1),
        distinct_places(picked, shards.len() as int),
    ensures
        reconstructed(taken(shards, picked)) == Err::<RecoveredView, CryptoError>(
            CryptoError::QuorumUnavailable,
        ),
{
    if picked.len() == 0 {
        lemma_quorum_necessity(shards, ciphertext, wrapped_key, pri_nonce, keys, 1, picked);
    } else {
        let sub = taken(shards, picked);
        let order = stable_order(owners_of(sub));
        lemma_taken_shards(shards, ciphertext, wrapped_key, pri_nonce, keys, 1, picked);
        let q = lemma_quorum_named(shards, ciphertext, wrapped_key, pri_nonce, keys, 1, picked);
        assert forall|a: int, b: int| 0 <= a < b < sub.len() implies owner_at(sub, a) != owner_at(
            sub,
            b,
        ) by {
            assert(owners_of(sub)[a] != owners_of(sub)[b]);
        }
        lemma_order_strict(sub);
        assert forall|i: int| 0 <= i < sub.len() implies owner_at(sub, i) < shards.len()
            && (#[trigger] sub[i]) == shards[owner_at(sub, i) as int] by {
            assert(sub[i] == shards[picked[i]]);
        }
        lemma_members_are(shards, sub, order, q);
        assert(shards_of(shards, q).len() == 1);
    }
}

/// A quorum of two or more, or more than the quorum, of the shards dealt out,
/// in any order, recover the wrapped key, the ciphertext and the primary
/// nonce that were dealt out.
pub proof fn lemma_quorum_sufficiency(
    shards: Seq<ShardView>,
    ciphertext: Seq<u8>,
    wrapped_key: Seq<u8>,
    pri_nonce: Seq<u8>,
    keys: Seq<KeyView>,
    quorum: int,
    picked: Seq<int>,
)
    requires
        dealt(shards, ciphertext, wrapped_key, pri_nonce, keys, quorum),
        2 <= quorum,
        distinct_places(picked, shards.len() as int),
        picked.len() >= quorum,
    ensures
        reconstructed(taken(shards, picked)) == Ok::<RecoveredView, CryptoError>(
            RecoveredView {
                wrapped_key: wrapped_key,
                ciphertext: ciphertext,
                pri_nonce: pri_nonce,
            },
        ),
{
    let sub = taken(shards, picked);
    let order = stable_order(owners_of(sub));
    lemma_taken_shards(shards, ciphertext, wrapped_key, pri_nonce, keys, quorum, picked);
    let q = lemma_quorum_named(shards, ciphertext, wrapped_key, pri_nonce, keys, quorum, picked);
    assert forall|a: int, b: int| 0 <= a < b < sub.len() implies owner_at(sub, a) != owner_at(
        sub,
        b,
    ) by {
        assert(owners_of(sub)[a] != owners_of(sub)[b]);
    }
    lemma_order_strict(sub);
    assert forall|i: int| 0 <= i < sub.len() implies owner_at(sub, i) < shards.len()
        && (#[trigger] sub[i]) == shards[owner_at(sub, i) as int] by {
        assert(sub[i] == shards[picked[i]]);
    }
    lemma_members_are(shards, sub, order, q);
    lemma_members_recover(shards, ciphertext, wrapped_key, pri_nonce, keys, quorum, q);
}

/// `shards` are one shard for each of `trustees` trustees, in order, each
/// with one fragment for each way to draw the rest of a quorum from the other
/// trustees; the owners of a fragment are one fewer than the quorum, ascend,
/// are trustees, and are not the shard's owner.
pub open spec fn well_shaped(shards: Seq<ShardView>, trustees: int, quorum: int) -> bool {
    &&& shards.len() == trustees
    &&& forall|t: int|
        0 <= t < trustees ==> (#[trigger] shards[t]).owner == t && shards[t].fragments.len()
            == binomial(trustees - 1, quorum - 1)
    &&& forall|t: int, j: int|
        0 <= t < trustees && 0 <= j < shards[t].fragments.len() ==> fragment_shaped(
            #[trigger] shards[t].fragments[j].owners,
            t,
            trustees,
            quorum,
        )
}

/// `owners` are one fewer than the quorum, ascend, are trustees, and are not
/// trustee `t`.
pub open spec fn fragment_shaped(owners: Seq<u8>, t: int, trustees: int, quorum: int) -> bool {
    &&& owners.len() == quorum - 1
    &&& ascending(owners)
    &&& forall|i: int| 0 <= i < owners.len() ==> (#[trigger] owners[i]) < trustees && owners[i] != t
}

/// The shards that are dealt out are well shaped.
pub proof fn lemma_dealt_shape(
    shards: Seq<ShardView>,
    ciphertext: Seq<u8>,
    wrapped_key: Seq<u8>,
    pri_nonce: Seq<u8>,
    keys: Seq<KeyView>,
    quorum: int,
)
    requires
        dealt(shards, ciphertext, wrapped_key, pri_nonce, keys, quorum),
    ensures
        well_shaped(shards, keys.len() as int, quorum),
{
    let trustees = keys.len() as int;
    assert forall|t: int| 0 <= t < trustees implies (#[trigger] shards[t]).owner == t
        && shards[t].fragments.len() == binomial(trustees - 1, quorum - 1) by {
        assert(shard_dealt(
            shards[t],
            t,
            ciphertext,
            wrapped_key,
            pri_nonce,
            keys,
            quorum,
        ));
        lemma_combos_len(others(trustees, t), quorum - 1);
    }
    assert forall|t: int, j: int|
        0 <= t < trustees && 0 <= j < shards[t].fragments.len() implies fragment_shaped(
        #[trigger] shards[t].fragments[j].owners,
        t,
        trustees,
        quorum,
    ) by {
        lemma_fragment_shape(
            shards,
            ciphertext,
            wrapped_key,
            pri_nonce,
            keys,
            quorum,
            t,
            j,
        );
    }
}

/// What holds of the shards that are dealt out. For a quorum of two or more,
/// a quorum or more of them, in any order, recover the wrapped key, the
/// ciphertext and the primary nonce that were dealt out. Fewer of them than a
/// quorum recover nothing, and for a quorum of one no number of them
/// recovers anything.
pub open spec fn quorum_recovers(
    shards: Seq<ShardView>,
    quorum: int,
    ciphertext: Seq<u8>,
    wrapped_key: Seq<u8>,
    pri_nonce: Seq<u8>,
) -> bool {
    &&& forall|ss: Seq<int>|
        quorum >= 2 && distinct_places(ss, shards.len() as int) && ss.len() >= quorum
            ==> #[trigger] reconstructed(taken(shards, ss)) == Ok::<RecoveredView, CryptoError>(
            RecoveredView {
                wrapped_key: wrapped_key,
                ciphertext: ciphertext,
                pri_nonce: pri_nonce,
            },
        )
    &&& forall|ss: Seq<int>|
        distinct_places(ss, shards.len() as int) && (ss.len() < quorum || quorum == 1)
            ==> #[trigger] reconstructed(taken(shards, ss)) == Err::<RecoveredView, CryptoError>(
            CryptoError::QuorumUnavailable,
        )
}

/// The shards that are dealt out obey [`quorum_recovers`].
pub proof fn lemma_quorum_recovers(
    shards: Seq<ShardView>,
    ciphertext: Seq<u8>,
    wrapped_key: Seq<u8>,
    pri_nonce: Seq<u8>,
    keys: Seq<KeyView>,
    quorum: int,
)
    requires
        dealt(shards, ciphertext, wrapped_key, pri_nonce, keys, quorum),
    ensures
        quorum_recovers(shards, quorum, ciphertext, wrapped_key, pri_nonce),
{
    assert forall|ss: Seq<int>|
        quorum >= 2 && distinct_places(ss, shards.len() as int) && ss.len() >= quorum
        implies #[trigger] reconstructed(taken(shards, ss)) == Ok::<RecoveredView, CryptoError>(
        RecoveredView { wrapped_key: wrapped_key, ciphertext: ciphertext, pri_nonce: pri_nonce },
    ) by {
        lemma_quorum_sufficiency(shards, ciphertext, wrapped_key, pri_nonce, keys, quorum, ss);
    }
    assert forall|ss: Seq<int>|
        distinct_places(ss, shards.len() as int) && (ss.len() < quorum || quorum == 1)
        implies #[trigger] reconstructed(taken(shards, ss)) == Err::<RecoveredView, CryptoError>(
        CryptoError::QuorumUnavailable,
    ) by {
        if quorum == 1 {
            lemma_quorum_of_one(shards, ciphertext, wrapped_key, pri_nonce, keys, ss);
        } else {
            lemma_quorum_necessity(shards, ciphertext, wrapped_key, pri_nonce, keys, quorum, ss);
        }
    }
}

} // verus!

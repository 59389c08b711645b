//! Cutting a buffer into contiguous parts and putting parts together again.
//!
//! A buffer of `len` bytes cut into `n` parts gives parts of `len / n` bytes,
//! the first `len % n` of them one byte longer.

use vstd::prelude::*;
use vstd::arithmetic::div_mod::lemma_fundamental_div_mod;
use vstd::arithmetic::div_mod::lemma_fundamental_div_mod_converse;
use vstd::slice::slice_subrange;
use vstd::slice::slice_to_vec;
use crate::errors::crypto_error::CryptoError;

verus! {

/// Length of part `i` when `len` bytes are cut into `n` parts.
pub open spec fn part_len(len: int, n: int, i: int) -> int {
    len / n + if i < len % n { 1int } else { 0int }
}

/// Offset of the first byte of part `i` when `len` bytes are cut into `n`
/// parts: `i` short parts and one more byte for each long part before `i`.
pub open spec fn part_start(len: int, n: int, i: int) -> int {
    i * (len / n) + if i < len % n { i } else { len % n }
}

/// Part `i` of `buf` cut into `n` parts.
pub open spec fn part_of(buf: Seq<u8>, n: int, i: int) -> Seq<u8> {
    buf.subrange(part_start(buf.len() as int, n, i), part_start(buf.len() as int, n, i + 1))
}

/// The `n` parts of `buf`, in order.
pub open spec fn split(buf: Seq<u8>, n: int) -> Seq<Seq<u8>> {
    Seq::new(n as nat, |i: int| part_of(buf, n, i))
}

/// `buf` without part `i` of its `n` parts.
pub open spec fn elide(buf: Seq<u8>, n: int, i: int) -> Seq<u8> {
    buf.subrange(0, part_start(buf.len() as int, n, i)) + buf.subrange(
        part_start(buf.len() as int, n, i + 1),
        buf.len() as int,
    )
}

/// The views of the byte vectors of `parts`, in order.
pub open spec fn views(parts: Seq<Vec<u8>>) -> Seq<Seq<u8>> {
    parts.map_values(|p: Vec<u8>| p@)
}

/// Parts follow one another without gap or overlap, from offset 0 to `len`.
pub proof fn lemma_part_bounds(len: int, n: int, i: int)
    requires
        0 <= len,
        1 <= n,
        0 <= i < n,
    ensures
        part_start(len, n, 0) == 0,
        part_start(len, n, n) == len,
        0 <= part_start(len, n, i),
        part_start(len, n, i + 1) == part_start(len, n, i) + part_len(len, n, i),
        part_start(len, n, i + 1) <= len,
        0 <= len / n <= part_len(len, n, i),
{
    let p = len / n;
    let r = len % n;
    lemma_fundamental_div_mod(len, n);
    assert(0 <= r < n);
    assert(0 <= p) by (nonlinear_arith)
        requires
            len == n * p + r,
            0 <= r < n,
            0 <= len,
            1 <= n,
    ;
    assert(0 * p == 0) by (nonlinear_arith);
    assert(n * p == p * n) by (nonlinear_arith);
    assert((i + 1) * p == i * p + p) by (nonlinear_arith);
    assert(0 <= i * p && (i + 1) * p <= n * p) by (nonlinear_arith)
        requires
            0 <= i < n,
            0 <= p,
    ;
}


/// The first `k` parts of `buf` cut into `n` parts, put together, are the
/// prefix of `buf` that ends where part `k` begins.
pub proof fn lemma_split_prefix(buf: Seq<u8>, n: int, k: int)
    requires
        1 <= n,
        0 <= k <= n,
    ensures
        split(buf, n).take(k).flatten() == buf.subrange(0, part_start(buf.len() as int, n, k)),
    decreases k,
{
    let len = buf.len() as int;
    if k == 0 {
        lemma_part_bounds(len, n, 0);
        assert(split(buf, n).take(0) =~= Seq::<Seq<u8>>::empty());
    } else {
        lemma_split_prefix(buf, n, k - 1);
        lemma_part_bounds(len, n, k - 1);
        if k - 1 > 0 {
            lemma_part_bounds(len, n, k - 2);
        }
        let before = split(buf, n).take(k - 1);
        assert(split(buf, n).take(k) =~= before.push(part_of(buf, n, k - 1)));
        before.lemma_flatten_push(part_of(buf, n, k - 1));
        assert(before.flatten() + part_of(buf, n, k - 1) =~= buf.subrange(
            0,
            part_start(len, n, k),
        ));
    }
}

/// Putting the parts of a buffer together gives the buffer back.
pub proof fn lemma_split_flatten(buf: Seq<u8>, n: int)
    requires
        1 <= n,
    ensures
        split(buf, n).flatten() == buf,
{
    lemma_split_prefix(buf, n, n);
    lemma_part_bounds(buf.len() as int, n, 0);
    assert(split(buf, n).take(n) =~= split(buf, n));
    assert(buf.subrange(0, buf.len() as int) =~= buf);
}

/// Leaving part `i` out is the same as cutting into parts, dropping part `i`
/// and putting the rest together; what is left is shorter by that part.
pub proof fn lemma_elide_is_split_without(buf: Seq<u8>, n: int, i: int)
    requires
        1 <= n,
        0 <= i < n,
    ensures
        elide(buf, n, i) == split(buf, n).remove(i).flatten(),
        elide(buf, n, i).len() == buf.len() - split(buf, n)[i].len(),
        split(buf, n)[i].len() == part_len(buf.len() as int, n, i),
{
    let len = buf.len() as int;
    let parts = split(buf, n);
    lemma_part_bounds(len, n, i);
    lemma_split_prefix(buf, n, i);
    lemma_split_prefix(buf, n, i + 1);
    lemma_split_flatten(buf, n);
    let head = parts.take(i);
    let tail = parts.skip(i + 1);
    assert(parts.remove(i) =~= head + tail);
    assert(parts =~= parts.take(i + 1) + tail);
    vstd::seq_lib::lemma_flatten_concat(head, tail);
    vstd::seq_lib::lemma_flatten_concat(parts.take(i + 1), tail);
    let cut = part_start(len, n, i + 1);
    assert(tail.flatten() =~= buf.subrange(cut, len)) by {
        let whole = parts.take(i + 1).flatten() + tail.flatten();
        assert(whole == buf);
        assert(parts.take(i + 1).flatten().len() == cut);
        assert(tail.flatten() =~= whole.subrange(cut, whole.len() as int));
    }
}

/// What a buffer was, given what is left of it without its first part and
/// what is left of it without its second part, each of its parts but one in
/// `part_count` parts: the first part of the second, then all of the first.
pub open spec fn rejoined(without_first: Seq<u8>, without_second: Seq<u8>, part_count: int) -> Seq<
    u8,
> {
    part_of(without_second, part_count, 0) + without_first
}

/// A buffer cut into `n >= 2` parts comes back from what is left without
/// part 0 and what is left without part 1. The longer parts come first, so
/// what is left without part 1 still begins with all of part 0 when it is cut
/// into `n - 1` parts.
pub proof fn lemma_rejoined_elided(buf: Seq<u8>, n: int)
    requires
        2 <= n,
    ensures
        rejoined(elide(buf, n, 0), elide(buf, n, 1), n - 1) == buf,
{
    let len = buf.len() as int;
    let p = len / n;
    let r = len % n;
    let m = n - 1;
    lemma_part_bounds(len, n, 0);
    lemma_part_bounds(len, n, 1);
    lemma_fundamental_div_mod(len, n);
    let first = part_start(len, n, 1);
    let second = part_start(len, n, 2);
    let rest = elide(buf, n, 1);
    let rest_len = rest.len() as int;
    assert(rest_len == len - part_len(len, n, 1));
    assert(n * p == m * p + p) by (nonlinear_arith)
        requires
            m == n - 1,
    ;
    assert(p * m == m * p) by (nonlinear_arith);
    if r >= 2 {
        lemma_fundamental_div_mod_converse(rest_len, m, p, r - 1);
    } else if r == 1 {
        if m >= 2 {
            lemma_fundamental_div_mod_converse(rest_len, m, p, 1);
        } else {
            assert((p + 1) * m == p + 1) by (nonlinear_arith)
                requires
                    m == 1,
            ;
            lemma_fundamental_div_mod_converse(rest_len, m, p + 1, 0);
        }
    } else {
        lemma_fundamental_div_mod_converse(rest_len, m, p, 0);
    }
    assert(part_start(rest_len, m, 0) == 0) by (nonlinear_arith)
        requires
            0 <= rest_len % m,
    ;
    assert(part_start(rest_len, m, 1) == first);
    assert(part_of(rest, m, 0) =~= buf.subrange(0, first));
    assert(elide(buf, n, 0) =~= buf.subrange(first, len));
    assert(buf.subrange(0, first) + buf.subrange(first, len) =~= buf);
}

/// Cuts `data` into `n` contiguous parts, the first `data.len() % n` of them
/// one byte longer than the rest.
pub fn split_data(data: Vec<u8>, n: usize) -> (parts: Vec<Vec<u8>>)
    requires
        n >= 1,
    ensures
        views(parts@) == split(data@, n as int),
        views(parts@).flatten() == data@,
{
    let len: usize = data.len();
    let part_size: usize = len / n;
    let remainder: usize = len % n;
    let mut parts: Vec<Vec<u8>> = Vec::new();
    let mut start: usize = 0;
    let mut i: usize = 0;
    while i < n
        invariant
            n >= 1,
            i <= n,
            len == data@.len(),
            part_size == len as int / n as int,
            remainder == len as int % n as int,
            start == part_start(len as int, n as int, i as int),
            views(parts@) =~= split(data@, n as int).take(i as int),
        decreases n - i,
    {
        proof {
            lemma_part_bounds(len as int, n as int, i as int);
        }
        let extra: usize = if i < remainder { 1 } else { 0 };
        let end: usize = start + part_size + extra;
        let part: Vec<u8> = slice_to_vec(slice_subrange(data.as_slice(), start, end));
        let ghost before = views(parts@);
        parts.push(part);
        proof {
            assert(part@ == part_of(data@, n as int, i as int));
            assert(views(parts@) =~= before.push(part@));
            assert(split(data@, n as int).take(i + 1) =~= split(data@, n as int).take(
                i as int,
            ).push(part_of(data@, n as int, i as int)));
        }
        start = end;
        i += 1;
    }
    proof {
        assert(split(data@, n as int).take(n as int) =~= split(data@, n as int));
        lemma_split_flatten(data@, n as int);
    }
    parts
}

/// Puts `parts` together, in order.
pub fn reassemble_data(parts: Vec<Vec<u8>>) -> (result: Vec<u8>)
    ensures
        result@ == views(parts@).flatten(),
{
    let mut result: Vec<u8> = Vec::new();
    let mut i: usize = 0;
    assert(views(parts@).take(0) =~= Seq::<Seq<u8>>::empty());
    while i < parts.len()
        invariant
            i <= parts.len(),
            result@ == views(parts@).take(i as int).flatten(),
        decreases parts.len() - i,
    {
        let ghost before = result@;
        result.extend_from_slice(parts[i].as_slice());
        proof {
            let done = views(parts@).take(i as int);
            assert(result@ =~= before + parts[i as int]@);
            assert(views(parts@).take(i + 1) =~= done.push(parts[i as int]@));
            done.lemma_flatten_push(parts[i as int]@);
        }
        i += 1;
    }
    assert(views(parts@).take(parts.len() as int) =~= views(parts@));
    result
}

/// Puts a buffer together from what is left of it without its first part and
/// what is left of it without its second part: cuts both into `part_count`
/// parts, puts the first part of the second before the parts of the first,
/// and joins them.
pub fn rejoin_data(without_first: Vec<u8>, without_second: Vec<u8>, part_count: usize) -> (result:
    Vec<u8>)
    requires
        part_count >= 1,
    ensures
        result@ == rejoined(without_first@, without_second@, part_count as int),
{
    let ghost rest = without_first@;
    let mut parts: Vec<Vec<u8>> = split_data(without_first, part_count);
    let mut others: Vec<Vec<u8>> = split_data(without_second, part_count);
    let ghost tail = views(parts@);
    let head: Vec<u8> = others.swap_remove(0);
    parts.insert(0, head);
    proof {
        assert(views(parts@) =~= seq![head@] + tail);
        vstd::seq_lib::lemma_flatten_concat(seq![head@], tail);
        seq![head@].lemma_flatten_singleton();
    }
    reassemble_data(parts)
}

/// How many bytes of `haystack` are smaller than `needle`.
pub open spec fn rank(haystack: Seq<u8>, needle: u8) -> int {
    haystack.filter(|b: u8| b < needle).len() as int
}

/// `s` ascends strictly.
pub open spec fn ascending(s: Seq<u8>) -> bool {
    forall|i: int, j: int| 0 <= i < j < s.len() ==> s[i] < s[j]
}

/// In an ascending sequence the rank of a byte is the place where it stands,
/// or where it would have to be put to keep the sequence ascending.
pub proof fn lemma_rank_is_insert_index(haystack: Seq<u8>, needle: u8)
    requires
        ascending(haystack),
    ensures
        0 <= rank(haystack, needle) <= haystack.len(),
        forall|i: int| 0 <= i < rank(haystack, needle) ==> haystack[i] < needle,
        forall|i: int| rank(haystack, needle) <= i < haystack.len() ==> haystack[i] >= needle,
    decreases haystack.len(),
{
    let below = |b: u8| b < needle;
    if haystack.len() == 0 {
    } else {
        let init = haystack.drop_last();
        lemma_rank_is_insert_index(init, needle);
        assert(haystack =~= init.push(haystack.last()));
        init.lemma_filter_push(haystack.last(), below);
        if haystack.last() < needle {
            assert forall|i: int| 0 <= i < init.len() implies init[i] < needle by {
                assert(haystack[i] < haystack[haystack.len() - 1]);
            }
            if rank(init, needle) < init.len() {
                assert(init[rank(init, needle)] >= needle);
            }
        }
    }
}

/// The place at which `needle` stands in the ascending `haystack`, or at which
/// it would have to be put: the number of its bytes smaller than `needle`.
pub fn find_insert_index(haystack: &Vec<u8>, needle: u8) -> (index: usize)
    ensures
        index == rank(haystack@, needle),
        index <= haystack.len(),
{
    let mut index: usize = 0;
    let mut i: usize = 0;
    assert(haystack@.take(0) =~= Seq::<u8>::empty());
    while i < haystack.len()
        invariant
            i <= haystack.len(),
            index <= i,
            index == rank(haystack@.take(i as int), needle),
        decreases haystack.len() - i,
    {
        proof {
            assert(haystack@.take(i + 1) =~= haystack@.take(i as int).push(haystack[i as int]));
            haystack@.take(i as int).lemma_filter_push(haystack[i as int], |b: u8| b < needle);
        }
        if haystack[i] < needle {
            index += 1;
        }
        i += 1;
    }
    assert(haystack@.take(haystack.len() as int) =~= haystack@);
    index
}

/// `haystack` without part `idx` of its `parts` parts. There is no such part
/// where `idx` is not below `parts`.
pub fn remove_part(haystack: &Vec<u8>, parts: usize, idx: usize) -> (result: Result<
    Vec<u8>,
    CryptoError,
>)
    ensures
        idx < parts ==> (result matches Ok(rest) && rest@ == elide(
            haystack@,
            parts as int,
            idx as int,
        )),
        idx >= parts ==> result == Err::<Vec<u8>, CryptoError>(CryptoError::OutOfRange),
{
    if idx >= parts {
        return Err(CryptoError::OutOfRange);
    }
    let mut split: Vec<Vec<u8>> = split_data(haystack.clone(), parts);
    let ghost whole = views(split@);
    let _ = split.remove(idx);
    proof {
        assert(views(split@) =~= whole.remove(idx as int));
        lemma_elide_is_split_without(haystack@, parts as int, idx as int);
    }
    Ok(reassemble_data(split))
}

} // verus!

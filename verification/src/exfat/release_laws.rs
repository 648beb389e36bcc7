//! Truncating a file keeps the bytes that stay, and deleting one frees its clusters.

#[allow(unused_imports)]
use crate::bytes::{le32, le32_round_trip};
#[allow(unused_imports)]
use crate::exfat::bitmap::{bytes_for, packed};
#[allow(unused_imports)]
use crate::exfat::device::splice;
#[allow(unused_imports)]
use crate::exfat::edit::{
    clusters_for, deleted, resized, resized_set, set_on_device, shrunk, synced, truncated, walked,
};
#[allow(unused_imports)]
use crate::exfat::entry::{DELETED_FILE, ExFatFileEntry};
#[allow(unused_imports)]
use crate::exfat::entry_writer::checksum_matches;
#[allow(unused_imports)]
use crate::exfat::error::ExFatError;
#[allow(unused_imports)]
use crate::exfat::fat::{
    entry_at, entry_write, fat_table, holds_fat, table_unchanged, END_OF_CHAIN, MEDIA_DESCRIPTOR,
};
#[allow(unused_imports)]
use crate::exfat::file_laws::{byte_is_in_the_clusters, clusters_are_few, disjoint};
#[allow(unused_imports)]
use crate::exfat::file_reader::{file_byte, nth_cluster};
#[allow(unused_imports)]
use crate::exfat::file_writer::{chained, owns};
#[allow(unused_imports)]
use crate::exfat::info::{clusters_are_apart, ExFatInfo};
#[allow(unused_imports)]
use crate::exfat::volume::{
    complete_holds_fat, freed, freed_chain, marked_run, with_entry, with_table, VolState,
};
use vstd::prelude::*;

verus! {

/// Freeing a chain changes the entries of its clusters, and no others.
proof fn freed_chain_touches(
    info: ExFatInfo,
    table: Seq<u32>,
    bits: Seq<bool>,
    clusters: Seq<u32>,
)
    requires
        info.wf(),
        table.len() == info.cluster_count + 2,
        bits.len() == info.cluster_count,
        clusters.len() > 0,
        clusters.no_duplicates(),
        forall|i: int| 0 <= i < clusters.len() ==> info.has(#[trigger] clusters[i]),
        chained(table, clusters),
    ensures
        ({
            let (r, t, b) = freed_chain(info, table, bits, clusters[0]);
            &&& r == Ok::<(), ExFatError>(())
            &&& t.len() == table.len()
            &&& b.len() == bits.len()
            &&& forall|c: int|
                0 <= c < table.len() && !(exists|i: int|
                    0 <= i < clusters.len() && #[trigger] clusters[i] == c) ==> t[c] == table[c]
            &&& forall|i: int| 0 <= i < clusters.len() ==> !b[#[trigger] clusters[i] - 2]
            &&& forall|k: int|
                0 <= k < bits.len() && !(exists|i: int|
                    0 <= i < clusters.len() && #[trigger] clusters[i] == k + 2) ==> b[k] == bits[k]
        }),
    decreases clusters.len(),
{
    let current = clusters[0];
    assert(info.has(clusters[0]));
    let next = table[current as int];
    let table1 = table.update(current as int, 0);
    let bits1 = bits.update(current - 2, false);
    if clusters.len() == 1 {
        assert(next >= MEDIA_DESCRIPTOR);
        let (r, t, b) = freed_chain(info, table, bits, current);
        assert(t == table1 && b == bits1);
        assert forall|c: int|
            0 <= c < table.len() && !(exists|i: int|
                0 <= i < clusters.len() && #[trigger] clusters[i] == c) implies t[c]
            == table[c] by {
            assert(clusters[0] == current);
        }
        assert forall|k: int|
            0 <= k < bits.len() && !(exists|i: int|
                0 <= i < clusters.len() && #[trigger] clusters[i] == k + 2) implies b[k]
            == bits[k] by {
            assert(clusters[0] == current);
        }
    } else {
        let rest = clusters.drop_first();
        assert(next == clusters[1]);
        assert(info.has(clusters[1]));
        assert(next == rest[0]);
        assert(!(next >= MEDIA_DESCRIPTOR)) by {
            has_is_small(info, next);
        }
        assert forall|i: int| 0 <= i < rest.len() implies info.has(#[trigger] rest[i]) by {
            assert(info.has(clusters[i + 1]));
        }
        assert(rest.no_duplicates()) by {
            assert forall|i: int, j: int| 0 <= i < j < rest.len() implies rest[i] != rest[j] by {
                assert(clusters[i + 1] != clusters[j + 1]);
            }
        }
        assert(chained(table1, rest)) by {
            assert forall|i: int| 0 <= i < rest.len() implies if i + 1 < rest.len() {
                table1[(#[trigger] rest[i]) as int] == rest[i + 1]
            } else {
                table1[rest[i] as int] >= MEDIA_DESCRIPTOR
            } by {
                assert(clusters[i + 1] != clusters[0]);
                assert(rest[i] == clusters[i + 1]);
                if i + 1 < rest.len() {
                    assert(table[clusters[i + 1] as int] == clusters[i + 2]);
                }
            }
        }
        freed_chain_touches(info, table1, bits1, rest);
        let (r, t, b) = freed_chain(info, table1, bits1, next);
        assert(freed_chain(info, table, bits, current) == (r, t, b));
        assert forall|c: int|
            0 <= c < table.len() && !(exists|i: int|
                0 <= i < clusters.len() && #[trigger] clusters[i] == c) implies t[c]
            == table[c] by {
            assert(clusters[0] == current);
            if exists|i: int| 0 <= i < rest.len() && #[trigger] rest[i] == c {
                let i = choose|i: int| 0 <= i < rest.len() && #[trigger] rest[i] == c;
                assert(clusters[i + 1] == c);
            }
        }
        assert forall|k: int|
            0 <= k < bits.len() && !(exists|i: int|
                0 <= i < clusters.len() && #[trigger] clusters[i] == k + 2) implies b[k]
            == bits[k] by {
            assert(clusters[0] == current);
            if exists|i: int| 0 <= i < rest.len() && #[trigger] rest[i] == k + 2 {
                let i = choose|i: int| 0 <= i < rest.len() && #[trigger] rest[i] == k + 2;
                assert(clusters[i + 1] == k + 2);
            }
        }
        assert forall|i: int| 0 <= i < clusters.len() implies !b[#[trigger] clusters[i] - 2] by {
            if i == 0 {
                if exists|x: int| 0 <= x < rest.len() && #[trigger] rest[x] == current {
                    let x = choose|x: int| 0 <= x < rest.len() && #[trigger] rest[x] == current;
                    assert(clusters[x + 1] != clusters[0]);
                }
                assert(!bits1[current - 2]);
            } else {
                assert(rest[i - 1] == clusters[i]);
            }
        }
    }
}

proof fn has_is_small(info: ExFatInfo, c: u32)
    requires
        info.wf(),
        info.has(c),
    ensures
        c < MEDIA_DESCRIPTOR,
{
}

/// A table that was written is read back.
proof fn written_table(info: ExFatInfo, content: Seq<u8>, table: Seq<u32>, c: int)
    requires
        info.wf(),
        holds_fat(content, info),
        table.len() == info.cluster_count + 2,
        2 <= c < info.cluster_count + 2,
    ensures
        fat_table(with_table(info, content, table), info)[c] == table[c],
{
    let w = with_table(info, content, table);
    let e = entry_at(info, c);
    le32_round_trip(table[c]);
    assert(w.subrange(e, e + 4) =~= le32(table[c])) by {
        assert forall|k: int| 0 <= k < 4 implies w.subrange(e, e + 4)[k] == le32(table[c])[k] by {
            let i = e + k;
            assert((i - info.fat_offset) / 4 == c);
            assert((i - info.fat_offset) % 4 == k);
        }
    }
}

proof fn chain_is_walked(
    info: ExFatInfo,
    table: Seq<u32>,
    clusters: Seq<u32>,
    i: int,
    n: int,
)
    requires
        info.wf(),
        forall|k: int| 0 <= k < clusters.len() ==> info.has(#[trigger] clusters[k]),
        chained(table, clusters),
        0 <= i,
        0 <= n,
        i + n < clusters.len(),
    ensures
        walked(info, table, clusters[i], n) == Ok::<u32, ExFatError>(clusters[i + n]),
    decreases n,
{
    if n > 0 {
        assert(info.has(clusters[i]));
        assert(info.has(clusters[i + 1]));
        has_is_small(info, clusters[i + 1]);
        assert(table[clusters[i] as int] == clusters[i + 1]);
        chain_is_walked(info, table, clusters, i + 1, n - 1);
    }
}

proof fn kept_is_found(
    info: ExFatInfo,
    table: Seq<u32>,
    first: u32,
    contiguous: bool,
    clusters: Seq<u32>,
    keep: int,
    k: int,
)
    requires
        info.wf(),
        forall|i: int| 0 <= i < clusters.len() ==> info.has(#[trigger] clusters[i]),
        keep <= clusters.len(),
        0 <= k < keep,
        first == clusters[0],
        contiguous ==> forall|i: int|
            0 <= i < clusters.len() ==> #[trigger] clusters[i] == first + i,
        !contiguous ==> forall|i: int|
            0 <= i && i + 1 < keep ==> table[(#[trigger] clusters[i]) as int] == clusters[i + 1],
    ensures
        nth_cluster(info, table, first, contiguous, k) == Some(clusters[k]),
    decreases k,
{
    if contiguous {
        assert(clusters[k] == first + k);
    } else if k > 0 {
        kept_is_found(info, table, first, contiguous, clusters, keep, k - 1);
        assert(info.has(clusters[k - 1]));
        assert(info.has(clusters[k]));
        assert(table[clusters[k - 1] as int] == clusters[k]);
        has_is_small(info, clusters[k]);
    }
}

/// What freeing the tail of a file leaves: its first clusters are found as before, and
/// nothing but the FAT is changed.
#[verifier::spinoff_prover]
#[verifier::rlimit(80)]
proof fn shrinking_keeps_the_head(
    info: ExFatInfo,
    s: VolState,
    e: ExFatFileEntry,
    new_size: u64,
    clusters: Seq<u32>,
)
    requires
        info.wf(),
        s.content.len() >= info.end(),
        s.bits.len() == info.cluster_count,
        owns(
            info,
            fat_table(s.content, info),
            s.bits,
            e.first_cluster,
            e.no_fat_chain,
            clusters,
        ),
        clusters.len() == clusters_for(e.data_length as int, info.bytes_per_cluster as int),
        0 < new_size <= e.data_length,
    ensures
        ({
            let (r, t) = shrunk(info, s, e, new_size);
            let table = fat_table(t.content, info);
            let keep = clusters_for(new_size as int, info.bytes_per_cluster as int);
            &&& r == Ok::<(), ExFatError>(())
            &&& t.content.len() == s.content.len()
            &&& forall|i: int|
                info.heap_offset <= i < s.content.len() ==> #[trigger] t.content[i] == s.content[i]
            &&& 0 < keep <= clusters.len()
            &&& !e.no_fat_chain ==> forall|i: int|
                0 <= i && i + 1 < keep ==> table[(#[trigger] clusters[i]) as int] == clusters[i + 1]
            &&& forall|i: int|
                keep <= i < clusters.len() ==> !t.bits[#[trigger] clusters[i] - 2]
            &&& forall|i: int| 0 <= i < keep ==> t.bits[#[trigger] clusters[i] - 2]
        }),
{
    let cs = info.bytes_per_cluster as int;
    let total = clusters_for(e.data_length as int, cs);
    let keep = clusters_for(new_size as int, cs);
    counts(new_size as int, e.data_length as int, cs);
    let table = fat_table(s.content, info);
    complete_holds_fat(info);
    assert(holds_fat(s.content, info));
    let (r, t) = shrunk(info, s, e, new_size);
    assert(info.has(clusters[0]));
    if e.no_fat_chain {
        if total > keep {
            assert(info.has(clusters[total - 1]));
            assert(clusters[total - 1] == e.first_cluster + total - 1);
            let first = (e.first_cluster + keep) as u32;
            assert(t.bits == marked_run(s.bits, first - 2, total - keep, false));
            assert forall|i: int| keep <= i < clusters.len() implies !t.bits[#[trigger] clusters[i]
                - 2] by {
                assert(info.has(clusters[i]));
                assert(clusters[i] == e.first_cluster + i);
            }
            assert forall|i: int| 0 <= i < keep implies t.bits[#[trigger] clusters[i] - 2] by {
                assert(info.has(clusters[i]));
                assert(clusters[i] == e.first_cluster + i);
            }
        }
    } else {
        chain_is_walked(info, table, clusters, 0, keep - 1);
        let last = clusters[keep - 1];
        assert(info.has(last));
        entry_write(s.content, info, last, END_OF_CHAIN);
        let ended = VolState { content: with_entry(info, s.content, last, END_OF_CHAIN), ..s };
        let table1 = fat_table(ended.content, info);
        assert(table1 == table.update(last as int, END_OF_CHAIN));
        let tail = table[last as int];
        assert forall|i: int| info.heap_offset <= i < s.content.len() implies #[trigger] ended.content[i]
            == s.content[i] by {}
        if keep < total {
            assert(tail == clusters[keep]);
            assert(info.has(clusters[keep]));
            let rest = clusters.skip(keep);
            assert(rest[0] == tail);
            assert forall|i: int| 0 <= i < rest.len() implies info.has(#[trigger] rest[i]) by {
                assert(info.has(clusters[i + keep]));
            }
            assert(rest.no_duplicates()) by {
                assert forall|i: int, j: int| 0 <= i < j < rest.len() implies rest[i]
                    != rest[j] by {
                    assert(clusters[i + keep] != clusters[j + keep]);
                }
            }
            assert(chained(table1, rest)) by {
                assert forall|i: int| 0 <= i < rest.len() implies if i + 1 < rest.len() {
                    table1[(#[trigger] rest[i]) as int] == rest[i + 1]
                } else {
                    table1[rest[i] as int] >= MEDIA_DESCRIPTOR
                } by {
                    assert(rest[i] == clusters[i + keep]);
                    assert(clusters[i + keep] != clusters[keep - 1]);
                    if i + 1 < rest.len() {
                        assert(table[clusters[i + keep] as int] == clusters[i + keep + 1]);
                    }
                }
            }
            freed_chain_touches(info, table1, s.bits, rest);
            let (r2, table2, bits2) = freed_chain(info, table1, s.bits, tail);
            assert(t.content == with_table(info, ended.content, table2));
            assert(holds_fat(ended.content, info));
            assert forall|i: int| 0 <= i && i + 1 < keep implies fat_table(t.content, info)[(
            #[trigger] clusters[i]) as int] == clusters[i + 1] by {
                let c = clusters[i];
                assert(info.has(clusters[i]));
                written_table(info, ended.content, table2, c as int);
                assert(clusters[i] != clusters[keep - 1]);
                if exists|x: int| 0 <= x < rest.len() && #[trigger] rest[x] == c {
                    let x = choose|x: int| 0 <= x < rest.len() && #[trigger] rest[x] == c;
                    assert(clusters[x + keep] == clusters[i]);
                }
                assert(table2[c as int] == table1[c as int]);
                assert(table[c as int] == clusters[i + 1]);
            }
            assert forall|i: int| keep <= i < clusters.len() implies !t.bits[#[trigger] clusters[i]
                - 2] by {
                assert(rest[i - keep] == clusters[i]);
            }
            assert forall|i: int| 0 <= i < keep implies t.bits[#[trigger] clusters[i] - 2] by {
                assert(info.has(clusters[i]));
                let k = clusters[i] - 2;
                if exists|x: int| 0 <= x < rest.len() && #[trigger] rest[x] == k + 2 {
                    let x = choose|x: int| 0 <= x < rest.len() && #[trigger] rest[x] == k + 2;
                    assert(clusters[x + keep] == clusters[i]);
                }
                assert(bits2[k] == s.bits[k]);
            }
        } else {
            assert(tail >= MEDIA_DESCRIPTOR);
            if info.has(tail) {
                has_is_small(info, tail);
            }
            assert(t == ended);
            assert forall|i: int| 0 <= i && i + 1 < keep implies fat_table(t.content, info)[(
            #[trigger] clusters[i]) as int] == clusters[i + 1] by {
                assert(info.has(clusters[i]));
                assert(clusters[i] != clusters[keep - 1]);
                assert(table[clusters[i] as int] == clusters[i + 1]);
            }
            assert forall|i: int| 0 <= i < keep implies t.bits[#[trigger] clusters[i] - 2] by {
                assert(info.has(clusters[i]));
            }
        }
    }
}

proof fn counts(a: int, b: int, cs: int)
    requires
        0 < a <= b,
        cs > 0,
    ensures
        0 < clusters_for(a, cs) <= clusters_for(b, cs),
        (a - 1) / cs < clusters_for(a, cs),
        forall|p: int| 0 <= p < a ==> 0 <= #[trigger] (p / cs) < clusters_for(a, cs),
{
    vstd::arithmetic::div_mod::lemma_fundamental_div_mod(a, cs);
    vstd::arithmetic::div_mod::lemma_fundamental_div_mod(b, cs);
    vstd::arithmetic::div_mod::lemma_mod_bound(a, cs);
    vstd::arithmetic::div_mod::lemma_mod_bound(b, cs);
    vstd::arithmetic::div_mod::lemma_div_pos_is_pos(a, cs);
    let (p, q) = (a / cs, b / cs);
    if p == 0 {
        assert(cs * 0 == 0);
    }
    vstd::arithmetic::div_mod::lemma_div_is_ordered(a, b, cs);
    if p == q && a % cs != 0 {
        assert(b % cs != 0) by {
            if b % cs == 0 {
                assert(cs * q < a) by {
                    assert(cs * p + a % cs == a);
                }
            }
        }
    }
    assert forall|x: int| 0 <= x < a implies 0 <= #[trigger] (x / cs) < clusters_for(a, cs) by {
        vstd::arithmetic::div_mod::lemma_div_pos_is_pos(x, cs);
        vstd::arithmetic::div_mod::lemma_div_is_ordered(x, a, cs);
        vstd::arithmetic::div_mod::lemma_fundamental_div_mod(x, cs);
        vstd::arithmetic::div_mod::lemma_mod_bound(x, cs);
        if a % cs == 0 && x / cs == p {
            assert(cs * p <= x);
        }
    }
    assert(0 <= (a - 1) / cs < clusters_for(a, cs));
}

/// Whether bytes from `at` on, `n` of them, lie in the heap and in none of the clusters.
pub open spec fn apart_from(info: ExFatInfo, clusters: Seq<u32>, at: int, n: int) -> bool {
    &&& info.heap_offset <= at
    &&& forall|i: int|
        0 <= i < clusters.len() ==> at + n <= info.offset(#[trigger] clusters[i]) || info.offset(
            clusters[i],
        ) + info.bytes_per_cluster <= at
}

/// Truncating a file keeps every byte before its new end. It frees the clusters behind,
/// and no others of the file.
#[verifier::spinoff_prover]
#[verifier::rlimit(80)]
pub proof fn truncation_keeps_the_bytes(
    info: ExFatInfo,
    bitmap: u32,
    s: VolState,
    e: ExFatFileEntry,
    new_size: u64,
    clusters: Seq<u32>,
    p: int,
)
    requires
        info.wf(),
        s.content.len() >= info.end(),
        s.bits.len() == info.cluster_count,
        owns(
            info,
            fat_table(s.content, info),
            s.bits,
            e.first_cluster,
            e.no_fat_chain,
            clusters,
        ),
        clusters.len() == clusters_for(e.data_length as int, info.bytes_per_cluster as int),
        !e.attributes.is_dir(),
        0 < new_size < e.valid_data_length <= e.data_length,
        truncated(info, bitmap, s, e, new_size).0 is Ok,
        apart_from(
            info,
            clusters,
            e.entry_offset as int,
            32 * (1 + s.content[e.entry_offset + 1]),
        ),
        bitmap >= 2 ==> apart_from(
            info,
            clusters,
            info.offset(bitmap),
            bytes_for(info.cluster_count as int),
        ),
        0 <= p < new_size,
    ensures
        ({
            let t = truncated(info, bitmap, s, e, new_size).1;
            let keep = clusters_for(new_size as int, info.bytes_per_cluster as int);
            &&& file_byte(t.content, info, e.first_cluster, e.no_fat_chain, p) == file_byte(
                s.content,
                info,
                e.first_cluster,
                e.no_fat_chain,
                p,
            )
            &&& forall|i: int|
                0 <= i < clusters.len() ==> t.bits[#[trigger] clusters[i] - 2] == (i < keep)
        }),
{
    let cs = info.bytes_per_cluster as int;
    let keep = clusters_for(new_size as int, cs);
    let at = e.entry_offset as int;
    shrinking_keeps_the_head(info, s, e, new_size, clusters);
    counts(new_size as int, e.data_length as int, cs);
    let (_, s1) = shrunk(info, s, e, new_size);
    let (r2, content2) = resized(
        s1.content,
        at,
        new_size,
        new_size,
        e.first_cluster,
        e.no_fat_chain,
    );
    complete_holds_fat(info);
    let set = set_on_device(s1.content, at);
    assert(r2 is Ok);
    assert(s1.content[at + 1] == s.content[at + 1]);
    let n = 32 * (1 + s.content[at + 1]);
    assert(set.len() == n);
    let new_set = resized_set(set, new_size, new_size, e.first_cluster, e.no_fat_chain);
    resized_len(set, new_size, new_size, e.first_cluster, e.no_fat_chain);
    assert(content2 == splice(s1.content, at, new_set));
    assert(content2.len() == s1.content.len());
    let t = truncated(info, bitmap, s, e, new_size).1;
    let bits_at = info.offset(bitmap);
    let m = bytes_for(info.cluster_count as int);
    assert(t.bits == s1.bits);
    assert(s1.bits.len() == info.cluster_count) by {
        shrunk_bits(info, s, e, new_size, clusters);
    }
    assert(t.content.len() == content2.len());
    // Neither write reaches the FAT.
    table_unchanged(s1.content, t.content, info);
    let table = fat_table(t.content, info);
    let k = p / cs;
    kept_is_found(info, table, e.first_cluster, e.no_fat_chain, clusters, keep, k);
    assert forall|i: int|
        !e.no_fat_chain && 0 <= i && i + 1 < keep implies fat_table(s.content, info)[(
    #[trigger] clusters[i]) as int] == clusters[i + 1] by {
        assert(info.has(clusters[i]));
    }
    kept_is_found(
        info,
        fat_table(s.content, info),
        e.first_cluster,
        e.no_fat_chain,
        clusters,
        keep,
        k,
    );
    let c = clusters[k];
    assert(info.has(clusters[k]));
    clusters_are_apart(info, c, c);
    vstd::arithmetic::div_mod::lemma_mod_bound(p, cs);
    let x = info.offset(clusters[k]) + p % cs;
    assert(content2[x] == s1.content[x]);
    assert(t.content[x] == content2[x]);
    assert forall|i: int| 0 <= i < clusters.len() implies t.bits[#[trigger] clusters[i] - 2] == (i
        < keep) by {}
}

proof fn resized_len(set: Seq<u8>, valid: u64, len: u64, first: u32, no_fat_chain: bool)
    requires
        set.len() >= 32,
    ensures
        resized_set(set, valid, len, first, no_fat_chain).len() == set.len(),
{
    if set.len() >= 64 {
        checksum_matches(
            set.take(33) + seq![
                crate::exfat::entry_writer::stream_flags_of(first, len, no_fat_chain),
            ] + set.subrange(34, 40) + crate::bytes::le64(valid) + set.subrange(48, 52) + le32(
                first,
            ) + crate::bytes::le64(len) + set.skip(64),
        );
    } else {
        checksum_matches(set);
    }
}

proof fn shrunk_bits(
    info: ExFatInfo,
    s: VolState,
    e: ExFatFileEntry,
    new_size: u64,
    clusters: Seq<u32>,
)
    requires
        info.wf(),
        s.bits.len() == info.cluster_count,
        0 < new_size,
    ensures
        shrunk(info, s, e, new_size).1.bits.len() == info.cluster_count,
{
    let table = fat_table(s.content, info);
    let keep = clusters_for(new_size as int, info.bytes_per_cluster as int);
    if !e.no_fat_chain {
        match walked(info, table, e.first_cluster, keep - 1) {
            Ok(last) => {
                let ended = with_entry(info, s.content, last, END_OF_CHAIN);
                freed_bits(info, fat_table(ended, info), s.bits, table[last as int]);
            },
            Err(_) => {},
        }
    }
}

proof fn freed_bits(info: ExFatInfo, table: Seq<u32>, bits: Seq<bool>, current: u32)
    requires
        bits.len() == info.cluster_count,
    ensures
        freed_chain(info, table, bits, current).2.len() == bits.len(),
    decreases crate::exfat::volume::chain_measure(info, table, current),
{
    if info.wf() && info.has(current) && table.len() == info.cluster_count + 2 {
        let next = table[current as int];
        if next < MEDIA_DESCRIPTOR {
            crate::exfat::volume::chain_measure_drops(info, table, current, next);
            freed_bits(
                info,
                table.update(current as int, 0),
                bits.update(current - 2, false),
                next,
            );
        }
    }
}

/// Whether clusters are no longer in use, and all others are as they were.
pub open spec fn only_freed(a: Seq<bool>, b: Seq<bool>, clusters: Seq<u32>) -> bool {
    &&& b.len() == a.len()
    &&& forall|i: int| 0 <= i < clusters.len() ==> !b[#[trigger] clusters[i] - 2]
    &&& forall|k: int|
        0 <= k < a.len() && !(exists|i: int|
            0 <= i < clusters.len() && #[trigger] clusters[i] == k + 2) ==> b[k] == a[k]
}

/// Freeing all clusters of a file frees them and no others.
proof fn freed_file(info: ExFatInfo, s: VolState, e: ExFatFileEntry, clusters: Seq<u32>)
    requires
        info.wf(),
        s.content.len() >= info.end(),
        s.bits.len() == info.cluster_count,
        owns(
            info,
            fat_table(s.content, info),
            s.bits,
            e.first_cluster,
            e.no_fat_chain,
            clusters,
        ),
        clusters.len() == clusters_for(e.data_length as int, info.bytes_per_cluster as int),
    ensures
        ({
            let (r, t) = freed(
                info,
                s,
                e.first_cluster,
                if e.no_fat_chain {
                    clusters.len() as u32
                } else {
                    0
                },
                e.no_fat_chain,
            );
            &&& r == Ok::<(), ExFatError>(())
            &&& t.content.len() == s.content.len()
            &&& only_freed(s.bits, t.bits, clusters)
        }),
{
    let n = clusters.len() as int;
    let table = fat_table(s.content, info);
    if n == 0 {
        assert(e.first_cluster == 0);
    } else {
        assert(info.has(clusters[0]));
        assert(info.has(clusters[n - 1]));
        if e.no_fat_chain {
            assert(clusters[n - 1] == e.first_cluster + n - 1);
            let (r1, s1) = freed(info, s, e.first_cluster, n as u32, true);
            assert forall|i: int| 0 <= i < clusters.len() implies !s1.bits[#[trigger] clusters[i]
                - 2] by {
                assert(info.has(clusters[i]));
                assert(clusters[i] == e.first_cluster + i);
            }
            assert forall|k: int|
                0 <= k < s.bits.len() && !(exists|i: int|
                    0 <= i < clusters.len() && #[trigger] clusters[i] == k + 2) implies s1.bits[k]
                == s.bits[k] by {
                if e.first_cluster - 2 <= k < e.first_cluster - 2 + n {
                    let i = k + 2 - e.first_cluster;
                    assert(clusters[i] == e.first_cluster + i);
                }
            }
        } else {
            freed_chain_touches(info, table, s.bits, clusters);
        }
    }
}

/// Truncating a file to nothing frees its clusters and no others.
pub proof fn truncation_to_nothing_frees_the_clusters(
    info: ExFatInfo,
    bitmap: u32,
    s: VolState,
    e: ExFatFileEntry,
    clusters: Seq<u32>,
)
    requires
        info.wf(),
        s.content.len() >= info.end(),
        s.bits.len() == info.cluster_count,
        owns(
            info,
            fat_table(s.content, info),
            s.bits,
            e.first_cluster,
            e.no_fat_chain,
            clusters,
        ),
        clusters.len() == clusters_for(e.data_length as int, info.bytes_per_cluster as int),
        !e.attributes.is_dir(),
        0 < e.valid_data_length,
        truncated(info, bitmap, s, e, 0).0 is Ok,
    ensures
        only_freed(s.bits, truncated(info, bitmap, s, e, 0).1.bits, clusters),
{
    freed_file(info, s, e, clusters);
}

/// Deleting a file frees its clusters and no others, and marks its entry.
pub proof fn deletion_frees_the_clusters(
    info: ExFatInfo,
    bitmap: u32,
    s: VolState,
    e: ExFatFileEntry,
    clusters: Seq<u32>,
)
    requires
        info.wf(),
        s.content.len() >= info.end(),
        s.bits.len() == info.cluster_count,
        owns(
            info,
            fat_table(s.content, info),
            s.bits,
            e.first_cluster,
            e.no_fat_chain,
            clusters,
        ),
        clusters.len() == clusters_for(e.data_length as int, info.bytes_per_cluster as int),
        info.heap_offset <= e.entry_offset < s.content.len(),
        bitmap >= 2 ==> info.offset(bitmap) + bytes_for(info.cluster_count as int)
            <= s.content.len() && (e.entry_offset < info.offset(bitmap) || info.offset(bitmap)
            + bytes_for(info.cluster_count as int) <= e.entry_offset),
    ensures
        ({
            let (r, t) = deleted(info, bitmap, s, e);
            &&& r == Ok::<(), ExFatError>(())
            &&& only_freed(s.bits, t.bits, clusters)
            &&& t.content[e.entry_offset as int] == DELETED_FILE
        }),
{
    freed_file(info, s, e, clusters);
}

/// Whether nothing but the FAT differs between two states of a volume, and of the FAT and
/// the bitmap only what belongs to the given clusters.
pub open spec fn spares_others(
    info: ExFatInfo,
    a: VolState,
    b: VolState,
    clusters: Seq<u32>,
) -> bool {
    &&& a.content.len() == b.content.len()
    &&& a.bits.len() == b.bits.len()
    &&& forall|d: u32|
        info.has(d) && !clusters.contains(d) ==> {
            &&& #[trigger] b.bits[d - 2] == a.bits[d - 2]
            &&& fat_table(b.content, info)[d as int] == fat_table(a.content, info)[d as int]
        }
    &&& forall|i: int|
        info.heap_offset <= i < a.content.len() ==> #[trigger] b.content[i] == a.content[i]
}

/// Freeing clusters leaves all others alone.
pub proof fn freeing_spares_others(
    info: ExFatInfo,
    s: VolState,
    first: u32,
    count: u32,
    contiguous: bool,
    clusters: Seq<u32>,
)
    requires
        info.wf(),
        s.content.len() >= info.end(),
        s.bits.len() == info.cluster_count,
        clusters.len() > 0,
        clusters.no_duplicates(),
        forall|i: int| 0 <= i < clusters.len() ==> info.has(#[trigger] clusters[i]),
        first == clusters[0],
        contiguous ==> count == clusters.len() && forall|i: int|
            0 <= i < clusters.len() ==> #[trigger] clusters[i] == first + i,
        !contiguous ==> chained(fat_table(s.content, info), clusters),
    ensures
        freed(info, s, first, count, contiguous).0 == Ok::<(), ExFatError>(()),
        spares_others(info, s, freed(info, s, first, count, contiguous).1, clusters),
{
    let (r, t) = freed(info, s, first, count, contiguous);
    let n = clusters.len() as int;
    assert(info.has(clusters[0]));
    assert(info.has(clusters[n - 1]));
    if contiguous {
        assert(clusters[n - 1] == first + n - 1);
        assert forall|d: u32| info.has(d) && !clusters.contains(d) implies #[trigger] t.bits[d - 2]
            == s.bits[d - 2] && fat_table(t.content, info)[d as int] == fat_table(
            s.content,
            info,
        )[d as int] by {
            if first <= d < first + n {
                assert(clusters[d - first] == d);
            }
        }
    } else {
        let table = fat_table(s.content, info);
        complete_holds_fat(info);
        assert(holds_fat(s.content, info));
        freed_chain_touches(info, table, s.bits, clusters);
        let (_, table1, bits1) = freed_chain(info, table, s.bits, first);
        assert forall|d: u32| info.has(d) && !clusters.contains(d) implies #[trigger] t.bits[d - 2]
            == s.bits[d - 2] && fat_table(t.content, info)[d as int] == table[d as int] by {
            assert forall|i: int| 0 <= i < clusters.len() implies #[trigger] clusters[i] != d by {
                assert(clusters.contains(clusters[i]));
            }
            written_table(info, s.content, table1, d as int);
        }
    }
}

/// Whether the clusters of a file, their entries in the FAT and their bits are the same.
pub open spec fn same_file(info: ExFatInfo, a: VolState, b: VolState, clusters: Seq<u32>) -> bool {
    &&& forall|i: int|
        0 <= i < clusters.len() ==> {
            &&& b.bits[#[trigger] clusters[i] - 2] == a.bits[clusters[i] - 2]
            &&& fat_table(b.content, info)[clusters[i] as int] == fat_table(a.content, info)[
            clusters[i] as int]
        }
    &&& forall|i: int, x: int|
        #![trigger b.content[info.offset(clusters[i]) + x]]
        0 <= i < clusters.len() && 0 <= x < info.bytes_per_cluster ==> b.content[info.offset(
            clusters[i],
        ) + x] == a.content[info.offset(clusters[i]) + x]
}

/// A file whose clusters are the same is the same.
pub proof fn same_file_is_kept(
    info: ExFatInfo,
    a: VolState,
    b: VolState,
    first: u32,
    contiguous: bool,
    clusters: Seq<u32>,
)
    requires
        info.wf(),
        owns(info, fat_table(a.content, info), a.bits, first, contiguous, clusters),
        same_file(info, a, b, clusters),
    ensures
        file_is_kept(info, a, b, first, contiguous, clusters),
{
    let cs = info.bytes_per_cluster as int;
    let n = clusters.len() as int;
    assert forall|i: int| 0 <= i < n implies info.has(#[trigger] clusters[i])
        && b.bits[clusters[i] - 2] by {
        assert(a.bits[clusters[i] - 2]);
    }
    assert(owns(info, fat_table(b.content, info), b.bits, first, contiguous, clusters));
    assert forall|p: int| 0 <= p < n * cs implies #[trigger] file_byte(
        b.content,
        info,
        first,
        contiguous,
        p,
    ) == file_byte(a.content, info, first, contiguous, p) by {
        byte_is_in_the_clusters(info, a, first, contiguous, clusters, p);
        byte_is_in_the_clusters(info, b, first, contiguous, clusters, p);
        crate::exfat::file_laws::index_of(p, n, cs);
        vstd::arithmetic::div_mod::lemma_mod_bound(p, cs);
        let i = p / cs;
        assert(b.content[info.offset(clusters[i]) + p % cs] == a.content[info.offset(clusters[i])
            + p % cs]);
    }
}

/// Whether a file has its clusters and its bytes in both states of a volume.
pub open spec fn file_is_kept(
    info: ExFatInfo,
    a: VolState,
    b: VolState,
    first: u32,
    contiguous: bool,
    clusters: Seq<u32>,
) -> bool {
    &&& owns(info, fat_table(b.content, info), b.bits, first, contiguous, clusters)
    &&& forall|p: int|
        0 <= p < clusters.len() * info.bytes_per_cluster ==> #[trigger] file_byte(
            b.content,
            info,
            first,
            contiguous,
            p,
        ) == file_byte(a.content, info, first, contiguous, p)
}

/// Bytes that are replaced in the heap, apart from a file's clusters, leave the file alone.
pub proof fn splice_keeps_file(
    info: ExFatInfo,
    a: VolState,
    b: VolState,
    other: Seq<u32>,
    at: int,
    data: Seq<u8>,
)
    requires
        info.wf(),
        a.content.len() >= info.end(),
        forall|i: int| 0 <= i < other.len() ==> info.has(#[trigger] other[i]),
        apart_from(info, other, at, data.len() as int),
        at + data.len() <= a.content.len(),
        b.bits == a.bits,
        b.content == splice(a.content, at, data),
    ensures
        same_file(info, a, b, other),
        b.content.len() == a.content.len(),
{
    complete_holds_fat(info);
    table_unchanged(a.content, b.content, info);
    assert forall|i: int, x: int|
        #![trigger b.content[info.offset(other[i]) + x]]
        0 <= i < other.len() && 0 <= x < info.bytes_per_cluster implies b.content[info.offset(
        other[i],
    ) + x] == a.content[info.offset(other[i]) + x] by {
        assert(info.has(other[i]));
        clusters_are_apart(info, other[i], other[i]);
        assert(at + data.len() <= info.offset(other[i]) || info.offset(other[i])
            + info.bytes_per_cluster <= at);
    }
}

/// A file that has none of the clusters is the same.
pub proof fn spared_file(
    info: ExFatInfo,
    a: VolState,
    b: VolState,
    clusters: Seq<u32>,
    other: Seq<u32>,
)
    requires
        info.wf(),
        a.content.len() >= info.end(),
        spares_others(info, a, b, clusters),
        disjoint(clusters, other),
        forall|i: int| 0 <= i < other.len() ==> info.has(#[trigger] other[i]),
    ensures
        same_file(info, a, b, other),
{
    assert forall|i: int| 0 <= i < other.len() implies b.bits[#[trigger] other[i] - 2]
        == a.bits[other[i] - 2] && fat_table(b.content, info)[other[i] as int] == fat_table(
        a.content,
        info,
    )[other[i] as int] by {
        assert(info.has(other[i]) && !clusters.contains(other[i]));
    }
    assert forall|i: int, x: int|
        #![trigger b.content[info.offset(other[i]) + x]]
        0 <= i < other.len() && 0 <= x < info.bytes_per_cluster implies b.content[info.offset(
        other[i],
    ) + x] == a.content[info.offset(other[i]) + x] by {
        assert(info.has(other[i]));
        clusters_are_apart(info, other[i], other[i]);
    }
}

pub(crate) proof fn same_file_again(
    info: ExFatInfo,
    a: VolState,
    b: VolState,
    c: VolState,
    clusters: Seq<u32>,
)
    requires
        same_file(info, a, b, clusters),
        same_file(info, b, c, clusters),
    ensures
        same_file(info, a, c, clusters),
{
    assert forall|i: int| 0 <= i < clusters.len() implies c.bits[#[trigger] clusters[i] - 2]
        == a.bits[clusters[i] - 2] && fat_table(c.content, info)[clusters[i] as int] == fat_table(
        a.content,
        info,
    )[clusters[i] as int] by {
        assert(b.bits[clusters[i] - 2] == a.bits[clusters[i] - 2]);
    }
    assert forall|i: int, x: int|
        #![trigger c.content[info.offset(clusters[i]) + x]]
        0 <= i < clusters.len() && 0 <= x < info.bytes_per_cluster implies c.content[info.offset(
        clusters[i],
    ) + x] == a.content[info.offset(clusters[i]) + x] by {
        assert(b.content[info.offset(clusters[i]) + x] == a.content[info.offset(clusters[i]) + x]);
    }
}

/// Writing the bitmap leaves a file alone that lies apart from it.
pub proof fn syncing_keeps_file(
    info: ExFatInfo,
    bitmap: u32,
    s: VolState,
    other: Seq<u32>,
)
    requires
        info.wf(),
        s.content.len() >= info.end(),
        s.bits.len() == info.cluster_count,
        forall|i: int| 0 <= i < other.len() ==> info.has(#[trigger] other[i]),
        bitmap >= 2 ==> apart_from(
            info,
            other,
            info.offset(bitmap),
            bytes_for(info.cluster_count as int),
        ),
    ensures
        same_file(info, s, synced(info, bitmap, s).1, other),
{
    let t = synced(info, bitmap, s).1;
    if t != s {
        splice_keeps_file(info, s, t, other, info.offset(bitmap), packed(s.bits));
    }
}

/// Deleting a file leaves every other file alone.
pub proof fn deletion_keeps_other_files(
    info: ExFatInfo,
    bitmap: u32,
    s: VolState,
    e: ExFatFileEntry,
    clusters: Seq<u32>,
    first: u32,
    contiguous: bool,
    other: Seq<u32>,
)
    requires
        info.wf(),
        s.content.len() >= info.end(),
        s.bits.len() == info.cluster_count,
        owns(
            info,
            fat_table(s.content, info),
            s.bits,
            e.first_cluster,
            e.no_fat_chain,
            clusters,
        ),
        clusters.len() == clusters_for(e.data_length as int, info.bytes_per_cluster as int),
        e.entry_offset < s.content.len(),
        owns(info, fat_table(s.content, info), s.bits, first, contiguous, other),
        disjoint(clusters, other),
        apart_from(info, other, e.entry_offset as int, 1),
        bitmap >= 2 ==> apart_from(
            info,
            other,
            info.offset(bitmap),
            bytes_for(info.cluster_count as int),
        ),
    ensures
        file_is_kept(info, s, deleted(info, bitmap, s, e).1, first, contiguous, other),
{
    let n = clusters.len() as int;
    let count = if e.no_fat_chain {
        n as u32
    } else {
        0
    };
    let (r1, s1) = freed(info, s, e.first_cluster, count, e.no_fat_chain);
    if n == 0 {
        assert(e.first_cluster == 0);
    } else {
        clusters_are_few(info, clusters);
        freeing_spares_others(info, s, e.first_cluster, count, e.no_fat_chain, clusters);
    }
    if n > 0 {
        spared_file(info, s, s1, clusters, other);
    }
    let at = e.entry_offset as int;
    let s2 = VolState { content: splice(s1.content, at, seq![DELETED_FILE]), ..s1 };
    splice_keeps_file(info, s1, s2, other, at, seq![DELETED_FILE]);
    same_file_again(info, s, s1, s2, other);
    syncing_keeps_file(info, bitmap, s2, other);
    let t = synced(info, bitmap, s2).1;
    same_file_again(info, s, s2, t, other);
    same_file_is_kept(info, s, t, first, contiguous, other);
}

proof fn shrinking_spares_others(
    info: ExFatInfo,
    s: VolState,
    e: ExFatFileEntry,
    new_size: u64,
    clusters: Seq<u32>,
)
    requires
        info.wf(),
        s.content.len() >= info.end(),
        s.bits.len() == info.cluster_count,
        owns(
            info,
            fat_table(s.content, info),
            s.bits,
            e.first_cluster,
            e.no_fat_chain,
            clusters,
        ),
        clusters.len() == clusters_for(e.data_length as int, info.bytes_per_cluster as int),
        0 < e.data_length,
        new_size <= e.data_length,
    ensures
        spares_others(info, s, shrunk(info, s, e, new_size).1, clusters),
{
    let cs = info.bytes_per_cluster as int;
    let total = clusters_for(e.data_length as int, cs);
    let keep = clusters_for(new_size as int, cs);
    let table = fat_table(s.content, info);
    let (r, t) = shrunk(info, s, e, new_size);
    counts(e.data_length as int, e.data_length as int, cs);
    clusters_are_few(info, clusters);
    complete_holds_fat(info);
    assert(holds_fat(s.content, info));
    assert(info.has(clusters[0]));
    if new_size == 0 {
        let count = if e.no_fat_chain {
            total as u32
        } else {
            0
        };
        freeing_spares_others(info, s, e.first_cluster, count, e.no_fat_chain, clusters);
    } else {
        counts(new_size as int, e.data_length as int, cs);
        let rest = clusters.skip(keep);
        tail_of_clusters(info, clusters, keep);
        if e.no_fat_chain {
            if total > keep {
                let first = (e.first_cluster + keep) as u32;
                assert(clusters[keep] == e.first_cluster + keep);
                assert(info.has(clusters[keep]));
                assert forall|i: int| 0 <= i < rest.len() implies #[trigger] rest[i] == first
                    + i by {
                    assert(clusters[i + keep] == e.first_cluster + i + keep);
                }
                freeing_spares_others(info, s, first, (total - keep) as u32, true, rest);
            }
        } else {
            ending_spares_others(info, s, e, new_size, clusters);
        }
    }
}

#[verifier::spinoff_prover]
#[verifier::rlimit(60)]
proof fn ending_spares_others(
    info: ExFatInfo,
    s: VolState,
    e: ExFatFileEntry,
    new_size: u64,
    clusters: Seq<u32>,
)
    requires
        info.wf(),
        s.content.len() >= info.end(),
        s.bits.len() == info.cluster_count,
        owns(info, fat_table(s.content, info), s.bits, e.first_cluster, false, clusters),
        !e.no_fat_chain,
        clusters.len() == clusters_for(e.data_length as int, info.bytes_per_cluster as int),
        0 < new_size <= e.data_length,
    ensures
        spares_others(info, s, shrunk(info, s, e, new_size).1, clusters),
{
    let cs = info.bytes_per_cluster as int;
    let total = clusters_for(e.data_length as int, cs);
    let keep = clusters_for(new_size as int, cs);
    let table = fat_table(s.content, info);
    let t = shrunk(info, s, e, new_size).1;
    counts(new_size as int, e.data_length as int, cs);
    complete_holds_fat(info);
    assert(holds_fat(s.content, info));
    chain_is_walked(info, table, clusters, 0, keep - 1);
    let last = clusters[keep - 1];
    assert(info.has(last));
    entry_write(s.content, info, last, END_OF_CHAIN);
    let ended = VolState { content: with_entry(info, s.content, last, END_OF_CHAIN), ..s };
    let table1 = fat_table(ended.content, info);
    assert(table1 == table.update(last as int, END_OF_CHAIN));
    assert(clusters.contains(last));
    assert(spares_others(info, s, ended, clusters));
    let tail = table[last as int];
    if keep < total {
        assert(tail == clusters[keep]);
        assert(info.has(clusters[keep]));
        let rest = clusters.skip(keep);
        tail_of_clusters(info, clusters, keep);
        assert(rest[0] == tail);
        tail_is_chained(info, table, clusters, keep);
        freeing_spares_others(info, ended, tail, 0, false, rest);
        assert(t == freed(info, ended, tail, 0, false).1);
        assert forall|d: u32| info.has(d) && !clusters.contains(d) implies #[trigger] t.bits[d - 2]
            == s.bits[d - 2] && fat_table(t.content, info)[d as int] == table[d as int] by {
            assert(!rest.contains(d));
            assert(ended.bits[d - 2] == s.bits[d - 2]);
        }
    } else {
        assert(tail >= MEDIA_DESCRIPTOR);
        if info.has(tail) {
            has_is_small(info, tail);
        }
        assert(t == ended);
    }
}

proof fn chained_at(table: Seq<u32>, clusters: Seq<u32>, i: int)
    requires
        chained(table, clusters),
        0 <= i < clusters.len(),
    ensures
        i + 1 < clusters.len() ==> table[clusters[i] as int] == clusters[i + 1],
        i + 1 == clusters.len() ==> table[clusters[i] as int] >= MEDIA_DESCRIPTOR,
{
}

proof fn tail_is_chained(info: ExFatInfo, table: Seq<u32>, clusters: Seq<u32>, keep: int)
    requires
        0 < keep < clusters.len(),
        clusters.no_duplicates(),
        table.len() == info.cluster_count + 2,
        forall|i: int| 0 <= i < clusters.len() ==> info.has(#[trigger] clusters[i]),
        chained(table, clusters),
    ensures
        chained(
            table.update(clusters[keep - 1] as int, END_OF_CHAIN),
            clusters.skip(keep),
        ),
{
    let table1 = table.update(clusters[keep - 1] as int, END_OF_CHAIN);
    let rest = clusters.skip(keep);
    assert forall|i: int| 0 <= i < rest.len() implies if i + 1 < rest.len() {
        table1[(#[trigger] rest[i]) as int] == rest[i + 1]
    } else {
        table1[rest[i] as int] >= MEDIA_DESCRIPTOR
    } by {
        link_of_tail(info, table, clusters, keep, i);
    }
}

proof fn link_of_tail(
    info: ExFatInfo,
    table: Seq<u32>,
    clusters: Seq<u32>,
    keep: int,
    i: int,
)
    requires
        0 < keep < clusters.len(),
        0 <= i < clusters.len() - keep,
        clusters.no_duplicates(),
        table.len() == info.cluster_count + 2,
        forall|k: int| 0 <= k < clusters.len() ==> info.has(#[trigger] clusters[k]),
        chained(table, clusters),
    ensures
        ({
            let table1 = table.update(clusters[keep - 1] as int, END_OF_CHAIN);
            let rest = clusters.skip(keep);
            if i + 1 < rest.len() {
                table1[rest[i] as int] == rest[i + 1]
            } else {
                table1[rest[i] as int] >= MEDIA_DESCRIPTOR
            }
        }),
{
    let c = clusters[i + keep];
    assert(info.has(c));
    assert(c != clusters[keep - 1]);
    chained_at(table, clusters, i + keep);
}

proof fn tail_of_clusters(info: ExFatInfo, clusters: Seq<u32>, keep: int)
    requires
        0 <= keep <= clusters.len(),
        clusters.no_duplicates(),
        forall|i: int| 0 <= i < clusters.len() ==> info.has(#[trigger] clusters[i]),
    ensures
        ({
            let rest = clusters.skip(keep);
            &&& rest.no_duplicates()
            &&& forall|i: int| 0 <= i < rest.len() ==> info.has(#[trigger] rest[i])
            &&& forall|d: u32| #[trigger] rest.contains(d) ==> clusters.contains(d)
        }),
{
    let rest = clusters.skip(keep);
    assert forall|i: int| 0 <= i < rest.len() implies info.has(#[trigger] rest[i]) by {
        assert(info.has(clusters[i + keep]));
    }
    assert forall|i: int, j: int| 0 <= i < j < rest.len() implies rest[i] != rest[j] by {
        assert(clusters[i + keep] != clusters[j + keep]);
    }
    assert forall|d: u32| #[trigger] rest.contains(d) implies clusters.contains(d) by {
        let i = choose|i: int| 0 <= i < rest.len() && rest[i] == d;
        assert(clusters[i + keep] == d);
    }
}

/// Truncating a file leaves every other file alone.
pub proof fn truncation_keeps_other_files(
    info: ExFatInfo,
    bitmap: u32,
    s: VolState,
    e: ExFatFileEntry,
    new_size: u64,
    clusters: Seq<u32>,
    first: u32,
    contiguous: bool,
    other: Seq<u32>,
)
    requires
        info.wf(),
        s.content.len() >= info.end(),
        s.bits.len() == info.cluster_count,
        owns(
            info,
            fat_table(s.content, info),
            s.bits,
            e.first_cluster,
            e.no_fat_chain,
            clusters,
        ),
        clusters.len() == clusters_for(e.data_length as int, info.bytes_per_cluster as int),
        e.valid_data_length <= e.data_length,
        owns(info, fat_table(s.content, info), s.bits, first, contiguous, other),
        disjoint(clusters, other),
        apart_from(
            info,
            other,
            e.entry_offset as int,
            32 * (1 + s.content[e.entry_offset + 1]),
        ),
        bitmap >= 2 ==> apart_from(
            info,
            other,
            info.offset(bitmap),
            bytes_for(info.cluster_count as int),
        ),
        truncated(info, bitmap, s, e, new_size).0 is Ok,
    ensures
        file_is_kept(
            info,
            s,
            truncated(info, bitmap, s, e, new_size).1,
            first,
            contiguous,
            other,
        ),
{
    let at = e.entry_offset as int;
    let t = truncated(info, bitmap, s, e, new_size).1;
    if new_size >= e.valid_data_length {
        assert(t == s);
        same_file_is_kept(info, s, t, first, contiguous, other);
    } else {
        shrinking_spares_others(info, s, e, new_size, clusters);
        let (_, s1) = shrunk(info, s, e, new_size);
        spared_file(info, s, s1, clusters, other);
        let (len, start, chain) = if new_size == 0 {
            (0u64, 0u32, false)
        } else {
            (new_size, e.first_cluster, e.no_fat_chain)
        };
        let (r2, content2) = resized(s1.content, at, len, len, start, chain);
        assert(r2 is Ok);
        let set = set_on_device(s1.content, at);
        let new_set = resized_set(set, len, len, start, chain);
        assert(s1.content[at + 1] == s.content[at + 1]);
        assert(set.len() == 32 * (1 + s.content[at + 1]));
        resized_len(set, len, len, start, chain);
        let s2 = VolState { content: content2, ..s1 };
        splice_keeps_file(info, s1, s2, other, at, new_set);
        same_file_again(info, s, s1, s2, other);
        syncing_keeps_file(info, bitmap, s2, other);
        same_file_again(info, s, s2, t, other);
        same_file_is_kept(info, s, t, first, contiguous, other);
    }
}

} // verus!

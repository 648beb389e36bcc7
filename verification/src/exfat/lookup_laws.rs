//! How names are read, looked up and followed on a volume.

#[allow(unused_imports)]
use crate::byte_laws::{number32, number64, numbers_are_written_low_byte_first};
#[allow(unused_imports)]
use crate::bytes::le32;
#[allow(unused_imports)]
use crate::exfat::bitmap::free_cluster;
#[allow(unused_imports)]
use crate::exfat::device::{splice, Device};
#[allow(unused_imports)]
use crate::exfat::dir::{
    chain_reach, dir_of_entry, dir_reach, entry_from, first_named, named, resolves, run_len,
    same_values, set_at, sets_from, settled, settled_any, stands_set, ExFatDir,
};
#[allow(unused_imports)]
use crate::exfat::edit::{
    dir_created, file_created, found_slots, no_slots, resized, resized_set, slot_at, slot_free,
    slot_run,
};
#[allow(unused_imports)]
use crate::exfat::entry::{
    char_of, decode_units, has_code, is_entry_set, name_units, parsed_from, ExFatFileEntry,
    ParsedEntrySet,
};
#[allow(unused_imports)]
use crate::exfat::entry_writer::{built_set, EntrySetBuilder};
#[allow(unused_imports)]
use crate::exfat::error::ExFatError;
#[allow(unused_imports)]
use crate::exfat::fat::{fat_table, in_entries, next_of};
#[allow(unused_imports)]
use crate::exfat::file_writer::{cluster_number, clusters_needed, whole_clusters};
#[allow(unused_imports)]
use crate::exfat::format_laws::{entry_sets_have_their_places, is_time_of};
#[allow(unused_imports)]
use crate::exfat::info::{clusters_are_apart, roll32, ExFatInfo};
#[allow(unused_imports)]
use crate::exfat::upcase::{
    ascii_table, hashes_turn_and_add, identity, load_outcome, standard_words, word_bytes,
    UpcaseTable,
};
#[allow(unused_imports)]
use crate::exfat::volume::{with_table, ExFatVolume, VolState};
#[allow(unused_imports)]
use crate::text::{units_beyond_the_basic_plane, utf16};
use vstd::prelude::*;

verus! {

proof fn chars_by_number(c: char)
    ensures
        char_of(c as u32) == c,
{
    assert(has_code(c, c as u32));
    assert(has_code(char_of(c as u32), c as u32));
}

/// Code units are read from the first on: one that is no surrogate is the character with its
/// number, a high surrogate with a low one behind it is the character that both stand for, and any
/// other surrogate is read as U+FFFD.
pub proof fn units_are_read_one_by_one(rest: Seq<u16>, c: char, high: u16, low: u16)
    requires
        0xD800 <= high < 0xDC00,
        0xDC00 <= low < 0xE000,
    ensures
        decode_units(Seq::empty()) == Seq::<char>::empty(),
        (c as u32) < 0x10000 ==> decode_units(seq![(c as u32) as u16] + rest) == seq![c]
            + decode_units(rest),
        c as u32 == 0x10000 + 0x400 * (high - 0xD800) + (low - 0xDC00) ==> decode_units(
            seq![high, low] + rest,
        ) == seq![c] + decode_units(rest),
        decode_units(seq![low] + rest) == seq!['\u{FFFD}'] + decode_units(rest),
        rest.len() == 0 || !(0xDC00 <= rest[0] < 0xE000) ==> decode_units(seq![high] + rest)
            == seq!['\u{FFFD}'] + decode_units(rest),
{
    vstd::utf8::char_is_scalar(c);
    chars_by_number(c);
    let a = seq![(c as u32) as u16] + rest;
    assert(a.skip(1) =~= rest);
    let b = seq![high, low] + rest;
    assert(b.skip(2) =~= rest);
    assert(b[0] == high && b[1] == low);
    let d = seq![low] + rest;
    assert(d.skip(1) =~= rest);
    assert(d[0] == low);
    let e = seq![high] + rest;
    assert(e.skip(1) =~= rest);
    assert(e[0] == high);
    if rest.len() > 0 {
        assert(e[1] == rest[0]);
    }
}

/// A volume without an up-case table compares names as if the letters `a` to `z` were capitals; it
/// maps nothing else.
pub proof fn the_plain_table_maps_ascii_letters(table: UpcaseTable, c: u16)
    requires
        table.valid,
        table.data@ == ascii_table(),
    ensures
        'a' as u32 <= c <= 'z' as u32 ==> table.upper(c) - 'A' as u32 == c - 'a' as u32,
        c < 'a' as u32 || c > 'z' as u32 ==> table.upper(c) == c,
{
}

/// The hash of a name goes through its code units, each in its upper-case form: it is turned by one
/// bit to the right and the low byte is added, then the same with the high byte. No name at all has
/// the hash 0.
pub proof fn name_hashes_turn_and_add(table: UpcaseTable, name: Seq<char>, c: char)
    requires
        (c as u32) < 0x10000,
    ensures
        table.hash_of(Seq::empty()) == 0,
        ({
            let h = table.hash_of(name);
            let u = table.upper((c as u32) as u16);
            let low = ((((h >> 1) | (h << 15)) as int + (u & 0xFF)) % 65536) as u16;
            table.hash_of(name.push(c)) == (((low >> 1) | (low << 15)) as int + (u >> 8)) % 65536
        }),
{
    let units = utf16(name);
    let more = utf16(name.push(c));
    units_beyond_the_basic_plane(name, c);
    assert(more =~= units.push((c as u32) as u16));
    assert(table.upper_all(more) =~= table.upper_all(units).push(table.upper((c as u32) as u16)));
    hashes_turn_and_add(table.upper_all(units), table.upper((c as u32) as u16));
    assert(utf16(Seq::empty()) =~= Seq::empty());
    assert(table.upper_all(utf16(Seq::empty())) =~= Seq::empty());
}

/// When a table is refused: it exceeds the volume's clusters, it has more than 131072 bytes, it is
/// in pieces, or its checksum is not the expected one; it then stays as it was.
pub proof fn tables_are_refused<D: Device>(
    before: UpcaseTable,
    after: UpcaseTable,
    content: Seq<u8>,
    info: ExFatInfo,
    first: u32,
    size: u64,
    is_contiguous: bool,
    checksum: Option<u32>,
    r: Result<(), ExFatError>,
)
    requires
        load_outcome::<D>(before, after, content, info, first, size, is_contiguous, checksum, r),
    ensures
        r is Err ==> after == before,
        ({
            let big = size > info.cluster_count * info.bytes_per_cluster;
            let at = info.offset(first);
            let sum = roll32(content.subrange(at, at + size));
            &&& big ==> r == Err::<(), ExFatError>(ExFatError::UpcaseExceedsVolume)
            &&& !big && size > 131072 ==> r == Err::<(), ExFatError>(ExFatError::UpcaseTooLarge)
            &&& !big && size <= 131072 && !is_contiguous ==> r == Err::<(), ExFatError>(
                ExFatError::UpcaseFragmented,
            )
            &&& !big && size <= 131072 && is_contiguous && D::infallible() && at + size
                <= content.len() ==> match checksum {
                None => r is Ok,
                Some(expected) => if expected == sum {
                    r is Ok
                } else {
                    r == Err::<(), ExFatError>(
                        ExFatError::InvalidChecksum { expected, found: sum },
                    )
                },
            }
            &&& r is Ok ==> after.valid && at + size <= content.len() && (checksum is None
                || checksum == Some(sum))
        }),
{
}

/// A path is followed name by name: without a name nothing is found, `..` is not followed, a name
/// that is not there is not found, and what is not a directory leads no further.
pub proof fn paths_are_followed_name_by_name<D: Device>(
    fs: &ExFatVolume<D>,
    dir: ExFatDir,
    parts: Seq<Seq<char>>,
    r: Result<ExFatFileEntry, ExFatError>,
)
    requires
        resolves(fs, dir, parts, r),
    ensures
        parts.len() == 0 ==> r == Err::<ExFatFileEntry, ExFatError>(ExFatError::EntryNotFound),
        parts.len() > 0 && parts[0] == seq!['.', '.'] ==> r == Err::<ExFatFileEntry, ExFatError>(
            ExFatError::InvalidPath,
        ),
        parts.len() > 0 && parts[0] != seq!['.', '.'] ==> match fs.lookup(dir, parts[0]) {
            Err(e) => r == Err::<ExFatFileEntry, ExFatError>(e),
            Ok(None) => r == Err::<ExFatFileEntry, ExFatError>(ExFatError::EntryNotFound),
            Ok(Some(i)) => {
                let (clusters, bytes) = (fs.reach(dir), fs.data_of(fs.reach(dir)));
                &&& parts.len() == 1 ==> (r matches Ok(e) && entry_from(
                    e,
                    fs.info,
                    clusters,
                    bytes,
                    i,
                ))
                &&& parts.len() > 1 ==> exists|e: ExFatFileEntry|
                    #![trigger entry_from(e, fs.info, clusters, bytes, i)]
                    {
                        &&& entry_from(e, fs.info, clusters, bytes, i)
                        &&& e.attributes.is_dir() ==> resolves(
                            fs,
                            dir_of_entry(e),
                            parts.drop_first(),
                            r,
                        )
                        &&& !e.attributes.is_dir() ==> r == Err::<ExFatFileEntry, ExFatError>(
                            ExFatError::NotADirectory,
                        )
                    }
            },
        },
{
    if parts.len() > 1 && parts[0] != seq!['.', '.'] {
        if let Ok(Some(i)) = fs.lookup(dir, parts[0]) {
            let (clusters, bytes) = (fs.reach(dir), fs.data_of(fs.reach(dir)));
            let e = choose|e: ExFatFileEntry|
                #![trigger entry_from(e, fs.info, clusters, bytes, i)]
                entry_from(e, fs.info, clusters, bytes, i) && if e.attributes.is_dir() {
                    resolves(fs, dir_of_entry(e), parts.drop_first(), r)
                } else {
                    r == Err::<ExFatFileEntry, ExFatError>(ExFatError::NotADirectory)
                };
            assert(entry_from(e, fs.info, clusters, bytes, i));
        }
    }
}

/// What is looked up in a directory whose clusters can all be reached is the first set with the
/// name; where they cannot, it is still found, or known to be missing, from what can be read.
pub proof fn names_are_looked_up<D: Device>(fs: &ExFatVolume<D>, dir: ExFatDir, name: Seq<char>)
    ensures
        ({
            let bytes = fs.data_of(fs.reach(dir));
            let found = first_named(bytes, sets_from(bytes, 0), fs.upcase, name);
            let known = settled(bytes, 0, fs.upcase, name);
            &&& fs.clusters_of(dir) is Ok ==> fs.lookup(dir, name) == Ok::<
                Option<int>,
                ExFatError,
            >(found)
            &&& fs.clusters_of(dir) matches Err(e) ==> {
                &&& known ==> fs.lookup(dir, name) == Ok::<Option<int>, ExFatError>(found)
                &&& !known ==> fs.lookup(dir, name) == Err::<Option<int>, ExFatError>(e)
            }
            &&& fs.clusters_of(dir) is Ok ==> fs.nonempty(dir) == Ok::<bool, ExFatError>(
                sets_from(bytes, 0).len() > 0,
            )
            &&& fs.clusters_of(dir) matches Err(e) ==> {
                &&& settled_any(bytes, 0) ==> fs.nonempty(dir) == Ok::<bool, ExFatError>(
                    sets_from(bytes, 0).len() > 0,
                )
                &&& !settled_any(bytes, 0) ==> fs.nonempty(dir) == Err::<bool, ExFatError>(e)
            }
        }),
{
}

/// The clusters of a directory that can be reached: those of its run that the volume has, or those
/// of its chain up to the first entry that leads nowhere.
pub proof fn directories_are_reached(
    info: ExFatInfo,
    table: Seq<u32>,
    dir: ExFatDir,
    c: u32,
    fuel: int,
    j: int,
)
    requires
        info.wf(),
    ensures
        dir.is_contiguous ==> {
            let list = dir_reach(info, table, dir);
            &&& !(2 <= dir.first_cluster < info.cluster_count + 2) ==> list.len() == 0
            &&& 2 <= dir.first_cluster < info.cluster_count + 2 ==> {
                &&& run_len(info, dir) >= 0 && dir.first_cluster + run_len(info, dir)
                    <= info.cluster_count + 2 ==> list.len() == run_len(info, dir)
                &&& dir.first_cluster + run_len(info, dir) > info.cluster_count + 2 ==> list.len()
                    == info.cluster_count + 2 - dir.first_cluster
                &&& 0 <= j < list.len() ==> list[j] == dir.first_cluster + j
            }
        },
        !dir.is_contiguous ==> dir_reach(info, table, dir) == chain_reach(
            info,
            table,
            dir.first_cluster,
            info.cluster_count as int,
        ),
        !(2 <= c < info.cluster_count + 2) ==> chain_reach(info, table, c, fuel) == Seq::<
            u32,
        >::empty(),
        2 <= c < info.cluster_count + 2 && 2 <= table[c as int] < info.cluster_count + 2 && fuel > 0
            ==> chain_reach(info, table, c, fuel) == seq![c] + chain_reach(
            info,
            table,
            table[c as int],
            fuel - 1,
        ),
        2 <= c < info.cluster_count + 2 && (!(2 <= table[c as int] < info.cluster_count + 2) || fuel
            <= 0) ==> chain_reach(info, table, c, fuel) == seq![c],
{
}

/// Room for new entries is the first there is: no earlier place of the cluster has so many free
/// places behind it, and no earlier cluster has them anywhere.
pub proof fn the_first_room_is_taken(
    content: Seq<u8>,
    info: ExFatInfo,
    clusters: Seq<u32>,
    n: int,
    j: int,
    offset: int,
    earlier: int,
    i: int,
)
    requires
        found_slots(content, info, clusters, n, j, offset),
        info.wf(),
        0 <= i,
        0 < n,
    ensures
        32 * i < offset ==> exists|k: int|
            0 <= k < n && content[#[trigger] slot_at(info.offset(clusters[j]), i + k)] != 0
                && content[slot_at(info.offset(clusters[j]), i + k)] != 5,
        0 <= earlier < j && 32 * (i + n) <= info.bytes_per_cluster ==> exists|k: int|
            0 <= k < n && content[#[trigger] slot_at(info.offset(clusters[earlier]), i + k)] != 0
                && content[slot_at(info.offset(clusters[earlier]), i + k)] != 5,
        slot_at(info.offset(clusters[j]), i) == info.offset(clusters[j]) + 32 * i,
{
    let per = info.bytes_per_cluster as int / 32;
    if 32 * i < offset {
        let base = info.offset(clusters[j]);
        assert(!slot_run(content, base, i, n));
        let k = choose|k: int| i <= k < i + n && !slot_free(content, #[trigger] slot_at(base, k));
        assert(slot_at(base, i + (k - i)) == slot_at(base, k));
    }
    if 0 <= earlier < j && 32 * (i + n) <= info.bytes_per_cluster {
        let base = info.offset(clusters[earlier]);
        assert(no_slots(content, base, per, n));
        assert(!slot_run(content, base, i, n));
        let k = choose|k: int| i <= k < i + n && !slot_free(content, #[trigger] slot_at(base, k));
        assert(slot_at(base, i + (k - i)) == slot_at(base, k));
    }
}

/// Writing replaces bytes and leaves all others.
pub proof fn writing_replaces_bytes(s: Seq<u8>, at: int, data: Seq<u8>, i: int)
    requires
        0 <= at,
        at + data.len() <= s.len(),
        0 <= i < s.len(),
    ensures
        splice(s, at, data).len() == s.len(),
        splice(s, at, data)[i] == (if at <= i < at + data.len() {
            data[i - at]
        } else {
            s[i]
        }),
{
}

/// The sizes of an entry are changed in its set on the device, whose length its second byte tells;
/// a set that the device does not hold whole cannot be changed.
pub proof fn sizes_are_changed_in_place(
    content: Seq<u8>,
    at: int,
    valid: u64,
    len: u64,
    first: u32,
    no_fat_chain: bool,
)
    requires
        0 <= at,
    ensures
        at + 32 > content.len() ==> resized(content, at, valid, len, first, no_fat_chain) == (
            Err::<(), ExFatError>(ExFatError::Io),
            content,
        ),
        at + 32 <= content.len() ==> {
            let end = at + 32 + 32 * content[at + 1];
            &&& end > content.len() ==> resized(content, at, valid, len, first, no_fat_chain) == (
                Err::<(), ExFatError>(ExFatError::Io),
                content,
            )
            &&& end <= content.len() ==> resized(content, at, valid, len, first, no_fat_chain) == (
                Ok::<(), ExFatError>(()),
                splice(
                    content,
                    at,
                    resized_set(content.subrange(at, end), valid, len, first, no_fat_chain),
                ),
            )
        },
{
}

/// A file of so many bytes has the fewest clusters that hold them, and writing up to a position
/// takes no more than that asks for.
pub proof fn files_take_the_fewest_clusters(len: int, cs: int, before: int)
    requires
        0 <= len,
        0 < cs,
    ensures
        (cluster_number(len, cs) - 1) * cs < len <= cluster_number(len, cs) * cs || (len == 0
            && cluster_number(len, cs) == 0),
        whole_clusters(len, cs) == cluster_number(len, cs) * cs,
        clusters_needed(before, len, cs) >= before,
        clusters_needed(before, len, cs) >= cluster_number(len, cs),
        clusters_needed(before, len, cs) == before || clusters_needed(before, len, cs)
            == cluster_number(len, cs),
{
    let q = cluster_number(len, cs);
    vstd::arithmetic::div_mod::lemma_fundamental_div_mod(len + cs - 1, cs);
    vstd::arithmetic::div_mod::lemma_mod_bound(len + cs - 1, cs);
    assert(q * cs == cs * q && (q - 1) * cs == cs * q - cs) by (nonlinear_arith);
    if len == 0 {
        vstd::arithmetic::div_mod::lemma_fundamental_div_mod_converse(cs - 1, cs, 0, cs - 1);
    }
}

/// What is known from the bytes that could be read of a directory: an end mark settles everything,
/// a set with the name settles a lookup, any set settles whether there are some; a set that is cut
/// off settles nothing.
pub proof fn what_was_read_settles_a_lookup(
    bytes: Seq<u8>,
    i: int,
    upcase: UpcaseTable,
    name: Seq<char>,
)
    requires
        0 <= i,
    ensures
        32 * i + 32 > bytes.len() ==> !settled(bytes, i, upcase, name) && !settled_any(bytes, i),
        32 * i + 32 <= bytes.len() ==> {
            let end = i + 1 + bytes[32 * i + 1];
            let cut = bytes[32 * i] == 0x85 && 32 * end > bytes.len();
            let set = stands_set(bytes, i);
            &&& cut ==> !settled(bytes, i, upcase, name) && !settled_any(bytes, i)
            &&& bytes[32 * i] == 0 ==> settled(bytes, i, upcase, name) && settled_any(bytes, i)
            &&& !cut && bytes[32 * i] != 0 && set ==> {
                &&& settled_any(bytes, i)
                &&& settled(bytes, i, upcase, name) <==> named(bytes, i, upcase, name) || settled(
                    bytes,
                    end,
                    upcase,
                    name,
                )
            }
            &&& !cut && bytes[32 * i] != 0 && !set ==> {
                &&& settled(bytes, i, upcase, name) == settled(bytes, i + 1, upcase, name)
                &&& settled_any(bytes, i) == settled_any(bytes, i + 1)
            }
        },
{
}

/// Writing a table of the FAT back writes each cluster's entry, low byte first, and nothing else.
pub proof fn tables_are_written_back(
    info: ExFatInfo,
    content: Seq<u8>,
    table: Seq<u32>,
    c: u32,
    i: int,
)
    requires
        2 <= c < info.cluster_count + 2,
        table.len() == info.cluster_count + 2,
        info.fat_offset + 4 * (info.cluster_count + 2) <= content.len(),
        0 <= i < content.len(),
    ensures
        with_table(info, content, table).len() == content.len(),
        number32(with_table(info, content, table), info.fat_offset + 4 * c) == table[c as int],
        i < info.fat_offset + 8 || i >= info.fat_offset + 4 * (info.cluster_count + 2)
            ==> with_table(info, content, table)[i] == content[i],
{
    let w = with_table(info, content, table);
    let at = info.fat_offset + 4 * c;
    let x = le32(table[c as int]);
    numbers_are_written_low_byte_first(0, table[c as int], 0);
    assert forall|k: int| 0 <= k < 4 implies w[at + k] == #[trigger] x[k] by {
        assert((at + k - info.fat_offset) / 4 == c && (at + k - info.fat_offset) % 4 == k);
        assert(in_entries(info, at + k, content.len() as int));
    }
    assert(w[at + 0] == x[0] && w[at + 1] == x[1] && w[at + 2] == x[2] && w[at + 3] == x[3]);
}

/// The entry of a new file is an archive without clusters, that of a new directory a directory of
/// one cluster, the first that is free; both carry the name they were asked for.
pub proof fn created_entries_say_what_they_are<D: Device>(
    fs: &ExFatVolume<D>,
    after: Seq<u8>,
    state: VolState,
    parent: ExFatDir,
    name: Seq<char>,
    cluster: u32,
    b: EntrySetBuilder,
    j: int,
    offset: u64,
    e: ExFatFileEntry,
)
    requires
        fs.wf(),
    ensures
        file_created(fs, after, parent, name, b, j, offset, e) ==> {
            &&& b.attributes.bits == 0x20
            &&& b.name@ == name
            &&& b.first_cluster == 0 && b.data_length == 0 && b.valid_data_length == 0
            &&& b.created == b.modified && b.created == b.accessed
            &&& after == splice(
                fs.device@,
                fs.info.offset(fs.reach(parent)[j]) + offset,
                built_set(b, fs.upcase.hash_of(name)),
            )
        },
        dir_created(fs, state, parent, name, cluster, b, j, offset) ==> {
            &&& b.attributes.bits == 0x10
            &&& b.name@ == name
            &&& b.first_cluster == cluster
            &&& b.data_length == fs.info.bytes_per_cluster
            &&& b.valid_data_length == 0
            &&& b.is_contiguous
            &&& free_cluster(fs.bitmap@, 2) == Some(cluster)
            &&& state.bits == fs.bitmap@.update(cluster - 2, true)
        },
{
}

/// An entry that is listed says what its set says: its attributes, where its clusters begin and
/// whether they need no chain, its sizes, and its name.
pub proof fn entries_say_what_their_set_says(
    e: ExFatFileEntry,
    info: ExFatInfo,
    clusters: Seq<u32>,
    bytes: Seq<u8>,
    i: int,
    k: int,
)
    requires
        entry_from(e, info, clusters, bytes, i),
        is_entry_set(set_at(bytes, i)),
        0 <= k < set_at(bytes, i)[35],
    ensures
        ({
            let set = set_at(bytes, i);
            &&& e.attributes.bits == set[4] + 0x100 * set[5]
            &&& e.no_fat_chain <==> set[33] & 2 != 0
            &&& e.name_hash == set[36] + 0x100 * set[37]
            &&& e.valid_data_length == number64(set, 40)
            &&& e.first_cluster == number32(set, 52)
            &&& e.data_length == number64(set, 56)
            &&& e.name@ == decode_units(name_units(set, set[35] as int))
            &&& name_units(set, set[35] as int)[k] == set[66 + 32 * (k / 15) + 2 * (k % 15)] + 0x100
                * set[67 + 32 * (k / 15) + 2 * (k % 15)]
            &&& is_time_of(e.created, set[8], set[9], set[10], set[11], set[20])
            &&& is_time_of(e.modified, set[12], set[13], set[14], set[15], set[21])
            &&& is_time_of(e.accessed, set[16], set[17], set[18], set[19], 0)
        }),
{
    let set = set_at(bytes, i);
    let p = choose|p: ParsedEntrySet|
        #![trigger parsed_from(p, set)]
        parsed_from(p, set) && same_values(e, p);
    entry_sets_have_their_places(p, set, k);
}

/// On a device that holds the whole volume every directory can be read as far as it reaches.
pub proof fn whole_volumes_hold_their_directories<D: Device>(fs: &ExFatVolume<D>, dir: ExFatDir)
    requires
        fs.wf(),
        fs.device@.len() >= fs.info.heap_offset + fs.info.cluster_count * fs.info.bytes_per_cluster,
    ensures
        fs.holds_dir(dir),
{
    let info = fs.info;
    let table = fat_table(fs.device@, info);
    let list = fs.reach(dir);
    assert(0 <= info.cluster_count * info.bytes_per_cluster) by (nonlinear_arith);
    if !dir.is_contiguous {
        reached_clusters_exist(info, table, dir.first_cluster, info.cluster_count as int);
    }
    assert forall|i: int| 0 <= i < list.len() implies info.offset(#[trigger] list[i])
        + info.bytes_per_cluster <= fs.device@.len() by {
        assert(info.has(list[i]));
        clusters_are_apart(info, list[i], list[i]);
    }
}

proof fn reached_clusters_exist(info: ExFatInfo, table: Seq<u32>, c: u32, fuel: int)
    ensures
        forall|i: int|
            0 <= i < chain_reach(info, table, c, fuel).len() ==> info.has(
                #[trigger] chain_reach(info, table, c, fuel)[i],
            ),
    decreases fuel,
{
    if info.has(c) && fuel > 0 {
        if let Ok(Some(next)) = next_of(info, table[c as int]) {
            reached_clusters_exist(info, table, next, fuel - 1);
            let rest = chain_reach(info, table, next, fuel - 1);
            let all = chain_reach(info, table, c, fuel);
            assert forall|i: int| 0 <= i < all.len() implies info.has(#[trigger] all[i]) by {
                if i > 0 {
                    assert(all[i] == rest[i - 1]);
                }
            }
        }
    }
}

/// The table that formatting writes has 32 words, low byte first: 97 units stay as they are, the 26
/// small letters become capitals, and the others stay, in two runs.
pub proof fn the_written_table_has_32_words(i: int)
    ensures
        ({
            let b = word_bytes(standard_words());
            &&& b.len() == 64
            &&& 0 <= i < 32 ==> b[2 * i] + 0x100 * b[2 * i + 1] == (if i == 0 || i == 28 || i == 30 {
                0xFFFF
            } else if i == 1 {
                'a' as u32 as int
            } else if i < 28 {
                'A' as u32 + (i - 2)
            } else if i == 29 {
                0x8000
            } else {
                0x10000 - 0x8000 - 'z' as u32 - 1
            })
        }),
{
    let w = standard_words();
    assert(w.len() == 32);
    if 0 <= i < 32 {
        assert((2 * i) % 2 == 0 && (2 * i) / 2 == i);
        assert((2 * i + 1) % 2 == 1 && (2 * i + 1) / 2 == i);
        if 2 <= i < 28 {
            assert(identity(0x41, 0x5B)[i - 2] == 0x41 + (i - 2));
            assert(w[i] == 0x41 + (i - 2));
        }
    }
}

} // verus!

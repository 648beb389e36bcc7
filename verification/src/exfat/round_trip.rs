//! What is created, written and finished is found again, and read back after the volume was
//! opened anew.

#[allow(unused_imports)]
use crate::exfat::bitmap::{bytes_for, packed};
#[allow(unused_imports)]
use crate::exfat::device::{splice, Device};
#[allow(unused_imports)]
use crate::exfat::dir::{
    clusters_data, entry_from, first_named, listed_clusters_are_reached, named, same_values, set_at,
    set_name, sets_from, stands_set, ExFatDir,
};
#[allow(unused_imports)]
use crate::exfat::dir_laws::{
    cluster_is_entries, data_len, directory_avoids, directory_clusters_differ, no_end_before,
    resized_set_is_read_back, same_data, slot_byte, walk_reaches, within_is_apart, written_cluster,
};
#[allow(unused_imports)]
use crate::exfat::edit::{
    file_created, found_slots, resized, resized_set, set_len, set_on_device, synced,
};
#[allow(unused_imports)]
use crate::exfat::entry::{is_entry_set, parsed_from, ParsedEntrySet, ExFatFileEntry};
#[allow(unused_imports)]
use crate::exfat::entry_writer::{
    built_set, built_set_is_an_entry_set, valid_name, EntrySetBuilder,
};
#[allow(unused_imports)]
use crate::exfat::error::ExFatError;
#[allow(unused_imports)]
use crate::exfat::fat::{entry_at, fat_table, table_unchanged};
#[allow(unused_imports)]
use crate::exfat::file_laws::{
    byte_is_in_the_clusters, clusters_are_few, clusters_are_found, disjoint,
};
#[allow(unused_imports)]
use crate::exfat::file_reader::{
    clusters_exist, file_byte, nth_cluster, read_limit, ExFatFileReader,
};
#[allow(unused_imports)]
use crate::exfat::file_writer::{
    chain_byte, cluster_number, clusters_needed, entry_owns, keeps_rest, lies_in, only_touches,
    owns, same_allocation, whole_clusters, wrote, ExFatFileWriter,
};
#[allow(unused_imports)]
use crate::exfat::info::{clusters_are_apart, ExFatInfo};
#[allow(unused_imports)]
use crate::exfat::release_laws::{
    apart_from, same_file, same_file_again, same_file_is_kept, splice_keeps_file, syncing_keeps_file,
};
#[allow(unused_imports)]
use crate::exfat::upcase::UpcaseTable;
#[allow(unused_imports)]
use crate::exfat::volume::{complete_holds_fat, ExFatVolume, VolState};
#[allow(unused_imports)]
use crate::text::utf16;
use vstd::prelude::*;

verus! {

/// Where the entry set of a file stands: in cluster number `j` of a directory, `offset` bytes
/// behind its start.
pub struct Place {
    /// The clusters of the directory.
    pub clusters: Seq<u32>,
    /// Number of the cluster.
    pub j: int,
    /// Offset within the cluster.
    pub offset: int,
}

impl Place {
    /// Number of the entry within the directory.
    pub open spec fn entry(self, info: ExFatInfo) -> int {
        self.j * (info.bytes_per_cluster as int / 32) + self.offset / 32
    }

    /// Byte of the device.
    pub open spec fn at(self, info: ExFatInfo) -> int {
        info.offset(self.clusters[self.j]) + self.offset
    }
}

/// Whether a state comes out of creating a file, writing it and finishing: its entry set was
/// written where it stands, its clusters were written, the set got its size, and the bitmap
/// was written.
pub open spec fn stored(
    info: ExFatInfo,
    bitmap: u32,
    place: Place,
    set: Seq<u8>,
    s0: VolState,
    s2: VolState,
    own: Seq<u32>,
    len: u64,
    first: u32,
    contiguous: bool,
    t: VolState,
) -> bool {
    let at = place.at(info);
    let s1 = VolState { content: splice(s0.content, at, set), bits: s0.bits };
    let (r, content) = resized(s2.content, at, len, len, first, contiguous);
    &&& only_touches(info, s1, s2, own)
    &&& r is Ok
    &&& (Ok::<(), ExFatError>(()), t) == synced(info, bitmap, VolState { content, bits: s2.bits })
}

/// Whether the place lies in its cluster, which is one of the volume, and the clusters of the
/// directory are apart from those of the file and from the bitmap.
pub open spec fn placed(
    info: ExFatInfo,
    bitmap: u32,
    place: Place,
    set: Seq<u8>,
    s0: VolState,
    s2: VolState,
    own: Seq<u32>,
) -> bool {
    &&& info.wf()
    &&& s0.content.len() >= info.end()
    &&& s0.bits.len() == info.cluster_count
    &&& s2.bits.len() == info.cluster_count
    &&& is_entry_set(set)
    &&& place.clusters.no_duplicates()
    &&& forall|i: int|
        0 <= i < place.clusters.len() ==> info.has(#[trigger] place.clusters[i])
    &&& forall|i: int| 0 <= i < own.len() ==> info.has(#[trigger] own[i])
    &&& 0 <= place.j < place.clusters.len()
    &&& 0 <= place.offset
    &&& place.offset % 32 == 0
    &&& place.offset + set.len() <= info.bytes_per_cluster
    &&& disjoint(own, place.clusters)
    &&& bitmap >= 2 ==> apart_from(
        info,
        place.clusters + own,
        info.offset(bitmap),
        bytes_for(info.cluster_count as int),
    )
}

/// The set of a file that was finished.
pub(crate) proof fn finished_set(
    info: ExFatInfo,
    bitmap: u32,
    place: Place,
    set: Seq<u8>,
    s0: VolState,
    s2: VolState,
    own: Seq<u32>,
    len: u64,
    first: u32,
    contiguous: bool,
    t: VolState,
)
    requires
        placed(info, bitmap, place, set, s0, s2, own),
        stored(info, bitmap, place, set, s0, s2, own, len, first, contiguous, t),
    ensures
        ({
            let after = resized_set(set, len, len, first, contiguous);
            let content = splice(s2.content, place.at(info), after);
            &&& after.len() == set.len()
            &&& is_entry_set(after)
            &&& s2.content.len() == s0.content.len()
            &&& content.len() == s0.content.len()
            &&& (Ok::<(), ExFatError>(()), t) == synced(
                info,
                bitmap,
                VolState { content, bits: s2.bits },
            )
        }),
{
    reveal(only_touches);
    let at = place.at(info);
    let c = place.clusters[place.j];
    assert(info.has(place.clusters[place.j]));
    clusters_are_apart(info, c, c);
    let c1 = splice(s0.content, at, set);
    assert(c1.len() == s0.content.len());
    assert(!own.contains(place.clusters[place.j]));
    assert forall|x: int| 0 <= x < set.len() implies #[trigger] s2.content[at + x] == set[x] by {
        let y = place.offset + x;
        assert(s2.content[info.offset(c) + y] == c1[info.offset(c) + y]);
        assert(c1[at + x] == set[x]);
    }
    assert(s2.content[at + 1] == set[1]);
    let found = set_on_device(s2.content, at);
    assert(found.len() == set.len());
    assert forall|x: int| 0 <= x < set.len() implies #[trigger] found[x] == set[x] by {
        assert(found[x] == s2.content[at + x]);
    }
    assert(found =~= set);
    resized_set_is_read_back(set, len, len, first, contiguous);
}

/// What the directory holds once a file was finished.
pub(crate) proof fn finished_directory(
    info: ExFatInfo,
    bitmap: u32,
    place: Place,
    set: Seq<u8>,
    s0: VolState,
    s2: VolState,
    own: Seq<u32>,
    len: u64,
    first: u32,
    contiguous: bool,
    t: VolState,
)
    requires
        placed(info, bitmap, place, set, s0, s2, own),
        stored(info, bitmap, place, set, s0, s2, own, len, first, contiguous, t),
    ensures
        ({
            let after = resized_set(set, len, len, first, contiguous);
            &&& t.content.len() == s0.content.len()
            &&& clusters_data(t.content, info, place.clusters) == splice(
                clusters_data(s0.content, info, place.clusters),
                32 * place.entry(info),
                after,
            )
            &&& forall|i: int|
                0 <= i < place.clusters.len() ==> fat_table(t.content, info)[(
                #[trigger] place.clusters[i]) as int] == fat_table(s0.content, info)[
                place.clusters[i] as int]
        }),
{
    reveal(only_touches);
    let at = place.at(info);
    let cs = info.bytes_per_cluster as int;
    let cl = place.clusters;
    let after = resized_set(set, len, len, first, contiguous);
    finished_set(info, bitmap, place, set, s0, s2, own, len, first, contiguous, t);
    let c1 = splice(s0.content, at, set);
    written_cluster(s0.content, info, cl, place.j, place.offset, set);
    let s1 = VolState { content: c1, bits: s0.bits };
    assert(info.has(cl[place.j]));
    clusters_are_apart(info, cl[place.j], cl[place.j]);
    complete_holds_fat(info);
    table_unchanged(s0.content, c1, info);
    assert forall|i: int, x: int|
        #![trigger s2.content[info.offset(cl[i]) + x]]
        0 <= i < cl.len() && 0 <= x < cs implies s2.content[info.offset(cl[i]) + x]
        == c1[info.offset(cl[i]) + x] by {
        assert(info.has(cl[i]) && !own.contains(cl[i]));
    }
    same_data(c1, s2.content, info, cl);
    let c3 = splice(s2.content, at, after);
    written_cluster(s2.content, info, cl, place.j, place.offset, after);
    table_unchanged(s2.content, c3, info);
    let s3 = VolState { content: c3, bits: s2.bits };
    if bitmap >= 2 {
        assert forall|i: int| 0 <= i < cl.len() implies info.offset(bitmap) + bytes_for(
            info.cluster_count as int,
        ) <= info.offset(#[trigger] cl[i]) || info.offset(cl[i]) + info.bytes_per_cluster
            <= info.offset(bitmap) by {
            assert((cl + own)[i] == cl[i]);
        }
    }
    syncing_keeps_file(info, bitmap, s3, cl);
    assert forall|i: int, x: int|
        #![trigger t.content[info.offset(cl[i]) + x]]
        0 <= i < cl.len() && 0 <= x < cs implies t.content[info.offset(cl[i]) + x]
        == c3[info.offset(cl[i]) + x] by {}
    same_data(c3, t.content, info, cl);
    assert forall|i: int| 0 <= i < cl.len() implies fat_table(t.content, info)[(
    #[trigger] cl[i]) as int] == fat_table(s0.content, info)[cl[i] as int] by {
        assert(info.has(cl[i]) && !own.contains(cl[i]));
        assert(t.bits[cl[i] - 2] == s3.bits[cl[i] - 2]);
        assert(s2.bits[cl[i] - 2] == s1.bits[cl[i] - 2]);
    }
    let bytes = clusters_data(s0.content, info, cl);
    let k = 32 * place.entry(info);
    assert(k == place.j * cs + place.offset) by {
        cluster_is_entries(info);
        let per = cs / 32;
        assert(place.j * cs == 32 * (place.j * per)) by (nonlinear_arith)
            requires
                cs == 32 * per,
        ;
    }
    assert(place.j * cs >= 0) by (nonlinear_arith)
        requires
            place.j >= 0,
            cs >= 0,
    ;
    assert(splice(splice(bytes, k, set), k, after) =~= splice(bytes, k, after));
}

/// A set that stands where room for it was found is the first of its name.
proof fn set_is_first(
    content: Seq<u8>,
    info: ExFatInfo,
    place: Place,
    bytes: Seq<u8>,
    set: Seq<u8>,
    upcase: UpcaseTable,
    name: Seq<char>,
)
    requires
        info.wf(),
        content.len() >= info.end(),
        forall|i: int|
            0 <= i < place.clusters.len() ==> info.has(#[trigger] place.clusters[i]),
        found_slots(content, info, place.clusters, set_len(name), place.j, place.offset),
        set.len() == 32 * set_len(name),
        is_entry_set(set),
        set_name(set) == utf16(name),
        first_named(
            clusters_data(content, info, place.clusters),
            sets_from(clusters_data(content, info, place.clusters), 0),
            upcase,
            name,
        ) is None,
        no_end_before(clusters_data(content, info, place.clusters), place.entry(info)),
        bytes == splice(
            clusters_data(content, info, place.clusters),
            32 * place.entry(info),
            set,
        ),
    ensures
        first_named(bytes, sets_from(bytes, 0), upcase, name) == Some(place.entry(info)),
        set_at(bytes, place.entry(info)) == set,
{
    let cs = info.bytes_per_cluster as int;
    let per = cs / 32;
    let o = place.offset / 32;
    let i = place.entry(info);
    let n = set_len(name);
    let a = clusters_data(content, info, place.clusters);
    cluster_is_entries(info);
    data_len(content, info, place.clusters);
    assert(place.j * cs == 32 * (place.j * per)) by (nonlinear_arith)
        requires
            cs == 32 * per,
    ;
    assert(place.j * per >= 0) by (nonlinear_arith)
        requires
            place.j >= 0,
            per >= 0,
    ;
    assert(place.j * cs + cs <= place.clusters.len() * cs) by (nonlinear_arith)
        requires
            place.j + 1 <= place.clusters.len(),
            cs >= 0,
    ;
    assert(n >= 3);
    slot_byte(content, info, place.clusters, place.j, o, n);
    assert(32 * i == place.j * cs + 32 * o);
    assert(32 * i + set.len() <= a.len());
    assert(bytes.len() == a.len());
    assert(bytes[32 * i] == set[0]);
    assert(bytes[32 * i + 1] == set[1]);
    assert(set_at(bytes, i) =~= set);
    assert(stands_set(bytes, i));
    walk_reaches(a, bytes, i, 0, upcase, name);
    assert(sets_from(bytes, i)[0] == i);
    assert(named(bytes, i, upcase, name));
}

/// What a finished file's clusters hold is what was written.
proof fn finished_file_holds(
    info: ExFatInfo,
    bitmap: u32,
    place: Place,
    set: Seq<u8>,
    s0: VolState,
    s2: VolState,
    own: Seq<u32>,
    len: u64,
    first: u32,
    contiguous: bool,
    t: VolState,
)
    requires
        placed(info, bitmap, place, set, s0, s2, own),
        stored(info, bitmap, place, set, s0, s2, own, len, first, contiguous, t),
        owns(info, fat_table(s2.content, info), s2.bits, first, contiguous, own),
    ensures
        t.bits == s2.bits,
        owns(info, fat_table(t.content, info), t.bits, first, contiguous, own),
        forall|p: int|
            0 <= p < own.len() * info.bytes_per_cluster ==> #[trigger] file_byte(
                t.content,
                info,
                first,
                contiguous,
                p,
            ) == chain_byte(s2.content, info, own, p),
{
    let at = place.at(info);
    let cl = place.clusters;
    let after = resized_set(set, len, len, first, contiguous);
    finished_set(info, bitmap, place, set, s0, s2, own, len, first, contiguous, t);
    assert(info.has(cl[place.j]));
    clusters_are_apart(info, cl[place.j], cl[place.j]);
    let s3 = VolState { content: splice(s2.content, at, after), bits: s2.bits };
    assert(disjoint(cl, own)) by {
        assert forall|i: int| 0 <= i < own.len() implies !cl.contains(#[trigger] own[i]) by {
            if cl.contains(own[i]) {
                let k = choose|k: int| 0 <= k < cl.len() && cl[k] == own[i];
                assert(!own.contains(cl[k]));
            }
        }
    }
    within_is_apart(
        info,
        cl[place.j],
        place.offset,
        after.len() as int,
        own,
        cl,
        place.j,
    );
    splice_keeps_file(info, s2, s3, own, at, after);
    if bitmap >= 2 {
        assert forall|i: int| 0 <= i < own.len() implies info.offset(bitmap) + bytes_for(
            info.cluster_count as int,
        ) <= info.offset(#[trigger] own[i]) || info.offset(own[i]) + info.bytes_per_cluster
            <= info.offset(bitmap) by {
            assert((cl + own)[cl.len() + i] == own[i]);
        }
    }
    syncing_keeps_file(info, bitmap, s3, own);
    same_file_again(info, s2, s3, t, own);
    same_file_is_kept(info, s2, t, first, contiguous, own);
    assert forall|p: int| 0 <= p < own.len() * info.bytes_per_cluster implies #[trigger] file_byte(
        t.content,
        info,
        first,
        contiguous,
        p,
    ) == chain_byte(s2.content, info, own, p) by {
        byte_is_in_the_clusters(info, s2, first, contiguous, own, p);
    }
}

/// A byte stays that lies neither in the FAT nor in the clusters of the file, nor in its
/// entry set nor in the bitmap.
pub(crate) proof fn other_byte_stays(
    info: ExFatInfo,
    bitmap: u32,
    place: Place,
    set: Seq<u8>,
    s0: VolState,
    s2: VolState,
    own: Seq<u32>,
    len: u64,
    first: u32,
    contiguous: bool,
    t: VolState,
    x: int,
)
    requires
        placed(info, bitmap, place, set, s0, s2, own),
        stored(info, bitmap, place, set, s0, s2, own, len, first, contiguous, t),
        0 <= x < s0.content.len(),
        !(entry_at(info, 2) <= x < entry_at(info, info.cluster_count + 2)),
        !lies_in(info, own, x),
        !(place.at(info) <= x < place.at(info) + set.len()),
        bitmap >= 2 ==> !(info.offset(bitmap) <= x < info.offset(bitmap) + bytes_for(
            info.cluster_count as int,
        )),
    ensures
        t.content[x] == s0.content[x],
{
    reveal(only_touches);
    let at = place.at(info);
    let cl = place.clusters;
    finished_set(info, bitmap, place, set, s0, s2, own, len, first, contiguous, t);
    assert(info.has(cl[place.j]));
    clusters_are_apart(info, cl[place.j], cl[place.j]);
    let c1 = splice(s0.content, at, set);
    assert(c1[x] == s0.content[x]);
    assert(s2.content[x] == c1[x]) by {
        reveal(keeps_rest);
    }
    let after = resized_set(set, len, len, first, contiguous);
    let c3 = splice(s2.content, at, after);
    assert(c3[x] == s2.content[x]);
    if bitmap >= 2 {
        assert((cl + own)[0] == cl[0]);
        assert(info.heap_offset <= info.offset(bitmap));
        assert(t.content == splice(c3, info.offset(bitmap), packed(s2.bits)));
    }
}

/// Tables with the same values find the same names.
pub(crate) proof fn same_table_same_names(
    bytes: Seq<u8>,
    sets: Seq<int>,
    a: UpcaseTable,
    b: UpcaseTable,
    name: Seq<char>,
)
    requires
        same_table(a, b),
    ensures
        first_named(bytes, sets, a, name) == first_named(bytes, sets, b, name),
    decreases sets.len(),
{
    if sets.len() > 0 {
        let units = set_name(set_at(bytes, sets[0]));
        assert(a.upper_all(units) =~= b.upper_all(units));
        assert(a.upper_all(utf16(name)) =~= b.upper_all(utf16(name)));
        same_table_same_names(bytes, sets.drop_first(), a, b, name);
    }
}

/// Whether two up-case tables have the same values.
pub open spec fn same_table(a: UpcaseTable, b: UpcaseTable) -> bool {
    a.valid == b.valid && a.data@ == b.data@
}

/// A file whose clusters hold the data is read as the data.
proof fn held_file_is_read<'a, D: Device>(
    t: VolState,
    first: u32,
    contiguous: bool,
    own: Seq<u32>,
    data: Seq<u8>,
    reader: ExFatFileReader<'a, D>,
)
    requires
        D::infallible(),
        reader.fs.wf(),
        reader.fs.complete(),
        reader.fs.device@ == t.content,
        owns(
            reader.fs.info,
            fat_table(t.content, reader.fs.info),
            t.bits,
            first,
            contiguous,
            own,
        ),
        data.len() <= own.len() * reader.fs.info.bytes_per_cluster,
        forall|p: int|
            0 <= p < data.len() ==> #[trigger] file_byte(
                t.content,
                reader.fs.info,
                first,
                contiguous,
                p,
            ) == data[p],
        reader.first_cluster == first,
        data.len() > 0 ==> reader.is_contiguous == contiguous,
        reader.valid_length == data.len(),
        reader.position == 0,
    ensures
        reader.readable(),
        read_limit(&reader, data.len() as int) == data.len(),
        Seq::new(data.len(), |i: int| reader.byte(reader.position + i)) == data,
{
    let info = reader.fs.info;
    let cs = info.bytes_per_cluster as int;
    let table = fat_table(t.content, info);
    let n = (data.len() + cs - 1) / cs;
    clusters_are_few(info, own);
    if data.len() == 0 {
        vstd::arithmetic::div_mod::lemma_fundamental_div_mod_converse(cs - 1, cs, 0, cs - 1);
    } else {
        assert(n <= own.len()) by {
            vstd::arithmetic::div_mod::lemma_div_is_ordered(
                data.len() + cs - 1,
                own.len() * cs + cs - 1,
                cs,
            );
            vstd::arithmetic::div_mod::lemma_fundamental_div_mod_converse(
                own.len() * cs + cs - 1,
                cs,
                own.len() as int,
                cs - 1,
            );
        }
        assert forall|k: int| 0 <= k < n implies (#[trigger] nth_cluster(
            info,
            table,
            first,
            contiguous,
            k,
        ) matches Some(x) && info.has(x)) by {
            clusters_are_found(info, table, t.bits, first, contiguous, own, k);
            assert(info.has(own[k]));
        }
        assert(clusters_exist(info, table, first, contiguous, n));
    }
    assert forall|i: int| 0 <= i < data.len() implies reader.byte(reader.position + i)
        == data[i] by {
        assert(file_byte(t.content, info, first, contiguous, i) == data[i]);
    }
    assert(Seq::new(data.len(), |i: int| reader.byte(reader.position + i)) =~= data);
}

/// What came of creating a file in a directory, writing data into it with a new writer and
/// finishing, each of which succeeded.
pub struct Storing<D: Device> {
    /// The volume before.
    pub before: ExFatVolume<D>,
    /// The directory.
    pub parent: ExFatDir,
    /// The name of the file.
    pub name: Seq<char>,
    /// What the entry set was built from.
    pub builder: EntrySetBuilder,
    /// Number of the directory's cluster with the entry set.
    pub j: int,
    /// Offset of the entry set in this cluster.
    pub offset: u64,
    /// The entry that creating gave.
    pub entry: ExFatFileEntry,
    /// The volume with the new file.
    pub created: ExFatVolume<D>,
    /// The writer for the new file.
    pub start: ExFatFileWriter,
    /// What was written.
    pub data: Seq<u8>,
    /// The writer behind the data.
    pub end: ExFatFileWriter,
    /// The volume with the data.
    pub written: ExFatVolume<D>,
    /// The volume once writing was finished.
    pub finished: ExFatVolume<D>,
}

impl<D: Device> Storing<D> {
    /// What `create_file` ensures of the file that it creates.
    pub open spec fn creates(self) -> bool {
        &&& self.created.wf()
        &&& self.created.same_volume(&self.before)
        &&& self.created.bitmap@ == self.before.bitmap@
        &&& self.before.lookup(self.parent, self.name) == Ok::<Option<int>, ExFatError>(None)
        &&& valid_name(self.name)
        &&& self.entry.attributes.bits == 0x20
        &&& self.entry.first_cluster == 0
        &&& self.entry.data_length == 0
        &&& self.entry.valid_data_length == 0
        &&& self.entry.no_fat_chain
        &&& file_created(
            &self.before,
            self.created.device@,
            self.parent,
            self.name,
            self.builder,
            self.j,
            self.offset,
            self.entry,
        )
    }

    /// What `write_file` ensures of the writer.
    pub open spec fn starts(self) -> bool {
        &&& self.start.entry.same(&self.entry)
        &&& self.start.position == 0
        &&& self.start.new_length == self.entry.valid_data_length
        &&& self.start.first_cluster == self.entry.first_cluster
        &&& self.start.is_contiguous == self.entry.no_fat_chain
        &&& forall|c: Seq<u32>|
            #![trigger c.no_duplicates()]
            entry_owns(&self.created, self.start.entry, c) ==> self.start.inv(&self.created)
                && entry_owns(&self.created, self.start.entry, self.start.clusters@)
    }

    /// What `write_all` ensures where it writes all.
    pub open spec fn writes(self) -> bool {
        &&& self.written.wf()
        &&& self.written.same_volume(&self.created)
        &&& self.end.entry == self.start.entry
        &&& self.start.ready(&self.created) ==> {
            &&& self.end.inv(&self.written)
            &&& wrote(
                self.start,
                self.created.state(),
                self.end,
                self.written.state(),
                self.created.info,
                self.data,
                self.data.len() as int,
            )
            &&& self.end.new_length == (if self.start.position + self.data.len()
                > self.start.new_length {
                (self.start.position + self.data.len()) as u64
            } else {
                self.start.new_length
            })
            &&& self.end.clusters@.len() == clusters_needed(
                self.start.clusters@.len() as int,
                self.start.position + self.data.len(),
                self.created.info.bytes_per_cluster as int,
            )
            &&& self.end.clusters@.len() == self.start.clusters@.len() ==> same_allocation(
                self.created.info,
                self.start,
                self.created.state(),
                self.end,
                self.written.state(),
            )
        }
        &&& self.start.position + self.data.len() <= u64::MAX
    }

    /// What `finish` ensures where it succeeds.
    pub open spec fn finishes(self) -> bool {
        &&& self.finished.wf()
        &&& self.finished.same_volume(&self.written)
        &&& self.finished.bitmap@ == self.written.bitmap@
        &&& ({
            let (r, content) = resized(
                self.written.device@,
                self.end.entry.entry_offset as int,
                self.end.new_length,
                self.end.new_length,
                self.end.first_cluster,
                self.end.is_contiguous,
            );
            &&& r is Ok
            &&& (Ok::<(), ExFatError>(()), self.finished.state()) == synced(
                self.written.info,
                self.written.bitmap.first_cluster,
                VolState { content, ..self.written.state() },
            )
        })
    }

    /// Whether all of it was done.
    pub open spec fn done(self) -> bool {
        &&& self.creates()
        &&& self.starts()
        &&& self.writes()
        &&& self.finishes()
    }

    /// The clusters of the directory.
    pub open spec fn clusters(self) -> Seq<u32> {
        self.before.clusters_of(self.parent)->Ok_0
    }

    /// Where the entry set stands.
    pub open spec fn place(self) -> Place {
        Place { clusters: self.clusters(), j: self.j, offset: self.offset as int }
    }

    /// The entry set of the new file.
    pub open spec fn set(self) -> Seq<u8> {
        built_set(self.builder, self.before.upcase.hash_of(self.name))
    }

    /// Whether the volume before was whole and held the directory as it should.
    pub open spec fn sound(self) -> bool {
        sound_for(&self.before, self.parent)
    }

    /// Whether an entry is that of the file with its data.
    pub open spec fn is_entry(self, f: ExFatFileEntry) -> bool {
        &&& f.name@ == self.name
        &&& f.attributes.bits == 0x20
        &&& f.valid_data_length == self.data.len()
        &&& f.data_length == self.data.len()
        &&& f.first_cluster == self.end.first_cluster
        &&& f.no_fat_chain == self.end.is_contiguous
        &&& self.data.len() == 0 ==> f.first_cluster == 0 && f.no_fat_chain
    }
}

/// Whether the device holds all of a volume, and a directory and the bitmap lie in clusters
/// that are in use and have none in common.
pub open spec fn sound_for<D: Device>(v: &ExFatVolume<D>, dir: ExFatDir) -> bool {
    let info = v.info;
    let clusters = v.clusters_of(dir)->Ok_0;
    let bitmap = v.bitmap.first_cluster;
    let n = bytes_for(info.cluster_count as int);
    &&& v.wf()
    &&& v.complete()
    &&& v.clusters_of(dir) is Ok
    &&& forall|i: int| 0 <= i < clusters.len() ==> v.bitmap@[(#[trigger] clusters[i]) - 2]
    &&& bitmap >= 2 ==> apart_from(info, clusters, info.offset(bitmap), n)
    &&& bitmap >= 2 ==> spared(info, v.bitmap@, info.offset(bitmap), n)
}

/// Whether `n` bytes from `at` on lie in no free cluster.
pub open spec fn spared(info: ExFatInfo, bits: Seq<bool>, at: int, n: int) -> bool {
    forall|d: u32|
        #[trigger] info.has(d) && !bits[d - 2] ==> at + n <= info.offset(d) || info.offset(d)
            + info.bytes_per_cluster <= at
}

/// The clusters that a new file gains are neither the directory's nor the bitmap's.
pub(crate) proof fn new_file_is_placed<D: Device>(s: Storing<D>)
    requires
        D::infallible(),
        s.sound(),
        s.done(),
    ensures
        s.start.clusters@.len() == 0,
        s.end.new_length == s.data.len(),
        s.data.len() == 0 ==> s.end.first_cluster == 0 && s.end.is_contiguous,
        s.end.inv(&s.written),
        wrote(
            s.start,
            s.created.state(),
            s.end,
            s.written.state(),
            s.before.info,
            s.data,
            s.data.len() as int,
        ),
        forall|i: int|
            0 <= i < s.end.clusters@.len() ==> !s.before.bitmap@[(#[trigger] s.end.clusters@[i])
                - 2],
        s.set().len() == 32 * set_len(s.name),
        set_name(s.set()) == utf16(s.name),
        placed(
            s.before.info,
            s.before.bitmap.first_cluster,
            s.place(),
            s.set(),
            s.before.state(),
            s.written.state(),
            s.end.clusters@,
        ),
        stored(
            s.before.info,
            s.before.bitmap.first_cluster,
            s.place(),
            s.set(),
            s.before.state(),
            s.written.state(),
            s.end.clusters@,
            s.end.new_length,
            s.end.first_cluster,
            s.end.is_contiguous,
            s.finished.state(),
        ),
{
    let info = s.before.info;
    let cs = info.bytes_per_cluster as int;
    let none = Seq::<u32>::empty();
    let table = fat_table(s.created.device@, info);
    assert(owns(info, table, s.created.bitmap@, 0, true, none));
    assert(whole_clusters(0, cs) == 0) by {
        vstd::arithmetic::div_mod::lemma_fundamental_div_mod_converse(cs - 1, cs, 0, cs - 1);
        assert(0 * cs == 0);
    }
    assert(0 * cs == 0);
    assert(none.no_duplicates());
    assert(entry_owns(&s.created, s.start.entry, none));
    assert(s.start.inv(&s.created));
    if s.start.clusters@.len() > 0 {
        assert(info.has(s.start.clusters@[0]));
    }
    if s.data.len() == 0 {
        assert(cluster_number(0, cs) == 0) by {
            vstd::arithmetic::div_mod::lemma_fundamental_div_mod_converse(cs - 1, cs, 0, cs - 1);
        }
    }
    let own = s.end.clusters@;
    let cl = s.clusters();
    directory_clusters_differ(info, fat_table(s.before.device@, info), s.parent);
    listed_clusters_are_reached(info, fat_table(s.before.device@, info), s.parent);
    built_set_is_an_entry_set(s.builder, s.before.upcase.hash_of(s.name));
    cluster_is_entries(info);
    assert forall|i: int| 0 <= i < own.len() implies info.has(#[trigger] own[i])
        && !s.before.bitmap@[own[i] - 2] by {}
    assert forall|i: int| 0 <= i < cl.len() implies !own.contains(#[trigger] cl[i]) by {
        if own.contains(cl[i]) {
            let k = choose|k: int| 0 <= k < own.len() && own[k] == cl[i];
            assert(!s.before.bitmap@[own[k] - 2]);
            assert(s.before.bitmap@[cl[i] - 2]);
        }
    }
    let bitmap = s.before.bitmap.first_cluster;
    let n = bytes_for(info.cluster_count as int);
    if bitmap >= 2 {
        let all = cl + own;
        assert forall|i: int| 0 <= i < all.len() implies info.offset(bitmap) + n <= info.offset(
            #[trigger] all[i],
        ) || info.offset(all[i]) + info.bytes_per_cluster <= info.offset(bitmap) by {
            if i < cl.len() {
                assert(all[i] == cl[i]);
            } else {
                assert(all[i] == own[i - cl.len()]);
                assert(info.has(own[i - cl.len()]));
            }
        }
    }
    let c = cl[s.j];
    assert(info.has(cl[s.j]));
    assert(s.offset as int / 32 + set_len(s.name) <= cs / 32);
    assert(s.entry.entry_offset == s.place().at(info));
}

/// Storing a file leaves every directory alone that has no cluster in common with the one that
/// holds the file.
pub(crate) proof fn other_directory_stays<D: Device>(s: Storing<D>, dir: ExFatDir)
    requires
        D::infallible(),
        s.sound(),
        s.done(),
        sound_for(&s.before, dir),
        disjoint(s.clusters(), s.before.clusters_of(dir)->Ok_0),
    ensures
        s.finished.clusters_of(dir) == s.before.clusters_of(dir),
        s.finished.data_of(s.before.clusters_of(dir)->Ok_0) == s.before.data_of(
            s.before.clusters_of(dir)->Ok_0,
        ),
        forall|i: int|
            0 <= i < s.before.clusters_of(dir)->Ok_0.len() ==> s.finished.bitmap@[(
            #[trigger] s.before.clusters_of(dir)->Ok_0[i]) - 2],
{
    let info = s.before.info;
    let place = s.place();
    let at = place.at(info);
    let cl = s.before.clusters_of(dir)->Ok_0;
    let own = s.end.clusters@;
    let (s0, s2, t) = (s.before.state(), s.written.state(), s.finished.state());
    new_file_is_placed(s);
    finished_set(
        info,
        s.before.bitmap.first_cluster,
        place,
        s.set(),
        s0,
        s2,
        own,
        s.end.new_length,
        s.end.first_cluster,
        s.end.is_contiguous,
        t,
    );
    let after = resized_set(
        s.set(),
        s.end.new_length,
        s.end.new_length,
        s.end.first_cluster,
        s.end.is_contiguous,
    );
    directory_clusters_differ(info, fat_table(s0.content, info), dir);
    let c = place.clusters[place.j];
    assert(info.has(place.clusters[place.j]));
    clusters_are_apart(info, c, c);
    within_is_apart(info, c, place.offset, s.set().len() as int, cl, place.clusters, place.j);
    let s1 = VolState { content: splice(s0.content, at, s.set()), bits: s0.bits };
    splice_keeps_file(info, s0, s1, cl, at, s.set());
    untouched_file(info, s0.bits, s1, s2, own, cl);
    same_file_again(info, s0, s1, s2, cl);
    let s3 = VolState { content: splice(s2.content, at, after), bits: s2.bits };
    splice_keeps_file(info, s2, s3, cl, at, after);
    same_file_again(info, s0, s2, s3, cl);
    syncing_keeps_file(info, s.before.bitmap.first_cluster, s3, cl);
    same_file_again(info, s0, s3, t, cl);
    assert forall|i: int| 0 <= i < cl.len() implies fat_table(t.content, info)[(
    #[trigger] cl[i]) as int] == fat_table(s0.content, info)[cl[i] as int] by {
        assert(t.bits[cl[i] - 2] == s0.bits[cl[i] - 2]);
    }
    directory_avoids(info, fat_table(s0.content, info), fat_table(t.content, info), dir);
    same_data(s0.content, t.content, info, cl);
    assert forall|i: int| 0 <= i < cl.len() implies s.finished.bitmap@[(#[trigger] cl[i]) - 2] by {
        assert(t.bits[cl[i] - 2] == s0.bits[cl[i] - 2]);
    }
}

/// Storing a file leaves the clusters of the directory that holds it in use.
pub(crate) proof fn own_directory_stays<D: Device>(s: Storing<D>)
    requires
        D::infallible(),
        s.sound(),
        s.done(),
    ensures
        s.finished.clusters_of(s.parent) == s.before.clusters_of(s.parent),
        forall|i: int|
            0 <= i < s.clusters().len() ==> s.finished.bitmap@[(#[trigger] s.clusters()[i]) - 2],
{
    let info = s.before.info;
    let cl = s.clusters();
    let (s0, s2, t) = (s.before.state(), s.written.state(), s.finished.state());
    new_file_is_placed(s);
    finished_directory(
        info,
        s.before.bitmap.first_cluster,
        s.place(),
        s.set(),
        s0,
        s2,
        s.end.clusters@,
        s.end.new_length,
        s.end.first_cluster,
        s.end.is_contiguous,
        t,
    );
    directory_clusters_differ(info, fat_table(s0.content, info), s.parent);
    directory_avoids(info, fat_table(s0.content, info), fat_table(t.content, info), s.parent);
    let s1 = VolState { content: splice(s0.content, s.place().at(info), s.set()), bits: s0.bits };
    untouched_file(info, s0.bits, s1, s2, s.end.clusters@, cl);
    assert forall|i: int| 0 <= i < cl.len() implies s.finished.bitmap@[(#[trigger] cl[i]) - 2] by {
        assert(s2.bits[cl[i] - 2] == s1.bits[cl[i] - 2]);
    }
}

/// Clusters in use are not touched where only free ones are written.
proof fn untouched_file(
    info: ExFatInfo,
    bits: Seq<bool>,
    a: VolState,
    b: VolState,
    own: Seq<u32>,
    cl: Seq<u32>,
)
    requires
        only_touches(info, a, b, own),
        forall|i: int| 0 <= i < own.len() ==> !bits[(#[trigger] own[i]) - 2],
        forall|i: int| 0 <= i < cl.len() ==> info.has(#[trigger] cl[i]) && bits[cl[i] - 2],
    ensures
        same_file(info, a, b, cl),
{
    reveal(only_touches);
    assert forall|i: int| 0 <= i < cl.len() implies !own.contains(#[trigger] cl[i]) by {
        if own.contains(cl[i]) {
            let k = choose|k: int| 0 <= k < own.len() && own[k] == cl[i];
            assert(!bits[own[k] - 2]);
        }
    }
    assert forall|i: int| 0 <= i < cl.len() implies b.bits[#[trigger] cl[i] - 2] == a.bits[cl[i]
        - 2] && fat_table(b.content, info)[cl[i] as int] == fat_table(a.content, info)[
    cl[i] as int] by {
        assert(info.has(cl[i]) && !own.contains(cl[i]));
    }
    assert forall|i: int, x: int|
        #![trigger b.content[info.offset(cl[i]) + x]]
        0 <= i < cl.len() && 0 <= x < info.bytes_per_cluster implies b.content[info.offset(cl[i])
        + x] == a.content[info.offset(cl[i]) + x] by {
        assert(info.has(cl[i]) && !own.contains(cl[i]));
    }
}

/// A cluster that is free once a file was stored was free before.
pub(crate) proof fn free_was_free<D: Device>(s: Storing<D>, d: u32)
    requires
        D::infallible(),
        s.sound(),
        s.done(),
        s.before.info.has(d),
        !s.finished.bitmap@[d - 2],
    ensures
        !s.before.bitmap@[d - 2],
{
    let own = s.end.clusters@;
    new_file_is_placed(s);
    reveal(only_touches);
    if own.contains(d) {
        let k = choose|k: int| 0 <= k < own.len() && own[k] == d;
        assert(s.written.bitmap@[own[k] - 2]);
    }
    assert(s.written.state().bits[d - 2] == s.created.state().bits[d - 2]);
}

/// What a name leads to on a volume that holds what was finished, with the same numbers and
/// the same up-case table.
pub(crate) proof fn finished_file_is_found_on<D: Device>(s: Storing<D>, again: ExFatVolume<D>)
    requires
        D::infallible(),
        s.sound(),
        s.done(),
        no_end_before(s.before.data_of(s.clusters()), s.place().entry(s.before.info)),
        again.device@ == s.finished.device@,
        again.info == s.before.info,
        same_table(again.upcase, s.before.upcase),
    ensures
        again.clusters_of(s.parent) == s.before.clusters_of(s.parent),
        ({
            let bytes = again.data_of(s.clusters());
            let i = s.place().entry(s.before.info);
            &&& first_named(bytes, sets_from(bytes, 0), again.upcase, s.name) == Some(i)
            &&& forall|f: ExFatFileEntry| #[trigger]
                entry_from(f, again.info, s.clusters(), bytes, i) ==> s.is_entry(f)
        }),
{
    let info = s.before.info;
    let cl = s.clusters();
    let i = s.place().entry(info);
    let set = s.set();
    let len = s.end.new_length;
    let (first, contiguous) = (s.end.first_cluster, s.end.is_contiguous);
    new_file_is_placed(s);
    finished_directory(
        info,
        s.before.bitmap.first_cluster,
        s.place(),
        set,
        s.before.state(),
        s.written.state(),
        s.end.clusters@,
        len,
        first,
        contiguous,
        s.finished.state(),
    );
    directory_avoids(
        info,
        fat_table(s.before.device@, info),
        fat_table(again.device@, info),
        s.parent,
    );
    directory_clusters_differ(info, fat_table(s.before.device@, info), s.parent);
    listed_clusters_are_reached(info, fat_table(s.before.device@, info), s.parent);
    let before = s.before.data_of(cl);
    same_table_same_names(before, sets_from(before, 0), again.upcase, s.before.upcase, s.name);
    resized_set_is_read_back(set, len, len, first, contiguous);
    let after = resized_set(set, len, len, first, contiguous);
    let bytes = again.data_of(cl);
    set_is_first(s.before.device@, info, s.place(), bytes, after, again.upcase, s.name);
    built_set_is_an_entry_set(s.builder, s.before.upcase.hash_of(s.name));
    crate::exfat::entry::utf16_round_trip(s.name);
    assert forall|f: ExFatFileEntry| #[trigger]
        entry_from(f, again.info, cl, bytes, i) implies s.is_entry(f) by {
        let p = choose|p: ParsedEntrySet|
            #![trigger parsed_from(p, set_at(bytes, i))]
            parsed_from(p, set_at(bytes, i)) && same_values(f, p);
        assert(p.name@ == set_name(after));
    }
}

/// What was written into a new file is found in the directory once writing was finished,
/// under the name and with its size, unless an unused entry before it ends the directory;
/// and what is read from it is what was written.
pub proof fn finished_file_is_found_and_read<'a, D: Device>(
    s: Storing<D>,
    f: ExFatFileEntry,
    reader: ExFatFileReader<'a, D>,
)
    requires
        D::infallible(),
        s.sound(),
        s.done(),
        no_end_before(s.before.data_of(s.clusters()), s.place().entry(s.before.info)),
        *reader.fs == s.finished,
        reader.first_cluster == f.first_cluster,
        reader.valid_length == f.valid_data_length,
        reader.is_contiguous == f.no_fat_chain,
        reader.position == 0,
    ensures
        s.finished.clusters_of(s.parent) == s.before.clusters_of(s.parent),
        ({
            let bytes = s.finished.data_of(s.clusters());
            let i = s.place().entry(s.before.info);
            &&& first_named(bytes, sets_from(bytes, 0), s.finished.upcase, s.name) == Some(i)
            &&& entry_from(f, s.finished.info, s.clusters(), bytes, i) ==> {
                &&& s.is_entry(f)
                &&& reader.readable()
                &&& read_limit(&reader, s.data.len() as int) == s.data.len()
                &&& Seq::new(s.data.len(), |i: int| reader.byte(reader.position + i)) == s.data
            }
        }),
{
    finished_file_is_found_on(s, s.finished);
    let bytes = s.finished.data_of(s.clusters());
    let i = s.place().entry(s.before.info);
    if entry_from(f, s.finished.info, s.clusters(), bytes, i) {
        finished_file_is_read(s, reader);
    }
}

/// What the clusters of a finished file hold is what was written.
proof fn finished_bytes<D: Device>(s: Storing<D>)
    requires
        D::infallible(),
        s.sound(),
        s.done(),
    ensures
        s.data.len() <= s.end.clusters@.len() * s.before.info.bytes_per_cluster,
        owns(
            s.before.info,
            fat_table(s.finished.device@, s.before.info),
            s.finished.bitmap@,
            s.end.first_cluster,
            s.end.is_contiguous,
            s.end.clusters@,
        ),
        forall|p: int|
            0 <= p < s.data.len() ==> #[trigger] file_byte(
                s.finished.device@,
                s.before.info,
                s.end.first_cluster,
                s.end.is_contiguous,
                p,
            ) == s.data[p],
{
    let info = s.before.info;
    let own = s.end.clusters@;
    new_file_is_placed(s);
    finished_file_holds(
        info,
        s.before.bitmap.first_cluster,
        s.place(),
        s.set(),
        s.before.state(),
        s.written.state(),
        own,
        s.end.new_length,
        s.end.first_cluster,
        s.end.is_contiguous,
        s.finished.state(),
    );
    let t = s.finished.state();
    assert forall|p: int| 0 <= p < s.data.len() implies #[trigger] file_byte(
        t.content,
        info,
        s.end.first_cluster,
        s.end.is_contiguous,
        p,
    ) == s.data[p] by {
        assert(chain_byte(s.written.device@, info, own, p) == s.data[p]);
    }
}

/// A reader at the start of a finished file gives what was written.
pub(crate) proof fn finished_file_is_read<'a, D: Device>(s: Storing<D>, reader: ExFatFileReader<'a, D>)
    requires
        D::infallible(),
        s.sound(),
        s.done(),
        reader.fs.wf(),
        reader.fs.info == s.before.info,
        reader.fs.device@ == s.finished.device@,
        reader.first_cluster == s.end.first_cluster,
        reader.valid_length == s.data.len(),
        s.data.len() > 0 ==> reader.is_contiguous == s.end.is_contiguous,
        reader.position == 0,
    ensures
        reader.readable(),
        read_limit(&reader, s.data.len() as int) == s.data.len(),
        Seq::new(s.data.len(), |i: int| reader.byte(reader.position + i)) == s.data,
{
    finished_bytes(s);
    assert(s.finished.device@.len() == s.before.device@.len());
    held_file_is_read(
        s.finished.state(),
        s.end.first_cluster,
        s.end.is_contiguous,
        s.end.clusters@,
        s.data,
        reader,
    );
}

} // verus!

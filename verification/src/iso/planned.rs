//! How many bytes an image will take, found out by laying it out.

#[allow(unused_imports)]
use crate::iso::boot::catalog_file_size;
use crate::iso::boot::ElToritoWriter;
#[allow(unused_imports)]
use crate::iso::content_laws::{body_of, root_of, start_of};
#[allow(unused_imports)]
use crate::iso::emit::{padded, padded_is_aligned, zeros};
#[allow(unused_imports)]
use crate::iso::estimate_laws::image_length;
use crate::iso::estimator::backup_bytes;
#[allow(unused_imports)]
use crate::iso::estimator::{backup_len, sectors};
#[allow(unused_imports)]
use crate::iso::extent::{align_up, align_up_bounds};
use crate::iso::image::{build_tree, plan_body};
#[allow(unused_imports)]
use crate::iso::image::{
    built_tree, data_start, image, image_body, input_with_catalog, jobs_of, layout, order_of,
    with_path_tables, with_table,
};
#[allow(unused_imports)]
use crate::iso::options::{entry_types_of, CreationFeatures};
use crate::iso::options::IsoFormatOptions;
#[allow(unused_imports)]
use crate::iso::path_table::{path_table, EndianType};
#[allow(unused_imports)]
use crate::iso::plan_laws::{
    built_tree_is_countable, layout_is_met, layout_takes_any_time, namespaces_differ,
};
#[allow(unused_imports)]
use crate::iso::tree::{first_error, list_events, EntryView};
use crate::iso::tree::InputTree;
use crate::iso::types::{EntryType, RripOptions};
#[allow(unused_imports)]
use crate::iso::written::DirView;
use crate::iso::written::WrittenFiles;
use vstd::prelude::*;

verus! {

/// Bytes that the boot catalog takes where it has no file.
pub open spec fn loose_catalog(features: CreationFeatures) -> int {
    match features.el_torito {
        Some(boot) => if boot.write_boot_catalog {
            0
        } else {
            align_up(96 + 64 * (boot.entries@.len() as int), 2048)
        },
        None => 0,
    }
}

/// Bytes of the image of a tree that can be laid out: up to the end of the last file in whole
/// sectors, then path tables, a boot catalog without a file and a backup GPT.
pub open spec fn planned_len(tree: Seq<EntryView>, ops: IsoFormatOptions) -> Option<int> {
    let rrip = ops.features.rock_ridge;
    let types = entry_types_of(ops.features);
    let boot = ops.features.el_torito;
    let input = input_with_catalog(tree, boot);
    if ops.sector_size != 2048 || first_error(tree, rrip, 1, 0) is Some {
        None
    } else if (boot matches Some(b) && catalog_file_size(b.entries@.len() as int) + 2048
        > usize::MAX) || list_events(input).len() >= usize::MAX {
        None
    } else {
        let start = data_start(types, boot is Some, None);
        match layout(built_tree(input, rrip), types, rrip, zeros(7), start) {
            Err(_) => None,
            Ok(laid) => match with_path_tables(laid.root, types, Seq::empty()) {
                Err(_) => None,
                Ok((tables, _)) => Some(
                    align_up(laid.end, 2048) + tables.len() + loose_catalog(ops.features)
                        + backup_len(ops.features, 2048),
                ),
            },
        }
    }
}

/// Bytes of the image of a tree, if it can be laid out.
pub(crate) fn plan_image(files: InputTree, ops: &IsoFormatOptions) -> (r: Option<u128>)
    ensures
        match planned_len(files@, *ops) {
            Some(n) => r matches Some(v) && v == n,
            None => r is None,
        },
{
    let mut files: InputTree = files;
    let ghost tree = files@;
    if ops.sector_size != 2048 {
        return None;
    }
    let rrip: Option<&RripOptions> = match &ops.features.rock_ridge {
        Some(o) => Some(o),
        None => None,
    };
    if files.validate(rrip).is_err() {
        return None;
    }
    let types: Vec<EntryType> = ops.entry_types();
    let mut has_boot: u64 = 0;
    let mut loose: u128 = 0;
    match &ops.features.el_torito {
        Some(boot) => {
            let sections: u128 = boot.entries.len() as u128;
            let size: u128 = (96 + sections * 64 + 2047) / 2048 * 2048;
            if size + 2048 > usize::MAX as u128 {
                return None;
            }
            let _record: Vec<u8> = ElToritoWriter::create_descriptor(boot, &mut files);
            has_boot = 1;
            if !boot.write_boot_catalog {
                loose = size;
            }
        },
        None => {},
    }
    assert(files@ == input_with_catalog(tree, ops.features.el_torito));
    assert(loose == loose_catalog(ops.features));
    assert(types@.len() <= 3);
    let start: u64 = (16 + types.len() as u64 + 1 + has_boot) * 2048;
    let mut written: WrittenFiles = match build_tree(&files, ops) {
        Ok(written) => written,
        Err(_) => {
            return None;
        },
    };
    let blank: [u8; 7] = [0; 7];
    assert(blank@ =~= zeros(7));
    match plan_body(&mut written, ops, &types, &blank, start) {
        Err(_) => None,
        Ok((end, tables)) => {
            proof {
                assert(sectors(33, 4) == 9);
            }
            let backup: u64 = backup_bytes(ops);
            let body: u128 = (end as u128 + 2047) / 2048 * 2048;
            Some(body + tables as u128 + loose + backup as u128)
        },
    }
}

/// Path tables take the same room behind anything, in whole sectors.
#[verifier::spinoff_prover]
#[verifier::rlimit(60)]
proof fn tables_take_the_same_room(root: DirView, types: Seq<EntryType>, data: Seq<u8>)
    requires
        types.len() > 0,
        with_path_tables(root, types, data) is Ok,
    ensures
        ({
            let alone = with_path_tables(root, types, Seq::empty());
            let behind = with_path_tables(root, types, data)->Ok_0.0;
            &&& alone is Ok
            &&& behind.len() == align_up(data.len() as int, 2048) + alone->Ok_0.0.len()
            &&& alone->Ok_0.0.len() % 2048 == 0
        }),
    decreases types.len(),
{
    let init = types.drop_last();
    let none = Seq::<u8>::empty();
    assert(with_path_tables(root, init, data) is Ok);
    let l = path_table(root, types.last(), EndianType::LittleEndian)->Ok_0;
    let m = path_table(root, types.last(), EndianType::BigEndian)->Ok_0;
    let a = with_path_tables(root, init, none)->Ok_0.0;
    let b = with_path_tables(root, init, data)->Ok_0.0;
    if init.len() > 0 {
        tables_take_the_same_room(root, init, data);
        assert(align_up(a.len() as int, 2048) == a.len());
        align_up_bounds(data.len() as int, 2048);
        assert(align_up(b.len() as int, 2048) == b.len());
    } else {
        align_up_bounds(0, 2048);
        assert(a == none && b == data);
    }
    table_takes_its_room(a, b, l, data.len() as int);
    let (c, d) = (with_table(a, l), with_table(b, l));
    table_takes_its_room(c, d, m, data.len() as int);
    assert(with_path_tables(root, types, none)->Ok_0.0 == with_table(c, m));
    assert(with_path_tables(root, types, data)->Ok_0.0 == with_table(d, m));
}

proof fn table_takes_its_room(a: Seq<u8>, b: Seq<u8>, table: Seq<u8>, n: int)
    requires
        n >= 0,
        align_up(b.len() as int, 2048) == align_up(n, 2048) + align_up(a.len() as int, 2048),
    ensures
        with_table(b, table).len() == align_up(n, 2048) + with_table(a, table).len(),
        with_table(a, table).len() % 2048 == 0,
        align_up(with_table(b, table).len() as int, 2048) == align_up(n, 2048) + align_up(
            with_table(a, table).len() as int,
            2048,
        ),
{
    padded_is_aligned(a);
    padded_is_aligned(b);
    padded_is_aligned(padded(a) + table);
    padded_is_aligned(padded(b) + table);
    align_up_bounds(n, 2048);
    let x = align_up(n, 2048);
    let y = padded(a).len() + table.len();
    assert(align_up(x + y, 2048) == x + align_up(y as int, 2048)) by {
        assert((x + y + 2047) / 2048 == x / 2048 + (y + 2047) / 2048);
    }
    let z = with_table(a, table).len() as int;
    assert(align_up(z, 2048) == z);
    assert(align_up(x + z, 2048) == x + z);
}

/// Whether an image can be laid out.
spec fn is_ready(tree: Seq<EntryView>, ops: IsoFormatOptions) -> bool {
    let boot = ops.features.el_torito;
    &&& ops.sector_size == 2048
    &&& first_error(tree, ops.features.rock_ridge, 1, 0) is None
    &&& !(boot matches Some(b) && catalog_file_size(b.entries@.len() as int) + 2048 > usize::MAX)
    &&& list_events(input_with_catalog(tree, boot)).len() < usize::MAX
}

proof fn image_is_ready(tree: Seq<EntryView>, ops: IsoFormatOptions, time: Seq<u8>)
    requires
        image(tree, ops, None, time) is Ok,
    ensures
        is_ready(tree, ops),
        image_body(
            root_of(tree, ops),
            ops,
            entry_types_of(ops.features),
            time,
            start_of(ops, None),
        ) is Ok,
{
    reveal(image);
}

/// What is written is as long as it was planned.
#[verifier::spinoff_prover]
#[verifier::rlimit(60)]
proof fn body_takes_what_was_planned(
    tree: Seq<EntryView>,
    ops: IsoFormatOptions,
    time: Seq<u8>,
)
    requires
        time.len() == 7,
        is_ready(tree, ops),
        image_body(
            root_of(tree, ops),
            ops,
            entry_types_of(ops.features),
            time,
            start_of(ops, None),
        ) is Ok,
    ensures
        ({
            let types = entry_types_of(ops.features);
            let laid = layout(
                root_of(tree, ops),
                types,
                ops.features.rock_ridge,
                time,
                start_of(ops, None),
            )->Ok_0;
            let alone = with_path_tables(laid.root, types, Seq::empty());
            let body = body_of(tree, ops, None, time).0;
            &&& alone is Ok
            &&& align_up(body.len() as int, 2048) == align_up(laid.end, 2048)
                + alone->Ok_0.0.len()
        }),
{
    let rrip = ops.features.rock_ridge;
    let types = entry_types_of(ops.features);
    let input = input_with_catalog(tree, ops.features.el_torito);
    let root = root_of(tree, ops);
    let start = start_of(ops, None);
    built_tree_is_countable(input, rrip);
    namespaces_differ(ops.features);
    layout_is_met(root, types, rrip, time, zeros(start));
    let laid = layout(root, types, rrip, time, start)->Ok_0;
    let s = crate::iso::emit::write_dirs(
        laid.root,
        jobs_of(root, types),
        rrip,
        time,
        laid.refs,
        zeros(start),
        laid.inode,
    )->Ok_0;
    let data = crate::iso::emit::write_files(laid.root, order_of(root), s.data)->Ok_0;
    tables_take_the_same_room(laid.root, types, data);
    align_up_bounds(laid.end, 2048);
    let body = body_of(tree, ops, None, time).0;
    assert(body == with_path_tables(laid.root, types, data)->Ok_0.0);
    assert(align_up(body.len() as int, 2048) == body.len());
}

/// An image takes as many bytes as were found out by laying it out, whenever it was created.
pub proof fn images_take_what_was_planned(
    tree: Seq<EntryView>,
    ops: IsoFormatOptions,
    time: Seq<u8>,
)
    requires
        time.len() == 7,
        image(tree, ops, None, time) is Ok,
    ensures
        planned_len(tree, ops) == Some(image(tree, ops, None, time)->Ok_0.len() as int),
{
    image_is_ready(tree, ops, time);
    body_takes_what_was_planned(tree, ops, time);
    layout_takes_any_time(
        root_of(tree, ops),
        entry_types_of(ops.features),
        ops.features.rock_ridge,
        time,
        zeros(7),
        start_of(ops, None),
    );
    image_length(tree, ops, None, time);
}

} // verus!

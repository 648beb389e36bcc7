# hadris

Creation of ISO 9660 images and access to exFAT volumes, verified with Verus.

`src/iso` builds images: names of each namespace (levels 1 to 3, Joliet), Rock Ridge fields,
directory records, the layout of directories and files, path tables, volume descriptors,
El Torito boot catalogs and partition tables. `image` puts the parts together, and
`estimator` says beforehand how large an image will be: what a tree takes as a rule
(`usual_size`), or the most it needs where its layout (`planned`) takes more. `system_use`
and `metadata` read Rock Ridge fields, `chunk` reads files piece by piece. What holds of the
whole stands in modules of its own:

- `plan_laws`: what is laid out is what is written.
- `success_laws`: when creation succeeds.
- `content_laws`, `boot_laws`: an image holds what was put in, and its files are read back.
- `record_laws`, `read_laws`: records name different files, and what is written into Rock
  Ridge fields is read back from them.
- `estimate_laws`: no image is larger than estimated, proved from the sizes of records and
  trees in `record_sizes`, `sums`, `tree_sums` and `relocation_sums`.

`src/exfat` reads and writes volumes on a `Device`: boot region, up-case table, allocation
bitmap, FAT, directories, files. `file_laws`, `dir_laws` and `release_laws` state that what
was written is read back, that what was created is found, and what deletion and truncation
give back. `round_trip` and `reopening` join them: a file that was created, written and
finished is found with its size, and is read back when the volume is opened anew.

`app` gathers input trees from a file system, writes images to targets, and loads and stores
volumes that lie in files.

//! s390x support: the DASD kinds and their sector sizes, the track layout
//! of ECKD partitions, and the kernel arguments that Ignition leaves for
//! zipl.

use crate::text::{chars_of, starts_with, starts_with_exec, string_of, sub_chars, trim, trim_chars};
use vstd::prelude::*;

verus! {

/// How zipl treats Secure Execution.
#[derive(Debug, Clone, Copy, PartialEq, Eq)]
pub enum ZiplSecexMode {
    Auto,
    Enforce,
    Disable,
}

/// The kinds of DASD: ECKD (3390), FBA (an emulated SCSI device), and
/// ECKD seen as a virtio device.
#[derive(Debug, Clone, Copy, PartialEq, Eq)]
pub enum DasdType {
    Eckd,
    Fba,
    Virt,
}

/// Block size of a formatted ECKD DASD.
pub const ECKD_DASD_BLOCKSIZE: u32 = 4096;

/// The kind of the DASD named `name` (its device file name), whose
/// `device/devtype` attribute reads `devtype`.
pub fn dasd_type(name: &str, devtype: &str) -> (r: DasdType)
    ensures
        starts_with(name@, "vd"@) ==> r == DasdType::Virt,
        !starts_with(name@, "vd"@) && starts_with(devtype@, "3390/"@) ==> r == DasdType::Eckd,
        !starts_with(name@, "vd"@) && !starts_with(devtype@, "3390/"@) ==> r == DasdType::Fba,
{
    proof {
        reveal_strlit("vd");
        reveal_strlit("3390/");
    }
    if starts_with_exec(&chars_of(name), &chars_of("vd")) {
        return DasdType::Virt;
    }
    if starts_with_exec(&chars_of(devtype), &chars_of("3390/")) {
        DasdType::Eckd
    } else {
        DasdType::Fba
    }
}

/// Whether the DASD must be low-level formatted before partitioning:
/// only ECKD disks need it.
pub fn prepare_dasd(kind: DasdType) -> (r: bool)
    ensures
        r == (kind == DasdType::Eckd),
{
    match kind {
        DasdType::Eckd => true,
        _ => false,
    }
}

/// The sector size a DASD will have once it is formatted, where we format
/// it ourselves (an unformatted ECKD disk); `None` where the device's own
/// sector size applies.
pub fn dasd_try_get_sector_size(kind: DasdType, formatted: bool) -> (r: Option<u32>)
    ensures
        kind == DasdType::Eckd && !formatted ==> r == Some(ECKD_DASD_BLOCKSIZE),
        kind != DasdType::Eckd || formatted ==> r is None,
{
    match kind {
        DasdType::Eckd => if formatted {
            None
        } else {
            Some(ECKD_DASD_BLOCKSIZE)
        },
        _ => None,
    }
}

// ---------------------------------------------------------------------
// Ignition's first-boot kernel arguments
// ---------------------------------------------------------------------
/// The line Ignition writes, up to the opening quote.
pub open spec fn firstboot_prefix() -> Seq<char> {
    "set ignition_network_kcmdline=\""@
}

/// The file could not be read as a first-boot kargs line.
#[derive(Debug, Clone, Copy, PartialEq, Eq)]
pub struct FirstbootError;

/// The kernel arguments in the `ignition.firstboot` file: after trimming,
/// it is empty or exactly one line `set ignition_network_kcmdline="…"`.
pub open spec fn firstboot_kargs_spec(s: Seq<char>) -> Result<Option<Seq<char>>, FirstbootError> {
    let t = trim(s);
    let p = firstboot_prefix();
    if t.len() == 0 {
        Ok(None)
    } else if t.len() >= p.len() + 1 && starts_with(t, p) && t.last() == '"' && !t.subrange(
        p.len() as int,
        t.len() - 1,
    ).contains('\n') {
        let v = t.subrange(p.len() as int, t.len() - 1);
        if v.len() == 0 {
            Ok(None)
        } else {
            Ok(Some(v))
        }
    } else {
        Err(FirstbootError)
    }
}

fn has_char(v: &[char], c: char) -> (r: bool)
    ensures
        r == v@.contains(c),
{
    let mut i: usize = 0;
    while i < v.len()
        invariant
            i <= v@.len(),
            forall|k: int| 0 <= k < i ==> v@[k] != c,
        decreases v@.len() - i,
    {
        if v[i] == c {
            assert(v@[i as int] == c);
            return true;
        }
        i += 1;
    }
    false
}

/// Reads the kernel arguments out of the `ignition.firstboot` file.
pub fn extract_firstboot_kargs(s: &str) -> (r: Result<Option<String>, FirstbootError>)
    ensures
        match firstboot_kargs_spec(s@) {
            Ok(None) => r matches Ok(None),
            Ok(Some(v)) => r matches Ok(Some(k)) && k@ == v,
            Err(e) => r == Err::<Option<String>, FirstbootError>(e),
        },
{
    let t = trim_chars(&chars_of(s));
    if t.len() == 0 {
        return Ok(None);
    }
    proof {
        reveal_strlit("set ignition_network_kcmdline=\"");
    }
    let p = chars_of("set ignition_network_kcmdline=\"");
    if t.len() < p.len() + 1 || !starts_with_exec(&t, &p) || t[t.len() - 1] != '"' {
        return Err(FirstbootError);
    }
    let v = sub_chars(&t, p.len(), t.len() - 1);
    if has_char(&v, '\n') {
        return Err(FirstbootError);
    }
    assert(!v@.contains('\n'));
    if v.len() == 0 {
        Ok(None)
    } else {
        Ok(Some(string_of(&v)))
    }
}

} // verus!

verus! {

// ---------------------------------------------------------------------
// ECKD partition layout
// ---------------------------------------------------------------------
/// A byte range to copy from the image to the disk.
#[derive(Debug, Clone, Copy, PartialEq, Eq)]
pub struct Range {
    pub in_offset: u64,
    pub out_offset: u64,
    pub length: u64,
}

/// Tracks needed for `blocks` blocks, `per_track` to a track.
pub open spec fn tracks_for(blocks: int, per_track: int) -> int {
    (blocks + per_track - 1) / per_track
}

/// The copy range and track span of each partition (first and last
/// block), laid out on consecutive whole tracks from `start_track` on.
pub open spec fn eckd_layout(
    block_size: int,
    per_track: int,
    parts: Seq<(u64, u64)>,
    start_track: int,
) -> Seq<(int, int, int, int, int)>
    decreases parts.len(),
{
    if parts.len() == 0 {
        seq![]
    } else {
        let blocks = parts[0].1 - parts[0].0 + 1;
        let end_track = start_track + tracks_for(blocks, per_track) - 1;
        seq![
            (
                parts[0].0 * block_size,
                start_track * per_track * block_size,
                blocks * block_size,
                start_track,
                end_track,
            ),
        ] + eckd_layout(block_size, per_track, parts.drop_first(), end_track + 1)
    }
}

/// Every number of the layout fits in 64 bits.
pub open spec fn layout_fits(block_size: int, per_track: int, parts: Seq<(u64, u64)>, start_track: int) -> bool
    decreases parts.len(),
{
    if parts.len() == 0 {
        true
    } else {
        let blocks = parts[0].1 - parts[0].0 + 1;
        let end_track = start_track + tracks_for(blocks, per_track) - 1;
        &&& parts[0].0 <= parts[0].1
        &&& blocks + per_track - 1 <= u64::MAX
        &&& parts[0].0 * block_size <= u64::MAX
        &&& start_track * per_track <= u64::MAX
        &&& start_track * per_track * block_size <= u64::MAX
        &&& blocks * block_size <= u64::MAX
        &&& end_track + 1 <= u64::MAX
        &&& layout_fits(block_size, per_track, parts.drop_first(), end_track + 1)
    }
}

/// The `fdasd` configuration line of a partition on tracks `start` to
/// `end`; the last partition runs to the end of the disk.
pub open spec fn fdasd_entry(start: int, end: int, last: bool) -> Seq<char> {
    if last {
        "["@ + crate::text::dec_string(start as nat) + ", last, native]"@
    } else {
        "["@ + crate::text::dec_string(start as nat) + ", "@ + crate::text::dec_string(end as nat)
            + ", native]"@
    }
}

proof fn lemma_layout_len(block_size: int, per_track: int, parts: Seq<(u64, u64)>, start_track: int)
    ensures
        eckd_layout(block_size, per_track, parts, start_track).len() == parts.len(),
    decreases parts.len(),
{
    if parts.len() > 0 {
        let blocks = parts[0].1 - parts[0].0 + 1;
        let end_track = start_track + tracks_for(blocks, per_track) - 1;
        lemma_layout_len(block_size, per_track, parts.drop_first(), end_track + 1);
    }
}

/// Lays out the partitions (first and last block of each, in order) on
/// an ECKD DASD of `block_size`-byte blocks, `per_track` blocks to a
/// track, after its two reserved tracks: the byte ranges to copy, and the
/// `fdasd` configuration of each partition.
pub fn eckd_partition_ranges(block_size: u64, per_track: u64, parts: &[(u64, u64)]) -> (r: (
    Vec<Range>,
    Vec<String>,
))
    requires
        per_track > 0,
        parts@.len() > 0,
        layout_fits(block_size as int, per_track as int, parts@, 2),
    ensures
        r.0@.len() == parts@.len(),
        r.1@.len() == parts@.len(),
        forall|i: int|
            0 <= i < parts@.len() ==> {
                let l = #[trigger] eckd_layout(block_size as int, per_track as int, parts@, 2)[i];
                &&& r.0@[i].in_offset == l.0
                &&& r.0@[i].out_offset == l.1
                &&& r.0@[i].length == l.2
                &&& r.1@[i]@ == fdasd_entry(l.3, l.4, i == parts@.len() - 1)
            },
{
    let ghost all = eckd_layout(block_size as int, per_track as int, parts@, 2);
    proof {
        lemma_layout_len(block_size as int, per_track as int, parts@, 2);
    }
    let mut ranges: Vec<Range> = Vec::new();
    let mut entries: Vec<String> = Vec::new();
    let mut start_track: u64 = 2;
    let mut i: usize = 0;
    proof {
        assert(parts@.skip(0) =~= parts@);
    }
    while i < parts.len()
        invariant
            i <= parts@.len(),
            per_track > 0,
            all == eckd_layout(block_size as int, per_track as int, parts@, 2),
            layout_fits(block_size as int, per_track as int, parts@.skip(i as int), start_track as int),
            eckd_layout(block_size as int, per_track as int, parts@.skip(i as int), start_track as int)
                == all.skip(i as int),
            all.len() == parts@.len(),
            ranges@.len() == i,
            entries@.len() == i,
            forall|k: int|
                0 <= k < i ==> {
                    let l = #[trigger] all[k];
                    &&& ranges@[k].in_offset == l.0
                    &&& ranges@[k].out_offset == l.1
                    &&& ranges@[k].length == l.2
                    &&& entries@[k]@ == fdasd_entry(l.3, l.4, k == parts@.len() - 1)
                },
        decreases parts@.len() - i,
    {
        let ghost rest = parts@.skip(i as int);
        assert(rest[0] == parts@[i as int]);
        assert(rest.drop_first() =~= parts@.skip(i + 1));
        let (first, last) = parts[i];
        let blocks = last - first + 1;
        let in_offset = first * block_size;
        let tr = start_track * per_track;
        let out_offset = tr * block_size;
        let length = blocks * block_size;
        let span = (blocks + (per_track - 1)) / per_track;
        proof {
            let b = blocks as int;
            let t = per_track as int;
            assert((b + t - 1) / t >= 1) by (nonlinear_arith)
                requires
                    b >= 1,
                    t >= 1,
            ;
        }
        let end_track = start_track + span - 1;
        ranges.push(Range { in_offset, out_offset, length });
        let mut e = chars_of("[");
        proof {
            reveal_strlit("[");
            reveal_strlit(", last, native]");
            reveal_strlit(", ");
            reveal_strlit(", native]");
        }
        crate::text::push_decimal(&mut e, start_track);
        if i == parts.len() - 1 {
            crate::text::extend_chars(&mut e, chars_of(", last, native]").as_slice());
        } else {
            crate::text::extend_chars(&mut e, chars_of(", ").as_slice());
            crate::text::push_decimal(&mut e, end_track);
            crate::text::extend_chars(&mut e, chars_of(", native]").as_slice());
        }
        entries.push(string_of(&e));
        assert(all.skip(i as int)[0] == all[i as int]);
        assert(all.skip(i + 1) =~= all.skip(i as int).drop_first());
        start_track = end_track + 1;
        i += 1;
    }
    (ranges, entries)
}

/// `fdasd` takes at most three partitions (it ignores any after the
/// third).
#[derive(Debug, Clone, Copy, PartialEq, Eq)]
pub struct TooManyPartitions {
    pub count: usize,
}

/// The text of a partition table that `fdasd` reads: one entry a line.
pub open spec fn fdasd_text(entries: Seq<Seq<char>>) -> Seq<char>
    decreases entries.len(),
{
    if entries.len() == 0 {
        seq![]
    } else {
        fdasd_text(entries.drop_last()) + entries.last() + seq!['\n']
    }
}

/// The `fdasd` configuration for the partition entries, refusing more
/// than three partitions.
pub fn fdasd_config(entries: &[String]) -> (r: Result<String, TooManyPartitions>)
    ensures
        entries@.len() > 3 ==> r == Err::<String, TooManyPartitions>(
            TooManyPartitions { count: entries@.len() as usize },
        ),
        entries@.len() <= 3 ==> (r matches Ok(t) && t@ == fdasd_text(
            entries@.map_values(|e: String| e@),
        )),
{
    if entries.len() > 3 {
        return Err(TooManyPartitions { count: entries.len() });
    }
    let ghost es = entries@.map_values(|e: String| e@);
    let mut out: Vec<char> = Vec::new();
    let mut i: usize = 0;
    while i < entries.len()
        invariant
            i <= entries@.len(),
            es == entries@.map_values(|e: String| e@),
            out@ == fdasd_text(es.take(i as int)),
        decreases entries@.len() - i,
    {
        assert(es.take(i + 1).drop_last() =~= es.take(i as int));
        let e = chars_of(entries[i].as_str());
        let mut k: usize = 0;
        let ghost o0 = out@;
        while k < e.len()
            invariant
                k <= e@.len(),
                out@ == o0 + e@.take(k as int),
            decreases e@.len() - k,
        {
            out.push(e[k]);
            k += 1;
            assert(out@ =~= o0 + e@.take(k as int));
        }
        out.push('\n');
        assert(e@.take(e@.len() as int) =~= e@);
        assert(out@ =~= fdasd_text(es.take(i + 1)));
        i += 1;
    }
    assert(es.take(i as int) =~= es);
    Ok(string_of(&out))
}

} // verus!

//! Partitions kept across an install: which GPT entries the filters
//! select, where the first of them starts, and how they are renumbered
//! when merged into the partition table of the new image.
//!
//! A partition table entry is modelled by the fields these decisions
//! read; reading and writing the table itself is left to the caller.

use crate::initrd::{glob_match, glob_matches, glob_valid};
use crate::text::{chars_of, dec_string, extend_chars, push_decimal, string_of};
use vstd::prelude::*;

verus! {

/// A GPT entry, by the fields that saving reads.
#[derive(Debug, Clone, PartialEq, Eq)]
pub struct PartitionEntry {
    /// The partition number, from 1.
    pub index: u32,
    /// The entry describes a partition (its type GUID is not zero).
    pub used: bool,
    pub name: String,
    pub starting_lba: u64,
    pub ending_lba: u64,
}

/// Selects partitions to keep: by a glob on the label, or by a range of
/// partition numbers, either end open.
#[derive(Debug, Clone, PartialEq, Eq)]
pub enum PartitionFilter {
    Label(String),
    Index(Option<u32>, Option<u32>),
}

/// Every label pattern compiles.
pub open spec fn filters_valid(fs: Seq<PartitionFilter>) -> bool {
    forall|k: int| 0 <= k < fs.len() ==> (#[trigger] fs[k] matches PartitionFilter::Label(g) ==> glob_valid(g@))
}

/// The filter selects partition `i` labelled `name`.
pub open spec fn filter_selects(f: PartitionFilter, i: u32, name: Seq<char>) -> bool {
    match f {
        PartitionFilter::Index(first, last) => !(first matches Some(a) && a > i) && !(last matches Some(b)
            && b < i),
        PartitionFilter::Label(g) => glob_match(g@, name),
    }
}

/// A used entry that some filter selects.
pub open spec fn selected(fs: Seq<PartitionFilter>, p: PartitionEntry) -> bool {
    p.used && exists|k: int| 0 <= k < fs.len() && filter_selects(#[trigger] fs[k], p.index, p.name@)
}

/// Whether the filters keep partition `i` with entry `p`.
pub fn matches_filters(i: u32, p: &PartitionEntry, filters: &[PartitionFilter]) -> (r: bool)
    requires
        filters_valid(filters@),
    ensures
        r == (p.used && exists|k: int| 0 <= k < filters@.len() && filter_selects(#[trigger] filters@[k], i, p.name@)),
{
    if !p.used {
        return false;
    }
    let mut k: usize = 0;
    while k < filters.len()
        invariant
            k <= filters@.len(),
            p.used,
            filters_valid(filters@),
            forall|j: int| 0 <= j < k ==> !filter_selects(#[trigger] filters@[j], i, p.name@),
        decreases filters@.len() - k,
    {
        let hit = match &filters[k] {
            PartitionFilter::Index(first, last) => {
                let after_first = match first {
                    Some(a) => *a <= i,
                    None => true,
                };
                let before_last = match last {
                    Some(b) => *b >= i,
                    None => true,
                };
                after_first && before_last
            },
            PartitionFilter::Label(g) => {
                assert(filters@[k as int] == PartitionFilter::Label(*g));
                assert(glob_valid(g@));
                glob_matches(g.as_str(), p.name.as_str())
            },
        };
        if hit {
            assert(filter_selects(filters@[k as int], i, p.name@));
            assert(exists|k2: int| 0 <= k2 < filters@.len() && filter_selects(#[trigger] filters@[k2], i, p.name@));
            return true;
        }
        k += 1;
    }
    false
}

/// A copy of the entry.
fn copy_entry(p: &PartitionEntry) -> (r: PartitionEntry)
    ensures
        r == *p,
{
    PartitionEntry {
        index: p.index,
        used: p.used,
        name: p.name.clone(),
        starting_lba: p.starting_lba,
        ending_lba: p.ending_lba,
    }
}

/// Why saved partitions cannot be kept.
#[derive(Debug, Clone, PartialEq, Eq)]
pub enum SaveError {
    /// The first saved partition's start in bytes overflows.
    OffsetOverflow,
    /// A partition of the new image ends at or after the start of the
    /// first saved partition.
    Overlap { disk_index: u32, disk_name: String, saved_index: u32, saved_name: String },
    /// The saved partitions' new numbers run past the 32-bit range.
    NumberOverflow,
}

/// The partitions selected from a table, with the table's sector size.
#[derive(Debug)]
pub struct SavedPartitions {
    sector_size: u64,
    partitions: Vec<PartitionEntry>,
}

/// `k` is the first entry with the lowest start.
pub open spec fn first_min_start(es: Seq<PartitionEntry>, k: int) -> bool {
    &&& 0 <= k < es.len()
    &&& forall|j: int| 0 <= j < es.len() ==> es[k].starting_lba <= (#[trigger] es[j]).starting_lba
    &&& forall|j: int| 0 <= j < k ==> (#[trigger] es[j]).starting_lba > es[k].starting_lba
}

/// `k` is the last entry with the highest end.
pub open spec fn last_max_end(es: Seq<PartitionEntry>, k: int) -> bool {
    &&& 0 <= k < es.len()
    &&& forall|j: int| 0 <= j < es.len() ==> (#[trigger] es[j]).ending_lba <= es[k].ending_lba
    &&& forall|j: int| k < j < es.len() ==> (#[trigger] es[j]).ending_lba < es[k].ending_lba
}

fn first_min_start_exec(es: &Vec<PartitionEntry>) -> (k: usize)
    requires
        es@.len() > 0,
    ensures
        first_min_start(es@, k as int),
{
    let mut k: usize = 0;
    let mut i: usize = 1;
    while i < es.len()
        invariant
            1 <= i <= es@.len(),
            k < i,
            forall|j: int| 0 <= j < i ==> es@[k as int].starting_lba <= (#[trigger] es@[j]).starting_lba,
            forall|j: int| 0 <= j < k ==> (#[trigger] es@[j]).starting_lba > es@[k as int].starting_lba,
        decreases es@.len() - i,
    {
        if es[i].starting_lba < es[k].starting_lba {
            k = i;
        }
        i += 1;
    }
    k
}

fn last_max_end_exec(es: &[PartitionEntry]) -> (k: usize)
    requires
        es@.len() > 0,
    ensures
        last_max_end(es@, k as int),
{
    let mut k: usize = 0;
    let mut i: usize = 1;
    while i < es.len()
        invariant
            1 <= i <= es@.len(),
            k < i,
            forall|j: int| 0 <= j < i ==> (#[trigger] es@[j]).ending_lba <= es@[k as int].ending_lba,
            forall|j: int| k < j < i ==> (#[trigger] es@[j]).ending_lba < es@[k as int].ending_lba,
        decreases es@.len() - i,
    {
        if es[i].ending_lba >= es[k].ending_lba {
            k = i;
        }
        i += 1;
    }
    k
}

/// The number after the last used entry's, or 1 where none is used.
pub open spec fn after_last_used(es: Seq<PartitionEntry>) -> int
    decreases es.len(),
{
    if es.len() == 0 {
        1
    } else if es.last().used {
        es.last().index + 1
    } else {
        after_last_used(es.drop_last())
    }
}

/// Unused entries of a table do not change the number after the last used
/// one: it is that of the used entries alone.
pub proof fn lemma_unused_entries_ignored(es: Seq<PartitionEntry>)
    ensures
        after_last_used(es) == after_last_used(es.filter(|e: PartitionEntry| e.used)),
    decreases es.len(),
{
    reveal(Seq::filter);
    if es.len() > 0 {
        lemma_unused_entries_ignored(es.drop_last());
        let f = es.drop_last().filter(|e: PartitionEntry| e.used);
        if es.last().used {
            assert(es.filter(|e: PartitionEntry| e.used) == f.push(es.last()));
            assert(f.push(es.last()).drop_last() =~= f);
        } else {
            assert(es.filter(|e: PartitionEntry| e.used) == f);
        }
    }
}

/// In a table in partition-number order, the number after the last used
/// entry is one more than the highest number in use, or 1 where none is
/// used: every used entry lies below it, and it follows one of them.
pub proof fn lemma_after_last_used_is_max(es: Seq<PartitionEntry>)
    requires
        forall|i: int, j: int| 0 <= i < j < es.len() ==> #[trigger] es[i].index < #[trigger] es[j].index,
    ensures
        forall|i: int| 0 <= i < es.len() && #[trigger] es[i].used ==> es[i].index < after_last_used(es),
        (after_last_used(es) == 1 && forall|i: int| 0 <= i < es.len() ==> !#[trigger] es[i].used) || exists|
            i: int,
        | 0 <= i < es.len() && #[trigger] es[i].used && after_last_used(es) == es[i].index + 1,
    decreases es.len(),
{
    if es.len() > 0 {
        let p = es.drop_last();
        assert forall|i: int, j: int| 0 <= i < j < p.len() implies #[trigger] p[i].index < #[trigger] p[j].index by {
            assert(p[i] == es[i] && p[j] == es[j]);
        }
        lemma_after_last_used_is_max(p);
        let n = es.len() - 1;
        if es.last().used {
            assert forall|i: int| 0 <= i < es.len() && #[trigger] es[i].used implies es[i].index < after_last_used(es) by {
                if i < n {
                    assert(es[i].index < es[n].index);
                }
            }
            assert(es[n].used && after_last_used(es) == es[n].index + 1);
        } else {
            assert forall|i: int| 0 <= i < es.len() && #[trigger] es[i].used implies es[i].index < after_last_used(es) by {
                assert(i < n);
                assert(p[i] == es[i]);
            }
            if after_last_used(p) == 1 && forall|i: int| 0 <= i < p.len() ==> !#[trigger] p[i].used {
                assert forall|i: int| 0 <= i < es.len() implies !#[trigger] es[i].used by {
                    if i < n {
                        assert(p[i] == es[i]);
                    }
                }
            } else {
                let i = choose|i: int| 0 <= i < p.len() && #[trigger] p[i].used && after_last_used(p) == p[i].index + 1;
                assert(es[i] == p[i]);
            }
        }
    }
}

/// The new numbers of the saved partitions: each takes the next number,
/// or its own where that is larger.
pub open spec fn renumber(saved: Seq<PartitionEntry>, next: int) -> Seq<int>
    decreases saved.len(),
{
    if saved.len() == 0 {
        seq![]
    } else {
        let n = if saved[0].index > next {
            saved[0].index as int
        } else {
            next
        };
        seq![n] + renumber(saved.drop_first(), n + 1)
    }
}

/// Each merged partition takes the least number it may: its own, or the
/// one after the previous partition's new number (`next` for the first),
/// whichever is larger.
pub proof fn lemma_renumber_least(saved: Seq<PartitionEntry>, next: int)
    ensures
        renumber(saved, next).len() == saved.len(),
        forall|i: int|
            0 <= i < saved.len() ==> {
                let prev = if i == 0 {
                    next
                } else {
                    renumber(saved, next)[i - 1] + 1
                };
                &&& #[trigger] renumber(saved, next)[i] >= saved[i].index
                &&& renumber(saved, next)[i] >= prev
                &&& (renumber(saved, next)[i] == saved[i].index || renumber(saved, next)[i] == prev)
            },
    decreases saved.len(),
{
    if saved.len() > 0 {
        let n = if saved[0].index > next {
            saved[0].index as int
        } else {
            next
        };
        let rest = saved.drop_first();
        lemma_renumber_least(rest, n + 1);
        let r = renumber(saved, next);
        assert(r == seq![n] + renumber(rest, n + 1));
        assert forall|i: int| 0 <= i < saved.len() implies {
            let prev = if i == 0 {
                next
            } else {
                r[i - 1] + 1
            };
            &&& #[trigger] r[i] >= saved[i].index
            &&& r[i] >= prev
            &&& (r[i] == saved[i].index || r[i] == prev)
        } by {
            if i > 0 {
                assert(r[i] == renumber(rest, n + 1)[i - 1]);
                assert(saved[i] == rest[i - 1]);
                if i > 1 {
                    assert(r[i - 1] == renumber(rest, n + 1)[i - 2]);
                }
            }
        }
    }
}

/// Merged partitions get increasing numbers, none below its own number
/// or below the number after the image's last used partition.
pub proof fn lemma_renumber_increasing(saved: Seq<PartitionEntry>, next: int)
    ensures
        renumber(saved, next).len() == saved.len(),
        forall|i: int|
            0 <= i < saved.len() ==> #[trigger] renumber(saved, next)[i] >= saved[i].index
                && renumber(saved, next)[i] >= next,
        forall|i: int, j: int|
            0 <= i < j < saved.len() ==> #[trigger] renumber(saved, next)[i] < #[trigger] renumber(
                saved,
                next,
            )[j],
    decreases saved.len(),
{
    if saved.len() > 0 {
        let n = if saved[0].index > next {
            saved[0].index as int
        } else {
            next
        };
        let rest = saved.drop_first();
        lemma_renumber_increasing(rest, n + 1);
        let r = renumber(saved, next);
        assert(r == seq![n] + renumber(rest, n + 1));
        assert forall|i: int| 0 <= i < saved.len() implies #[trigger] r[i] >= saved[i].index && r[i] >= next by {
            if i > 0 {
                assert(r[i] == renumber(rest, n + 1)[i - 1]);
                assert(rest[i - 1] == saved[i]);
            }
        }
        assert forall|i: int, j: int| 0 <= i < j < saved.len() implies #[trigger] r[i] < #[trigger] r[j] by {
            assert(r[j] == renumber(rest, n + 1)[j - 1]);
            if i > 0 {
                assert(r[i] == renumber(rest, n + 1)[i - 1]);
            }
        }
    }
}

/// The description of a partition in messages.
pub open spec fn describe(p: PartitionEntry) -> Seq<char> {
    "partition "@ + dec_string(p.index as nat) + " (\""@ + p.name@ + "\")"@
}

impl SavedPartitions {
    pub closed spec fn sector_size(&self) -> u64 {
        self.sector_size
    }

    pub closed spec fn partitions(&self) -> Seq<PartitionEntry> {
        self.partitions@
    }

    /// Keeps the entries of a table (in table order, with the table's
    /// sector size) that the filters select; none where there are no
    /// filters.
    pub fn new(sector_size: u64, entries: &[PartitionEntry], filters: &[PartitionFilter]) -> (r: Self)
        requires
            filters_valid(filters@),
        ensures
            r.sector_size() == sector_size,
            r.partitions() == entries@.filter(|p: PartitionEntry| selected(filters@, p)),
    {
        let mut partitions: Vec<PartitionEntry> = Vec::new();
        let ghost pred = |p: PartitionEntry| selected(filters@, p);
        proof {
            reveal(Seq::filter);
        }
        assert(entries@.take(0).filter(pred) =~= Seq::<PartitionEntry>::empty());
        let mut i: usize = 0;
        while i < entries.len()
            invariant
                i <= entries@.len(),
                filters_valid(filters@),
                pred == (|p: PartitionEntry| selected(filters@, p)),
                partitions@ == entries@.take(i as int).filter(pred),
            decreases entries@.len() - i,
        {
            proof {
                reveal(Seq::filter);
                assert(entries@.take(i + 1).drop_last() =~= entries@.take(i as int));
            }
            let keep = matches_filters(entries[i].index, &entries[i], filters);
            assert(keep == pred(entries@[i as int]));
            if keep {
                partitions.push(copy_entry(&entries[i]));
            }
            i += 1;
        }
        assert(entries@.take(i as int) =~= entries@);
        SavedPartitions { sector_size, partitions }
    }

    /// Some partition is kept.
    pub fn is_saved(&self) -> (r: bool)
        ensures
            r == (self.partitions().len() > 0),
    {
        self.partitions.len() > 0
    }

    /// The byte offset where the first kept partition starts (the first
    /// not to be overwritten), with a description of it.
    pub fn get_offset(&self) -> (r: Result<Option<(u64, String)>, SaveError>)
        ensures
            self.partitions().len() == 0 ==> r == Ok::<Option<(u64, String)>, SaveError>(None),
            self.partitions().len() > 0 ==> exists|k: int|
                first_min_start(self.partitions(), k) && {
                    let p = self.partitions()[k];
                    if p.starting_lba * self.sector_size() > u64::MAX {
                        r == Err::<Option<(u64, String)>, SaveError>(SaveError::OffsetOverflow)
                    } else {
                        r matches Ok(Some((off, d))) && off == p.starting_lba * self.sector_size()
                            && d@ == describe(p)
                    }
                },
    {
        if self.partitions.len() == 0 {
            return Ok(None);
        }
        let k = first_min_start_exec(&self.partitions);
        let p = &self.partitions[k];
        let off = match p.starting_lba.checked_mul(self.sector_size) {
            Some(o) => o,
            None => return Err(SaveError::OffsetOverflow),
        };
        let mut d = chars_of("partition ");
        push_decimal(&mut d, p.index as u64);
        extend_chars(&mut d, &chars_of(" (\""));
        extend_chars(&mut d, &chars_of(p.name.as_str()));
        extend_chars(&mut d, &chars_of("\")"));
        Ok(Some((off, string_of(&d))))
    }

    /// Plans the merge of the kept partitions into the table of the new
    /// image, whose entries are `disk` in table order: fails where a
    /// partition of the image ends at or after the start of the first
    /// kept one, else gives the new number of each kept partition, in
    /// order. Nothing is planned where nothing is kept.
    pub fn merge(&self, disk: &[PartitionEntry]) -> (r: Result<Vec<u32>, SaveError>)
        ensures
            self.partitions().len() == 0 ==> (r matches Ok(v) && v@.len() == 0),
            self.partitions().len() > 0 && disk@.len() > 0 ==> exists|a: int, b: int|
                last_max_end(disk@, a) && first_min_start(self.partitions(), b) && (
                disk@[a].ending_lba >= self.partitions()[b].starting_lba ==> (r matches Err(
                    SaveError::Overlap { disk_index, disk_name, saved_index, saved_name },
                ) && disk_index == disk@[a].index && disk_name@ == disk@[a].name@ && saved_index
                    == self.partitions()[b].index && saved_name@ == self.partitions()[b].name@)),
            r matches Ok(v) ==> v@.map_values(|n: u32| n as int) == renumber(
                self.partitions(),
                after_last_used(disk@),
            ),
            self.partitions().len() > 0 && (disk@.len() == 0 || exists|a: int, b: int|
                last_max_end(disk@, a) && first_min_start(self.partitions(), b)
                    && disk@[a].ending_lba < self.partitions()[b].starting_lba) ==> (r is Ok || r
                == Err::<Vec<u32>, SaveError>(SaveError::NumberOverflow)),
    {
        let mut plan: Vec<u32> = Vec::new();
        if self.partitions.len() == 0 {
            return Ok(plan);
        }
        let ghost mut wa: int = 0;
        let ghost mut wb: int = 0;
        if disk.len() > 0 {
            let a = last_max_end_exec(disk);
            let b = first_min_start_exec(&self.partitions);
            if disk[a].ending_lba >= self.partitions[b].starting_lba {
                return Err(
                    SaveError::Overlap {
                        disk_index: disk[a].index,
                        disk_name: disk[a].name.clone(),
                        saved_index: self.partitions[b].index,
                        saved_name: self.partitions[b].name.clone(),
                    },
                );
            }
            proof {
                wa = a as int;
                wb = b as int;
                assert(last_max_end(disk@, a as int) && first_min_start(self.partitions(), b as int));
                assert forall|a2: int, b2: int|
                    last_max_end(disk@, a2) && first_min_start(self.partitions(), b2) implies disk@[a2].ending_lba
                    < self.partitions()[b2].starting_lba by {
                    assert(disk@[a2].ending_lba == disk@[a as int].ending_lba);
                    assert(self.partitions()[b2].starting_lba == self.partitions()[b as int].starting_lba);
                }
            }
        }
        // the number after the last used entry's
        let mut next: u64 = 1;
        let mut i: usize = 0;
        assert(disk@.take(0) =~= Seq::<PartitionEntry>::empty());
        while i < disk.len()
            invariant
                i <= disk@.len(),
                disk@.len() > 0 ==> last_max_end(disk@, wa) && first_min_start(self.partitions(), wb)
                    && disk@[wa].ending_lba < self.partitions()[wb].starting_lba,
                next == after_last_used(disk@.take(i as int)),
                next <= u32::MAX as u64 + 1,
            decreases disk@.len() - i,
        {
            assert(disk@.take(i + 1).drop_last() =~= disk@.take(i as int));
            if disk[i].used {
                next = disk[i].index as u64 + 1;
            }
            i += 1;
        }
        assert(disk@.take(i as int) =~= disk@);
        let ghost start = next as int;
        let mut k: usize = 0;
        assert(self.partitions@.skip(0) =~= self.partitions@);
        assert(plan@.map_values(|n: u32| n as int) =~= Seq::<int>::empty());
        while k < self.partitions.len()
            invariant
                k <= self.partitions@.len(),
                disk@.len() > 0 ==> last_max_end(disk@, wa) && first_min_start(self.partitions(), wb)
                    && disk@[wa].ending_lba < self.partitions()[wb].starting_lba,
                next <= u32::MAX as u64 + 1,
                renumber(self.partitions@, start) == plan@.map_values(|n: u32| n as int) + renumber(
                    self.partitions@.skip(k as int),
                    next as int,
                ),
            decreases self.partitions@.len() - k,
        {
            let ghost rest = self.partitions@.skip(k as int);
            assert(rest[0] == self.partitions@[k as int]);
            assert(rest.drop_first() =~= self.partitions@.skip(k + 1));
            let own = self.partitions[k].index as u64;
            if own > next {
                next = own;
            }
            if next > u32::MAX as u64 {
                return Err(SaveError::NumberOverflow);
            }
            let ghost before = plan@.map_values(|n: u32| n as int);
            plan.push(next as u32);
            assert(plan@.map_values(|n: u32| n as int) =~= before.push(next as int));
            assert(before + (seq![next as int] + renumber(self.partitions@.skip(k + 1), next + 1)) =~= before.push(
                next as int,
            ) + renumber(self.partitions@.skip(k + 1), next + 1));
            next = next + 1;
            k += 1;
        }
        assert(self.partitions@.skip(k as int) =~= Seq::<PartitionEntry>::empty());
        assert(plan@.map_values(|n: u32| n as int) + Seq::<int>::empty() =~= plan@.map_values(
            |n: u32| n as int,
        ));
        Ok(plan)
    }
}

/// The sector size that a disk image's GPT was formatted for: a GPT
/// header at byte 512 means 512-byte sectors, one at byte 4096 means
/// 4096-byte sectors.
pub open spec fn formatted_sector_size(buf: Seq<u8>) -> Option<u32> {
    if buf.len() >= 520 && buf.subrange(512, 520) == "EFI PART"@.map_values(|c: char| c as u8) {
        Some(512)
    } else if buf.len() >= 4104 && buf.subrange(4096, 4104) == "EFI PART"@.map_values(|c: char| c as u8) {
        Some(4096)
    } else {
        None
    }
}

fn magic_at(buf: &[u8], at: usize) -> (r: bool)
    requires
        at + 8 <= buf@.len(),
    ensures
        r == (buf@.subrange(at as int, at + 8) == "EFI PART"@.map_values(|c: char| c as u8)),
{
    proof {
        reveal_strlit("EFI PART");
    }
    let n = buf.len();
    let magic: [u8; 8] = [69, 70, 73, 32, 80, 65, 82, 84];
    assert(magic@ =~= "EFI PART"@.map_values(|c: char| c as u8));
    let mut i: usize = 0;
    while i < 8
        invariant
            i <= 8,
            at + 8 <= n,
            n == buf@.len(),
            magic@ == "EFI PART"@.map_values(|c: char| c as u8),
            forall|j: int| 0 <= j < i ==> buf@[at + j] == magic@[j],
        decreases 8 - i,
    {
        if buf[at + i] != magic[i] {
            assert(buf@.subrange(at as int, at + 8)[i as int] != magic@[i as int]);
            return false;
        }
        i += 1;
    }
    assert(buf@.subrange(at as int, at + 8) =~= magic@);
    true
}

/// The sector size a disk image was formatted for, from its first bytes.
pub fn detect_formatted_sector_size(buf: &[u8]) -> (r: Option<u32>)
    ensures
        r == formatted_sector_size(buf@),
{
    if buf.len() >= 520 && magic_at(buf, 512) {
        Some(512)
    } else if buf.len() >= 4104 && magic_at(buf, 4096) {
        Some(4096)
    } else {
        None
    }
}

} // verus!

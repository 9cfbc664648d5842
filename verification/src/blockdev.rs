//! Block devices: reading the `KEY="value"` pairs that `lsblk --pairs`
//! prints.

use crate::live::{file_name_of, path_file_name};
use crate::text::{
    all_digits, all_digits_exec, chars_eq, chars_of, lines, next_line, opt_view, starts_with,
    starts_with_exec, string_of, sub_chars, words, words_exec,
};
use vstd::prelude::*;

verus! {

/// A character of a field name: an ASCII capital or `-`.
pub open spec fn is_key_char(c: char) -> bool {
    ('A' <= c && c <= 'Z') || c == '-'
}

/// Length of the run of field-name characters at the start of `s`.
pub open spec fn key_run(s: Seq<char>) -> nat
    decreases s.len(),
{
    if s.len() > 0 && is_key_char(s[0]) {
        1 + key_run(s.drop_first())
    } else {
        0
    }
}

/// Length of the run of characters other than `"` at the start of `s`.
pub open spec fn value_run(s: Seq<char>) -> nat
    decreases s.len(),
{
    if s.len() > 0 && s[0] != '"' {
        1 + value_run(s.drop_first())
    } else {
        0
    }
}

/// A pair `KEY="value"` (with a non-empty value) at the start of `s`: the
/// key, the value, and the length of the pair.
pub open spec fn pair_at(s: Seq<char>) -> Option<(Seq<char>, Seq<char>, nat)> {
    let k = key_run(s);
    if k == 0 || s.len() < k + 2 || s[k as int] != '=' || s[k + 1int] != '"' {
        None
    } else {
        let rest = s.skip(k + 2int);
        let v = value_run(rest);
        if v == 0 || rest.len() <= v {
            None
        } else {
            Some((s.take(k as int), rest.take(v as int), k + 2 + v + 1))
        }
    }
}

/// The pairs of a line, in order: at each position, a pair if one starts
/// there, else the search goes on at the next character. This is what
/// the pattern `([A-Z-]+)="([^"]+)"` finds, scanning from the left.
pub open spec fn lsblk_pairs(s: Seq<char>) -> Seq<(Seq<char>, Seq<char>)>
    decreases s.len(),
{
    if s.len() == 0 {
        seq![]
    } else {
        match pair_at(s) {
            Some((k, v, n)) => if n <= s.len() && n > 0 {
                seq![(k, v)] + lsblk_pairs(s.skip(n as int))
            } else {
                seq![]
            },
            None => lsblk_pairs(s.drop_first()),
        }
    }
}

fn key_run_exec(v: &[char], i: usize) -> (n: usize)
    requires
        i <= v.len(),
    ensures
        i + n <= v.len(),
        n == key_run(v@.skip(i as int)),
{
    let mut j = i;
    while j < v.len() && (('A' <= v[j] && v[j] <= 'Z') || v[j] == '-')
        invariant
            i <= j <= v.len(),
            key_run(v@.skip(i as int)) == (j - i) + key_run(v@.skip(j as int)),
        decreases v.len() - j,
    {
        assert(v@.skip(j as int).drop_first() =~= v@.skip(j + 1));
        j += 1;
    }
    j - i
}

fn value_run_exec(v: &[char], i: usize) -> (n: usize)
    requires
        i <= v.len(),
    ensures
        i + n <= v.len(),
        n == value_run(v@.skip(i as int)),
{
    let mut j = i;
    while j < v.len() && v[j] != '"'
        invariant
            i <= j <= v.len(),
            value_run(v@.skip(i as int)) == (j - i) + value_run(v@.skip(j as int)),
        decreases v.len() - j,
    {
        assert(v@.skip(j as int).drop_first() =~= v@.skip(j + 1));
        j += 1;
    }
    j - i
}

/// The `KEY="value"` pairs of a line of `lsblk --pairs`, in order; fields
/// with an empty value are left out, and escapes are passed through. A
/// later pair with the same key wins.
pub fn split_lsblk_line(line: &str) -> (r: Vec<(String, String)>)
    ensures
        r@.map_values(|p: (String, String)| (p.0@, p.1@)) == lsblk_pairs(line@),
{
    let v = chars_of(line);
    let mut out: Vec<(String, String)> = Vec::new();
    let mut i: usize = 0;
    assert(v@.skip(0) =~= v@);
    while i < v.len()
        invariant
            i <= v@.len(),
            v@ == line@,
            out@.map_values(|p: (String, String)| (p.0@, p.1@)) + lsblk_pairs(v@.skip(i as int))
                == lsblk_pairs(line@),
        decreases v.len() - i,
    {
        let ghost s = v@.skip(i as int);
        let ghost acc = out@.map_values(|p: (String, String)| (p.0@, p.1@));
        let k = key_run_exec(&v, i);
        let mut found = false;
        if k > 0 && v.len() - i - k >= 2 && v[i + k] == '=' && v[i + k + 1] == '"' {
            assert(s[k as int] == v@[i + k] && s[k + 1] == v@[i + k + 1]);
            assert(s.skip(k + 2) =~= v@.skip(i + k + 2));
            let n = value_run_exec(&v, i + k + 2);
            if n > 0 && v.len() - (i + k + 2) > n {
                let key = sub_chars(&v, i, i + k);
                let val = sub_chars(&v, i + k + 2, i + k + 2 + n);
                assert(key@ =~= s.take(k as int));
                assert(val@ =~= s.skip(k + 2).take(n as int));
                out.push((string_of(&key), string_of(&val)));
                assert(out@.map_values(|p: (String, String)| (p.0@, p.1@)) =~= acc.push(
                    (key@, val@),
                ));
                assert(s.skip((k + 2 + n + 1) as int) =~= v@.skip(i + k + 2 + n + 1));
                assert(acc + (seq![(key@, val@)] + lsblk_pairs(v@.skip(i + k + 2 + n + 1)))
                    =~= acc.push((key@, val@)) + lsblk_pairs(v@.skip(i + k + 2 + n + 1)));
                i = i + k + 2 + n + 1;
                found = true;
            } else {
                assert(s.skip(k + 2).len() <= n || n == 0);
            }
        }
        if !found {
            assert(pair_at(s) is None);
            assert(s.drop_first() =~= v@.skip(i + 1));
            i += 1;
        }
    }
    assert(v@.skip(i as int) =~= Seq::<char>::empty());
    assert(out@.map_values(|p: (String, String)| (p.0@, p.1@)) + Seq::<(Seq<char>, Seq<char>)>::empty()
        =~= out@.map_values(|p: (String, String)| (p.0@, p.1@)));
    out
}

} // verus!

verus! {

/// The pairs of a line, as text.
pub open spec fn pairs_view(ps: Seq<(String, String)>) -> Seq<(Seq<char>, Seq<char>)> {
    ps.map_values(|p: (String, String)| (p.0@, p.1@))
}

/// The value a line gives a key: that of its last pair with the key, as
/// in a map filled from the pairs in order.
pub open spec fn field_value(ps: Seq<(Seq<char>, Seq<char>)>, key: Seq<char>) -> Option<Seq<char>>
    decreases ps.len(),
{
    if ps.len() == 0 {
        None
    } else if ps.last().0 == key {
        Some(ps.last().1)
    } else {
        field_value(ps.drop_last(), key)
    }
}

/// The value of a field in a parsed lsblk line.
pub fn field(pairs: &Vec<(String, String)>, key: &str) -> (r: Option<String>)
    ensures
        opt_view(r) == field_value(pairs_view(pairs@), key@),
{
    let k = chars_of(key);
    let mut i: usize = pairs.len();
    assert(pairs@.take(i as int) =~= pairs@);
    while i > 0
        invariant
            i <= pairs@.len(),
            k@ == key@,
            field_value(pairs_view(pairs@), key@) == field_value(pairs_view(pairs@.take(i as int)), key@),
        decreases i,
    {
        let ghost t = pairs_view(pairs@.take(i as int));
        assert(t.last() == (pairs@[i - 1].0@, pairs@[i - 1].1@));
        if chars_eq(&chars_of(pairs[i - 1].0.as_str()), &k) {
            return Some(pairs[i - 1].1.clone());
        }
        assert(t.drop_last() =~= pairs_view(pairs@.take(i - 1)));
        i -= 1;
    }
    assert(pairs_view(pairs@.take(0)) =~= Seq::<(Seq<char>, Seq<char>)>::empty());
    None
}

/// The devices that `lsblk --pairs` lists, one per line.
pub open spec fn lsblk_spec(output: Seq<char>) -> Seq<Seq<(Seq<char>, Seq<char>)>> {
    lines(output).map_values(|l: Seq<char>| lsblk_pairs(l))
}

/// The fields of each device that `lsblk --pairs --paths --output
/// NAME,LABEL,FSTYPE,TYPE,MOUNTPOINT,UUID` prints, one line per device.
pub fn lsblk(output: &str) -> (r: Vec<Vec<(String, String)>>)
    ensures
        r@.map_values(|d: Vec<(String, String)>| pairs_view(d@)) == lsblk_spec(output@),
{
    let v = chars_of(output);
    let mut out: Vec<Vec<(String, String)>> = Vec::new();
    let mut i: usize = 0;
    assert(v@.skip(0) =~= v@);
    while i < v.len()
        invariant
            i <= v@.len(),
            v@ == output@,
            out@.map_values(|d: Vec<(String, String)>| pairs_view(d@)) + lines(v@.skip(i as int)).map_values(
                |l: Seq<char>| lsblk_pairs(l),
            ) == lsblk_spec(output@),
        decreases v@.len() - i,
    {
        let (line, next) = next_line(&v, i);
        let ghost before = out@.map_values(|d: Vec<(String, String)>| pairs_view(d@));
        let ghost ls = lines(v@.skip(i as int));
        let fields = split_lsblk_line(string_of(&line).as_str());
        out.push(fields);
        proof {
            let m = |l: Seq<char>| lsblk_pairs(l);
            assert(ls == seq![line@] + lines(v@.skip(next as int)));
            assert(ls.map_values(m) =~= seq![lsblk_pairs(line@)] + lines(v@.skip(next as int)).map_values(m));
            assert(out@.map_values(|d: Vec<(String, String)>| pairs_view(d@)) =~= before.push(lsblk_pairs(line@)));
            assert(before + ls.map_values(m) =~= before.push(lsblk_pairs(line@)) + lines(v@.skip(next as int)).map_values(m));
        }
        i = next;
    }
    assert(v@.skip(i as int) =~= Seq::<char>::empty());
    assert(lines(Seq::<char>::empty()) == Seq::<Seq<char>>::empty());
    assert(out@.map_values(|d: Vec<(String, String)>| pairs_view(d@)) + Seq::<Seq<(Seq<char>, Seq<char>)>>::empty()
        =~= out@.map_values(|d: Vec<(String, String)>| pairs_view(d@)));
    out
}

/// A disk, by its device path.
#[derive(Debug, Clone)]
pub struct Disk {
    pub path: String,
}

/// A partition of a disk, or a device that holds one, as lsblk lists it.
#[derive(Debug, Clone, PartialEq, Eq)]
pub struct Partition {
    pub path: String,
    pub label: Option<String>,
    pub fstype: Option<String>,
    pub parent: String,
    pub mountpoint: Option<String>,
    pub swap: bool,
}

/// A partition, as text.
pub struct PartitionView {
    pub path: Seq<char>,
    pub label: Option<Seq<char>>,
    pub fstype: Option<Seq<char>>,
    pub parent: Seq<char>,
    pub mountpoint: Option<Seq<char>>,
    pub swap: bool,
}

impl View for Partition {
    type V = PartitionView;

    open spec fn view(&self) -> PartitionView {
        PartitionView {
            path: self.path@,
            label: opt_view(self.label),
            fstype: opt_view(self.fstype),
            parent: self.parent@,
            mountpoint: opt_view(self.mountpoint),
            swap: self.swap,
        }
    }
}

/// Whether a device of this lsblk `TYPE` is taken as a partition: not a
/// whole disk nor one of unknown type; a partition; anything else (LVM,
/// RAID) only where holders are asked for.
pub open spec fn counts_as_partition(t: Option<Seq<char>>, with_holders: bool) -> bool {
    match t {
        None => false,
        Some(t) => if t == "disk"@ {
            false
        } else if t == "part"@ {
            true
        } else {
            with_holders
        },
    }
}

/// The partition that a device of lsblk's output is, if it is one; a
/// mount point of `[SWAP]` marks swap.
pub open spec fn partition_of(ps: Seq<(Seq<char>, Seq<char>)>, parent: Seq<char>, with_holders: bool) -> Option<
    PartitionView,
> {
    match field_value(ps, "NAME"@) {
        None => None,
        Some(name) => if !counts_as_partition(field_value(ps, "TYPE"@), with_holders) {
            None
        } else {
            let mp = field_value(ps, "MOUNTPOINT"@);
            let swap = mp == Some("[SWAP]"@);
            Some(
                PartitionView {
                    path: name,
                    label: field_value(ps, "LABEL"@),
                    fstype: field_value(ps, "FSTYPE"@),
                    parent: parent,
                    mountpoint: if swap {
                        None
                    } else {
                        mp
                    },
                    swap: swap,
                },
            )
        },
    }
}

/// The partitions among the devices, in order.
pub open spec fn partitions_spec(
    devs: Seq<Seq<(Seq<char>, Seq<char>)>>,
    parent: Seq<char>,
    with_holders: bool,
) -> Seq<PartitionView>
    decreases devs.len(),
{
    if devs.len() == 0 {
        seq![]
    } else {
        let before = partitions_spec(devs.drop_last(), parent, with_holders);
        match partition_of(devs.last(), parent, with_holders) {
            Some(p) => before.push(p),
            None => before,
        }
    }
}

fn field_is(pairs: &Vec<(String, String)>, key: &str, value: &str) -> (r: bool)
    ensures
        r == (field_value(pairs_view(pairs@), key@) == Some(value@)),
{
    match field(pairs, key) {
        Some(v) => chars_eq(&chars_of(v.as_str()), &chars_of(value)),
        None => false,
    }
}

impl Partition {
    /// The partition that a device of lsblk's output is, if it is one.
    pub fn from_lsblk(pairs: &Vec<(String, String)>, parent: &str, with_holders: bool) -> (r: Option<
        Partition,
    >)
        ensures
            match partition_of(pairs_view(pairs@), parent@, with_holders) {
                Some(p) => r matches Some(q) && q@ == p,
                None => r is None,
            },
    {
        proof {
            reveal_strlit("NAME");
            reveal_strlit("TYPE");
            reveal_strlit("disk");
            reveal_strlit("part");
            reveal_strlit("MOUNTPOINT");
            reveal_strlit("[SWAP]");
            reveal_strlit("LABEL");
            reveal_strlit("FSTYPE");
        }
        let name = match field(pairs, "NAME") {
            Some(n) => n,
            None => return None,
        };
        match field(pairs, "TYPE") {
            None => return None,
            Some(t) => {
                let tc = chars_of(t.as_str());
                if chars_eq(&tc, &chars_of("disk")) {
                    return None;
                }
                if !chars_eq(&tc, &chars_of("part")) && !with_holders {
                    return None;
                }
            },
        }
        let mp = field(pairs, "MOUNTPOINT");
        let swap = field_is(pairs, "MOUNTPOINT", "[SWAP]");
        Some(
            Partition {
                path: name,
                label: field(pairs, "LABEL"),
                fstype: field(pairs, "FSTYPE"),
                parent: parent.to_owned(),
                mountpoint: if swap {
                    None
                } else {
                    mp
                },
                swap,
            },
        )
    }

    /// The partition is in use: mounted, used as swap, or held by another
    /// device.
    pub fn is_busy(&self, holders: &Vec<String>) -> (r: bool)
        ensures
            r == (self.mountpoint is Some || self.swap || holders@.len() > 0),
    {
        self.mountpoint.is_some() || self.swap || holders.len() > 0
    }
}

} // verus!

verus! {

/// Who makes the partition devices of a disk.
#[derive(Debug, Clone, Copy, PartialEq, Eq, Structural)]
pub enum PartTableKind {
    /// The kernel, for a partitionable disk.
    Kernel,
    /// kpartx, with device-mapper devices.
    Kpartx,
}

/// Why a disk's partitions could not be used.
#[derive(Debug, Clone, PartialEq, Eq)]
pub enum BlockdevError {
    /// The disk has no partitions.
    NoPartitions { disk: String },
    /// No partition of the disk has the label.
    NoLabel { label: String, disk: String },
    /// Several partitions of the disk have the label.
    MultipleLabels { label: String, disk: String },
    /// The partition with the label has no filesystem type.
    NoFsType { label: String, disk: String },
    /// The start offset in bytes overflows.
    StartOffsetOverflow,
    /// The size in bytes overflows.
    SizeOverflow,
    /// The end offset in bytes overflows.
    EndOffsetOverflow,
}

/// A partition's label, empty where it has none.
pub open spec fn label_of(p: PartitionView) -> Seq<char> {
    match p.label {
        Some(l) => l,
        None => seq![],
    }
}

/// How many of the partitions have the label.
pub open spec fn label_count(ps: Seq<PartitionView>, label: Seq<char>) -> nat
    decreases ps.len(),
{
    if ps.len() == 0 {
        0
    } else {
        label_count(ps.drop_last(), label) + if label_of(ps.last()) == label {
            1nat
        } else {
            0nat
        }
    }
}

proof fn lemma_count_positive(ps: Seq<PartitionView>, label: Seq<char>, i: int)
    requires
        0 <= i < ps.len(),
        label_of(ps[i]) == label,
    ensures
        label_count(ps, label) >= 1,
    decreases ps.len(),
{
    if i < ps.len() - 1 {
        lemma_count_positive(ps.drop_last(), label, i);
    }
}

proof fn lemma_count_two(ps: Seq<PartitionView>, label: Seq<char>, i: int, j: int)
    requires
        0 <= i < j < ps.len(),
        label_of(ps[i]) == label,
        label_of(ps[j]) == label,
    ensures
        label_count(ps, label) >= 2,
    decreases ps.len(),
{
    if j == ps.len() - 1 {
        lemma_count_positive(ps.drop_last(), label, i);
    } else {
        lemma_count_two(ps.drop_last(), label, i, j);
    }
}

/// The partitions, as text.
pub open spec fn partitions_view(ps: Seq<Partition>) -> Seq<PartitionView> {
    ps.map_values(|p: Partition| p@)
}

impl Disk {
    pub fn new(path: &str) -> (r: Self)
        ensures
            r.path@ == path@,
    {
        Disk { path: path.to_owned() }
    }

    /// The disk is a device-mapper device.
    pub fn is_dm_device(&self) -> (r: bool)
        ensures
            r == (starts_with(self.path@, "/dev/mapper/"@) || starts_with(self.path@, "/dev/dm-"@)),
    {
        let p = chars_of(self.path.as_str());
        starts_with_exec(&p, &chars_of("/dev/mapper/")) || starts_with_exec(&p, &chars_of("/dev/dm-"))
    }

    /// How the disk's partition devices are managed: by kpartx for a
    /// device-mapper disk, else by the kernel.
    pub fn get_partition_table(&self) -> (r: PartTableKind)
        ensures
            r == (if starts_with(self.path@, "/dev/mapper/"@) || starts_with(self.path@, "/dev/dm-"@) {
                PartTableKind::Kpartx
            } else {
                PartTableKind::Kernel
            }),
    {
        if self.is_dm_device() {
            PartTableKind::Kpartx
        } else {
            PartTableKind::Kernel
        }
    }

    /// The partitions among the devices that `lsblk` lists for the disk;
    /// with `with_holders`, devices that hold a partition (LVM, RAID) too.
    pub fn partitions(&self, devices: &Vec<Vec<(String, String)>>, with_holders: bool) -> (r: Vec<
        Partition,
    >)
        ensures
            partitions_view(r@) == partitions_spec(
                devices@.map_values(|d: Vec<(String, String)>| pairs_view(d@)),
                self.path@,
                with_holders,
            ),
    {
        let ghost dv = devices@.map_values(|d: Vec<(String, String)>| pairs_view(d@));
        let mut out: Vec<Partition> = Vec::new();
        let mut i: usize = 0;
        while i < devices.len()
            invariant
                i <= devices@.len(),
                dv == devices@.map_values(|d: Vec<(String, String)>| pairs_view(d@)),
                partitions_view(out@) == partitions_spec(dv.take(i as int), self.path@, with_holders),
            decreases devices@.len() - i,
        {
            assert(dv.take(i + 1).drop_last() =~= dv.take(i as int));
            assert(dv.take(i + 1).last() == pairs_view(devices@[i as int]@));
            match Partition::from_lsblk(&devices[i], self.path.as_str(), with_holders) {
                Some(p) => {
                    out.push(p);
                    assert(partitions_view(out@) =~= partitions_spec(dv.take(i as int), self.path@, with_holders).push(p@));
                },
                None => {},
            }
            i += 1;
        }
        assert(dv.take(i as int) =~= dv);
        out
    }

    /// The partition with the label, among the disk's partitions: its
    /// device path and filesystem type. A partition without a label has
    /// the empty one.
    pub fn partition_by_label(&self, partitions: &Vec<Partition>, label: &str) -> (r: Result<
        (String, String),
        BlockdevError,
    >)
        ensures
            partitions@.len() == 0 ==> (r matches Err(BlockdevError::NoPartitions { disk })
                && disk@ == self.path@),
            partitions@.len() > 0 && label_count(partitions_view(partitions@), label@) == 0 ==> (
            r matches Err(BlockdevError::NoLabel { label: l, disk }) && l@ == label@ && disk@
                == self.path@),
            partitions@.len() > 0 && label_count(partitions_view(partitions@), label@) > 1 ==> (
            r matches Err(BlockdevError::MultipleLabels { label: l, disk }) && l@ == label@ && disk@
                == self.path@),
            label_count(partitions_view(partitions@), label@) == 1 ==> forall|i: int|
                0 <= i < partitions@.len() && label_of(#[trigger] partitions@[i]@) == label@ ==> match partitions@[i]@.fstype {
                    Some(f) => r matches Ok((path, fs)) && path@ == partitions@[i]@.path && fs@ == f,
                    None => r matches Err(BlockdevError::NoFsType { label: l, disk }) && l@ == label@
                        && disk@ == self.path@,
                },
    {
        if partitions.len() == 0 {
            return Err(BlockdevError::NoPartitions { disk: self.path.clone() });
        }
        let ghost pv = partitions_view(partitions@);
        let want = chars_of(label);
        let mut count: usize = 0;
        let mut first: usize = 0;
        let mut k: usize = 0;
        while k < partitions.len()
            invariant
                k <= partitions@.len(),
                pv == partitions_view(partitions@),
                want@ == label@,
                count <= k,
                count == label_count(pv.take(k as int), label@),
                count >= 1 ==> first < k && label_of(pv[first as int]) == label@,
            decreases partitions@.len() - k,
        {
            assert(pv.take(k + 1).drop_last() =~= pv.take(k as int));
            assert(pv.take(k + 1).last() == partitions@[k as int]@);
            let matched = match &partitions[k].label {
                Some(l) => chars_eq(&chars_of(l.as_str()), &want),
                None => want.len() == 0,
            };
            proof {
                if partitions@[k as int].label is None {
                    assert(want@.len() == 0 ==> want@ =~= Seq::<char>::empty());
                }
            }
            if matched {
                if count == 0 {
                    first = k;
                }
                count += 1;
            }
            k += 1;
        }
        assert(pv.take(k as int) =~= pv);
        if count == 0 {
            return Err(BlockdevError::NoLabel { label: label.to_owned(), disk: self.path.clone() });
        }
        if count > 1 {
            return Err(BlockdevError::MultipleLabels { label: label.to_owned(), disk: self.path.clone() });
        }
        proof {
            assert forall|i: int|
                0 <= i < partitions@.len() && label_of(#[trigger] partitions@[i]@) == label@ implies i
                == first by {
                if i < first {
                    lemma_count_two(pv, label@, i, first as int);
                } else if i > first {
                    lemma_count_two(pv, label@, first as int, i);
                }
            }
        }
        let p = &partitions[first];
        match &p.fstype {
            Some(f) => Ok((p.path.clone(), f.clone())),
            None => Err(BlockdevError::NoFsType { label: label.to_owned(), disk: self.path.clone() }),
        }
    }
}

impl Partition {
    /// What `offsets` answers.
    pub open spec fn offsets_spec(start: u64, size: u64) -> Result<(u64, u64), BlockdevError> {
        if start * 512 > u64::MAX {
            Err(BlockdevError::StartOffsetOverflow)
        } else if size * 512 > u64::MAX {
            Err(BlockdevError::SizeOverflow)
        } else if start * 512 + size * 512 > u64::MAX {
            Err(BlockdevError::EndOffsetOverflow)
        } else {
            Ok(((start * 512) as u64, (start * 512 + size * 512) as u64))
        }
    }

    /// The start and end offsets in bytes of a partition that starts at
    /// `start` and spans `size` sectors of 512 bytes, the unit the kernel
    /// reports them in whatever the disk's sector size.
    pub fn offsets(start: u64, size: u64) -> (r: Result<(u64, u64), BlockdevError>)
        ensures
            r == Partition::offsets_spec(start, size),
            start * 512 > u64::MAX ==> r == Err::<(u64, u64), BlockdevError>(
                BlockdevError::StartOffsetOverflow,
            ),
            start * 512 <= u64::MAX && size * 512 > u64::MAX ==> r == Err::<(u64, u64), BlockdevError>(
                BlockdevError::SizeOverflow,
            ),
            start * 512 <= u64::MAX && size * 512 <= u64::MAX && start * 512 + size * 512 > u64::MAX
                ==> r == Err::<(u64, u64), BlockdevError>(BlockdevError::EndOffsetOverflow),
            start * 512 + size * 512 <= u64::MAX ==> r == Ok::<(u64, u64), BlockdevError>(
                ((start * 512) as u64, (start * 512 + size * 512) as u64),
            ),
    {
        let start_offset = match start.checked_mul(512) {
            Some(v) => v,
            None => return Err(BlockdevError::StartOffsetOverflow),
        };
        let length = match size.checked_mul(512) {
            Some(v) => v,
            None => return Err(BlockdevError::SizeOverflow),
        };
        match start_offset.checked_add(length) {
            Some(end) => Ok((start_offset, end)),
            None => Err(BlockdevError::EndOffsetOverflow),
        }
    }
}

} // verus!

verus! {

/// Why a mount could not be found or described.
#[derive(Debug, Clone, PartialEq, Eq)]
pub enum MountError {
    /// A line of the mount table does not have six fields.
    InvalidLine { line: String },
    /// Nothing is mounted there.
    NotFound { path: String },
    /// The filesystem has no UUID.
    NoUuid { device: String },
    /// The disk path has no file name.
    NoFileName { path: String },
}

/// Why the mount table does not give a device.
pub enum MountFault {
    Invalid(Seq<char>),
    NotFound,
}

/// The device mounted at `path` according to the mount table lines `ls`
/// (in the format of fstab(5)): that of the first line whose mount point
/// is `path`; every line up to it must have six fields.
pub open spec fn find_mount(ls: Seq<Seq<char>>, path: Seq<char>) -> Result<Seq<char>, MountFault>
    decreases ls.len(),
{
    if ls.len() == 0 {
        Err(MountFault::NotFound)
    } else {
        let f = words(ls[0]);
        if f.len() != 6 {
            Err(MountFault::Invalid(ls[0]))
        } else if f[1] == path {
            Ok(f[0])
        } else {
            find_mount(ls.drop_first(), path)
        }
    }
}

/// A mounted filesystem: its device and its mount point.
#[derive(Debug, Clone)]
pub struct Mount {
    device: String,
    mountpoint: String,
    /// This program mounted it, and unmounts it.
    owned: bool,
}

/// A mount, as text.
pub struct MountView {
    pub device: Seq<char>,
    pub mountpoint: Seq<char>,
    pub owned: bool,
}

impl View for Mount {
    type V = MountView;

    closed spec fn view(&self) -> MountView {
        MountView { device: self.device@, mountpoint: self.mountpoint@, owned: self.owned }
    }
}

impl Mount {
    /// A filesystem that this program has just mounted.
    pub fn mounted(device: &str, mountpoint: &str) -> (r: Mount)
        ensures
            r@ == (MountView { device: device@, mountpoint: mountpoint@, owned: true }),
    {
        Mount { device: device.to_owned(), mountpoint: mountpoint.to_owned(), owned: true }
    }

    /// The filesystem that the mount table `mounts` (the text of
    /// `/proc/self/mounts`) lists at `path`.
    pub fn from_existing(mounts: &str, path: &str) -> (r: Result<Mount, MountError>)
        ensures
            match find_mount(lines(mounts@), path@) {
                Ok(d) => r matches Ok(m) && m@ == (MountView { device: d, mountpoint: path@, owned: false }),
                Err(MountFault::Invalid(l)) => r matches Err(MountError::InvalidLine { line }) && line@ == l,
                Err(MountFault::NotFound) => r matches Err(MountError::NotFound { path: p }) && p@ == path@,
            },
    {
        let v = chars_of(mounts);
        let want = chars_of(path);
        let mut i: usize = 0;
        assert(v@.skip(0) =~= v@);
        while i < v.len()
            invariant
                i <= v@.len(),
                v@ == mounts@,
                want@ == path@,
                find_mount(lines(v@), path@) == find_mount(lines(v@.skip(i as int)), path@),
            decreases v@.len() - i,
        {
            let (line, next) = next_line(&v, i);
            let ghost ls = lines(v@.skip(i as int));
            assert(ls[0] == line@);
            assert(ls.drop_first() =~= lines(v@.skip(next as int)));
            let f = words_exec(&line);
            assert(f@.len() == words(line@).len());
            if f.len() != 6 {
                return Err(MountError::InvalidLine { line: string_of(&line) });
            }
            assert(f@[1]@ == words(line@)[1] && f@[0]@ == words(line@)[0]);
            if chars_eq(&f[1], &want) {
                return Ok(Mount { device: string_of(&f[0]), mountpoint: path.to_owned(), owned: false });
            }
            i = next;
        }
        assert(v@.skip(i as int) =~= Seq::<char>::empty());
        Err(MountError::NotFound { path: path.to_owned() })
    }

    /// The mounted device.
    pub fn device(&self) -> (r: &str)
        ensures
            r@ == self@.device,
    {
        self.device.as_str()
    }

    /// Where the filesystem is mounted.
    pub fn mountpoint(&self) -> (r: &str)
        ensures
            r@ == self@.mountpoint,
    {
        self.mountpoint.as_str()
    }

    /// This program mounted the filesystem, and is to unmount it.
    pub fn owned(&self) -> (r: bool)
        ensures
            r == self@.owned,
    {
        self.owned
    }

    /// The start and end offsets of the mounted partition, from the start
    /// and size (in 512-byte sectors) that the kernel reports for it.
    pub fn get_partition_offsets(&self, start: u64, size: u64) -> (r: Result<(u64, u64), BlockdevError>)
        ensures
            r == Partition::offsets_spec(start, size),
    {
        Partition::offsets(start, size)
    }

    /// The filesystem's UUID, from the fields `lsblk` prints for its device.
    pub fn get_filesystem_uuid(&self, devinfo: &Vec<(String, String)>) -> (r: Result<String, MountError>)
        ensures
            match field_value(pairs_view(devinfo@), "UUID"@) {
                Some(u) => r matches Ok(s) && s@ == u,
                None => r matches Err(MountError::NoUuid { device }) && device@ == self@.device,
            },
    {
        match field(devinfo, "UUID") {
            Some(u) => Ok(u),
            None => Err(MountError::NoUuid { device: self.device.clone() }),
        }
    }
}

/// `entry` names a partition device that kpartx made for the disk whose
/// file name is `disk`: the disk's name, `p` and a number.
pub open spec fn kpartx_entry(disk: Seq<char>, entry: Seq<char>) -> bool {
    let rest = entry.skip(disk.len() as int);
    &&& starts_with(entry, disk)
    &&& rest.len() >= 2
    &&& rest[0] == 'p'
    &&& all_digits(rest.drop_first())
}

/// The partition devices of a disk that kpartx manages; dropping them is
/// left to whoever made them.
#[derive(Debug, Clone)]
pub struct PartTableKpartx {
    pub path: String,
    /// The devices were made here, and are to be removed afterwards.
    pub need_teardown: bool,
}

impl PartTableKpartx {
    /// kpartx has already made partition devices for the disk: one of the
    /// entries of `/dev/mapper` is named after it.
    pub fn already_set_up(path: &str, mapper_entries: &Vec<String>) -> (r: Result<bool, MountError>)
        ensures
            match path_file_name(path@) {
                None => r matches Err(MountError::NoFileName { path: p }) && p@ == path@,
                Some(d) => r == Ok::<bool, MountError>(
                    exists|i: int| 0 <= i < mapper_entries@.len() && kpartx_entry(d, #[trigger] mapper_entries@[i]@),
                ),
            },
    {
        let disk = match file_name_of(path) {
            Some(d) => chars_of(d.as_str()),
            None => return Err(MountError::NoFileName { path: path.to_owned() }),
        };
        let mut i: usize = 0;
        while i < mapper_entries.len()
            invariant
                i <= mapper_entries@.len(),
                path_file_name(path@) == Some(disk@),
                forall|j: int| 0 <= j < i ==> !kpartx_entry(disk@, #[trigger] mapper_entries@[j]@),
            decreases mapper_entries@.len() - i,
        {
            let e = chars_of(mapper_entries[i].as_str());
            if starts_with_exec(&e, &disk) && e.len() - disk.len() >= 2 && e[disk.len()] == 'p' {
                let digits = sub_chars(&e, disk.len() + 1, e.len());
                assert(digits@ =~= e@.skip(disk@.len() as int).drop_first());
                if all_digits_exec(&digits) {
                    return Ok(true);
                }
            }
            i += 1;
        }
        Ok(false)
    }

    /// The partition devices of the disk, to be removed afterwards unless
    /// kpartx had already made them.
    pub fn new(path: &str, mapper_entries: &Vec<String>) -> (r: Result<Self, MountError>)
        ensures
            match PartTableKpartx::already_set_up_spec(path@, mapper_entries@) {
                None => r matches Err(MountError::NoFileName { path: p }) && p@ == path@,
                Some(set_up) => r matches Ok(t) && t.path@ == path@ && t.need_teardown == !set_up,
            },
    {
        match PartTableKpartx::already_set_up(path, mapper_entries) {
            Ok(set_up) => Ok(PartTableKpartx { path: path.to_owned(), need_teardown: !set_up }),
            Err(e) => Err(e),
        }
    }

    /// What `already_set_up` answers: `None` where the path has no file name.
    pub open spec fn already_set_up_spec(path: Seq<char>, entries: Seq<String>) -> Option<bool> {
        match path_file_name(path) {
            None => None,
            Some(d) => Some(exists|i: int| 0 <= i < entries.len() && kpartx_entry(d, #[trigger] entries[i]@)),
        }
    }
}

} // verus!

//! The kernel arguments that `rdcore rootmap` and `rdcore bind-boot`
//! derive from what the block devices and the root filesystem report:
//! RAID and LUKS arguments for the devices under the root filesystem,
//! then the root arguments themselves.

use crate::bls::strings_view;
use crate::text::{
    chars_eq, chars_of, contains_seq, contains_exec, extend_chars, find_char, len_before, lines,
    next_line, split_char, split_contains, starts_with, starts_with_exec, string_of, sub_chars,
    trim, trim_chars, words, words_exec,
};
use vstd::prelude::*;

verus! {

/// Why kernel arguments could not be derived.
#[derive(Debug, Clone, PartialEq, Eq)]
pub enum RootmapError {
    /// A line of `mdadm --detail --export` output has no `=`.
    InvalidMdadmLine { line: String },
    /// The RAID device reports no `MD_UUID`.
    MissingMdUuid,
    /// A crypttab line lacks the name or the device.
    CrypttabLine { line: String },
    /// The mapped device is not in crypttab.
    NotInCrypttab { name: String },
    /// lsblk reported a device type that is not handled.
    UnknownDeviceType { kind: String },
    /// The boot filesystem is bound to another root filesystem.
    BootAlreadyBound { uuid: String },
}

/// `a` followed by `b`.
fn concat(a: &str, b: &str) -> (r: String)
    ensures
        r@ == a@ + b@,
{
    let mut v = chars_of(a);
    extend_chars(&mut v, &chars_of(b));
    string_of(&v)
}

// ---------------------------------------------------------------------
// RAID
// ---------------------------------------------------------------------
/// A `KEY=value` line split at its first `=`.
pub open spec fn mdadm_pair(line: Seq<char>) -> Option<(Seq<char>, Seq<char>)> {
    let k = len_before(line, '=');
    if k < line.len() {
        Some((line.take(k as int), line.skip(k + 1 as int)))
    } else {
        None
    }
}

/// Splits a line of `mdadm --detail --export` output at its first `=`.
pub fn split_mdadm_line(line: &str) -> (r: Result<(String, String), RootmapError>)
    ensures
        match mdadm_pair(line@) {
            Some((k, v)) => r matches Ok((a, b)) && a@ == k && b@ == v,
            None => r matches Err(RootmapError::InvalidMdadmLine { line: l }) && l@ == line@,
        },
{
    let v = chars_of(line);
    let k = find_char(&v, 0, '=');
    assert(v@.skip(0) =~= v@);
    if k == v.len() {
        return Err(RootmapError::InvalidMdadmLine { line: string_of(&v) });
    }
    let key = sub_chars(&v, 0, k);
    let val = sub_chars(&v, k + 1, v.len());
    assert(key@ =~= v@.take(k as int));
    assert(val@ =~= v@.skip(k + 1));
    Ok((string_of(&key), string_of(&val)))
}

/// Why an `mdadm` report gives no UUID.
pub enum MdadmFault {
    Invalid(Seq<char>),
    Missing,
}

/// The last `MD_UUID` value in the report lines `ls` (or `found`, from
/// earlier lines); the first line without `=` is an error.
pub open spec fn md_uuid_spec(ls: Seq<Seq<char>>, found: Option<Seq<char>>) -> Result<Seq<char>, MdadmFault>
    decreases ls.len(),
{
    if ls.len() == 0 {
        match found {
            Some(u) => Ok(u),
            None => Err(MdadmFault::Missing),
        }
    } else {
        match mdadm_pair(ls[0]) {
            None => Err(MdadmFault::Invalid(ls[0])),
            Some((k, v)) => md_uuid_spec(
                ls.drop_first(),
                if k == "MD_UUID"@ {
                    Some(v)
                } else {
                    found
                },
            ),
        }
    }
}

/// The array UUID in `mdadm --detail --export` output.
pub fn md_uuid(output: &str) -> (r: Result<String, RootmapError>)
    ensures
        match md_uuid_spec(lines(output@), None) {
            Ok(u) => r matches Ok(s) && s@ == u,
            Err(MdadmFault::Invalid(l)) => r matches Err(RootmapError::InvalidMdadmLine { line })
                && line@ == l,
            Err(MdadmFault::Missing) => r == Err::<String, RootmapError>(RootmapError::MissingMdUuid),
        },
{
    let v = chars_of(output);
    let key = chars_of("MD_UUID");
    let mut found: Option<String> = None;
    let mut i: usize = 0;
    assert(v@.skip(0) =~= v@);
    while i < v.len()
        invariant
            i <= v@.len(),
            key@ == "MD_UUID"@,
            v@ == output@,
            md_uuid_spec(lines(v@), None) == md_uuid_spec(
                lines(v@.skip(i as int)),
                crate::text::opt_view(found),
            ),
        decreases v@.len() - i,
    {
        let (line, next) = next_line(&v, i);
        let ghost ls = lines(v@.skip(i as int));
        assert(ls[0] == line@);
        assert(ls.drop_first() =~= lines(v@.skip(next as int)));
        let k = find_char(&line, 0, '=');
        assert(line@.skip(0) =~= line@);
        if k == line.len() {
            return Err(RootmapError::InvalidMdadmLine { line: string_of(&line) });
        }
        let name = sub_chars(&line, 0, k);
        assert(name@ =~= line@.take(k as int));
        if chars_eq(&name, &key) {
            let val = sub_chars(&line, k + 1, line.len());
            assert(val@ =~= line@.skip(k + 1));
            found = Some(string_of(&val));
        }
        i = next;
    }
    assert(v@.skip(i as int) =~= Seq::<char>::empty());
    match found {
        Some(u) => Ok(u),
        None => Err(RootmapError::MissingMdUuid),
    }
}

/// The kernel arguments for a RAID device: `rd.md.uuid=` with the UUID
/// that `mdadm --detail --export` reports.
pub fn raid_kargs(mdadm_output: &str) -> (r: Result<Vec<String>, RootmapError>)
    ensures
        match md_uuid_spec(lines(mdadm_output@), None) {
            Ok(u) => r matches Ok(ks) && strings_view(ks@) == seq!["rd.md.uuid="@ + u],
            Err(MdadmFault::Invalid(l)) => r matches Err(RootmapError::InvalidMdadmLine { line })
                && line@ == l,
            Err(MdadmFault::Missing) => r == Err::<Vec<String>, RootmapError>(
                RootmapError::MissingMdUuid,
            ),
        },
{
    let uuid = match md_uuid(mdadm_output) {
        Ok(u) => u,
        Err(e) => return Err(e),
    };
    let mut ks: Vec<String> = Vec::new();
    ks.push(concat("rd.md.uuid=", uuid.as_str()));
    assert(strings_view(ks@) =~= seq![ks@[0]@]);
    Ok(ks)
}

// ---------------------------------------------------------------------
// LUKS
// ---------------------------------------------------------------------
/// Why crypttab does not say whether a device needs the network.
pub enum CrypttabFault {
    Line(Seq<char>),
    NotFound,
}

/// Whether the crypttab lines `ls` give the device `name` the `_netdev`
/// option: blank and `#` lines are skipped, the first line naming the
/// device decides, and a line before it without a device is an error.
pub open spec fn crypttab_spec(ls: Seq<Seq<char>>, name: Seq<char>) -> Result<bool, CrypttabFault>
    decreases ls.len(),
{
    if ls.len() == 0 {
        Err(CrypttabFault::NotFound)
    } else {
        let t = trim(ls[0]);
        let f = words(t);
        if t.len() == 0 || t[0] == '#' {
            crypttab_spec(ls.drop_first(), name)
        } else if f.len() < 2 {
            Err(CrypttabFault::Line(t))
        } else if f[0] != name {
            crypttab_spec(ls.drop_first(), name)
        } else if f.len() < 4 {
            Ok(false)
        } else {
            Ok(split_char(f[3], ',').contains("_netdev"@))
        }
    }
}

/// Whether crypttab marks the mapped device `dmname` as needing the
/// network (`_netdev` among its options).
pub fn crypttab_device_has_netdev(crypttab: &str, dmname: &str) -> (r: Result<bool, RootmapError>)
    ensures
        match crypttab_spec(lines(crypttab@), dmname@) {
            Ok(b) => r == Ok::<bool, RootmapError>(b),
            Err(CrypttabFault::Line(l)) => r matches Err(RootmapError::CrypttabLine { line }) && line@
                == l,
            Err(CrypttabFault::NotFound) => r matches Err(RootmapError::NotInCrypttab { name })
                && name@ == dmname@,
        },
{
    let v = chars_of(crypttab);
    let name = chars_of(dmname);
    let netdev = chars_of("_netdev");
    let mut i: usize = 0;
    assert(v@.skip(0) =~= v@);
    while i < v.len()
        invariant
            i <= v@.len(),
            name@ == dmname@,
            netdev@ == "_netdev"@,
            v@ == crypttab@,
            crypttab_spec(lines(v@), name@) == crypttab_spec(lines(v@.skip(i as int)), name@),
        decreases v@.len() - i,
    {
        let (line, next) = next_line(&v, i);
        let ghost ls = lines(v@.skip(i as int));
        assert(ls[0] == line@);
        assert(ls.drop_first() =~= lines(v@.skip(next as int)));
        let t = trim_chars(&line);
        let f = words_exec(&t);
        let ghost fv = f@.map_values(|w: Vec<char>| w@);
        if t.len() == 0 || t[0] == '#' {
            i = next;
        } else if f.len() < 2 {
            return Err(RootmapError::CrypttabLine { line: string_of(&t) });
        } else if !chars_eq(&f[0], &name) {
            assert(fv[0] == f@[0]@);
            i = next;
        } else {
            assert(fv[0] == f@[0]@);
            if f.len() < 4 {
                return Ok(false);
            }
            assert(fv[3] == f@[3]@);
            return Ok(split_contains(&f[3], ',', &netdev));
        }
    }
    assert(v@.skip(i as int) =~= Seq::<char>::empty());
    Err(RootmapError::NotInCrypttab { name: string_of(&name) })
}

/// The kernel arguments for a LUKS device: `rd.luks.name=<uuid>=<name>`,
/// and where it needs the network, `rd.neednet=1` and
/// `rd.luks.options=_netdev`.
pub fn luks_kargs(uuid: &str, name: &str, netdev: bool) -> (r: Vec<String>)
    ensures
        strings_view(r@) == seq!["rd.luks.name="@ + uuid@ + "="@ + name@] + if netdev {
            seq!["rd.neednet=1"@, "rd.luks.options=_netdev"@]
        } else {
            seq![]
        },
{
    let mut ks: Vec<String> = Vec::new();
    let first = concat("rd.luks.name=", uuid);
    let first = concat(first.as_str(), "=");
    ks.push(concat(first.as_str(), name));
    if netdev {
        ks.push(string_of(&chars_of("rd.neednet=1")));
        ks.push(string_of(&chars_of("rd.luks.options=_netdev")));
    }
    assert(strings_view(ks@) =~= seq!["rd.luks.name="@ + uuid@ + "="@ + name@] + if netdev {
        seq!["rd.neednet=1"@, "rd.luks.options=_netdev"@]
    } else {
        seq![]
    });
    ks
}

// ---------------------------------------------------------------------
// Devices and the root
// ---------------------------------------------------------------------
/// What a backing device contributes to the kernel arguments.
#[derive(Debug, Clone, Copy, PartialEq, Eq)]
pub enum DeviceKind {
    /// A RAID array: its UUID.
    Raid,
    /// A LUKS device: its name and UUID.
    Crypt,
    /// A partition, a disk or a multipath device: nothing.
    Plain,
}

/// The kind of a device from the `TYPE` that lsblk reports.
pub open spec fn device_kind_spec(t: Seq<char>) -> Option<DeviceKind> {
    if starts_with(t, "raid"@) || t == "linear"@ {
        Some(DeviceKind::Raid)
    } else if t == "crypt"@ {
        Some(DeviceKind::Crypt)
    } else if t == "part"@ || t == "disk"@ || t == "mpath"@ {
        Some(DeviceKind::Plain)
    } else {
        None
    }
}

/// Classifies a device by its lsblk `TYPE`.
pub fn device_kind(blktype: &str) -> (r: Result<DeviceKind, RootmapError>)
    ensures
        match device_kind_spec(blktype@) {
            Some(k) => r == Ok::<DeviceKind, RootmapError>(k),
            None => r matches Err(RootmapError::UnknownDeviceType { kind }) && kind@ == blktype@,
        },
{
    let t = chars_of(blktype);
    if starts_with_exec(&t, &chars_of("raid")) || chars_eq(&t, &chars_of("linear")) {
        Ok(DeviceKind::Raid)
    } else if chars_eq(&t, &chars_of("crypt")) {
        Ok(DeviceKind::Crypt)
    } else if chars_eq(&t, &chars_of("part")) || chars_eq(&t, &chars_of("disk")) || chars_eq(
        &t,
        &chars_of("mpath"),
    ) {
        Ok(DeviceKind::Plain)
    } else {
        Err(RootmapError::UnknownDeviceType { kind: string_of(&t) })
    }
}

/// The arguments `rdcore rootmap` ends with, after those of the backing
/// devices: `root=UUID=`, `rw`, and `rootflags=` where the root has
/// mount flags.
pub open spec fn root_kargs_spec(uuid: Seq<char>, rootflags: Seq<char>) -> Seq<Seq<char>> {
    seq!["root=UUID="@ + uuid, "rw"@] + if trim(rootflags).len() > 0 {
        seq!["rootflags="@ + trim(rootflags)]
    } else {
        seq![]
    }
}

/// Appends the root arguments to the arguments of the backing devices.
pub fn push_root_kargs(kargs: &mut Vec<String>, root_uuid: &str, rootflags: &str)
    ensures
        strings_view(final(kargs)@) == strings_view(old(kargs)@) + root_kargs_spec(
            root_uuid@,
            rootflags@,
        ),
{
    let ghost k0 = strings_view(kargs@);
    kargs.push(concat("root=UUID=", root_uuid));
    kargs.push(string_of(&chars_of("rw")));
    let flags = trim_chars(&chars_of(rootflags));
    if flags.len() > 0 {
        let mut v = chars_of("rootflags=");
        extend_chars(&mut v, &flags);
        kargs.push(string_of(&v));
    }
    assert(strings_view(kargs@) =~= k0 + root_kargs_spec(root_uuid@, rootflags@));
}

/// The BLS options need a `boot=` argument: none is there yet.
pub open spec fn needs_boot_karg_spec(options: Seq<char>) -> bool {
    !starts_with(options, "boot="@) && !contains_seq(options, " boot="@)
}

/// Whether `rdcore bind-boot` adds `boot=UUID=` to these BLS options.
pub fn needs_boot_karg(options: &str) -> (r: bool)
    ensures
        r == needs_boot_karg_spec(options@),
{
    let o = chars_of(options);
    !starts_with_exec(&o, &chars_of("boot=")) && !contains_exec(&o, &chars_of(" boot="))
}

/// Checks the root UUID recorded in the boot filesystem (the stamp's
/// text, trimmed) against the root filesystem's.
pub fn check_root_binding(bound: &str, root_uuid: &str) -> (r: Result<(), RootmapError>)
    ensures
        trim(bound@) == root_uuid@ ==> r is Ok,
        trim(bound@) != root_uuid@ ==> (r matches Err(RootmapError::BootAlreadyBound { uuid })
            && uuid@ == trim(bound@)),
{
    let b = trim_chars(&chars_of(bound));
    if chars_eq(&b, &chars_of(root_uuid)) {
        Ok(())
    } else {
        Err(RootmapError::BootAlreadyBound { uuid: string_of(&b) })
    }
}

/// The GRUB drop-in that points GRUB at the boot filesystem.
pub fn grub_bootuuid_dropin(uuid: &str) -> (r: String)
    ensures
        r@ == "set BOOT_UUID=\""@ + uuid@ + "\"\n"@,
{
    let a = concat("set BOOT_UUID=\"", uuid);
    concat(a.as_str(), "\"\n")
}

} // verus!

//! Customizing a live system: the Ignition configs for the live system
//! and for the installed one, the installer's own settings, and the
//! initrd that carries them all.
//!
//! Configs are kept as plain values here; turning them into JSON or YAML
//! text is left to the caller, which hands the text back where a config
//! ends up inside another one.

use crate::cmdline::CommonCustomizeConfig;
use crate::initrd::Initrd;
use crate::live::{filename, path_file_name, LiveError};
use crate::text::{
    chars_of, contains_seq, dec_string, ends_with, extend_chars, occurs_at, opt_view, push_decimal,
    string_of,
};
use vstd::prelude::*;

verus! {

// ---------------------------------------------------------------------
// Resources
// ---------------------------------------------------------------------
/// The gzip stream that `flate2` writes for `data` at its best
/// compression level.
pub uninterp spec fn gzip_best(data: Seq<u8>) -> Seq<u8>;

/// The standard base64 text (with padding) of `data`.
pub uninterp spec fn base64_text(data: Seq<u8>) -> Seq<char>;

/// `flate2::read::GzEncoder` at `Compression::best()`, read to the end:
/// the gzip stream of `data`, or `None` where reading it fails.
#[verifier::external_body]
fn gzip_compress(data: &[u8]) -> (r: Option<Vec<u8>>)
    ensures
        r matches Some(v) ==> v@ == gzip_best(data@),
{
    let mut out = Vec::new();
    let mut e = flate2::read::GzEncoder::new(data, flate2::Compression::best());
    match std::io::Read::read_to_end(&mut e, &mut out) {
        Ok(_) => Some(out),
        Err(_) => None,
    }
}

/// `base64::engine::general_purpose::STANDARD.encode`: the standard
/// base64 text of `data`, padded.
#[verifier::external_body]
fn base64_encode(data: &[u8]) -> (r: String)
    ensures
        r@ == base64_text(data@),
{
    base64::Engine::encode(&base64::engine::general_purpose::STANDARD, data)
}

/// Data given inline in a config: a `data:` URL of its gzip stream.
#[derive(Debug, Clone, PartialEq, Eq)]
pub struct Resource {
    pub source: String,
    pub compression: String,
}

/// A resource as its source URL and compression.
pub open spec fn resource_view(r: Resource) -> (Seq<char>, Seq<char>) {
    (r.source@, r.compression@)
}

/// The resource that carries `data`.
pub open spec fn resource_for(data: Seq<u8>) -> (Seq<char>, Seq<char>) {
    ("data:;base64,"@ + base64_text(gzip_best(data)), "gzip"@)
}

/// The resource that carries `data`: gzipped, base64 encoded, in a
/// `data:` URL.
pub fn make_resource(data: &[u8]) -> (r: Result<Resource, LiveError>)
    ensures
        r matches Ok(res) ==> resource_view(res) == resource_for(data@),
        r matches Err(e) ==> e == LiveError::Compress,
{
    let compressed = match gzip_compress(data) {
        Some(c) => c,
        None => return Err(LiveError::Compress),
    };
    let mut source = chars_of("data:;base64,");
    extend_chars(&mut source, &chars_of(base64_encode(compressed.as_slice()).as_str()));
    Ok(Resource { source: string_of(&source), compression: string_of(&chars_of("gzip")) })
}

// ---------------------------------------------------------------------
// Ignition configs
// ---------------------------------------------------------------------
/// A file that a config writes.
#[derive(Debug, Clone, PartialEq, Eq)]
pub struct IgnitionFile {
    pub path: String,
    pub contents: Resource,
    pub mode: i64,
}

/// A systemd unit that a config installs.
#[derive(Debug, Clone, PartialEq, Eq)]
pub struct IgnitionUnit {
    pub name: String,
    pub contents: String,
    pub enabled: bool,
}

/// The parts of an Ignition config (spec 3.3.0) that customization
/// writes: files, units, certificate authorities and configs to merge.
#[derive(Debug, Clone, PartialEq, Eq)]
pub struct Ignition {
    pub files: Vec<IgnitionFile>,
    pub units: Vec<IgnitionUnit>,
    pub cas: Vec<Resource>,
    pub merges: Vec<Resource>,
}

/// Abstract value of a config.
pub struct IgnitionView {
    pub files: Seq<(Seq<char>, (Seq<char>, Seq<char>), i64)>,
    pub units: Seq<(Seq<char>, Seq<char>, bool)>,
    pub cas: Seq<(Seq<char>, Seq<char>)>,
    pub merges: Seq<(Seq<char>, Seq<char>)>,
}

impl View for Ignition {
    type V = IgnitionView;

    open spec fn view(&self) -> IgnitionView {
        IgnitionView {
            files: self.files@.map_values(
                |f: IgnitionFile| (f.path@, resource_view(f.contents), f.mode),
            ),
            units: self.units@.map_values(|u: IgnitionUnit| (u.name@, u.contents@, u.enabled)),
            cas: self.cas@.map_values(|r: Resource| resource_view(r)),
            merges: self.merges@.map_values(|r: Resource| resource_view(r)),
        }
    }
}

impl Default for Ignition {
    fn default() -> (r: Self)
        ensures
            r@ == empty_config(),
    {
        Ignition::new()
    }
}

/// A config path is taken.
pub open spec fn has_path(v: IgnitionView, path: Seq<char>) -> bool {
    exists|i: int| 0 <= i < v.files.len() && (#[trigger] v.files[i]).0 == path
}

/// A unit name is taken.
pub open spec fn has_unit(v: IgnitionView, name: Seq<char>) -> bool {
    exists|i: int| 0 <= i < v.units.len() && (#[trigger] v.units[i]).0 == name
}

impl Ignition {
    /// An empty config.
    pub fn new() -> (r: Self)
        ensures
            r@ == empty_config(),
    {
        let r = Ignition { files: Vec::new(), units: Vec::new(), cas: Vec::new(), merges: Vec::new() };
        assert(r@.files =~= empty_config().files);
        assert(r@.units =~= empty_config().units);
        assert(r@.cas =~= empty_config().cas);
        assert(r@.merges =~= empty_config().merges);
        r
    }

    /// The config already writes a file at `path`.
    pub fn have_path(&self, path: &str) -> (r: bool)
        ensures
            r == has_path(self@, path@),
    {
        let p = chars_of(path);
        let mut i: usize = 0;
        while i < self.files.len()
            invariant
                i <= self.files@.len(),
                p@ == path@,
                forall|k: int| 0 <= k < i ==> (#[trigger] self@.files[k]).0 != path@,
            decreases self.files@.len() - i,
        {
            assert(self@.files[i as int].0 == self.files@[i as int].path@);
            if crate::text::chars_eq(&chars_of(self.files[i].path.as_str()), &p) {
                return true;
            }
            i += 1;
        }
        false
    }

    /// Adds a file, refusing a path that the config already writes.
    pub fn add_file(&mut self, path: String, data: &[u8], mode: i64) -> (r: Result<(), LiveError>)
        ensures
            has_path(old(self)@, path@) ==> (r matches Err(LiveError::DuplicatePath { path: p })
                && p@ == path@ && final(self)@ == old(self)@),
            !has_path(old(self)@, path@) && r is Ok ==> final(self)@ == (IgnitionView {
                files: old(self)@.files.push((path@, resource_for(data@), mode)),
                ..old(self)@
            }),
            !has_path(old(self)@, path@) && r is Err ==> r == Err::<(), LiveError>(LiveError::Compress)
                && final(self)@ == old(self)@,
    {
        if self.have_path(path.as_str()) {
            return Err(LiveError::DuplicatePath { path });
        }
        let contents = match make_resource(data) {
            Ok(c) => c,
            Err(e) => return Err(e),
        };
        let ghost v0 = self@;
        self.files.push(IgnitionFile { path, contents, mode });
        assert(self@.files =~= v0.files.push((path@, resource_for(data@), mode)));
        assert(self@.units =~= v0.units);
        assert(self@.cas =~= v0.cas);
        assert(self@.merges =~= v0.merges);
        Ok(())
    }

    /// Adds a unit, refusing a name that the config already installs.
    pub fn add_unit(&mut self, name: String, contents: String, enabled: bool) -> (r: Result<
        (),
        LiveError,
    >)
        ensures
            has_unit(old(self)@, name@) ==> (r matches Err(LiveError::DuplicateUnit { name: n })
                && n@ == name@ && final(self)@ == old(self)@),
            !has_unit(old(self)@, name@) ==> r is Ok && final(self)@ == (IgnitionView {
                units: old(self)@.units.push((name@, contents@, enabled)),
                ..old(self)@
            }),
    {
        let n = chars_of(name.as_str());
        let mut i: usize = 0;
        while i < self.units.len()
            invariant
                i <= self.units@.len(),
                n@ == name@,
                forall|k: int| 0 <= k < i ==> (#[trigger] self@.units[k]).0 != name@,
            decreases self.units@.len() - i,
        {
            assert(self@.units[i as int].0 == self.units@[i as int].name@);
            if crate::text::chars_eq(&chars_of(self.units[i].name.as_str()), &n) {
                return Err(LiveError::DuplicateUnit { name });
            }
            i += 1;
        }
        let ghost v0 = self@;
        self.units.push(IgnitionUnit { name, contents, enabled });
        assert(self@.units =~= v0.units.push((name@, contents@, enabled)));
        assert(self@.files =~= v0.files);
        assert(self@.cas =~= v0.cas);
        assert(self@.merges =~= v0.merges);
        Ok(())
    }

    /// Adds a certificate authority.
    pub fn add_ca(&mut self, data: &[u8]) -> (r: Result<(), LiveError>)
        ensures
            r is Ok ==> final(self)@ == (IgnitionView {
                cas: old(self)@.cas.push(resource_for(data@)),
                ..old(self)@
            }),
            r is Err ==> r == Err::<(), LiveError>(LiveError::Compress) && final(self)@ == old(self)@,
    {
        let res = match make_resource(data) {
            Ok(c) => c,
            Err(e) => return Err(e),
        };
        let ghost v0 = self@;
        self.cas.push(res);
        assert(self@.cas =~= v0.cas.push(resource_for(data@)));
        assert(self@.files =~= v0.files);
        assert(self@.units =~= v0.units);
        assert(self@.merges =~= v0.merges);
        Ok(())
    }

    /// Adds a config to merge, given as its JSON text.
    pub fn merge_config(&mut self, config_json: &[u8]) -> (r: Result<(), LiveError>)
        ensures
            r is Ok ==> final(self)@ == (IgnitionView {
                merges: old(self)@.merges.push(resource_for(config_json@)),
                ..old(self)@
            }),
            r is Err ==> r == Err::<(), LiveError>(LiveError::Compress) && final(self)@ == old(self)@,
    {
        let res = match make_resource(config_json) {
            Ok(c) => c,
            Err(e) => return Err(e),
        };
        let ghost v0 = self@;
        self.merges.push(res);
        assert(self@.merges =~= v0.merges.push(resource_for(config_json@)));
        assert(self@.files =~= v0.files);
        assert(self@.units =~= v0.units);
        assert(self@.cas =~= v0.cas);
        Ok(())
    }
}

// ---------------------------------------------------------------------
// What a customization refuses
// ---------------------------------------------------------------------
/// Why a customization step is refused (compression aside).
pub enum Fault {
    DuplicatePath(Seq<char>),
    DuplicateUnit(Seq<char>),
    NetworkUnsupported,
    MissingFilename(Seq<char>),
    DuplicateKeyfile(Seq<char>),
    InstallerConfigUnsupported,
    TooManyConfigs,
}

/// `e` is the error that reports `f`.
pub open spec fn reports(f: Fault, e: LiveError) -> bool {
    match f {
        Fault::DuplicatePath(p) => e matches LiveError::DuplicatePath { path } && path@ == p,
        Fault::DuplicateUnit(n) => e matches LiveError::DuplicateUnit { name } && name@ == n,
        Fault::NetworkUnsupported => e == LiveError::NetworkUnsupported,
        Fault::MissingFilename(p) => e matches LiveError::MissingFilename { path } && path@ == p,
        Fault::DuplicateKeyfile(n) => e matches LiveError::DuplicateKeyfile { name } && name@ == n,
        Fault::InstallerConfigUnsupported => e == LiveError::InstallerConfigUnsupported,
        Fault::TooManyConfigs => e == LiveError::TooManyConfigs,
    }
}

/// Adding a file to a config, where compressing it succeeds.
pub open spec fn add_file_spec(v: IgnitionView, path: Seq<char>, data: Seq<u8>, mode: i64) -> Result<
    IgnitionView,
    Fault,
> {
    if has_path(v, path) {
        Err(Fault::DuplicatePath(path))
    } else {
        Ok(IgnitionView { files: v.files.push((path, resource_for(data), mode)), ..v })
    }
}

/// A config writes each path once: once a file is added at a path,
/// adding another there is refused.
pub proof fn lemma_path_written_once(
    v: IgnitionView,
    path: Seq<char>,
    data: Seq<u8>,
    mode: i64,
    data2: Seq<u8>,
    mode2: i64,
)
    requires
        add_file_spec(v, path, data, mode) is Ok,
    ensures
        add_file_spec(add_file_spec(v, path, data, mode)->Ok_0, path, data2, mode2) == Err::<
            IgnitionView,
            Fault,
        >(Fault::DuplicatePath(path)),
{
    let v2 = add_file_spec(v, path, data, mode)->Ok_0;
    assert(v2.files[v.files.len() as int].0 == path);
}

/// Adding a unit to a config.
pub open spec fn add_unit_spec(v: IgnitionView, name: Seq<char>, contents: Seq<char>, enabled: bool) -> Result<
    IgnitionView,
    Fault,
> {
    if has_unit(v, name) {
        Err(Fault::DuplicateUnit(name))
    } else {
        Ok(IgnitionView { units: v.units.push((name, contents, enabled)), ..v })
    }
}

// ---------------------------------------------------------------------
// The live initrd under construction
// ---------------------------------------------------------------------
/// What the OS image supports, from its features file.
#[derive(Debug, Clone, Copy, PartialEq, Eq)]
pub struct OsFeatures {
    /// The installer reads config files from `/etc/coreos/installer.d`.
    pub installer_config: bool,
    /// The live initrd reads keyfiles from `/etc/coreos-firstboot-network`.
    pub live_initrd_network: bool,
}

impl OsFeatures {
    /// An image that supports neither.
    pub fn default() -> (r: Self)
        ensures
            !r.installer_config && !r.live_initrd_network,
    {
        OsFeatures { installer_config: false, live_initrd_network: false }
    }
}

/// The installer settings that customization sets: the install config
/// fields it writes, the others staying at their defaults.
#[derive(Debug, Clone, PartialEq, Eq)]
pub struct InstallerSettings {
    pub dest_device: Option<String>,
    pub append_karg: Vec<String>,
    pub delete_karg: Vec<String>,
    pub ignition_file: Option<String>,
    pub copy_network: bool,
}

pub struct InstallerView {
    pub dest_device: Option<Seq<char>>,
    pub append_karg: Seq<Seq<char>>,
    pub delete_karg: Seq<Seq<char>>,
    pub ignition_file: Option<Seq<char>>,
    pub copy_network: bool,
}

impl View for InstallerSettings {
    type V = InstallerView;

    open spec fn view(&self) -> InstallerView {
        InstallerView {
            dest_device: opt_view(self.dest_device),
            append_karg: self.append_karg@.map_values(|s: String| s@),
            delete_karg: self.delete_karg@.map_values(|s: String| s@),
            ignition_file: opt_view(self.ignition_file),
            copy_network: self.copy_network,
        }
    }
}

/// Settings with nothing set.
pub open spec fn no_settings() -> InstallerView {
    InstallerView {
        dest_device: None,
        append_karg: seq![],
        delete_karg: seq![],
        ignition_file: None,
        copy_network: false,
    }
}

impl InstallerSettings {
    pub fn new() -> (r: Self)
        ensures
            r@ == no_settings(),
    {
        let r = InstallerSettings {
            dest_device: None,
            append_karg: Vec::new(),
            delete_karg: Vec::new(),
            ignition_file: None,
            copy_network: false,
        };
        assert(r@.append_karg =~= Seq::<Seq<char>>::empty());
        assert(r@.delete_karg =~= Seq::<Seq<char>>::empty());
        r
    }
}

/// The settings, or none set yet.
pub open spec fn settings_or_new(o: Option<InstallerView>) -> InstallerView {
    match o {
        Some(v) => v,
        None => no_settings(),
    }
}

/// A live initrd being customized.
pub struct LiveInitrd {
    features: OsFeatures,
    initrd: Initrd,
    live: Ignition,
    dest: Option<Ignition>,
    user_dest: Vec<Vec<u8>>,
    installer: Option<InstallerSettings>,
    installer_copy_network: bool,
    dest_ca: Vec<Vec<u8>>,
    installer_serial: u32,
}

/// Abstract value of a live initrd being customized.
pub struct LiveView {
    pub features: OsFeatures,
    pub files: Map<Seq<char>, Seq<u8>>,
    pub live: IgnitionView,
    pub dest: Option<IgnitionView>,
    pub user_dest: Seq<Seq<u8>>,
    pub installer: Option<InstallerView>,
    pub copy_network: bool,
    pub dest_ca: Seq<Seq<u8>>,
    pub serial: nat,
}

impl View for LiveInitrd {
    type V = LiveView;

    closed spec fn view(&self) -> LiveView {
        LiveView {
            features: self.features,
            files: self.initrd.files(),
            live: self.live@,
            dest: match self.dest {
                Some(d) => Some(d@),
                None => None,
            },
            user_dest: self.user_dest@.map_values(|v: Vec<u8>| v@),
            installer: match self.installer {
                Some(i) => Some(i@),
                None => None,
            },
            copy_network: self.installer_copy_network,
            dest_ca: self.dest_ca@.map_values(|v: Vec<u8>| v@),
            serial: self.installer_serial as nat,
        }
    }
}

/// The path of a network keyfile in the initrd.
pub open spec fn keyfile_path(name: Seq<char>) -> Seq<char> {
    "etc/coreos-firstboot-network/"@ + name
}

/// Adding a network keyfile.
pub open spec fn keyfile_spec(l: LiveView, path: Seq<char>, data: Seq<u8>) -> Result<LiveView, Fault> {
    if !l.features.live_initrd_network {
        Err(Fault::NetworkUnsupported)
    } else {
        match path_file_name(path) {
            None => Err(Fault::MissingFilename(path)),
            Some(n) => if l.files.contains_key(keyfile_path(n)) {
                Err(Fault::DuplicateKeyfile(n))
            } else {
                Ok(LiveView { files: l.files.insert(keyfile_path(n), data), copy_network: true, ..l })
            },
        }
    }
}

/// Adding a certificate authority, where compressing it succeeds.
pub open spec fn ca_spec(l: LiveView, data: Seq<u8>) -> LiveView {
    LiveView {
        live: IgnitionView { cas: l.live.cas.push(resource_for(data)), ..l.live },
        dest_ca: l.dest_ca.push(data),
        ..l
    }
}

/// The unit that runs an install hook.
pub open spec fn hook_unit(
    typ: Seq<char>,
    title: Seq<char>,
    name: Seq<char>,
    deps: Seq<char>,
    target: Seq<char>,
) -> Seq<char> {
    "# Generated by coreos-installer {iso|pxe} customize\n\n[Unit]\nDescription="@ + title
        + "-Install Script ("@ + name
        + ")\nDocumentation=https://coreos.github.io/coreos-installer/customizing-install/\n"@ + deps
        + "\n\n[Service]\nType=oneshot\nExecStart=/usr/local/bin/"@ + typ + "-install-"@ + name
        + "\nRemainAfterExit=true\nStandardOutput=kmsg+console\nStandardError=kmsg+console\n\n[Install]\nRequiredBy="@
        + target
}

/// Adding an install hook: the script, and a unit that runs it.
pub open spec fn hook_spec(
    l: LiveView,
    path: Seq<char>,
    data: Seq<u8>,
    typ: Seq<char>,
    title: Seq<char>,
    deps: Seq<char>,
    target: Seq<char>,
) -> Result<LiveView, Fault> {
    match path_file_name(path) {
        None => Err(Fault::MissingFilename(path)),
        Some(n) => match add_file_spec(l.live, "/usr/local/bin/"@ + typ + "-install-"@ + n, data, 448) {
            Err(f) => Err(f),
            Ok(v) => match add_unit_spec(
                v,
                typ + "-install-"@ + n + ".service"@,
                hook_unit(typ, title, n, deps, target),
                true,
            ) {
                Err(f) => Err(f),
                Ok(v2) => Ok(LiveView { live: v2, ..l }),
            },
        },
    }
}

/// Adding a script to run before the install: its unit runs after
/// `coreos-installer-pre.target` and before `coreos-installer.service`,
/// which requires it.
pub open spec fn pre_install_spec(l: LiveView, path: Seq<char>, data: Seq<u8>) -> Result<LiveView, Fault> {
    hook_spec(
        l,
        path,
        data,
        "pre"@,
        "Pre"@,
        "After=coreos-installer-pre.target\nBefore=coreos-installer.service"@,
        "coreos-installer.service"@,
    )
}

/// Adding a script to run after the install: its unit runs after
/// `coreos-installer.service` and before `coreos-installer.target`, which
/// requires it.
pub open spec fn post_install_spec(l: LiveView, path: Seq<char>, data: Seq<u8>) -> Result<LiveView, Fault> {
    hook_spec(
        l,
        path,
        data,
        "post"@,
        "Post"@,
        "After=coreos-installer.service\nBefore=coreos-installer.target"@,
        "coreos-installer.target"@,
    )
}

/// `p` occurs in `s` wherever a run that holds it does.
proof fn lemma_contains_middle(s: Seq<char>, a: Seq<char>, p: Seq<char>, b: Seq<char>)
    requires
        contains_seq(s, a + p + b),
    ensures
        contains_seq(s, p),
{
    let i = choose|i: int| occurs_at(s, a + p + b, i);
    assert(s.subrange(i + a.len(), i + a.len() + p.len()) =~= (a + p + b).subrange(
        a.len() as int,
        (a.len() + p.len()) as int,
    ));
    assert((a + p + b).subrange(a.len() as int, (a.len() + p.len()) as int) =~= p);
    assert(occurs_at(s, p, i + a.len()));
}

/// The unit of an install hook: in its `[Unit]` section, right after the
/// documentation line, the ordering lines `deps`, then the `[Service]`
/// section, which runs the hook's script `/usr/local/bin/<typ>-install-<name>`;
/// it ends with the target that requires it.
pub proof fn lemma_hook_unit_text(
    typ: Seq<char>,
    title: Seq<char>,
    name: Seq<char>,
    deps: Seq<char>,
    target: Seq<char>,
)
    ensures
        contains_seq(
            hook_unit(typ, title, name, deps, target),
            ")\nDocumentation=https://coreos.github.io/coreos-installer/customizing-install/\n"@ + deps
                + "\n\n[Service]\nType=oneshot\nExecStart=/usr/local/bin/"@,
        ),
        contains_seq(
            hook_unit(typ, title, name, deps, target),
            "\n\n[Service]\nType=oneshot\nExecStart=/usr/local/bin/"@ + typ + "-install-"@ + name
                + "\nRemainAfterExit=true\nStandardOutput=kmsg+console\nStandardError=kmsg+console\n\n[Install]\nRequiredBy="@,
        ),
        ends_with(
            hook_unit(typ, title, name, deps, target),
            "\nRemainAfterExit=true\nStandardOutput=kmsg+console\nStandardError=kmsg+console\n\n[Install]\nRequiredBy="@
                + target,
        ),
        contains_seq(hook_unit(typ, title, name, deps, target), deps),
{
    let l1 = "# Generated by coreos-installer {iso|pxe} customize\n\n[Unit]\nDescription="@;
    let l2 = "-Install Script ("@;
    let l3 = ")\nDocumentation=https://coreos.github.io/coreos-installer/customizing-install/\n"@;
    let l4 = "\n\n[Service]\nType=oneshot\nExecStart=/usr/local/bin/"@;
    let l5 = "-install-"@;
    let l6 = "\nRemainAfterExit=true\nStandardOutput=kmsg+console\nStandardError=kmsg+console\n\n[Install]\nRequiredBy="@;
    let h = hook_unit(typ, title, name, deps, target);
    let pre = l1 + title + l2 + name;
    let mid = l3 + deps + l4;
    assert(h =~= pre + mid + (typ + l5 + name + l6 + target));
    assert(h.subrange(pre.len() as int, (pre.len() + mid.len()) as int) =~= mid);
    assert(occurs_at(h, mid, pre.len() as int));
    let pre2 = pre + l3 + deps;
    let mid2 = l4 + typ + l5 + name + l6;
    assert(h =~= pre2 + mid2 + target);
    assert(h.subrange(pre2.len() as int, (pre2.len() + mid2.len()) as int) =~= mid2);
    assert(occurs_at(h, mid2, pre2.len() as int));
    assert(h.subrange(h.len() - (l6 + target).len(), h.len() as int) =~= l6 + target);
    lemma_contains_middle(h, l3, deps, l4);
}

/// A post-install hook adds one enabled unit, named after the script,
/// that is ordered after `coreos-installer.service` and before
/// `coreos-installer.target`, and is required by that target.
pub proof fn lemma_post_install_unit(l: LiveView, path: Seq<char>, data: Seq<u8>)
    requires
        post_install_spec(l, path, data) is Ok,
    ensures
        ({
            let l2 = post_install_spec(l, path, data)->Ok_0;
            let u = l2.live.units.last();
            &&& path_file_name(path) is Some
            &&& l2.live.units == l.live.units.push(u)
            &&& u.0 == "post"@ + "-install-"@ + path_file_name(path)->Some_0 + ".service"@
            &&& u.2
            &&& contains_seq(u.1, "After=coreos-installer.service\nBefore=coreos-installer.target"@)
            &&& ends_with(u.1, "\nRemainAfterExit=true\nStandardOutput=kmsg+console\nStandardError=kmsg+console\n\n[Install]\nRequiredBy="@ + "coreos-installer.target"@)
        }),
{
    let n = path_file_name(path)->Some_0;
    lemma_hook_unit_text(
        "post"@,
        "Post"@,
        n,
        "After=coreos-installer.service\nBefore=coreos-installer.target"@,
        "coreos-installer.target"@,
    );
}

/// A pre-install hook adds one enabled unit, named after the script,
/// that is ordered after `coreos-installer-pre.target` and before
/// `coreos-installer.service`, which requires it.
pub proof fn lemma_pre_install_unit(l: LiveView, path: Seq<char>, data: Seq<u8>)
    requires
        pre_install_spec(l, path, data) is Ok,
    ensures
        ({
            let l2 = pre_install_spec(l, path, data)->Ok_0;
            let u = l2.live.units.last();
            &&& path_file_name(path) is Some
            &&& l2.live.units == l.live.units.push(u)
            &&& u.0 == "pre"@ + "-install-"@ + path_file_name(path)->Some_0 + ".service"@
            &&& u.2
            &&& contains_seq(u.1, "After=coreos-installer-pre.target\nBefore=coreos-installer.service"@)
            &&& ends_with(u.1, "\nRemainAfterExit=true\nStandardOutput=kmsg+console\nStandardError=kmsg+console\n\n[Install]\nRequiredBy="@ + "coreos-installer.service"@)
        }),
{
    let n = path_file_name(path)->Some_0;
    lemma_hook_unit_text(
        "pre"@,
        "Pre"@,
        n,
        "After=coreos-installer-pre.target\nBefore=coreos-installer.service"@,
        "coreos-installer.service"@,
    );
}

/// `{:04}`: the numeral padded with zeros to four digits.
pub open spec fn pad4(s: Seq<char>) -> Seq<char> {
    if s.len() >= 4 {
        s
    } else {
        Seq::new((4 - s.len()) as nat, |i: int| '0') + s
    }
}

/// Adding an installer config under `name`.
pub open spec fn installer_bytes_spec(l: LiveView, name: Seq<char>, data: Seq<u8>) -> Result<LiveView, Fault> {
    if !l.features.installer_config {
        Err(Fault::InstallerConfigUnsupported)
    } else if l.serial >= u32::MAX {
        Err(Fault::TooManyConfigs)
    } else {
        match add_file_spec(
            l.live,
            "/etc/coreos/installer.d/"@ + pad4(dec_string(l.serial)) + "-"@ + name,
            data,
            384,
        ) {
            Err(f) => Err(f),
            Ok(v) => Ok(LiveView { live: v, serial: l.serial + 1, ..l }),
        }
    }
}

/// Adding an installer config file read from `path`.
pub open spec fn installer_config_spec(l: LiveView, path: Seq<char>, data: Seq<u8>) -> Result<LiveView, Fault> {
    match path_file_name(path) {
        None => Err(Fault::MissingFilename(path)),
        Some(n) => installer_bytes_spec(l, n, data),
    }
}

/// Adding a config for the live system to merge.
pub open spec fn merge_spec(l: LiveView, json: Seq<u8>) -> LiveView {
    LiveView { live: IgnitionView { merges: l.live.merges.push(resource_for(json)), ..l.live }, ..l }
}

/// The outcome of a step: success gives the spec's state, and an error is
/// a failed compression or the fault that the spec finds.
pub open spec fn step_ok(r: Result<(), LiveError>, s: Result<LiveView, Fault>, after: LiveView) -> bool {
    &&& r is Ok ==> s == Ok::<LiveView, Fault>(after)
    &&& r matches Err(e) ==> e == LiveError::Compress || (s matches Err(f) && reports(f, e))
    &&& s is Err ==> r is Err
}

impl LiveInitrd {
    /// The initrd is well formed.
    pub closed spec fn wf(&self) -> bool {
        self.initrd.wf()
    }

    /// Nothing customized yet.
    pub fn new(features: OsFeatures) -> (r: Self)
        ensures
            r.wf(),
            r@ == (LiveView {
                features,
                files: Map::empty(),
                live: IgnitionView { files: seq![], units: seq![], cas: seq![], merges: seq![] },
                dest: None,
                user_dest: seq![],
                installer: None,
                copy_network: false,
                dest_ca: seq![],
                serial: 0,
            }),
    {
        let r = LiveInitrd {
            features,
            initrd: Initrd::new(),
            live: Ignition::new(),
            dest: None,
            user_dest: Vec::new(),
            installer: None,
            installer_copy_network: false,
            dest_ca: Vec::new(),
            installer_serial: 0,
        };
        assert(r@.live.files =~= Seq::<(Seq<char>, (Seq<char>, Seq<char>), i64)>::empty());
        assert(r@.live.units =~= Seq::<(Seq<char>, Seq<char>, bool)>::empty());
        assert(r@.live.cas =~= Seq::<(Seq<char>, Seq<char>)>::empty());
        assert(r@.live.merges =~= Seq::<(Seq<char>, Seq<char>)>::empty());
        assert(r@.user_dest =~= Seq::<Seq<u8>>::empty());
        assert(r@.dest_ca =~= Seq::<Seq<u8>>::empty());
        r
    }

    /// A config for the installed system, given as its JSON text.
    pub fn dest_ignition(&mut self, config_json: Vec<u8>)
        requires
            old(self).wf(),
        ensures
            final(self).wf(),
            final(self)@ == (LiveView { user_dest: old(self)@.user_dest.push(config_json@), ..old(self)@ }),
    {
        let ghost j = config_json@;
        self.user_dest.push(config_json);
        assert(self@.user_dest =~= old(self)@.user_dest.push(j));
    }

    /// The device to install to.
    pub fn dest_device(&mut self, device: &str)
        requires
            old(self).wf(),
        ensures
            final(self).wf(),
            final(self)@ == (LiveView {
                installer: Some(
                    InstallerView { dest_device: Some(device@), ..settings_or_new(old(self)@.installer) },
                ),
                ..old(self)@
            }),
    {
        let mut conf = match self.installer.take() {
            Some(c) => c,
            None => InstallerSettings::new(),
        };
        conf.dest_device = Some(device.to_owned());
        self.installer = Some(conf);
    }

    /// A kernel argument to add on the installed system.
    pub fn dest_karg_append(&mut self, arg: &str)
        requires
            old(self).wf(),
        ensures
            final(self).wf(),
            final(self)@ == (LiveView {
                installer: Some(
                    InstallerView {
                        append_karg: settings_or_new(old(self)@.installer).append_karg.push(arg@),
                        ..settings_or_new(old(self)@.installer)
                    },
                ),
                ..old(self)@
            }),
    {
        let mut conf = match self.installer.take() {
            Some(c) => c,
            None => InstallerSettings::new(),
        };
        let ghost a0 = conf@.append_karg;
        conf.append_karg.push(arg.to_owned());
        assert(conf@.append_karg =~= a0.push(arg@));
        self.installer = Some(conf);
    }

    /// A kernel argument to remove on the installed system.
    pub fn dest_karg_delete(&mut self, arg: &str)
        requires
            old(self).wf(),
        ensures
            final(self).wf(),
            final(self)@ == (LiveView {
                installer: Some(
                    InstallerView {
                        delete_karg: settings_or_new(old(self)@.installer).delete_karg.push(arg@),
                        ..settings_or_new(old(self)@.installer)
                    },
                ),
                ..old(self)@
            }),
    {
        let mut conf = match self.installer.take() {
            Some(c) => c,
            None => InstallerSettings::new(),
        };
        let ghost d0 = conf@.delete_karg;
        conf.delete_karg.push(arg.to_owned());
        assert(conf@.delete_karg =~= d0.push(arg@));
        self.installer = Some(conf);
    }

    /// A NetworkManager keyfile for the live system (and, through the
    /// installer, the installed one), read from `path`.
    pub fn network_keyfile(&mut self, path: &str, data: Vec<u8>) -> (r: Result<(), LiveError>)
        requires
            old(self).wf(),
        ensures
            final(self).wf(),
            step_ok(r, keyfile_spec(old(self)@, path@, data@), final(self)@),
            r is Err ==> r != Err::<(), LiveError>(LiveError::Compress),
    {
        if !self.features.live_initrd_network {
            return Err(LiveError::NetworkUnsupported);
        }
        let name = match filename(path) {
            Ok(n) => n,
            Err(e) => return Err(e),
        };
        let mut p = chars_of("etc/coreos-firstboot-network/");
        extend_chars(&mut p, &chars_of(name.as_str()));
        let p = string_of(&p);
        if self.initrd.get(p.as_str()).is_some() {
            return Err(LiveError::DuplicateKeyfile { name });
        }
        self.initrd.add(p.as_str(), data);
        self.installer_copy_network = true;
        Ok(())
    }

    /// A certificate authority for Ignition, on the live system and, if it
    /// gets a config, the installed one.
    pub fn ignition_ca(&mut self, data: Vec<u8>) -> (r: Result<(), LiveError>)
        requires
            old(self).wf(),
        ensures
            final(self).wf(),
            step_ok(r, Ok(ca_spec(old(self)@, data@)), final(self)@),
    {
        match self.live.add_ca(data.as_slice()) {
            Ok(()) => {},
            Err(e) => return Err(e),
        }
        let ghost d = data@;
        self.dest_ca.push(data);
        assert(self@.dest_ca =~= old(self)@.dest_ca.push(d));
        assert(self@ == ca_spec(old(self)@, d));
        Ok(())
    }

    fn hook_unit_text(typ: &str, title: &str, name: &str, deps: &str, target: &str) -> (r: String)
        ensures
            r@ == hook_unit(typ@, title@, name@, deps@, target@),
    {
        let mut t = chars_of("# Generated by coreos-installer {iso|pxe} customize\n\n[Unit]\nDescription=");
        extend_chars(&mut t, &chars_of(title));
        extend_chars(&mut t, &chars_of("-Install Script ("));
        extend_chars(&mut t, &chars_of(name));
        extend_chars(
            &mut t,
            &chars_of(")\nDocumentation=https://coreos.github.io/coreos-installer/customizing-install/\n"),
        );
        extend_chars(&mut t, &chars_of(deps));
        extend_chars(&mut t, &chars_of("\n\n[Service]\nType=oneshot\nExecStart=/usr/local/bin/"));
        extend_chars(&mut t, &chars_of(typ));
        extend_chars(&mut t, &chars_of("-install-"));
        extend_chars(&mut t, &chars_of(name));
        extend_chars(
            &mut t,
            &chars_of("\nRemainAfterExit=true\nStandardOutput=kmsg+console\nStandardError=kmsg+console\n\n[Install]\nRequiredBy="),
        );
        extend_chars(&mut t, &chars_of(target));
        string_of(&t)
    }

    fn install_hook(
        &mut self,
        path: &str,
        data: &[u8],
        typ: &str,
        title: &str,
        deps: &str,
        target: &str,
    ) -> (r: Result<(), LiveError>)
        requires
            old(self).wf(),
        ensures
            final(self).wf(),
            step_ok(r, hook_spec(old(self)@, path@, data@, typ@, title@, deps@, target@), final(self)@),
    {
        let name = match filename(path) {
            Ok(n) => n,
            Err(e) => return Err(e),
        };
        let mut fpath = chars_of("/usr/local/bin/");
        extend_chars(&mut fpath, &chars_of(typ));
        extend_chars(&mut fpath, &chars_of("-install-"));
        extend_chars(&mut fpath, &chars_of(name.as_str()));
        match self.live.add_file(string_of(&fpath), data, 448) {
            Ok(()) => {},
            Err(e) => return Err(e),
        }
        let mut unit = chars_of(typ);
        extend_chars(&mut unit, &chars_of("-install-"));
        extend_chars(&mut unit, &chars_of(name.as_str()));
        extend_chars(&mut unit, &chars_of(".service"));
        let text = Self::hook_unit_text(typ, title, name.as_str(), deps, target);
        self.live.add_unit(string_of(&unit), text, true)
    }

    /// A script to run before the install.
    pub fn pre_install(&mut self, path: &str, data: &[u8]) -> (r: Result<(), LiveError>)
        requires
            old(self).wf(),
        ensures
            final(self).wf(),
            step_ok(
                r,
                pre_install_spec(old(self)@, path@, data@),
                final(self)@,
            ),
    {
        self.install_hook(
            path,
            data,
            "pre",
            "Pre",
            "After=coreos-installer-pre.target\nBefore=coreos-installer.service",
            "coreos-installer.service",
        )
    }

    /// A script to run after the install.
    pub fn post_install(&mut self, path: &str, data: &[u8]) -> (r: Result<(), LiveError>)
        requires
            old(self).wf(),
        ensures
            final(self).wf(),
            step_ok(
                r,
                post_install_spec(old(self)@, path@, data@),
                final(self)@,
            ),
    {
        self.install_hook(
            path,
            data,
            "post",
            "Post",
            "After=coreos-installer.service\nBefore=coreos-installer.target",
            "coreos-installer.target",
        )
    }

    fn push_pad4(out: &mut Vec<char>, n: u32)
        ensures
            final(out)@ == old(out)@ + pad4(dec_string(n as nat)),
    {
        let mut d: Vec<char> = Vec::new();
        push_decimal(&mut d, n as u64);
        assert(d@ =~= dec_string(n as nat));
        let mut k = d.len();
        let ghost o0 = out@;
        while k < 4
            invariant
                d.len() <= k <= 4 || (k == d.len() && k >= 4),
                d.len() < 4 ==> out@ == o0 + Seq::new((k - d.len()) as nat, |i: int| '0'),
                d.len() >= 4 ==> out@ == o0,
            decreases 4 - k,
        {
            out.push('0');
            k += 1;
            assert(out@ =~= o0 + Seq::new((k - d.len()) as nat, |i: int| '0'));
        }
        extend_chars(out, &d);
        assert(final(out)@ =~= old(out)@ + pad4(dec_string(n as nat)));
    }

    /// An installer config, as `name` and its text.
    pub fn installer_config_bytes(&mut self, name: &str, data: &[u8]) -> (r: Result<(), LiveError>)
        requires
            old(self).wf(),
        ensures
            final(self).wf(),
            step_ok(r, installer_bytes_spec(old(self)@, name@, data@), final(self)@),
    {
        if !self.features.installer_config {
            return Err(LiveError::InstallerConfigUnsupported);
        }
        if self.installer_serial == u32::MAX {
            return Err(LiveError::TooManyConfigs);
        }
        let mut p = chars_of("/etc/coreos/installer.d/");
        Self::push_pad4(&mut p, self.installer_serial);
        extend_chars(&mut p, &chars_of("-"));
        extend_chars(&mut p, &chars_of(name));
        match self.live.add_file(string_of(&p), data, 384) {
            Ok(()) => {},
            Err(e) => return Err(e),
        }
        self.installer_serial = self.installer_serial + 1;
        Ok(())
    }

    /// An installer config file read from `path`; the caller has checked
    /// that it parses.
    pub fn installer_config(&mut self, path: &str, data: &[u8]) -> (r: Result<(), LiveError>)
        requires
            old(self).wf(),
        ensures
            final(self).wf(),
            step_ok(r, installer_config_spec(old(self)@, path@, data@), final(self)@),
    {
        let name = match filename(path) {
            Ok(n) => n,
            Err(e) => return Err(e),
        };
        self.installer_config_bytes(name.as_str(), data)
    }

    /// A config for the live system to merge, as its JSON text.
    pub fn live_config(&mut self, config_json: &[u8]) -> (r: Result<(), LiveError>)
        requires
            old(self).wf(),
        ensures
            final(self).wf(),
            step_ok(r, Ok(merge_spec(old(self)@, config_json@)), final(self)@),
    {
        self.live.merge_config(config_json)
    }
}

// ---------------------------------------------------------------------
// Building from the command line
// ---------------------------------------------------------------------
/// The contents of the files that the customization options name, read
/// by the caller: each Ignition config as its JSON text once parsed,
/// each other file with its path.
pub struct CustomizeFiles {
    pub dest_ignition: Vec<Vec<u8>>,
    pub network_keyfile: Vec<(String, Vec<u8>)>,
    pub ignition_ca: Vec<Vec<u8>>,
    pub pre_install: Vec<(String, Vec<u8>)>,
    pub post_install: Vec<(String, Vec<u8>)>,
    pub installer_config: Vec<(String, Vec<u8>)>,
    pub live_ignition: Vec<Vec<u8>>,
}

pub open spec fn bytes_view(v: Seq<Vec<u8>>) -> Seq<Seq<u8>> {
    v.map_values(|b: Vec<u8>| b@)
}

pub open spec fn named_view(v: Seq<(String, Vec<u8>)>) -> Seq<(Seq<char>, Seq<u8>)> {
    v.map_values(|p: (String, Vec<u8>)| (p.0@, p.1@))
}

/// Applies the steps `f(_, xs[i])` in turn, stopping at the first fault.
pub open spec fn fold_steps<A>(l: LiveView, xs: Seq<A>, f: spec_fn(LiveView, A) -> Result<LiveView, Fault>) -> Result<
    LiveView,
    Fault,
>
    decreases xs.len(),
{
    if xs.len() == 0 {
        Ok(l)
    } else {
        match f(l, xs[0]) {
            Err(e) => Err(e),
            Ok(l2) => fold_steps(l2, xs.drop_first(), f),
        }
    }
}

/// Continues `r` with the steps.
pub open spec fn then_steps<A>(
    r: Result<LiveView, Fault>,
    xs: Seq<A>,
    f: spec_fn(LiveView, A) -> Result<LiveView, Fault>,
) -> Result<LiveView, Fault> {
    match r {
        Err(e) => Err(e),
        Ok(l) => fold_steps(l, xs, f),
    }
}

/// Applying the steps of two lists is applying those of the first, then,
/// where they all succeed, those of the second.
pub proof fn lemma_fold_steps_compose<A>(
    l: LiveView,
    a: Seq<A>,
    b: Seq<A>,
    f: spec_fn(LiveView, A) -> Result<LiveView, Fault>,
)
    ensures
        fold_steps(l, a + b, f) == then_steps(fold_steps(l, a, f), b, f),
    decreases a.len(),
{
    if a.len() == 0 {
        assert(a + b =~= b);
    } else {
        assert((a + b)[0] == a[0]);
        assert((a + b).drop_first() =~= a.drop_first() + b);
        if let Ok(l2) = f(l, a[0]) {
            lemma_fold_steps_compose(l2, a.drop_first(), b, f);
        }
    }
}

/// One step is the step itself.
pub proof fn lemma_fold_steps_one<A>(l: LiveView, x: A, f: spec_fn(LiveView, A) -> Result<LiveView, Fault>)
    ensures
        fold_steps(l, seq![x], f) == f(l, x),
{
    assert(seq![x][0] == x);
    assert(seq![x].drop_first() =~= Seq::<A>::empty());
    if let Ok(l2) = f(l, x) {
        assert(fold_steps(l2, Seq::<A>::empty(), f) == Ok::<LiveView, Fault>(l2));
    }
}

proof fn lemma_fold_step<A>(
    l: LiveView,
    xs: Seq<A>,
    i: int,
    f: spec_fn(LiveView, A) -> Result<LiveView, Fault>,
)
    requires
        0 <= i < xs.len(),
    ensures
        fold_steps(l, xs.skip(i), f) == match f(l, xs[i]) {
            Err(e) => Err(e),
            Ok(l2) => fold_steps(l2, xs.skip(i + 1), f),
        },
{
    assert(xs.skip(i)[0] == xs[i]);
    assert(xs.skip(i).drop_first() =~= xs.skip(i + 1));
}

/// The installer settings that the command line asks for directly, if it
/// asks for any.
pub open spec fn cmdline_settings(common: CommonCustomizeConfig) -> Option<InstallerView> {
    if common.dest_device is Some || common.dest_karg_append@.len() > 0
        || common.dest_karg_delete@.len() > 0 {
        Some(
            InstallerView {
                dest_device: opt_view(common.dest_device),
                append_karg: common.dest_karg_append@.map_values(|s: String| s@),
                delete_karg: common.dest_karg_delete@.map_values(|s: String| s@),
                ignition_file: None,
                copy_network: false,
            },
        )
    } else {
        None
    }
}

pub open spec fn keyfile_step() -> spec_fn(LiveView, (Seq<char>, Seq<u8>)) -> Result<LiveView, Fault> {
    |l: LiveView, k: (Seq<char>, Seq<u8>)| keyfile_spec(l, k.0, k.1)
}

pub open spec fn ca_step() -> spec_fn(LiveView, Seq<u8>) -> Result<LiveView, Fault> {
    |l: LiveView, d: Seq<u8>| Ok::<LiveView, Fault>(ca_spec(l, d))
}

pub open spec fn pre_step() -> spec_fn(LiveView, (Seq<char>, Seq<u8>)) -> Result<LiveView, Fault> {
    |l: LiveView, k: (Seq<char>, Seq<u8>)|
        pre_install_spec(l, k.0, k.1)
}

pub open spec fn post_step() -> spec_fn(LiveView, (Seq<char>, Seq<u8>)) -> Result<LiveView, Fault> {
    |l: LiveView, k: (Seq<char>, Seq<u8>)|
        post_install_spec(l, k.0, k.1)
}

pub open spec fn installer_config_step() -> spec_fn(LiveView, (Seq<char>, Seq<u8>)) -> Result<LiveView, Fault> {
    |l: LiveView, k: (Seq<char>, Seq<u8>)| installer_config_spec(l, k.0, k.1)
}

pub open spec fn merge_step() -> spec_fn(LiveView, Seq<u8>) -> Result<LiveView, Fault> {
    |l: LiveView, d: Seq<u8>| Ok::<LiveView, Fault>(merge_spec(l, d))
}

/// The state before any file is handled: the installed system's configs
/// and the installer settings from the command line.
pub open spec fn cmdline_view(
    common: CommonCustomizeConfig,
    features: OsFeatures,
    files: CustomizeFiles,
) -> LiveView {
    LiveView {
        features,
        files: Map::empty(),
        live: IgnitionView { files: seq![], units: seq![], cas: seq![], merges: seq![] },
        dest: None,
        user_dest: bytes_view(files.dest_ignition@),
        installer: cmdline_settings(common),
        copy_network: false,
        dest_ca: seq![],
        serial: 0,
    }
}

/// Everything the command line asks for, where compression succeeds: the
/// installed system's configs and the installer settings, then keyfiles,
/// certificate authorities, hooks, installer configs and live configs, in
/// that order.
pub open spec fn from_common_spec(
    common: CommonCustomizeConfig,
    features: OsFeatures,
    files: CustomizeFiles,
) -> Result<LiveView, Fault> {
    let r1 = fold_steps(cmdline_view(common, features, files), named_view(files.network_keyfile@), keyfile_step());
    let r2 = then_steps(r1, bytes_view(files.ignition_ca@), ca_step());
    let r3 = then_steps(r2, named_view(files.pre_install@), pre_step());
    let r4 = then_steps(r3, named_view(files.post_install@), post_step());
    let r5 = then_steps(r4, named_view(files.installer_config@), installer_config_step());
    then_steps(r5, bytes_view(files.live_ignition@), merge_step())
}

/// An error stays an error through further steps.
proof fn lemma_then_err<A>(prev: Result<LiveView, Fault>, xs: Seq<A>, f: spec_fn(LiveView, A) -> Result<LiveView, Fault>)
    requires
        prev is Err,
    ensures
        then_steps(prev, xs, f) == prev,
{
}

impl LiveInitrd {
    fn add_keyfiles(&mut self, ks: &Vec<(String, Vec<u8>)>) -> (r: Result<(), LiveError>)
        requires
            old(self).wf(),
        ensures
            final(self).wf(),
            step_ok(r, fold_steps(old(self)@, named_view(ks@), keyfile_step()), final(self)@),
    {
        let ghost xs = named_view(ks@);
        let ghost start = self@;
        let mut i: usize = 0;
        assert(xs.skip(0) =~= xs);
        while i < ks.len()
            invariant
                self.wf(),
                i <= ks@.len(),
                xs == named_view(ks@),
                start == old(self)@,
                fold_steps(start, xs, keyfile_step()) == fold_steps(self@, xs.skip(i as int), keyfile_step()),
            decreases ks@.len() - i,
        {
            proof {
                lemma_fold_step(self@, xs, i as int, keyfile_step());
            }
            let ghost before = self@;
            assert(xs[i as int] == (ks@[i as int].0@, ks@[i as int].1@));
            assert((keyfile_step())(before, xs[i as int]) == keyfile_spec(before, ks@[i as int].0@, ks@[i as int].1@));
            match self.network_keyfile(ks[i].0.as_str(), crate::io::owned_bytes(ks[i].1.as_slice())) {
                Ok(()) => {},
                Err(e) => return Err(e),
            }
            i += 1;
        }
        assert(xs.skip(i as int) =~= Seq::<(Seq<char>, Seq<u8>)>::empty());
        Ok(())
    }

    fn add_cas(&mut self, ds: &Vec<Vec<u8>>) -> (r: Result<(), LiveError>)
        requires
            old(self).wf(),
        ensures
            final(self).wf(),
            step_ok(r, fold_steps(old(self)@, bytes_view(ds@), ca_step()), final(self)@),
    {
        let ghost xs = bytes_view(ds@);
        let ghost start = self@;
        let mut i: usize = 0;
        assert(xs.skip(0) =~= xs);
        while i < ds.len()
            invariant
                self.wf(),
                i <= ds@.len(),
                xs == bytes_view(ds@),
                start == old(self)@,
                fold_steps(start, xs, ca_step()) == fold_steps(self@, xs.skip(i as int), ca_step()),
            decreases ds@.len() - i,
        {
            proof {
                lemma_fold_step(self@, xs, i as int, ca_step());
            }
            assert(xs[i as int] == ds@[i as int]@);
            match self.ignition_ca(crate::io::owned_bytes(ds[i].as_slice())) {
                Ok(()) => {},
                Err(e) => return Err(e),
            }
            i += 1;
        }
        assert(xs.skip(i as int) =~= Seq::<Seq<u8>>::empty());
        Ok(())
    }

    fn add_pre_hooks(&mut self, ks: &Vec<(String, Vec<u8>)>) -> (r: Result<(), LiveError>)
        requires
            old(self).wf(),
        ensures
            final(self).wf(),
            step_ok(r, fold_steps(old(self)@, named_view(ks@), pre_step()), final(self)@),
    {
        let ghost xs = named_view(ks@);
        let ghost start = self@;
        let mut i: usize = 0;
        assert(xs.skip(0) =~= xs);
        while i < ks.len()
            invariant
                self.wf(),
                i <= ks@.len(),
                xs == named_view(ks@),
                start == old(self)@,
                fold_steps(start, xs, pre_step()) == fold_steps(self@, xs.skip(i as int), pre_step()),
            decreases ks@.len() - i,
        {
            proof {
                lemma_fold_step(self@, xs, i as int, pre_step());
            }
            assert(xs[i as int] == (ks@[i as int].0@, ks@[i as int].1@));
            match self.pre_install(ks[i].0.as_str(), ks[i].1.as_slice()) {
                Ok(()) => {},
                Err(e) => return Err(e),
            }
            i += 1;
        }
        assert(xs.skip(i as int) =~= Seq::<(Seq<char>, Seq<u8>)>::empty());
        Ok(())
    }

    fn add_post_hooks(&mut self, ks: &Vec<(String, Vec<u8>)>) -> (r: Result<(), LiveError>)
        requires
            old(self).wf(),
        ensures
            final(self).wf(),
            step_ok(r, fold_steps(old(self)@, named_view(ks@), post_step()), final(self)@),
    {
        let ghost xs = named_view(ks@);
        let ghost start = self@;
        let mut i: usize = 0;
        assert(xs.skip(0) =~= xs);
        while i < ks.len()
            invariant
                self.wf(),
                i <= ks@.len(),
                xs == named_view(ks@),
                start == old(self)@,
                fold_steps(start, xs, post_step()) == fold_steps(self@, xs.skip(i as int), post_step()),
            decreases ks@.len() - i,
        {
            proof {
                lemma_fold_step(self@, xs, i as int, post_step());
            }
            assert(xs[i as int] == (ks@[i as int].0@, ks@[i as int].1@));
            match self.post_install(ks[i].0.as_str(), ks[i].1.as_slice()) {
                Ok(()) => {},
                Err(e) => return Err(e),
            }
            i += 1;
        }
        assert(xs.skip(i as int) =~= Seq::<(Seq<char>, Seq<u8>)>::empty());
        Ok(())
    }

    fn add_installer_configs(&mut self, ks: &Vec<(String, Vec<u8>)>) -> (r: Result<(), LiveError>)
        requires
            old(self).wf(),
        ensures
            final(self).wf(),
            step_ok(r, fold_steps(old(self)@, named_view(ks@), installer_config_step()), final(self)@),
    {
        let ghost xs = named_view(ks@);
        let ghost start = self@;
        let mut i: usize = 0;
        assert(xs.skip(0) =~= xs);
        while i < ks.len()
            invariant
                self.wf(),
                i <= ks@.len(),
                xs == named_view(ks@),
                start == old(self)@,
                fold_steps(start, xs, installer_config_step()) == fold_steps(self@, xs.skip(i as int), installer_config_step()),
            decreases ks@.len() - i,
        {
            proof {
                lemma_fold_step(self@, xs, i as int, installer_config_step());
            }
            assert(xs[i as int] == (ks@[i as int].0@, ks@[i as int].1@));
            match self.installer_config(ks[i].0.as_str(), ks[i].1.as_slice()) {
                Ok(()) => {},
                Err(e) => return Err(e),
            }
            i += 1;
        }
        assert(xs.skip(i as int) =~= Seq::<(Seq<char>, Seq<u8>)>::empty());
        Ok(())
    }

    fn add_live_configs(&mut self, ds: &Vec<Vec<u8>>) -> (r: Result<(), LiveError>)
        requires
            old(self).wf(),
        ensures
            final(self).wf(),
            step_ok(r, fold_steps(old(self)@, bytes_view(ds@), merge_step()), final(self)@),
    {
        let ghost xs = bytes_view(ds@);
        let ghost start = self@;
        let mut i: usize = 0;
        assert(xs.skip(0) =~= xs);
        while i < ds.len()
            invariant
                self.wf(),
                i <= ds@.len(),
                xs == bytes_view(ds@),
                start == old(self)@,
                fold_steps(start, xs, merge_step()) == fold_steps(self@, xs.skip(i as int), merge_step()),
            decreases ds@.len() - i,
        {
            proof {
                lemma_fold_step(self@, xs, i as int, merge_step());
            }
            assert(xs[i as int] == ds@[i as int]@);
            match self.live_config(ds[i].as_slice()) {
                Ok(()) => {},
                Err(e) => return Err(e),
            }
            i += 1;
        }
        assert(xs.skip(i as int) =~= Seq::<Seq<u8>>::empty());
        Ok(())
    }

    /// The live initrd that the customization options ask for, from the
    /// contents of the files they name.
    pub fn from_common(common: &CommonCustomizeConfig, features: OsFeatures, files: &CustomizeFiles) -> (r: Result<
        Self,
        LiveError,
    >)
        ensures
            r matches Ok(l) ==> l.wf() && from_common_spec(*common, features, *files) == Ok::<
                LiveView,
                Fault,
            >(l@),
            r matches Err(e) ==> e == LiveError::Compress || (from_common_spec(
                *common,
                features,
                *files,
            ) matches Err(f) && reports(f, e)),
            from_common_spec(*common, features, *files) is Err ==> r is Err,
    {
        let mut conf = LiveInitrd::new(features);
        let ghost base = conf@;
        let mut i: usize = 0;
        assert(bytes_view(files.dest_ignition@.take(0)) =~= Seq::<Seq<u8>>::empty());
        while i < files.dest_ignition.len()
            invariant
                conf.wf(),
                i <= files.dest_ignition@.len(),
                conf@ == (LiveView { user_dest: bytes_view(files.dest_ignition@.take(i as int)), ..base }),
            decreases files.dest_ignition@.len() - i,
        {
            conf.dest_ignition(crate::io::owned_bytes(files.dest_ignition[i].as_slice()));
            assert(bytes_view(files.dest_ignition@.take(i + 1)) =~= bytes_view(
                files.dest_ignition@.take(i as int),
            ).push(files.dest_ignition@[i as int]@));
            i += 1;
        }
        assert(files.dest_ignition@.take(i as int) =~= files.dest_ignition@);
        let ghost b1 = conf@;
        match &common.dest_device {
            Some(d) => conf.dest_device(d.as_str()),
            None => {},
        }
        let ghost dev = opt_view(common.dest_device);
        let mut i: usize = 0;
        assert(common.dest_karg_append@.take(0).map_values(|s: String| s@) =~= Seq::<Seq<char>>::empty());
        while i < common.dest_karg_append.len()
            invariant
                conf.wf(),
                i <= common.dest_karg_append@.len(),
                dev == opt_view(common.dest_device),
                conf@ == (LiveView {
                    installer: if dev is Some || i > 0 {
                        Some(
                            InstallerView {
                                dest_device: dev,
                                append_karg: common.dest_karg_append@.take(i as int).map_values(
                                    |s: String| s@,
                                ),
                                ..no_settings()
                            },
                        )
                    } else {
                        None
                    },
                    ..b1
                }),
            decreases common.dest_karg_append@.len() - i,
        {
            let ghost prev = conf@;
            proof {
                if !(dev is Some || i > 0) {
                    assert(common.dest_karg_append@.take(i as int).map_values(|s: String| s@) =~= Seq::<
                        Seq<char>,
                    >::empty());
                }
            }
            conf.dest_karg_append(common.dest_karg_append[i].as_str());
            assert(common.dest_karg_append@.take(i + 1).map_values(|s: String| s@) =~= common.dest_karg_append@.take(
                i as int,
            ).map_values(|s: String| s@).push(common.dest_karg_append@[i as int]@));
            assert(conf@.installer == Some(
                InstallerView {
                    dest_device: dev,
                    append_karg: common.dest_karg_append@.take(i + 1).map_values(|s: String| s@),
                    ..no_settings()
                },
            ));
            i += 1;
        }
        assert(common.dest_karg_append@.take(i as int) =~= common.dest_karg_append@);
        let ghost b2 = b1;
        let ghost apps = common.dest_karg_append@.map_values(|s: String| s@);
        let ghost has = dev is Some || common.dest_karg_append@.len() > 0;
        let mut i: usize = 0;
        assert(common.dest_karg_delete@.take(0).map_values(|s: String| s@) =~= Seq::<Seq<char>>::empty());
        assert(apps =~= common.dest_karg_append@.take(common.dest_karg_append@.len() as int).map_values(
            |s: String| s@,
        ));
        while i < common.dest_karg_delete.len()
            invariant
                conf.wf(),
                i <= common.dest_karg_delete@.len(),
                apps == common.dest_karg_append@.map_values(|s: String| s@),
                dev == opt_view(common.dest_device),
                has == (dev is Some || common.dest_karg_append@.len() > 0),
                conf@ == (LiveView {
                    installer: if has || i > 0 {
                        Some(
                            InstallerView {
                                dest_device: dev,
                                append_karg: apps,
                                delete_karg: common.dest_karg_delete@.take(i as int).map_values(
                                    |s: String| s@,
                                ),
                                ..no_settings()
                            },
                        )
                    } else {
                        None
                    },
                    ..b2
                }),
            decreases common.dest_karg_delete@.len() - i,
        {
            proof {
                if !(has || i > 0) {
                    assert(common.dest_karg_delete@.take(i as int).map_values(|s: String| s@) =~= Seq::<
                        Seq<char>,
                    >::empty());
                    assert(apps =~= Seq::<Seq<char>>::empty());
                }
            }
            conf.dest_karg_delete(common.dest_karg_delete[i].as_str());
            assert(common.dest_karg_delete@.take(i + 1).map_values(|s: String| s@) =~= common.dest_karg_delete@.take(
                i as int,
            ).map_values(|s: String| s@).push(common.dest_karg_delete@[i as int]@));
            assert(conf@.installer == Some(
                InstallerView {
                    dest_device: dev,
                    append_karg: apps,
                    delete_karg: common.dest_karg_delete@.take(i + 1).map_values(|s: String| s@),
                    ..no_settings()
                },
            ));
            i += 1;
        }
        assert(common.dest_karg_delete@.take(i as int) =~= common.dest_karg_delete@);
        assert(conf@ == cmdline_view(*common, features, *files));
        let ghost l0 = conf@;
        let ghost r1 = fold_steps(l0, named_view(files.network_keyfile@), keyfile_step());
        let ghost r2 = then_steps(r1, bytes_view(files.ignition_ca@), ca_step());
        let ghost r3 = then_steps(r2, named_view(files.pre_install@), pre_step());
        let ghost r4 = then_steps(r3, named_view(files.post_install@), post_step());
        let ghost r5 = then_steps(r4, named_view(files.installer_config@), installer_config_step());
        let ghost r6 = then_steps(r5, bytes_view(files.live_ignition@), merge_step());
        assert(r6 == from_common_spec(*common, features, *files));
        match conf.add_keyfiles(&files.network_keyfile) {
            Ok(()) => {},
            Err(e) => {
                proof {
                    if r1 is Err {
                        lemma_then_err(r1, bytes_view(files.ignition_ca@), ca_step());
                        lemma_then_err(r2, named_view(files.pre_install@), pre_step());
                        lemma_then_err(r3, named_view(files.post_install@), post_step());
                        lemma_then_err(r4, named_view(files.installer_config@), installer_config_step());
                        lemma_then_err(r5, bytes_view(files.live_ignition@), merge_step());
                    }
                }
                return Err(e);
            },
        }
        let ghost m1 = conf@;
        match conf.add_cas(&files.ignition_ca) {
            Ok(()) => {},
            Err(e) => {
                proof {
                    if r2 is Err {
                        lemma_then_err(r2, named_view(files.pre_install@), pre_step());
                        lemma_then_err(r3, named_view(files.post_install@), post_step());
                        lemma_then_err(r4, named_view(files.installer_config@), installer_config_step());
                        lemma_then_err(r5, bytes_view(files.live_ignition@), merge_step());
                    }
                }
                return Err(e);
            },
        }
        let ghost m2 = conf@;
        match conf.add_pre_hooks(&files.pre_install) {
            Ok(()) => {},
            Err(e) => {
                proof {
                    if r3 is Err {
                        lemma_then_err(r3, named_view(files.post_install@), post_step());
                        lemma_then_err(r4, named_view(files.installer_config@), installer_config_step());
                        lemma_then_err(r5, bytes_view(files.live_ignition@), merge_step());
                    }
                }
                return Err(e);
            },
        }
        match conf.add_post_hooks(&files.post_install) {
            Ok(()) => {},
            Err(e) => {
                proof {
                    if r4 is Err {
                        lemma_then_err(r4, named_view(files.installer_config@), installer_config_step());
                        lemma_then_err(r5, bytes_view(files.live_ignition@), merge_step());
                    }
                }
                return Err(e);
            },
        }
        match conf.add_installer_configs(&files.installer_config) {
            Ok(()) => {},
            Err(e) => {
                proof {
                    if r5 is Err {
                        lemma_then_err(r5, bytes_view(files.live_ignition@), merge_step());
                    }
                }
                return Err(e);
            },
        }
        match conf.add_live_configs(&files.live_ignition) {
            Ok(()) => {},
            Err(e) => return Err(e),
        }
        Ok(conf)
    }
}

// ---------------------------------------------------------------------
// Finishing: the configs go into each other, then into the initrd
// ---------------------------------------------------------------------
/// The config for the installed system.
pub enum DestConfig {
    /// There is none.
    NoDest,
    /// It is ready as text: the one config the user gave.
    Ready(Vec<u8>),
    /// It is to be turned into JSON text.
    Config(Ignition),
}

pub enum DestView {
    NoDest,
    Ready(Seq<u8>),
    Config(IgnitionView),
}

pub open spec fn dest_view(d: DestConfig) -> DestView {
    match d {
        DestConfig::NoDest => DestView::NoDest,
        DestConfig::Ready(b) => DestView::Ready(b@),
        DestConfig::Config(c) => DestView::Config(c@),
    }
}

pub open spec fn empty_config() -> IgnitionView {
    IgnitionView { files: seq![], units: seq![], cas: seq![], merges: seq![] }
}

/// The installed system's config with the certificate authorities added,
/// which gives it one if there are any.
pub open spec fn dest_with_cas(l: LiveView) -> Option<IgnitionView> {
    if l.dest_ca.len() > 0 {
        let base = match l.dest {
            Some(d) => d,
            None => empty_config(),
        };
        Some(IgnitionView { cas: base.cas + l.dest_ca.map_values(|d: Seq<u8>| resource_for(d)), ..base })
    } else {
        l.dest
    }
}

/// What becomes of the installed system's config, where compression
/// succeeds: none at all; the user's one config as it is; or a config
/// that merges the user's configs.
pub open spec fn prepare_dest_spec(l: LiveView) -> (LiveView, DestView) {
    let after = LiveView { dest: None, user_dest: seq![], dest_ca: seq![], ..l };
    if l.dest is None && l.user_dest.len() == 0 {
        (l, DestView::NoDest)
    } else {
        match dest_with_cas(l) {
            None => if l.user_dest.len() == 1 {
                (after, DestView::Ready(l.user_dest[0].push(10)))
            } else {
                (
                    after,
                    DestView::Config(
                        IgnitionView {
                            merges: l.user_dest.map_values(|d: Seq<u8>| resource_for(d)),
                            ..empty_config()
                        },
                    ),
                )
            },
            Some(d) => (
                after,
                DestView::Config(
                    IgnitionView {
                        merges: d.merges + l.user_dest.map_values(|u: Seq<u8>| resource_for(u)),
                        ..d
                    },
                ),
            ),
        }
    }
}

/// The path of the installed system's config on the live system.
pub open spec fn dest_ign_path() -> Seq<char> {
    "/etc/coreos/dest.ign"@
}

/// Embedding the installed system's config (as text) in the live config
/// and pointing the installer at it.
pub open spec fn embed_dest_spec(l: LiveView, data: Seq<u8>) -> Result<LiveView, Fault> {
    match add_file_spec(l.live, dest_ign_path(), data, 384) {
        Err(f) => Err(f),
        Ok(v) => Ok(
            LiveView {
                live: v,
                installer: Some(
                    InstallerView { ignition_file: Some(dest_ign_path()), ..settings_or_new(l.installer) },
                ),
                ..l
            },
        ),
    }
}

/// The installer will run on the live system.
pub open spec fn installer_runs_spec(l: LiveView) -> bool {
    l.serial > 0 || l.installer is Some
}

/// The installer settings to embed, if any.
pub open spec fn final_settings(l: LiveView) -> Option<InstallerView> {
    if installer_runs_spec(l) && l.copy_network {
        Some(InstallerView { copy_network: true, ..settings_or_new(l.installer) })
    } else {
        l.installer
    }
}

impl LiveInitrd {
    /// Settles the installed system's config: adds the certificate
    /// authorities to it and merges the user's configs into it, or passes
    /// on the user's single config unchanged.
    pub fn prepare_dest(&mut self) -> (r: Result<DestConfig, LiveError>)
        requires
            old(self).wf(),
        ensures
            final(self).wf(),
            r matches Ok(d) ==> (final(self)@, dest_view(d)) == prepare_dest_spec(old(self)@),
            r matches Err(e) ==> e == LiveError::Compress,
    {
        if self.dest.is_none() && self.user_dest.len() == 0 {
            return Ok(DestConfig::NoDest);
        }
        let ghost l = self@;
        let mut cas: Vec<Vec<u8>> = Vec::new();
        std::mem::swap(&mut cas, &mut self.dest_ca);
        let mut user: Vec<Vec<u8>> = Vec::new();
        std::mem::swap(&mut user, &mut self.user_dest);
        let mut dest = self.dest.take();
        assert(self@.user_dest =~= Seq::<Seq<u8>>::empty());
        assert(self@.dest_ca =~= Seq::<Seq<u8>>::empty());
        assert(self@ == LiveView { dest: None, user_dest: seq![], dest_ca: seq![], ..l });
        let ghost after = self@;
        if cas.len() > 0 {
            let mut d = match dest {
                Some(d) => d,
                None => Ignition::new(),
            };
            let ghost d0 = d@;
            let mut i: usize = 0;
            while i < cas.len()
                invariant
                    self.wf(),
                    self@ == after,
                    i <= cas@.len(),
                    d@ == (IgnitionView {
                        cas: d0.cas + bytes_view(cas@).take(i as int).map_values(|x: Seq<u8>| resource_for(x)),
                        ..d0
                    }),
                decreases cas@.len() - i,
            {
                let ghost before = d@;
                match d.add_ca(cas[i].as_slice()) {
                    Ok(()) => {},
                    Err(e) => return Err(e),
                }
                assert(bytes_view(cas@).take(i + 1).map_values(|x: Seq<u8>| resource_for(x)) =~= bytes_view(
                    cas@,
                ).take(i as int).map_values(|x: Seq<u8>| resource_for(x)).push(resource_for(cas@[i as int]@)));
                assert(d@.cas =~= d0.cas + bytes_view(cas@).take(i + 1).map_values(
                    |x: Seq<u8>| resource_for(x),
                ));
                i += 1;
            }
            assert(bytes_view(cas@).take(i as int) =~= l.dest_ca);
            assert(d@ == dest_with_cas(l).unwrap());
            dest = Some(d);
        } else {
            assert(dest_with_cas(l) == l.dest);
        }
        if dest.is_none() && user.len() == 1 {
            let mut u = match user.pop() {
                Some(u) => u,
                None => Vec::new(),
            };
            u.push(10u8);
            return Ok(DestConfig::Ready(u));
        }
        let mut d = match dest {
            Some(d) => d,
            None => Ignition::new(),
        };
        let ghost d0 = d@;
        let mut i: usize = 0;
        while i < user.len()
            invariant
                self.wf(),
                self@ == after,
                i <= user@.len(),
                d@ == (IgnitionView {
                    merges: d0.merges + bytes_view(user@).take(i as int).map_values(|x: Seq<u8>| resource_for(x)),
                    ..d0
                }),
            decreases user@.len() - i,
        {
            match d.merge_config(user[i].as_slice()) {
                Ok(()) => {},
                Err(e) => return Err(e),
            }
            assert(bytes_view(user@).take(i + 1).map_values(|x: Seq<u8>| resource_for(x)) =~= bytes_view(
                user@,
            ).take(i as int).map_values(|x: Seq<u8>| resource_for(x)).push(resource_for(user@[i as int]@)));
            assert(d@.merges =~= d0.merges + bytes_view(user@).take(i + 1).map_values(
                |x: Seq<u8>| resource_for(x),
            ));
            i += 1;
        }
        assert(bytes_view(user@).take(i as int) =~= l.user_dest);
        proof {
            if dest_with_cas(l) is None {
                assert(d0 == empty_config());
                assert(d0.merges + l.user_dest.map_values(|x: Seq<u8>| resource_for(x)) =~= l.user_dest.map_values(
                    |x: Seq<u8>| resource_for(x),
                ));
            }
        }
        Ok(DestConfig::Config(d))
    }

    /// Embeds the installed system's config, as text, in the live config
    /// and points the installer at it.
    pub fn embed_dest(&mut self, data: &[u8]) -> (r: Result<(), LiveError>)
        requires
            old(self).wf(),
        ensures
            final(self).wf(),
            step_ok(r, embed_dest_spec(old(self)@, data@), final(self)@),
    {
        match self.live.add_file(string_of(&chars_of("/etc/coreos/dest.ign")), data, 384) {
            Ok(()) => {},
            Err(e) => return Err(e),
        }
        let mut conf = match self.installer.take() {
            Some(c) => c,
            None => InstallerSettings::new(),
        };
        conf.ignition_file = Some(string_of(&chars_of("/etc/coreos/dest.ign")));
        self.installer = Some(conf);
        Ok(())
    }

    /// Whether the installer will run on the live system.
    pub fn installer_runs(&self) -> (r: bool)
        ensures
            r == installer_runs_spec(self@),
    {
        self.installer_serial > 0 || self.installer.is_some()
    }

    /// The device the installer will install to, if set.
    pub fn installer_device(&self) -> (r: Option<&String>)
        ensures
            match r {
                Some(d) => self@.installer matches Some(i) && i.dest_device == Some(d@),
                None => !(self@.installer matches Some(i) && i.dest_device is Some),
            },
    {
        match &self.installer {
            Some(c) => match &c.dest_device {
                Some(d) => Some(d),
                None => None,
            },
            None => None,
        }
    }

    /// Takes the installer settings to embed, where the installer will
    /// run: network settings copied where keyfiles were given.
    pub fn take_installer(&mut self) -> (r: Option<InstallerSettings>)
        requires
            old(self).wf(),
        ensures
            final(self).wf(),
            final(self)@ == (LiveView { installer: None, ..old(self)@ }),
            match r {
                Some(c) => final_settings(old(self)@) == Some(c@),
                None => final_settings(old(self)@) is None,
            },
    {
        if (self.installer_serial > 0 || self.installer.is_some()) && self.installer_copy_network {
            let mut conf = match self.installer.take() {
                Some(c) => c,
                None => InstallerSettings::new(),
            };
            conf.copy_network = true;
            return Some(conf);
        }
        self.installer.take()
    }

    /// The live system's config.
    pub fn live(&self) -> (r: &Ignition)
        ensures
            r@ == self@.live,
    {
        &self.live
    }

    /// The initrd, with the live system's config (given as JSON text) in
    /// it.
    pub fn into_initrd(self, live_json: Vec<u8>) -> (r: Initrd)
        requires
            self.wf(),
        ensures
            r.wf(),
            r.files() == self@.files.insert("config.ign"@, live_json@.push(10)),
    {
        proof {
            reveal_strlit("config.ign");
        }
        let mut data = live_json;
        data.push(10u8);
        let mut initrd = self.initrd;
        initrd.add("config.ign", data);
        initrd
    }
}

} // verus!

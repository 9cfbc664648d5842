//! Customizing a live image: what the `iso` and `pxe` subcommands change in
//! the image's embed areas, and what they refuse.

use crate::bls::{apply_spec, strings_view, KargsEditor, KargsEditorSpec, KargsError};
use crate::cmdline::{
    IsoCustomizeConfig, IsoIgnitionEmbedConfig, IsoIgnitionRemoveConfig, IsoKargsModifyConfig,
    IsoKargsResetConfig, IsoNetworkEmbedConfig, IsoNetworkExtractConfig, IsoNetworkRemoveConfig,
    IsoResetConfig, PxeNetworkWrapConfig,
};
use crate::embed::{
    ignition_path, is_network_file, network_glob, network_matcher, without_network, EmbedError,
    IsoConfig,
};
use crate::initrd::{archive_spec, xz_cpio_archive, Initrd};
use crate::text::{
    ascii_words, ascii_words_exec, chars_of, extend_chars, starts_with, starts_with_exec, string_of,
    trim,
};
use vstd::prelude::*;
use vstd::utf8::encode_utf8;

verus! {

/// Why a live image or initrd could not be customized.
#[derive(Debug, Clone, PartialEq, Eq)]
pub enum LiveError {
    /// An Ignition config is already embedded and `--force` was not given.
    IgnitionPresent,
    /// Network settings are already embedded and `--force` was not given.
    NetworkPresent,
    /// The image is already customized and `--force` was not given.
    AlreadyCustomized,
    /// The OS image cannot take network settings.
    NetworkUnsupported,
    /// The OS image cannot take live kernel arguments.
    LiveKargsUnsupported,
    /// An input path has no file name.
    MissingFilename { path: String },
    /// Two inputs have the same file name.
    DuplicateName { name: String },
    /// There are no embedded network settings.
    NoNetworkSettings,
    /// A kernel argument edit failed.
    Kargs(KargsError),
    /// An embed area could not be updated.
    Embed(EmbedError),
    /// The initrd archive could not be written.
    Archive,
    /// The base initrd is not a live initramfs.
    NotLiveInitrd,
    /// The minimal ISO has no `coreos.liveiso=` karg.
    NoLiveisoKarg,
    /// The rootfs URL holds whitespace.
    ForbiddenWhitespace { url: String },
    /// A config already writes this path.
    DuplicatePath { path: String },
    /// A config already installs this unit.
    DuplicateUnit { name: String },
    /// Data could not be compressed for a config.
    Compress,
    /// The OS image cannot take installer configs.
    InstallerConfigUnsupported,
    /// A keyfile of this name is already in the initrd.
    DuplicateKeyfile { name: String },
    /// Installer configs are numbered past the 32-bit range.
    TooManyConfigs,
}

/// The final component of a path, as `Path::file_name` gives it.
pub uninterp spec fn path_file_name(path: Seq<char>) -> Option<Seq<char>>;

/// `std::path::Path::file_name`, as an owned string: the final component
/// of the path, `None` where the path ends in `..` or has no component.
#[verifier::external_body]
pub(crate) fn file_name_of(path: &str) -> (r: Option<String>)
    ensures
        match r {
            Some(n) => path_file_name(path@) == Some(n@),
            None => path_file_name(path@) is None,
        },
{
    std::path::Path::new(path).file_name().map(|n| n.to_string_lossy().into_owned())
}

/// The file name of `path`.
pub fn filename(path: &str) -> (r: Result<String, LiveError>)
    ensures
        match path_file_name(path@) {
            Some(n) => r matches Ok(s) && s@ == n,
            None => r matches Err(LiveError::MissingFilename { path: p }) && p@ == path@,
        },
{
    match file_name_of(path) {
        Some(n) => Ok(n),
        None => Err(LiveError::MissingFilename { path: path.to_owned() }),
    }
}

/// Where a network keyfile named `name` goes in the initrd.
pub open spec fn network_path(name: Seq<char>) -> Seq<char> {
    "etc/coreos-firstboot-network/"@ + name
}

/// The initrd files after embedding the keyfiles `files[i..]` (path and
/// contents), or the error that stops it.
pub open spec fn network_embed_spec(
    files: Map<Seq<char>, Seq<u8>>,
    keyfiles: Seq<(Seq<char>, Seq<u8>)>,
) -> Result<Map<Seq<char>, Seq<u8>>, LiveError>
    decreases keyfiles.len(),
{
    if keyfiles.len() == 0 {
        Ok(files)
    } else {
        match path_file_name(keyfiles[0].0) {
            None => Err(LiveError::MissingFilename { path: arbitrary() }),
            Some(n) => if files.contains_key(network_path(n)) {
                Err(LiveError::DuplicateName { name: arbitrary() })
            } else {
                network_embed_spec(files.insert(network_path(n), keyfiles[0].1), keyfiles.drop_first())
            },
        }
    }
}

/// Embedding keyfiles adds each of them, by file name, with its contents,
/// keeps every file that was there, and adds nothing else.
pub proof fn lemma_network_embed_adds_all(files: Map<Seq<char>, Seq<u8>>, ks: Seq<(Seq<char>, Seq<u8>)>)
    requires
        network_embed_spec(files, ks) is Ok,
    ensures
        ({
            let f = network_embed_spec(files, ks)->Ok_0;
            &&& forall|i: int|
                0 <= i < ks.len() ==> (#[trigger] path_file_name(ks[i].0)) is Some && f.contains_key(
                    network_path(path_file_name(ks[i].0)->Some_0),
                ) && f[network_path(path_file_name(ks[i].0)->Some_0)] == ks[i].1
            &&& forall|p: Seq<char>| #[trigger] files.contains_key(p) ==> f.contains_key(p) && f[p] == files[p]
            &&& forall|p: Seq<char>|
                #[trigger] f.contains_key(p) ==> files.contains_key(p) || exists|i: int|
                    0 <= i < ks.len() && p == network_path(#[trigger] path_file_name(ks[i].0)->Some_0)
        }),
    decreases ks.len(),
{
    if ks.len() > 0 {
        let n = path_file_name(ks[0].0)->Some_0;
        let files1 = files.insert(network_path(n), ks[0].1);
        let rest = ks.drop_first();
        lemma_network_embed_adds_all(files1, rest);
        let f = network_embed_spec(files, ks)->Ok_0;
        assert(f == network_embed_spec(files1, rest)->Ok_0);
        assert forall|i: int|
            0 <= i < ks.len() implies (#[trigger] path_file_name(ks[i].0)) is Some && f.contains_key(
                network_path(path_file_name(ks[i].0)->Some_0),
            ) && f[network_path(path_file_name(ks[i].0)->Some_0)] == ks[i].1 by {
            if i > 0 {
                assert(rest[i - 1] == ks[i]);
                assert(path_file_name(rest[i - 1].0) is Some);
            } else {
                assert(files1.contains_key(network_path(n)));
            }
        }
        assert(!files.contains_key(network_path(n)));
        assert forall|p: Seq<char>| #[trigger] files.contains_key(p) implies f.contains_key(p) && f[p] == files[p] by {
            assert(p != network_path(n));
            assert(files1.contains_key(p) && files1[p] == files[p]);
        }
        assert forall|p: Seq<char>| #[trigger] f.contains_key(p) implies files.contains_key(p) || exists|i: int|
            0 <= i < ks.len() && p == network_path(#[trigger] path_file_name(ks[i].0)->Some_0) by {
            if !files1.contains_key(p) {
                let j = choose|j: int|
                    0 <= j < rest.len() && p == network_path(#[trigger] path_file_name(rest[j].0)->Some_0);
                assert(rest[j] == ks[j + 1]);
                assert(p == network_path(path_file_name(ks[j + 1].0)->Some_0));
            } else if !files.contains_key(p) {
                assert(p == network_path(n));
                assert(p == network_path(path_file_name(ks[0].0)->Some_0));
            }
        }
    }
}

/// Errors compare by variant only in `network_embed_spec`.
pub open spec fn same_error(a: LiveError, b: LiveError) -> bool {
    match (a, b) {
        (LiveError::MissingFilename { .. }, LiveError::MissingFilename { .. }) => true,
        (LiveError::DuplicateName { .. }, LiveError::DuplicateName { .. }) => true,
        _ => a == b,
    }
}

/// Adds each keyfile (its path and contents) under the network settings
/// directory, by file name; two keyfiles with one name are refused.
pub fn initrd_network_embed(initrd: &mut Initrd, keyfiles: &[(String, Vec<u8>)]) -> (r: Result<
    (),
    LiveError,
>)
    requires
        old(initrd).wf(),
    ensures
        final(initrd).wf(),
        ({
            let spec = network_embed_spec(
                old(initrd).files(),
                keyfiles@.map_values(|k: (String, Vec<u8>)| (k.0@, k.1@)),
            );
            match (r, spec) {
                (Ok(_), Ok(f)) => final(initrd).files() == f,
                (Err(e1), Err(e2)) => same_error(e1, e2),
                _ => false,
            }
        }),
{
    let ghost ks = keyfiles@.map_values(|k: (String, Vec<u8>)| (k.0@, k.1@));
    let mut i: usize = 0;
    assert(ks.skip(0) =~= ks);
    while i < keyfiles.len()
        invariant
            initrd.wf(),
            i <= keyfiles@.len(),
            ks == keyfiles@.map_values(|k: (String, Vec<u8>)| (k.0@, k.1@)),
            network_embed_spec(old(initrd).files(), ks) == network_embed_spec(
                initrd.files(),
                ks.skip(i as int),
            ),
        decreases keyfiles@.len() - i,
    {
        let ghost rest = ks.skip(i as int);
        assert(rest[0] == ks[i as int]);
        assert(rest.drop_first() =~= ks.skip(i + 1));
        let name = match filename(keyfiles[i].0.as_str()) {
            Ok(n) => n,
            Err(e) => return Err(e),
        };
        let mut p = chars_of("etc/coreos-firstboot-network/");
        proof {
            reveal_strlit("etc/coreos-firstboot-network/");
        }
        extend_chars(&mut p, chars_of(name.as_str()).as_slice());
        let path = string_of(&p);
        assert(path@ == network_path(name@));
        if initrd.get(path.as_str()).is_some() {
            return Err(LiveError::DuplicateName { name });
        }
        let c = keyfiles[i].1.clone();
        assert(c@ =~= keyfiles@[i as int].1@);
        initrd.add(path.as_str(), c);
        i += 1;
    }
    assert(ks.skip(i as int) =~= Seq::<(Seq<char>, Seq<u8>)>::empty());
    Ok(())
}

/// The kargs edit of `iso kargs modify`: appends, then replacements, then
/// deletions, as the editor orders them.
pub open spec fn modify_editor(config: &IsoKargsModifyConfig) -> KargsEditorSpec {
    KargsEditorSpec {
        append: strings_view(config.append@),
        append_if_missing: seq![],
        replace: strings_view(config.replace@),
        delete: strings_view(config.delete@),
    }
}

fn editor_for(append: &Vec<String>, replace: &Vec<String>, delete: &Vec<String>) -> (r: KargsEditor)
    ensures
        r@ == (KargsEditorSpec {
            append: strings_view(append@),
            append_if_missing: seq![],
            replace: strings_view(replace@),
            delete: strings_view(delete@),
        }),
{
    let mut e = KargsEditor::new();
    e.append(append.as_slice());
    e.replace(replace.as_slice());
    e.delete(delete.as_slice());
    assert(e@.append =~= strings_view(append@));
    assert(e@.append_if_missing =~= Seq::<Seq<char>>::empty());
    assert(e@.replace =~= strings_view(replace@));
    assert(e@.delete =~= strings_view(delete@));
    e
}

/// `iso kargs modify`: edits the current live kargs.
pub fn iso_kargs_modify(iso: &mut IsoConfig, config: &IsoKargsModifyConfig) -> (r: Result<
    (),
    LiveError,
>)
    ensures
        final(iso).initrd_area() == old(iso).initrd_area(),
        match old(iso).karg_areas() {
            None => r == Err::<(), LiveError>(LiveError::Embed(EmbedError::KargsUnsupported)),
            Some(k) => match apply_spec(modify_editor(config), k.args()) {
                Err(e) => r == Err::<(), LiveError>(LiveError::Kargs(e)) && final(iso).karg_areas()
                    == old(iso).karg_areas(),
                Ok(new) => {
                    let f = encode_utf8(trim(new).push('\n'));
                    &&& final(iso).karg_areas() matches Some(k2)
                    &&& crate::embed::same_places(k2, k)
                    &&& f.len() <= k.length() ==> r is Ok && k2.args() == trim(new)
                    &&& f.len() > k.length() ==> r matches Err(LiveError::Embed(EmbedError::KargsTooLarge { .. }))
                },
            },
        },
{
    let cur = match iso.kargs() {
        Ok(k) => k.to_owned(),
        Err(e) => return Err(LiveError::Embed(e)),
    };
    let editor = editor_for(&config.append, &config.replace, &config.delete);
    let kargs = match editor.apply_to(cur.as_str()) {
        Ok(k) => k,
        Err(e) => return Err(LiveError::Kargs(e)),
    };
    match iso.set_kargs(kargs.as_str()) {
        Ok(()) => Ok(()),
        Err(e) => Err(LiveError::Embed(e)),
    }
}

/// `iso kargs reset`: restores the default live kargs.
pub fn iso_kargs_reset(iso: &mut IsoConfig, config: &IsoKargsResetConfig) -> (r: Result<
    (),
    LiveError,
>)
    ensures
        final(iso).initrd_area() == old(iso).initrd_area(),
        match old(iso).karg_areas() {
            None => r == Err::<(), LiveError>(LiveError::Embed(EmbedError::KargsUnsupported)),
            Some(k) => {
                let f = encode_utf8(trim(k.default()).push('\n'));
                &&& final(iso).karg_areas() matches Some(k2)
                &&& crate::embed::same_places(k2, k)
                &&& f.len() <= k.length() ==> r is Ok && k2.args() == trim(k.default())
                &&& f.len() > k.length() ==> r matches Err(LiveError::Embed(EmbedError::KargsTooLarge { .. }))
            },
        },
{
    let d = match iso.kargs_default() {
        Ok(k) => k.to_owned(),
        Err(e) => return Err(LiveError::Embed(e)),
    };
    match iso.set_kargs(d.as_str()) {
        Ok(()) => Ok(()),
        Err(e) => Err(LiveError::Embed(e)),
    }
}

/// `iso ignition embed`: embeds an Ignition config, refusing to replace
/// one unless forced.
pub fn iso_ignition_embed(
    iso: &mut IsoConfig,
    config: &IsoIgnitionEmbedConfig,
    ignition: Vec<u8>,
) -> (r: Result<(), LiveError>)
    requires
        old(iso).wf(),
    ensures
        final(iso).wf(),
        final(iso).karg_areas() == old(iso).karg_areas(),
        !config.force && old(iso).files().contains_key(ignition_path()) ==> r == Err::<(), LiveError>(
            LiveError::IgnitionPresent,
        ) && final(iso).files() == old(iso).files(),
        config.force || !old(iso).files().contains_key(ignition_path()) ==> r is Ok
            && final(iso).files() == old(iso).files().insert(ignition_path(), ignition@),
{
    if !config.force && iso.have_ignition() {
        return Err(LiveError::IgnitionPresent);
    }
    iso.set_ignition(ignition);
    Ok(())
}

/// `iso ignition remove`: removes the embedded Ignition config.
pub fn iso_ignition_remove(iso: &mut IsoConfig, config: &IsoIgnitionRemoveConfig)
    requires
        old(iso).wf(),
    ensures
        final(iso).wf(),
        final(iso).karg_areas() == old(iso).karg_areas(),
        final(iso).files() == old(iso).files().remove(ignition_path()),
{
    proof {
        reveal_strlit("config.ign");
    }
    iso.initrd_mut().remove("config.ign");
}

/// `iso network remove`: removes the embedded network settings.
pub fn iso_network_remove(iso: &mut IsoConfig, config: &IsoNetworkRemoveConfig)
    requires
        old(iso).wf(),
    ensures
        final(iso).wf(),
        final(iso).karg_areas() == old(iso).karg_areas(),
        final(iso).files() == without_network(old(iso).files()),
{
    iso.remove_network();
}

/// `iso network embed`: replaces the embedded network settings with the
/// keyfiles (path and contents), where the OS image supports it.
pub fn iso_network_embed(
    iso: &mut IsoConfig,
    config: &IsoNetworkEmbedConfig,
    live_initrd_network: bool,
    keyfiles: &[(String, Vec<u8>)],
) -> (r: Result<(), LiveError>)
    requires
        old(iso).wf(),
    ensures
        final(iso).wf(),
        final(iso).karg_areas() == old(iso).karg_areas(),
        !live_initrd_network ==> r == Err::<(), LiveError>(LiveError::NetworkUnsupported),
        live_initrd_network && !config.force && (exists|p: Seq<char>|
            old(iso).files().contains_key(p) && is_network_file(p)) ==> r == Err::<(), LiveError>(
            LiveError::NetworkPresent,
        ),
        r is Ok ==> network_embed_spec(
            without_network(old(iso).files()),
            keyfiles@.map_values(|k: (String, Vec<u8>)| (k.0@, k.1@)),
        ) == Ok::<Map<Seq<char>, Seq<u8>>, LiveError>(final(iso).files()),
        live_initrd_network && (config.force || !(exists|p: Seq<char>|
            old(iso).files().contains_key(p) && is_network_file(p))) && network_embed_spec(
            without_network(old(iso).files()),
            keyfiles@.map_values(|k: (String, Vec<u8>)| (k.0@, k.1@)),
        ) is Ok ==> r is Ok,
{
    if !live_initrd_network {
        return Err(LiveError::NetworkUnsupported);
    }
    if !config.force && iso.have_network() {
        return Err(LiveError::NetworkPresent);
    }
    iso.remove_network();
    initrd_network_embed(iso.initrd_mut(), keyfiles)
}

/// Keeping some of a run of entries with distinct paths keeps the paths
/// distinct.
proof fn lemma_filter_distinct_paths(
    es: Seq<(Seq<char>, Seq<u8>)>,
    pred: spec_fn((Seq<char>, Seq<u8>)) -> bool,
)
    requires
        forall|i: int, j: int| 0 <= i < j < es.len() ==> #[trigger] es[i].0 != #[trigger] es[j].0,
    ensures
        forall|i: int, j: int|
            0 <= i < j < es.filter(pred).len() ==> #[trigger] es.filter(pred)[i].0 != #[trigger] es.filter(
                pred,
            )[j].0,
    decreases es.len(),
{
    reveal(Seq::filter);
    if es.len() > 0 {
        let p = es.drop_last();
        assert forall|i: int, j: int| 0 <= i < j < p.len() implies #[trigger] p[i].0 != #[trigger] p[j].0 by {
            assert(p[i] == es[i] && p[j] == es[j]);
        }
        lemma_filter_distinct_paths(p, pred);
        let f = p.filter(pred);
        if pred(es.last()) {
            let g = f.push(es.last());
            assert(es.filter(pred) == g);
            assert forall|i: int, j: int| 0 <= i < j < g.len() implies #[trigger] g[i].0 != #[trigger] g[j].0 by {
                if j == g.len() - 1 {
                    assert(g[i] == f[i]);
                    assert(f.contains(f[i]));
                    p.lemma_filter_contains_rev(pred, f[i]);
                    let k = choose|k: int| 0 <= k < p.len() && p[k] == f[i];
                    assert(es[k] == p[k]);
                    assert(es[k].0 != es[es.len() - 1].0);
                } else {
                    assert(g[i] == f[i] && g[j] == f[j]);
                }
            }
        } else {
            assert(es.filter(pred) == f);
        }
    }
}

/// Names and contents, as text and bytes.
pub open spec fn named_files_view(v: Seq<(String, Vec<u8>)>) -> Seq<(Seq<char>, Seq<u8>)> {
    v.map_values(|e: (String, Vec<u8>)| (e.0@, e.1@))
}

/// `v` lists the network files of `files`: one entry per file, by the
/// file's name, with its contents, each file once.
pub open spec fn lists_network_files(
    files: Map<Seq<char>, Seq<u8>>,
    v: Seq<(Seq<char>, Seq<u8>)>,
    ps: Seq<Seq<char>>,
) -> bool {
    &&& ps.len() == v.len()
    &&& ps.no_duplicates()
    &&& forall|i: int|
        0 <= i < ps.len() ==> files.contains_key(#[trigger] ps[i]) && is_network_file(ps[i])
            && path_file_name(ps[i]) == Some(v[i].0) && files[ps[i]] == v[i].1
    &&& forall|p: Seq<char>| files.contains_key(p) && is_network_file(p) ==> #[trigger] ps.contains(p)
}

/// A listing of the network files has one entry for each network file
/// of the initrd: as many entries as there are such files.
pub proof fn lemma_listing_counts(files: Map<Seq<char>, Seq<u8>>, v: Seq<(Seq<char>, Seq<u8>)>, ps: Seq<Seq<char>>)
    requires
        lists_network_files(files, v, ps),
    ensures
        v.len() == files.dom().filter(|p: Seq<char>| is_network_file(p)).len(),
{
    let net = files.dom().filter(|p: Seq<char>| is_network_file(p));
    ps.unique_seq_to_set();
    assert forall|p: Seq<char>| #[trigger] ps.to_set().contains(p) <==> net.contains(p) by {
        if ps.to_set().contains(p) {
            let i = choose|i: int| 0 <= i < ps.len() && ps[i] == p;
            assert(files.contains_key(ps[i]) && is_network_file(ps[i]));
        }
        if net.contains(p) {
            assert(ps.contains(p));
        }
    }
    assert(ps.to_set() =~= net);
}

/// `iso network extract` and `pxe network unwrap`: the embedded network
/// settings, as file name and contents.
pub fn initrd_network_extract(initrd: &Initrd) -> (r: Result<Vec<(String, Vec<u8>)>, LiveError>)
    requires
        initrd.wf(),
    ensures
        !(exists|p: Seq<char>|
            initrd.files().contains_key(p) && is_network_file(p)) ==> r
            == Err::<Vec<(String, Vec<u8>)>, LiveError>(LiveError::NoNetworkSettings),
        r matches Ok(v) ==> v@.len() > 0 && forall|i: int|
            #![trigger v@[i]]
            0 <= i < v@.len() ==> exists|p: Seq<char>|
            #![trigger initrd.files()[p]]
            initrd.files().contains_key(p) && is_network_file(p) && path_file_name(p) == Some(
                v@[i].0@,
            ) && initrd.files()[p] == v@[i].1@,        r matches Ok(v) ==> exists|ps: Seq<Seq<char>>|
            #[trigger] lists_network_files(initrd.files(), named_files_view(v@), ps),
{
    let g = network_matcher();
    let found = initrd.find(&g);
    let ghost es = initrd.entries();
    let ghost pred = |e: (Seq<char>, Seq<u8>)| g.matches_spec(e.0);
    let ghost fs = found@.map_values(|m: (String, Vec<u8>)| (m.0@, m.1@));
    proof {
        initrd.lemma_files_entries();
        crate::embed::lemma_network_matcher(g);
    }
    if found.len() == 0 {
        proof {
            assert forall|p: Seq<char>| !(initrd.files().contains_key(p) && is_network_file(p)) by {
                if initrd.files().contains_key(p) && is_network_file(p) {
                    let i = choose|i: int| 0 <= i < es.len() && #[trigger] es[i].0 == p;
                    es.lemma_filter_contains(pred, i);
                }
            }
        }
        return Err(LiveError::NoNetworkSettings);
    }
    proof {
        es.lemma_filter_pred(pred, 0);
        let e = fs[0];
        assert(es.filter(pred).contains(e));
        es.lemma_filter_contains_rev(pred, e);
        assert(initrd.files().contains_key(e.0) && is_network_file(e.0));
    }
    let mut out: Vec<(String, Vec<u8>)> = Vec::new();
    let mut i: usize = 0;
    while i < found.len()
        invariant
            i <= found@.len(),
            out@.len() == i,
            exists|p: Seq<char>| initrd.files().contains_key(p) && is_network_file(p),
            fs == found@.map_values(|m: (String, Vec<u8>)| (m.0@, m.1@)),
            fs == es.filter(pred),
            forall|k: int|
                0 <= k < i ==> path_file_name(fs[k].0) == Some(#[trigger] out@[k].0@) && out@[k].1@
                    == fs[k].1,
        decreases found@.len() - i,
    {
        let name = match filename(found[i].0.as_str()) {
            Ok(n) => n,
            Err(e) => return Err(e),
        };
        let c = found[i].1.clone();
        assert(c@ =~= found@[i as int].1@);
        out.push((name, c));
        i += 1;
    }
    proof {
        assert forall|i: int| #![trigger out@[i]] 0 <= i < out@.len() implies exists|p: Seq<char>|
            #![trigger initrd.files()[p]]
            initrd.files().contains_key(p) && is_network_file(p) && path_file_name(p) == Some(
                out@[i].0@,
            ) && initrd.files()[p] == out@[i].1@ by {
            es.lemma_filter_pred(pred, i);
            let e = fs[i];
            assert(es.filter(pred).contains(e));
            es.lemma_filter_contains_rev(pred, e);
            let j = choose|j: int| 0 <= j < es.len() && es[j] == e;
            assert(initrd.files()[es[j].0] == es[j].1);
            assert(is_network_file(e.0));
            assert(path_file_name(e.0) == Some(out@[i].0@));
            assert(initrd.files().contains_key(e.0) && initrd.files()[e.0] == out@[i].1@);
        }
        let ps = fs.map_values(|e: (Seq<char>, Seq<u8>)| e.0);
        let vv = named_files_view(out@);
        initrd.lemma_entries_distinct();
        lemma_filter_distinct_paths(es, pred);
        assert forall|i: int, j: int| 0 <= i < ps.len() && 0 <= j < ps.len() && i != j implies ps[i] != ps[j] by {
            if i < j {
                assert(fs[i].0 != fs[j].0);
            } else {
                assert(fs[j].0 != fs[i].0);
            }
        }
        assert forall|i: int| 0 <= i < ps.len() implies initrd.files().contains_key(#[trigger] ps[i])
            && is_network_file(ps[i]) && path_file_name(ps[i]) == Some(vv[i].0) && initrd.files()[ps[i]]
            == vv[i].1 by {
            es.lemma_filter_pred(pred, i);
            let e = fs[i];
            assert(es.filter(pred).contains(e));
            es.lemma_filter_contains_rev(pred, e);
            let j = choose|j: int| 0 <= j < es.len() && es[j] == e;
            assert(initrd.files()[es[j].0] == es[j].1);
            assert(ps[i] == e.0);
        }
        assert forall|p: Seq<char>| initrd.files().contains_key(p) && is_network_file(p) implies #[trigger] ps.contains(p) by {
            let j = choose|j: int| 0 <= j < es.len() && #[trigger] es[j].0 == p;
            assert(pred(es[j]));
            es.lemma_filter_contains(pred, j);
            let k = choose|k: int| 0 <= k < fs.len() && fs[k] == es[j];
            assert(ps[k] == p);
        }
        assert(lists_network_files(initrd.files(), vv, ps));
    }
    Ok(out)
}

/// `pxe network wrap`: an initrd archive holding only the keyfiles.
pub fn pxe_network_wrap(config: &PxeNetworkWrapConfig, keyfiles: &[(String, Vec<u8>)]) -> (r: Result<
    Vec<u8>,
    LiveError,
>)
    ensures
        match network_embed_spec(
            Map::empty(),
            keyfiles@.map_values(|k: (String, Vec<u8>)| (k.0@, k.1@)),
        ) {
            Err(e) => r matches Err(e2) && same_error(e, e2),
            Ok(files) => r matches Ok(b) ==> exists|i: Initrd|
                i.wf() && i.files() == files && b@ == xz_cpio_archive(archive_spec(i.entries(), seq![])),
        },
{
    let mut initrd = Initrd::new();
    match initrd_network_embed(&mut initrd, keyfiles) {
        Ok(()) => {},
        Err(e) => return Err(e),
    }
    match initrd.to_bytes() {
        Ok(b) => Ok(b),
        Err(_) => Err(LiveError::Archive),
    }
}

/// `pxe ignition wrap`: an initrd archive holding only the Ignition
/// config.
pub fn pxe_ignition_wrap(ignition: Vec<u8>) -> (r: Result<Vec<u8>, LiveError>)
    ensures
        r matches Ok(b) ==> exists|i: Initrd|
            i.wf() && i.files() == Map::<Seq<char>, Seq<u8>>::empty().insert(ignition_path(), ignition@)
                && b@ == xz_cpio_archive(archive_spec(i.entries(), seq![])),
        r matches Err(e) ==> e == LiveError::Archive,
{
    proof {
        reveal_strlit("config.ign");
    }
    let mut initrd = Initrd::new();
    let ghost contents = ignition@;
    initrd.add("config.ign", ignition);
    assert(initrd.files() =~= Map::<Seq<char>, Seq<u8>>::empty().insert(ignition_path(), contents));
    match initrd.to_bytes() {
        Ok(b) => Ok(b),
        Err(_) => Err(LiveError::Archive),
    }
}

/// `pxe ignition unwrap`: the Ignition config in an initrd.
pub fn pxe_ignition_unwrap(initrd: &Initrd) -> (r: Option<&[u8]>)
    requires
        initrd.wf(),
    ensures
        match r {
            Some(c) => initrd.files().contains_key(ignition_path()) && c@ == initrd.files()[ignition_path()],
            None => !initrd.files().contains_key(ignition_path()),
        },
{
    proof {
        reveal_strlit("config.ign");
    }
    initrd.get("config.ign")
}

/// The ISO is as it was built: nothing embedded in its initrd area and
/// its kargs the default ones. A minimal ISO is extracted only from such
/// an image, whose digests match those recorded at packing.
pub fn check_unmodified(iso: &IsoConfig) -> (r: Result<(), LiveError>)
    requires
        iso.wf(),
    ensures
        iso.files() != Map::<Seq<char>, Seq<u8>>::empty() ==> r == Err::<(), LiveError>(
            LiveError::AlreadyCustomized,
        ),
        iso.files() == Map::<Seq<char>, Seq<u8>>::empty() ==> match iso.karg_areas() {
            None => r == Err::<(), LiveError>(LiveError::Embed(EmbedError::KargsUnsupported)),
            Some(k) => if k.args() == k.default() {
                r is Ok
            } else {
                r == Err::<(), LiveError>(LiveError::AlreadyCustomized)
            },
        },
{
    if !iso.initrd().is_empty() {
        return Err(LiveError::AlreadyCustomized);
    }
    let kargs = match iso.kargs() {
        Ok(k) => k,
        Err(e) => return Err(LiveError::Embed(e)),
    };
    let default = match iso.kargs_default() {
        Ok(k) => k,
        Err(e) => return Err(LiveError::Embed(e)),
    };
    if !crate::text::chars_eq(&chars_of(kargs), &chars_of(default)) {
        return Err(LiveError::AlreadyCustomized);
    }
    Ok(())
}

/// `iso reset`: removes every customization.
pub fn iso_reset(iso: &mut IsoConfig, config: &IsoResetConfig) -> (r: Result<(), LiveError>)
    requires
        old(iso).wf(),
    ensures
        final(iso).wf(),
        final(iso).files() == Map::<Seq<char>, Seq<u8>>::empty(),
        old(iso).karg_areas() is None ==> r is Ok && final(iso).karg_areas() is None,
        old(iso).karg_areas() matches Some(k) ==> ({
            let f = encode_utf8(trim(k.default()).push('\n'));
            &&& final(iso).karg_areas() matches Some(k2)
            &&& f.len() <= k.length() ==> r is Ok && k2.args() == trim(k.default())
            &&& f.len() > k.length() ==> r matches Err(LiveError::Embed(EmbedError::KargsTooLarge { .. }))
        }),
{
    *iso.initrd_mut() = Initrd::new();
    if iso.kargs_supported() {
        let d = match iso.kargs_default() {
            Ok(k) => k.to_owned(),
            Err(e) => return Err(LiveError::Embed(e)),
        };
        match iso.set_kargs(d.as_str()) {
            Ok(()) => {},
            Err(e) => return Err(LiveError::Embed(e)),
        }
    }
    Ok(())
}


/// The kargs edit of `iso customize`: appends, replacements and deletions
/// of the live kargs.
pub open spec fn customize_editor(config: &IsoCustomizeConfig) -> KargsEditorSpec {
    KargsEditorSpec {
        append: strings_view(config.live_karg_append@),
        append_if_missing: seq![],
        replace: strings_view(config.live_karg_replace@),
        delete: strings_view(config.live_karg_delete@),
    }
}

/// The image has an Ignition config, network settings, or changed kargs.
pub open spec fn is_customized(iso: IsoConfig) -> bool {
    ||| iso.files().contains_key(ignition_path())
    ||| (exists|p: Seq<char>| iso.files().contains_key(p) && is_network_file(p))
    ||| (iso.karg_areas() matches Some(k) && k.args() != k.default())
}

/// `iso customize`: installs `initrd`, the live initrd built from the
/// customizations, and applies the live kargs edits to the default kargs.
/// Refused on an image that is already customized, unless forced.
pub fn iso_customize(iso: &mut IsoConfig, config: &IsoCustomizeConfig, initrd: Initrd) -> (r: Result<
    (),
    LiveError,
>)
    requires
        old(iso).wf(),
        initrd.wf(),
    ensures
        final(iso).wf(),
        !config.force && is_customized(*old(iso)) ==> r == Err::<
            (),
            LiveError,
        >(LiveError::AlreadyCustomized),
        r is Ok ==> final(iso).files() == initrd.files(),
        r is Ok && editor_is_empty_spec(customize_editor(config)) ==> final(iso).karg_areas()
            == old(iso).karg_areas(),
        r is Ok && !editor_is_empty_spec(customize_editor(config)) ==> (old(iso).karg_areas() matches Some(k)
            && apply_spec(customize_editor(config), k.default()) matches Ok(new)
            && (final(iso).karg_areas() matches Some(k2) && k2.args() == trim(new))),
        (config.force || !is_customized(*old(iso))) && !editor_is_empty_spec(customize_editor(config))
            && old(iso).karg_areas() is None ==> r == Err::<(), LiveError>(
            LiveError::LiveKargsUnsupported,
        ),
{
    if !config.force {
        let customized = iso.have_ignition() || iso.have_network() || (iso.kargs_supported() && {
            let cur = match iso.kargs() {
                Ok(k) => k.to_owned(),
                Err(e) => return Err(LiveError::Embed(e)),
            };
            let def = match iso.kargs_default() {
                Ok(k) => k.to_owned(),
                Err(e) => return Err(LiveError::Embed(e)),
            };
            !crate::text::chars_eq(&chars_of(cur.as_str()), &chars_of(def.as_str()))
        });
        if customized {
            return Err(LiveError::AlreadyCustomized);
        }
    }
    *iso.initrd_mut() = initrd;
    if config.live_karg_append.len() > 0 || config.live_karg_replace.len() > 0
        || config.live_karg_delete.len() > 0 {
        if !iso.kargs_supported() {
            return Err(LiveError::LiveKargsUnsupported);
        }
        let def = match iso.kargs_default() {
            Ok(k) => k.to_owned(),
            Err(e) => return Err(LiveError::Embed(e)),
        };
        let editor = editor_for(&config.live_karg_append, &config.live_karg_replace, &config.live_karg_delete);
        let kargs = match editor.apply_to(def.as_str()) {
            Ok(k) => k,
            Err(e) => return Err(LiveError::Kargs(e)),
        };
        match iso.set_kargs(kargs.as_str()) {
            Ok(()) => {},
            Err(e) => return Err(LiveError::Embed(e)),
        }
    }
    Ok(())
}

/// No edits at all.
pub open spec fn editor_is_empty_spec(e: KargsEditorSpec) -> bool {
    e.append.len() == 0 && e.replace.len() == 0 && e.delete.len() == 0
}

// ---------------------------------------------------------------------
// PXE customization
// ---------------------------------------------------------------------
/// The stamp file of a live initramfs.
pub open spec fn live_stamp_path() -> Seq<char> {
    "etc/coreos-live-initramfs"@
}

/// The OS features file of a live initramfs.
pub open spec fn features_path() -> Seq<char> {
    "etc/coreos/features.json"@
}

/// `pxe customize`: checks the base initramfs that the customizations
/// will be appended to, which must be a live initramfs without an
/// Ignition config or network settings; gives its OS features file, if
/// it has one.
pub fn pxe_customize(base: &Initrd) -> (r: Result<Option<Vec<u8>>, LiveError>)
    requires
        base.wf(),
    ensures
        !base.files().contains_key(live_stamp_path()) ==> r == Err::<Option<Vec<u8>>, LiveError>(
            LiveError::NotLiveInitrd,
        ),
        base.files().contains_key(live_stamp_path()) && base.files().contains_key(ignition_path())
            ==> r == Err::<Option<Vec<u8>>, LiveError>(LiveError::AlreadyCustomized),
        base.files().contains_key(live_stamp_path()) && (exists|
            p: Seq<char>,
        | base.files().contains_key(p) && is_network_file(p)) ==> r == Err::<
            Option<Vec<u8>>,
            LiveError,
        >(LiveError::AlreadyCustomized),
        base.files().contains_key(live_stamp_path())
            && !base.files().contains_key(ignition_path()) && !(exists|p: Seq<char>|
            base.files().contains_key(p) && is_network_file(p)) ==> (r matches Ok(f) && (match f {
            Some(v) => base.files().contains_key(features_path()) && v@ == base.files()[features_path()],
            None => !base.files().contains_key(features_path()),
        })),
{
    proof {
        reveal_strlit("etc/coreos-live-initramfs");
        reveal_strlit("config.ign");
        reveal_strlit("etc/coreos/features.json");
    }
    if base.get("etc/coreos-live-initramfs").is_none() {
        return Err(LiveError::NotLiveInitrd);
    }
    if base.get("config.ign").is_some() {
        return Err(LiveError::AlreadyCustomized);
    }
    let g = network_matcher();
    let found = base.find(&g);
    let ghost es = base.entries();
    let ghost pred = |e: (Seq<char>, Seq<u8>)| g.matches_spec(e.0);
    proof {
        base.lemma_files_entries();
        crate::embed::lemma_network_matcher(g);
    }
    if found.len() > 0 {
        proof {
            let e = es.filter(pred)[0];
            es.lemma_filter_pred(pred, 0);
            assert(es.filter(pred).contains(e));
            es.lemma_filter_contains_rev(pred, e);
            assert(base.files().contains_key(e.0));
        }
        return Err(LiveError::AlreadyCustomized);
    }
    proof {
        assert forall|p: Seq<char>| !(base.files().contains_key(p) && is_network_file(p)) by {
            if base.files().contains_key(p) && is_network_file(p) {
                let i = choose|i: int| 0 <= i < es.len() && #[trigger] es[i].0 == p;
                es.lemma_filter_contains(pred, i);
                assert(es.filter(pred).len() == 0);
            }
        }
    }
    match base.get("etc/coreos/features.json") {
        Some(f) => Ok(Some(crate::io::owned_bytes(f))),
        None => Ok(None),
    }
}

// ---------------------------------------------------------------------
// Minimal ISO kargs
// ---------------------------------------------------------------------
/// The first of the words that starts with `p`.
pub open spec fn first_prefixed(ws: Seq<Seq<char>>, p: Seq<char>) -> Option<Seq<char>>
    decreases ws.len(),
{
    if ws.len() == 0 {
        None
    } else if starts_with(ws[0], p) {
        Some(ws[0])
    } else {
        first_prefixed(ws.drop_first(), p)
    }
}

/// An edit that only deletes `k`.
pub open spec fn delete_only(k: Seq<char>) -> KargsEditorSpec {
    KargsEditorSpec { append: seq![], append_if_missing: seq![], replace: seq![], delete: seq![k] }
}

/// An edit that only appends `k`.
pub open spec fn append_only(k: Seq<char>) -> KargsEditorSpec {
    KargsEditorSpec { append: seq![k], append_if_missing: seq![], replace: seq![], delete: seq![] }
}

/// The bytes an embed area holds for these kargs.
pub open spec fn karg_text(k: Seq<char>) -> Seq<u8> {
    encode_utf8(trim(k).push('\n'))
}

fn first_prefixed_exec(ws: &Vec<Vec<char>>, p: &[char]) -> (r: Option<usize>)
    ensures
        match first_prefixed(ws@.map_values(|w: Vec<char>| w@), p@) {
            Some(w) => r matches Some(i) && i < ws@.len() && ws@[i as int]@ == w,
            None => r is None,
        },
{
    let ghost all = ws@.map_values(|w: Vec<char>| w@);
    let mut i: usize = 0;
    assert(all.skip(0) =~= all);
    while i < ws.len()
        invariant
            i <= ws@.len(),
            all == ws@.map_values(|w: Vec<char>| w@),
            first_prefixed(all, p@) == first_prefixed(all.skip(i as int), p@),
        decreases ws@.len() - i,
    {
        assert(all.skip(i as int)[0] == ws@[i as int]@);
        assert(all.skip(i as int).drop_first() =~= all.skip(i + 1));
        if starts_with_exec(&ws[i], p) {
            return Some(i);
        }
        i += 1;
    }
    None
}

/// Turns the kargs of a minimal ISO extracted from a full one into its
/// own: drops `coreos.liveiso=`, whose value names the full ISO, and,
/// given a rootfs URL, appends `coreos.live.rootfs_url=`. Gives the kargs
/// without `coreos.liveiso=`, which become the image's default kargs too.
pub fn modify_miniso_kargs(iso: &mut IsoConfig, rootfs_url: Option<&str>) -> (r: Result<
    String,
    LiveError,
>)
    ensures
        final(iso).initrd_area() == old(iso).initrd_area(),
        match old(iso).karg_areas() {
            None => r == Err::<String, LiveError>(LiveError::Embed(EmbedError::KargsUnsupported)),
            Some(k) => match first_prefixed(ascii_words(k.args()), "coreos.liveiso="@) {
                None => r == Err::<String, LiveError>(LiveError::NoLiveisoKarg),
                Some(l) => match apply_spec(delete_only(l), k.args()) {
                    Err(e) => r == Err::<String, LiveError>(LiveError::Kargs(e)),
                    Ok(d) => if karg_text(d).len() > k.length() {
                        r matches Err(LiveError::Embed(EmbedError::KargsTooLarge { .. }))
                    } else {
                        match rootfs_url {
                            None => r matches Ok(s) && s@ == d && (final(iso).karg_areas() matches Some(
                                k2,
                            ) && k2.args() == trim(d)),
                            Some(u) => if ascii_words(u@).len() > 1 {
                                r matches Err(LiveError::ForbiddenWhitespace { url }) && url@ == u@
                            } else {
                                match apply_spec(append_only("coreos.live.rootfs_url="@ + u@), d) {
                                    Err(e) => r == Err::<String, LiveError>(LiveError::Kargs(e)),
                                    Ok(f) => if karg_text(f).len() > k.length() {
                                        r matches Err(LiveError::Embed(EmbedError::KargsTooLarge { .. }))
                                    } else {
                                        r matches Ok(s) && s@ == d && (final(iso).karg_areas() matches Some(
                                            k2,
                                        ) && k2.args() == trim(f))
                                    },
                                }
                            },
                        }
                    },
                },
            },
        },
{
    let kargs = match iso.kargs() {
        Ok(k) => k.to_owned(),
        Err(e) => return Err(LiveError::Embed(e)),
    };
    let words = ascii_words_exec(&chars_of(kargs.as_str()));
    let prefix = chars_of("coreos.liveiso=");
    let i = match first_prefixed_exec(&words, &prefix) {
        Some(i) => i,
        None => return Err(LiveError::NoLiveisoKarg),
    };
    let mut del: Vec<String> = Vec::new();
    del.push(string_of(&words[i]));
    let mut editor = KargsEditor::new();
    editor.delete(del.as_slice());
    assert(editor@.delete =~= seq![words@[i as int]@]);
    assert(editor@.append =~= Seq::<Seq<char>>::empty());
    assert(editor@.append_if_missing =~= Seq::<Seq<char>>::empty());
    assert(editor@.replace =~= Seq::<Seq<char>>::empty());
    assert(editor@ == delete_only(words@[i as int]@));
    let new_default = match editor.apply_to(kargs.as_str()) {
        Ok(k) => k,
        Err(e) => return Err(LiveError::Kargs(e)),
    };
    match iso.set_kargs(new_default.as_str()) {
        Ok(()) => {},
        Err(e) => return Err(LiveError::Embed(e)),
    }
    if let Some(url) = rootfs_url {
        if ascii_words_exec(&chars_of(url)).len() > 1 {
            return Err(LiveError::ForbiddenWhitespace { url: url.to_owned() });
        }
        let mut karg = chars_of("coreos.live.rootfs_url=");
        extend_chars(&mut karg, &chars_of(url));
        let mut app: Vec<String> = Vec::new();
        app.push(string_of(&karg));
        let mut editor = KargsEditor::new();
        editor.append(app.as_slice());
        assert(editor@.append =~= seq![karg@]);
        assert(editor@.delete =~= Seq::<Seq<char>>::empty());
        assert(editor@.append_if_missing =~= Seq::<Seq<char>>::empty());
        assert(editor@.replace =~= Seq::<Seq<char>>::empty());
        assert(editor@ == append_only("coreos.live.rootfs_url="@ + url@));
        let final_kargs = match editor.apply_to(new_default.as_str()) {
            Ok(k) => k,
            Err(e) => return Err(LiveError::Kargs(e)),
        };
        match iso.set_kargs(final_kargs.as_str()) {
            Ok(()) => {},
            Err(e) => return Err(LiveError::Embed(e)),
        }
    }
    Ok(new_default)
}

} // verus!

//! The decisions of `rdcore kargs`: where the current kernel arguments
//! come from, how they are edited, and whether the change is reported.

use crate::bls::{apply_spec, editor_is_empty, strings_view, KargsEditor, KargsEditorSpec, KargsError};
use crate::cmdline::KargsConfig;
use crate::text::{chars_of, trim, trim_chars, string_of};
use vstd::prelude::*;

verus! {

/// Where `rdcore kargs` reads the current arguments.
#[derive(Debug, Clone, PartialEq, Eq)]
pub enum KargsSource {
    /// The `--override-options` text, trimmed.
    Override(String),
    /// The running kernel's command line.
    Current,
    /// The BLS entry under the boot mount or device.
    BootEntry,
}

/// None of `--boot-device`, `--boot-mount` and `--current` was given.
#[derive(Debug, Clone, Copy, PartialEq, Eq)]
pub struct MissingSource;

/// Chooses where to read the arguments: the override first, then the
/// running kernel, then the boot entry.
pub fn kargs_source(config: &KargsConfig) -> (r: Result<KargsSource, MissingSource>)
    ensures
        config.override_options matches Some(o) ==> r matches Ok(KargsSource::Override(s)) && s@
            == trim(o@),
        config.override_options is None && config.current ==> r == Ok::<KargsSource, MissingSource>(
            KargsSource::Current,
        ),
        config.override_options is None && !config.current && (config.boot_device is Some
            || config.boot_mount is Some) ==> r == Ok::<KargsSource, MissingSource>(
            KargsSource::BootEntry,
        ),
        config.override_options is None && !config.current && config.boot_device is None
            && config.boot_mount is None ==> r == Err::<KargsSource, MissingSource>(MissingSource),
{
    if !(config.boot_device.is_some() || config.boot_mount.is_some() || config.current
        || config.override_options.is_some()) {
        return Err(MissingSource);
    }
    match &config.override_options {
        Some(o) => {
            let t = trim_chars(&chars_of(o.as_str()));
            Ok(KargsSource::Override(string_of(&t)))
        },
        None => if config.current {
            Ok(KargsSource::Current)
        } else {
            Ok(KargsSource::BootEntry)
        },
    }
}

/// The edit `rdcore kargs` makes: deletions, appends and conditional
/// appends from the command line.
pub open spec fn rdcore_editor(config: &KargsConfig) -> KargsEditorSpec {
    KargsEditorSpec {
        append: strings_view(config.append@),
        append_if_missing: strings_view(config.append_if_missing@),
        replace: seq![],
        delete: strings_view(config.delete@),
    }
}

/// The edited arguments, or `None` when there is nothing to edit.
pub fn modify_options(config: &KargsConfig, orig_options: &str) -> (r: Result<Option<String>, KargsError>)
    ensures
        editor_is_empty(rdcore_editor(config)) ==> r == Ok::<Option<String>, KargsError>(None),
        !editor_is_empty(rdcore_editor(config)) ==> match apply_spec(rdcore_editor(config), orig_options@) {
            Ok(s) => r matches Ok(Some(v)) && v@ == s,
            Err(e) => r == Err::<Option<String>, KargsError>(e),
        },
{
    let mut e = KargsEditor::new();
    e.delete(config.delete.as_slice());
    e.append(config.append.as_slice());
    e.append_if_missing(config.append_if_missing.as_slice());
    assert(e@.append =~= strings_view(config.append@));
    assert(e@.append_if_missing =~= strings_view(config.append_if_missing@));
    assert(e@.replace =~= Seq::<Seq<char>>::empty());
    assert(e@.delete =~= strings_view(config.delete@));
    e.maybe_apply_to(orig_options)
}

/// Whether to create the `--create-if-changed` file: the arguments were
/// edited into something new and the option was given.
pub fn should_create_stamp(config: &KargsConfig, new_options: &Option<String>, orig_options: &str) -> (r:
    bool)
    ensures
        r == (config.create_if_changed is Some && (match new_options {
            Some(n) => n@ != orig_options@,
            None => false,
        })),
{
    match new_options {
        Some(n) => {
            let a = chars_of(n.as_str());
            let b = chars_of(orig_options);
            !crate::text::chars_eq(&a, &b) && config.create_if_changed.is_some()
        },
        None => false,
    }
}

} // verus!

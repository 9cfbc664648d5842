//! Command-line model: option types, the configuration of each subcommand,
//! and the argument serializer that turns a configuration back into argv.

use crate::console::Console;
use crate::text::{
    all_digits, all_digits_exec, chars_of, contains_exec, contains_seq, dec_string, dec_value, is_digit,
    parse_decimal, push_decimal, replace_all, replace_exec, string_of,
};
use std::marker::PhantomData;
use std::str::FromStr;
use vstd::prelude::*;

verus! {

// ---------------------------------------------------------------------
// FetchRetries
// ---------------------------------------------------------------------
/// How often to retry a failed download.
#[derive(Debug, Clone, Copy, PartialEq, Eq, Structural)]
pub enum FetchRetries {
    Infinite,
    /// A positive number of retries.
    Finite(u32),
    /// No retries (written `0`).
    NoRetries,
}

/// The text could not be read as a retry count.
#[derive(Debug, Clone, Copy, PartialEq, Eq, Structural)]
pub struct InvalidRetries;

/// What `u32::from_str` accepts: an optional `+`, then one or more ASCII
/// digits whose value fits in 32 bits.
pub open spec fn u32_numeral(s: Seq<char>) -> Option<nat> {
    let d = if s.len() > 0 && s[0] == '+' {
        s.drop_first()
    } else {
        s
    };
    if d.len() > 0 && all_digits(d) && dec_value(d) <= u32::MAX {
        Some(dec_value(d))
    } else {
        None
    }
}

/// `FetchRetries::from_str` on `s`.
pub open spec fn fetch_retries_spec(s: Seq<char>) -> Result<FetchRetries, InvalidRetries> {
    if s == "infinite"@ {
        Ok(FetchRetries::Infinite)
    } else {
        match u32_numeral(s) {
            Some(n) => if n == 0 {
                Ok(FetchRetries::NoRetries)
            } else {
                Ok(FetchRetries::Finite(n as u32))
            },
            None => Err(InvalidRetries),
        }
    }
}

/// How `FetchRetries` is written on the command line.
pub open spec fn fetch_retries_text(r: FetchRetries) -> Seq<char> {
    match r {
        FetchRetries::NoRetries => "0"@,
        FetchRetries::Finite(n) => dec_string(n as nat),
        FetchRetries::Infinite => "infinite"@,
    }
}

impl FetchRetries {
    /// A `Finite` count is never zero.
    pub open spec fn wf(self) -> bool {
        self matches FetchRetries::Finite(n) ==> n > 0
    }

    pub fn default() -> (r: Self)
        ensures
            r == FetchRetries::NoRetries,
    {
        FetchRetries::NoRetries
    }

    pub fn is_default(&self) -> (r: bool)
        ensures
            r == (*self == FetchRetries::NoRetries),
    {
        match self {
            FetchRetries::NoRetries => true,
            _ => false,
        }
    }

    /// Parses `infinite` or a decimal count.
    pub fn parse(s: &str) -> (r: Result<Self, InvalidRetries>)
        ensures
            r == fetch_retries_spec(s@),
            r matches Ok(v) ==> v.wf(),
    {
        let v = chars_of(s);
        let inf = "infinite";
        proof {
            reveal_strlit("infinite");
        }
        let iv = chars_of(inf);
        if crate::text::chars_eq(&v, &iv) {
            return Ok(FetchRetries::Infinite);
        }
        let start: usize = if v.len() > 0 && v[0] == '+' {
            1
        } else {
            0
        };
        let d = crate::text::sub_chars(&v, start, v.len());
        proof {
            if start == 1 {
                assert(d@ == v@.drop_first());
            } else {
                assert(d@ == v@);
            }
        }
        if d.len() == 0 {
            return Err(InvalidRetries);
        }
        if !all_digits_exec(&d) {
            return Err(InvalidRetries);
        }
        match parse_decimal(&d, 0xffff_ffff) {
            Some(n) => if n == 0 {
                Ok(FetchRetries::NoRetries)
            } else {
                Ok(FetchRetries::Finite(n as u32))
            },
            None => Err(InvalidRetries),
        }
    }

    /// `0`, the count, or `infinite`.
    pub fn to_string(&self) -> (r: String)
        ensures
            r@ == fetch_retries_text(*self),
    {
        match self {
            FetchRetries::NoRetries => {
                proof {
                    reveal_strlit("0");
                }
                "0".to_owned()
            },
            FetchRetries::Finite(n) => {
                let mut out: Vec<char> = Vec::new();
                push_decimal(&mut out, *n as u64);
                string_of(&out)
            },
            FetchRetries::Infinite => {
                proof {
                    reveal_strlit("infinite");
                }
                "infinite".to_owned()
            },
        }
    }
}

/// Writing a retry count and reading it back gives the same count.
pub proof fn lemma_fetch_retries_roundtrip(r: FetchRetries)
    requires
        r.wf(),
    ensures
        fetch_retries_spec(fetch_retries_text(r)) == Ok::<FetchRetries, InvalidRetries>(r),
{
    reveal_strlit("infinite");
    reveal_strlit("0");
    match r {
        FetchRetries::Finite(n) => {
            crate::text::lemma_dec_string_digits(n as nat);
            lemma_dec_string_value(n as nat);
            let t = dec_string(n as nat);
            assert(is_digit(t[0]));
            assert(t != "infinite"@) by {
                assert("infinite"@[0] == 'i');
            }
        },
        FetchRetries::NoRetries => {
            assert("0"@ != "infinite"@);
            assert(all_digits("0"@));
            assert(dec_value("0"@) == 0) by {
                assert("0"@.drop_last().len() == 0);
                assert(dec_value("0"@.drop_last()) == 0);
                assert("0"@.last() == '0');
            }
        },
        FetchRetries::Infinite => {},
    }
}

/// The numeral of `n` reads back as `n`.
pub proof fn lemma_dec_string_value(n: nat)
    ensures
        dec_value(dec_string(n)) == n,
    decreases n,
{
    if n < 10 {
        let s = dec_string(n);
        assert(s.drop_last().len() == 0);
        assert(dec_value(s.drop_last()) == 0);
        crate::text::lemma_digit_char(n);
    } else {
        lemma_dec_string_value(n / 10);
        crate::text::lemma_digit_char(n % 10);
        assert(dec_string(n).drop_last() == dec_string(n / 10));
    }
}

impl FromStr for FetchRetries {
    type Err = InvalidRetries;

    fn from_str(s: &str) -> (r: Result<Self, Self::Err>)
        ensures
            r == fetch_retries_spec(s@),
    {
        FetchRetries::parse(s)
    }
}

// ---------------------------------------------------------------------
// Defaulted strings
// ---------------------------------------------------------------------
/// A default value for a `DefaultedString`.
pub trait DefaultString {
    /// The values that `default` may give.
    spec fn default_ok(s: Seq<char>) -> bool;

    fn default() -> (r: String)
        ensures
            Self::default_ok(r@),
    ;
}

/// A string whose default value is given by `S`.
pub struct DefaultedString<S: DefaultString> {
    value: String,
    default: PhantomData<S>,
}

impl<S: DefaultString> DefaultedString<S> {
    pub closed spec fn value(&self) -> Seq<char> {
        self.value@
    }

    /// The string given on the command line.
    pub fn new(s: &str) -> (r: Self)
        ensures
            r.value() == s@,
    {
        DefaultedString { value: s.to_owned(), default: PhantomData }
    }

    /// The value given by `S`.
    pub fn default_value() -> (r: Self)
        ensures
            S::default_ok(r.value()),
    {
        DefaultedString { value: S::default(), default: PhantomData }
    }

    pub fn as_str(&self) -> (r: &str)
        ensures
            r@ == self.value(),
    {
        self.value.as_str()
    }
}

impl<S: DefaultString> FromStr for DefaultedString<S> {
    type Err = InvalidRetries;

    fn from_str(s: &str) -> (r: Result<Self, Self::Err>)
        ensures
            r matches Ok(d) && d.value() == s@,
    {
        Ok(DefaultedString::new(s))
    }
}

/// The name of this machine's architecture, as `uname -m` prints it.
#[verifier::external_body]
fn machine_name() -> String {
    nix::sys::utsname::uname().map(|u| u.machine().to_string_lossy().into_owned()).unwrap_or_default()
}

/// A default string of `uname -m`.
pub struct Architecture {}

impl DefaultString for Architecture {
    /// Whatever `uname` reports of this machine.
    open spec fn default_ok(s: Seq<char>) -> bool {
        true
    }

    fn default() -> String {
        machine_name()
    }
}

/// The default path to NetworkManager connection files.
pub struct NetworkDir {}

pub open spec fn network_dir_default() -> Seq<char> {
    "/etc/NetworkManager/system-connections/"@
}

impl NetworkDir {
    pub fn path() -> (r: String)
        ensures
            r@ == network_dir_default(),
    {
        "/etc/NetworkManager/system-connections/".to_owned()
    }
}

/// A defaulted network directory holds the value that
/// `NetworkDir::default` gives: `/etc/NetworkManager/system-connections/`.
pub proof fn lemma_network_dir_default(d: DefaultedString<NetworkDir>)
    requires
        NetworkDir::default_ok(d.value()),
    ensures
        d.value() == network_dir_default(),
{
}

impl DefaultString for NetworkDir {
    open spec fn default_ok(s: Seq<char>) -> bool {
        s == network_dir_default()
    }

    fn default() -> (r: String)
        ensures
            r@ == network_dir_default(),
    {
        NetworkDir::path()
    }
}

} // verus!

verus! {

// ---------------------------------------------------------------------
// Subcommand configurations
// ---------------------------------------------------------------------
/// Options shared by `iso customize` and `pxe customize`.
pub struct CommonCustomizeConfig {
    pub dest_ignition: Vec<String>,
    pub dest_device: Option<String>,
    pub dest_console: Vec<Console>,
    pub dest_karg_append: Vec<String>,
    pub dest_karg_delete: Vec<String>,
    pub network_keyfile: Vec<String>,
    pub network_nmstate: Vec<String>,
    pub ignition_ca: Vec<String>,
    pub pre_install: Vec<String>,
    pub post_install: Vec<String>,
    pub installer_config: Vec<String>,
    pub live_ignition: Vec<String>,
}

pub struct IsoCustomizeConfig {
    pub common: CommonCustomizeConfig,
    pub live_karg_append: Vec<String>,
    pub live_karg_delete: Vec<String>,
    pub live_karg_replace: Vec<String>,
    pub force: bool,
    pub output: Option<String>,
    pub input: String,
}

pub struct IsoEmbedConfig {
    pub config: Option<String>,
    pub force: bool,
    pub output: Option<String>,
    pub input: String,
}

pub struct IsoShowConfig {
    pub input: String,
}

pub struct IsoRemoveConfig {
    pub output: Option<String>,
    pub input: String,
}

pub struct IsoIgnitionEmbedConfig {
    pub force: bool,
    pub ignition_file: Option<String>,
    pub output: Option<String>,
    pub input: String,
}

pub struct IsoIgnitionShowConfig {
    pub input: String,
}

pub struct IsoIgnitionRemoveConfig {
    pub output: Option<String>,
    pub input: String,
}

pub struct IsoNetworkEmbedConfig {
    pub keyfile: Vec<String>,
    pub force: bool,
    pub output: Option<String>,
    pub input: String,
}

pub struct IsoNetworkExtractConfig {
    pub directory: Option<String>,
    pub input: String,
}

pub struct IsoNetworkRemoveConfig {
    pub output: Option<String>,
    pub input: String,
}

pub struct IsoKargsModifyConfig {
    pub append: Vec<String>,
    pub delete: Vec<String>,
    pub replace: Vec<String>,
    pub output: Option<String>,
    pub input: String,
}

pub struct IsoKargsResetConfig {
    pub output: Option<String>,
    pub input: String,
}

pub struct IsoKargsShowConfig {
    pub default: bool,
    pub input: String,
}

pub struct DevShowIsoConfig {
    pub ignition: bool,
    pub kargs: bool,
    pub input: String,
}

pub struct IsoExtractPxeConfig {
    pub input: String,
    pub output_dir: String,
}

pub struct IsoExtractMinimalIsoConfig {
    pub input: String,
    pub output_rootfs: Option<String>,
    pub output: String,
    pub rootfs_url: Option<String>,
}

pub struct PackMinimalIsoConfig {
    pub full: String,
    pub minimal: String,
    pub consume: bool,
}

pub struct IsoResetConfig {
    pub output: Option<String>,
    pub input: String,
}

pub struct PackOsmetConfig {
    pub output: String,
    pub checksum: String,
    pub description: String,
    pub fast: bool,
    pub device: String,
}

pub struct DevExtractOsmetConfig {
    pub osmet: String,
    pub repo: String,
    pub device: String,
}

pub struct DevShowFiemapConfig {
    pub file: String,
}

pub struct PxeCustomizeConfig {
    pub common: CommonCustomizeConfig,
    pub output: String,
    pub input: String,
}

pub struct PxeIgnitionWrapConfig {
    pub ignition_file: Option<String>,
    pub output: Option<String>,
}

pub struct PxeIgnitionUnwrapConfig {
    pub input: Option<String>,
}

pub struct PxeNetworkWrapConfig {
    pub keyfile: Vec<String>,
    pub output: Option<String>,
}

pub struct PxeNetworkUnwrapConfig {
    pub directory: Option<String>,
    pub input: Option<String>,
}

pub struct DevShowInitrdConfig {
    pub input: String,
    pub filter: Vec<String>,
}

pub struct DevExtractInitrdConfig {
    pub directory: String,
    pub verbose: bool,
    pub input: String,
    pub filter: Vec<String>,
}

pub struct PackManConfig {
    pub directory: String,
}

pub struct PackExampleConfigConfig {}

// ---------------------------------------------------------------------
// Subcommands
// ---------------------------------------------------------------------
pub enum IsoCmd {
    Embed(IsoEmbedConfig),
    Show(IsoShowConfig),
    Remove(IsoRemoveConfig),
    Customize(IsoCustomizeConfig),
    Ignition(IsoIgnitionCmd),
    Network(IsoNetworkCmd),
    Kargs(IsoKargsCmd),
    Extract(IsoExtractCmd),
    Reset(IsoResetConfig),
}

pub enum IsoIgnitionCmd {
    Embed(IsoIgnitionEmbedConfig),
    Show(IsoIgnitionShowConfig),
    Remove(IsoIgnitionRemoveConfig),
}

pub enum IsoNetworkCmd {
    Embed(IsoNetworkEmbedConfig),
    Extract(IsoNetworkExtractConfig),
    Remove(IsoNetworkRemoveConfig),
}

pub enum IsoKargsCmd {
    Modify(IsoKargsModifyConfig),
    Reset(IsoKargsResetConfig),
    Show(IsoKargsShowConfig),
}

pub enum IsoExtractCmd {
    Pxe(IsoExtractPxeConfig),
    MinimalIso(IsoExtractMinimalIsoConfig),
}

pub enum PxeCmd {
    Customize(PxeCustomizeConfig),
    Ignition(PxeIgnitionCmd),
    Network(PxeNetworkCmd),
}

pub enum PxeIgnitionCmd {
    Wrap(PxeIgnitionWrapConfig),
    Unwrap(PxeIgnitionUnwrapConfig),
}

pub enum PxeNetworkCmd {
    Wrap(PxeNetworkWrapConfig),
    Unwrap(PxeNetworkUnwrapConfig),
}

pub enum PackCmd {
    Osmet(PackOsmetConfig),
    MinimalIso(PackMinimalIsoConfig),
    Man(PackManConfig),
    ExampleConfig(PackExampleConfigConfig),
}

pub enum DevCmd {
    Show(DevShowCmd),
    Extract(DevExtractCmd),
}

pub enum DevShowCmd {
    Iso(DevShowIsoConfig),
    Initrd(DevShowInitrdConfig),
    Fiemap(DevShowFiemapConfig),
}

pub enum DevExtractCmd {
    Osmet(DevExtractOsmetConfig),
    Initrd(DevExtractInitrdConfig),
}

// ---------------------------------------------------------------------
// rdcore subcommands
// ---------------------------------------------------------------------
pub struct RootmapConfig {
    pub boot_device: Option<String>,
    pub boot_mount: Option<String>,
    pub root_mount: String,
}

pub struct BindBootConfig {
    pub root_mount: String,
    pub boot_mount: String,
}

pub struct KargsConfig {
    pub boot_device: Option<String>,
    pub boot_mount: Option<String>,
    pub current: bool,
    pub override_options: Option<String>,
    pub create_if_changed: Option<String>,
    pub append: Vec<String>,
    pub append_if_missing: Vec<String>,
    pub delete: Vec<String>,
}

pub struct StreamHashConfig {
    pub hash_file: String,
}

pub struct VerifyUniqueFsLabelConfig {
    pub label: String,
    pub rereadpt: bool,
}

} // verus!

verus! {

// ---------------------------------------------------------------------
// Serializing a configuration back to command-line arguments
// ---------------------------------------------------------------------
/// A value the argument serializer cannot express.
#[derive(Debug, Clone, PartialEq, Eq)]
pub struct SerializeError(pub String);

pub open spec fn strings_of(v: Seq<String>) -> Seq<Seq<char>> {
    v.map_values(|s: String| s@)
}

pub open spec fn fields_of(v: Seq<Option<String>>) -> Seq<Option<Seq<char>>> {
    v.map_values(|f: Option<String>| match f {
        Some(s) => Some(s@),
        None => None,
    })
}

/// `--name`.
pub open spec fn option_flag(name: Seq<char>) -> Seq<char> {
    "--"@ + name
}

/// The help text lists `--name` as an option.
pub open spec fn is_option(help: Seq<char>, name: Seq<char>) -> bool {
    contains_seq(help, " --"@ + name + " "@)
}

/// Builds the argument list of a subcommand from the fields of its
/// configuration, in order. A field that the subcommand's help text lists
/// as `--name` is written as that option; any other field is positional.
pub struct ArgSerializer {
    help_text: String,
    output: Vec<String>,
    field_stack: Vec<Option<String>>,
}

impl ArgSerializer {
    pub closed spec fn help(&self) -> Seq<char> {
        self.help_text@
    }

    pub closed spec fn output(&self) -> Seq<Seq<char>> {
        strings_of(self.output@)
    }

    /// The fields being written, innermost last: the option name of each,
    /// or `None` for a positional field.
    pub closed spec fn fields(&self) -> Seq<Option<Seq<char>>> {
        fields_of(self.field_stack@)
    }

    /// A serializer for the subcommand with help text `help`; each line
    /// gets a trailing space, so that flags at the end of a line are
    /// found like the others.
    pub fn new(help: &str) -> (r: Self)
        ensures
            r.help() == replace_all(help@, "\n"@, " \n"@),
            r.output() == Seq::<Seq<char>>::empty(),
            r.fields() == Seq::<Option<Seq<char>>>::empty(),
    {
        proof {
            reveal_strlit("\n");
            reveal_strlit(" \n");
        }
        let nl = chars_of("\n");
        let rep = chars_of(" \n");
        let t = replace_exec(&chars_of(help), &nl, &rep);
        let r = ArgSerializer {
            help_text: string_of(&t),
            output: Vec::new(),
            field_stack: Vec::new(),
        };
        assert(r.output() =~= Seq::<Seq<char>>::empty());
        assert(r.fields() =~= Seq::<Option<Seq<char>>>::empty());
        r
    }

    /// Starts writing the field `name`.
    pub fn push_field(&mut self, name: &str)
        ensures
            final(self).help() == old(self).help(),
            final(self).output() == old(self).output(),
            final(self).fields() == old(self).fields().push(
                if is_option(old(self).help(), name@) {
                    Some(name@)
                } else {
                    None
                },
            ),
    {
        proof {
            reveal_strlit(" --");
            reveal_strlit(" ");
        }
        let mut pat = chars_of(" --");
        crate::text::extend_chars(&mut pat, chars_of(name).as_slice());
        crate::text::extend_chars(&mut pat, chars_of(" ").as_slice());
        let h = chars_of(self.help_text.as_str());
        let found = contains_exec(&h, &pat);
        let ghost before = self.field_stack@;
        if found {
            self.field_stack.push(Some(name.to_owned()));
        } else {
            self.field_stack.push(None);
        }
        assert(fields_of(self.field_stack@) =~= fields_of(before).push(
            if is_option(old(self).help(), name@) {
                Some(name@)
            } else {
                None
            },
        ));
    }

    /// Finishes writing the current field.
    pub fn pop_field(&mut self)
        ensures
            final(self).help() == old(self).help(),
            final(self).output() == old(self).output(),
            final(self).fields() == if old(self).fields().len() > 0 {
                old(self).fields().drop_last()
            } else {
                old(self).fields()
            },
    {
        let ghost before = self.field_stack@;
        self.field_stack.pop();
        assert(fields_of(self.field_stack@) =~= if before.len() > 0 {
            fields_of(before).drop_last()
        } else {
            fields_of(before)
        });
    }

    /// Writes the current field's option name, if it has one.
    pub fn output_option(&mut self)
        requires
            old(self).fields().len() > 0,
        ensures
            final(self).help() == old(self).help(),
            final(self).fields() == old(self).fields(),
            final(self).output() == match old(self).fields().last() {
                Some(n) => old(self).output().push(option_flag(n)),
                None => old(self).output(),
            },
    {
        let k = self.field_stack.len() - 1;
        assert(fields_of(self.field_stack@)[k as int] == old(self).fields().last());
        match &self.field_stack[k] {
            None => {},
            Some(name) => {
                proof {
                    reveal_strlit("--");
                }
                let mut o = chars_of("--");
                crate::text::extend_chars(&mut o, chars_of(name.as_str()).as_slice());
                let s = string_of(&o);
                self.output_argument(s.as_str());
            },
        }
    }

    /// Writes an argument.
    pub fn output_argument(&mut self, arg: &str)
        ensures
            final(self).help() == old(self).help(),
            final(self).fields() == old(self).fields(),
            final(self).output() == old(self).output().push(arg@),
    {
        let ghost before = self.output@;
        self.output.push(arg.to_owned());
        assert(strings_of(self.output@) =~= strings_of(before).push(arg@));
    }

    /// A flag: its option where it is set, nothing otherwise.
    pub fn serialize_bool(&mut self, v: bool)
        requires
            old(self).fields().len() > 0,
        ensures
            final(self).help() == old(self).help(),
            final(self).fields() == old(self).fields(),
            final(self).output() == if v {
                match old(self).fields().last() {
                    Some(n) => old(self).output().push(option_flag(n)),
                    None => old(self).output(),
                }
            } else {
                old(self).output()
            },
    {
        if v {
            self.output_option();
        }
    }

    /// A string: the option, then the value.
    pub fn serialize_str(&mut self, v: &str)
        requires
            old(self).fields().len() > 0,
        ensures
            final(self).help() == old(self).help(),
            final(self).fields() == old(self).fields(),
            final(self).output() == match old(self).fields().last() {
                Some(n) => old(self).output().push(option_flag(n)),
                None => old(self).output(),
            }.push(v@),
    {
        self.output_option();
        self.output_argument(v);
    }

    /// A number: the option, then the value in decimal.
    pub fn serialize_u64(&mut self, v: u64)
        requires
            old(self).fields().len() > 0,
        ensures
            final(self).help() == old(self).help(),
            final(self).fields() == old(self).fields(),
            final(self).output() == match old(self).fields().last() {
                Some(n) => old(self).output().push(option_flag(n)),
                None => old(self).output(),
            }.push(dec_string(v as nat)),
    {
        self.output_option();
        let mut d: Vec<char> = Vec::new();
        push_decimal(&mut d, v);
        assert(d@ =~= dec_string(v as nat));
        let s = string_of(&d);
        self.output_argument(s.as_str());
    }

    /// The arguments written.
    pub fn into_output(self) -> (r: Vec<String>)
        ensures
            strings_of(r@) == self.output(),
    {
        self.output
    }
}

} // verus!

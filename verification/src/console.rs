//! Console arguments: `tty0`, `ttyS1,115200n8` and the like, turned into
//! kernel arguments and GRUB commands.

use crate::text::{
    digit_char, lemma_dec_string_digits, lemma_digit_char,
    all_digits, chars_eq, chars_of, dec_string, dec_value, digit_value, extend_chars, is_digit,
    parse_decimal, push_decimal, starts_with, starts_with_exec, string_of, sub_chars,
};
use vstd::prelude::*;

verus! {

#[derive(Copy, Clone, Debug, PartialEq, Eq)]
pub enum Parity {
    NoParity,
    Odd,
    Even,
}

#[derive(Clone, Debug, PartialEq, Eq)]
pub struct GraphicalConsole {
    device: String,
}

#[derive(Clone, Debug, PartialEq, Eq)]
pub struct SerialConsole {
    prefix: String,
    port: u8,
    speed: u32,
    data_bits: u8,
    parity: Parity,
}

#[derive(Clone, Debug, PartialEq, Eq)]
pub enum Console {
    Graphical(GraphicalConsole),
    Serial(SerialConsole),
}

/// Why a console specification was rejected.
#[derive(Clone, Copy, Debug, PartialEq, Eq)]
pub enum ConsoleError {
    /// The spec starts with `console=` or `/dev/`.
    ForbiddenPrefix,
    /// The serial port number does not fit in a `u8`.
    BadPort,
    /// The serial speed does not fit in a `u32`.
    BadSpeed,
    /// Neither a serial nor a known graphical console.
    Unsupported,
}

/// Abstract value of a console.
pub enum ConsoleSpec {
    Graphical(Seq<char>),
    Serial(Seq<char>, u8, u32, u8, Parity),
}

impl View for Console {
    type V = ConsoleSpec;

    closed spec fn view(&self) -> ConsoleSpec {
        match self {
            Console::Graphical(g) => ConsoleSpec::Graphical(g.device@),
            Console::Serial(c) => ConsoleSpec::Serial(
                c.prefix@,
                c.port,
                c.speed,
                c.data_bits,
                c.parity,
            ),
        }
    }
}

pub open spec fn parity_karg_char(p: Parity) -> char {
    match p {
        Parity::NoParity => 'n',
        Parity::Odd => 'o',
        Parity::Even => 'e',
    }
}

pub open spec fn parity_grub(p: Parity) -> Seq<char> {
    match p {
        Parity::NoParity => "no"@,
        Parity::Odd => "odd"@,
        Parity::Even => "even"@,
    }
}

impl Parity {
    /// The parity as GRUB's `serial --parity=` names it.
    pub fn for_grub(&self) -> (r: &'static str)
        ensures
            r@ == parity_grub(*self),
    {
        match self {
            Parity::NoParity => "no",
            Parity::Odd => "odd",
            Parity::Even => "even",
        }
    }

    /// The parity letter of a kernel `console=` argument.
    pub fn for_karg(&self) -> (r: &'static str)
        ensures
            r@ == seq![parity_karg_char(*self)],
    {
        proof {
            reveal_strlit("n");
            reveal_strlit("o");
            reveal_strlit("e");
        }
        match self {
            Parity::NoParity => "n",
            Parity::Odd => "o",
            Parity::Even => "e",
        }
    }
}

pub open spec fn is_parity_char(c: char) -> bool {
    c == 'n' || c == 'o' || c == 'e'
}

pub open spec fn parity_of(c: Option<char>) -> Parity {
    match c {
        Some('e') => Parity::Even,
        Some('o') => Parity::Odd,
        _ => Parity::NoParity,
    }
}

pub open spec fn is_data_bits_char(c: char) -> bool {
    '5' <= c && c <= '8'
}

/// Number of leading ASCII digits.
pub open spec fn digit_run(s: Seq<char>) -> nat
    decreases s.len(),
{
    if s.len() > 0 && is_digit(s[0]) {
        1 + digit_run(s.drop_first())
    } else {
        0
    }
}

/// Length of the serial device prefix (`ttyS` or `ttyAMA`), 0 if none.
pub open spec fn serial_prefix_len(s: Seq<char>) -> nat {
    if starts_with(s, "ttyS"@) {
        4
    } else if starts_with(s, "ttyAMA"@) {
        6
    } else {
        0
    }
}

/// The parts of a serial console spec
/// `(ttyS|ttyAMA)<port>[,<speed>[<parity>[<data bits>]]]`:
/// prefix, port digits, speed digits, parity and data-bits characters.
pub open spec fn serial_parts(s: Seq<char>) -> Option<
    (Seq<char>, Seq<char>, Option<Seq<char>>, Option<char>, Option<char>),
> {
    let p = serial_prefix_len(s);
    let r = s.skip(p as int);
    let n = digit_run(r);
    let t = r.skip(n as int);
    let u = t.drop_first();
    let m = digit_run(u);
    let v = u.skip(m as int);
    if p == 0 || n == 0 {
        None
    } else if t.len() == 0 {
        Some((s.take(p as int), r.take(n as int), None, None, None))
    } else if t[0] != ',' || m == 0 {
        None
    } else if v.len() == 0 {
        Some((s.take(p as int), r.take(n as int), Some(u.take(m as int)), None, None))
    } else if v.len() == 1 && is_parity_char(v[0]) {
        Some((s.take(p as int), r.take(n as int), Some(u.take(m as int)), Some(v[0]), None))
    } else if v.len() == 2 && is_parity_char(v[0]) && is_data_bits_char(v[1]) {
        Some((s.take(p as int), r.take(n as int), Some(u.take(m as int)), Some(v[0]), Some(v[1])))
    } else {
        None
    }
}

/// What a console specification parses to, or the error it gets.
pub open spec fn console_spec(s: Seq<char>) -> Result<ConsoleSpec, ConsoleError> {
    if starts_with(s, "console="@) || starts_with(s, "/dev/"@) {
        Err(ConsoleError::ForbiddenPrefix)
    } else {
        match serial_parts(s) {
            Some((prefix, port, speed, parity, bits)) => {
                if dec_value(port) > 255 {
                    Err(ConsoleError::BadPort)
                } else if speed matches Some(sp) && dec_value(sp) > u32::MAX {
                    Err(ConsoleError::BadSpeed)
                } else {
                    Ok(
                        ConsoleSpec::Serial(
                            prefix,
                            dec_value(port) as u8,
                            match speed {
                                Some(sp) => dec_value(sp) as u32,
                                None => 9600,
                            },
                            match bits {
                                Some(b) => digit_value(b) as u8,
                                None => 8,
                            },
                            parity_of(parity),
                        ),
                    )
                }
            },
            None => if s == "tty0"@ || s == "hvc0"@ || s == "ttysclp0"@ {
                Ok(ConsoleSpec::Graphical(s))
            } else {
                Err(ConsoleError::Unsupported)
            },
        }
    }
}

/// The console spec as it is printed (its `Display` form).
pub open spec fn console_text(c: ConsoleSpec) -> Seq<char> {
    match c {
        ConsoleSpec::Graphical(d) => d,
        ConsoleSpec::Serial(prefix, port, speed, bits, parity) => prefix + dec_string(port as nat)
            + ","@ + dec_string(speed as nat) + seq![parity_karg_char(parity)] + dec_string(
            bits as nat,
        ),
    }
}

/// The GRUB `serial` command for a console, if it needs one.
pub open spec fn grub_command_spec(c: ConsoleSpec) -> Option<Seq<char>> {
    match c {
        ConsoleSpec::Graphical(_) => None,
        ConsoleSpec::Serial(_, port, speed, bits, parity) => Some(
            "serial --unit="@ + dec_string(port as nat) + " --speed="@ + dec_string(speed as nat)
                + " --word="@ + dec_string(bits as nat) + " --parity="@ + parity_grub(parity),
        ),
    }
}

proof fn lemma_digit_run_count(s: Seq<char>, k: int)
    requires
        0 <= k <= s.len(),
        forall|j: int| 0 <= j < k ==> is_digit(#[trigger] s[j]),
        k == s.len() || !is_digit(s[k]),
    ensures
        digit_run(s) == k,
    decreases k,
{
    if k > 0 {
        assert forall|j: int| 0 <= j < k - 1 implies is_digit(#[trigger] s.drop_first()[j]) by {
            assert(s.drop_first()[j] == s[j + 1]);
        }
        lemma_digit_run_count(s.drop_first(), k - 1);
    }
}

proof fn lemma_digit_run_prefix(s: Seq<char>)
    ensures
        digit_run(s) <= s.len(),
        all_digits(s.take(digit_run(s) as int)),
        digit_run(s) == s.len() || !is_digit(s[digit_run(s) as int]),
    decreases s.len(),
{
    if s.len() > 0 && is_digit(s[0]) {
        lemma_digit_run_prefix(s.drop_first());
        let n = digit_run(s) as int;
        assert forall|i: int| 0 <= i < n implies is_digit(#[trigger] s.take(n)[i]) by {
            if i > 0 {
                assert(s.take(n)[i] == s.drop_first().take(n - 1)[i - 1]);
            }
        }
    }
}


proof fn lemma_digit_run_concat(a: Seq<char>, b: Seq<char>)
    requires
        all_digits(a),
        b.len() == 0 || !is_digit(b[0]),
    ensures
        digit_run(a + b) == a.len(),
{
    let s = a + b;
    assert forall|j: int| 0 <= j < a.len() implies is_digit(#[trigger] s[j]) by {
        assert(s[j] == a[j]);
    }
    if a.len() < s.len() {
        assert(s[a.len() as int] == b[0]);
    }
    lemma_digit_run_count(s, a.len() as int);
}

proof fn lemma_first_char_differs(t: Seq<char>, p: Seq<char>)
    requires
        t.len() > 0,
        p.len() > 0,
        t[0] != p[0],
    ensures
        !starts_with(t, p),
{
    if starts_with(t, p) {
        assert(t.subrange(0, p.len() as int)[0] == t[0]);
    }
}

proof fn lemma_graphical_roundtrip(d: Seq<char>)
    requires
        d == "tty0"@ || d == "hvc0"@ || d == "ttysclp0"@,
    ensures
        console_spec(d) == Ok::<ConsoleSpec, ConsoleError>(ConsoleSpec::Graphical(d)),
{
    reveal_strlit("ttyS");
    reveal_strlit("ttyAMA");
    reveal_strlit("console=");
    reveal_strlit("/dev/");
    reveal_strlit("tty0");
    reveal_strlit("hvc0");
    reveal_strlit("ttysclp0");
    lemma_first_char_differs(d, "console="@);
    lemma_first_char_differs(d, "/dev/"@);
    if d == "hvc0"@ {
        lemma_first_char_differs(d, "ttyS"@);
        lemma_first_char_differs(d, "ttyAMA"@);
    } else {
        assert(d[3] != 'S' && d[3] != 'A');
        assert(!starts_with(d, "ttyS"@)) by {
            if starts_with(d, "ttyS"@) {
                assert(d.subrange(0, 4)[3] == d[3]);
            }
        }
        assert(!starts_with(d, "ttyAMA"@)) by {
            if starts_with(d, "ttyAMA"@) {
                assert(d.subrange(0, 6)[3] == d[3]);
            }
        }
    }
    assert(serial_prefix_len(d) == 0);
}

#[verifier::rlimit(40)]
proof fn lemma_serial_roundtrip(prefix: Seq<char>, port: u8, speed: u32, bits: u8, parity: Parity)
    requires
        prefix == "ttyS"@ || prefix == "ttyAMA"@,
        5 <= bits <= 8,
    ensures
        console_spec(console_text(ConsoleSpec::Serial(prefix, port, speed, bits, parity)))
            == Ok::<ConsoleSpec, ConsoleError>(
            ConsoleSpec::Serial(prefix, port, speed, bits, parity),
        ),
{
    reveal_strlit("ttyS");
    reveal_strlit("ttyAMA");
    reveal_strlit("console=");
    reveal_strlit("/dev/");
    reveal_strlit(",");
    let t = console_text(ConsoleSpec::Serial(prefix, port, speed, bits, parity));
    let dp = dec_string(port as nat);
    let ds = dec_string(speed as nat);
    let db = dec_string(bits as nat);
    lemma_dec_string_digits(port as nat);
    lemma_dec_string_digits(speed as nat);
    lemma_dec_string_digits(bits as nat);
    assert(db == seq![digit_char(bits as nat)]);
    lemma_digit_char(bits as nat);
    let pch = parity_karg_char(parity);
    let rest = seq![pch] + db;
    let tail = ","@ + (ds + rest);
    assert(t == prefix + (dp + tail));
    assert(t[0] == 't');
    lemma_first_char_differs(t, "console="@);
    lemma_first_char_differs(t, "/dev/"@);
    let p = prefix.len() as int;
    assert(t.take(p) == prefix);
    if prefix == "ttyAMA"@ {
        assert(t[3] == 'A');
        assert(!starts_with(t, "ttyS"@)) by {
            if starts_with(t, "ttyS"@) {
                assert(t.subrange(0, 4)[3] == t[3]);
            }
        }
    }
    assert(serial_prefix_len(t) == p);
    let r = t.skip(p);
    assert(r == dp + tail);
    assert(tail[0] == ',');
    lemma_digit_run_concat(dp, tail);
    assert(r.take(dp.len() as int) == dp);
    let tt = r.skip(dp.len() as int);
    assert(tt == tail);
    let u = tt.drop_first();
    assert(u == ds + rest);
    assert(rest[0] == pch);
    lemma_digit_run_concat(ds, rest);
    assert(u.take(ds.len() as int) == ds);
    let v = u.skip(ds.len() as int);
    assert(v == rest);
    assert(parity_of(Some(pch)) == parity);
    assert(serial_parts(t) == Some(
        (prefix, dp, Some(ds), Some(pch), Some(digit_char(bits as nat))),
    ));
}

/// Printing a parsed console spec and parsing the text again gives back
/// the same console: the text form is what configuration files store.
pub proof fn lemma_console_text_roundtrip(s: Seq<char>)
    requires
        console_spec(s) is Ok,
    ensures
        console_spec(console_text(console_spec(s)->Ok_0)) == console_spec(s),
{
    reveal_strlit("ttyS");
    reveal_strlit("ttyAMA");
    let c = console_spec(s)->Ok_0;
    match c {
        ConsoleSpec::Graphical(d) => {
            lemma_graphical_roundtrip(d);
        },
        ConsoleSpec::Serial(prefix, port, speed, bits, parity) => {
            let parts = serial_parts(s)->Some_0;
            assert(prefix == parts.0);
            assert(5 <= bits <= 8) by {
                if let Some(b) = parts.4 {
                    assert(is_data_bits_char(b));
                    assert(b as u32 - '0' as u32 <= 8);
                }
            }
            lemma_serial_roundtrip(prefix, port, speed, bits, parity);
        },
    }
}

/// Number of ASCII digits at `v[i..]`.
fn count_digits(v: &[char], i: usize) -> (n: usize)
    requires
        i <= v.len(),
    ensures
        n == digit_run(v@.skip(i as int)),
        i + n <= v.len(),
{
    let mut j = i;
    while j < v.len() && '0' <= v[j] && v[j] <= '9'
        invariant
            i <= j <= v.len(),
            forall|k: int| i <= k < j ==> is_digit(#[trigger] v@[k]),
        decreases v.len() - j,
    {
        j += 1;
    }
    proof {
        let s = v@.skip(i as int);
        assert forall|k: int| 0 <= k < j - i implies is_digit(#[trigger] s[k]) by {
            assert(s[k] == v@[i + k]);
        }
        lemma_digit_run_count(s, j - i);
    }
    j - i
}

fn push_str_chars(out: &mut Vec<char>, s: &str)
    ensures
        final(out)@ == old(out)@ + s@,
{
    let c = chars_of(s);
    extend_chars(out, &c);
}

impl Console {
    /// Parses a console specification such as `tty0` or `ttyS1,115200n8`.
    #[verifier::rlimit(40)]
    pub fn parse(s: &str) -> (r: Result<Console, ConsoleError>)
        ensures
            match r {
                Ok(c) => console_spec(s@) == Ok::<ConsoleSpec, ConsoleError>(c@),
                Err(e) => console_spec(s@) == Err::<ConsoleSpec, ConsoleError>(e),
            },
    {
        let v = chars_of(s);
        let karg_prefix = chars_of("console=");
        let dev_prefix = chars_of("/dev/");
        if starts_with_exec(&v, &karg_prefix) || starts_with_exec(&v, &dev_prefix) {
            return Err(ConsoleError::ForbiddenPrefix);
        }
        let ghost sv = v@;
        let ttys = chars_of("ttyS");
        let ttyama = chars_of("ttyAMA");
        let p: usize = if starts_with_exec(&v, &ttys) {
            4
        } else if starts_with_exec(&v, &ttyama) {
            6
        } else {
            0
        };
        proof {
            reveal_strlit("ttyS");
            reveal_strlit("ttyAMA");
        }
        assert(p == serial_prefix_len(sv));
        if p > 0 {
            let n = count_digits(&v, p);
            let ghost r = sv.skip(p as int);
            assert(r.take(n as int) == sv.subrange(p as int, p + n));
            assert(r.skip(n as int) == sv.skip(p + n));
            if n > 0 {
                let port_digits = sub_chars(&v, p, p + n);
                proof {
                    lemma_digit_run_prefix(r);
                }
                let t = p + n;
                let mut speed: u32 = 9600;
                let mut bits: u8 = 8;
                let mut parity = Parity::NoParity;
                let mut matched = false;
                let mut bad_speed = false;
                if t == v.len() {
                    matched = true;
                } else if v[t] == ',' {
                    let m = count_digits(&v, t + 1);
                    let ghost u = sv.skip(t as int).drop_first();
                    assert(u == sv.skip(t + 1));
                    assert(u.take(m as int) == sv.subrange(t + 1, t + 1 + m));
                    assert(u.skip(m as int) == sv.skip(t + 1 + m));
                    if m > 0 {
                        let w = t + 1 + m;
                        let rest = v.len() - w;
                        let ok_shape = rest == 0 || (rest == 1 && (v[w] == 'n' || v[w] == 'o'
                            || v[w] == 'e')) || (rest == 2 && (v[w] == 'n' || v[w] == 'o' || v[w]
                            == 'e') && '5' <= v[w + 1] && v[w + 1] <= '8');
                        if ok_shape {
                            matched = true;
                            let speed_digits = sub_chars(&v, t + 1, w);
                            proof {
                                lemma_digit_run_prefix(u);
                            }
                            match parse_decimal(&speed_digits, 0xffff_ffff) {
                                Some(x) => {
                                    speed = x as u32;
                                },
                                None => {
                                    bad_speed = true;
                                },
                            }
                            if rest >= 1 {
                                parity = if v[w] == 'e' {
                                    Parity::Even
                                } else if v[w] == 'o' {
                                    Parity::Odd
                                } else {
                                    Parity::NoParity
                                };
                            }
                            if rest == 2 {
                                bits = (v[w + 1] as u32 - '0' as u32) as u8;
                            }
                        }
                    }
                }
                if matched {
                    let port = parse_decimal(&port_digits, 255);
                    match port {
                        None => {
                            return Err(ConsoleError::BadPort);
                        },
                        Some(port) => {
                            if bad_speed {
                                return Err(ConsoleError::BadSpeed);
                            }
                            let prefix = string_of(&sub_chars(&v, 0, p));
                            let c = Console::Serial(
                                SerialConsole {
                                    prefix,
                                    port: port as u8,
                                    speed,
                                    data_bits: bits,
                                    parity,
                                },
                            );
                            return Ok(c);
                        },
                    }
                }
            }
        }
        assert(serial_parts(sv) is None);
        let tty0 = chars_of("tty0");
        let hvc0 = chars_of("hvc0");
        let ttysclp0 = chars_of("ttysclp0");
        if chars_eq(&v, &tty0) || chars_eq(&v, &hvc0) || chars_eq(&v, &ttysclp0) {
            Ok(Console::Graphical(GraphicalConsole { device: string_of(&v) }))
        } else {
            Err(ConsoleError::Unsupported)
        }
    }

    /// The GRUB terminal type for this console.
    pub fn grub_terminal(&self) -> (r: &'static str)
        ensures
            r@ == (match self@ {
                ConsoleSpec::Graphical(_) => "console"@,
                ConsoleSpec::Serial(..) => "serial"@,
            }),
    {
        match self {
            Console::Graphical(_) => "console",
            Console::Serial(_) => "serial",
        }
    }

    /// The GRUB command configuring this console, if it needs one.
    pub fn grub_command(&self) -> (r: Option<String>)
        ensures
            match r {
                Some(s) => grub_command_spec(self@) == Some(s@),
                None => grub_command_spec(self@) is None,
            },
    {
        match self {
            Console::Graphical(_) => None,
            Console::Serial(c) => {
                let mut out: Vec<char> = Vec::new();
                push_str_chars(&mut out, "serial --unit=");
                push_decimal(&mut out, c.port as u64);
                push_str_chars(&mut out, " --speed=");
                push_decimal(&mut out, c.speed as u64);
                push_str_chars(&mut out, " --word=");
                push_decimal(&mut out, c.data_bits as u64);
                push_str_chars(&mut out, " --parity=");
                push_str_chars(&mut out, c.parity.for_grub());
                Some(string_of(&out))
            },
        }
    }

    fn text_chars(&self) -> (r: Vec<char>)
        ensures
            r@ == console_text(self@),
    {
        match self {
            Console::Graphical(g) => chars_of(g.device.as_str()),
            Console::Serial(c) => {
                let mut out = chars_of(c.prefix.as_str());
                push_decimal(&mut out, c.port as u64);
                push_str_chars(&mut out, ",");
                push_decimal(&mut out, c.speed as u64);
                push_str_chars(&mut out, c.parity.for_karg());
                push_decimal(&mut out, c.data_bits as u64);
                out
            },
        }
    }

    /// The console spec as text, e.g. `ttyS1,9600n8`.
    pub fn to_string(&self) -> (r: String)
        ensures
            r@ == console_text(self@),
    {
        string_of(&self.text_chars())
    }

    /// The kernel argument for this console, e.g. `console=ttyS1,9600n8`.
    pub fn karg(&self) -> (r: String)
        ensures
            r@ == "console="@ + console_text(self@),
    {
        let mut out = chars_of("console=");
        let t = self.text_chars();
        extend_chars(&mut out, &t);
        string_of(&out)
    }
}

impl std::str::FromStr for Console {
    type Err = ConsoleError;

    fn from_str(s: &str) -> (r: Result<Self, Self::Err>)
        ensures
            match r {
                Ok(c) => console_spec(s@) == Ok::<ConsoleSpec, ConsoleError>(c@),
                Err(e) => console_spec(s@) == Err::<ConsoleSpec, ConsoleError>(e),
            },
    {
        Console::parse(s)
    }
}

} // verus!

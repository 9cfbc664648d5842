//! Text helpers: strings are handled as sequences of `char`.
//!
//! The spec functions here describe the behaviour of the few `str`
//! operations the installer relies on (trimming, prefix tests, substring
//! search and replacement, line splitting, decimal numbers).

use vstd::prelude::*;

verus! {

/// The Unicode `White_Space` property, which is what `char::is_whitespace`
/// tests and what `str::trim` strips.
pub open spec fn is_ws(c: char) -> bool {
    let u = c as u32;
    ||| (9 <= u && u <= 13)
    ||| u == 32
    ||| u == 0x85
    ||| u == 0xA0
    ||| u == 0x1680
    ||| (0x2000 <= u && u <= 0x200A)
    ||| u == 0x2028
    ||| u == 0x2029
    ||| u == 0x202F
    ||| u == 0x205F
    ||| u == 0x3000
}

pub fn char_is_ws(c: char) -> (b: bool)
    ensures
        b == is_ws(c),
{
    let u = c as u32;
    (9 <= u && u <= 13) || u == 32 || u == 0x85 || u == 0xA0 || u == 0x1680 || (0x2000 <= u && u
        <= 0x200A) || u == 0x2028 || u == 0x2029 || u == 0x202F || u == 0x205F || u == 0x3000
}

/// `str::trim_start`
pub open spec fn trim_start(s: Seq<char>) -> Seq<char>
    decreases s.len(),
{
    if s.len() > 0 && is_ws(s[0]) {
        trim_start(s.drop_first())
    } else {
        s
    }
}

/// `str::trim_end`
pub open spec fn trim_end(s: Seq<char>) -> Seq<char>
    decreases s.len(),
{
    if s.len() > 0 && is_ws(s.last()) {
        trim_end(s.drop_last())
    } else {
        s
    }
}

/// `str::trim`
pub open spec fn trim(s: Seq<char>) -> Seq<char> {
    trim_end(trim_start(s))
}

/// `str::trim_end_matches` with a single character.
pub open spec fn trim_end_char(s: Seq<char>, c: char) -> Seq<char>
    decreases s.len(),
{
    if s.len() > 0 && s.last() == c {
        trim_end_char(s.drop_last(), c)
    } else {
        s
    }
}

/// `str::starts_with`
pub open spec fn starts_with<A>(s: Seq<A>, p: Seq<A>) -> bool {
    p.len() <= s.len() && s.subrange(0, p.len() as int) == p
}

/// `str::ends_with`
pub open spec fn ends_with<A>(s: Seq<A>, p: Seq<A>) -> bool {
    p.len() <= s.len() && s.subrange(s.len() - p.len(), s.len() as int) == p
}

/// `p` occurs in `s` at position `i`.
pub open spec fn occurs_at<A>(s: Seq<A>, p: Seq<A>, i: int) -> bool {
    0 <= i && i + p.len() <= s.len() && s.subrange(i, i + p.len()) == p
}

/// `str::contains`
pub open spec fn contains_seq<A>(s: Seq<A>, p: Seq<A>) -> bool {
    exists|i: int| occurs_at(s, p, i)
}

/// `str::replace` with a non-empty pattern: every non-overlapping
/// occurrence, scanning from the left, is replaced.
pub open spec fn replace_all<A>(s: Seq<A>, pat: Seq<A>, rep: Seq<A>) -> Seq<A>
    decreases s.len(),
{
    if s.len() == 0 || pat.len() == 0 {
        s
    } else if starts_with(s, pat) {
        rep + replace_all(s.skip(pat.len() as int), pat, rep)
    } else {
        seq![s[0]] + replace_all(s.drop_first(), pat, rep)
    }
}

/// Number of characters before the first occurrence of `c` (or the
/// whole length).
pub open spec fn len_before(s: Seq<char>, c: char) -> nat
    decreases s.len(),
{
    if s.len() == 0 || s[0] == c {
        0
    } else {
        1 + len_before(s.drop_first(), c)
    }
}

/// A line without its terminator: a `'\r'` is dropped only when it
/// stood before a `'\n'`.
pub open spec fn strip_cr(line: Seq<char>, terminated: bool) -> Seq<char> {
    if terminated && line.len() > 0 && line.last() == '\r' {
        line.drop_last()
    } else {
        line
    }
}

/// `str::lines`
pub open spec fn lines(s: Seq<char>) -> Seq<Seq<char>>
    decreases s.len(),
{
    if s.len() == 0 {
        seq![]
    } else {
        let k = len_before(s, '\n');
        if k < s.len() {
            seq![strip_cr(s.take(k as int), true)] + lines(s.skip(k + 1 as int))
        } else {
            seq![s]
        }
    }
}

/// ASCII whitespace, as `u8::is_ascii_whitespace` defines it: space,
/// tab, line feed, form feed and carriage return.
pub open spec fn is_ascii_ws(c: char) -> bool {
    c == ' ' || c == '\t' || c == '\n' || c == '\x0C' || c == '\r'
}

/// A field separator: Unicode whitespace, or ASCII whitespace only.
pub open spec fn is_sep(c: char, ascii: bool) -> bool {
    if ascii {
        is_ascii_ws(c)
    } else {
        is_ws(c)
    }
}

/// Number of leading characters that are not separators.
pub open spec fn word_len(s: Seq<char>, ascii: bool) -> nat
    decreases s.len(),
{
    if s.len() > 0 && !is_sep(s[0], ascii) {
        1 + word_len(s.drop_first(), ascii)
    } else {
        0
    }
}

pub proof fn lemma_word_len_bound(s: Seq<char>, ascii: bool)
    ensures
        word_len(s, ascii) <= s.len(),
    decreases s.len(),
{
    if s.len() > 0 && !is_sep(s[0], ascii) {
        lemma_word_len_bound(s.drop_first(), ascii);
    }
}

/// The maximal runs of characters that are not separators.
pub open spec fn fields(s: Seq<char>, ascii: bool) -> Seq<Seq<char>>
    decreases s.len(),
{
    if s.len() == 0 {
        seq![]
    } else if is_sep(s[0], ascii) {
        fields(s.drop_first(), ascii)
    } else {
        let k = word_len(s, ascii);
        proof {
            lemma_word_len_bound(s, ascii);
        }
        seq![s.take(k as int)] + fields(s.skip(k as int), ascii)
    }
}

/// `str::split_whitespace`
pub open spec fn words(s: Seq<char>) -> Seq<Seq<char>> {
    fields(s, false)
}

/// `str::split_ascii_whitespace`
pub open spec fn ascii_words(s: Seq<char>) -> Seq<Seq<char>> {
    fields(s, true)
}

/// `str::split` at a character: the pieces between its occurrences,
/// empty ones included.
pub open spec fn split_char(s: Seq<char>, c: char) -> Seq<Seq<char>>
    decreases s.len(),
{
    let k = len_before(s, c);
    if k < s.len() {
        seq![s.take(k as int)] + split_char(s.skip(k + 1 as int), c)
    } else {
        seq![s]
    }
}

pub open spec fn is_digit(c: char) -> bool {
    '0' <= c && c <= '9'
}

pub open spec fn digit_value(c: char) -> nat {
    (c as u32 - '0' as u32) as nat
}

pub open spec fn digit_char(d: nat) -> char
    recommends
        d < 10,
{
    (d + '0' as u32) as char
}

/// Every character is an ASCII digit.
pub open spec fn all_digits(s: Seq<char>) -> bool {
    forall|i: int| 0 <= i < s.len() ==> is_digit(#[trigger] s[i])
}

/// The value of a decimal numeral.
pub open spec fn dec_value(s: Seq<char>) -> nat
    decreases s.len(),
{
    if s.len() == 0 {
        0
    } else {
        dec_value(s.drop_last()) * 10 + digit_value(s.last())
    }
}

/// The decimal numeral of `n`, as `{}` formats an integer.
pub open spec fn dec_string(n: nat) -> Seq<char>
    decreases n,
{
    if n < 10 {
        seq![digit_char(n)]
    } else {
        dec_string(n / 10).push(digit_char(n % 10))
    }
}

/// Two lowercase hexadecimal digits of a byte, as `{:02x}` formats it.
pub open spec fn hex_digit(d: nat) -> char {
    if d < 10 {
        (d + 48) as char
    } else {
        (d + 87) as char
    }
}

pub open spec fn hex_byte(b: u8) -> Seq<char> {
    seq![hex_digit(b as nat / 16), hex_digit(b as nat % 16)]
}

/// A value of a hexadecimal digit, either case.
pub open spec fn hex_value(c: char) -> Option<nat> {
    if '0' <= c && c <= '9' {
        Some((c as u32 - 48) as nat)
    } else if 'a' <= c && c <= 'f' {
        Some((c as u32 - 87) as nat)
    } else if 'A' <= c && c <= 'F' {
        Some((c as u32 - 55) as nat)
    } else {
        None
    }
}

// ---------------------------------------------------------------------------
// Lemmas
// ---------------------------------------------------------------------------

pub proof fn lemma_trim_start_skip(s: Seq<char>, i: int)
    requires
        0 <= i <= s.len(),
        forall|k: int| 0 <= k < i ==> is_ws(#[trigger] s[k]),
        i == s.len() || !is_ws(s[i]),
    ensures
        trim_start(s) == s.skip(i),
    decreases i,
{
    if i > 0 {
        assert forall|k: int| 0 <= k < i - 1 implies is_ws(#[trigger] s.drop_first()[k]) by {
            assert(s.drop_first()[k] == s[k + 1]);
        }
        lemma_trim_start_skip(s.drop_first(), i - 1);
        assert(s.drop_first().skip(i - 1) == s.skip(i));
    } else {
        assert(s.skip(0) == s);
    }
}

pub proof fn lemma_trim_end_take(s: Seq<char>, j: int)
    requires
        0 <= j <= s.len(),
        forall|k: int| j <= k < s.len() ==> is_ws(#[trigger] s[k]),
        j == 0 || !is_ws(s[j - 1]),
    ensures
        trim_end(s) == s.take(j),
    decreases s.len() - j,
{
    if j < s.len() {
        assert forall|k: int| j <= k < s.len() - 1 implies is_ws(#[trigger] s.drop_last()[k]) by {
            assert(s.drop_last()[k] == s[k]);
        }
        lemma_trim_end_take(s.drop_last(), j);
        assert(s.drop_last().take(j) == s.take(j));
    } else {
        assert(s.take(j) == s);
    }
}

pub proof fn lemma_trim_end_char_take(s: Seq<char>, c: char, j: int)
    requires
        0 <= j <= s.len(),
        forall|k: int| j <= k < s.len() ==> #[trigger] s[k] == c,
        j == 0 || s[j - 1] != c,
    ensures
        trim_end_char(s, c) == s.take(j),
    decreases s.len() - j,
{
    if j < s.len() {
        assert forall|k: int| j <= k < s.len() - 1 implies #[trigger] s.drop_last()[k] == c by {
            assert(s.drop_last()[k] == s[k]);
        }
        lemma_trim_end_char_take(s.drop_last(), c, j);
        assert(s.drop_last().take(j) == s.take(j));
    } else {
        assert(s.take(j) == s);
    }
}

/// The value of a numeral bounds the value of each of its prefixes.
pub proof fn lemma_dec_value_prefix(s: Seq<char>, k: int)
    requires
        0 <= k <= s.len(),
    ensures
        dec_value(s.take(k)) <= dec_value(s),
    decreases s.len() - k,
{
    if k < s.len() {
        lemma_dec_value_prefix(s.drop_last(), k);
        assert(s.drop_last().take(k) == s.take(k));
    } else {
        assert(s.take(k) == s);
    }
}

pub proof fn lemma_dec_value_push(s: Seq<char>, c: char)
    ensures
        dec_value(s.push(c)) == dec_value(s) * 10 + digit_value(c),
{
    assert(s.push(c).drop_last() == s);
}

pub proof fn lemma_digit_char(d: nat)
    requires
        d < 10,
    ensures
        is_digit(digit_char(d)),
        digit_value(digit_char(d)) == d,
{
    assert((d + 48) as char as u32 == d + 48);
}

pub proof fn lemma_dec_string_digits(n: nat)
    ensures
        all_digits(dec_string(n)),
        dec_string(n).len() >= 1,
        dec_value(dec_string(n)) == n,
    decreases n,
{
    lemma_digit_char(n % 10);
    if n >= 10 {
        lemma_dec_string_digits(n / 10);
        lemma_dec_value_push(dec_string(n / 10), digit_char(n % 10));
        let s = dec_string(n / 10).push(digit_char(n % 10));
        assert forall|i: int| 0 <= i < s.len() implies is_digit(#[trigger] s[i]) by {
            if i < s.len() - 1 {
                assert(s[i] == dec_string(n / 10)[i]);
            }
        }
    } else {
        assert(seq![digit_char(n)].drop_last() =~= Seq::<char>::empty());
        assert(dec_value(Seq::<char>::empty()) == 0);
    }
}

/// Replacing a pattern that does not occur changes nothing.
pub proof fn lemma_replace_absent<A>(s: Seq<A>, pat: Seq<A>, rep: Seq<A>)
    requires
        !contains_seq(s, pat),
    ensures
        replace_all(s, pat, rep) == s,
    decreases s.len(),
{
    if s.len() > 0 && pat.len() > 0 {
        if starts_with(s, pat) {
            assert(s.subrange(0, pat.len() as int) =~= s.take(pat.len() as int));
            assert(occurs_at(s, pat, 0));
        }
        assert(!contains_seq(s.drop_first(), pat)) by {
            if contains_seq(s.drop_first(), pat) {
                let i = choose|i: int| occurs_at(s.drop_first(), pat, i);
                assert(s.subrange(i + 1, i + 1 + pat.len()) =~= s.drop_first().subrange(i, i + pat.len()));
                assert(occurs_at(s, pat, i + 1));
            }
        }
        lemma_replace_absent(s.drop_first(), pat, rep);
        assert(seq![s[0]] + s.drop_first() =~= s);
    }
}

/// Replacing a pattern by one no longer never lengthens the text, and
/// shortens it where the pattern occurs.
pub proof fn lemma_replace_shrinks<A>(s: Seq<A>, pat: Seq<A>, rep: Seq<A>)
    requires
        pat.len() > rep.len(),
    ensures
        replace_all(s, pat, rep).len() <= s.len(),
        contains_seq(s, pat) ==> replace_all(s, pat, rep).len() < s.len(),
    decreases s.len(),
{
    if s.len() > 0 {
        if starts_with(s, pat) {
            lemma_replace_shrinks(s.skip(pat.len() as int), pat, rep);
        } else {
            lemma_replace_shrinks(s.drop_first(), pat, rep);
            if contains_seq(s, pat) {
                let i = choose|i: int| occurs_at(s, pat, i);
                if i == 0 {
                    assert(s.subrange(0, pat.len() as int) =~= s.take(pat.len() as int));
                }
                assert(i > 0);
                assert(s.drop_first().subrange(i - 1, i - 1 + pat.len()) =~= s.subrange(i, i + pat.len()));
                assert(occurs_at(s.drop_first(), pat, i - 1));
            }
        }
    } else if contains_seq(s, pat) {
        let i = choose|i: int| occurs_at(s, pat, i);
        assert(false);
    }
}

/// Where the pattern occurs, the replacement occurs in the result.
pub proof fn lemma_replace_puts_rep<A>(s: Seq<A>, pat: Seq<A>, rep: Seq<A>)
    requires
        pat.len() > 0,
        contains_seq(s, pat),
    ensures
        contains_seq(replace_all(s, pat, rep), rep),
    decreases s.len(),
{
    let r = replace_all(s, pat, rep);
    if starts_with(s, pat) {
        assert(r.subrange(0, rep.len() as int) =~= rep);
        assert(occurs_at(r, rep, 0));
    } else {
        let i = choose|i: int| occurs_at(s, pat, i);
        if i == 0 {
            assert(s.subrange(0, pat.len() as int) =~= s.take(pat.len() as int));
        }
        assert(s.drop_first().subrange(i - 1, i - 1 + pat.len()) =~= s.subrange(i, i + pat.len()));
        assert(occurs_at(s.drop_first(), pat, i - 1));
        lemma_replace_puts_rep(s.drop_first(), pat, rep);
        let r2 = replace_all(s.drop_first(), pat, rep);
        let j = choose|j: int| occurs_at(r2, rep, j);
        assert(r == seq![s[0]] + r2);
        assert(r.subrange(j + 1, j + 1 + rep.len()) =~= r2.subrange(j, j + rep.len()));
        assert(occurs_at(r, rep, j + 1));
    }
}

pub proof fn lemma_replace_all_empty<A>(pat: Seq<A>, rep: Seq<A>)
    ensures
        replace_all(Seq::<A>::empty(), pat, rep) == Seq::<A>::empty(),
{
}

pub proof fn lemma_len_before_count(s: Seq<char>, c: char, k: int)
    requires
        0 <= k <= s.len(),
        forall|j: int| 0 <= j < k ==> #[trigger] s[j] != c,
        k == s.len() || s[k] == c,
    ensures
        len_before(s, c) == k,
    decreases k,
{
    if k > 0 {
        assert forall|j: int| 0 <= j < k - 1 implies #[trigger] s.drop_first()[j] != c by {
            assert(s.drop_first()[j] == s[j + 1]);
        }
        lemma_len_before_count(s.drop_first(), c, k - 1);
    }
}

pub proof fn lemma_word_len_count(s: Seq<char>, ascii: bool, k: int)
    requires
        0 <= k <= s.len(),
        forall|j: int| 0 <= j < k ==> !is_sep(#[trigger] s[j], ascii),
        k == s.len() || is_sep(s[k], ascii),
    ensures
        word_len(s, ascii) == k,
    decreases k,
{
    if k > 0 {
        assert forall|j: int| 0 <= j < k - 1 implies !is_sep(#[trigger] s.drop_first()[j], ascii) by {
            assert(s.drop_first()[j] == s[j + 1]);
        }
        lemma_word_len_count(s.drop_first(), ascii, k - 1);
    }
}

fn char_is_sep(c: char, ascii: bool) -> (r: bool)
    ensures
        r == is_sep(c, ascii),
{
    if ascii {
        c == ' ' || c == '\t' || c == '\n' || c == '\x0C' || c == '\r'
    } else {
        char_is_ws(c)
    }
}

// ---------------------------------------------------------------------------
// Executable helpers
// ---------------------------------------------------------------------------

/// `str::split_whitespace`, collected.
pub fn words_exec(v: &[char]) -> (r: Vec<Vec<char>>)
    ensures
        r@.map_values(|w: Vec<char>| w@) == words(v@),
{
    fields_exec(v, false)
}

/// `str::split_ascii_whitespace`, collected.
pub fn ascii_words_exec(v: &[char]) -> (r: Vec<Vec<char>>)
    ensures
        r@.map_values(|w: Vec<char>| w@) == ascii_words(v@),
{
    fields_exec(v, true)
}

fn fields_exec(v: &[char], ascii: bool) -> (r: Vec<Vec<char>>)
    ensures
        r@.map_values(|w: Vec<char>| w@) == fields(v@, ascii),
{
    let mut out: Vec<Vec<char>> = Vec::new();
    let mut i: usize = 0;
    assert(v@.skip(0) =~= v@);
    assert(out@.map_values(|w: Vec<char>| w@) =~= Seq::<Seq<char>>::empty());
    while i < v.len()
        invariant
            i <= v@.len(),
            out@.map_values(|w: Vec<char>| w@) + fields(v@.skip(i as int), ascii) == fields(v@, ascii),
        decreases v@.len() - i,
    {
        let ghost s = v@.skip(i as int);
        let ghost acc = out@.map_values(|w: Vec<char>| w@);
        if char_is_sep(v[i], ascii) {
            assert(s.drop_first() =~= v@.skip(i + 1));
            i += 1;
        } else {
            let mut j = i;
            while j < v.len() && !char_is_sep(v[j], ascii)
                invariant
                    i <= j <= v@.len(),
                    forall|m: int| i <= m < j ==> !is_sep(#[trigger] v@[m], ascii),
                decreases v@.len() - j,
            {
                j += 1;
            }
            proof {
                assert forall|m: int| 0 <= m < j - i implies !is_sep(#[trigger] s[m], ascii) by {
                    assert(s[m] == v@[i + m]);
                }
                lemma_word_len_count(s, ascii, j - i);
                assert(s.skip(j - i) =~= v@.skip(j as int));
            }
            let w = sub_chars(v, i, j);
            assert(w@ =~= s.take(j - i));
            out.push(w);
            assert(out@.map_values(|w: Vec<char>| w@) =~= acc.push(w@));
            assert(acc + (seq![w@] + fields(v@.skip(j as int), ascii)) =~= acc.push(w@) + fields(
                v@.skip(j as int),
                ascii,
            ));
            i = j;
        }
    }
    assert(v@.skip(i as int) =~= Seq::<char>::empty());
    assert(out@.map_values(|w: Vec<char>| w@) + Seq::<Seq<char>>::empty() =~= out@.map_values(
        |w: Vec<char>| w@,
    ));
    out
}

/// Is `x` one of the pieces of `v` split at `c`?
pub fn split_contains(v: &[char], c: char, x: &[char]) -> (r: bool)
    ensures
        r == split_char(v@, c).contains(x@),
{
    let mut i: usize = 0;
    let ghost mut seen: Seq<Seq<char>> = seq![];
    assert(v@.skip(0) =~= v@);
    loop
        invariant
            i <= v@.len(),
            seen + split_char(v@.skip(i as int), c) == split_char(v@, c),
            !seen.contains(x@),
        decreases v@.len() + 1 - i,
    {
        let ghost s = v@.skip(i as int);
        let j = find_char(v, i, c);
        let piece = sub_chars(v, i, j);
        assert(piece@ =~= s.take(j - i));
        if chars_eq(&piece, x) {
            proof {
                if j < v.len() {
                    assert(split_char(s, c)[0] == piece@);
                } else {
                    assert(s.take(j - i) =~= s);
                    assert(split_char(s, c) == seq![s]);
                }
                assert((seen + split_char(s, c))[seen.len() as int] == x@);
            }
            return true;
        }
        if j == v.len() {
            proof {
                assert(s.take(j - i) =~= s);
                assert(split_char(s, c) == seq![s]);
                assert forall|k: int| 0 <= k < split_char(v@, c).len() implies split_char(v@, c)[k]
                    != x@ by {
                    if k < seen.len() {
                        assert(split_char(v@, c)[k] == seen[k]);
                    } else {
                        assert(split_char(v@, c)[k] == s);
                    }
                }
            }
            return false;
        }
        proof {
            assert(s.skip(j - i + 1) =~= v@.skip(j + 1));
            assert(split_char(s, c) == seq![s.take(j - i)] + split_char(v@.skip(j + 1), c));
            assert(seen.push(piece@) + split_char(v@.skip(j + 1), c) =~= seen + split_char(s, c));
            assert forall|k: int| 0 <= k < seen.push(piece@).len() implies seen.push(piece@)[k]
                != x@ by {
                if k < seen.len() {
                    assert(seen.push(piece@)[k] == seen[k]);
                }
            }
            seen = seen.push(piece@);
        }
        i = j + 1;
    }
}

/// Appends `c` to `s` (`String::push`).
#[verifier::external_body]
pub fn push_char(s: &mut String, c: char)
    ensures
        final(s)@ == old(s)@.push(c),
{
    s.push(c);
}

/// The text an optional string holds.
pub open spec fn opt_view(o: Option<String>) -> Option<Seq<char>> {
    match o {
        Some(s) => Some(s@),
        None => None,
    }
}

/// The characters of a string slice, in order.
pub fn chars_of(s: &str) -> (v: Vec<char>)
    ensures
        v@ == s@,
{
    let mut v: Vec<char> = Vec::new();
    for c in it: s.chars()
        invariant
            v@ == it.seq().take(it.index() as int),
    {
        v.push(c);
    }
    v
}

/// A string made of the given characters.
pub fn string_of(v: &[char]) -> (s: String)
    ensures
        s@ == v@,
{
    let mut s = String::new();
    let mut i: usize = 0;
    while i < v.len()
        invariant
            i <= v.len(),
            s@ == v@.take(i as int),
        decreases v.len() - i,
    {
        push_char(&mut s, v[i]);
        i += 1;
        assert(v@.take(i as int) == v@.take(i - 1).push(v@[i - 1]));
    }
    assert(v@.take(v.len() as int) == v@);
    s
}

/// Appends all of `src` to `dst`.
pub fn extend_chars(dst: &mut Vec<char>, src: &[char])
    ensures
        final(dst)@ == old(dst)@ + src@,
{
    let mut i: usize = 0;
    while i < src.len()
        invariant
            i <= src.len(),
            dst@ == old(dst)@ + src@.take(i as int),
        decreases src.len() - i,
    {
        dst.push(src[i]);
        i += 1;
        assert(src@.take(i as int) == src@.take(i - 1).push(src@[i - 1]));
    }
    assert(src@.take(src.len() as int) == src@);
}

/// The characters `v[a..b]`.
pub fn sub_chars(v: &[char], a: usize, b: usize) -> (r: Vec<char>)
    requires
        a <= b <= v.len(),
    ensures
        r@ == v@.subrange(a as int, b as int),
{
    let mut r: Vec<char> = Vec::new();
    let mut i = a;
    while i < b
        invariant
            a <= i <= b <= v.len(),
            r@ == v@.subrange(a as int, i as int),
        decreases b - i,
    {
        r.push(v[i]);
        i += 1;
        assert(v@.subrange(a as int, i as int) == v@.subrange(a as int, i - 1).push(v@[i - 1]));
    }
    r
}

pub fn chars_eq(a: &[char], b: &[char]) -> (r: bool)
    ensures
        r == (a@ == b@),
{
    if a.len() != b.len() {
        return false;
    }
    let mut i: usize = 0;
    while i < a.len()
        invariant
            a.len() == b.len(),
            i <= a.len(),
            a@.take(i as int) == b@.take(i as int),
        decreases a.len() - i,
    {
        if a[i] != b[i] {
            assert(a@.take(i + 1)[i as int] == a@[i as int]);
            assert(b@.take(i + 1)[i as int] == b@[i as int]);
            return false;
        }
        i += 1;
        assert(a@.take(i as int) == a@.take(i - 1).push(a@[i - 1]));
        assert(b@.take(i as int) == b@.take(i - 1).push(b@[i - 1]));
    }
    assert(a@.take(a.len() as int) == a@);
    assert(b@.take(b.len() as int) == b@);
    true
}

/// Does `p` occur in `s` at position `i`?
pub fn occurs_at_exec(s: &[char], p: &[char], i: usize) -> (r: bool)
    ensures
        r == occurs_at(s@, p@, i as int),
{
    if i > s.len() || p.len() > s.len() - i {
        return false;
    }
    let mut k: usize = 0;
    while k < p.len()
        invariant
            i + p.len() <= s.len(),
            k <= p.len(),
            s@.subrange(i as int, i + k) == p@.take(k as int),
        decreases p.len() - k,
    {
        if s[i + k] != p[k] {
            assert(s@.subrange(i as int, i + p.len())[k as int] == s@[i + k]);
            return false;
        }
        k += 1;
        assert(s@.subrange(i as int, i + k) == s@.subrange(i as int, i + k - 1).push(s@[i + k - 1]));
        assert(p@.take(k as int) == p@.take(k - 1).push(p@[k - 1]));
    }
    assert(p@.take(p.len() as int) == p@);
    true
}

pub fn starts_with_exec(s: &[char], p: &[char]) -> (r: bool)
    ensures
        r == starts_with(s@, p@),
{
    occurs_at_exec(s, p, 0)
}

pub fn ends_with_exec(s: &[char], p: &[char]) -> (r: bool)
    ensures
        r == ends_with(s@, p@),
{
    if p.len() > s.len() {
        return false;
    }
    occurs_at_exec(s, p, s.len() - p.len())
}

/// `str::contains`
pub fn contains_exec(s: &[char], p: &[char]) -> (r: bool)
    ensures
        r == contains_seq(s@, p@),
{
    if p.len() > s.len() {
        assert forall|i: int| !occurs_at(s@, p@, i) by {}
        return false;
    }
    let last = s.len() - p.len();
    let mut i: usize = 0;
    while i < last
        invariant
            p.len() <= s.len(),
            last == s.len() - p.len(),
            i <= last,
            forall|j: int| 0 <= j < i ==> !occurs_at(s@, p@, j),
        decreases last - i,
    {
        if occurs_at_exec(s, p, i) {
            return true;
        }
        i += 1;
    }
    if occurs_at_exec(s, p, last) {
        return true;
    }
    assert forall|j: int| !occurs_at(s@, p@, j) by {
        if 0 <= j < i {
        }
    }
    false
}

/// `str::replace` with a non-empty pattern.
pub fn replace_exec(s: &[char], pat: &[char], rep: &[char]) -> (r: Vec<char>)
    requires
        pat.len() > 0,
    ensures
        r@ == replace_all(s@, pat@, rep@),
{
    let mut out: Vec<char> = Vec::new();
    let mut i: usize = 0;
    assert(s@.skip(0) == s@);
    while i < s.len()
        invariant
            pat.len() > 0,
            i <= s.len(),
            out@ + replace_all(s@.skip(i as int), pat@, rep@) == replace_all(s@, pat@, rep@),
        decreases s.len() - i,
    {
        let ghost rest = s@.skip(i as int);
        if occurs_at_exec(s, pat, i) {
            assert(rest.subrange(0, pat.len() as int) == s@.subrange(i as int, i + pat.len()));
            assert(rest.skip(pat.len() as int) == s@.skip(i + pat.len()));
            extend_chars(&mut out, rep);
            i += pat.len();
            assert(out@ + replace_all(s@.skip(i as int), pat@, rep@) == replace_all(s@, pat@, rep@));
        } else {
            proof {
                if pat@.len() <= rest.len() {
                    assert(rest.subrange(0, pat.len() as int) == s@.subrange(i as int, i + pat.len()));
                }
            }
            assert(rest.drop_first() == s@.skip(i + 1));
            assert(rest[0] == s@[i as int]);
            out.push(s[i]);
            i += 1;
            assert(out@ + replace_all(s@.skip(i as int), pat@, rep@) == replace_all(s@, pat@, rep@));
        }
    }
    assert(s@.skip(i as int) =~= Seq::<char>::empty());
    assert(out@ + Seq::<char>::empty() == out@);
    out
}

/// Index of the first `c` at or after `i`, or the length.
pub fn find_char(v: &[char], i: usize, c: char) -> (k: usize)
    requires
        i <= v.len(),
    ensures
        i <= k <= v.len(),
        k - i == len_before(v@.skip(i as int), c),
{
    let mut j = i;
    while j < v.len() && v[j] != c
        invariant
            i <= j <= v.len(),
            forall|m: int| i <= m < j ==> #[trigger] v@[m] != c,
        decreases v.len() - j,
    {
        j += 1;
    }
    proof {
        let s = v@.skip(i as int);
        assert forall|m: int| 0 <= m < j - i implies #[trigger] s[m] != c by {
            assert(s[m] == v@[i + m]);
        }
        lemma_len_before_count(s, c, j - i);
    }
    j
}

/// The line starting at `i` (without its terminator) and the start of
/// the next one.
pub fn next_line(v: &[char], i: usize) -> (r: (Vec<char>, usize))
    requires
        i < v.len(),
    ensures
        i < r.1 <= v.len(),
        lines(v@.skip(i as int)) == seq![r.0@] + lines(v@.skip(r.1 as int)),
{
    let ghost s = v@.skip(i as int);
    let j = find_char(v, i, '\n');
    let k = j - i;
    if j < v.len() {
        assert(s.skip(k + 1) == v@.skip(j + 1));
        assert(s.take(k as int) == v@.subrange(i as int, j as int));
        let mut end = j;
        if j > i && v[j - 1] == '\r' {
            end = j - 1;
        }
        let line = sub_chars(v, i, end);
        assert(line@ == strip_cr(s.take(k as int), true));
        (line, j + 1)
    } else {
        let line = sub_chars(v, i, j);
        assert(line@ == s);
        assert(v@.skip(j as int) =~= Seq::<char>::empty());
        assert(lines(Seq::<char>::empty()) == Seq::<Seq<char>>::empty());
        assert(seq![line@] + Seq::<Seq<char>>::empty() == seq![line@]);
        (line, j)
    }
}

/// `str::trim_start`, as a range start.
pub fn trim_start_index(v: &[char]) -> (i: usize)
    ensures
        i <= v.len(),
        trim_start(v@) == v@.skip(i as int),
{
    let mut i: usize = 0;
    while i < v.len() && char_is_ws(v[i])
        invariant
            i <= v.len(),
            forall|k: int| 0 <= k < i ==> is_ws(#[trigger] v@[k]),
        decreases v.len() - i,
    {
        i += 1;
    }
    proof {
        lemma_trim_start_skip(v@, i as int);
    }
    i
}

/// `str::trim_end`, as a range end.
pub fn trim_end_index(v: &[char]) -> (j: usize)
    ensures
        j <= v.len(),
        trim_end(v@) == v@.take(j as int),
{
    let mut j: usize = v.len();
    while j > 0 && char_is_ws(v[j - 1])
        invariant
            j <= v.len(),
            forall|k: int| j <= k < v.len() ==> is_ws(#[trigger] v@[k]),
        decreases j,
    {
        j -= 1;
    }
    proof {
        lemma_trim_end_take(v@, j as int);
    }
    j
}

pub fn trim_start_chars(v: &[char]) -> (r: Vec<char>)
    ensures
        r@ == trim_start(v@),
{
    let i = trim_start_index(v);
    let r = sub_chars(v, i, v.len());
    assert(r@ == v@.skip(i as int));
    r
}

pub fn trim_end_chars(v: &[char]) -> (r: Vec<char>)
    ensures
        r@ == trim_end(v@),
{
    let j = trim_end_index(v);
    let r = sub_chars(v, 0, j);
    assert(r@ == v@.take(j as int));
    r
}

/// `str::trim`
pub fn trim_chars(v: &[char]) -> (r: Vec<char>)
    ensures
        r@ == trim(v@),
{
    let a = trim_start_chars(v);
    trim_end_chars(&a)
}

/// `str::trim_end_matches` with one character.
pub fn trim_end_char_exec(v: &[char], c: char) -> (r: Vec<char>)
    ensures
        r@ == trim_end_char(v@, c),
{
    let mut j: usize = v.len();
    while j > 0 && v[j - 1] == c
        invariant
            j <= v.len(),
            forall|k: int| j <= k < v.len() ==> #[trigger] v@[k] == c,
        decreases j,
    {
        j -= 1;
    }
    proof {
        lemma_trim_end_char_take(v@, c, j as int);
    }
    let r = sub_chars(v, 0, j);
    assert(r@ == v@.take(j as int));
    r
}

/// Appends the decimal numeral of `n`.
pub fn push_decimal(out: &mut Vec<char>, n: u64)
    ensures
        final(out)@ == old(out)@ + dec_string(n as nat),
    decreases n,
{
    if n >= 10 {
        push_decimal(out, n / 10);
    }
    let d = (n % 10) as u8;
    let c = (d + 48u8) as char;
    proof {
        assert(digit_char((n % 10) as nat) == c);
    }
    out.push(c);
    proof {
        if n >= 10 {
            assert(dec_string(n as nat) == dec_string((n / 10) as nat).push(c));
        } else {
            assert(dec_string(n as nat) == seq![c]);
        }
    }
}

/// Parses a numeral made only of ASCII digits, failing when its value
/// exceeds `max`.
/// `std::str::from_utf8`, owned: `None` where the bytes are not UTF-8.
#[verifier::external_body]
pub fn utf8_string(bytes: &[u8]) -> (r: Option<String>)
    ensures
        r is Some <==> vstd::utf8::valid_utf8(bytes@),
        r matches Some(s) ==> s@ == vstd::utf8::decode_utf8(bytes@),
{
    std::str::from_utf8(bytes).ok().map(|s| s.to_owned())
}

pub fn all_digits_exec(s: &[char]) -> (r: bool)
    ensures
        r == all_digits(s@),
{
    let mut i: usize = 0;
    while i < s.len()
        invariant
            i <= s.len(),
            all_digits(s@.take(i as int)),
        decreases s.len() - i,
    {
        if !('0' <= s[i] && s[i] <= '9') {
            assert(!is_digit(s@[i as int]));
            return false;
        }
        assert(s@.take(i + 1) == s@.take(i as int).push(s@[i as int]));
        i += 1;
    }
    assert(s@.take(i as int) == s@);
    true
}

pub fn parse_decimal(s: &[char], max: u64) -> (r: Option<u64>)
    requires
        all_digits(s@),
    ensures
        r matches Some(v) ==> v == dec_value(s@) && v <= max,
        r is None ==> dec_value(s@) > max,
{
    let mut acc: u64 = 0;
    let mut i: usize = 0;
    while i < s.len()
        invariant
            all_digits(s@),
            i <= s.len(),
            acc == dec_value(s@.take(i as int)),
            acc <= max,
        decreases s.len() - i,
    {
        let d = (s[i] as u32 - '0' as u32) as u64;
        proof {
            assert(is_digit(s@[i as int]));
            lemma_dec_value_push(s@.take(i as int), s@[i as int]);
            assert(s@.take(i + 1) == s@.take(i as int).push(s@[i as int]));
        }
        if d > max {
            proof {
                lemma_dec_value_prefix(s@, i + 1);
            }
            return None;
        }
        if acc > (max - d) / 10 {
            proof {
                assert(acc * 10 + d > max) by (nonlinear_arith)
                    requires
                        acc > (max - d) / 10,
                        d <= max,
                ;
                lemma_dec_value_prefix(s@, i + 1);
            }
            return None;
        }
        assert(acc * 10 + d <= max) by (nonlinear_arith)
            requires
                acc <= (max - d) / 10,
                d <= max,
        ;
        acc = acc * 10 + d;
        i += 1;
    }
    assert(s@.take(s.len() as int) == s@);
    Some(acc)
}

} // verus!

//! Editing kernel arguments and BLS (boot loader specification) entries.

use crate::text::{
    chars_of, contains_exec, contains_seq, extend_chars, find_char, len_before, lines,
    next_line, replace_all, replace_exec, starts_with, starts_with_exec, string_of, sub_chars,
    trim, trim_chars, trim_end, trim_end_chars,
};
use vstd::prelude::*;

verus! {

/// Why a set of kernel arguments or a BLS entry could not be edited.
#[derive(Clone, Copy, Debug, PartialEq, Eq)]
pub enum KargsError {
    /// A replacement was not of the form `KEY=OLD=NEW`.
    WrongReplaceFormat,
    /// The BLS entry has more than one `options` line.
    MultipleOptions,
    /// The BLS entry has no `options` line.
    MissingOptions,
    /// The BLS entry does not name the `metal` platform.
    MissingPlatformId,
}

/// Collects kernel argument edits and applies them to an argument line.
#[derive(Default, PartialEq)]
pub struct KargsEditor {
    append: Vec<String>,
    append_if_missing: Vec<String>,
    replace: Vec<String>,
    delete: Vec<String>,
}

pub open spec fn strings_view(v: Seq<String>) -> Seq<Seq<char>> {
    v.map_values(|s: String| s@)
}

/// Abstract value of a `KargsEditor`: the four lists of arguments.
pub struct KargsEditorSpec {
    pub append: Seq<Seq<char>>,
    pub append_if_missing: Seq<Seq<char>>,
    pub replace: Seq<Seq<char>>,
    pub delete: Seq<Seq<char>>,
}

impl View for KargsEditor {
    type V = KargsEditorSpec;

    closed spec fn view(&self) -> KargsEditorSpec {
        KargsEditorSpec {
            append: strings_view(self.append@),
            append_if_missing: strings_view(self.append_if_missing@),
            replace: strings_view(self.replace@),
            delete: strings_view(self.delete@),
        }
    }
}

pub open spec fn spaced(s: Seq<char>) -> Seq<char> {
    seq![' '] + s + seq![' ']
}

/// Deleting each argument in turn: every ` arg ` becomes a single space.
pub open spec fn apply_deletes(s: Seq<char>, ks: Seq<Seq<char>>) -> Seq<char>
    decreases ks.len(),
{
    if ks.len() == 0 {
        s
    } else {
        apply_deletes(replace_all(s, spaced(trim(ks[0])), seq![' ']), ks.drop_first())
    }
}

/// Appending each argument in turn, each followed by a space.
pub open spec fn apply_appends(s: Seq<char>, ks: Seq<Seq<char>>) -> Seq<char>
    decreases ks.len(),
{
    if ks.len() == 0 {
        s
    } else {
        apply_appends(s + trim(ks[0]) + seq![' '], ks.drop_first())
    }
}

/// Appending each argument not already present as ` arg `.
pub open spec fn apply_appends_if_missing(s: Seq<char>, ks: Seq<Seq<char>>) -> Seq<char>
    decreases ks.len(),
{
    if ks.len() == 0 {
        s
    } else {
        let k = trim(ks[0]);
        let s2 = if contains_seq(s, spaced(k)) {
            s
        } else {
            s + k + seq![' ']
        };
        apply_appends_if_missing(s2, ks.drop_first())
    }
}

/// The parts of `KEY=OLD=NEW`: three non-empty parts without `=`.
pub open spec fn replace_parts(k: Seq<char>) -> Option<(Seq<char>, Seq<char>, Seq<char>)> {
    let a = len_before(k, '=');
    let r1 = k.skip(a + 1 as int);
    let b = len_before(r1, '=');
    let r2 = r1.skip(b + 1 as int);
    if a == 0 || a >= k.len() || b == 0 || b >= r1.len() || r2.len() == 0 || len_before(r2, '=')
        < r2.len() {
        None
    } else {
        Some((k.take(a as int), r1.take(b as int), r2))
    }
}

/// `old` and `new` are the patterns of the replacement `k`.
pub open spec fn replace_pair(k: Seq<char>, old: Seq<char>, new: Seq<char>) -> bool {
    &&& replace_parts(k) is Some
    &&& old == spaced(replace_parts(k)->Some_0.0 + seq!['='] + replace_parts(k)->Some_0.1)
    &&& new == spaced(replace_parts(k)->Some_0.0 + seq!['='] + replace_parts(k)->Some_0.2)
}

pub open spec fn all_replaces_valid(ks: Seq<Seq<char>>) -> bool {
    forall|i: int| 0 <= i < ks.len() ==> (#[trigger] replace_parts(ks[i])) is Some
}

/// Applying each `KEY=OLD=NEW` replacement in turn.
pub open spec fn apply_replaces(s: Seq<char>, ks: Seq<Seq<char>>) -> Seq<char>
    decreases ks.len(),
{
    if ks.len() == 0 {
        s
    } else {
        let (key, old, new) = replace_parts(ks[0])->Some_0;
        apply_replaces(
            replace_all(
                s,
                spaced(key + seq!['='] + old),
                spaced(key + seq!['='] + new),
            ),
            ks.drop_first(),
        )
    }
}

/// The argument line an editor produces from `cur`: deletions, then
/// appends, then conditional appends, then replacements, then trimming.
pub open spec fn apply_spec(e: KargsEditorSpec, cur: Seq<char>) -> Result<Seq<char>, KargsError> {
    if !all_replaces_valid(e.replace) {
        Err(KargsError::WrongReplaceFormat)
    } else {
        let s0 = spaced(cur);
        let s1 = apply_deletes(s0, e.delete);
        let s2 = apply_appends(s1, e.append);
        let s3 = apply_appends_if_missing(s2, e.append_if_missing);
        let s4 = apply_replaces(s3, e.replace);
        Ok(trim(s4))
    }
}

pub open spec fn editor_is_empty(e: KargsEditorSpec) -> bool {
    e.append.len() == 0 && e.append_if_missing.len() == 0 && e.replace.len() == 0
        && e.delete.len() == 0
}

/// Splits `KEY=OLD=NEW` into the old and new ` KEY=VALUE ` patterns.
fn split_replace(k: &[char]) -> (r: Option<(Vec<char>, Vec<char>)>)
    ensures
        match r {
            Some((old, new)) => replace_pair(k@, old@, new@),
            None => replace_parts(k@) is None,
        },
{
    let a = find_char(k, 0, '=');
    assert(k@.skip(0) == k@);
    if a == 0 || a >= k.len() {
        return None;
    }
    let b_end = find_char(k, a + 1, '=');
    let b = b_end - (a + 1);
    let ghost r1 = k@.skip(a + 1);
    if b == 0 || b_end >= k.len() {
        return None;
    }
    let c_end = find_char(k, b_end + 1, '=');
    let ghost r2 = r1.skip(b + 1);
    assert(r2 == k@.skip(b_end + 1));
    if b_end + 1 >= k.len() || c_end < k.len() {
        return None;
    }
    let key = sub_chars(k, 0, a);
    let old_v = sub_chars(k, a + 1, b_end);
    let new_v = sub_chars(k, b_end + 1, k.len());
    assert(key@ == k@.take(a as int));
    assert(old_v@ == r1.take(b as int));
    assert(new_v@ == r2);
    let mut old: Vec<char> = Vec::new();
    old.push(' ');
    extend_chars(&mut old, &key);
    old.push('=');
    extend_chars(&mut old, &old_v);
    old.push(' ');
    let mut new: Vec<char> = Vec::new();
    new.push(' ');
    extend_chars(&mut new, &key);
    new.push('=');
    extend_chars(&mut new, &new_v);
    new.push(' ');
    assert(old@ == spaced(key@ + seq!['='] + old_v@));
    assert(new@ == spaced(key@ + seq!['='] + new_v@));
    Some((old, new))
}

fn spaced_exec(k: &[char]) -> (r: Vec<char>)
    ensures
        r@ == spaced(k@),
{
    let mut r: Vec<char> = Vec::new();
    r.push(' ');
    extend_chars(&mut r, k);
    r.push(' ');
    r
}

impl KargsEditor {
    /// An editor with nothing to do.
    pub fn new() -> (r: Self)
        ensures
            editor_is_empty(r@),
    {
        KargsEditor {
            append: Vec::new(),
            append_if_missing: Vec::new(),
            replace: Vec::new(),
            delete: Vec::new(),
        }
    }

    /// Adds arguments to append.
    pub fn append(&mut self, args: &[String]) -> (r: &mut Self)
        ensures
            (*r)@ == (KargsEditorSpec {
                append: old(self)@.append + strings_view(args@),
                ..old(self)@
            }),
            *final(self) == *final(r),
    {
        let mut i: usize = 0;
        while i < args.len()
            invariant
                i <= args.len(),
                self@ == (KargsEditorSpec {
                    append: old(self)@.append + strings_view(args@.take(i as int)),
                    ..old(self)@
                }),
            decreases args.len() - i,
        {
            let ghost prev = self.append@;
            self.append.push(args[i].clone());
            i += 1;
            assert(args@.take(i as int) =~= args@.take(i - 1).push(args@[i - 1]));
            assert(strings_view(args@.take(i as int)) =~= strings_view(args@.take(i - 1)).push(
                args@[i - 1]@,
            ));
            assert(strings_view(self.append@) =~= strings_view(prev).push(args@[i - 1]@));
        }
        assert(args@.take(args.len() as int) == args@);
        self
    }

    /// Adds arguments to append unless already present.
    pub fn append_if_missing(&mut self, args: &[String]) -> (r: &mut Self)
        ensures
            (*r)@ == (KargsEditorSpec {
                append_if_missing: old(self)@.append_if_missing + strings_view(args@),
                ..old(self)@
            }),
            *final(self) == *final(r),
    {
        let mut i: usize = 0;
        while i < args.len()
            invariant
                i <= args.len(),
                self@ == (KargsEditorSpec {
                    append_if_missing: old(self)@.append_if_missing + strings_view(
                        args@.take(i as int),
                    ),
                    ..old(self)@
                }),
            decreases args.len() - i,
        {
            let ghost prev = self.append_if_missing@;
            self.append_if_missing.push(args[i].clone());
            i += 1;
            assert(args@.take(i as int) =~= args@.take(i - 1).push(args@[i - 1]));
            assert(strings_view(args@.take(i as int)) =~= strings_view(args@.take(i - 1)).push(
                args@[i - 1]@,
            ));
            assert(strings_view(self.append_if_missing@) =~= strings_view(prev).push(args@[i - 1]@));
        }
        assert(args@.take(args.len() as int) == args@);
        self
    }

    /// Adds `KEY=OLD=NEW` replacements.
    pub fn replace(&mut self, args: &[String]) -> (r: &mut Self)
        ensures
            (*r)@ == (KargsEditorSpec {
                replace: old(self)@.replace + strings_view(args@),
                ..old(self)@
            }),
            *final(self) == *final(r),
    {
        let mut i: usize = 0;
        while i < args.len()
            invariant
                i <= args.len(),
                self@ == (KargsEditorSpec {
                    replace: old(self)@.replace + strings_view(args@.take(i as int)),
                    ..old(self)@
                }),
            decreases args.len() - i,
        {
            let ghost prev = self.replace@;
            self.replace.push(args[i].clone());
            i += 1;
            assert(args@.take(i as int) =~= args@.take(i - 1).push(args@[i - 1]));
            assert(strings_view(args@.take(i as int)) =~= strings_view(args@.take(i - 1)).push(
                args@[i - 1]@,
            ));
            assert(strings_view(self.replace@) =~= strings_view(prev).push(args@[i - 1]@));
        }
        assert(args@.take(args.len() as int) == args@);
        self
    }

    /// Adds arguments to delete.
    pub fn delete(&mut self, args: &[String]) -> (r: &mut Self)
        ensures
            (*r)@ == (KargsEditorSpec {
                delete: old(self)@.delete + strings_view(args@),
                ..old(self)@
            }),
            *final(self) == *final(r),
    {
        let mut i: usize = 0;
        while i < args.len()
            invariant
                i <= args.len(),
                self@ == (KargsEditorSpec {
                    delete: old(self)@.delete + strings_view(args@.take(i as int)),
                    ..old(self)@
                }),
            decreases args.len() - i,
        {
            let ghost prev = self.delete@;
            self.delete.push(args[i].clone());
            i += 1;
            assert(args@.take(i as int) =~= args@.take(i - 1).push(args@[i - 1]));
            assert(strings_view(args@.take(i as int)) =~= strings_view(args@.take(i - 1)).push(
                args@[i - 1]@,
            ));
            assert(strings_view(self.delete@) =~= strings_view(prev).push(args@[i - 1]@));
        }
        assert(args@.take(args.len() as int) == args@);
        self
    }

    /// Applies the edits to an argument line.
    pub fn apply_to(&self, current_kargs: &str) -> (r: Result<String, KargsError>)
        ensures
            match r {
                Ok(s) => apply_spec(self@, current_kargs@) == Ok::<Seq<char>, KargsError>(s@),
                Err(e) => apply_spec(self@, current_kargs@) == Err::<Seq<char>, KargsError>(e),
            },
    {
        let ghost e = self@;
        // check the replacements first; nothing else can fail
        let mut pairs: Vec<(Vec<char>, Vec<char>)> = Vec::new();
        let mut i: usize = 0;
        while i < self.replace.len()
            invariant
                e == self@,
                i <= self.replace.len(),
                pairs.len() == i,
                forall|j: int|
                    0 <= j < i ==> replace_pair(e.replace[j], #[trigger] pairs@[j].0@, pairs@[j].1@),
            decreases self.replace.len() - i,
        {
            let k = chars_of(self.replace[i].as_str());
            assert(e.replace[i as int] == self.replace@[i as int]@);
            match split_replace(&k) {
                Some(p) => {
                    pairs.push(p);
                },
                None => {
                    return Err(KargsError::WrongReplaceFormat);
                },
            }
            i += 1;
        }
        let cur = chars_of(current_kargs);
        let mut s = spaced_exec(&cur);
        assert(e.delete.skip(0) == e.delete);
        assert(e.append.skip(0) == e.append);
        assert(e.append_if_missing.skip(0) == e.append_if_missing);
        assert(e.replace.skip(0) == e.replace);
        // deletions
        let mut i: usize = 0;
        while i < self.delete.len()
            invariant
                e == self@,
                i <= self.delete.len(),
                apply_deletes(s@, e.delete.skip(i as int)) == apply_deletes(
                    spaced(current_kargs@),
                    e.delete,
                ),
            decreases self.delete.len() - i,
        {
            let k = trim_chars(&chars_of(self.delete[i].as_str()));
            let pat = spaced_exec(&k);
            assert(e.delete[i as int] == self.delete@[i as int]@);
            let one = vec![' '];
            assert(one@ == seq![' ']);
            proof {
                assert(e.delete.skip(i as int)[0] == e.delete[i as int]);
                assert(e.delete.skip(i as int).drop_first() == e.delete.skip(i + 1));
            }
            s = replace_exec(&s, &pat, &one);
            i += 1;
        }
        assert(e.delete.skip(i as int) =~= Seq::<Seq<char>>::empty());
        let ghost s1 = s@;
        // appends
        let mut i: usize = 0;
        while i < self.append.len()
            invariant
                e == self@,
                i <= self.append.len(),
                apply_appends(s@, e.append.skip(i as int)) == apply_appends(s1, e.append),
            decreases self.append.len() - i,
        {
            let k = trim_chars(&chars_of(self.append[i].as_str()));
            proof {
                assert(e.append.skip(i as int)[0] == e.append[i as int]);
                assert(e.append.skip(i as int).drop_first() == e.append.skip(i + 1));
            }
            assert(e.append[i as int] == self.append@[i as int]@);
            let ghost before = s@;
            extend_chars(&mut s, &k);
            s.push(' ');
            assert(s@ =~= before + trim(e.append[i as int]) + seq![' ']);
            i += 1;
        }
        assert(e.append.skip(i as int) =~= Seq::<Seq<char>>::empty());
        let ghost s2 = s@;
        // conditional appends
        let mut i: usize = 0;
        while i < self.append_if_missing.len()
            invariant
                e == self@,
                i <= self.append_if_missing.len(),
                apply_appends_if_missing(s@, e.append_if_missing.skip(i as int))
                    == apply_appends_if_missing(s2, e.append_if_missing),
            decreases self.append_if_missing.len() - i,
        {
            let k = trim_chars(&chars_of(self.append_if_missing[i].as_str()));
            let pat = spaced_exec(&k);
            proof {
                assert(e.append_if_missing.skip(i as int)[0] == e.append_if_missing[i as int]);
                assert(e.append_if_missing.skip(i as int).drop_first()
                    == e.append_if_missing.skip(i + 1));
            }
            assert(e.append_if_missing[i as int] == self.append_if_missing@[i as int]@);
            let ghost before = s@;
            if !contains_exec(&s, &pat) {
                extend_chars(&mut s, &k);
                s.push(' ');
                assert(s@ =~= before + trim(e.append_if_missing[i as int]) + seq![' ']);
            }
            i += 1;
        }
        assert(e.append_if_missing.skip(i as int) =~= Seq::<Seq<char>>::empty());
        let ghost s3 = s@;
        // replacements
        let mut i: usize = 0;
        while i < pairs.len()
            invariant
                e == self@,
                pairs.len() == e.replace.len(),
                i <= pairs.len(),
                forall|j: int|
                    0 <= j < pairs.len() ==> replace_pair(e.replace[j], #[trigger] pairs@[j].0@, pairs@[j].1@),
                apply_replaces(s@, e.replace.skip(i as int)) == apply_replaces(s3, e.replace),
            decreases pairs.len() - i,
        {
            proof {
                assert(e.replace.skip(i as int)[0] == e.replace[i as int]);
                assert(e.replace.skip(i as int).drop_first() == e.replace.skip(i + 1));
                assert(replace_pair(e.replace[i as int], pairs@[i as int].0@, pairs@[i as int].1@));
            }
            assert(pairs@[i as int].0@.len() > 0);
            s = replace_exec(&s, &pairs[i].0, &pairs[i].1);
            i += 1;
        }
        assert(e.replace.skip(i as int) =~= Seq::<Seq<char>>::empty());
        assert forall|j: int| 0 <= j < e.replace.len() implies (#[trigger] replace_parts(
            e.replace[j],
        )) is Some by {
            assert(replace_pair(e.replace[j], pairs@[j].0@, pairs@[j].1@));
        }
        let out = trim_chars(&s);
        Ok(string_of(&out))
    }

    /// `None` if there is nothing to do, else the edited argument line.
    pub fn maybe_apply_to(&self, current_kargs: &str) -> (r: Result<Option<String>, KargsError>)
        ensures
            editor_is_empty(self@) ==> r == Ok::<Option<String>, KargsError>(None),
            !editor_is_empty(self@) ==> match r {
                Ok(Some(s)) => apply_spec(self@, current_kargs@) == Ok::<Seq<char>, KargsError>(
                    s@,
                ),
                Ok(None) => false,
                Err(e) => apply_spec(self@, current_kargs@) == Err::<Seq<char>, KargsError>(e),
            },
    {
        if self.append.len() == 0 && self.append_if_missing.len() == 0 && self.replace.len() == 0
            && self.delete.len() == 0 {
            Ok(None)
        } else {
            match self.apply_to(current_kargs) {
                Ok(s) => Ok(Some(s)),
                Err(e) => Err(e),
            }
        }
    }
}

// ---------------------------------------------------------------------------
// BLS entries
// ---------------------------------------------------------------------------

pub open spec fn is_options_line(l: Seq<char>) -> bool {
    starts_with(l, "options "@)
}

/// The arguments of an `options` line.
pub open spec fn options_value(l: Seq<char>) -> Seq<char> {
    l.skip(8)
}

pub open spec fn count_options(ls: Seq<Seq<char>>) -> nat
    decreases ls.len(),
{
    if ls.len() == 0 {
        0
    } else {
        (if is_options_line(ls[0]) {
            1nat
        } else {
            0nat
        }) + count_options(ls.drop_first())
    }
}

/// The trimmed arguments of the first `options` line.
pub open spec fn first_options(ls: Seq<Seq<char>>) -> Option<Seq<char>>
    decreases ls.len(),
{
    if ls.len() == 0 {
        None
    } else if is_options_line(ls[0]) {
        Some(trim(options_value(ls[0])))
    } else {
        first_options(ls.drop_first())
    }
}

/// The lines of an entry, each followed by `'\n'`: the `options` line
/// replaced by `options <new>` and every other line trimmed at its end.
pub open spec fn rewrite_options(ls: Seq<Seq<char>>, new_options: Seq<char>) -> Seq<char>
    decreases ls.len(),
{
    if ls.len() == 0 {
        seq![]
    } else {
        let l = ls[0];
        let out = if is_options_line(l) {
            "options "@ + trim(new_options)
        } else {
            trim_end(l)
        };
        out.push('\n') + rewrite_options(ls.drop_first(), new_options)
    }
}

/// Deleting each ` arg ` (untrimmed) from a spaced argument line.
pub open spec fn delete_spaced(s: Seq<char>, ks: Seq<Seq<char>>) -> Seq<char>
    decreases ks.len(),
{
    if ks.len() == 0 {
        s
    } else {
        delete_spaced(replace_all(s, spaced(ks[0]), seq![' ']), ks.drop_first())
    }
}

/// Appending each argument after a space.
pub open spec fn append_spaced(s: Seq<char>, ks: Seq<Seq<char>>) -> Seq<char>
    decreases ks.len(),
{
    if ks.len() == 0 {
        s
    } else {
        append_spaced(s + seq![' '] + ks[0], ks.drop_first())
    }
}

pub open spec fn optional_strings(v: Option<Seq<String>>) -> Seq<Seq<char>> {
    match v {
        Some(v) => strings_view(v),
        None => seq![],
    }
}

/// The new `options` line after deleting and appending arguments.
pub open spec fn edited_options_line(
    l: Seq<char>,
    dels: Seq<Seq<char>>,
    apps: Seq<Seq<char>>,
) -> Seq<char> {
    "options "@ + append_spaced(trim(delete_spaced(spaced(options_value(l)), dels)), apps)
}

pub open spec fn rewrite_kargs(
    ls: Seq<Seq<char>>,
    dels: Seq<Seq<char>>,
    apps: Seq<Seq<char>>,
) -> Seq<char>
    decreases ls.len(),
{
    if ls.len() == 0 {
        seq![]
    } else {
        let l = ls[0];
        let out = if is_options_line(l) {
            edited_options_line(l, dels, apps)
        } else {
            trim_end(l)
        };
        out.push('\n') + rewrite_kargs(ls.drop_first(), dels, apps)
    }
}

/// The arguments of the first `options` line of a BLS entry, and the
/// number of `options` lines; `None` if there is none.
pub fn bls_options(orig_contents: &str) -> (r: Option<(String, usize)>)
    ensures
        match r {
            Some((opts, n)) => first_options(lines(orig_contents@)) == Some(opts@) && n
                == count_options(lines(orig_contents@)) && n >= 1,
            None => count_options(lines(orig_contents@)) == 0,
        },
{
    let v = chars_of(orig_contents);
    let prefix = chars_of("options ");
    proof {
        reveal_strlit("options ");
    }
    let mut i: usize = 0;
    let mut n: usize = 0;
    let mut first: Option<Vec<char>> = None;
    assert(v@.skip(0) == v@);
    while i < v.len()
        invariant
            i <= v.len(),
            prefix@ == "options "@,
            prefix@.len() == 8,
            n <= i,
            n + count_options(lines(v@.skip(i as int))) == count_options(lines(v@)),
            n == 0 ==> first is None && first_options(lines(v@.skip(i as int))) == first_options(
                lines(v@),
            ),
            n > 0 ==> first is Some && first_options(lines(v@)) == Some(first->Some_0@),
        decreases v.len() - i,
    {
        let (line, next) = next_line(&v, i);
        let ghost ls = lines(v@.skip(i as int));
        assert(ls[0] == line@);
        assert(ls.drop_first() == lines(v@.skip(next as int)));
        if starts_with_exec(&line, &prefix) {
            if n == 0 {
                let val = sub_chars(&line, 8, line.len());
                first = Some(trim_chars(&val));
            }
            n += 1;
        }
        i = next;
    }
    assert(v@.skip(i as int) =~= Seq::<char>::empty());
    if n == 0 {
        None
    } else {
        match first {
            Some(f) => Some((string_of(&f), n)),
            None => None,
        }
    }
}

/// Rewrites a BLS entry with exactly one `options` line so that the line
/// holds `new_options`; other lines are trimmed at their end.
pub fn replace_bls_options(orig_contents: &str, new_options: &str) -> (r: String)
    requires
        count_options(lines(orig_contents@)) == 1,
    ensures
        r@ == rewrite_options(lines(orig_contents@), new_options@),
{
    let v = chars_of(orig_contents);
    let prefix = chars_of("options ");
    let new_trimmed = trim_chars(&chars_of(new_options));
    proof {
        reveal_strlit("options ");
    }
    let mut out: Vec<char> = Vec::new();
    let mut i: usize = 0;
    assert(v@.skip(0) == v@);
    while i < v.len()
        invariant
            i <= v.len(),
            prefix@ == "options "@,
            prefix@.len() == 8,
            new_trimmed@ == trim(new_options@),
            out@ + rewrite_options(lines(v@.skip(i as int)), new_options@) == rewrite_options(
                lines(v@),
                new_options@,
            ),
        decreases v.len() - i,
    {
        let (line, next) = next_line(&v, i);
        let ghost ls = lines(v@.skip(i as int));
        assert(ls[0] == line@);
        assert(ls.drop_first() == lines(v@.skip(next as int)));
        let ghost before = out@;
        if starts_with_exec(&line, &prefix) {
            extend_chars(&mut out, &prefix);
            extend_chars(&mut out, &new_trimmed);
        } else {
            let t = trim_end_chars(&line);
            extend_chars(&mut out, &t);
        }
        out.push('\n');
        assert(out@ + rewrite_options(ls.drop_first(), new_options@) == before
            + rewrite_options(ls, new_options@));
        i = next;
    }
    assert(v@.skip(i as int) =~= Seq::<char>::empty());
    assert(out@ + Seq::<char>::empty() == out@);
    string_of(&out)
}

fn delete_spaced_exec(s: Vec<char>, dels: &[String]) -> (r: Vec<char>)
    ensures
        r@ == delete_spaced(s@, strings_view(dels@)),
{
    let mut s = s;
    let ghost s0 = s@;
    let ghost ks = strings_view(dels@);
    let mut i: usize = 0;
    assert(ks.skip(0) == ks);
    while i < dels.len()
        invariant
            ks == strings_view(dels@),
            i <= dels.len(),
            delete_spaced(s@, ks.skip(i as int)) == delete_spaced(s0, ks),
        decreases dels.len() - i,
    {
        let pat = spaced_exec(&chars_of(dels[i].as_str()));
        let one = vec![' '];
        assert(one@ == seq![' ']);
        assert(ks.skip(i as int)[0] == dels@[i as int]@);
        assert(ks.skip(i as int).drop_first() == ks.skip(i + 1));
        s = replace_exec(&s, &pat, &one);
        i += 1;
    }
    assert(ks.skip(i as int) =~= Seq::<Seq<char>>::empty());
    s
}

fn append_spaced_exec(s: &mut Vec<char>, apps: &[String])
    ensures
        final(s)@ == append_spaced(old(s)@, strings_view(apps@)),
{
    let ghost s0 = s@;
    let ghost ks = strings_view(apps@);
    let mut i: usize = 0;
    assert(ks.skip(0) == ks);
    while i < apps.len()
        invariant
            ks == strings_view(apps@),
            i <= apps.len(),
            append_spaced(s@, ks.skip(i as int)) == append_spaced(s0, ks),
        decreases apps.len() - i,
    {
        let a = chars_of(apps[i].as_str());
        assert(ks.skip(i as int)[0] == apps@[i as int]@);
        assert(ks.skip(i as int).drop_first() == ks.skip(i + 1));
        let ghost before = s@;
        s.push(' ');
        extend_chars(s, &a);
        assert(s@ =~= before + seq![' '] + a@);
        i += 1;
    }
    assert(ks.skip(i as int) =~= Seq::<Seq<char>>::empty());
}

/// Deletes and appends kernel arguments on the `options` line of a BLS
/// entry. Deleted arguments are matched as whole ` arg ` words.
pub fn bls_entry_delete_and_append_kargs(
    orig_contents: &str,
    delete_args: Option<&Vec<String>>,
    append_args: Option<&Vec<String>>,
) -> (r: Result<String, KargsError>)
    ensures
        ({
            let ls = lines(orig_contents@);
            let dels = optional_strings(
                match delete_args {
                    Some(v) => Some(v@),
                    None => None,
                },
            );
            let apps = optional_strings(
                match append_args {
                    Some(v) => Some(v@),
                    None => None,
                },
            );
            match r {
                Ok(s) => count_options(ls) == 1 && s@ == rewrite_kargs(ls, dels, apps),
                Err(e) => (count_options(ls) == 0 && e == KargsError::MissingOptions) || (
                count_options(ls) > 1 && e == KargsError::MultipleOptions),
            }
        }),
{
    let empty: Vec<String> = Vec::new();
    let dels: &[String] = match delete_args {
        Some(v) => v.as_slice(),
        None => empty.as_slice(),
    };
    let apps: &[String] = match append_args {
        Some(v) => v.as_slice(),
        None => empty.as_slice(),
    };
    let ghost ds = strings_view(dels@);
    let ghost aps = strings_view(apps@);
    assert(ds == optional_strings(
        match delete_args {
            Some(v) => Some(v@),
            None => None,
        },
    ));
    assert(aps == optional_strings(
        match append_args {
            Some(v) => Some(v@),
            None => None,
        },
    ));
    let v = chars_of(orig_contents);
    let prefix = chars_of("options ");
    proof {
        reveal_strlit("options ");
    }
    let mut out: Vec<char> = Vec::new();
    let mut found = false;
    let mut i: usize = 0;
    assert(v@.skip(0) == v@);
    while i < v.len()
        invariant
            i <= v.len(),
            prefix@ == "options "@,
            prefix@.len() == 8,
            ds == strings_view(dels@),
            aps == strings_view(apps@),
            v@ == orig_contents@,
            (if found {
                1nat
            } else {
                0nat
            }) + count_options(lines(v@.skip(i as int))) == count_options(lines(v@)),
            out@ + rewrite_kargs(lines(v@.skip(i as int)), ds, aps) == rewrite_kargs(
                lines(v@),
                ds,
                aps,
            ),
        decreases v.len() - i,
    {
        let (line, next) = next_line(&v, i);
        let ghost ls = lines(v@.skip(i as int));
        assert(ls[0] == line@);
        assert(ls.drop_first() == lines(v@.skip(next as int)));
        let ghost before = out@;
        if starts_with_exec(&line, &prefix) {
            if found {
                assert(ls.len() > 0);
                assert(is_options_line(ls[0]));
                assert(count_options(ls) == 1 + count_options(ls.drop_first()));
                assert(count_options(lines(orig_contents@)) > 1);
                return Err(KargsError::MultipleOptions);
            }
            let body = spaced_exec(&sub_chars(&line, 8, line.len()));
            let deleted = delete_spaced_exec(body, dels);
            let mut opt = trim_chars(&deleted);
            append_spaced_exec(&mut opt, apps);
            extend_chars(&mut out, &prefix);
            extend_chars(&mut out, &opt);
            found = true;
        } else {
            let t = trim_end_chars(&line);
            extend_chars(&mut out, &t);
        }
        out.push('\n');
        assert(out@ + rewrite_kargs(ls.drop_first(), ds, aps) == before + rewrite_kargs(
            ls,
            ds,
            aps,
        ));
        i = next;
    }
    assert(v@.skip(i as int) =~= Seq::<char>::empty());
    assert(out@ + Seq::<char>::empty() == out@);
    if !found {
        return Err(KargsError::MissingOptions);
    }
    Ok(string_of(&out))
}

/// Replaces the `metal` platform ID in a BLS entry.
pub fn bls_entry_write_platform(orig_contents: &str, platform: &str) -> (r: Result<
    String,
    KargsError,
>)
    ensures
        ({
            let new = replace_all(
                orig_contents@,
                "ignition.platform.id=metal"@,
                "ignition.platform.id="@ + platform@,
            );
            match r {
                Ok(s) => s@ == new && new != orig_contents@,
                Err(e) => e == KargsError::MissingPlatformId && new == orig_contents@,
            }
        }),
{
    let v = chars_of(orig_contents);
    let pat = chars_of("ignition.platform.id=metal");
    let mut rep = chars_of("ignition.platform.id=");
    let p = chars_of(platform);
    extend_chars(&mut rep, &p);
    proof {
        reveal_strlit("ignition.platform.id=metal");
    }
    let new = replace_exec(&v, &pat, &rep);
    if crate::text::chars_eq(&new, &v) {
        Err(KargsError::MissingPlatformId)
    } else {
        Ok(string_of(&new))
    }
}

/// Surrounds a string with single spaces.
pub fn add_whitespaces(s: &str) -> (r: String)
    ensures
        r@ == spaced(s@),
{
    string_of(&spaced_exec(&chars_of(s)))
}

} // verus!

verus! {

/// Why the `options` line of a BLS entry could not be visited.
#[derive(Debug, Clone, PartialEq, Eq)]
pub enum BlsVisitError<E> {
    /// The entry has no `options` line.
    MissingOptions,
    /// The entry has more than one `options` line.
    MultipleOptions,
    /// The visitor failed.
    Visitor(E),
}

/// Hands the trimmed arguments of the entry's `options` line to `f`;
/// where `f` gives new arguments, returns the entry with the line
/// rewritten (and every other line trimmed at its end), else `None`.
pub fn visit_bls_entry_options<E, F: Fn(&str) -> Result<Option<String>, E>>(
    orig_contents: &str,
    f: F,
) -> (r: Result<Option<String>, BlsVisitError<E>>)
    requires
        forall|s: &str| #[trigger] f.requires((s,)),
    ensures
        count_options(lines(orig_contents@)) == 0 ==> r matches Err(BlsVisitError::MissingOptions),
        count_options(lines(orig_contents@)) > 0 ==> exists|arg: &str, fr: Result<Option<String>, E>|
            #![trigger f.ensures((arg,), fr)]
            Some(arg@) == first_options(lines(orig_contents@)) && f.ensures((arg,), fr) && match fr {
                Err(e) => r == Err::<Option<String>, BlsVisitError<E>>(BlsVisitError::Visitor(e)),
                Ok(_) if count_options(lines(orig_contents@)) > 1 => r matches Err(
                    BlsVisitError::MultipleOptions,
                ),
                Ok(None) => r matches Ok(None),
                Ok(Some(n)) => r matches Ok(Some(c)) && c@ == rewrite_options(
                    lines(orig_contents@),
                    n@,
                ),
            },
{
    let (opts, n) = match bls_options(orig_contents) {
        Some(x) => x,
        None => return Err(BlsVisitError::MissingOptions),
    };
    let arg = opts.as_str();
    let fr = f(arg);
    let ghost g = fr;
    assert(f.ensures((arg,), g));
    match fr {
        Err(e) => Err(BlsVisitError::Visitor(e)),
        Ok(x) => {
            if n > 1 {
                return Err(BlsVisitError::MultipleOptions);
            }
            match x {
                None => Ok(None),
                Some(new_options) => Ok(Some(replace_bls_options(orig_contents, new_options.as_str()))),
            }
        },
    }
}

} // verus!

verus! {

proof fn lemma_trim_start_append(s: Seq<char>, t: Seq<char>)
    ensures
        crate::text::trim_start(s + t) == (if crate::text::trim_start(s).len() > 0 {
            crate::text::trim_start(s) + t
        } else {
            crate::text::trim_start(t)
        }),
    decreases s.len(),
{
    if s.len() == 0 {
        assert(s + t =~= t);
    } else if crate::text::is_ws(s[0]) {
        assert((s + t).drop_first() =~= s.drop_first() + t);
        lemma_trim_start_append(s.drop_first(), t);
    } else {
        assert((s + t)[0] == s[0]);
    }
}

/// Surrounding a line with spaces does not change it once trimmed.
proof fn lemma_trim_spaced(s: Seq<char>)
    ensures
        trim(spaced(s)) == trim(s),
{
    let sp = seq![' '];
    assert(crate::text::is_ws(' '));
    assert(spaced(s).drop_first() =~= s + sp);
    assert(spaced(s)[0] == ' ');
    assert(crate::text::trim_start(spaced(s)) == crate::text::trim_start(s + sp));
    lemma_trim_start_append(s, sp);
    if crate::text::trim_start(s).len() > 0 {
        let x = crate::text::trim_start(s) + sp;
        assert(x.drop_last() =~= crate::text::trim_start(s));
        assert(x.last() == ' ');
        assert(crate::text::trim_end(x) == crate::text::trim_end(x.drop_last()));
    } else {
        assert(sp.drop_first() =~= Seq::<char>::empty());
        assert(sp[0] == ' ');
        assert(crate::text::trim_start(sp) == crate::text::trim_start(sp.drop_first()));
        assert(crate::text::trim_start(s) =~= Seq::<char>::empty());
    }
}

/// An editor with nothing to do gives back the line, trimmed.
pub proof fn lemma_empty_editor_trims(e: KargsEditorSpec, cur: Seq<char>)
    requires
        editor_is_empty(e),
    ensures
        apply_spec(e, cur) == Ok::<Seq<char>, KargsError>(trim(cur)),
{
    lemma_trim_spaced(cur);
}

/// The text that appending the arguments adds: each argument, trimmed
/// and followed by a space, in order.
pub open spec fn appended_text(ks: Seq<Seq<char>>) -> Seq<char> {
    ks.map_values(|k: Seq<char>| trim(k) + seq![' ']).flatten()
}

/// Every argument given to append is added, in order, after the line.
pub proof fn lemma_appends_add_all(s: Seq<char>, ks: Seq<Seq<char>>)
    ensures
        apply_appends(s, ks) == s + appended_text(ks),
    decreases ks.len(),
{
    let f = |k: Seq<char>| trim(k) + seq![' '];
    if ks.len() == 0 {
        assert(ks.map_values(f) =~= Seq::<Seq<char>>::empty());
        assert(s + Seq::<char>::empty() =~= s);
    } else {
        lemma_appends_add_all(s + trim(ks[0]) + seq![' '], ks.drop_first());
        assert(ks.map_values(f).drop_first() =~= ks.drop_first().map_values(f));
        assert(ks.map_values(f).first() == trim(ks[0]) + seq![' ']);
        assert(s + trim(ks[0]) + seq![' '] + appended_text(ks.drop_first()) =~= s + (trim(ks[0])
            + seq![' '] + appended_text(ks.drop_first())));
    }
}

/// An editor that only appends adds every argument, in order, after the
/// current line, then trims.
pub proof fn lemma_append_only_editor(e: KargsEditorSpec, cur: Seq<char>)
    requires
        e.delete.len() == 0,
        e.append_if_missing.len() == 0,
        e.replace.len() == 0,
    ensures
        apply_spec(e, cur) == Ok::<Seq<char>, KargsError>(trim(spaced(cur) + appended_text(e.append))),
{
    lemma_appends_add_all(spaced(cur), e.append);
}

/// Appending two lists of arguments is appending one, then the other.
pub proof fn lemma_appends_compose(s: Seq<char>, a: Seq<Seq<char>>, b: Seq<Seq<char>>)
    ensures
        apply_appends(s, a + b) == apply_appends(apply_appends(s, a), b),
    decreases a.len(),
{
    if a.len() == 0 {
        assert(a + b =~= b);
    } else {
        assert((a + b)[0] == a[0]);
        assert((a + b).drop_first() =~= a.drop_first() + b);
        lemma_appends_compose(s + trim(a[0]) + seq![' '], a.drop_first(), b);
    }
}

/// Deleting two lists of arguments is deleting one, then the other.
pub proof fn lemma_deletes_compose(s: Seq<char>, a: Seq<Seq<char>>, b: Seq<Seq<char>>)
    ensures
        apply_deletes(s, a + b) == apply_deletes(apply_deletes(s, a), b),
    decreases a.len(),
{
    if a.len() == 0 {
        assert(a + b =~= b);
    } else {
        assert((a + b)[0] == a[0]);
        assert((a + b).drop_first() =~= a.drop_first() + b);
        lemma_deletes_compose(replace_all(s, spaced(trim(a[0])), seq![' ']), a.drop_first(), b);
    }
}

/// Conditional appends of two lists are those of one, then the other.
pub proof fn lemma_appends_if_missing_compose(s: Seq<char>, a: Seq<Seq<char>>, b: Seq<Seq<char>>)
    ensures
        apply_appends_if_missing(s, a + b) == apply_appends_if_missing(apply_appends_if_missing(s, a), b),
    decreases a.len(),
{
    if a.len() == 0 {
        assert(a + b =~= b);
    } else {
        assert((a + b)[0] == a[0]);
        assert((a + b).drop_first() =~= a.drop_first() + b);
        let k = trim(a[0]);
        let s2 = if contains_seq(s, spaced(k)) {
            s
        } else {
            s + k + seq![' ']
        };
        lemma_appends_if_missing_compose(s2, a.drop_first(), b);
    }
}

/// A conditional append adds an argument that is missing, and leaves a
/// line that has it as it is.
pub proof fn lemma_append_if_missing_one(s: Seq<char>, k: Seq<char>)
    ensures
        contains_seq(s, spaced(trim(k))) ==> apply_appends_if_missing(s, seq![k]) == s,
        !contains_seq(s, spaced(trim(k))) ==> apply_appends_if_missing(s, seq![k]) == s + trim(k) + seq![' '],
{
    assert(seq![k][0] == k);
    assert(seq![k].drop_first() =~= Seq::<Seq<char>>::empty());
    let t = trim(k);
    let s2 = if contains_seq(s, spaced(t)) {
        s
    } else {
        s + t + seq![' ']
    };
    assert(apply_appends_if_missing(s2, Seq::<Seq<char>>::empty()) == s2);
    assert(apply_appends_if_missing(s, seq![k]) == apply_appends_if_missing(s2, seq![k].drop_first()));
}

/// Replacements of two lists are those of one, then the other.
pub proof fn lemma_replaces_compose(s: Seq<char>, a: Seq<Seq<char>>, b: Seq<Seq<char>>)
    ensures
        apply_replaces(s, a + b) == apply_replaces(apply_replaces(s, a), b),
    decreases a.len(),
{
    if a.len() == 0 {
        assert(a + b =~= b);
    } else {
        assert((a + b)[0] == a[0]);
        assert((a + b).drop_first() =~= a.drop_first() + b);
        let (key, old, new) = replace_parts(a[0])->Some_0;
        lemma_replaces_compose(
            replace_all(s, spaced(key + seq!['='] + old), spaced(key + seq!['='] + new)),
            a.drop_first(),
            b,
        );
    }
}

/// Appending to an `options` value adds each argument after a space, in
/// order.
pub proof fn lemma_append_spaced_adds_all(s: Seq<char>, ks: Seq<Seq<char>>)
    ensures
        append_spaced(s, ks) == s + ks.map_values(|k: Seq<char>| seq![' '] + k).flatten(),
    decreases ks.len(),
{
    let f = |k: Seq<char>| seq![' '] + k;
    if ks.len() == 0 {
        assert(ks.map_values(f) =~= Seq::<Seq<char>>::empty());
        assert(s + Seq::<char>::empty() =~= s);
    } else {
        lemma_append_spaced_adds_all(s + seq![' '] + ks[0], ks.drop_first());
        assert(ks.map_values(f).drop_first() =~= ks.drop_first().map_values(f));
        assert(ks.map_values(f).first() == seq![' '] + ks[0]);
        assert(s + seq![' '] + ks[0] + ks.drop_first().map_values(f).flatten() =~= s + (seq![' ']
            + ks[0] + ks.drop_first().map_values(f).flatten()));
    }
}

/// Deleting two lists of arguments from an `options` value is deleting
/// one, then the other.
pub proof fn lemma_delete_spaced_compose(s: Seq<char>, a: Seq<Seq<char>>, b: Seq<Seq<char>>)
    ensures
        delete_spaced(s, a + b) == delete_spaced(delete_spaced(s, a), b),
    decreases a.len(),
{
    if a.len() == 0 {
        assert(a + b =~= b);
    } else {
        assert((a + b)[0] == a[0]);
        assert((a + b).drop_first() =~= a.drop_first() + b);
        lemma_delete_spaced_compose(replace_all(s, spaced(a[0]), seq![' ']), a.drop_first(), b);
    }
}

/// Deleting an argument that the line holds, as ` arg `, shortens it;
/// deleting one it does not hold leaves it as it is.
pub proof fn lemma_delete_one(s: Seq<char>, k: Seq<char>)
    ensures
        contains_seq(s, spaced(trim(k))) ==> apply_deletes(s, seq![k]).len() < s.len(),
        !contains_seq(s, spaced(trim(k))) ==> apply_deletes(s, seq![k]) == s,
{
    assert(seq![k][0] == k);
    assert(seq![k].drop_first() =~= Seq::<Seq<char>>::empty());
    let s2 = replace_all(s, spaced(trim(k)), seq![' ']);
    assert(apply_deletes(s2, Seq::<Seq<char>>::empty()) == s2);
    assert(apply_deletes(s, seq![k]) == apply_deletes(s2, seq![k].drop_first()));
    crate::text::lemma_replace_shrinks(s, spaced(trim(k)), seq![' ']);
    if !contains_seq(s, spaced(trim(k))) {
        crate::text::lemma_replace_absent(s, spaced(trim(k)), seq![' ']);
    }
}

/// A `KEY=OLD=NEW` replacement puts ` KEY=NEW ` where ` KEY=OLD ` was,
/// and leaves a line without ` KEY=OLD ` as it is.
pub proof fn lemma_replace_one(s: Seq<char>, k: Seq<char>)
    requires
        replace_parts(k) is Some,
    ensures
        ({
            let (key, old, new) = replace_parts(k)->Some_0;
            &&& contains_seq(s, spaced(key + seq!['='] + old)) ==> contains_seq(
                apply_replaces(s, seq![k]),
                spaced(key + seq!['='] + new),
            )
            &&& !contains_seq(s, spaced(key + seq!['='] + old)) ==> apply_replaces(s, seq![k]) == s
        }),
{
    let (key, old, new) = replace_parts(k)->Some_0;
    assert(seq![k][0] == k);
    assert(seq![k].drop_first() =~= Seq::<Seq<char>>::empty());
    let p = spaced(key + seq!['='] + old);
    let q = spaced(key + seq!['='] + new);
    let s2 = replace_all(s, p, q);
    assert(apply_replaces(s2, Seq::<Seq<char>>::empty()) == s2);
    assert(apply_replaces(s, seq![k]) == apply_replaces(s2, seq![k].drop_first()));
    if contains_seq(s, p) {
        crate::text::lemma_replace_puts_rep(s, p, q);
    } else {
        crate::text::lemma_replace_absent(s, p, q);
    }
}

} // verus!

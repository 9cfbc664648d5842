//! In-memory initrd: a set of files keyed by path, kept in path order.

use crate::iso9660::split_slash;
use crate::text::{chars_of, string_of, sub_chars};
use vstd::prelude::*;

verus! {

/// `a` sorts strictly before `b` (code point by code point, a prefix
/// first), which is the order of `String`'s `Ord`.
pub open spec fn lex_lt(a: Seq<char>, b: Seq<char>) -> bool
    decreases a.len(),
{
    if a.len() == 0 {
        b.len() > 0
    } else if b.len() == 0 {
        false
    } else if a[0] != b[0] {
        (a[0] as int) < (b[0] as int)
    } else {
        lex_lt(a.drop_first(), b.drop_first())
    }
}

pub proof fn lemma_lex_lt_irreflexive(a: Seq<char>)
    ensures
        !lex_lt(a, a),
    decreases a.len(),
{
    if a.len() > 0 {
        lemma_lex_lt_irreflexive(a.drop_first());
    }
}

pub proof fn lemma_lex_lt_transitive(a: Seq<char>, b: Seq<char>, c: Seq<char>)
    requires
        lex_lt(a, b),
        lex_lt(b, c),
    ensures
        lex_lt(a, c),
    decreases a.len(),
{
    if a.len() > 0 && b.len() > 0 && c.len() > 0 {
        if a[0] == b[0] && b[0] == c[0] {
            lemma_lex_lt_transitive(a.drop_first(), b.drop_first(), c.drop_first());
        }
    }
}

pub proof fn lemma_lex_lt_total(a: Seq<char>, b: Seq<char>)
    ensures
        lex_lt(a, b) || lex_lt(b, a) || a == b,
    decreases a.len(),
{
    if a.len() > 0 && b.len() > 0 {
        if a[0] == b[0] {
            lemma_lex_lt_total(a.drop_first(), b.drop_first());
            if a.drop_first() =~= b.drop_first() {
                assert forall|k: int| 0 <= k < a.len() implies a[k] == b[k] by {
                    if k > 0 {
                        assert(a[k] == a.drop_first()[k - 1]);
                        assert(b[k] == b.drop_first()[k - 1]);
                    }
                }
                assert(a =~= b);
            }
        }
    } else if a.len() == 0 && b.len() == 0 {
        assert(a =~= b);
    }
}

proof fn lemma_char_code(c: char)
    ensures
        (c as u32) as int == c as int,
{
}

/// Three-way comparison: -1, 0 or 1.
fn compare_chars(a: &[char], b: &[char]) -> (r: i8)
    ensures
        -1 <= r <= 1,
        r == -1 <==> lex_lt(a@, b@),
        r == 1 <==> lex_lt(b@, a@),
        r == 0 <==> a@ == b@,
{
    let mut i: usize = 0;
    assert(a@.skip(0) =~= a@);
    assert(b@.skip(0) =~= b@);
    while i < a.len() && i < b.len() && a[i] == b[i]
        invariant
            i <= a.len(),
            i <= b.len(),
            a@.take(i as int) == b@.take(i as int),
            lex_lt(a@, b@) == lex_lt(a@.skip(i as int), b@.skip(i as int)),
            lex_lt(b@, a@) == lex_lt(b@.skip(i as int), a@.skip(i as int)),
        decreases a.len() - i,
    {
        proof {
            let sa = a@.skip(i as int);
            let sb = b@.skip(i as int);
            assert(sa.drop_first() == a@.skip(i + 1));
            assert(sb.drop_first() == b@.skip(i + 1));
            assert(sa[0] == a@[i as int]);
            assert(sb[0] == b@[i as int]);
        }
        i += 1;
        assert(a@.take(i as int) == a@.take(i - 1).push(a@[i - 1]));
        assert(b@.take(i as int) == b@.take(i - 1).push(b@[i - 1]));
    }
    let ghost sa = a@.skip(i as int);
    let ghost sb = b@.skip(i as int);
    proof {
        lemma_lex_lt_irreflexive(a@);
    }
    if i < a.len() && i < b.len() {
        assert(sa[0] == a@[i as int] && sb[0] == b@[i as int]);
        assert(a@ != b@) by {
            if a@ == b@ {
                assert(a@[i as int] == b@[i as int]);
            }
        }
        let ca = a[i];
        let cb = b[i];
        let x: u32 = ca as u32;
        let y: u32 = cb as u32;
        proof {
            lemma_char_code(ca);
            lemma_char_code(cb);
        }
        if x < y {
            -1
        } else {
            1
        }
    } else if i < b.len() {
        assert(i == a.len());
        assert(a@ == a@.take(i as int));
        assert(a@ != b@);
        -1
    } else if i < a.len() {
        assert(b@ == b@.take(i as int));
        assert(a@ != b@);
        1
    } else {
        assert(a@ == a@.take(i as int));
        assert(b@ == b@.take(i as int));
        0
    }
}

/// A set of files, keyed by path.
#[derive(Default)]
pub struct Initrd {
    members: Vec<(String, Vec<u8>)>,
}

pub open spec fn keys_sorted(m: Seq<(String, Vec<u8>)>) -> bool {
    forall|i: int, j: int| 0 <= i < j < m.len() ==> lex_lt(#[trigger] m[i].0@, #[trigger] m[j].0@)
}

pub open spec fn members_map(m: Seq<(String, Vec<u8>)>) -> Map<Seq<char>, Seq<u8>>
    decreases m.len(),
{
    if m.len() == 0 {
        Map::empty()
    } else {
        members_map(m.drop_last()).insert(m.last().0@, m.last().1@)
    }
}

impl Initrd {
    /// Paths are strictly increasing.
    pub closed spec fn wf(&self) -> bool {
        keys_sorted(self.members@)
    }

    /// The files, by path.
    pub closed spec fn files(&self) -> Map<Seq<char>, Seq<u8>> {
        members_map(self.members@)
    }

    /// The paths, in increasing order.
    pub closed spec fn paths(&self) -> Seq<Seq<char>> {
        self.members@.map_values(|m: (String, Vec<u8>)| m.0@)
    }

    /// The contents of the files, in path order.
    pub closed spec fn contents(&self) -> Seq<Seq<u8>> {
        self.members@.map_values(|m: (String, Vec<u8>)| m.1@)
    }

    proof fn lemma_map_keys(m: Seq<(String, Vec<u8>)>)
        requires
            keys_sorted(m),
        ensures
            forall|k: Seq<char>|
                members_map(m).contains_key(k) <==> exists|i: int|
                    0 <= i < m.len() && #[trigger] m[i].0@ == k,
            forall|i: int|
                0 <= i < m.len() ==> members_map(m).contains_key(#[trigger] m[i].0@)
                    && members_map(m)[m[i].0@] == m[i].1@,
        decreases m.len(),
    {
        if m.len() > 0 {
            let p = m.drop_last();
            assert(keys_sorted(p)) by {
                assert forall|i: int, j: int| 0 <= i < j < p.len() implies lex_lt(
                    #[trigger] p[i].0@,
                    #[trigger] p[j].0@,
                ) by {
                    assert(p[i] == m[i] && p[j] == m[j]);
                }
            }
            Self::lemma_map_keys(p);
            assert forall|k: Seq<char>|
                members_map(m).contains_key(k) <==> exists|i: int|
                    0 <= i < m.len() && #[trigger] m[i].0@ == k by {
                if members_map(m).contains_key(k) {
                    if k == m.last().0@ {
                        assert(m[m.len() - 1].0@ == k);
                    } else {
                        assert(members_map(p).contains_key(k));
                        let i = choose|i: int| 0 <= i < p.len() && #[trigger] p[i].0@ == k;
                        assert(m[i] == p[i]);
                        assert(m[i].0@ == k);
                    }
                }
                if exists|i: int| 0 <= i < m.len() && #[trigger] m[i].0@ == k {
                    let i = choose|i: int| 0 <= i < m.len() && #[trigger] m[i].0@ == k;
                    if i < m.len() - 1 {
                        assert(p[i] == m[i]);
                        assert(p[i].0@ == k);
                        assert(members_map(p).contains_key(k));
                    }
                }
            }
            assert forall|i: int| 0 <= i < m.len() implies members_map(m).contains_key(
                #[trigger] m[i].0@,
            ) && members_map(m)[m[i].0@] == m[i].1@ by {
                if i < m.len() - 1 {
                    assert(p[i] == m[i]);
                    assert(lex_lt(m[i].0@, m[m.len() - 1].0@));
                    lemma_lex_lt_irreflexive(m[i].0@);
                }
            }
        }
    }

    /// No two entries have the same path.
    pub proof fn lemma_entries_distinct(&self)
        requires
            self.wf(),
        ensures
            forall|i: int, j: int|
                0 <= i < j < self.entries().len() ==> #[trigger] self.entries()[i].0 != #[trigger] self.entries()[j].0,
    {
        assert forall|i: int, j: int|
            0 <= i < j < self.entries().len() implies #[trigger] self.entries()[i].0 != #[trigger] self.entries()[j].0 by {
            assert(lex_lt(self.members@[i].0@, self.members@[j].0@));
            lemma_lex_lt_irreflexive(self.members@[i].0@);
        }
    }

    /// The files are the entries, keyed by path.
    pub proof fn lemma_files_entries(&self)
        requires
            self.wf(),
        ensures
            forall|k: Seq<char>|
                self.files().contains_key(k) <==> exists|i: int|
                    0 <= i < self.entries().len() && #[trigger] self.entries()[i].0 == k,
            forall|i: int|
                0 <= i < self.entries().len() ==> self.files().contains_key(#[trigger] self.entries()[i].0)
                    && self.files()[self.entries()[i].0] == self.entries()[i].1,
    {
        Self::lemma_map_keys(self.members@);
        assert forall|k: Seq<char>|
            self.files().contains_key(k) <==> exists|i: int|
                0 <= i < self.entries().len() && #[trigger] self.entries()[i].0 == k by {
            if self.files().contains_key(k) {
                let i = choose|i: int| 0 <= i < self.members@.len() && #[trigger] self.members@[i].0@ == k;
                assert(self.entries()[i].0 == k);
            }
            if exists|i: int| 0 <= i < self.entries().len() && #[trigger] self.entries()[i].0 == k {
                let i = choose|i: int| 0 <= i < self.entries().len() && #[trigger] self.entries()[i].0 == k;
                assert(self.members@[i].0@ == k);
            }
        }
        assert forall|i: int| 0 <= i < self.entries().len() implies self.files().contains_key(
            #[trigger] self.entries()[i].0,
        ) && self.files()[self.entries()[i].0] == self.entries()[i].1 by {
            assert(self.entries()[i].0 == self.members@[i].0@);
        }
    }

    pub fn new() -> (r: Self)
        ensures
            r.wf(),
            r.files() == Map::<Seq<char>, Seq<u8>>::empty(),
    {
        Initrd { members: Vec::new() }
    }

    /// Position of `path`, or where it would be inserted.
    fn search(&self, path: &[char]) -> (r: (usize, bool))
        requires
            self.wf(),
        ensures
            r.0 <= self.members@.len(),
            forall|i: int| 0 <= i < r.0 ==> lex_lt(#[trigger] self.members@[i].0@, path@),
            r.1 ==> r.0 < self.members@.len() && self.members@[r.0 as int].0@ == path@,
            !r.1 ==> forall|i: int|
                r.0 <= i < self.members@.len() ==> lex_lt(path@, #[trigger] self.members@[i].0@),
    {
        let mut i: usize = 0;
        while i < self.members.len()
            invariant
                self.wf(),
                i <= self.members@.len(),
                forall|j: int| 0 <= j < i ==> lex_lt(#[trigger] self.members@[j].0@, path@),
            decreases self.members.len() - i,
        {
            let k = chars_of(self.members[i].0.as_str());
            let c = compare_chars(&k, path);
            if c == 0 {
                return (i, true);
            }
            if c == 1 {
                proof {
                    assert forall|j: int| i <= j < self.members@.len() implies lex_lt(
                        path@,
                        #[trigger] self.members@[j].0@,
                    ) by {
                        if j > i {
                            lemma_lex_lt_transitive(
                                path@,
                                self.members@[i as int].0@,
                                self.members@[j].0@,
                            );
                        }
                    }
                }
                return (i, false);
            }
            i += 1;
        }
        (i, false)
    }

    /// The contents of the file at `path`.
    pub fn get(&self, path: &str) -> (r: Option<&[u8]>)
        requires
            self.wf(),
        ensures
            match r {
                Some(c) => self.files().contains_key(path@) && self.files()[path@] == c@,
                None => !self.files().contains_key(path@),
            },
    {
        let p = chars_of(path);
        let (i, found) = self.search(&p);
        proof {
            Self::lemma_map_keys(self.members@);
            if !found {
                assert forall|j: int| 0 <= j < self.members@.len() implies self.members@[j].0@
                    != path@ by {
                    if j < i {
                        lemma_lex_lt_irreflexive(path@);
                    } else {
                        lemma_lex_lt_irreflexive(path@);
                    }
                }
            }
        }
        if found {
            Some(self.members[i].1.as_slice())
        } else {
            None
        }
    }

    /// Adds or replaces the file at `path`.
    pub fn add(&mut self, path: &str, contents: Vec<u8>)
        requires
            old(self).wf(),
        ensures
            final(self).wf(),
            final(self).files() == old(self).files().insert(path@, contents@),
    {
        let p = chars_of(path);
        let (i, found) = self.search(&p);
        let ghost m0 = self.members@;
        let entry = (string_of(&p), contents);
        if found {
            self.members.set(i, entry);
        } else {
            self.members.insert(i, entry);
        }
        proof {
            let m = self.members@;
            assert(keys_sorted(m)) by {
                assert forall|a: int, b: int| 0 <= a < b < m.len() implies lex_lt(
                    #[trigger] m[a].0@,
                    #[trigger] m[b].0@,
                ) by {
                    if found {
                        if a == i as int {
                            assert(m[a].0@ == m0[a].0@);
                        }
                        if b == i as int {
                            assert(m[b].0@ == m0[b].0@);
                        }
                    } else {
                        if a < i && b == i {
                        } else if a == i && b > i {
                            assert(m[b] == m0[b - 1]);
                        } else if a < i && b > i {
                            assert(m[a] == m0[a] && m[b] == m0[b - 1]);
                        } else if b < i {
                            assert(m[a] == m0[a] && m[b] == m0[b]);
                        } else {
                            assert(m[a] == m0[a - 1] && m[b] == m0[b - 1]);
                        }
                    }
                }
            }
            Self::lemma_map_keys(m0);
            Self::lemma_map_keys(m);
            assert forall|k: Seq<char>| #[trigger]
                members_map(m).contains_key(k) == old(self).files().insert(
                    path@,
                    contents@,
                ).contains_key(k) by {
                if k != path@ && members_map(m).contains_key(k) {
                    let j = choose|j: int| 0 <= j < m.len() && #[trigger] m[j].0@ == k;
                    if found {
                        assert(m[j] == m0[j]);
                    } else if j < i {
                        assert(m[j] == m0[j]);
                    } else {
                        assert(m[j] == m0[j - 1]);
                    }
                }
                if k != path@ && members_map(m0).contains_key(k) {
                    let j = choose|j: int| 0 <= j < m0.len() && #[trigger] m0[j].0@ == k;
                    if found || j < i {
                        assert(m[j] == m0[j]);
                    } else {
                        assert(m[j + 1] == m0[j]);
                    }
                }
                if k == path@ {
                    assert(m[i as int].0@ == path@);
                }
            }
            assert forall|k: Seq<char>| #[trigger]
                members_map(m).contains_key(k) implies members_map(m)[k]
                == old(self).files().insert(path@, contents@)[k] by {
                let j = choose|j: int| 0 <= j < m.len() && #[trigger] m[j].0@ == k;
                if k != path@ {
                    if found || j < i {
                        assert(m[j] == m0[j]);
                    } else {
                        assert(m[j] == m0[j - 1]);
                    }
                } else {
                    assert(m[i as int].0@ == path@);
                    if j != i {
                        if j < i {
                            lemma_lex_lt_irreflexive(path@);
                        } else {
                            lemma_lex_lt_irreflexive(path@);
                        }
                    }
                }
            }
            assert(members_map(m) =~= old(self).files().insert(path@, contents@));
        }
    }

    /// Removes the file at `path`, if any.
    pub fn remove(&mut self, path: &str)
        requires
            old(self).wf(),
        ensures
            final(self).wf(),
            final(self).files() == old(self).files().remove(path@),
    {
        let p = chars_of(path);
        let (i, found) = self.search(&p);
        let ghost m0 = self.members@;
        proof {
            Self::lemma_map_keys(m0);
        }
        if found {
            self.members.remove(i);
            proof {
                let m = self.members@;
                assert(keys_sorted(m)) by {
                    assert forall|a: int, b: int| 0 <= a < b < m.len() implies lex_lt(
                        #[trigger] m[a].0@,
                        #[trigger] m[b].0@,
                    ) by {
                        if b < i {
                            assert(m[a] == m0[a] && m[b] == m0[b]);
                        } else if a < i {
                            assert(m[a] == m0[a] && m[b] == m0[b + 1]);
                        } else {
                            assert(m[a] == m0[a + 1] && m[b] == m0[b + 1]);
                        }
                    }
                }
                Self::lemma_map_keys(m);
                assert forall|k: Seq<char>| #[trigger]
                    members_map(m).contains_key(k) == old(self).files().remove(path@).contains_key(
                        k,
                    ) by {
                    if members_map(m).contains_key(k) {
                        let j = choose|j: int| 0 <= j < m.len() && #[trigger] m[j].0@ == k;
                        if j < i {
                            assert(m[j] == m0[j]);
                            lemma_lex_lt_irreflexive(path@);
                        } else {
                            assert(m[j] == m0[j + 1]);
                            lemma_lex_lt_irreflexive(path@);
                        }
                    }
                    if k != path@ && members_map(m0).contains_key(k) {
                        let j = choose|j: int| 0 <= j < m0.len() && #[trigger] m0[j].0@ == k;
                        if j < i {
                            assert(m[j] == m0[j]);
                        } else {
                            assert(j != i);
                            assert(m[j - 1] == m0[j]);
                        }
                    }
                }
                assert forall|k: Seq<char>| #[trigger]
                    members_map(m).contains_key(k) implies members_map(m)[k]
                    == old(self).files().remove(path@)[k] by {
                    let j = choose|j: int| 0 <= j < m.len() && #[trigger] m[j].0@ == k;
                    if j < i {
                        assert(m[j] == m0[j]);
                    } else {
                        assert(m[j] == m0[j + 1]);
                    }
                }
                assert(members_map(m) =~= old(self).files().remove(path@));
            }
        } else {
            proof {
                assert forall|j: int| 0 <= j < m0.len() implies m0[j].0@ != path@ by {
                    lemma_lex_lt_irreflexive(path@);
                }
                assert(members_map(m0) =~= members_map(m0).remove(path@));
            }
        }
    }

    /// Whether there are no files.
    pub fn is_empty(&self) -> (r: bool)
        requires
            self.wf(),
        ensures
            r == (self.files() == Map::<Seq<char>, Seq<u8>>::empty()),
    {
        proof {
            Self::lemma_map_keys(self.members@);
            if self.members@.len() > 0 {
                assert(self.files().contains_key(self.members@[0].0@));
            } else {
                assert(self.files() =~= Map::<Seq<char>, Seq<u8>>::empty());
            }
        }
        self.members.len() == 0
    }

    /// Number of files.
    pub fn len(&self) -> (r: usize)
        requires
            self.wf(),
        ensures
            r == self.paths().len(),
    {
        self.members.len()
    }
}


// ---------------------------------------------------------------------
// Writing the archive
// ---------------------------------------------------------------------
/// Mode of a directory in the archive: `S_IFDIR | 0755`.
pub const DIR_MODE: u32 = 0o40755;

/// Mode of a file in the archive: `S_IFREG | 0600`.
pub const FILE_MODE: u32 = 0o100600;

/// One entry of the CPIO archive.
#[derive(Debug, Clone)]
pub struct ArchiveMember {
    pub path: String,
    pub mode: u32,
    pub contents: Vec<u8>,
}

/// The directories that a path lies in, outermost first.
pub open spec fn parent_dirs(p: Seq<char>) -> Seq<Seq<char>> {
    split_slash(p).drop_last()
}

/// Length of the common prefix of two component lists.
pub open spec fn common_len(a: Seq<Seq<char>>, b: Seq<Seq<char>>) -> nat
    decreases a.len(),
{
    if a.len() == 0 || b.len() == 0 || a[0] != b[0] {
        0
    } else {
        1 + common_len(a.drop_first(), b.drop_first())
    }
}

/// Components joined with `/`.
pub open spec fn join_slash(cs: Seq<Seq<char>>) -> Seq<char>
    decreases cs.len(),
{
    if cs.len() == 0 {
        seq![]
    } else if cs.len() == 1 {
        cs[0]
    } else {
        join_slash(cs.drop_last()) + seq!['/'] + cs.last()
    }
}

/// An entry as the archive writer sees it: path, mode, contents.
pub open spec fn member_view(m: ArchiveMember) -> (Seq<char>, u32, Seq<u8>) {
    (m.path@, m.mode, m.contents@)
}

/// The directory entries for `dirs`, after the first `from` of them
/// already exist: each deeper directory, outermost first.
pub open spec fn new_dirs(dirs: Seq<Seq<char>>, from: nat) -> Seq<(Seq<char>, u32, Seq<u8>)> {
    Seq::new(
        (dirs.len() - from) as nat,
        |k: int| (join_slash(dirs.take(from + k + 1)), DIR_MODE, Seq::<u8>::empty()),
    )
}

/// The archive entries for files `files`, in order, after the
/// directories `cwd` were created: each file is preceded by those of its
/// parent directories that the previous file did not share.
pub open spec fn archive_spec(
    files: Seq<(Seq<char>, Seq<u8>)>,
    cwd: Seq<Seq<char>>,
) -> Seq<(Seq<char>, u32, Seq<u8>)>
    decreases files.len(),
{
    if files.len() == 0 {
        seq![]
    } else {
        let d = parent_dirs(files[0].0);
        new_dirs(d, common_len(cwd, d)) + seq![(files[0].0, FILE_MODE, files[0].1)] + archive_spec(
            files.drop_first(),
            d,
        )
    }
}

/// Splits at every `/`, as `str::split` does.
fn split_slash_exec(v: &[char]) -> (r: Vec<Vec<char>>)
    ensures
        r@.map_values(|c: Vec<char>| c@) == split_slash(v@),
{
    let mut r: Vec<Vec<char>> = Vec::new();
    let mut i: usize = 0;
    assert(v@.skip(0) == v@);
    assert(r@.map_values(|c: Vec<char>| c@) =~= Seq::<Seq<char>>::empty());
    loop
        invariant
            i <= v.len(),
            r@.map_values(|c: Vec<char>| c@) + split_slash(v@.skip(i as int)) == split_slash(v@),
        decreases v.len() - i,
    {
        let ghost rest = v@.skip(i as int);
        let ghost acc = r@.map_values(|c: Vec<char>| c@);
        let j = crate::text::find_char(v, i, '/');
        let piece = sub_chars(v, i, j);
        assert(piece@ == rest.take((j - i) as int));
        r.push(piece);
        assert(r@.map_values(|c: Vec<char>| c@) =~= acc.push(piece@));
        if j >= v.len() {
            assert(split_slash(rest) == seq![rest]);
            assert(rest.take((j - i) as int) =~= rest);
            assert(acc + seq![rest] =~= acc.push(piece@));
            assert(split_slash(v@.skip(v.len() as int)) == seq![Seq::<char>::empty()]) by {
                assert(v@.skip(v.len() as int) =~= Seq::<char>::empty());
            }
            assert(r@.map_values(|c: Vec<char>| c@) == split_slash(v@));
            return r;
        }
        assert(split_slash(rest) == seq![rest.take((j - i) as int)] + split_slash(
            rest.skip((j - i) + 1),
        ));
        assert(rest.skip((j - i) + 1) =~= v@.skip(j + 1));
        assert(acc + (seq![piece@] + split_slash(v@.skip(j + 1))) =~= acc.push(piece@)
            + split_slash(v@.skip(j + 1)));
        i = j + 1;
    }
}

/// `join_slash` of the first `n` components.
fn join_prefix(cs: &Vec<Vec<char>>, n: usize) -> (r: Vec<char>)
    requires
        1 <= n <= cs.len(),
    ensures
        r@ == join_slash(cs@.map_values(|c: Vec<char>| c@).take(n as int)),
{
    let ghost all = cs@.map_values(|c: Vec<char>| c@);
    let mut acc = cs[0].clone();
    assert(acc@ == cs@[0]@);
    assert(all.take(1) =~= seq![all[0]]);
    let mut k: usize = 1;
    while k < n
        invariant
            1 <= k <= n,
            n <= cs.len(),
            all == cs@.map_values(|c: Vec<char>| c@),
            acc@ == join_slash(all.take(k as int)),
        decreases n - k,
    {
        acc.push('/');
        crate::text::extend_chars(&mut acc, cs[k].as_slice());
        assert(all.take(k + 1).drop_last() =~= all.take(k as int));
        assert(all.take(k + 1).last() == cs@[k as int]@);
        k += 1;
    }
    acc
}

impl Initrd {
    /// The files, in path order, as (path, contents) pairs.
    pub closed spec fn entries(&self) -> Seq<(Seq<char>, Seq<u8>)> {
        self.members@.map_values(|m: (String, Vec<u8>)| (m.0@, m.1@))
    }

    /// The entries of the archive: every file, preceded by the
    /// directories it lies in that were not created yet, since the kernel
    /// does not unpack a file whose directory is missing.
    pub fn archive_members(&self) -> (r: Vec<ArchiveMember>)
        ensures
            r@.map_values(|m: ArchiveMember| member_view(m)) == archive_spec(self.entries(), seq![]),
    {
        let mut out: Vec<ArchiveMember> = Vec::new();
        let mut cwd: Vec<Vec<char>> = Vec::new();
        let ghost files = self.entries();
        let mut i: usize = 0;
        assert(files.skip(0) =~= files);
        assert(out@.map_values(|m: ArchiveMember| member_view(m)) =~= Seq::<(Seq<char>, u32, Seq<u8>)>::empty());
        while i < self.members.len()
            invariant
                i <= self.members@.len(),
                files == self.entries(),
                files.len() == self.members@.len(),
                out@.map_values(|m: ArchiveMember| member_view(m)) + archive_spec(
                    files.skip(i as int),
                    cwd@.map_values(|c: Vec<char>| c@),
                ) == archive_spec(files, seq![]),
            decreases self.members@.len() - i,
        {
            let ghost acc = out@.map_values(|m: ArchiveMember| member_view(m));
            let ghost rest = files.skip(i as int);
            let ghost old_cwd = cwd@.map_values(|c: Vec<char>| c@);
            let path = &self.members[i].0;
            let p = chars_of(path.as_str());
            let mut d = split_slash_exec(&p);
            d.pop();
            let ghost dv = d@.map_values(|c: Vec<char>| c@);
            assert(dv =~= split_slash(p@).drop_last());
            assert(rest[0] == files[i as int]);
            assert(files[i as int].0 == p@);
            // common prefix with the current directory
            let mut l: usize = 0;
            assert(old_cwd.skip(0) =~= old_cwd);
            assert(dv.skip(0) =~= dv);
            while l < cwd.len() && l < d.len() && crate::text::chars_eq(&cwd[l], &d[l])
                invariant
                    l <= cwd.len(),
                    l <= d.len(),
                    old_cwd == cwd@.map_values(|c: Vec<char>| c@),
                    dv == d@.map_values(|c: Vec<char>| c@),
                    common_len(old_cwd, dv) == l + common_len(old_cwd.skip(l as int), dv.skip(l as int)),
                decreases d.len() - l,
            {
                assert(old_cwd.skip(l as int)[0] == old_cwd[l as int]);
                assert(dv.skip(l as int)[0] == dv[l as int]);
                assert(old_cwd.skip(l as int).drop_first() =~= old_cwd.skip(l + 1));
                assert(dv.skip(l as int).drop_first() =~= dv.skip(l + 1));
                l += 1;
            }
            assert(common_len(old_cwd.skip(l as int), dv.skip(l as int)) == 0) by {
                if l < cwd.len() && l < d.len() {
                    assert(old_cwd.skip(l as int)[0] == old_cwd[l as int]);
                    assert(dv.skip(l as int)[0] == dv[l as int]);
                }
            }
            let ghost from = l as nat;
            let mut k: usize = l;
            while k < d.len()
                invariant
                    from <= k <= d.len(),
                    dv == d@.map_values(|c: Vec<char>| c@),
                    out@.map_values(|m: ArchiveMember| member_view(m)) == acc + new_dirs(dv, from).take(
                        k - from,
                    ),
                decreases d.len() - k,
            {
                let dir = join_prefix(&d, k + 1);
                let m = ArchiveMember { path: string_of(&dir), mode: DIR_MODE, contents: Vec::new() };
                let ghost before = out@.map_values(|m: ArchiveMember| member_view(m));
                out.push(m);
                assert(out@.map_values(|m: ArchiveMember| member_view(m)) =~= before.push(member_view(m)));
                assert(new_dirs(dv, from).take(k + 1 - from) =~= new_dirs(dv, from).take(k - from).push(
                    new_dirs(dv, from)[k - from],
                ));
                k += 1;
            }
            assert(new_dirs(dv, from).take(d.len() - from) =~= new_dirs(dv, from));
            let fm = ArchiveMember {
                path: path.clone(),
                mode: FILE_MODE,
                contents: self.members[i].1.clone(),
            };
            assert(fm.contents@ =~= self.members@[i as int].1@);
            let ghost before = out@.map_values(|m: ArchiveMember| member_view(m));
            out.push(fm);
            assert(out@.map_values(|m: ArchiveMember| member_view(m)) =~= before.push(member_view(fm)));
            assert(member_view(fm) == (rest[0].0, FILE_MODE, rest[0].1));
            assert(rest.drop_first() =~= files.skip(i + 1));
            assert(archive_spec(rest, old_cwd) == new_dirs(dv, common_len(old_cwd, dv)) + seq![
                (rest[0].0, FILE_MODE, rest[0].1),
            ] + archive_spec(files.skip(i + 1), dv));
            assert(acc + (new_dirs(dv, from) + seq![(rest[0].0, FILE_MODE, rest[0].1)] + archive_spec(
                files.skip(i + 1),
                dv,
            )) =~= (acc + new_dirs(dv, from)).push((rest[0].0, FILE_MODE, rest[0].1)) + archive_spec(
                files.skip(i + 1),
                dv,
            ));
            cwd = d;
            i += 1;
        }
        assert(files.skip(i as int) =~= Seq::<(Seq<char>, Seq<u8>)>::empty());
        assert(out@.map_values(|m: ArchiveMember| member_view(m)) + Seq::<(Seq<char>, u32, Seq<u8>)>::empty()
            =~= out@.map_values(|m: ArchiveMember| member_view(m)));
        out
    }
}


/// The files that (path, contents) pairs describe, a later pair taking
/// the place of an earlier one with the same path.
pub open spec fn pairs_map(es: Seq<(Seq<char>, Seq<u8>)>) -> Map<Seq<char>, Seq<u8>>
    decreases es.len(),
{
    if es.len() == 0 {
        Map::empty()
    } else {
        pairs_map(es.drop_last()).insert(es.last().0, es.last().1)
    }
}

/// The pairs of two runs, one after the other: the second run's paths
/// take the place of the first's.
pub proof fn lemma_pairs_map_append(a: Seq<(Seq<char>, Seq<u8>)>, b: Seq<(Seq<char>, Seq<u8>)>)
    ensures
        pairs_map(a + b) == pairs_map(a).union_prefer_right(pairs_map(b)),
    decreases b.len(),
{
    if b.len() == 0 {
        assert(a + b =~= a);
        assert(pairs_map(a).union_prefer_right(pairs_map(b)) =~= pairs_map(a));
    } else {
        lemma_pairs_map_append(a, b.drop_last());
        assert((a + b).drop_last() =~= a + b.drop_last());
        assert((a + b).last() == b.last());
        assert(pairs_map(a + b) =~= pairs_map(a).union_prefer_right(pairs_map(b)));
    }
}

impl Initrd {
    /// The files are what the entries, as pairs, describe.
    pub proof fn lemma_files_pairs(&self)
        ensures
            self.files() == pairs_map(self.entries()),
    {
        Self::lemma_members_pairs(self.members@);
    }

    proof fn lemma_members_pairs(m: Seq<(String, Vec<u8>)>)
        ensures
            members_map(m) == pairs_map(m.map_values(|e: (String, Vec<u8>)| (e.0@, e.1@))),
        decreases m.len(),
    {
        if m.len() > 0 {
            Self::lemma_members_pairs(m.drop_last());
            let es = m.map_values(|e: (String, Vec<u8>)| (e.0@, e.1@));
            assert(es.drop_last() =~= m.drop_last().map_values(|e: (String, Vec<u8>)| (e.0@, e.1@)));
        } else {
            assert(m.map_values(|e: (String, Vec<u8>)| (e.0@, e.1@)) =~= Seq::<(Seq<char>, Seq<u8>)>::empty());
        }
    }
}

/// The archive could not be written.
#[derive(Debug, Clone, Copy, PartialEq, Eq)]
pub struct ArchiveError;

/// The xz-compressed CPIO archive of the given entries: the bytes that
/// `cpio::write_cpio` writes into an `xz2` encoder with preset 9 and a
/// CRC32 check.
pub uninterp spec fn xz_cpio_archive(members: Seq<(Seq<char>, u32, Seq<u8>)>) -> Seq<u8>;

/// The newc CPIO archive of the given entries, trailer included, as
/// `cpio::write_cpio` writes it.
pub uninterp spec fn cpio_newc_archive(members: Seq<(Seq<char>, u32, Seq<u8>)>) -> Seq<u8>;

/// An entry that a newc reader reads back as it was written: its name is
/// not the trailer's, does not end in NUL (the reader drops trailing NULs)
/// and its length fits the header, and its contents fit the header's
/// 32-bit size.
pub open spec fn newc_entry_ok(e: (Seq<char>, u32, Seq<u8>)) -> bool {
    &&& e.0 != "TRAILER!!!"@
    &&& (e.0.len() == 0 || e.0.last() != '\0')
    &&& e.0.len() < 0x4000_0000
    &&& e.2.len() <= u32::MAX
}

/// Every entry is read back as it was written.
pub open spec fn newc_entries_ok(es: Seq<(Seq<char>, u32, Seq<u8>)>) -> bool {
    forall|i: int| 0 <= i < es.len() ==> newc_entry_ok(#[trigger] es[i])
}

/// `cpio::write_cpio` into an `xz2::write::XzEncoder` (preset 9, CRC32
/// check, which the kernel requires), then `finish`. Where it succeeds the
/// bytes are `xz_cpio_archive` of the entries; they are one xz stream
/// (starting with the xz magic) whose contents are the newc archive of the
/// entries, and the `cpio` reader reads that archive back, up to its
/// trailer, as the entries, where each entry can be (`cpio-0.2.2`'s
/// `newc::Builder` writes the header fields, the NUL-terminated name and
/// the data, each padded to four bytes, which `newc::Reader` reads).
/// Where the encoder fails, `None`, and when it fails is not stated.
#[verifier::external_body]
fn xz_cpio(members: &[ArchiveMember]) -> (r: Option<Vec<u8>>)
    ensures
        r matches Some(b) ==> {
            let ms = members@.map_values(|m: ArchiveMember| member_view(m));
            &&& b@ == xz_cpio_archive(ms)
            &&& b@.len() >= 6
            &&& b@.take(6) == crate::io::xz_magic()
            &&& crate::unpack::xz_stream(b@) == Some((cpio_newc_archive(ms), b@.len()))
            &&& newc_entries_ok(ms) ==> crate::unpack::cpio_archive(cpio_newc_archive(ms)) == Some(
                (ms, cpio_newc_archive(ms).len()),
            )
        },
{
    let stream = xz2::stream::Stream::new_easy_encoder(9, xz2::stream::Check::Crc32).ok()?;
    let mut encoder = xz2::write::XzEncoder::new_stream(Vec::new(), stream);
    let entries = members.iter().map(
        |m| (cpio::NewcBuilder::new(&m.path).mode(m.mode), std::io::Cursor::new(&m.contents)),
    );
    cpio::write_cpio(entries, &mut encoder).ok()?;
    encoder.finish().ok()
}

impl Initrd {
    /// The xz-compressed CPIO archive of the files; where every entry can
    /// be read back, reading the bytes gives the archive's entries again.
    pub fn to_bytes(&self) -> (r: Result<Vec<u8>, ArchiveError>)
        ensures
            r matches Ok(b) ==> b@ == xz_cpio_archive(archive_spec(self.entries(), seq![])),
            r matches Ok(b) ==> (newc_entries_ok(archive_spec(self.entries(), seq![]))
                ==> crate::unpack::archives(b@) == Some(archive_spec(self.entries(), seq![]))),
    {
        let members = self.archive_members();
        match xz_cpio(members.as_slice()) {
            Some(b) => {
                proof {
                    let ms = archive_spec(self.entries(), seq![]);
                    if newc_entries_ok(ms) {
                        crate::unpack::lemma_xz_archive_reads_back(b@, cpio_newc_archive(ms), ms);
                    }
                }
                Ok(b)
            },
            None => Err(ArchiveError),
        }
    }
}

// ---------------------------------------------------------------------
// Glob filters
// ---------------------------------------------------------------------
/// `glob::Pattern::new` accepts the pattern.
pub uninterp spec fn glob_valid(pattern: Seq<char>) -> bool;

/// `glob::Pattern::matches` of the compiled pattern on the path, with the
/// default match options.
pub uninterp spec fn glob_match(pattern: Seq<char>, path: Seq<char>) -> bool;

/// The two patterns that this library itself compiles: the embedded
/// network settings and every file.
pub open spec fn known_pattern(pattern: Seq<char>) -> bool {
    pattern == "etc/coreos-firstboot-network/*"@ || pattern == "*"@
}

/// `glob::Pattern::new(pattern).is_ok()`. The library's own two patterns
/// compile: each is plain characters and one `*` at the end, and glob
/// 0.3's `Pattern::new` refuses only three or more `*` in a row, a `**`
/// that is not a whole path component, and a malformed `[...]` range.
#[verifier::external_body]
fn glob_compiles(pattern: &str) -> (r: bool)
    ensures
        r == glob_valid(pattern@),
        known_pattern(pattern@) ==> r,
{
    glob::Pattern::new(pattern).is_ok()
}

/// `glob::Pattern::matches` of the compiled `pattern` on `path`; for a
/// pattern that does not compile, `false`.
#[verifier::external_body]
pub(crate) fn glob_matches(pattern: &str, path: &str) -> (r: bool)
    ensures
        glob_valid(pattern@) ==> r == glob_match(pattern@, path@),
{
    match glob::Pattern::new(pattern) {
        Ok(p) => p.matches(path),
        Err(_) => false,
    }
}

/// A pattern did not compile.
#[derive(Debug, Clone, PartialEq, Eq)]
pub struct GlobError {
    pub pattern: String,
}

/// A set of glob patterns; a path matches if any pattern does.
#[derive(Debug, Clone)]
pub struct GlobMatcher {
    patterns: Vec<String>,
}

impl GlobMatcher {
    pub closed spec fn patterns(&self) -> Seq<Seq<char>> {
        self.patterns@.map_values(|p: String| p@)
    }

    /// Every pattern compiles.
    pub closed spec fn wf(&self) -> bool {
        forall|i: int| 0 <= i < self.patterns@.len() ==> glob_valid(#[trigger] self.patterns@[i]@)
    }

    /// Whether any pattern matches `path`.
    pub open spec fn matches_spec(&self, path: Seq<char>) -> bool {
        exists|i: int| 0 <= i < self.patterns().len() && glob_match(#[trigger] self.patterns()[i], path)
    }

    /// Compiles the patterns; fails on the first one that does not
    /// compile.
    pub fn new(globs: &[&str]) -> (r: Result<Self, GlobError>)
        ensures
            (forall|i: int| 0 <= i < globs@.len() ==> glob_valid(#[trigger] globs@[i]@)) <==> r is Ok,
            (forall|i: int| 0 <= i < globs@.len() ==> known_pattern(#[trigger] globs@[i]@)) ==> r is Ok,
            r matches Ok(g) ==> g.wf() && g.patterns() == globs@.map_values(|p: &str| p@),
    {
        let mut patterns: Vec<String> = Vec::new();
        let mut i: usize = 0;
        while i < globs.len()
            invariant
                i <= globs@.len(),
                patterns@.map_values(|p: String| p@) == globs@.take(i as int).map_values(|p: &str| p@),
                forall|k: int| 0 <= k < i ==> glob_valid(#[trigger] globs@[k]@),
            decreases globs.len() - i,
        {
            if !glob_compiles(globs[i]) {
                return Err(GlobError { pattern: globs[i].to_owned() });
            }
            let ghost before = patterns@.map_values(|p: String| p@);
            patterns.push(globs[i].to_owned());
            assert(patterns@.map_values(|p: String| p@) =~= before.push(globs@[i as int]@));
            assert(globs@.take(i + 1).map_values(|p: &str| p@) =~= globs@.take(i as int).map_values(
                |p: &str| p@,
            ).push(globs@[i as int]@));
            i += 1;
        }
        assert(globs@.take(i as int) =~= globs@);
        let g = GlobMatcher { patterns };
        assert forall|k: int| 0 <= k < g.patterns@.len() implies glob_valid(
            #[trigger] g.patterns@[k]@,
        ) by {
            assert(g.patterns@.map_values(|p: String| p@)[k] == globs@[k]@);
        }
        Ok(g)
    }

    /// Whether any pattern matches `path`.
    pub fn matches(&self, path: &str) -> (r: bool)
        requires
            self.wf(),
        ensures
            r == self.matches_spec(path@),
    {
        let mut i: usize = 0;
        while i < self.patterns.len()
            invariant
                self.wf(),
                i <= self.patterns@.len(),
                forall|k: int| 0 <= k < i ==> !glob_match(#[trigger] self.patterns()[k], path@),
            decreases self.patterns@.len() - i,
        {
            assert(glob_valid(self.patterns@[i as int]@));
            if glob_matches(self.patterns[i].as_str(), path) {
                assert(glob_match(self.patterns()[i as int], path@));
                return true;
            }
            i += 1;
        }
        false
    }
}

impl Initrd {
    /// The files whose paths match `filter`, in path order.
    pub fn find(&self, filter: &GlobMatcher) -> (r: Vec<(String, Vec<u8>)>)
        requires
            filter.wf(),
        ensures
            r@.map_values(|m: (String, Vec<u8>)| (m.0@, m.1@)) == self.entries().filter(
                |e: (Seq<char>, Seq<u8>)| filter.matches_spec(e.0),
            ),
    {
        let ghost es = self.entries();
        let mut out: Vec<(String, Vec<u8>)> = Vec::new();
        let mut i: usize = 0;
        proof {
            reveal(Seq::filter);
        }
        assert(es.take(0).filter(|e: (Seq<char>, Seq<u8>)| filter.matches_spec(e.0)) =~= Seq::empty());
        while i < self.members.len()
            invariant
                filter.wf(),
                es == self.entries(),
                i <= self.members@.len(),
                out@.map_values(|m: (String, Vec<u8>)| (m.0@, m.1@)) == es.take(i as int).filter(
                    |e: (Seq<char>, Seq<u8>)| filter.matches_spec(e.0),
                ),
            decreases self.members@.len() - i,
        {
            let ghost before = out@.map_values(|m: (String, Vec<u8>)| (m.0@, m.1@));
            proof {
                reveal(Seq::filter);
            }
            assert(es.take(i + 1).drop_last() =~= es.take(i as int));
            assert(es.take(i + 1).last() == es[i as int]);
            if filter.matches(self.members[i].0.as_str()) {
                let c = self.members[i].1.clone();
                assert(c@ =~= self.members@[i as int].1@);
                out.push((self.members[i].0.clone(), c));
                assert(out@.map_values(|m: (String, Vec<u8>)| (m.0@, m.1@)) =~= before.push(es[i as int]));
            }
            i += 1;
        }
        assert(es.take(i as int) =~= es);
        out
    }
}

} // verus!

verus! {

/// After a file is added at a path, reading that path gives its contents;
/// every other path reads as before.
pub proof fn lemma_add_then_get(
    files: Map<Seq<char>, Seq<u8>>,
    path: Seq<char>,
    contents: Seq<u8>,
    other: Seq<char>,
)
    ensures
        files.insert(path, contents).contains_key(path),
        files.insert(path, contents)[path] == contents,
        other != path ==> (files.insert(path, contents).contains_key(other) == files.contains_key(other)
            && (files.contains_key(other) ==> files.insert(path, contents)[other] == files[other])),
{
}

/// After a path is removed, it reads as missing; every other path reads
/// as before.
pub proof fn lemma_remove_then_get(files: Map<Seq<char>, Seq<u8>>, path: Seq<char>, other: Seq<char>)
    ensures
        !files.remove(path).contains_key(path),
        other != path ==> (files.remove(path).contains_key(other) == files.contains_key(other)
            && (files.contains_key(other) ==> files.remove(path)[other] == files[other])),
{
}

/// Adding a file and removing it again leaves the files that were there
/// before, where the path was free.
pub proof fn lemma_add_then_remove(files: Map<Seq<char>, Seq<u8>>, path: Seq<char>, contents: Seq<u8>)
    requires
        !files.contains_key(path),
    ensures
        files.insert(path, contents).remove(path) == files,
{
    assert(files.insert(path, contents).remove(path) =~= files);
}

} // verus!

//! Object-mapped images: digests of OSTree objects and their paths, and
//! the extent mappings that say where each object lies on disk.

use crate::text::{hex_byte, hex_digit, hex_value, string_of};
use std::collections::HashMap;
use vstd::prelude::*;

verus! {

broadcast use vstd::std_specs::hash::group_hash_axioms;

/// A SHA-256 digest.
#[derive(Debug, Clone, Copy, PartialEq, Eq)]
pub struct Sha256Digest(pub [u8; 32]);

impl Sha256Digest {
    /// The all-zero digest.
    pub fn default() -> (r: Self)
        ensures
            forall|i: int| 0 <= i < 32 ==> r.0@[i] == 0,
    {
        Sha256Digest([0u8; 32])
    }
}

/// Lowercase hexadecimal text of the bytes, two digits each.
pub open spec fn hex_text(b: Seq<u8>) -> Seq<char>
    decreases b.len(),
{
    if b.len() == 0 {
        seq![]
    } else {
        hex_text(b.drop_last()) + hex_byte(b.last())
    }
}

/// The path of an object in an OSTree repository, relative to its
/// `objects` directory: the first byte's digits, a slash, the other
/// bytes' digits, and `.file`.
pub open spec fn object_path(d: Seq<u8>) -> Seq<char> {
    hex_byte(d[0]) + seq!['/'] + hex_text(d.skip(1)) + ".file"@
}

/// The bytes of ASCII text.
pub open spec fn ascii_bytes(s: Seq<char>) -> Seq<u8> {
    s.map_values(|c: char| c as u8)
}

fn hex_digit_exec(d: u8) -> (c: char)
    requires
        d < 16,
    ensures
        c == hex_digit(d as nat),
{
    if d < 10 {
        let c = (d + 48) as char;
        assert(c == ((d + 48) as nat) as char);
        c
    } else {
        let c = (d + 87) as char;
        assert(c == ((d + 87) as nat) as char);
        c
    }
}

pub(crate) fn push_hex_byte(out: &mut Vec<char>, b: u8)
    ensures
        final(out)@ == old(out)@ + hex_byte(b),
{
    out.push(hex_digit_exec(b / 16));
    out.push(hex_digit_exec(b % 16));
    assert(final(out)@ =~= old(out)@ + hex_byte(b));
}

/// Hex digits of all of `b`, appended to `out`.
pub(crate) fn push_hex_bytes(out: &mut Vec<char>, b: &[u8])
    ensures
        final(out)@ == old(out)@ + hex_text(b@),
{
    let mut i: usize = 0;
    assert(b@.take(0) =~= Seq::<u8>::empty());
    while i < b.len()
        invariant
            i <= b@.len(),
            out@ == old(out)@ + hex_text(b@.take(i as int)),
        decreases b@.len() - i,
    {
        let ghost t = b@.take(i + 1);
        assert(t.drop_last() =~= b@.take(i as int));
        assert(t.last() == b@[i as int]);
        push_hex_byte(out, b[i]);
        i += 1;
    }
    assert(b@.take(b@.len() as int) =~= b@);
}

/// Hex digits of `d[from..]`, appended to `out`.
fn push_hex_from(out: &mut Vec<char>, d: &[u8; 32], from: usize)
    requires
        from <= 32,
    ensures
        final(out)@ == old(out)@ + hex_text(d@.skip(from as int)),
{
    let mut i: usize = from;
    assert(d@.skip(from as int).take(0) =~= Seq::<u8>::empty());
    while i < 32
        invariant
            from <= i <= 32,
            d@.len() == 32,
            out@ == old(out)@ + hex_text(d@.skip(from as int).take(i - from)),
        decreases 32 - i,
    {
        let ghost t = d@.skip(from as int).take(i + 1 - from);
        assert(t.drop_last() =~= d@.skip(from as int).take(i - from));
        assert(t.last() == d@[i as int]);
        push_hex_byte(out, d[i]);
        i += 1;
    }
    assert(d@.skip(from as int).take(32 - from) =~= d@.skip(from as int));
}

/// The digest as 64 lowercase hexadecimal digits.
pub fn checksum_to_string(chksum: &Sha256Digest) -> (r: String)
    ensures
        r@ == hex_text(chksum.0@),
{
    let mut out: Vec<char> = Vec::new();
    push_hex_from(&mut out, &chksum.0, 0);
    assert(chksum.0@.skip(0) =~= chksum.0@);
    string_of(&out)
}

/// Appends the object's path in the repository, `ab/cdef….file`, to
/// `buf`.
pub fn checksum_to_object_path(chksum: &Sha256Digest, buf: &mut Vec<u8>) -> (r: Result<(), ()>)
    ensures
        r is Ok,
        final(buf)@ == old(buf)@ + ascii_bytes(object_path(chksum.0@)),
{
    let mut out: Vec<char> = Vec::new();
    push_hex_byte(&mut out, chksum.0[0]);
    out.push('/');
    push_hex_from(&mut out, &chksum.0, 1);
    out.push('.');
    out.push('f');
    out.push('i');
    out.push('l');
    out.push('e');
    proof {
        reveal_strlit(".file");
        assert(out@ =~= object_path(chksum.0@));
    }
    let mut i: usize = 0;
    let ghost b0 = buf@;
    while i < out.len()
        invariant
            i <= out@.len(),
            buf@ == b0 + ascii_bytes(out@.take(i as int)),
        decreases out.len() - i,
    {
        buf.push(out[i] as u8);
        assert(ascii_bytes(out@.take(i + 1)) =~= ascii_bytes(out@.take(i as int)).push(
            out@[i as int] as u8,
        ));
        i += 1;
    }
    assert(out@.take(out@.len() as int) =~= out@);
    Ok(())
}

/// The path without its final component, as `Path::parent` gives it.
pub uninterp spec fn path_parent(path: Seq<char>) -> Option<Seq<char>>;

/// The file name without its extension, as `Path::file_stem` gives it.
pub uninterp spec fn path_file_stem(path: Seq<char>) -> Option<Seq<char>>;

/// `std::path::Path::parent`, as a string: `None` for a path that ends
/// in a root or a prefix, or is empty.
#[verifier::external_body]
fn parent_of(path: &str) -> (r: Option<String>)
    ensures
        match r {
            Some(p) => path_parent(path@) == Some(p@),
            None => path_parent(path@) is None,
        },
{
    std::path::Path::new(path).parent().map(|p| p.to_string_lossy().into_owned())
}

/// `std::path::Path::file_stem`, as a string: the file name before its
/// last `.` (the whole name where it has no `.` but a leading one).
#[verifier::external_body]
fn file_stem_of(path: &str) -> (r: Option<String>)
    ensures
        match r {
            Some(p) => path_file_stem(path@) == Some(p@),
            None => path_file_stem(path@) is None,
        },
{
    std::path::Path::new(path).file_stem().map(|p| p.to_string_lossy().into_owned())
}

/// Why an object path does not name a digest.
#[derive(Debug, Clone, PartialEq, Eq)]
pub enum ObjectPathError {
    /// The path lacks the directory or the file name of an object.
    Malformed { path: String },
    /// A pair of digits is not hexadecimal.
    BadHex,
}

/// `u8::from_str_radix` in base 16 on two characters: two digits, or a
/// `+` and one digit.
pub open spec fn hex_pair(a: char, b: char) -> Option<u8> {
    if a == '+' {
        match hex_value(b) {
            Some(v) => Some(v as u8),
            None => None,
        }
    } else {
        match (hex_value(a), hex_value(b)) {
            (Some(x), Some(y)) => Some((x * 16 + y) as u8),
            _ => None,
        }
    }
}

fn hex_value_exec(c: char) -> (r: Option<u8>)
    ensures
        match hex_value(c) {
            Some(v) => r == Some(v as u8),
            None => r is None,
        },
{
    if '0' <= c && c <= '9' {
        Some((c as u32 - 48) as u8)
    } else if 'a' <= c && c <= 'f' {
        Some((c as u32 - 87) as u8)
    } else if 'A' <= c && c <= 'F' {
        Some((c as u32 - 55) as u8)
    } else {
        None
    }
}

fn hex_pair_exec(a: char, b: char) -> (r: Option<u8>)
    ensures
        r == hex_pair(a, b),
{
    if a == '+' {
        return hex_value_exec(b);
    }
    match (hex_value_exec(a), hex_value_exec(b)) {
        (Some(x), Some(y)) => {
            assert(x * 16 + y < 256) by (nonlinear_arith)
                requires
                    x < 16,
                    y < 16,
            ;
            Some(x * 16 + y)
        },
        _ => None,
    }
}

/// Two characters, all ASCII, for each byte: the text's byte length is
/// its length.
pub open spec fn all_ascii(s: Seq<char>) -> bool {
    forall|i: int| 0 <= i < s.len() ==> (#[trigger] s[i] as u32) < 128
}

/// The digest that an object's name spells: the directory's two digits,
/// then the file stem's sixty-two.
pub open spec fn object_digest(dir: Seq<char>, stem: Seq<char>) -> Option<Seq<u8>> {
    if dir.len() != 2 || stem.len() != 62 || !all_ascii(dir) || !all_ascii(stem) {
        None
    } else if hex_pair(dir[0], dir[1]) is None || exists|i: int|
        0 <= i < 31 && #[trigger] hex_pair(stem[2 * i], stem[2 * i + 1]) is None {
        None
    } else {
        Some(
            Seq::new(
                32,
                |i: int|
                    if i == 0 {
                        hex_pair(dir[0], dir[1])->Some_0
                    } else {
                        hex_pair(stem[2 * (i - 1)], stem[2 * (i - 1) + 1])->Some_0
                    },
            ),
        )
    }
}

/// Why a path does not name an object.
pub enum ObjectFault {
    Malformed,
    BadHex,
}

/// The digest that an object path spells: the name of its directory and
/// the stem of its file name, two and sixty-two hexadecimal digits.
pub open spec fn object_path_spec(path: Seq<char>) -> Result<Seq<u8>, ObjectFault> {
    match (path_parent(path), path_file_stem(path)) {
        (Some(p), Some(stem)) => match crate::live::path_file_name(p) {
            Some(dir) => if dir.len() == 2 && stem.len() == 62 && all_ascii(dir) && all_ascii(stem) {
                match object_digest(dir, stem) {
                    Some(d) => Ok(d),
                    None => Err(ObjectFault::BadHex),
                }
            } else {
                Err(ObjectFault::Malformed)
            },
            None => Err(ObjectFault::Malformed),
        },
        _ => Err(ObjectFault::Malformed),
    }
}

/// `ab/cdef….file` → the digest `abcdef…`: the inverse of
/// `checksum_to_object_path`.
pub fn object_path_to_checksum(path: &str) -> (r: Result<Sha256Digest, ObjectPathError>)
    ensures
        match object_path_spec(path@) {
            Ok(d) => r matches Ok(c) && c.0@ == d,
            Err(ObjectFault::BadHex) => r == Err::<Sha256Digest, ObjectPathError>(ObjectPathError::BadHex),
            Err(ObjectFault::Malformed) => r matches Err(ObjectPathError::Malformed { .. }),
        },
        match (path_parent(path@), path_file_stem(path@)) {
            (Some(p), Some(stem)) => match crate::live::path_file_name(p) {
                Some(dir) => {
                    &&& dir.len() == 2 && stem.len() == 62 && all_ascii(dir) && all_ascii(stem) ==> (
                    match object_digest(dir, stem) {
                        Some(d) => r matches Ok(c) && c.0@ == d,
                        None => r == Err::<Sha256Digest, ObjectPathError>(ObjectPathError::BadHex),
                    })
                    &&& !(dir.len() == 2 && stem.len() == 62 && all_ascii(dir) && all_ascii(stem))
                        ==> r matches Err(ObjectPathError::Malformed { .. })
                },
                None => r matches Err(ObjectPathError::Malformed { .. }),
            },
            _ => r matches Err(ObjectPathError::Malformed { .. }),
        },
{
    let malformed = ObjectPathError::Malformed { path: path.to_owned() };
    let parent = match parent_of(path) {
        Some(p) => p,
        None => return Err(malformed),
    };
    let dir = match crate::live::file_name_of(parent.as_str()) {
        Some(d) => d,
        None => return Err(malformed),
    };
    let stem = match file_stem_of(path) {
        Some(s) => s,
        None => return Err(malformed),
    };
    let d = crate::text::chars_of(dir.as_str());
    let s = crate::text::chars_of(stem.as_str());
    if d.len() != 2 || s.len() != 62 {
        return Err(malformed);
    }
    let mut k: usize = 0;
    while k < 62
        invariant
            malformed matches ObjectPathError::Malformed { .. },
            path_parent(path@) == Some(parent@),
            crate::live::path_file_name(parent@) == Some(dir@),
            path_file_stem(path@) == Some(stem@),
            d@ == dir@,
            s@ == stem@,
            d@.len() == 2,
            k <= 62,
            s@.len() == 62,
            forall|j: int| 0 <= j < k ==> (#[trigger] s@[j] as u32) < 128,
        decreases 62 - k,
    {
        if s[k] as u32 >= 128 {
            assert(!all_ascii(s@)) by {
                assert((s@[k as int] as u32) >= 128);
            }
            return Err(malformed);
        }
        k += 1;
    }
    if d[0] as u32 >= 128 || d[1] as u32 >= 128 {
        return Err(malformed);
    }
    assert(all_ascii(d@));
    let mut out: [u8; 32] = [0u8; 32];
    let first = match hex_pair_exec(d[0], d[1]) {
        Some(v) => v,
        None => return Err(ObjectPathError::BadHex),
    };
    out[0] = first;
    let mut i: usize = 0;
    while i < 31
        invariant
            path_parent(path@) == Some(parent@),
            crate::live::path_file_name(parent@) == Some(dir@),
            path_file_stem(path@) == Some(stem@),
            d@ == dir@,
            s@ == stem@,
            d@.len() == 2,
            all_ascii(d@),
            all_ascii(s@),
            i <= 31,
            s@.len() == 62,
            d@.len() == 2,
            out@.len() == 32,
            out@[0] == hex_pair(d@[0], d@[1])->Some_0,
            hex_pair(d@[0], d@[1]) is Some,
            forall|j: int| 0 <= j < i ==> (#[trigger] hex_pair(s@[2 * j], s@[2 * j + 1])) is Some,
            forall|j: int|
                0 <= j < i ==> out@[j + 1] == (#[trigger] hex_pair(s@[2 * j], s@[2 * j + 1]))->Some_0,
        decreases 31 - i,
    {
        let v = match hex_pair_exec(s[2 * i], s[2 * i + 1]) {
            Some(v) => v,
            None => {
                assert(hex_pair(s@[2 * (i as int)], s@[2 * (i as int) + 1]) is None);
                assert(object_digest(d@, s@) is None);
                return Err(ObjectPathError::BadHex);
            },
        };
        out[i + 1] = v;
        i += 1;
    }
    let digest = Sha256Digest(out);
    assert(digest.0@ =~= object_digest(d@, s@)->Some_0);
    Ok(digest)
}

} // verus!

verus! {

// ---------------------------------------------------------------------
// Extent mappings
// ---------------------------------------------------------------------
/// A run of bytes of a file: where it is in the file, where on disk, and
/// how long.
#[derive(Debug, Clone, Copy, PartialEq, Eq)]
pub struct Extent {
    pub logical: u64,
    pub physical: u64,
    pub length: u64,
}

/// An extent of an object's file.
#[derive(Debug, Clone, Copy, PartialEq, Eq)]
pub struct Mapping {
    pub extent: Extent,
    pub object: Sha256Digest,
}

/// End of the extent on disk.
pub open spec fn phys_end(m: Mapping) -> int {
    m.extent.physical + m.extent.length
}

/// Disk byte `x` lies in the extent.
pub open spec fn covers(m: Mapping, x: int) -> bool {
    m.extent.physical <= x < phys_end(m)
}

/// The extents fit in 64 bits on disk and in the file.
pub open spec fn mappings_fit(ms: Seq<Mapping>) -> bool {
    forall|i: int|
        0 <= i < ms.len() ==> #[trigger] ms[i].extent.physical + ms[i].extent.length <= u64::MAX
            && ms[i].extent.logical + ms[i].extent.length <= u64::MAX
}

/// Sort order: by disk offset, the longer extent first.
pub open spec fn key_le(a: Mapping, b: Mapping) -> bool {
    a.extent.physical < b.extent.physical || (a.extent.physical == b.extent.physical
        && a.extent.length >= b.extent.length)
}

/// `b` is the tail of `a`: same object and end, started later by the same
/// amount on disk and in the file.
pub open spec fn tail_of(a: Mapping, b: Mapping) -> bool {
    &&& b.object == a.object
    &&& a.extent.physical <= b.extent.physical
    &&& b.extent.physical - a.extent.physical == b.extent.logical - a.extent.logical
    &&& phys_end(b) == phys_end(a)
}

pub open spec fn sorted_by_key(ms: Seq<Mapping>) -> bool {
    forall|i: int, j: int| 0 <= i < j < ms.len() ==> key_le(#[trigger] ms[i], #[trigger] ms[j])
}

/// Inserts into a sorted vector, after every element not after it.
fn sort_mappings(v: &Vec<Mapping>) -> (r: Vec<Mapping>)
    ensures
        r@.len() == v@.len(),
        sorted_by_key(r@),
        forall|k: int| 0 <= k < r@.len() ==> v@.contains(#[trigger] r@[k]),
        forall|k: int| 0 <= k < v@.len() ==> r@.contains(#[trigger] v@[k]),
{
    let mut r: Vec<Mapping> = Vec::new();
    let mut i: usize = 0;
    while i < v.len()
        invariant
            i <= v@.len(),
            r@.len() == i,
            sorted_by_key(r@),
            forall|k: int| 0 <= k < r@.len() ==> v@.contains(#[trigger] r@[k]),
            forall|k: int| 0 <= k < i ==> r@.contains(#[trigger] v@[k]),
        decreases v@.len() - i,
    {
        let x = v[i];
        let mut j: usize = 0;
        while j < r.len() && key_le_exec(r[j], x)
            invariant
                j <= r@.len(),
                forall|k: int| 0 <= k < j ==> key_le(#[trigger] r@[k], x),
            decreases r@.len() - j,
        {
            j += 1;
        }
        let ghost old_r = r@;
        r.insert(j, x);
        proof {
            assert(r@ == old_r.insert(j as int, x));
            assert forall|a: int, b: int| 0 <= a < b < r@.len() implies key_le(
                #[trigger] r@[a],
                #[trigger] r@[b],
            ) by {
                if a < j && b == j {
                } else if a == j && b > j {
                    assert(r@[b] == old_r[b - 1]);
                    assert(!key_le(old_r[j as int], x));
                    assert(key_le(old_r[j as int], old_r[b - 1]) || j == b - 1);
                } else if a < j && b > j {
                    assert(r@[a] == old_r[a] && r@[b] == old_r[b - 1]);
                } else if b < j {
                    assert(r@[a] == old_r[a] && r@[b] == old_r[b]);
                } else {
                    assert(r@[a] == old_r[a - 1] && r@[b] == old_r[b - 1]);
                }
            }
            assert forall|k: int| 0 <= k < r@.len() implies v@.contains(#[trigger] r@[k]) by {
                if k < j {
                    assert(r@[k] == old_r[k]);
                } else if k == j {
                    assert(v@[i as int] == x);
                } else {
                    assert(r@[k] == old_r[k - 1]);
                }
            }
            assert forall|k: int| 0 <= k < i + 1 implies r@.contains(#[trigger] v@[k]) by {
                if k == i {
                    assert(r@[j as int] == x);
                } else {
                    let m = choose|m: int| 0 <= m < old_r.len() && old_r[m] == v@[k];
                    if m < j {
                        assert(r@[m] == v@[k]);
                    } else {
                        assert(r@[m + 1] == v@[k]);
                    }
                }
            }
        }
        i += 1;
    }
    r
}

fn key_le_exec(a: Mapping, b: Mapping) -> (r: bool)
    ensures
        r == key_le(a, b),
{
    a.extent.physical < b.extent.physical || (a.extent.physical == b.extent.physical
        && a.extent.length >= b.extent.length)
}

} // verus!

verus! {

/// Some extent of `ms` covers disk byte `x`.
pub open spec fn covered(ms: Seq<Mapping>, x: int) -> bool {
    exists|k: int| 0 <= k < ms.len() && covers(#[trigger] ms[k], x)
}

/// Each extent ends where or before the next begins.
pub open spec fn disjoint_in_order(ms: Seq<Mapping>) -> bool {
    forall|k: int| 0 <= k < ms.len() - 1 ==> phys_end(#[trigger] ms[k]) <= ms[k + 1].extent.physical
}

/// The extent, cut to start at `end` where it starts before.
pub open spec fn cut_at(m: Mapping, end: int) -> Mapping {
    if m.extent.physical < end {
        let n = end - m.extent.physical;
        Mapping {
            extent: Extent {
                logical: (m.extent.logical + n) as u64,
                physical: (m.extent.physical + n) as u64,
                length: (m.extent.length - n) as u64,
            },
            object: m.object,
        }
    } else {
        m
    }
}

/// The canonical form of the sorted mappings from `i` on, where the ones
/// before reach `end`: an extent within `end` is dropped; one that goes
/// past it is kept, cut to start at `end`.
pub open spec fn canon_from(s: Seq<Mapping>, i: int, end: int) -> Seq<Mapping>
    decreases s.len() - i,
{
    if i < 0 || i >= s.len() {
        seq![]
    } else if phys_end(s[i]) <= end {
        canon_from(s, i + 1, end)
    } else {
        seq![cut_at(s[i], end)] + canon_from(s, i + 1, phys_end(s[i]))
    }
}

/// The canonical form of mappings sorted by offset, longest first.
pub open spec fn canon_spec(s: Seq<Mapping>) -> Seq<Mapping> {
    if s.len() == 0 {
        seq![]
    } else {
        seq![s[0]] + canon_from(s, 1, phys_end(s[0]))
    }
}

/// Puts the mappings in disk order without overlaps: an extent that an
/// earlier one (in order of offset, longer first) contains is dropped,
/// and one that overlaps the end of the earlier ones is cut to start
/// where they end. The same disk bytes stay covered.
pub fn canonicalize(mappings: &mut Vec<Mapping>)
    requires
        mappings_fit(old(mappings)@),
    ensures
        exists|s: Seq<Mapping>|
            #![trigger canon_spec(s)]
            s.len() == old(mappings)@.len() && sorted_by_key(s) && (forall|k: int|
                0 <= k < s.len() ==> old(mappings)@.contains(#[trigger] s[k])) && (forall|k: int|
                0 <= k < s.len() ==> s.contains(#[trigger] old(mappings)@[k])) && final(mappings)@
                == canon_spec(s),
        final(mappings)@.len() <= old(mappings)@.len(),
        old(mappings)@.len() > 0 ==> final(mappings)@.len() > 0,
        disjoint_in_order(final(mappings)@),
        mappings_fit(final(mappings)@),
        forall|k: int|
            #![trigger final(mappings)@[k]]
            0 <= k < final(mappings)@.len() ==> exists|j: int|
                0 <= j < old(mappings)@.len() && tail_of(
                    #[trigger] old(mappings)@[j],
                    final(mappings)@[k],
                ),
        forall|j: int, x: int|
            0 <= j < old(mappings)@.len() && #[trigger] covers(old(mappings)@[j], x) ==> covered(
                final(mappings)@,
                x,
            ),
{
    if mappings.len() == 0 {
        assert(canon_spec(mappings@) == Seq::<Mapping>::empty());
        assert(sorted_by_key(mappings@));
        return;
    }
    let sorted = sort_mappings(mappings);
    let ghost input = mappings@;
    proof {
        assert forall|j: int| 0 <= j < sorted@.len() implies #[trigger] sorted@[j].extent.physical
            + sorted@[j].extent.length <= u64::MAX && sorted@[j].extent.logical
            + sorted@[j].extent.length <= u64::MAX by {
            let m = choose|m: int| 0 <= m < input.len() && input[m] == sorted@[j];
            assert(input[m].extent.physical + input[m].extent.length <= u64::MAX);
        }
    }
    let mut out: Vec<Mapping> = Vec::new();
    let first = sorted[0];
    out.push(first);
    let mut last_end: u64 = first.extent.physical + first.extent.length;
    let ghost mut p: int = first.extent.physical as int;
    let mut i: usize = 1;
    proof {
        assert(covers(out@[0], first.extent.physical as int) || first.extent.length == 0);
        assert(out@ =~= seq![sorted@[0]]);
    }
    while i < sorted.len()
        invariant
            1 <= i <= sorted@.len(),
            sorted@.len() == input.len(),
            sorted_by_key(sorted@),
            mappings_fit(sorted@),
            forall|k: int| 0 <= k < sorted@.len() ==> input.contains(#[trigger] sorted@[k]),
            1 <= out@.len() <= i,
            last_end == phys_end(out@.last()),
            p <= out@.last().extent.physical,
            exists|t: int| 0 <= t < i && sorted@[t].extent.physical == p,
            forall|x: int| p <= x < last_end ==> covered(out@, x),
            disjoint_in_order(out@),
            forall|k: int|
                #![trigger out@[k]]
                0 <= k < out@.len() ==> exists|j: int|
                    0 <= j < sorted@.len() && tail_of(#[trigger] sorted@[j], out@[k]),
            forall|j: int, x: int|
                0 <= j < i && #[trigger] covers(sorted@[j], x) ==> covered(out@, x),
            out@ + canon_from(sorted@, i as int, last_end as int) == canon_spec(sorted@),
        decreases sorted@.len() - i,
    {
        let m = sorted[i];
        let end = m.extent.physical + m.extent.length;
        let ghost old_out = out@;
        let ghost le0 = last_end as int;
        let ghost p0 = p;
        let ghost t = choose|t: int| 0 <= t < i && sorted@[t].extent.physical == p;
        assert(key_le(sorted@[t], sorted@[i as int]));
        let ghost rest = canon_from(sorted@, i as int + 1, if end <= last_end { last_end as int } else { end as int });
        if end <= last_end {
            // contained in what is already covered
            assert(canon_from(sorted@, i as int, last_end as int) == rest);
        } else {
            let mut e = m;
            if m.extent.physical < last_end {
                let n = last_end - m.extent.physical;
                e = Mapping {
                    extent: Extent {
                        logical: m.extent.logical + n,
                        physical: m.extent.physical + n,
                        length: m.extent.length - n,
                    },
                    object: m.object,
                };
            }
            out.push(e);
            proof {
                assert(e == cut_at(m, le0));
                assert(canon_from(sorted@, i as int, le0) == seq![e] + rest);
                assert(old_out + (seq![e] + rest) =~= out@ + rest);
                assert(out@.last() == e);
                assert forall|k: int| 0 <= k < old_out.len() implies #[trigger] out@[k] == old_out[k] by {}
                assert forall|x: int, k: int| 0 <= k < old_out.len() && covers(old_out[k], x) implies covered(
                    out@,
                    x,
                ) by {
                    assert(out@[k] == old_out[k]);
                }
                assert forall|x: int| m.extent.physical <= x < end implies covered(out@, x) by {
                    if x < last_end {
                        assert(covered(old_out, x));
                        let k = choose|k: int| 0 <= k < old_out.len() && covers(#[trigger] old_out[k], x);
                        assert(out@[k] == old_out[k]);
                    } else {
                        assert(covers(out@[old_out.len() as int], x));
                    }
                }
                assert(tail_of(sorted@[i as int], out@[old_out.len() as int]));
                assert forall|k: int| #![trigger out@[k]] 0 <= k < out@.len() implies exists|j: int|
                    0 <= j < sorted@.len() && tail_of(#[trigger] sorted@[j], out@[k]) by {
                    if k < old_out.len() {
                        assert(out@[k] == old_out[k]);
                    } else {
                        assert(tail_of(sorted@[i as int], out@[k]));
                    }
                }
                assert forall|k: int| 0 <= k < out@.len() - 1 implies phys_end(#[trigger] out@[k])
                    <= out@[k + 1].extent.physical by {
                    if k < old_out.len() - 1 {
                        assert(out@[k] == old_out[k] && out@[k + 1] == old_out[k + 1]);
                    } else {
                        assert(out@[k] == old_out.last());
                    }
                }
            }
            last_end = end;
            proof {
                p = m.extent.physical as int;
            }
        }
        proof {
            assert forall|j: int, x: int| 0 <= j < i + 1 && #[trigger] covers(sorted@[j], x) implies covered(
                out@,
                x,
            ) by {
                if j < i {
                    assert(covered(old_out, x));
                    let k = choose|k: int| 0 <= k < old_out.len() && covers(#[trigger] old_out[k], x);
                    assert(out@[k] == old_out[k]);
                } else if end <= le0 {
                    assert(p0 <= x < le0);
                    assert(covered(old_out, x));
                } else {
                    assert(m.extent.physical <= x < end);
                }
            }
            if end > le0 {
                assert(sorted@[i as int].extent.physical == p);
            } else {
                assert(sorted@[t].extent.physical == p);
            }
        }
        i += 1;
    }
    proof {
        lemma_tails_fit(sorted@, out@);
        assert(out@ + Seq::<Mapping>::empty() =~= out@);
    }
    *mappings = out;
}

/// Tails of extents that fit in 64 bits fit too.
proof fn lemma_tails_fit(ms: Seq<Mapping>, ts: Seq<Mapping>)
    requires
        mappings_fit(ms),
        forall|k: int|
            #![trigger ts[k]]
            0 <= k < ts.len() ==> exists|j: int| 0 <= j < ms.len() && tail_of(#[trigger] ms[j], ts[k]),
    ensures
        mappings_fit(ts),
{
    assert forall|k: int| 0 <= k < ts.len() implies #[trigger] ts[k].extent.physical
        + ts[k].extent.length <= u64::MAX && ts[k].extent.logical + ts[k].extent.length
        <= u64::MAX by {
        let j = choose|j: int| 0 <= j < ms.len() && tail_of(#[trigger] ms[j], ts[k]);
        assert(ms[j].extent.physical + ms[j].extent.length <= u64::MAX);
    }
}

// ---------------------------------------------------------------------
// Checking a packed image's mappings
// ---------------------------------------------------------------------
/// Why a list of mappings is not in canonical form.
#[derive(Debug, Clone, Copy, PartialEq, Eq)]
pub enum CanonicalError {
    /// A mapping starts before the previous one ends.
    PastMappingStart { cursor: u64, start: u64 },
    /// A mapping ends past the 64-bit range.
    Overflow { index: usize },
}

/// What checking `ms` from `cursor` finds; `index` numbers `ms[0]`.
pub open spec fn canonical_spec(ms: Seq<Mapping>, cursor: u64, index: nat) -> Result<u64, CanonicalError>
    decreases ms.len(),
{
    if ms.len() == 0 {
        Ok(cursor)
    } else if cursor > ms[0].extent.physical {
        Err(CanonicalError::PastMappingStart { cursor, start: ms[0].extent.physical })
    } else if phys_end(ms[0]) > u64::MAX {
        Err(CanonicalError::Overflow { index: index as usize })
    } else {
        canonical_spec(ms.drop_first(), phys_end(ms[0]) as u64, index + 1)
    }
}

/// Checks that the mappings are in disk order without overlaps; the end
/// of the last one (0 for none).
pub fn verify_canonical(mappings: &[Mapping]) -> (r: Result<u64, CanonicalError>)
    ensures
        r == canonical_spec(mappings@, 0, 0),
{
    let mut cursor: u64 = 0;
    let mut i: usize = 0;
    assert(mappings@.skip(0) =~= mappings@);
    while i < mappings.len()
        invariant
            i <= mappings@.len(),
            canonical_spec(mappings@, 0, 0) == canonical_spec(mappings@.skip(i as int), cursor, i as nat),
        decreases mappings@.len() - i,
    {
        let m = mappings[i];
        assert(mappings@.skip(i as int)[0] == m);
        assert(mappings@.skip(i as int).drop_first() =~= mappings@.skip(i + 1));
        if cursor > m.extent.physical {
            return Err(CanonicalError::PastMappingStart { cursor, start: m.extent.physical });
        }
        cursor = match m.extent.physical.checked_add(m.extent.length) {
            Some(c) => c,
            None => return Err(CanonicalError::Overflow { index: i }),
        };
        i += 1;
    }
    assert(mappings@.skip(i as int) =~= Seq::<Mapping>::empty());
    Ok(cursor)
}

/// Mappings in disk order without overlaps, each within the 64-bit range,
/// pass the check from any cursor at or before the first of them.
pub proof fn lemma_disjoint_mappings_are_canonical(ms: Seq<Mapping>, cursor: u64, index: nat)
    requires
        disjoint_in_order(ms),
        mappings_fit(ms),
        ms.len() > 0 ==> cursor <= ms[0].extent.physical,
    ensures
        canonical_spec(ms, cursor, index) is Ok,
    decreases ms.len(),
{
    if ms.len() > 0 {
        assert(ms[0].extent.physical + ms[0].extent.length <= u64::MAX);
        let rest = ms.drop_first();
        assert forall|k: int| 0 <= k < rest.len() - 1 implies phys_end(#[trigger] rest[k])
            <= rest[k + 1].extent.physical by {
            assert(phys_end(ms[k + 1]) <= ms[k + 2].extent.physical);
        }
        assert forall|k: int| 0 <= k < rest.len() implies #[trigger] rest[k].extent.physical
            + rest[k].extent.length <= u64::MAX && rest[k].extent.logical + rest[k].extent.length
            <= u64::MAX by {
            assert(ms[k + 1].extent.physical + ms[k + 1].extent.length <= u64::MAX);
        }
        if rest.len() > 0 {
            assert(phys_end(ms[0]) <= ms[1].extent.physical);
        }
        lemma_disjoint_mappings_are_canonical(rest, phys_end(ms[0]) as u64, index + 1);
    }
}

/// What `canonicalize` leaves passes `verify_canonical`.
pub proof fn lemma_canonicalized_mappings_verify(ms: Seq<Mapping>)
    requires
        disjoint_in_order(ms),
        mappings_fit(ms),
    ensures
        canonical_spec(ms, 0, 0) is Ok,
{
    lemma_disjoint_mappings_are_canonical(ms, 0, 0);
}

/// The mappings recorded for one partition of a packed image.
#[derive(Debug, Clone)]
pub struct OsmetPartition {
    pub start_offset: u64,
    pub end_offset: u64,
    pub mappings: Vec<Mapping>,
}

/// The mappings of a packed image, with the digest and size of the whole
/// image.
#[derive(Debug, Clone)]
pub struct Osmet {
    pub partitions: Vec<OsmetPartition>,
    pub checksum: Sha256Digest,
    pub size: u64,
}

/// Why the mappings of a packed image are not consistent.
#[derive(Debug, Clone, Copy, PartialEq, Eq)]
pub enum OsmetError {
    /// There are no partitions.
    NoPartitions,
    /// A partition starts before the previous one ends.
    PastPartitionStart { cursor: u64, start: u64 },
    /// The mappings of a partition are not canonical.
    Partition { index: usize, cause: CanonicalError },
    /// A partition's mappings end past the 64-bit range.
    PartitionOverflow { index: usize },
    /// A partition's mappings end past the partition.
    PastPartitionEnd { cursor: u64, end: u64 },
}

/// What checking the partitions `ps` from `cursor` finds; `index` numbers
/// `ps[0]`.
pub open spec fn partitions_spec(ps: Seq<OsmetPartition>, cursor: u64, index: nat) -> Result<(), OsmetError>
    decreases ps.len(),
{
    if ps.len() == 0 {
        Ok(())
    } else if cursor > ps[0].start_offset {
        Err(OsmetError::PastPartitionStart { cursor, start: ps[0].start_offset })
    } else {
        match canonical_spec(ps[0].mappings@, 0, 0) {
            Err(e) => Err(OsmetError::Partition { index: index as usize, cause: e }),
            Ok(n) => if cursor + n > u64::MAX {
                Err(OsmetError::PartitionOverflow { index: index as usize })
            } else if cursor + n > ps[0].end_offset {
                Err(OsmetError::PastPartitionEnd { cursor: (cursor + n) as u64, end: ps[0].end_offset })
            } else {
                partitions_spec(ps.drop_first(), ps[0].end_offset, index + 1)
            },
        }
    }
}

/// Checks that a packed image has partitions, in order, each with
/// canonical mappings that end within it.
pub fn validate_osmet(osmet: &Osmet) -> (r: Result<(), OsmetError>)
    ensures
        osmet.partitions@.len() == 0 ==> r == Err::<(), OsmetError>(OsmetError::NoPartitions),
        osmet.partitions@.len() > 0 ==> r == partitions_spec(osmet.partitions@, 0, 0),
{
    if osmet.partitions.len() == 0 {
        return Err(OsmetError::NoPartitions);
    }
    let ps = &osmet.partitions;
    let mut cursor: u64 = 0;
    let mut i: usize = 0;
    assert(ps@.skip(0) =~= ps@);
    while i < ps.len()
        invariant
            i <= ps@.len(),
            ps@ == osmet.partitions@,
            ps@.len() > 0,
            partitions_spec(ps@, 0, 0) == partitions_spec(ps@.skip(i as int), cursor, i as nat),
        decreases ps@.len() - i,
    {
        let p = &ps[i];
        assert(ps@.skip(i as int)[0] == *p);
        assert(ps@.skip(i as int).drop_first() =~= ps@.skip(i + 1));
        if cursor > p.start_offset {
            return Err(OsmetError::PastPartitionStart { cursor, start: p.start_offset });
        }
        let n = match verify_canonical(p.mappings.as_slice()) {
            Ok(n) => n,
            Err(e) => return Err(OsmetError::Partition { index: i, cause: e }),
        };
        cursor = match cursor.checked_add(n) {
            Some(c) => c,
            None => return Err(OsmetError::PartitionOverflow { index: i }),
        };
        if cursor > p.end_offset {
            return Err(OsmetError::PastPartitionEnd { cursor, end: p.end_offset });
        }
        cursor = p.end_offset;
        i += 1;
    }
    assert(ps@.skip(i as int) =~= Seq::<OsmetPartition>::empty());
    Ok(())
}

} // verus!

verus! {

// ---------------------------------------------------------------------
// FIEMAP results
// ---------------------------------------------------------------------
/// Last extent in file.
pub const FIEMAP_EXTENT_LAST: u32 = 0x1;
/// Data location unknown.
pub const FIEMAP_EXTENT_UNKNOWN: u32 = 0x2;
/// Location still pending.
pub const FIEMAP_EXTENT_DELALLOC: u32 = 0x4;
/// Data can not be read while the filesystem is unmounted.
pub const FIEMAP_EXTENT_ENCODED: u32 = 0x8;
/// Extent offsets may not be block aligned.
pub const FIEMAP_EXTENT_NOT_ALIGNED: u32 = 0x100;
/// Space allocated, but no data.
pub const FIEMAP_EXTENT_UNWRITTEN: u32 = 0x800;
/// File does not natively support extents.
pub const FIEMAP_EXTENT_MERGED: u32 = 0x1000;

/// Number of extents one FIEMAP request asks for.
pub const FIEMAP_EXTENT_COUNT: usize = 32;

/// One extent of a FIEMAP reply, as the kernel lays it out.
#[allow(non_camel_case_types)]
#[derive(Debug, Clone, Copy, PartialEq, Eq)]
pub struct fiemap_extent {
    pub fe_logical: u64,
    pub fe_physical: u64,
    pub fe_length: u64,
    pub fe_reserved64: [u64; 2],
    pub fe_flags: u32,
    pub fe_reserved: [u32; 3],
}

/// A FIEMAP request and its reply, as the kernel lays them out.
#[allow(non_camel_case_types)]
#[derive(Debug, Clone, Copy)]
pub struct fiemap {
    pub fm_start: u64,
    pub fm_length: u64,
    pub fm_flags: u32,
    pub fm_mapped_extents: u32,
    pub fm_extent_count: u32,
    pub fm_reserved: u32,
    pub fm_extents: [fiemap_extent; 32],
}

impl fiemap {
    /// A request for the whole file, for as many extents as fit.
    pub fn new() -> (r: Self)
        ensures
            r.fm_start == 0,
            r.fm_length == u64::MAX,
            r.fm_extent_count == FIEMAP_EXTENT_COUNT,
            r.fm_mapped_extents == 0,
            r.fm_flags == 0,
    {
        let e = fiemap_extent {
            fe_logical: 0,
            fe_physical: 0,
            fe_length: 0,
            fe_reserved64: [0; 2],
            fe_flags: 0,
            fe_reserved: [0; 3],
        };
        fiemap {
            fm_start: 0,
            fm_length: u64::MAX,
            fm_flags: 0,
            fm_mapped_extents: 0,
            fm_extent_count: 32,
            fm_reserved: 0,
            fm_extents: [e; 32],
        }
    }
}

/// An extent that the packer does not handle.
#[derive(Debug, Clone, Copy, PartialEq, Eq)]
pub enum FiemapError {
    NotAligned,
    Merged,
    Encoded,
    NotAllocated,
    Preallocated,
    Inaccessible,
}

/// What an extent's flags refuse, checked in this order.
pub open spec fn flags_error(flags: u32) -> Option<FiemapError> {
    if flags & FIEMAP_EXTENT_NOT_ALIGNED != 0 {
        Some(FiemapError::NotAligned)
    } else if flags & FIEMAP_EXTENT_MERGED != 0 {
        Some(FiemapError::Merged)
    } else if flags & FIEMAP_EXTENT_ENCODED != 0 {
        Some(FiemapError::Encoded)
    } else if flags & FIEMAP_EXTENT_DELALLOC != 0 {
        Some(FiemapError::NotAllocated)
    } else if flags & FIEMAP_EXTENT_UNWRITTEN != 0 {
        Some(FiemapError::Preallocated)
    } else if flags & FIEMAP_EXTENT_UNKNOWN != 0 {
        Some(FiemapError::Inaccessible)
    } else {
        None
    }
}

pub open spec fn extent_of(e: fiemap_extent) -> Extent {
    Extent { logical: e.fe_logical, physical: e.fe_physical, length: e.fe_length }
}

/// The extents a reply mapped.
pub open spec fn mapped(m: fiemap) -> Seq<fiemap_extent> {
    m.fm_extents@.take(if m.fm_mapped_extents > 32 { 32 } else { m.fm_mapped_extents as int })
}

/// The extent is the last of the file.
pub open spec fn is_last(e: fiemap_extent) -> bool {
    e.fe_flags & FIEMAP_EXTENT_LAST != 0
}

fn flags_error_exec(f: u32) -> (r: Option<FiemapError>)
    ensures
        r == flags_error(f),
{
    if f & FIEMAP_EXTENT_NOT_ALIGNED != 0 {
        Some(FiemapError::NotAligned)
    } else if f & FIEMAP_EXTENT_MERGED != 0 {
        Some(FiemapError::Merged)
    } else if f & FIEMAP_EXTENT_ENCODED != 0 {
        Some(FiemapError::Encoded)
    } else if f & FIEMAP_EXTENT_DELALLOC != 0 {
        Some(FiemapError::NotAllocated)
    } else if f & FIEMAP_EXTENT_UNWRITTEN != 0 {
        Some(FiemapError::Preallocated)
    } else if f & FIEMAP_EXTENT_UNKNOWN != 0 {
        Some(FiemapError::Inaccessible)
    } else {
        None
    }
}

/// The file offset the next request starts at: the end of the last
/// extent found, or the start of the file.
pub fn fiemap_next_start(extents: &Vec<Extent>) -> (r: u64)
    requires
        extents@.len() > 0 ==> extents@.last().logical + extents@.last().length <= u64::MAX,
    ensures
        extents@.len() == 0 ==> r == 0,
        extents@.len() > 0 ==> r == extents@.last().logical + extents@.last().length,
{
    if extents.len() == 0 {
        0
    } else {
        let e = extents[extents.len() - 1];
        e.logical + e.length
    }
}

/// Takes the extents of one FIEMAP reply: each mapped extent is added in
/// turn, and the first one with a flag we do not handle is refused.
/// Returns whether the file is done: the reply mapped nothing, or held the
/// last extent.
pub fn fiemap_take(extents: &mut Vec<Extent>, m: &fiemap) -> (r: Result<bool, FiemapError>)
    ensures
        match r {
            Ok(done) => {
                &&& forall|i: int|
                    0 <= i < mapped(*m).len() ==> flags_error(#[trigger] mapped(*m)[i].fe_flags) is None
                &&& final(extents)@ == old(extents)@ + mapped(*m).map_values(
                    |e: fiemap_extent| extent_of(e),
                )
                &&& done == (mapped(*m).len() == 0 || exists|i: int|
                    0 <= i < mapped(*m).len() && #[trigger] is_last(mapped(*m)[i]))
            },
            Err(e) => exists|i: int|
                0 <= i < mapped(*m).len() && flags_error(#[trigger] mapped(*m)[i].fe_flags) == Some(e)
                    && forall|j: int| 0 <= j < i ==> flags_error(#[trigger] mapped(*m)[j].fe_flags) is None,
        },
{
    let n: usize = if m.fm_mapped_extents > 32 { 32 } else { m.fm_mapped_extents as usize };
    let ghost batch = mapped(*m);
    assert(batch.len() == n);
    if n == 0 {
        assert(batch.map_values(|e: fiemap_extent| extent_of(e)) =~= Seq::<Extent>::empty());
        assert(old(extents)@ + Seq::<Extent>::empty() =~= old(extents)@);
        return Ok(true);
    }
    let mut found_last = false;
    let mut i: usize = 0;
    while i < n
        invariant
            n <= 32,
            batch == mapped(*m),
            batch.len() == n,
            i <= n,
            forall|k: int| 0 <= k < i ==> flags_error(#[trigger] batch[k].fe_flags) is None,
            extents@ == old(extents)@ + batch.take(i as int).map_values(|e: fiemap_extent| extent_of(e)),
            found_last == exists|k: int| 0 <= k < i && #[trigger] is_last(batch[k]),
        decreases n - i,
    {
        let e = m.fm_extents[i];
        assert(batch[i as int] == e);
        let f = e.fe_flags;
        match flags_error_exec(f) {
            Some(err) => return Err(err),
            None => {},
        }
        extents.push(Extent { logical: e.fe_logical, physical: e.fe_physical, length: e.fe_length });
        assert(batch.take(i + 1).map_values(|e: fiemap_extent| extent_of(e)) =~= batch.take(
            i as int,
        ).map_values(|e: fiemap_extent| extent_of(e)).push(extent_of(e)));
        if f & FIEMAP_EXTENT_LAST != 0 {
            assert(is_last(batch[i as int]));
            found_last = true;
        }
        i += 1;
    }
    assert(batch.take(n as int) =~= batch);
    Ok(found_last)
}

} // verus!

verus! {

/// The mappings of an object's extents to the object.
pub open spec fn extent_mappings(extents: Seq<Extent>, object: Sha256Digest) -> Seq<Mapping> {
    extents.map_values(|e: Extent| Mapping { extent: e, object })
}

/// The scan of the ostree objects of a root filesystem: the mappings of
/// their extents, the boot files (by length) not matched to an object
/// yet, those that were, and how many objects were mapped or empty.
pub struct RootScan {
    pub mappings: Vec<Mapping>,
    pub boot_files: HashMap<u64, String>,
    pub mapped_boot_files: Vec<(String, Sha256Digest)>,
    pub mapped_count: u64,
    pub empty_count: u64,
}

impl RootScan {
    /// A scan before any object, with the boot files to match.
    pub fn new(boot_files: HashMap<u64, String>) -> (r: Self)
        ensures
            r.mappings@.len() == 0,
            r.boot_files@ == boot_files@,
            r.mapped_boot_files@.len() == 0,
            r.mapped_count == 0,
            r.empty_count == 0,
    {
        RootScan { mappings: Vec::new(), boot_files, mapped_boot_files: Vec::new(), mapped_count: 0, empty_count: 0 }
    }

    /// Takes an object file, at `path`, with its extents and its length.
    /// An empty file is counted; another is mapped, extent by extent, to
    /// the object its path names. Gives the object where an unmatched boot
    /// file has the same length: its digest is then to be compared with
    /// the object's.
    pub fn add_object(&mut self, path: &str, extents: &Vec<Extent>, len: u64) -> (r: Result<
        Option<Sha256Digest>,
        ObjectPathError,
    >)
        requires
            old(self).mapped_count < u64::MAX,
            old(self).empty_count < u64::MAX,
        ensures
            final(self).boot_files@ == old(self).boot_files@,
            final(self).mapped_boot_files@ == old(self).mapped_boot_files@,
            extents@.len() == 0 ==> r == Ok::<Option<Sha256Digest>, ObjectPathError>(None)
                && final(self).empty_count == old(self).empty_count + 1 && final(self).mappings@
                == old(self).mappings@ && final(self).mapped_count == old(self).mapped_count,
            extents@.len() > 0 ==> match object_path_spec(path@) {
                Err(ObjectFault::BadHex) => r == Err::<Option<Sha256Digest>, ObjectPathError>(
                    ObjectPathError::BadHex,
                ) && final(self).mappings@ == old(self).mappings@,
                Err(ObjectFault::Malformed) => r matches Err(ObjectPathError::Malformed { .. })
                    && final(self).mappings@ == old(self).mappings@,
                Ok(d) => r matches Ok(found) && exists|o: Sha256Digest|
                    #![trigger extent_mappings(extents@, o)]
                    o.0@ == d && final(self).mappings@ == old(self).mappings@ + extent_mappings(extents@, o)
                        && final(self).mapped_count == old(self).mapped_count + 1
                        && final(self).empty_count == old(self).empty_count && match found {
                        Some(o2) => old(self).boot_files@.contains_key(len) && o2 == o,
                        None => !old(self).boot_files@.contains_key(len),
                    },
            },
    {
        if extents.len() == 0 {
            self.empty_count = self.empty_count + 1;
            return Ok(None);
        }
        let object = match object_path_to_checksum(path) {
            Ok(o) => o,
            Err(e) => return Err(e),
        };
        let ghost before = self.mappings@;
        assert(before == old(self).mappings@);
        assert(object_path_spec(path@) == Ok::<Seq<u8>, ObjectFault>(object.0@));
        let mut k: usize = 0;
        while k < extents.len()
            invariant
                k <= extents@.len(),
                extents@.len() > 0,
                object_path_spec(path@) == Ok::<Seq<u8>, ObjectFault>(object.0@),
                self.boot_files@ == old(self).boot_files@,
                self.mapped_boot_files@ == old(self).mapped_boot_files@,
                self.mapped_count == old(self).mapped_count,
                self.empty_count == old(self).empty_count,
                self.mapped_count < u64::MAX,
                self.mappings@ == before + extents@.take(k as int).map_values(
                    |e: Extent| Mapping { extent: e, object },
                ),
            decreases extents@.len() - k,
        {
            self.mappings.push(Mapping { extent: extents[k], object });
            assert(extents@.take(k + 1).map_values(|e: Extent| Mapping { extent: e, object })
                =~= extents@.take(k as int).map_values(|e: Extent| Mapping { extent: e, object }).push(
                Mapping { extent: extents@[k as int], object },
            ));
            k += 1;
        }
        assert(extents@.take(k as int) =~= extents@);
        assert(self.mappings@ == before + extent_mappings(extents@, object));
        self.mapped_count = self.mapped_count + 1;
        if self.boot_files.contains_key(&len) {
            Ok(Some(object))
        } else {
            Ok(None)
        }
    }

    /// The boot file of length `len` has the digest of the object: it is
    /// mapped to the object, and no longer waits for a match.
    pub fn boot_file_matched(&mut self, len: u64, object: Sha256Digest)
        requires
            old(self).boot_files@.contains_key(len),
        ensures
            final(self).boot_files@ == old(self).boot_files@.remove(len),
            final(self).mapped_boot_files@ == old(self).mapped_boot_files@.push(
                (old(self).boot_files@[len], object),
            ),
            final(self).mappings@ == old(self).mappings@,
            final(self).mapped_count == old(self).mapped_count,
            final(self).empty_count == old(self).empty_count,
    {
        if let Some(path) = self.boot_files.remove(&len) {
            self.mapped_boot_files.push((path, object));
        }
    }
}

} // verus!
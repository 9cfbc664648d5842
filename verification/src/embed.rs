//! Embed areas of a live ISO image: the regions that hold the kernel
//! arguments and the Ignition/network initrd.

use crate::initrd::{archive_spec, glob_match, known_pattern, xz_cpio_archive, GlobMatcher, Initrd};
use crate::text::{
    chars_of, is_ws, lemma_trim_end_char_take, lemma_trim_end_take, lemma_trim_start_skip,
    string_of, trim, trim_chars, trim_end, trim_end_char, trim_end_char_exec, trim_start,
};
use vstd::prelude::*;
use vstd::utf8::{decode_utf8, encode_utf8, valid_utf8};

verus! {

/// Size of the initrd embed area header that follows the karg header.
pub const INITRD_HEADER_SIZE: u64 = 24;

/// Magic string at the start of the karg embed area header.
pub const KARG_HEADER_MAGIC: [u8; 8] = [99, 111, 114, 101, 75, 97, 114, 103];

/// Size of the karg embed area header in the ISO 9660 system area.
pub const KARG_HEADER_SIZE: u64 = 72;

/// Most karg embed areas the header can point to.
pub const KARG_HEADER_MAX_OFFSETS: usize = 6;

/// Largest karg embed area we accept.
pub const KARG_AREA_MAX_SIZE: usize = 2048;

/// Offset of the karg embed area header in the image.
pub const KARG_HEADER_OFFSET: u64 = 32672;

/// Why an embed area could not be read or updated.
#[derive(Debug, Clone, PartialEq, Eq)]
pub enum EmbedError {
    /// A region's contents do not have its length.
    RegionLength { expected: usize, found: usize },
    /// A modified region starts before the end of the previous one.
    RegionOverlap { offset: u64, cursor: u64 },
    /// The karg embed area is larger than we accept.
    KargAreaTooLarge { found: u64 },
    /// The default kargs do not fit in the karg embed area.
    DefaultKargsTooLarge { default: usize, size: usize },
    /// The image has no karg embed area.
    NoKargAreas,
    /// A karg embed area is not UTF-8.
    InvalidUtf8 { offset: u64 },
    /// Two karg embed areas hold different arguments.
    KargsMismatch { offset: u64 },
    /// The new kargs do not fit in the karg embed area.
    KargsTooLarge { needed: usize, length: usize },
    /// The compressed initrd does not fit in its embed area.
    InitrdTooLarge { size: usize, capacity: usize },
    /// The image does not support karg embed areas.
    KargsUnsupported,
    /// The initrd archive could not be written.
    Archive,
    /// The new karg embed area description does not fit in its file.
    InfoTooLarge { needed: usize, length: usize },
}

/// A byte range of the image, with the contents it should hold.
#[derive(Debug, Clone)]
pub struct Region {
    pub offset: u64,
    pub length: usize,
    pub contents: Vec<u8>,
    pub modified: bool,
}

impl Region {
    /// The region at `offset` whose `length` bytes were read as `contents`.
    pub fn new(offset: u64, length: usize, contents: Vec<u8>) -> (r: Self)
        ensures
            r.offset == offset,
            r.length == length,
            r.contents@ == contents@,
            !r.modified,
    {
        Region { offset, length, contents, modified: false }
    }

    /// The contents have the region's length.
    pub fn validate(&self) -> (r: Result<(), EmbedError>)
        ensures
            r is Ok <==> self.length == self.contents@.len(),
            r is Err ==> r == Err::<(), EmbedError>(
                EmbedError::RegionLength { expected: self.length, found: self.contents@.len() as usize },
            ),
    {
        if self.length != self.contents.len() {
            return Err(EmbedError::RegionLength { expected: self.length, found: self.contents.len() });
        }
        Ok(())
    }
}

// ---------------------------------------------------------------------
// Karg embed area header
// ---------------------------------------------------------------------
/// Little-endian 64-bit word at `p`.
pub open spec fn le64(b: Seq<u8>, p: int) -> u64 {
    (b[p] as u64) | (b[p + 1] as u64) << 8 | (b[p + 2] as u64) << 16 | (b[p + 3] as u64) << 24 | (b[p
        + 4] as u64) << 32 | (b[p + 5] as u64) << 40 | (b[p + 6] as u64) << 48 | (b[p + 7] as u64)
        << 56
}

fn read_u64_le(b: &[u8], p: usize) -> (r: u64)
    requires
        p + 8 <= b.len(),
    ensures
        r == le64(b@, p as int),
{
    (b[p] as u64) | (b[p + 1] as u64) << 8 | (b[p + 2] as u64) << 16 | (b[p + 3] as u64) << 24 | (b[p
        + 4] as u64) << 32 | (b[p + 5] as u64) << 40 | (b[p + 6] as u64) << 48 | (b[p + 7] as u64)
        << 56
}

/// Where the karg embed areas are, as the system-area header gives them.
#[derive(Debug, Clone, PartialEq, Eq)]
pub struct KargHeader {
    /// Length of each area.
    pub length: usize,
    /// Offset of the default kargs.
    pub default_offset: u64,
    /// Offsets of the writable areas.
    pub offsets: Vec<u64>,
}

/// The offsets listed from slot `i` on: the header has up to six slots,
/// and the first zero ends the list.
pub open spec fn header_offsets(h: Seq<u8>, i: int) -> Seq<u64>
    decreases KARG_HEADER_MAX_OFFSETS - i,
{
    if i >= KARG_HEADER_MAX_OFFSETS || le64(h, 24 + 8 * i) == 0 {
        Seq::empty()
    } else {
        seq![le64(h, 24 + 8 * i)] + header_offsets(h, i + 1)
    }
}

/// The header begins with the magic string.
pub open spec fn has_karg_magic(h: Seq<u8>) -> bool {
    h.take(8) == KARG_HEADER_MAGIC@
}

/// Reads the 72-byte karg embed area header: `None` where the magic is
/// missing (an image without karg embed areas).
pub fn parse_karg_header(h: &[u8]) -> (r: Result<Option<KargHeader>, EmbedError>)
    requires
        h.len() == KARG_HEADER_SIZE,
    ensures
        !has_karg_magic(h@) ==> r == Ok::<Option<KargHeader>, EmbedError>(None),
        has_karg_magic(h@) && le64(h@, 8) > KARG_AREA_MAX_SIZE ==> r == Err::<
            Option<KargHeader>,
            EmbedError,
        >(EmbedError::KargAreaTooLarge { found: le64(h@, 8) }),
        has_karg_magic(h@) && le64(h@, 8) <= KARG_AREA_MAX_SIZE ==> (r matches Ok(Some(k)) && k.length
            == le64(h@, 8) && k.default_offset == le64(h@, 16) && k.offsets@ == header_offsets(h@, 0)),
{
    let mut i: usize = 0;
    while i < 8
        invariant
            i <= 8,
            h.len() == KARG_HEADER_SIZE,
            forall|k: int| 0 <= k < i ==> h@[k] == KARG_HEADER_MAGIC@[k],
        decreases 8 - i,
    {
        if h[i] != KARG_HEADER_MAGIC[i] {
            assert(h@.take(8)[i as int] != KARG_HEADER_MAGIC@[i as int]);
            return Ok(None);
        }
        i += 1;
    }
    assert(h@.take(8) =~= KARG_HEADER_MAGIC@);
    let length = read_u64_le(h, 8);
    if length > KARG_AREA_MAX_SIZE as u64 {
        return Err(EmbedError::KargAreaTooLarge { found: length });
    }
    let default_offset = read_u64_le(h, 16);
    let mut offsets: Vec<u64> = Vec::new();
    let mut k: usize = 0;
    while k < KARG_HEADER_MAX_OFFSETS
        invariant
            k <= KARG_HEADER_MAX_OFFSETS,
            h.len() == KARG_HEADER_SIZE,
            has_karg_magic(h@),
            length == le64(h@, 8),
            length <= KARG_AREA_MAX_SIZE,
            default_offset == le64(h@, 16),
            offsets@ + header_offsets(h@, k as int) == header_offsets(h@, 0),
        decreases KARG_HEADER_MAX_OFFSETS - k,
    {
        let off = read_u64_le(h, 24 + 8 * k);
        if off == 0 {
            assert(header_offsets(h@, k as int) == Seq::<u64>::empty());
            assert(offsets@ + Seq::<u64>::empty() == offsets@);
            return Ok(Some(KargHeader { length: length as usize, default_offset, offsets }));
        }
        offsets.push(off);
        assert(offsets@ + header_offsets(h@, k + 1) == header_offsets(h@, 0)) by {
            assert(header_offsets(h@, k as int) == seq![off] + header_offsets(h@, k + 1));
            assert(offsets@ =~= offsets@.drop_last().push(off));
            assert((offsets@.drop_last() + seq![off]) + header_offsets(h@, k + 1)
                =~= offsets@.drop_last() + (seq![off] + header_offsets(h@, k + 1)));
        }
        k += 1;
    }
    assert(header_offsets(h@, KARG_HEADER_MAX_OFFSETS as int) == Seq::<u64>::empty());
    assert(offsets@ + Seq::<u64>::empty() == offsets@);
    Ok(Some(KargHeader { length: length as usize, default_offset, offsets }))
}

/// The new text of the karg embed area description file: the JSON
/// text, padded with spaces to the file's length, which it must not
/// exceed.
pub fn pad_karg_info(json: &[u8], length: usize) -> (r: Result<Vec<u8>, EmbedError>)
    ensures
        json@.len() > length ==> r == Err::<Vec<u8>, EmbedError>(
            EmbedError::InfoTooLarge { needed: json@.len() as usize, length },
        ),
        json@.len() <= length ==> (r matches Ok(v) && v@ == json@ + Seq::new(
            (length - json@.len()) as nat,
            |i: int| 32u8,
        )),
{
    if json.len() > length {
        return Err(EmbedError::InfoTooLarge { needed: json.len(), length });
    }
    let mut out = crate::io::owned_bytes(json);
    while out.len() < length
        invariant
            json@.len() <= out@.len() <= length,
            out@ == json@ + Seq::new((out@.len() - json@.len()) as nat, |i: int| 32u8),
        decreases length - out@.len(),
    {
        let ghost before = out@;
        out.push(32u8);
        assert(out@ =~= json@ + Seq::new((out@.len() - json@.len()) as nat, |i: int| 32u8));
    }
    Ok(out)
}

/// The karg embed area description read from the image's JSON file is
/// within bounds: its size at most the limit, and the default kargs
/// (`default_len` bytes) no larger than it.
pub fn check_karg_info(size: usize, default_len: usize) -> (r: Result<(), EmbedError>)
    ensures
        size > KARG_AREA_MAX_SIZE ==> r == Err::<(), EmbedError>(
            EmbedError::KargAreaTooLarge { found: size as u64 },
        ),
        size <= KARG_AREA_MAX_SIZE && default_len > size ==> r == Err::<(), EmbedError>(
            EmbedError::DefaultKargsTooLarge { default: default_len, size },
        ),
        size <= KARG_AREA_MAX_SIZE && default_len <= size ==> r is Ok,
{
    if size > KARG_AREA_MAX_SIZE {
        return Err(EmbedError::KargAreaTooLarge { found: size as u64 });
    }
    if default_len > size {
        return Err(EmbedError::DefaultKargsTooLarge { default: default_len, size });
    }
    Ok(())
}

} // verus!

verus! {

// ---------------------------------------------------------------------
// Karg embed areas
// ---------------------------------------------------------------------
/// The kargs held by an embed area's bytes: the UTF-8 text, without its
/// `#` padding and surrounding whitespace.
pub open spec fn karg_area_text(bytes: Seq<u8>) -> Seq<char> {
    trim(trim_end_char(decode_utf8(bytes), '#'))
}

/// `n` bytes of `#` padding.
pub open spec fn padding(n: nat) -> Seq<u8> {
    Seq::new(n, |i: int| 35u8)
}

/// The bytes written for `kargs` into an area of `length` bytes: the
/// trimmed kargs and a newline, padded with `#`.
pub open spec fn karg_area_bytes(kargs: Seq<char>, length: nat) -> Seq<u8> {
    let f = encode_utf8(trim(kargs).push('\n'));
    f + padding((length - f.len()) as nat)
}

/// Checks areas `i..` against the kargs of the first one.
pub open spec fn check_areas(rs: Seq<Region>, args: Seq<char>, i: int) -> Result<(), EmbedError>
    decreases rs.len() - i,
{
    if i >= rs.len() || i < 0 {
        Ok(())
    } else if !valid_utf8(rs[i].contents@) {
        Err(EmbedError::InvalidUtf8 { offset: rs[i].offset })
    } else if karg_area_text(rs[i].contents@) != args {
        Err(EmbedError::KargsMismatch { offset: rs[i].offset })
    } else {
        check_areas(rs, args, i + 1)
    }
}

/// The kargs that a set of areas holds: those of the first area, which
/// every other area must repeat.
pub open spec fn areas_kargs(rs: Seq<Region>) -> Result<Seq<char>, EmbedError> {
    if rs.len() == 0 {
        Err(EmbedError::NoKargAreas)
    } else if !valid_utf8(rs[0].contents@) {
        Err(EmbedError::InvalidUtf8 { offset: rs[0].offset })
    } else {
        match check_areas(rs, karg_area_text(rs[0].contents@), 1) {
            Ok(_) => Ok(karg_area_text(rs[0].contents@)),
            Err(e) => Err(e),
        }
    }
}

/// The karg embed areas of an image: the default kargs and the writable
/// areas, which all hold the current kargs.
pub struct KargEmbedAreas {
    length: usize,
    default: String,
    regions: Vec<Region>,
    args: String,
}

impl KargEmbedAreas {
    /// Length of each area.
    pub closed spec fn length(&self) -> nat {
        self.length as nat
    }

    pub closed spec fn default(&self) -> Seq<char> {
        self.default@
    }

    /// The current kargs.
    pub closed spec fn args(&self) -> Seq<char> {
        self.args@
    }

    pub closed spec fn regions(&self) -> Seq<Region> {
        self.regions@
    }

    /// The kargs in an area.
    pub fn parse(region: &Region) -> (r: Result<String, EmbedError>)
        ensures
            valid_utf8(region.contents@) ==> (r matches Ok(s) && s@ == karg_area_text(
                region.contents@,
            )),
            !valid_utf8(region.contents@) ==> r == Err::<String, EmbedError>(
                EmbedError::InvalidUtf8 { offset: region.offset },
            ),
    {
        match crate::text::utf8_string(region.contents.as_slice()) {
            Some(s) => {
                let v = chars_of(s.as_str());
                let u = trim_end_char_exec(&v, '#');
                let t = trim_chars(&u);
                Ok(string_of(&t))
            },
            None => Err(EmbedError::InvalidUtf8 { offset: region.offset }),
        }
    }

    /// Areas of `length` bytes with the given default kargs; every area
    /// must hold the same kargs.
    pub fn build(length: usize, default: String, regions: Vec<Region>) -> (r: Result<Self, EmbedError>)
        ensures
            match areas_kargs(regions@) {
                Ok(a) => r matches Ok(k) && k.args() == a && k.length() == length && k.default()
                    == default@ && k.regions() == regions@,
                Err(e) => r == Err::<Self, EmbedError>(e),
            },
    {
        if regions.len() == 0 {
            return Err(EmbedError::NoKargAreas);
        }
        let args = match KargEmbedAreas::parse(&regions[0]) {
            Ok(a) => a,
            Err(e) => return Err(e),
        };
        let ghost a = args@;
        let mut i: usize = 1;
        while i < regions.len()
            invariant
                1 <= i <= regions.len(),
                valid_utf8(regions@[0].contents@),
                args@ == karg_area_text(regions@[0].contents@),
                check_areas(regions@, args@, 1) == check_areas(regions@, args@, i as int),
            decreases regions.len() - i,
        {
            let cur = match KargEmbedAreas::parse(&regions[i]) {
                Ok(c) => c,
                Err(e) => return Err(e),
            };
            if cur != args {
                return Err(EmbedError::KargsMismatch { offset: regions[i].offset });
            }
            i += 1;
        }
        Ok(KargEmbedAreas { length, default, regions, args })
    }

    pub fn kargs_default(&self) -> (r: &str)
        ensures
            r@ == self.default(),
    {
        self.default.as_str()
    }

    pub fn kargs(&self) -> (r: &str)
        ensures
            r@ == self.args(),
    {
        self.args.as_str()
    }

    /// Writes `kargs`, trimmed, into every area.
    pub fn set_kargs(&mut self, kargs: &str) -> (r: Result<(), EmbedError>)
        ensures
            ({
                let f = encode_utf8(trim(kargs@).push('\n'));
                &&& f.len() > old(self).length() ==> r == Err::<(), EmbedError>(
                    EmbedError::KargsTooLarge { needed: f.len() as usize, length: old(self).length() as usize },
                ) && final(self).regions() == old(self).regions() && final(self).args()
                    == old(self).args()
                &&& f.len() <= old(self).length() ==> r is Ok && final(self).args() == trim(kargs@)
                    && final(self).regions().len() == old(self).regions().len() && forall|i: int|
                    0 <= i < old(self).regions().len() ==> {
                        let a = #[trigger] final(self).regions()[i];
                        let b = old(self).regions()[i];
                        &&& a.offset == b.offset
                        &&& a.length == b.length
                        &&& a.contents@ == karg_area_bytes(kargs@, old(self).length())
                        &&& a.modified
                    }
            }),
            final(self).length() == old(self).length(),
            final(self).default() == old(self).default(),
    {
        let t = trim_chars(&chars_of(kargs));
        let mut f = t.clone();
        f.push('\n');
        assert(f@ == t@.push('\n'));
        let fs = string_of(&f);
        let fb = fs.as_str().as_bytes();
        if fb.len() > self.length {
            return Err(EmbedError::KargsTooLarge { needed: fb.len(), length: self.length });
        }
        let mut contents: Vec<u8> = Vec::new();
        let mut j: usize = 0;
        while j < self.length
            invariant
                j <= self.length,
                fb@ == encode_utf8(trim(kargs@).push('\n')),
                fb.len() <= self.length,
                contents@.len() == j,
                forall|k: int| 0 <= k < j ==> #[trigger] contents@[k] == karg_area_bytes(
                    kargs@,
                    self.length as nat,
                )[k],
            decreases self.length - j,
        {
            if j < fb.len() {
                contents.push(fb[j]);
            } else {
                contents.push(35u8);
            }
            j += 1;
        }
        assert(contents@ =~= karg_area_bytes(kargs@, self.length as nat));
        let ghost old_regions = self.regions@;
        let mut i: usize = 0;
        while i < self.regions.len()
            invariant
                i <= self.regions@.len(),
                self.regions@.len() == old_regions.len(),
                self.length == old(self).length,
                self.default == old(self).default,
                contents@ == karg_area_bytes(kargs@, self.length as nat),
                forall|k: int|
                    i <= k < old_regions.len() ==> #[trigger] self.regions@[k] == old_regions[k],
                forall|k: int|
                    0 <= k < i ==> {
                        let a = #[trigger] self.regions@[k];
                        let b = old_regions[k];
                        &&& a.offset == b.offset
                        &&& a.length == b.length
                        &&& a.contents@ == karg_area_bytes(kargs@, self.length as nat)
                        &&& a.modified
                    },
            decreases self.regions@.len() - i,
        {
            let c = contents.clone();
            assert(c@ =~= contents@);
            let region = Region {
                offset: self.regions[i].offset,
                length: self.regions[i].length,
                contents: c,
                modified: true,
            };
            self.regions.set(i, region);
            i += 1;
        }
        self.args = string_of(&t);
        Ok(())
    }
}

} // verus!

verus! {

proof fn lemma_encode_concat(a: Seq<char>, b: Seq<char>)
    ensures
        encode_utf8(a + b) == encode_utf8(a) + encode_utf8(b),
    decreases a.len(),
{
    if a.len() == 0 {
        assert(a + b =~= b);
        assert(encode_utf8(a) =~= Seq::<u8>::empty());
        assert(encode_utf8(a) + encode_utf8(b) =~= encode_utf8(b));
    } else {
        assert((a + b).drop_first() =~= a.drop_first() + b);
        assert((a + b)[0] == a[0]);
        lemma_encode_concat(a.drop_first(), b);
        let e = vstd::utf8::encode_scalar(a[0] as u32);
        assert(e + (encode_utf8(a.drop_first()) + encode_utf8(b)) =~= (e + encode_utf8(
            a.drop_first(),
        )) + encode_utf8(b));
    }
}

proof fn lemma_hash_chars(n: nat)
    ensures
        encode_utf8(Seq::new(n, |i: int| '#')) == padding(n),
{
    let h = Seq::new(n, |i: int| '#');
    assert(vstd::utf8::is_ascii_chars(h));
    vstd::utf8::is_ascii_chars_encode_utf8(h);
    assert forall|i: int| 0 <= i < n implies encode_utf8(h)[i] == padding(n)[i] by {
        assert(h[i] as u8 == encode_utf8(h)[i]);
        assert(('#' as u8) == 35u8);
    }
    assert(encode_utf8(h) =~= padding(n));
}

/// The first and last characters of trimmed text are not whitespace.
pub proof fn lemma_trim_ends(s: Seq<char>)
    ensures
        trim(s).len() > 0 ==> !is_ws(trim(s)[0]) && !is_ws(trim(s).last()),
{
    lemma_trim_start_first(s);
    lemma_trim_end_prefix(trim_start(s));
}

proof fn lemma_trim_start_first(s: Seq<char>)
    ensures
        trim_start(s).len() > 0 ==> !is_ws(trim_start(s)[0]),
    decreases s.len(),
{
    if s.len() > 0 && is_ws(s[0]) {
        lemma_trim_start_first(s.drop_first());
    }
}

proof fn lemma_trim_end_prefix(s: Seq<char>)
    ensures
        trim_end(s).len() <= s.len(),
        trim_end(s) == s.take(trim_end(s).len() as int),
        trim_end(s).len() > 0 ==> !is_ws(trim_end(s).last()),
    decreases s.len(),
{
    if s.len() > 0 && is_ws(s.last()) {
        lemma_trim_end_prefix(s.drop_last());
        assert(s.drop_last().take(trim_end(s).len() as int) =~= s.take(trim_end(s).len() as int));
    } else {
        assert(s.take(s.len() as int) =~= s);
    }
}

/// Trimming text that is already trimmed, with a newline added, gives
/// the text back.
proof fn lemma_trim_newline(t: Seq<char>)
    requires
        t.len() > 0 ==> !is_ws(t[0]) && !is_ws(t.last()),
    ensures
        trim(t.push('\n')) == t,
{
    let s = t.push('\n');
    assert(is_ws('\n'));
    if t.len() > 0 {
        assert(s[0] == t[0]);
        lemma_trim_start_skip(s, 0);
        assert(s.skip(0) =~= s);
    } else {
        lemma_trim_start_skip(s, 1);
        assert(s.skip(1) =~= t);
    }
    if t.len() > 0 {
        assert(s[t.len() - 1] == t.last());
        lemma_trim_end_take(s, t.len() as int);
        assert(s.take(t.len() as int) =~= t);
    }
}

/// Reading an area back gives the kargs that were written into it.
pub proof fn lemma_karg_area_roundtrip(kargs: Seq<char>, length: nat)
    requires
        encode_utf8(trim(kargs).push('\n')).len() <= length,
    ensures
        valid_utf8(karg_area_bytes(kargs, length)),
        karg_area_text(karg_area_bytes(kargs, length)) == trim(kargs),
{
    let t = trim(kargs);
    let f = t.push('\n');
    let n = (length - encode_utf8(f).len()) as nat;
    let h = Seq::new(n, |i: int| '#');
    lemma_hash_chars(n);
    lemma_encode_concat(f, h);
    assert(karg_area_bytes(kargs, length) == encode_utf8(f + h));
    vstd::utf8::encode_utf8_valid_utf8(f + h);
    vstd::utf8::encode_utf8_decode_utf8(f + h);
    let d = f + h;
    assert(d[f.len() - 1] == '\n');
    lemma_trim_end_char_take(d, '#', f.len() as int);
    assert(d.take(f.len() as int) =~= f);
    lemma_trim_ends(kargs);
    lemma_trim_newline(t);
}

/// After the same kargs were written into every area, the areas read as
/// those kargs.
pub proof fn lemma_written_areas_read_back(rs: Seq<Region>, kargs: Seq<char>, length: nat)
    requires
        rs.len() > 0,
        encode_utf8(trim(kargs).push('\n')).len() <= length,
        forall|i: int| 0 <= i < rs.len() ==> #[trigger] rs[i].contents@ == karg_area_bytes(kargs, length),
    ensures
        areas_kargs(rs) == Ok::<Seq<char>, EmbedError>(trim(kargs)),
{
    lemma_karg_area_roundtrip(kargs, length);
    assert(rs[0].contents@ == karg_area_bytes(kargs, length));
    lemma_check_areas_uniform(rs, kargs, length, 1);
}

proof fn lemma_check_areas_uniform(rs: Seq<Region>, kargs: Seq<char>, length: nat, i: int)
    requires
        0 <= i,
        encode_utf8(trim(kargs).push('\n')).len() <= length,
        forall|k: int| 0 <= k < rs.len() ==> #[trigger] rs[k].contents@ == karg_area_bytes(kargs, length),
    ensures
        check_areas(rs, trim(kargs), i) == Ok::<(), EmbedError>(()),
    decreases rs.len() - i,
{
    lemma_karg_area_roundtrip(kargs, length);
    if i < rs.len() {
        assert(rs[i].contents@ == karg_area_bytes(kargs, length));
        lemma_check_areas_uniform(rs, kargs, length, i + 1);
    }
}

} // verus!

verus! {

// ---------------------------------------------------------------------
// Initrd embed area
// ---------------------------------------------------------------------
/// `n` zero bytes.
pub open spec fn zeros(n: nat) -> Seq<u8> {
    Seq::new(n, |i: int| 0u8)
}

/// The initrd embed area: the region that holds an xz-compressed CPIO
/// archive, and the files of that archive.
pub struct InitrdEmbedArea {
    region: Region,
    initrd: Initrd,
}

/// `r` is what writing the area gives: its region with the archive of
/// the files (none at all when there are no files), padded with zeros,
/// or the error that prevents it.
pub open spec fn area_region_ok(ar: InitrdEmbedArea, r: Result<Region, EmbedError>) -> bool {
    &&& ar.initrd_view().files() == Map::<Seq<char>, Seq<u8>>::empty() ==> (r matches Ok(g)
        && g.contents@ == zeros(ar.region_view().length as nat))
    &&& ar.initrd_view().files() != Map::<Seq<char>, Seq<u8>>::empty() ==> match r {
        Ok(g) => {
            let a = xz_cpio_archive(archive_spec(ar.initrd_view().entries(), seq![]));
            &&& a.len() <= ar.region_view().length
            &&& g.contents@ == a + zeros((ar.region_view().length - a.len()) as nat)
        },
        Err(e) => e == EmbedError::Archive || ({
            let a = xz_cpio_archive(archive_spec(ar.initrd_view().entries(), seq![]));
            &&& a.len() > ar.region_view().length
            &&& e == EmbedError::InitrdTooLarge { size: a.len() as usize, capacity: ar.region_view().length }
        }),
    }
    &&& r matches Ok(g) ==> g.offset == ar.region_view().offset && g.length == ar.region_view().length
        && g.modified == ar.region_view().modified
}

impl InitrdEmbedArea {
    pub closed spec fn region_view(&self) -> Region {
        self.region
    }

    pub closed spec fn initrd_view(&self) -> Initrd {
        self.initrd
    }

    pub open spec fn wf(&self) -> bool {
        self.initrd_view().wf()
    }

    /// The area at `region` (whose contents were decoded into `initrd`;
    /// they are not kept).
    pub fn new(region: Region, initrd: Initrd) -> (r: Self)
        ensures
            r.region_view().offset == region.offset,
            r.region_view().length == region.length,
            r.region_view().modified == region.modified,
            r.region_view().contents@.len() == 0,
            r.initrd_view() == initrd,
    {
        let region = Region {
            offset: region.offset,
            length: region.length,
            contents: Vec::new(),
            modified: region.modified,
        };
        InitrdEmbedArea { region, initrd }
    }

    pub fn initrd(&self) -> (r: &Initrd)
        ensures
            *r == self.initrd_view(),
    {
        &self.initrd
    }

    /// The files, for changing; the area is then written back.
    pub fn initrd_mut(&mut self) -> (r: &mut Initrd)
        ensures
            *r == old(self).initrd_view(),
            final(self).initrd_view() == *final(r),
            final(self).region_view().offset == old(self).region_view().offset,
            final(self).region_view().length == old(self).region_view().length,
            final(self).region_view().contents == old(self).region_view().contents,
            final(self).region_view().modified,
    {
        self.region.modified = true;
        &mut self.initrd
    }

    /// The region with its new contents: the archive of the files (none
    /// at all when there are no files), padded with zeros to the length
    /// of the area.
    pub fn region(&self) -> (r: Result<Region, EmbedError>)
        requires
            self.wf(),
        ensures
            area_region_ok(*self, r),
    {
        let capacity = self.region.length;
        let mut data: Vec<u8> = if !self.initrd.is_empty() {
            match self.initrd.to_bytes() {
                Ok(b) => b,
                Err(_) => return Err(EmbedError::Archive),
            }
        } else {
            Vec::new()
        };
        if data.len() > capacity {
            return Err(EmbedError::InitrdTooLarge { size: data.len(), capacity });
        }
        let ghost a = data@;
        while data.len() < capacity
            invariant
                a.len() <= data@.len() <= capacity,
                data@ == a + zeros((data@.len() - a.len()) as nat),
            decreases capacity - data.len(),
        {
            let ghost before = data@;
            data.push(0u8);
            assert(data@ =~= a + zeros((data@.len() - a.len()) as nat));
        }
        Ok(Region {
            offset: self.region.offset,
            length: self.region.length,
            contents: data,
            modified: self.region.modified,
        })
    }
}

// ---------------------------------------------------------------------
// The configuration of a live ISO image
// ---------------------------------------------------------------------
/// Path of the Ignition config in the embedded initrd.
pub open spec fn ignition_path() -> Seq<char> {
    "config.ign"@
}

/// Pattern for the network settings in the embedded initrd.
pub open spec fn network_glob() -> Seq<char> {
    "etc/coreos-firstboot-network/*"@
}

/// The files that the network pattern matches.
pub open spec fn is_network_file(path: Seq<char>) -> bool {
    glob_match(network_glob(), path)
}

/// The matcher for the embedded network settings.
pub fn network_matcher() -> (r: GlobMatcher)
    ensures
        r.wf(),
        r.patterns() == seq![network_glob()],
{
    let pats: [&str; 1] = ["etc/coreos-firstboot-network/*"];
    proof {
        reveal_strlit("etc/coreos-firstboot-network/*");
        assert(pats@[0]@ == network_glob());
        assert(known_pattern(pats@[0]@));
    }
    assert(pats@.map_values(|p: &str| p@) =~= seq![network_glob()]);
    GlobMatcher::new(&pats).unwrap()
}

pub proof fn lemma_network_matcher(g: GlobMatcher)
    requires
        g.patterns() == seq![network_glob()],
    ensures
        forall|p: Seq<char>| #[trigger] g.matches_spec(p) == is_network_file(p),
{
    assert forall|p: Seq<char>| #[trigger] g.matches_spec(p) == is_network_file(p) by {
        if is_network_file(p) {
            assert(glob_match(g.patterns()[0], p));
        }
    }
}

/// The customizable parts of a live ISO image: the initrd embed area and,
/// on images that have them, the karg embed areas.
pub struct IsoConfig {
    initrd: InitrdEmbedArea,
    kargs: Option<KargEmbedAreas>,
}

impl IsoConfig {
    pub closed spec fn initrd_area(&self) -> InitrdEmbedArea {
        self.initrd
    }

    pub closed spec fn karg_areas(&self) -> Option<KargEmbedAreas> {
        self.kargs
    }

    /// The embedded files.
    pub open spec fn files(&self) -> Map<Seq<char>, Seq<u8>> {
        self.initrd_area().initrd_view().files()
    }

    pub open spec fn wf(&self) -> bool {
        self.initrd_area().wf()
    }

    pub fn new(initrd: InitrdEmbedArea, kargs: Option<KargEmbedAreas>) -> (r: Self)
        ensures
            r.initrd_area() == initrd,
            r.karg_areas() == kargs,
    {
        IsoConfig { initrd, kargs }
    }

    /// An Ignition config is embedded.
    pub fn have_ignition(&self) -> (r: bool)
        requires
            self.wf(),
        ensures
            r == self.files().contains_key(ignition_path()),
    {
        proof {
            reveal_strlit("config.ign");
        }
        self.initrd.initrd().get("config.ign").is_some()
    }

    /// The embedded Ignition config, if any.
    pub fn ignition(&self) -> (r: Option<&[u8]>)
        requires
            self.wf(),
        ensures
            match r {
                Some(c) => self.files().contains_key(ignition_path()) && self.files()[ignition_path()]
                    == c@,
                None => !self.files().contains_key(ignition_path()),
            },
    {
        proof {
            reveal_strlit("config.ign");
        }
        self.initrd.initrd().get("config.ign")
    }

    /// Embeds `data` as the Ignition config.
    pub fn set_ignition(&mut self, data: Vec<u8>)
        requires
            old(self).wf(),
        ensures
            final(self).wf(),
            final(self).files() == old(self).files().insert(ignition_path(), data@),
            final(self).karg_areas() == old(self).karg_areas(),
    {
        proof {
            reveal_strlit("config.ign");
        }
        self.initrd.initrd_mut().add("config.ign", data);
    }

    /// Network settings are embedded.
    pub fn have_network(&self) -> (r: bool)
        requires
            self.wf(),
        ensures
            r == exists|p: Seq<char>| self.files().contains_key(p) && is_network_file(p),
    {
        let g = network_matcher();
        let found = self.initrd.initrd().find(&g);
        let ghost es = self.initrd.initrd_view().entries();
        let ghost pred = |e: (Seq<char>, Seq<u8>)| g.matches_spec(e.0);
        proof {
            self.initrd.initrd_view().lemma_files_entries();
            lemma_network_matcher(g);
        }
        if found.len() == 0 {
            proof {
                assert forall|p: Seq<char>| !(self.files().contains_key(p) && is_network_file(p)) by {
                    if self.files().contains_key(p) && is_network_file(p) {
                        let i = choose|i: int| 0 <= i < es.len() && #[trigger] es[i].0 == p;
                        es.lemma_filter_contains(pred, i);
                        assert(es.filter(pred).len() == 0);
                    }
                }
            }
            false
        } else {
            proof {
                let e = es.filter(pred)[0];
                es.lemma_filter_pred(pred, 0);
                assert(es.filter(pred).contains(e));
                es.lemma_filter_contains_rev(pred, e);
                assert(self.files().contains_key(e.0));
            }
            true
        }
    }
}


/// The files that are not network settings.
pub open spec fn without_network(files: Map<Seq<char>, Seq<u8>>) -> Map<Seq<char>, Seq<u8>> {
    files.remove_keys(Set::new(|p: Seq<char>| is_network_file(p)))
}

impl IsoConfig {
    /// Removes the embedded network settings.
    pub fn remove_network(&mut self)
        requires
            old(self).wf(),
        ensures
            final(self).wf(),
            final(self).karg_areas() == old(self).karg_areas(),
            final(self).files() == without_network(old(self).files()),
    {
        let g = network_matcher();
        proof {
            lemma_network_matcher(g);
        }
        let found = self.initrd.initrd().find(&g);
        let ghost es = self.initrd.initrd_view().entries();
        let ghost pred = |e: (Seq<char>, Seq<u8>)| g.matches_spec(e.0);
        let ghost f0 = self.files();
        proof {
            self.initrd.initrd_view().lemma_files_entries();
        }
        let ghost paths = found@.map_values(|m: (String, Vec<u8>)| m.0@);
        let initrd = self.initrd.initrd_mut();
        let mut i: usize = 0;
        assert(f0.remove_keys(Set::new(|p: Seq<char>| paths.take(0).contains(p))) =~= f0);
        while i < found.len()
            invariant
                initrd.wf(),
                i <= found@.len(),
                paths == found@.map_values(|m: (String, Vec<u8>)| m.0@),
                initrd.files() == f0.remove_keys(Set::new(|p: Seq<char>| paths.take(i as int).contains(p))),
            decreases found@.len() - i,
        {
            initrd.remove(found[i].0.as_str());
            proof {
                assert(paths.take(i + 1) =~= paths.take(i as int).push(paths[i as int]));
                let t1 = paths.take(i + 1);
                let t0 = paths.take(i as int);
                assert forall|p: Seq<char>| #[trigger] t1.contains(p) <==> (t0.contains(p) || p
                    == paths[i as int]) by {
                    if t1.contains(p) {
                        let k = choose|k: int| 0 <= k < t1.len() && #[trigger] t1[k] == p;
                        if k < i {
                            assert(t0[k] == p);
                        }
                    }
                    if t0.contains(p) {
                        let k = choose|k: int| 0 <= k < t0.len() && #[trigger] t0[k] == p;
                        assert(t1[k] == p);
                    }
                    if p == paths[i as int] {
                        assert(t1[i as int] == p);
                    }
                }
                assert(initrd.files() =~= f0.remove_keys(
                    Set::new(|p: Seq<char>| paths.take(i + 1).contains(p)),
                ));
            }
            i += 1;
        }
        proof {
            let fs = found@.map_values(|m: (String, Vec<u8>)| (m.0@, m.1@));
            assert(paths.take(found@.len() as int) =~= paths);
            assert forall|p: Seq<char>| f0.contains_key(p) implies (paths.contains(p)
                <==> is_network_file(p)) by {
                if is_network_file(p) {
                    let j = choose|j: int| 0 <= j < es.len() && #[trigger] es[j].0 == p;
                    es.lemma_filter_contains(pred, j);
                    let k = choose|k: int| 0 <= k < fs.len() && fs[k] == es[j];
                    assert(paths[k] == p);
                }
                if paths.contains(p) {
                    let k = choose|k: int| 0 <= k < paths.len() && paths[k] == p;
                    assert(fs[k].0 == p);
                    es.lemma_filter_pred(pred, k);
                }
            }
            assert(f0.remove_keys(Set::new(|p: Seq<char>| paths.contains(p))) =~= without_network(f0));
        }
    }

    pub fn initrd(&self) -> (r: &Initrd)
        ensures
            *r == self.initrd_area().initrd_view(),
    {
        self.initrd.initrd()
    }

    /// The embedded files, for changing.
    pub fn initrd_mut(&mut self) -> (r: &mut Initrd)
        ensures
            *r == old(self).initrd_area().initrd_view(),
            final(self).initrd_area().initrd_view() == *final(r),
            final(self).initrd_area().region_view().offset == old(self).initrd_area().region_view().offset,
            final(self).initrd_area().region_view().length == old(self).initrd_area().region_view().length,
            final(self).initrd_area().region_view().modified,
            final(self).karg_areas() == old(self).karg_areas(),
    {
        self.initrd.initrd_mut()
    }

    /// The image has karg embed areas.
    pub fn kargs_supported(&self) -> (r: bool)
        ensures
            r == self.karg_areas() is Some,
    {
        self.kargs.is_some()
    }

    /// The current kargs.
    pub fn kargs(&self) -> (r: Result<&str, EmbedError>)
        ensures
            match self.karg_areas() {
                Some(k) => r matches Ok(s) && s@ == k.args(),
                None => r == Err::<&str, EmbedError>(EmbedError::KargsUnsupported),
            },
    {
        match &self.kargs {
            Some(k) => Ok(k.kargs()),
            None => Err(EmbedError::KargsUnsupported),
        }
    }

    /// The default kargs.
    pub fn kargs_default(&self) -> (r: Result<&str, EmbedError>)
        ensures
            match self.karg_areas() {
                Some(k) => r matches Ok(s) && s@ == k.default(),
                None => r == Err::<&str, EmbedError>(EmbedError::KargsUnsupported),
            },
    {
        match &self.kargs {
            Some(k) => Ok(k.kargs_default()),
            None => Err(EmbedError::KargsUnsupported),
        }
    }

    /// Writes new kargs into every karg embed area.
    pub fn set_kargs(&mut self, kargs: &str) -> (r: Result<(), EmbedError>)
        ensures
            final(self).initrd_area() == old(self).initrd_area(),
            old(self).karg_areas() is None ==> r == Err::<(), EmbedError>(EmbedError::KargsUnsupported)
                && final(self).karg_areas() is None,
            old(self).karg_areas() matches Some(k) ==> ({
                let f = encode_utf8(trim(kargs@).push('\n'));
                &&& final(self).karg_areas() matches Some(k2)
                &&& same_places(k2, k)
                &&& k2.length() == k.length()
                &&& k2.default() == k.default()
                &&& f.len() > k.length() ==> r == Err::<(), EmbedError>(
                    EmbedError::KargsTooLarge { needed: f.len() as usize, length: k.length() as usize },
                ) && k2.args() == k.args() && k2.regions() == k.regions()
                &&& f.len() <= k.length() ==> r is Ok && k2.args() == trim(kargs@)
                    && k2.regions().len() == k.regions().len() && forall|i: int|
                    0 <= i < k.regions().len() ==> {
                        let a = #[trigger] k2.regions()[i];
                        let b = k.regions()[i];
                        &&& a.offset == b.offset
                        &&& a.length == b.length
                        &&& a.contents@ == karg_area_bytes(kargs@, k.length())
                        &&& a.modified
                    }
            }),
    {
        match &mut self.kargs {
            Some(k) => k.set_kargs(kargs),
            None => Err(EmbedError::KargsUnsupported),
        }
    }

    /// The initrd area's region with its new contents.
    pub fn initrd_region(&self) -> (r: Result<Region, EmbedError>)
        requires
            self.wf(),
        ensures
            area_region_ok(self.initrd_area(), r),
    {
        self.initrd.region()
    }

    /// Copies of the karg embed areas' regions (none where the image has
    /// no such areas).
    pub fn karg_regions(&self) -> (r: Vec<Region>)
        ensures
            self.karg_areas() is None ==> r@.len() == 0,
            self.karg_areas() matches Some(k) ==> r@.len() == k.regions().len() && forall|i: int|
                0 <= i < r@.len() ==> same_region(#[trigger] r@[i], k.regions()[i]),
    {
        let mut out: Vec<Region> = Vec::new();
        match &self.kargs {
            None => {},
            Some(k) => {
                let mut i: usize = 0;
                while i < k.regions.len()
                    invariant
                        i <= k.regions@.len(),
                        out@.len() == i,
                        forall|j: int| 0 <= j < i ==> same_region(#[trigger] out@[j], k.regions@[j]),
                    decreases k.regions@.len() - i,
                {
                    let g = &k.regions[i];
                    out.push(Region {
                        offset: g.offset,
                        length: g.length,
                        contents: crate::io::owned_bytes(g.contents.as_slice()),
                        modified: g.modified,
                    });
                    i += 1;
                }
            },
        }
        out
    }
}

} // verus!

verus! {

// ---------------------------------------------------------------------
// Writing the modified regions over a copy of the image
// ---------------------------------------------------------------------
/// `a` is written no later than `b`: by offset, the shorter first.
pub open spec fn region_le(a: Region, b: Region) -> bool {
    a.offset < b.offset || (a.offset == b.offset && a.length <= b.length)
}

/// The regions have the same place, contents and mark.
pub open spec fn same_region(a: Region, b: Region) -> bool {
    a.offset == b.offset && a.length == b.length && a.contents@ == b.contents@ && a.modified == b.modified
}

/// The later of two regions starts before the earlier one ends.
pub open spec fn regions_conflict(a: Region, b: Region) -> bool {
    if region_le(a, b) {
        b.offset < a.offset + a.length
    } else {
        a.offset < b.offset + b.length
    }
}

/// Every region's end fits in 64 bits.
pub open spec fn regions_fit(rs: Seq<Region>) -> bool {
    forall|i: int| 0 <= i < rs.len() ==> #[trigger] rs[i].offset + rs[i].length <= u64::MAX
}

fn region_le_exec(a: &Region, b: &Region) -> (r: bool)
    ensures
        r == region_le(*a, *b),
{
    a.offset < b.offset || (a.offset == b.offset && a.length <= b.length)
}

/// The order in which to write the modified regions: the index of each
/// modified region, once, by offset and then length. Refused where a
/// modified region's contents do not have its length, or where two
/// modified regions overlap.
pub fn stream_plan(regions: &[Region]) -> (r: Result<Vec<usize>, EmbedError>)
    requires
        regions_fit(regions@),
    ensures
        r is Ok <==> (forall|i: int|
            0 <= i < regions@.len() && #[trigger] regions@[i].modified ==> regions@[i].length
                == regions@[i].contents@.len()) && (forall|i: int, j: int|
            0 <= i < regions@.len() && 0 <= j < regions@.len() && i != j && #[trigger] regions@[i].modified
                && #[trigger] regions@[j].modified ==> !regions_conflict(regions@[i], regions@[j])),
        r matches Ok(order) ==> {
            &&& order@.no_duplicates()
            &&& forall|k: int| 0 <= k < order@.len() ==> #[trigger] order@[k] < regions@.len()
            &&& forall|i: int|
                0 <= i < regions@.len() ==> (#[trigger] regions@[i].modified <==> order@.contains(
                    i as usize,
                ))
            &&& forall|a: int, b: int|
                0 <= a < b < order@.len() ==> region_le(
                    regions@[#[trigger] order@[a] as int],
                    regions@[#[trigger] order@[b] as int],
                )
        },
{
    // the modified regions, sorted
    let mut order: Vec<usize> = Vec::new();
    let mut i: usize = 0;
    while i < regions.len()
        invariant
            i <= regions@.len(),
            order@.no_duplicates(),
            forall|k: int| 0 <= k < order@.len() ==> #[trigger] order@[k] < i,
            forall|k: int|
                0 <= k < i ==> (#[trigger] regions@[k].modified <==> order@.contains(k as usize)),
            forall|a: int, b: int|
                0 <= a < b < order@.len() ==> region_le(
                    regions@[#[trigger] order@[a] as int],
                    regions@[#[trigger] order@[b] as int],
                ),
        decreases regions@.len() - i,
    {
        if regions[i].modified {
            let mut j: usize = 0;
            while j < order.len() && region_le_exec(&regions[order[j]], &regions[i])
                invariant
                    j <= order@.len(),
                    i < regions@.len(),
                    forall|k: int| 0 <= k < order@.len() ==> #[trigger] order@[k] < i,
                    forall|k: int|
                        0 <= k < j ==> region_le(regions@[#[trigger] order@[k] as int], regions@[i as int]),
                decreases order@.len() - j,
            {
                j += 1;
            }
            let ghost old_order = order@;
            order.insert(j, i);
            proof {
                assert forall|a: int, b: int| 0 <= a < b < order@.len() implies region_le(
                    regions@[#[trigger] order@[a] as int],
                    regions@[#[trigger] order@[b] as int],
                ) by {
                    if a < j && b == j {
                        assert(order@[a] == old_order[a]);
                    } else if a == j && b > j {
                        assert(order@[b] == old_order[b - 1]);
                        assert(!region_le(regions@[old_order[j as int] as int], regions@[i as int]));
                        if b - 1 > j {
                            assert(region_le(
                                regions@[old_order[j as int] as int],
                                regions@[old_order[b - 1] as int],
                            ));
                        }
                    } else if a < j && b > j {
                        assert(order@[a] == old_order[a] && order@[b] == old_order[b - 1]);
                    } else if b < j {
                        assert(order@[a] == old_order[a] && order@[b] == old_order[b]);
                    } else {
                        assert(order@[a] == old_order[a - 1] && order@[b] == old_order[b - 1]);
                    }
                }
                assert forall|k: int| 0 <= k < order@.len() implies #[trigger] order@[k] < i + 1 by {
                    if k < j {
                        assert(order@[k] == old_order[k]);
                    } else if k > j {
                        assert(order@[k] == old_order[k - 1]);
                    }
                }
                assert forall|k: int| 0 <= k < i + 1 implies (#[trigger] regions@[k].modified
                    <==> order@.contains(k as usize)) by {
                    if k < i {
                        if old_order.contains(k as usize) {
                            let m = choose|m: int| 0 <= m < old_order.len() && old_order[m] == k as usize;
                            if m < j {
                                assert(order@[m] == k as usize);
                            } else {
                                assert(order@[m + 1] == k as usize);
                            }
                        }
                        if order@.contains(k as usize) {
                            let m = choose|m: int| 0 <= m < order@.len() && order@[m] == k as usize;
                            if m < j {
                                assert(old_order[m] == k as usize);
                            } else if m > j {
                                assert(old_order[m - 1] == k as usize);
                            }
                        }
                    } else {
                        assert(order@[j as int] == i);
                    }
                }
                assert forall|a: int, b: int| 0 <= a < b < order@.len() implies order@[a] != order@[b] by {
                    if a == j {
                        assert(order@[b] == old_order[b - 1]);
                    } else if b == j {
                        assert(order@[a] == old_order[a]);
                    } else {
                        let a0 = if a < j {
                            a
                        } else {
                            a - 1
                        };
                        let b0 = if b < j {
                            b
                        } else {
                            b - 1
                        };
                        assert(order@[a] == old_order[a0] && order@[b] == old_order[b0]);
                    }
                }
            }
        } else {
            proof {
                assert forall|k: int| 0 <= k < order@.len() implies #[trigger] order@[k] < i + 1 by {}
                assert(!order@.contains(i));
            }
        }
        i += 1;
    }
    // validate them in that order
    proof {
        assert forall|m: int| 0 <= m < order@.len() implies #[trigger] regions@[order@[m] as int].modified by {
            assert(order@.contains(order@[m]));
        }
    }
    let mut k: usize = 0;
    let mut cursor: u64 = 0;
    while k < order.len()
        invariant
            k <= order@.len(),
            regions_fit(regions@),
            order@.no_duplicates(),
            forall|m: int| 0 <= m < order@.len() ==> #[trigger] regions@[order@[m] as int].modified,
            forall|m: int| 0 <= m < order@.len() ==> #[trigger] order@[m] < regions@.len(),
            forall|m: int| 0 <= m < k ==> regions@[#[trigger] order@[m] as int].length
                == regions@[order@[m] as int].contents@.len(),
            forall|a: int, b: int|
                0 <= a < b < order@.len() ==> region_le(
                    regions@[#[trigger] order@[a] as int],
                    regions@[#[trigger] order@[b] as int],
                ),
            forall|a: int, b: int|
                0 <= a < b < k ==> !regions_conflict(
                    regions@[#[trigger] order@[a] as int],
                    regions@[#[trigger] order@[b] as int],
                ),
            k == 0 ==> cursor == 0,
            k > 0 ==> cursor == regions@[order@[k - 1] as int].offset + regions@[order@[k - 1] as int].length,
            forall|a: int| 0 <= a < k ==> regions@[#[trigger] order@[a] as int].offset + regions@[order@[a] as int].length <= cursor,
        decreases order@.len() - k,
    {
        let r = &regions[order[k]];
        assert(regions@[order@[k as int] as int].modified);
        match r.validate() {
            Ok(()) => {},
            Err(e) => return Err(e),
        }
        if r.offset < cursor {
            proof {
                let a = order@[k - 1] as int;
                let b = order@[k as int] as int;
                assert(regions@[a].modified && regions@[b].modified);
                assert(a != b);
                assert(region_le(regions@[a], regions@[b]));
                assert(regions_conflict(regions@[a], regions@[b]));
            }
            return Err(EmbedError::RegionOverlap { offset: r.offset, cursor });
        }
        proof {
            assert forall|a: int, b: int| 0 <= a < b < k + 1 implies !regions_conflict(
                regions@[#[trigger] order@[a] as int],
                regions@[#[trigger] order@[b] as int],
            ) by {
                if b == k {
                    assert(region_le(regions@[order@[a] as int], regions@[order@[b] as int]));
                }
            }
        }
        assert(r.offset + r.length <= u64::MAX);
        cursor = r.offset + r.length as u64;
        k += 1;
    }
    proof {
        assert forall|i: int, j: int|
            0 <= i < regions@.len() && 0 <= j < regions@.len() && i != j && #[trigger] regions@[i].modified
                && #[trigger] regions@[j].modified implies !regions_conflict(regions@[i], regions@[j]) by {
            assert(order@.contains(i as usize));
            assert(order@.contains(j as usize));
            let a = choose|a: int| 0 <= a < order@.len() && order@[a] == i as usize;
            let b = choose|b: int| 0 <= b < order@.len() && order@[b] == j as usize;
            if a < b {
            } else {
                assert(!regions_conflict(regions@[order@[b] as int], regions@[order@[a] as int]));
            }
        }
        assert forall|i: int| 0 <= i < regions@.len() && #[trigger] regions@[i].modified implies regions@[i].length
            == regions@[i].contents@.len() by {
            assert(order@.contains(i as usize));
            let a = choose|a: int| 0 <= a < order@.len() && order@[a] == i as usize;
        }
    }
    Ok(order)
}

} // verus!

verus! {

/// Once the network settings are removed, no network file is left, and
/// every other file stays.
pub proof fn lemma_network_removed(files: Map<Seq<char>, Seq<u8>>, p: Seq<char>)
    ensures
        without_network(files).contains_key(p) ==> !is_network_file(p),
        files.contains_key(p) && !is_network_file(p) ==> without_network(files).contains_key(p)
            && without_network(files)[p] == files[p],
{
}

} // verus!

verus! {

impl InitrdEmbedArea {
    /// The area whose region was read with its contents: the files of the
    /// archive it holds, or none where it holds only zeros. The contents
    /// are not kept.
    pub fn from_region(region: Region) -> (r: Result<Self, EmbedError>)
        ensures
            r matches Ok(a) ==> a.wf() && a.region_view().offset == region.offset
                && a.region_view().length == region.length && a.region_view().modified == region.modified,
            crate::unpack::all_zero(region.contents@) ==> (r matches Ok(a)
                && a.initrd_view().files() == Map::<Seq<char>, Seq<u8>>::empty()),
            !crate::unpack::all_zero(region.contents@) ==> match crate::unpack::archives(
                region.contents@,
            ) {
                Some(es) => r matches Ok(a) && a.initrd_view().files() == crate::unpack::files_of(
                    es,
                    |p: Seq<char>| glob_match("*"@, p),
                ),
                None => r == Err::<Self, EmbedError>(EmbedError::Archive),
            },
    {
        let mut nonzero = false;
        let mut i: usize = 0;
        while i < region.contents.len()
            invariant
                i <= region.contents@.len(),
                nonzero <==> exists|j: int| 0 <= j < i && region.contents@[j] != 0,
            decreases region.contents@.len() - i,
        {
            if region.contents[i] != 0 {
                nonzero = true;
            }
            i += 1;
        }
        let initrd = if nonzero {
            let pats: [&str; 1] = ["*"];
            proof {
                reveal_strlit("*");
                assert(known_pattern(pats@[0]@));
            }
            let all = GlobMatcher::new(&pats).unwrap();
            assert(pats@.map_values(|p: &str| p@) =~= seq!["*"@]);
            proof {
                assert forall|p: Seq<char>| #[trigger] all.matches_spec(p) == glob_match("*"@, p) by {
                    if glob_match("*"@, p) {
                        assert(glob_match(all.patterns()[0], p));
                    }
                }
                assert((|p: Seq<char>| all.matches_spec(p)) =~= (|p: Seq<char>| glob_match("*"@, p)));
            }
            match crate::unpack::parse_initrd(region.contents.as_slice(), &all) {
                Ok(i) => i,
                Err(_) => return Err(EmbedError::Archive),
            }
        } else {
            Initrd::new()
        };
        Ok(InitrdEmbedArea::new(region, initrd))
    }
}

} // verus!

verus! {

/// The karg areas lie where they lay, with the same length and default
/// kargs: only the current kargs may differ.
pub open spec fn same_places(a: KargEmbedAreas, b: KargEmbedAreas) -> bool {
    &&& a.length() == b.length()
    &&& a.default() == b.default()
    &&& a.regions().len() == b.regions().len()
    &&& forall|i: int|
        0 <= i < a.regions().len() ==> (#[trigger] a.regions()[i]).offset == b.regions()[i].offset
            && a.regions()[i].length == b.regions()[i].length
}

} // verus!

verus! {

/// What streaming the image through a plan gives, from the `k`th planned
/// region on, with the image copied up to `cursor`: the image's bytes up
/// to the region, then the region's contents, and after the last region
/// the rest of the image.
pub open spec fn splice_from(img: Seq<u8>, rs: Seq<Region>, order: Seq<usize>, k: int, cursor: int) -> Seq<u8>
    decreases order.len() - k,
{
    if k < 0 || k >= order.len() {
        img.subrange(cursor, img.len() as int)
    } else {
        let r = rs[order[k] as int];
        img.subrange(cursor, r.offset as int) + r.contents@ + splice_from(
            img,
            rs,
            order,
            k + 1,
            r.offset + r.length,
        )
    }
}

/// The streamed image.
pub open spec fn stream_output(img: Seq<u8>, rs: Seq<Region>, order: Seq<usize>) -> Seq<u8> {
    splice_from(img, rs, order, 0, 0)
}

/// A modified region holds byte `x`.
pub open spec fn holds(r: Region, x: int) -> bool {
    r.modified && r.offset <= x < r.offset + r.length
}

/// Byte `x` of the image with the modified regions written over it.
pub open spec fn overlay_byte(img: Seq<u8>, rs: Seq<Region>, x: int) -> u8 {
    if exists|i: int| 0 <= i < rs.len() && #[trigger] holds(rs[i], x) {
        let i = choose|i: int| 0 <= i < rs.len() && #[trigger] holds(rs[i], x);
        rs[i].contents@[x - rs[i].offset]
    } else {
        img[x]
    }
}

/// `order` is a plan that `stream_plan` gives for the regions, and each
/// modified region lies within an image of `len` bytes.
pub open spec fn plan_ok(len: int, rs: Seq<Region>, order: Seq<usize>) -> bool {
    &&& rs.len() <= usize::MAX
    &&& order.no_duplicates()
    &&& forall|k: int| 0 <= k < order.len() ==> #[trigger] order[k] < rs.len()
    &&& forall|i: int| 0 <= i < rs.len() ==> (#[trigger] rs[i].modified <==> order.contains(i as usize))
    &&& forall|a: int, b: int|
        0 <= a < b < order.len() ==> region_le(rs[#[trigger] order[a] as int], rs[#[trigger] order[b] as int])
    &&& forall|i: int|
        0 <= i < rs.len() && #[trigger] rs[i].modified ==> rs[i].length == rs[i].contents@.len()
            && rs[i].offset + rs[i].length <= len
    &&& forall|i: int, j: int|
        0 <= i < rs.len() && 0 <= j < rs.len() && i != j && #[trigger] rs[i].modified
            && #[trigger] rs[j].modified ==> !regions_conflict(rs[i], rs[j])
}

proof fn lemma_splice_from(img: Seq<u8>, rs: Seq<Region>, order: Seq<usize>, k: int, cursor: int)
    requires
        plan_ok(img.len() as int, rs, order),
        0 <= k <= order.len(),
        0 <= cursor <= img.len(),
        k < order.len() ==> cursor <= rs[order[k] as int].offset,
        forall|j: int| 0 <= j < k ==> rs[#[trigger] order[j] as int].offset + rs[order[j] as int].length <= cursor,
    ensures
        splice_from(img, rs, order, k, cursor).len() == img.len() - cursor,
        forall|x: int|
            cursor <= x < img.len() ==> #[trigger] splice_from(img, rs, order, k, cursor)[x - cursor]
                == overlay_byte(img, rs, x),
    decreases order.len() - k,
{
    let stop = if k < order.len() {
        rs[order[k] as int].offset as int
    } else {
        img.len() as int
    };
    // before the next region, no modified region holds a byte
    assert forall|x: int, i: int| cursor <= x < stop && 0 <= i < rs.len() implies !#[trigger] holds(rs[i], x) by {
        if holds(rs[i], x) {
            assert(rs[i].modified);
            assert(order.contains(i as usize));
            let j = choose|j: int| 0 <= j < order.len() && order[j] == i as usize;
            assert(order[j] as int == i);
            if j < k {
                assert(rs[order[j] as int].offset + rs[order[j] as int].length <= cursor);
                assert(false);
            } else if j > k {
                assert(region_le(rs[order[k] as int], rs[order[j] as int]));
                assert(false);
            } else {
                assert(false);
            }
        }
    }
    if k < order.len() {
        let ik = order[k] as int;
        let r = rs[ik];
        let end = r.offset + r.length;
        assert(r.modified) by {
            assert(order.contains(order[k]));
        }
        assert(end <= img.len());
        // the region is the only one that holds its bytes
        assert forall|x: int, i: int| r.offset <= x < end && 0 <= i < rs.len() && #[trigger] holds(rs[i], x)
            implies i == ik by {
            if i != ik {
                assert(!regions_conflict(rs[i], rs[ik]));
            }
        }
        if k + 1 < order.len() {
            let n = order[k + 1] as int;
            assert(region_le(rs[ik], rs[n]));
            assert(rs[n].modified) by {
                assert(order.contains(order[k + 1]));
            }
            assert(ik != n) by {
                assert(order.no_duplicates());
            }
            assert(!regions_conflict(rs[ik], rs[n]));
        }
        assert forall|j: int| 0 <= j < k + 1 implies rs[#[trigger] order[j] as int].offset
            + rs[order[j] as int].length <= end by {
            if j < k {
                assert(rs[order[j] as int].offset + rs[order[j] as int].length <= cursor);
            }
        }
        lemma_splice_from(img, rs, order, k + 1, end);
        let rest = splice_from(img, rs, order, k + 1, end);
        let whole = splice_from(img, rs, order, k, cursor);
        let pre = img.subrange(cursor, r.offset as int);
        assert(whole == pre + r.contents@ + rest);
        assert forall|x: int| cursor <= x < img.len() implies #[trigger] whole[x - cursor] == overlay_byte(
            img,
            rs,
            x,
        ) by {
            if x < r.offset {
                assert(whole[x - cursor] == img[x]);
            } else if x < end {
                assert(holds(rs[ik], x));
                assert(whole[x - cursor] == r.contents@[x - r.offset]);
            } else {
                assert(whole[x - cursor] == rest[x - end]);
            }
        }
    }
}

/// Streaming an image through a plan of `stream_plan` gives the image
/// with every modified region written over it, and nothing else changed.
pub proof fn lemma_stream_output(img: Seq<u8>, rs: Seq<Region>, order: Seq<usize>)
    requires
        plan_ok(img.len() as int, rs, order),
    ensures
        stream_output(img, rs, order).len() == img.len(),
        forall|x: int| 0 <= x < img.len() ==> #[trigger] stream_output(img, rs, order)[x] == overlay_byte(img, rs, x),
{
    if order.len() > 0 {
        assert(rs[order[0] as int].modified) by {
            assert(order.contains(order[0]));
        }
    }
    lemma_splice_from(img, rs, order, 0, 0);
    assert forall|x: int| 0 <= x < img.len() implies #[trigger] stream_output(img, rs, order)[x] == overlay_byte(img, rs, x) by {
        assert(splice_from(img, rs, order, 0, 0)[x - 0] == overlay_byte(img, rs, x));
    }
}

} // verus!

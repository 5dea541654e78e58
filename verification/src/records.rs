//! Fixed records of the archive format and their block-array views.
//!
//! Every record is laid out as little-endian 64-bit words, 2 words to a
//! 16-byte block. The conversion functions below state the exact word
//! sequence of each record, so that the on-disk byte layout is pinned down
//! by the contracts rather than by the compiler's memory layout.

use vstd::prelude::*;

verus! {

/// Block primitive: the smallest addressable unit of the archive,
/// 16 bytes viewed as two little-endian 64-bit words.
pub type Block = [u64; 2];

/// Key type: the 128-bit cipher key, in the same two-word shape.
pub type Key = [u64; 2];

/// Size in bytes of a block.
pub const BLOCK_SIZE: usize = 16;

/// Length of the name buffer of a descriptor, final length byte included.
pub const NAME_BUF_LEN: usize = 40;

/// Version magic: the bytes `P A K 1` read as a little-endian 32-bit word.
pub const VERSION: u32 = 0x314B4150;

/// Blocks occupied by a `Header`: 80 bytes.
pub const HEADER_BLOCKS: usize = 5;

/// Blocks occupied by an `InfoHeader`: 48 bytes.
pub const INFO_BLOCKS: usize = 3;

/// Blocks occupied by a `Descriptor`: 128 bytes.
pub const DESC_BLOCKS: usize = 8;

/// Error kinds surfaced by the archive operations.
///
/// `InvalidInput` is a caller-side constraint violation; `InvalidData` is an
/// integrity failure (bad MAC, bad version magic, truncated archive).
#[derive(Clone, Copy, Debug, PartialEq, Eq, Structural)]
pub enum ErrorKind {
    InvalidInput,
    InvalidData,
}

/// Section object: a located, encrypted range of blocks together with its
/// cryptographic nonce and MAC.
#[derive(Clone, Copy, Debug, PartialEq, Eq)]
pub struct Section {
    /// Offset in blocks to the start of the section.
    pub offset: u32,
    /// Length in blocks of the section.
    pub size: u32,
    /// Cryptographic nonce used for this section.
    pub nonce: Block,
    /// Cryptographic MAC authenticating this section.
    pub mac: Block,
}

/// The info header: version magic and the section locating the directory.
///
/// Special note: `directory.size` counts `Descriptor`s, not blocks.
#[derive(Clone, Copy, Debug, PartialEq, Eq)]
pub struct InfoHeader {
    /// Version value; equals [`VERSION`] in a well-formed archive.
    pub version: u32,
    /// Reserved, written as zero.
    pub unused: u32,
    /// The section object describing the location of the directory.
    pub directory: Section,
}

/// The file header: the first [`HEADER_BLOCKS`] blocks of the archive.
/// `nonce` and `mac` authenticate the encrypted `info` part.
#[derive(Clone, Copy, Debug, PartialEq, Eq)]
pub struct Header {
    /// Cryptographic nonce used for the info header.
    pub nonce: Block,
    /// Cryptographic MAC authenticating the info header.
    pub mac: Block,
    /// Version information and directory section.
    pub info: InfoHeader,
}

/// The descriptor name buffer. The length of the name is stored in the
/// last byte of the buffer.
#[derive(Clone, Copy, Debug, PartialEq, Eq)]
pub struct Name {
    pub buffer: [u8; NAME_BUF_LEN],
}

/// A file or directory descriptor: one entry of the flat directory.
///
/// `content_type == 0` marks a directory whose `content_size` counts the
/// descendants that follow it; any other value marks a file whose
/// `content_size` is its size in bytes.
#[derive(Clone, Copy, Debug, PartialEq, Eq)]
pub struct Descriptor {
    /// The content type: zero for directories, non-zero for files.
    pub content_type: u32,
    /// Descendant count for directories, byte size for files.
    pub content_size: u32,
    /// Where a file's encrypted contents live; zeroed for directories.
    pub section: Section,
    /// The name of the descriptor.
    pub name: Name,
    /// Extra meta section object, unused for now.
    pub meta: Section,
}

/// The all-zero block.
pub open spec fn spec_zero_block() -> Block {
    [0u64, 0u64]
}

/// The zero section: offset and size zero, zero nonce and MAC.
pub open spec fn spec_zero_section() -> Section {
    Section { offset: 0, size: 0, nonce: spec_zero_block(), mac: spec_zero_block() }
}

impl Default for Section {
    /// The zero section.
    fn default() -> (r: Section)
        ensures
            r == spec_zero_section(),
    {
        Section { offset: 0, size: 0, nonce: [0u64, 0u64], mac: [0u64, 0u64] }
    }
}

impl Default for Name {
    /// The empty name: an all-zero buffer.
    fn default() -> (r: Name)
        ensures
            r.buffer@ =~= Seq::<u8>::new(NAME_BUF_LEN as nat, |i: int| 0u8),
    {
        Name { buffer: [0u8; NAME_BUF_LEN] }
    }
}

impl Name {
    /// Length in bytes of the stored name: the final buffer byte,
    /// clamped to the 39 bytes that can actually hold name data.
    pub open spec fn spec_len(self) -> int {
        vstd::math::min(self.buffer[NAME_BUF_LEN - 1] as int, (NAME_BUF_LEN - 1) as int)
    }

    /// The stored name bytes.
    pub open spec fn spec_get(self) -> Seq<u8> {
        self.buffer@.subrange(0, self.spec_len())
    }

    /// Gets the name.
    pub fn get(&self) -> (r: &[u8])
        ensures
            r@ == self.spec_get(),
    {
        let last: u8 = self.buffer[NAME_BUF_LEN - 1];
        let len: usize = if (last as usize) < NAME_BUF_LEN - 1 {
            last as usize
        } else {
            NAME_BUF_LEN - 1
        };
        vstd::slice::slice_subrange(self.buffer.as_slice(), 0, len)
    }

    /// Sets the name. Names longer than 39 bytes are cut off.
    pub fn set(&mut self, name: &[u8])
        ensures
            final(self).spec_len() == vstd::math::min(name@.len() as int, (NAME_BUF_LEN - 1) as int),
            final(self).spec_get() =~= name@.subrange(0, final(self).spec_len()),
            forall|i: int|
                final(self).spec_len() <= i < NAME_BUF_LEN - 1 ==> final(self).buffer[i] == 0u8,
    {
        self.buffer = [0u8; NAME_BUF_LEN];
        let len: usize = if name.len() < NAME_BUF_LEN - 1 { name.len() } else { NAME_BUF_LEN - 1 };
        self.buffer[NAME_BUF_LEN - 1] = len as u8;
        let mut i: usize = 0;
        while i < len
            invariant
                i <= len,
                len == vstd::math::min(name@.len() as int, (NAME_BUF_LEN - 1) as int),
                self.buffer.len() == NAME_BUF_LEN,
                self.buffer[NAME_BUF_LEN - 1] == len as u8,
                forall|j: int| 0 <= j < i ==> self.buffer[j] == name@[j],
                forall|j: int| i <= j < NAME_BUF_LEN - 1 ==> self.buffer[j] == 0u8,
            decreases len - i,
        {
            self.buffer[i] = name[i];
            i += 1;
        }
    }
}

impl Descriptor {
    /// The name bytes of this descriptor.
    pub open spec fn spec_name(self) -> Seq<u8> {
        self.name.spec_get()
    }

    /// Is this a directory descriptor?
    pub open spec fn spec_is_dir(self) -> bool {
        self.content_type == 0
    }

    /// Creates a new descriptor with the given name, content type and size,
    /// zero section and meta.
    pub fn new(name: &[u8], content_type: u32, content_size: u32) -> (r: Descriptor)
        ensures
            r.content_type == content_type,
            r.content_size == content_size,
            r.section == spec_zero_section(),
            r.meta == spec_zero_section(),
            r.spec_name() =~= name@.subrange(
                0,
                vstd::math::min(name@.len() as int, (NAME_BUF_LEN - 1) as int),
            ),
            r.name.spec_len() == vstd::math::min(name@.len() as int, (NAME_BUF_LEN - 1) as int),
            forall|i: int| r.name.spec_len() <= i < NAME_BUF_LEN - 1 ==> r.name.buffer[i] == 0u8,
    {
        let mut n = Name::default();
        n.set(name);
        Descriptor {
            content_type,
            content_size,
            section: Section::default(),
            name: n,
            meta: Section::default(),
        }
    }

    /// Creates an empty file descriptor.
    pub fn file(name: &[u8]) -> (r: Descriptor)
        ensures
            r.content_type == 1,
            r.content_size == 0,
            r.section == spec_zero_section(),
            r.meta == spec_zero_section(),
            r.spec_name() =~= name@.subrange(
                0,
                vstd::math::min(name@.len() as int, (NAME_BUF_LEN - 1) as int),
            ),
            r.name.spec_len() == vstd::math::min(name@.len() as int, (NAME_BUF_LEN - 1) as int),
            forall|i: int| r.name.spec_len() <= i < NAME_BUF_LEN - 1 ==> r.name.buffer[i] == 0u8,
    {
        Descriptor::new(name, 1, 0)
    }

    /// Creates a directory descriptor with the given number of children.
    pub fn dir(name: &[u8], len: u32) -> (r: Descriptor)
        ensures
            r.content_type == 0,
            r.content_size == len,
            r.section == spec_zero_section(),
            r.meta == spec_zero_section(),
            r.spec_name() =~= name@.subrange(
                0,
                vstd::math::min(name@.len() as int, (NAME_BUF_LEN - 1) as int),
            ),
            r.name.spec_len() == vstd::math::min(name@.len() as int, (NAME_BUF_LEN - 1) as int),
            forall|i: int| r.name.spec_len() <= i < NAME_BUF_LEN - 1 ==> r.name.buffer[i] == 0u8,
    {
        Descriptor::new(name, 0, len)
    }

    /// Gets the descriptor's name.
    pub fn name(&self) -> (r: &[u8])
        ensures
            r@ == self.spec_name(),
    {
        self.name.get()
    }

    /// Is this a directory descriptor?
    pub fn is_dir(&self) -> (r: bool)
        ensures
            r == self.spec_is_dir(),
    {
        self.content_type == 0
    }

    /// Is this a file descriptor?
    pub fn is_file(&self) -> (r: bool)
        ensures
            r == !self.spec_is_dir(),
    {
        self.content_type != 0
    }
}

impl Default for Descriptor {
    /// The zero descriptor: an empty-named directory with no children.
    fn default() -> (r: Descriptor)
        ensures
            r.content_type == 0,
            r.content_size == 0,
            r.section == spec_zero_section(),
            r.meta == spec_zero_section(),
            r.spec_name() =~= Seq::<u8>::empty(),
            r.name.spec_len() == 0,
            forall|i: int| 0 <= i < NAME_BUF_LEN - 1 ==> r.name.buffer[i] == 0u8,
    {
        Descriptor {
            content_type: 0,
            content_size: 0,
            section: Section::default(),
            name: Name::default(),
            meta: Section::default(),
        }
    }
}

/// Number of blocks needed to hold the given number of bytes.
pub open spec fn spec_bytes2blocks(byte_size: u32) -> u32 {
    if byte_size == 0 {
        0u32
    } else {
        ((((byte_size - 1) as u32) / (BLOCK_SIZE as u32)) + 1) as u32
    }
}

/// Number of blocks needed to hold `byte_size` bytes.
pub fn bytes2blocks(byte_size: u32) -> (r: u32)
    ensures
        r == spec_bytes2blocks(byte_size),
        r as int * (BLOCK_SIZE as int) >= byte_size as int,
        byte_size > 0 ==> ((r - 1) as int * (BLOCK_SIZE as int) < byte_size as int),
{
    if byte_size == 0 {
        0
    } else {
        proof {
            vstd::arithmetic::div_mod::lemma_fundamental_div_mod((byte_size - 1) as int, 16);
            vstd::arithmetic::div_mod::lemma_mod_bound((byte_size - 1) as int, 16);
        }
        (byte_size - 1) / (BLOCK_SIZE as u32) + 1
    }
}

} // verus!

verus! {

// ---------------------------------------------------------------
// Word-level packing: every multi-byte field is little-endian.
// ---------------------------------------------------------------

/// The 64-bit word holding `lo` in its low half and `hi` in its high half.
pub open spec fn spec_word_of_u32s(lo: u32, hi: u32) -> u64 {
    (lo as u64) | ((hi as u64) << 32)
}

/// Low 32 bits of a word.
pub open spec fn spec_word_lo(w: u64) -> u32 {
    (w & 0xFFFF_FFFF) as u32
}

/// High 32 bits of a word.
pub open spec fn spec_word_hi(w: u64) -> u32 {
    (w >> 32) as u32
}

/// The eight bytes of a word, least significant first.
pub open spec fn spec_bytes_of_word(w: u64) -> Seq<u8> {
    seq![
        (w & 0xFF) as u8,
        ((w >> 8) & 0xFF) as u8,
        ((w >> 16) & 0xFF) as u8,
        ((w >> 24) & 0xFF) as u8,
        ((w >> 32) & 0xFF) as u8,
        ((w >> 40) & 0xFF) as u8,
        ((w >> 48) & 0xFF) as u8,
        ((w >> 56) & 0xFF) as u8,
    ]
}

/// The word assembled from eight bytes, least significant first.
pub open spec fn spec_word_of_bytes(b: Seq<u8>) -> u64
    recommends
        b.len() == 8,
{
    (b[0] as u64) | ((b[1] as u64) << 8) | ((b[2] as u64) << 16) | ((b[3] as u64) << 24)
        | ((b[4] as u64) << 32) | ((b[5] as u64) << 40) | ((b[6] as u64) << 48) | ((b[7]
        as u64) << 56)
}

/// Packing a word from two 32-bit halves and taking it apart are inverse.
pub proof fn lemma_word_u32s(w: u64, lo: u32, hi: u32)
    by (bit_vector)
    ensures
        w & 0xFFFF_FFFF <= 0xFFFF_FFFFu64,
        w >> 32 <= 0xFFFF_FFFFu64,
        spec_word_of_u32s(spec_word_lo(w), spec_word_hi(w)) == w,
        spec_word_lo(spec_word_of_u32s(lo, hi)) == lo,
        spec_word_hi(spec_word_of_u32s(lo, hi)) == hi,
{
}

/// Core bit-level fact behind byte packing: extracting the eight bytes of a
/// word and reassembling them is the identity, in both directions, and every
/// extracted byte fits in 8 bits.
proof fn lemma_word_bytes_bits(
    w: u64,
    b0: u8,
    b1: u8,
    b2: u8,
    b3: u8,
    b4: u8,
    b5: u8,
    b6: u8,
    b7: u8,
)
    by (bit_vector)
    requires
        w == (b0 as u64) | ((b1 as u64) << 8) | ((b2 as u64) << 16) | ((b3 as u64) << 24) | ((b4
            as u64) << 32) | ((b5 as u64) << 40) | ((b6 as u64) << 48) | ((b7 as u64) << 56),
    ensures
        w & 0xFF <= 0xFFu64,
        (w >> 8) & 0xFF <= 0xFFu64,
        (w >> 16) & 0xFF <= 0xFFu64,
        (w >> 24) & 0xFF <= 0xFFu64,
        (w >> 32) & 0xFF <= 0xFFu64,
        (w >> 40) & 0xFF <= 0xFFu64,
        (w >> 48) & 0xFF <= 0xFFu64,
        (w >> 56) & 0xFF <= 0xFFu64,
        ((w & 0xFF) as u8) == b0,
        (((w >> 8) & 0xFF) as u8) == b1,
        (((w >> 16) & 0xFF) as u8) == b2,
        (((w >> 24) & 0xFF) as u8) == b3,
        (((w >> 32) & 0xFF) as u8) == b4,
        (((w >> 40) & 0xFF) as u8) == b5,
        (((w >> 48) & 0xFF) as u8) == b6,
        (((w >> 56) & 0xFF) as u8) == b7,
{
}

/// The eight extracted bytes of any word fit in 8 bits, and reassembling
/// them gives the word back.
proof fn lemma_word_split_bits(w: u64)
    by (bit_vector)
    ensures
        w & 0xFF <= 0xFFu64,
        (w >> 8) & 0xFF <= 0xFFu64,
        (w >> 16) & 0xFF <= 0xFFu64,
        (w >> 24) & 0xFF <= 0xFFu64,
        (w >> 32) & 0xFF <= 0xFFu64,
        (w >> 40) & 0xFF <= 0xFFu64,
        (w >> 48) & 0xFF <= 0xFFu64,
        (w >> 56) & 0xFF <= 0xFFu64,
        (((w & 0xFF) as u8) as u64) | (((((w >> 8) & 0xFF) as u8) as u64) << 8) | (((((w >> 16)
            & 0xFF) as u8) as u64) << 16) | (((((w >> 24) & 0xFF) as u8) as u64) << 24) | (((((w
            >> 32) & 0xFF) as u8) as u64) << 32) | (((((w >> 40) & 0xFF) as u8) as u64) << 40)
            | (((((w >> 48) & 0xFF) as u8) as u64) << 48) | (((((w >> 56) & 0xFF) as u8) as u64)
            << 56) == w,
{
}

/// Every byte extracted from a word fits in 8 bits, and reassembling the
/// extracted bytes gives the word back.
pub proof fn lemma_word_bytes(w: u64)
    ensures
        w & 0xFF <= 0xFFu64,
        (w >> 8) & 0xFF <= 0xFFu64,
        (w >> 16) & 0xFF <= 0xFFu64,
        (w >> 24) & 0xFF <= 0xFFu64,
        (w >> 32) & 0xFF <= 0xFFu64,
        (w >> 40) & 0xFF <= 0xFFu64,
        (w >> 48) & 0xFF <= 0xFFu64,
        (w >> 56) & 0xFF <= 0xFFu64,
        spec_word_of_bytes(spec_bytes_of_word(w)) == w,
{
    lemma_word_split_bits(w);
}

/// Splitting the word assembled from eight bytes recovers those bytes.
pub proof fn lemma_bytes_word(b: Seq<u8>)
    requires
        b.len() == 8,
    ensures
        spec_bytes_of_word(spec_word_of_bytes(b)) =~= b,
{
    lemma_word_bytes_bits(
        spec_word_of_bytes(b),
        b[0],
        b[1],
        b[2],
        b[3],
        b[4],
        b[5],
        b[6],
        b[7],
    );
}

/// Builds the word holding `lo` and `hi`.
pub fn word_of_u32s(lo: u32, hi: u32) -> (r: u64)
    ensures
        r == spec_word_of_u32s(lo, hi),
{
    (lo as u64) | ((hi as u64) << 32)
}

/// Splits a word into its low and high 32-bit halves.
pub fn word_to_u32s(w: u64) -> (r: (u32, u32))
    ensures
        r.0 == spec_word_lo(w),
        r.1 == spec_word_hi(w),
        spec_word_of_u32s(r.0, r.1) == w,
{
    proof {
        lemma_word_u32s(w, 0, 0);
    }
    ((w & 0xFFFF_FFFF) as u32, (w >> 32) as u32)
}

// ---------------------------------------------------------------
// Word sequences of whole byte and block strings.
// ---------------------------------------------------------------

/// The words of a block sequence, in order: two words per block.
pub open spec fn words_of_blocks(bs: Seq<Block>) -> Seq<u64>
    decreases bs.len(),
{
    if bs.len() == 0 {
        Seq::<u64>::empty()
    } else {
        seq![bs[0][0], bs[0][1]] + words_of_blocks(bs.skip(1))
    }
}

/// The bytes of a word sequence, eight bytes per word.
pub open spec fn bytes_of_words(ws: Seq<u64>) -> Seq<u8>
    decreases ws.len(),
{
    if ws.len() == 0 {
        Seq::<u8>::empty()
    } else {
        spec_bytes_of_word(ws[0]) + bytes_of_words(ws.skip(1))
    }
}

/// The words of a byte sequence whose length is a multiple of eight.
pub open spec fn words_of_bytes(by: Seq<u8>) -> Seq<u64>
    decreases by.len(),
{
    if by.len() < 8 {
        Seq::<u64>::empty()
    } else {
        seq![spec_word_of_bytes(by.take(8))] + words_of_bytes(by.skip(8))
    }
}

pub proof fn lemma_words_of_blocks_len(bs: Seq<Block>)
    ensures
        words_of_blocks(bs).len() == 2 * bs.len(),
    decreases bs.len(),
{
    if bs.len() > 0 {
        lemma_words_of_blocks_len(bs.skip(1));
    }
}

pub proof fn lemma_words_of_blocks_index(bs: Seq<Block>, i: int)
    requires
        0 <= i < bs.len(),
    ensures
        words_of_blocks(bs).len() == 2 * bs.len(),
        words_of_blocks(bs)[2 * i] == bs[i][0],
        words_of_blocks(bs)[2 * i + 1] == bs[i][1],
    decreases bs.len(),
{
    lemma_words_of_blocks_len(bs);
    if i > 0 {
        lemma_words_of_blocks_index(bs.skip(1), i - 1);
    }
}

pub proof fn lemma_words_of_blocks_push(bs: Seq<Block>, b: Block)
    ensures
        words_of_blocks(bs.push(b)) =~= words_of_blocks(bs) + seq![b[0], b[1]],
    decreases bs.len(),
{
    let p = bs.push(b);
    if bs.len() == 0 {
        assert(p[0] == b);
        assert(p.skip(1) =~= Seq::<Block>::empty());
        assert(words_of_blocks(Seq::<Block>::empty()) =~= Seq::<u64>::empty());
        assert(words_of_blocks(p) =~= seq![b[0], b[1]]);
        assert(words_of_blocks(bs) =~= Seq::<u64>::empty());
    } else {
        lemma_words_of_blocks_push(bs.skip(1), b);
        assert(p[0] == bs[0]);
        assert(p.skip(1) =~= bs.skip(1).push(b));
        assert(words_of_blocks(p) =~= seq![bs[0][0], bs[0][1]] + words_of_blocks(
            bs.skip(1).push(b),
        ));
    }
}

pub proof fn lemma_bytes_of_words_len(ws: Seq<u64>)
    ensures
        bytes_of_words(ws).len() == 8 * ws.len(),
    decreases ws.len(),
{
    if ws.len() > 0 {
        lemma_bytes_of_words_len(ws.skip(1));
    }
}

pub proof fn lemma_bytes_of_words_push(ws: Seq<u64>, w: u64)
    ensures
        bytes_of_words(ws.push(w)) =~= bytes_of_words(ws) + spec_bytes_of_word(w),
    decreases ws.len(),
{
    let p = ws.push(w);
    if ws.len() == 0 {
        assert(p[0] == w);
        assert(p.skip(1) =~= Seq::<u64>::empty());
        assert(bytes_of_words(Seq::<u64>::empty()) =~= Seq::<u8>::empty());
        assert(bytes_of_words(p) =~= spec_bytes_of_word(w));
        assert(bytes_of_words(ws) =~= Seq::<u8>::empty());
    } else {
        lemma_bytes_of_words_push(ws.skip(1), w);
        assert(p[0] == ws[0]);
        assert(p.skip(1) =~= ws.skip(1).push(w));
        assert(bytes_of_words(p) =~= spec_bytes_of_word(ws[0]) + bytes_of_words(
            ws.skip(1).push(w),
        ));
    }
}

/// Reading the words back out of a byte string that was written word by
/// word recovers the original words.
pub proof fn lemma_words_bytes_words(ws: Seq<u64>)
    ensures
        words_of_bytes(bytes_of_words(ws)) =~= ws,
    decreases ws.len(),
{
    if ws.len() > 0 {
        let by = bytes_of_words(ws);
        lemma_bytes_of_words_len(ws.skip(1));
        assert(by.take(8) =~= spec_bytes_of_word(ws[0]));
        assert(by.skip(8) =~= bytes_of_words(ws.skip(1)));
        lemma_word_bytes(ws[0]);
        lemma_words_bytes_words(ws.skip(1));
    }
}

/// Writing out the words read from a byte string of full words recovers
/// the original bytes.
pub proof fn lemma_bytes_words_bytes(by: Seq<u8>)
    requires
        by.len() % 8 == 0,
    ensures
        bytes_of_words(words_of_bytes(by)) =~= by,
    decreases by.len(),
{
    if by.len() >= 8 {
        let ws = words_of_bytes(by);
        assert(ws[0] == spec_word_of_bytes(by.take(8)));
        let h = by.take(8);
        lemma_bytes_word(h);
        assert(spec_bytes_of_word(spec_word_of_bytes(h)) =~= h);
        assert(ws.skip(1) =~= words_of_bytes(by.skip(8)));
        lemma_bytes_words_bytes(by.skip(8));
        assert(bytes_of_words(ws) =~= h + by.skip(8));
        assert(h + by.skip(8) =~= by);
    }
}

} // verus!

verus! {

// ---------------------------------------------------------------
// Word sequences of the fixed records.
// ---------------------------------------------------------------

/// The five words of a section: packed offset and size, nonce, MAC.
pub open spec fn section_words(s: Section) -> Seq<u64> {
    seq![
        spec_word_of_u32s(s.offset, s.size),
        s.nonce[0],
        s.nonce[1],
        s.mac[0],
        s.mac[1],
    ]
}

/// The six words of an info header: packed version and reserved field,
/// then the directory section.
pub open spec fn info_words(h: InfoHeader) -> Seq<u64> {
    seq![spec_word_of_u32s(h.version, h.unused)] + section_words(h.directory)
}

/// The ten words of a header: nonce, MAC, then the info header.
pub open spec fn header_words(h: Header) -> Seq<u64> {
    seq![h.nonce[0], h.nonce[1], h.mac[0], h.mac[1]] + info_words(h.info)
}

/// The five words of a name buffer, eight bytes to a word.
pub open spec fn name_words(n: Name) -> Seq<u64> {
    seq![
        spec_word_of_bytes(n.buffer@.subrange(0, 8)),
        spec_word_of_bytes(n.buffer@.subrange(8, 16)),
        spec_word_of_bytes(n.buffer@.subrange(16, 24)),
        spec_word_of_bytes(n.buffer@.subrange(24, 32)),
        spec_word_of_bytes(n.buffer@.subrange(32, 40)),
    ]
}

/// The sixteen words of a descriptor: packed type and size, section,
/// name, meta section.
pub open spec fn desc_words(d: Descriptor) -> Seq<u64> {
    seq![spec_word_of_u32s(d.content_type, d.content_size)] + section_words(d.section)
        + name_words(d.name) + section_words(d.meta)
}

/// The words of a whole directory: the words of each descriptor in order.
pub open spec fn dir_words(dir: Seq<Descriptor>) -> Seq<u64>
    decreases dir.len(),
{
    if dir.len() == 0 {
        Seq::<u64>::empty()
    } else {
        desc_words(dir[0]) + dir_words(dir.skip(1))
    }
}

pub proof fn lemma_dir_words_len(dir: Seq<Descriptor>)
    ensures
        dir_words(dir).len() == 16 * dir.len(),
    decreases dir.len(),
{
    if dir.len() > 0 {
        lemma_dir_words_len(dir.skip(1));
    }
}

pub proof fn lemma_dir_words_push(dir: Seq<Descriptor>, d: Descriptor)
    ensures
        dir_words(dir.push(d)) =~= dir_words(dir) + desc_words(d),
    decreases dir.len(),
{
    let p = dir.push(d);
    if dir.len() == 0 {
        assert(p[0] == d);
        assert(p.skip(1) =~= Seq::<Descriptor>::empty());
        assert(dir_words(Seq::<Descriptor>::empty()) =~= Seq::<u64>::empty());
        assert(dir_words(p) =~= desc_words(d));
    } else {
        lemma_dir_words_push(dir.skip(1), d);
        assert(p[0] == dir[0]);
        assert(p.skip(1) =~= dir.skip(1).push(d));
        assert(dir_words(p) =~= desc_words(dir[0]) + dir_words(dir.skip(1).push(d)));
    }
}

/// Two sections with the same words are the same section.
pub proof fn lemma_section_words_injective(a: Section, b: Section)
    requires
        section_words(a) =~= section_words(b),
    ensures
        a == b,
{
    lemma_word_u32s(0, a.offset, a.size);
    lemma_word_u32s(0, b.offset, b.size);
    assert(a.nonce =~= b.nonce);
    assert(a.mac =~= b.mac);
}

/// Two names with the same words are the same name.
pub proof fn lemma_name_words_injective(a: Name, b: Name)
    requires
        name_words(a) =~= name_words(b),
    ensures
        a == b,
{
    lemma_bytes_word(a.buffer@.subrange(0, 8));
    lemma_bytes_word(a.buffer@.subrange(8, 16));
    lemma_bytes_word(a.buffer@.subrange(16, 24));
    lemma_bytes_word(a.buffer@.subrange(24, 32));
    lemma_bytes_word(a.buffer@.subrange(32, 40));
    lemma_bytes_word(b.buffer@.subrange(0, 8));
    lemma_bytes_word(b.buffer@.subrange(8, 16));
    lemma_bytes_word(b.buffer@.subrange(16, 24));
    lemma_bytes_word(b.buffer@.subrange(24, 32));
    lemma_bytes_word(b.buffer@.subrange(32, 40));
    assert forall|i: int| 0 <= i < 40 implies a.buffer@[i] == b.buffer@[i] by {
        let k = i / 8;
        let j = i % 8;
        assert(0 <= k < 5 && 0 <= j < 8 && i == 8 * k + j);
        assert(a.buffer@.subrange(8 * k, 8 * k + 8)[j] == a.buffer@[i]);
        assert(b.buffer@.subrange(8 * k, 8 * k + 8)[j] == b.buffer@[i]);
        assert(spec_bytes_of_word(name_words(a)[k]) =~= a.buffer@.subrange(8 * k, 8 * k + 8));
        assert(spec_bytes_of_word(name_words(b)[k]) =~= b.buffer@.subrange(8 * k, 8 * k + 8));
    }
    assert(a.buffer@ =~= b.buffer@);
    assert(a.buffer == b.buffer);
}

/// Two descriptors with the same words are the same descriptor.
pub proof fn lemma_desc_words_injective(a: Descriptor, b: Descriptor)
    requires
        desc_words(a) =~= desc_words(b),
    ensures
        a == b,
{
    lemma_word_u32s(0, a.content_type, a.content_size);
    lemma_word_u32s(0, b.content_type, b.content_size);
    assert(desc_words(a)[0] == spec_word_of_u32s(a.content_type, a.content_size));
    assert(desc_words(b)[0] == spec_word_of_u32s(b.content_type, b.content_size));
    assert forall|i: int| 0 <= i < 5 implies section_words(a.section)[i] == section_words(
        b.section,
    )[i] by {
        assert(desc_words(a)[1 + i] == section_words(a.section)[i]);
        assert(desc_words(b)[1 + i] == section_words(b.section)[i]);
    }
    assert forall|i: int| 0 <= i < 5 implies name_words(a.name)[i] == name_words(b.name)[i] by {
        assert(desc_words(a)[6 + i] == name_words(a.name)[i]);
        assert(desc_words(b)[6 + i] == name_words(b.name)[i]);
    }
    assert forall|i: int| 0 <= i < 5 implies section_words(a.meta)[i] == section_words(
        b.meta,
    )[i] by {
        assert(desc_words(a)[11 + i] == section_words(a.meta)[i]);
        assert(desc_words(b)[11 + i] == section_words(b.meta)[i]);
    }
    lemma_section_words_injective(a.section, b.section);
    lemma_name_words_injective(a.name, b.name);
    lemma_section_words_injective(a.meta, b.meta);
}

/// Two directories with the same words are the same directory.
pub proof fn lemma_dir_words_injective(a: Seq<Descriptor>, b: Seq<Descriptor>)
    requires
        a.len() == b.len(),
        dir_words(a) =~= dir_words(b),
    ensures
        a =~= b,
    decreases a.len(),
{
    if a.len() > 0 {
        lemma_dir_words_len(a);
        lemma_dir_words_len(b);
        lemma_dir_words_len(a.skip(1));
        lemma_dir_words_len(b.skip(1));
        assert forall|i: int| 0 <= i < 16 implies desc_words(a[0])[i] == desc_words(b[0])[i] by {
            assert(dir_words(a)[i] == desc_words(a[0])[i]);
            assert(dir_words(b)[i] == desc_words(b[0])[i]);
        }
        assert(desc_words(a[0]) =~= desc_words(b[0]));
        lemma_desc_words_injective(a[0], b[0]);
        assert forall|i: int| 0 <= i < dir_words(a.skip(1)).len() implies dir_words(a.skip(1))[i]
            == dir_words(b.skip(1))[i] by {
            assert(dir_words(a)[16 + i] == dir_words(a.skip(1))[i]);
            assert(dir_words(b)[16 + i] == dir_words(b.skip(1))[i]);
        }
        assert(dir_words(a.skip(1)) =~= dir_words(b.skip(1)));
        lemma_dir_words_injective(a.skip(1), b.skip(1));
        assert forall|i: int| 0 <= i < a.len() implies a[i] == b[i] by {
            if i > 0 {
                assert(a.skip(1)[i - 1] == a[i]);
                assert(b.skip(1)[i - 1] == b[i]);
            }
        }
    }
}

/// Two info headers with the same words are the same info header.
pub proof fn lemma_info_words_injective(a: InfoHeader, b: InfoHeader)
    requires
        info_words(a) =~= info_words(b),
    ensures
        a == b,
{
    lemma_word_u32s(0, a.version, a.unused);
    lemma_word_u32s(0, b.version, b.unused);
    assert(info_words(a)[0] == spec_word_of_u32s(a.version, a.unused));
    assert(info_words(b)[0] == spec_word_of_u32s(b.version, b.unused));
    assert forall|i: int| 0 <= i < 5 implies section_words(a.directory)[i] == section_words(
        b.directory,
    )[i] by {
        assert(info_words(a)[1 + i] == section_words(a.directory)[i]);
        assert(info_words(b)[1 + i] == section_words(b.directory)[i]);
    }
    assert(section_words(a.directory) =~= section_words(b.directory));
    lemma_section_words_injective(a.directory, b.directory);
}


} // verus!

verus! {

// ---------------------------------------------------------------
// Executable conversions between records, words, blocks and bytes.
// ---------------------------------------------------------------

/// Splits a word into its eight bytes, least significant first.
pub fn word_to_bytes(w: u64) -> (r: [u8; 8])
    ensures
        r@ =~= spec_bytes_of_word(w),
{
    proof {
        lemma_word_bytes(w);
    }
    [
        (w & 0xFF) as u8,
        ((w >> 8) & 0xFF) as u8,
        ((w >> 16) & 0xFF) as u8,
        ((w >> 24) & 0xFF) as u8,
        ((w >> 32) & 0xFF) as u8,
        ((w >> 40) & 0xFF) as u8,
        ((w >> 48) & 0xFF) as u8,
        ((w >> 56) & 0xFF) as u8,
    ]
}

/// Assembles a word from eight bytes, least significant first.
pub fn word_of_bytes8(b: &[u8]) -> (r: u64)
    requires
        b@.len() == 8,
    ensures
        r == spec_word_of_bytes(b@),
{
    (b[0] as u64) | ((b[1] as u64) << 8) | ((b[2] as u64) << 16) | ((b[3] as u64) << 24) | ((b[4]
        as u64) << 32) | ((b[5] as u64) << 40) | ((b[6] as u64) << 48) | ((b[7] as u64) << 56)
}

/// Appends the five words of a section.
fn push_section_words(ws: &mut Vec<u64>, s: &Section)
    ensures
        final(ws)@ =~= old(ws)@ + section_words(*s),
{
    ws.push(word_of_u32s(s.offset, s.size));
    ws.push(s.nonce[0]);
    ws.push(s.nonce[1]);
    ws.push(s.mac[0]);
    ws.push(s.mac[1]);
}

/// Appends the five words of a name buffer.
fn push_name_words(ws: &mut Vec<u64>, n: &Name)
    ensures
        final(ws)@ =~= old(ws)@ + name_words(*n),
{
    let b = n.buffer.as_slice();
    let w0 = word_of_bytes8(vstd::slice::slice_subrange(b, 0, 8));
    let w1 = word_of_bytes8(vstd::slice::slice_subrange(b, 8, 16));
    let w2 = word_of_bytes8(vstd::slice::slice_subrange(b, 16, 24));
    let w3 = word_of_bytes8(vstd::slice::slice_subrange(b, 24, 32));
    let w4 = word_of_bytes8(vstd::slice::slice_subrange(b, 32, 40));
    ws.push(w0);
    ws.push(w1);
    ws.push(w2);
    ws.push(w3);
    ws.push(w4);
}

/// Appends the six words of an info header.
fn push_info_words(ws: &mut Vec<u64>, h: &InfoHeader)
    ensures
        final(ws)@ =~= old(ws)@ + info_words(*h),
{
    ws.push(word_of_u32s(h.version, h.unused));
    push_section_words(ws, &h.directory);
}

/// Appends the ten words of a header.
fn push_header_words(ws: &mut Vec<u64>, h: &Header)
    ensures
        final(ws)@ =~= old(ws)@ + header_words(*h),
{
    ws.push(h.nonce[0]);
    ws.push(h.nonce[1]);
    ws.push(h.mac[0]);
    ws.push(h.mac[1]);
    push_info_words(ws, &h.info);
}

/// Appends the sixteen words of a descriptor.
fn push_desc_words(ws: &mut Vec<u64>, d: &Descriptor)
    ensures
        final(ws)@ =~= old(ws)@ + desc_words(*d),
{
    ws.push(word_of_u32s(d.content_type, d.content_size));
    push_section_words(ws, &d.section);
    push_name_words(ws, &d.name);
    push_section_words(ws, &d.meta);
}

/// Pairs an even-length word sequence into blocks.
pub fn words_to_blocks(ws: &[u64]) -> (r: Vec<Block>)
    requires
        ws@.len() % 2 == 0,
    ensures
        r@.len() * 2 == ws@.len(),
        words_of_blocks(r@) =~= ws@,
{
    let mut r: Vec<Block> = Vec::new();
    let mut i: usize = 0;
    proof {
        assert(words_of_blocks(r@) =~= ws@.subrange(0, 0));
    }
    while i + 1 < ws.len()
        invariant
            i % 2 == 0,
            i <= ws@.len(),
            ws@.len() % 2 == 0,
            r@.len() * 2 == i,
            words_of_blocks(r@) =~= ws@.subrange(0, i as int),
        decreases ws@.len() - i,
    {
        let b: Block = [ws[i], ws[i + 1]];
        proof {
            lemma_words_of_blocks_push(r@, b);
            assert(ws@.subrange(0, i as int) + seq![ws@[i as int], ws@[i as int + 1]]
                =~= ws@.subrange(0, i as int + 2));
        }
        r.push(b);
        i += 2;
    }
    proof {
        assert(i == ws@.len());
        assert(ws@.subrange(0, ws@.len() as int) =~= ws@);
    }
    r
}

/// Flattens blocks into their word sequence.
pub fn blocks_to_words(bs: &[Block]) -> (r: Vec<u64>)
    ensures
        r@ =~= words_of_blocks(bs@),
        r@.len() == 2 * bs@.len(),
{
    let mut r: Vec<u64> = Vec::new();
    let mut i: usize = 0;
    proof {
        assert(words_of_blocks(bs@.subrange(0, 0)) =~= Seq::<u64>::empty());
    }
    while i < bs.len()
        invariant
            i <= bs@.len(),
            r@ =~= words_of_blocks(bs@.subrange(0, i as int)),
            r@.len() == 2 * i,
        decreases bs@.len() - i,
    {
        let b = bs[i];
        proof {
            lemma_words_of_blocks_push(bs@.subrange(0, i as int), bs@[i as int]);
            assert(bs@.subrange(0, i as int).push(bs@[i as int]) =~= bs@.subrange(
                0,
                i as int + 1,
            ));
            lemma_words_of_blocks_len(bs@.subrange(0, i as int + 1));
        }
        r.push(b[0]);
        r.push(b[1]);
        i += 1;
    }
    proof {
        assert(bs@.subrange(0, bs@.len() as int) =~= bs@);
    }
    r
}

/// Reads a section out of five consecutive words.
fn parse_section_at(ws: &[u64], at: usize) -> (r: Section)
    requires
        at + 5 <= ws@.len(),
    ensures
        section_words(r) =~= ws@.subrange(at as int, at as int + 5),
{
    let (offset, size) = word_to_u32s(ws[at]);
    Section {
        offset,
        size,
        nonce: [ws[at + 1], ws[at + 2]],
        mac: [ws[at + 3], ws[at + 4]],
    }
}

/// Reads a name buffer out of five consecutive words.
fn parse_name_at(ws: &[u64], at: usize) -> (r: Name)
    requires
        at + 5 <= ws@.len(),
    ensures
        name_words(r) =~= ws@.subrange(at as int, at as int + 5),
{
    let b0 = word_to_bytes(ws[at]);
    let b1 = word_to_bytes(ws[at + 1]);
    let b2 = word_to_bytes(ws[at + 2]);
    let b3 = word_to_bytes(ws[at + 3]);
    let b4 = word_to_bytes(ws[at + 4]);
    let buffer: [u8; NAME_BUF_LEN] = [
        b0[0], b0[1], b0[2], b0[3], b0[4], b0[5], b0[6], b0[7],
        b1[0], b1[1], b1[2], b1[3], b1[4], b1[5], b1[6], b1[7],
        b2[0], b2[1], b2[2], b2[3], b2[4], b2[5], b2[6], b2[7],
        b3[0], b3[1], b3[2], b3[3], b3[4], b3[5], b3[6], b3[7],
        b4[0], b4[1], b4[2], b4[3], b4[4], b4[5], b4[6], b4[7],
    ];
    let r = Name { buffer };
    proof {
        assert(r.buffer@.subrange(0, 8) =~= spec_bytes_of_word(ws@[at as int]));
        assert(r.buffer@.subrange(8, 16) =~= spec_bytes_of_word(ws@[at as int + 1]));
        assert(r.buffer@.subrange(16, 24) =~= spec_bytes_of_word(ws@[at as int + 2]));
        assert(r.buffer@.subrange(24, 32) =~= spec_bytes_of_word(ws@[at as int + 3]));
        assert(r.buffer@.subrange(32, 40) =~= spec_bytes_of_word(ws@[at as int + 4]));
        lemma_word_bytes(ws@[at as int]);
        lemma_word_bytes(ws@[at as int + 1]);
        lemma_word_bytes(ws@[at as int + 2]);
        lemma_word_bytes(ws@[at as int + 3]);
        lemma_word_bytes(ws@[at as int + 4]);
    }
    r
}

/// Reads an info header out of six consecutive words.
fn parse_info_at(ws: &[u64], at: usize) -> (r: InfoHeader)
    requires
        at + 6 <= ws@.len(),
    ensures
        info_words(r) =~= ws@.subrange(at as int, at as int + 6),
{
    let (version, unused) = word_to_u32s(ws[at]);
    let directory = parse_section_at(ws, at + 1);
    InfoHeader { version, unused, directory }
}

/// Reads a header out of ten consecutive words.
fn parse_header_at(ws: &[u64], at: usize) -> (r: Header)
    requires
        at + 10 <= ws@.len(),
    ensures
        header_words(r) =~= ws@.subrange(at as int, at as int + 10),
{
    let nonce: Block = [ws[at], ws[at + 1]];
    let mac: Block = [ws[at + 2], ws[at + 3]];
    let info = parse_info_at(ws, at + 4);
    Header { nonce, mac, info }
}

/// Reads a descriptor out of sixteen consecutive words.
fn parse_desc_at(ws: &[u64], at: usize) -> (r: Descriptor)
    requires
        at + 16 <= ws@.len(),
    ensures
        desc_words(r) =~= ws@.subrange(at as int, at as int + 16),
{
    let (content_type, content_size) = word_to_u32s(ws[at]);
    let section = parse_section_at(ws, at + 1);
    let name = parse_name_at(ws, at + 6);
    let meta = parse_section_at(ws, at + 11);
    Descriptor { content_type, content_size, section, name, meta }
}

/// Serializes an info header into its three blocks.
pub fn info_to_blocks(h: &InfoHeader) -> (r: Vec<Block>)
    ensures
        r@.len() == INFO_BLOCKS,
        words_of_blocks(r@) =~= info_words(*h),
{
    let mut ws: Vec<u64> = Vec::new();
    push_info_words(&mut ws, h);
    let r = words_to_blocks(ws.as_slice());
    proof {
        lemma_words_of_blocks_len(r@);
    }
    r
}

/// Parses an info header from its three blocks.
pub fn info_from_blocks(bs: &[Block]) -> (r: InfoHeader)
    requires
        bs@.len() == INFO_BLOCKS,
    ensures
        info_words(r) =~= words_of_blocks(bs@),
        r == spec_parse_info(words_of_blocks(bs@)),
{
    let ws = blocks_to_words(bs);
    let r = parse_info_at(ws.as_slice(), 0);
    proof {
        assert(ws@.subrange(0, 6) =~= ws@);
        lemma_parse_info_inverse(r);
        assert(info_words(r) =~= words_of_blocks(bs@));
        assert(info_words(r) == words_of_blocks(bs@));
    }
    r
}

/// Serializes a header into its five blocks.
pub fn header_to_blocks(h: &Header) -> (r: Vec<Block>)
    ensures
        r@.len() == HEADER_BLOCKS,
        words_of_blocks(r@) =~= header_words(*h),
{
    let mut ws: Vec<u64> = Vec::new();
    push_header_words(&mut ws, h);
    let r = words_to_blocks(ws.as_slice());
    proof {
        lemma_words_of_blocks_len(r@);
    }
    r
}

/// Parses a header from its five blocks.
pub fn header_from_blocks(bs: &[Block]) -> (r: Header)
    requires
        bs@.len() == HEADER_BLOCKS,
    ensures
        header_words(r) =~= words_of_blocks(bs@),
        r == spec_parse_header(words_of_blocks(bs@)),
{
    let ws = blocks_to_words(bs);
    let r = parse_header_at(ws.as_slice(), 0);
    proof {
        assert(ws@.subrange(0, 10) =~= ws@);
        lemma_parse_header_inverse(r);
        assert(header_words(r) =~= words_of_blocks(bs@));
        assert(header_words(r) == words_of_blocks(bs@));
    }
    r
}

/// Serializes a directory into its block sequence, eight blocks per
/// descriptor.
pub fn descs_to_blocks(dir: &[Descriptor]) -> (r: Vec<Block>)
    ensures
        r@.len() == dir@.len() * DESC_BLOCKS,
        words_of_blocks(r@) =~= dir_words(dir@),
{
    let mut ws: Vec<u64> = Vec::new();
    let mut i: usize = 0;
    proof {
        assert(dir_words(dir@.subrange(0, 0)) =~= Seq::<u64>::empty());
    }
    while i < dir.len()
        invariant
            i <= dir@.len(),
            ws@ =~= dir_words(dir@.subrange(0, i as int)),
            ws@.len() == 16 * i,
        decreases dir@.len() - i,
    {
        proof {
            lemma_dir_words_push(dir@.subrange(0, i as int), dir@[i as int]);
            assert(dir@.subrange(0, i as int).push(dir@[i as int]) =~= dir@.subrange(
                0,
                i as int + 1,
            ));
            lemma_dir_words_len(dir@.subrange(0, i as int + 1));
        }
        let d = dir[i];
        push_desc_words(&mut ws, &d);
        i += 1;
    }
    proof {
        assert(dir@.subrange(0, dir@.len() as int) =~= dir@);
    }
    let r = words_to_blocks(ws.as_slice());
    proof {
        lemma_words_of_blocks_len(r@);
    }
    r
}

/// Parses a directory of `count` descriptors from its block sequence.
pub fn descs_from_blocks(bs: &[Block], count: usize) -> (r: Vec<Descriptor>)
    requires
        bs@.len() == count * DESC_BLOCKS,
    ensures
        r@.len() == count,
        dir_words(r@) =~= words_of_blocks(bs@),
{
    let ws = blocks_to_words(bs);
    let ws_len = ws.len();
    let mut r: Vec<Descriptor> = Vec::new();
    let mut i: usize = 0;
    proof {
        assert(dir_words(r@) =~= Seq::<u64>::empty());
        lemma_words_of_blocks_len(bs@);
        assert(ws_len == 16 * count);
    }
    while i < count
        invariant
            i <= count,
            count * DESC_BLOCKS == bs@.len(),
            ws@ =~= words_of_blocks(bs@),
            ws@.len() == 16 * count,
            ws_len == 16 * count,
            r@.len() == i,
            dir_words(r@) =~= ws@.subrange(0, 16 * i as int),
        decreases count - i,
    {
        proof {
            assert(i * 16 + 16 <= ws_len);
        }
        let d = parse_desc_at(ws.as_slice(), i * 16);
        proof {
            lemma_dir_words_push(r@, d);
            assert(ws@.subrange(0, 16 * i as int) + ws@.subrange(
                16 * i as int,
                16 * i as int + 16,
            ) =~= ws@.subrange(0, 16 * (i as int + 1)));
        }
        r.push(d);
        i += 1;
    }
    proof {
        assert(ws@.subrange(0, 16 * count as int) =~= ws@);
    }
    r
}

/// Writes blocks out as their little-endian byte string.
pub fn blocks_to_bytes(bs: &[Block]) -> (r: Vec<u8>)
    ensures
        r@ =~= bytes_of_words(words_of_blocks(bs@)),
        r@.len() == 16 * bs@.len(),
{
    let ws = blocks_to_words(bs);
    let mut r: Vec<u8> = Vec::new();
    let mut i: usize = 0;
    proof {
        assert(bytes_of_words(ws@.subrange(0, 0)) =~= Seq::<u8>::empty());
    }
    while i < ws.len()
        invariant
            i <= ws@.len(),
            ws@ =~= words_of_blocks(bs@),
            ws@.len() == 2 * bs@.len(),
            r@ =~= bytes_of_words(ws@.subrange(0, i as int)),
            r@.len() == 8 * i,
        decreases ws@.len() - i,
    {
        let b = word_to_bytes(ws[i]);
        proof {
            lemma_bytes_of_words_push(ws@.subrange(0, i as int), ws@[i as int]);
            assert(ws@.subrange(0, i as int).push(ws@[i as int]) =~= ws@.subrange(
                0,
                i as int + 1,
            ));
            lemma_bytes_of_words_len(ws@.subrange(0, i as int + 1));
        }
        r.push(b[0]);
        r.push(b[1]);
        r.push(b[2]);
        r.push(b[3]);
        r.push(b[4]);
        r.push(b[5]);
        r.push(b[6]);
        r.push(b[7]);
        i += 1;
    }
    proof {
        assert(ws@.subrange(0, ws@.len() as int) =~= ws@);
    }
    r
}

/// Reads a byte string whose length is a multiple of the block size back
/// into blocks.
#[verifier::rlimit(50)]
pub fn bytes_to_blocks(by: &[u8]) -> (r: Vec<Block>)
    requires
        by@.len() % 16 == 0,
    ensures
        r@.len() * 16 == by@.len(),
        words_of_blocks(r@) =~= words_of_bytes(by@),
        r@ =~= blocks_of_words(words_of_bytes(by@)),
{
    let mut ws: Vec<u64> = Vec::new();
    let mut i: usize = 0;
    proof {
        assert(by@.skip(0) =~= by@);
    }
    while i < by.len()
        invariant
            i % 8 == 0,
            i <= by@.len(),
            by@.len() % 16 == 0,
            ws@.len() * 8 == i,
            ws@ + words_of_bytes(by@.skip(i as int)) =~= words_of_bytes(by@),
        decreases by@.len() - i,
    {
        proof {
            assert((by@.len() - i as int) % 8 == 0);
            assert(by@.len() - i as int >= 8);
        }
        let w = word_of_bytes8(vstd::slice::slice_subrange(by, i, i + 8));
        proof {
            let rest = by@.skip(i as int);
            assert(rest.take(8) =~= by@.subrange(i as int, i as int + 8));
            assert(rest.skip(8) =~= by@.skip(i as int + 8));
            assert(words_of_bytes(rest) =~= seq![spec_word_of_bytes(rest.take(8))]
                + words_of_bytes(by@.skip(i as int + 8)));
            assert(ws@.push(w) + words_of_bytes(by@.skip(i as int + 8)) =~= words_of_bytes(by@));
        }
        ws.push(w);
        i += 8;
    }
    proof {
        assert(i == by@.len());
        assert(by@.skip(by@.len() as int) =~= Seq::<u8>::empty());
        assert(words_of_bytes(Seq::<u8>::empty()) =~= Seq::<u64>::empty());
        assert(ws@ =~= words_of_bytes(by@));
        assert(ws@.len() % 2 == 0) by {
            assert(ws@.len() * 8 == by@.len());
            assert(by@.len() % 16 == 0);
        }
    }
    let r = words_to_blocks(ws.as_slice());
    proof {
        lemma_blocks_words_blocks(r@);
        assert(blocks_of_words(words_of_blocks(r@)) =~= blocks_of_words(words_of_bytes(by@)));
    }
    r
}

} // verus!

verus! {

/// Pairs an even-length word sequence into blocks, two words per block.
pub open spec fn blocks_of_words(ws: Seq<u64>) -> Seq<Block>
    decreases ws.len(),
{
    if ws.len() < 2 {
        Seq::<Block>::empty()
    } else {
        seq![[ws[0], ws[1]]] + blocks_of_words(ws.skip(2))
    }
}

pub proof fn lemma_words_of_bytes_len(by: Seq<u8>)
    requires
        by.len() % 8 == 0,
    ensures
        words_of_bytes(by).len() * 8 == by.len(),
    decreases by.len(),
{
    if by.len() >= 8 {
        lemma_words_of_bytes_len(by.skip(8));
    }
}

pub proof fn lemma_blocks_of_words_len(ws: Seq<u64>)
    requires
        ws.len() % 2 == 0,
    ensures
        blocks_of_words(ws).len() * 2 == ws.len(),
    decreases ws.len(),
{
    if ws.len() >= 2 {
        lemma_blocks_of_words_len(ws.skip(2));
    }
}

/// Flattening the blocks paired from an even-length word sequence gives
/// the words back.
pub proof fn lemma_words_blocks_words(ws: Seq<u64>)
    requires
        ws.len() % 2 == 0,
    ensures
        words_of_blocks(blocks_of_words(ws)) =~= ws,
    decreases ws.len(),
{
    if ws.len() >= 2 {
        let bs = blocks_of_words(ws);
        assert(bs[0] == [ws[0], ws[1]]);
        assert(bs.skip(1) =~= blocks_of_words(ws.skip(2)));
        lemma_words_blocks_words(ws.skip(2));
        assert(words_of_blocks(bs) =~= seq![ws[0], ws[1]] + words_of_blocks(
            blocks_of_words(ws.skip(2)),
        ));
    } else {
        assert(ws.len() == 0);
        assert(ws =~= Seq::<u64>::empty());
    }
}

/// Pairing the words flattened out of blocks gives the blocks back.
pub proof fn lemma_blocks_words_blocks(bs: Seq<Block>)
    ensures
        blocks_of_words(words_of_blocks(bs)) =~= bs,
    decreases bs.len(),
{
    if bs.len() > 0 {
        let ws = words_of_blocks(bs);
        lemma_words_of_blocks_len(bs);
        lemma_words_of_blocks_len(bs.skip(1));
        assert(ws =~= seq![bs[0][0], bs[0][1]] + words_of_blocks(bs.skip(1)));
        assert(ws.skip(2) =~= words_of_blocks(bs.skip(1)));
        lemma_blocks_words_blocks(bs.skip(1));
        assert(bs[0] =~= [ws[0], ws[1]]);
        assert(blocks_of_words(ws) =~= seq![[ws[0], ws[1]]] + blocks_of_words(ws.skip(2)));
    }
}

} // verus!

verus! {

/// The section read from five words.
pub open spec fn spec_parse_section(ws: Seq<u64>) -> Section
    recommends
        ws.len() == 5,
{
    Section {
        offset: spec_word_lo(ws[0]),
        size: spec_word_hi(ws[0]),
        nonce: [ws[1], ws[2]],
        mac: [ws[3], ws[4]],
    }
}

/// The info header read from six words.
pub open spec fn spec_parse_info(ws: Seq<u64>) -> InfoHeader
    recommends
        ws.len() == 6,
{
    InfoHeader {
        version: spec_word_lo(ws[0]),
        unused: spec_word_hi(ws[0]),
        directory: spec_parse_section(ws.subrange(1, 6)),
    }
}

/// The header read from ten words.
pub open spec fn spec_parse_header(ws: Seq<u64>) -> Header
    recommends
        ws.len() == 10,
{
    Header {
        nonce: [ws[0], ws[1]],
        mac: [ws[2], ws[3]],
        info: spec_parse_info(ws.subrange(4, 10)),
    }
}

/// Parsing the words of a section gives the section back.
pub proof fn lemma_parse_section_inverse(s: Section)
    ensures
        spec_parse_section(section_words(s)) == s,
{
    lemma_word_u32s(0, s.offset, s.size);
    assert(spec_parse_section(section_words(s)).nonce =~= s.nonce);
    assert(spec_parse_section(section_words(s)).mac =~= s.mac);
}

/// Writing out the section parsed from five words gives the words back.
pub proof fn lemma_section_parse_inverse(ws: Seq<u64>)
    requires
        ws.len() == 5,
    ensures
        section_words(spec_parse_section(ws)) =~= ws,
{
    lemma_word_u32s(ws[0], 0, 0);
}

/// Parsing the words of an info header gives the info header back.
pub proof fn lemma_parse_info_inverse(h: InfoHeader)
    ensures
        spec_parse_info(info_words(h)) == h,
{
    lemma_word_u32s(0, h.version, h.unused);
    assert(info_words(h).subrange(1, 6) =~= section_words(h.directory));
    lemma_parse_section_inverse(h.directory);
}

/// Writing out the info header parsed from six words gives the words back.
pub proof fn lemma_info_parse_inverse(ws: Seq<u64>)
    requires
        ws.len() == 6,
    ensures
        info_words(spec_parse_info(ws)) =~= ws,
{
    lemma_word_u32s(ws[0], 0, 0);
    lemma_section_parse_inverse(ws.subrange(1, 6));
}

/// Parsing the words of a header gives the header back.
pub proof fn lemma_parse_header_inverse(h: Header)
    ensures
        spec_parse_header(header_words(h)) == h,
{
    assert(spec_parse_header(header_words(h)).nonce =~= h.nonce);
    assert(spec_parse_header(header_words(h)).mac =~= h.mac);
    assert(header_words(h).subrange(4, 10) =~= info_words(h.info));
    lemma_parse_info_inverse(h.info);
}


} // verus!

verus! {

/// The given bytes, cut or zero-extended to fill `size` blocks.
pub open spec fn spec_padded_bytes(data: Seq<u8>, size: u32) -> Seq<u8> {
    let cap = 16 * (size as int);
    if data.len() >= cap {
        data.take(cap)
    } else {
        data + Seq::new((cap - data.len()) as nat, |i: int| 0u8)
    }
}

/// Packs data into `size` blocks, zero-padding the remainder.
pub fn data_to_blocks(data: &[u8], size: u32) -> (r: Vec<Block>)
    requires
        16 * (size as int) <= usize::MAX,
    ensures
        r@.len() == size,
        words_of_blocks(r@) =~= words_of_bytes(spec_padded_bytes(data@, size)),
{
    let cap: usize = 16 * (size as usize);
    let mut bytes: Vec<u8> = Vec::new();
    let take = if data.len() < cap {
        data.len()
    } else {
        cap
    };
    let mut i: usize = 0;
    while i < take
        invariant
            i <= take,
            take <= data@.len(),
            take <= cap,
            bytes@.len() == i,
            forall|j: int| 0 <= j < i ==> bytes@[j] == data@[j],
        decreases take - i,
    {
        let b = data[i];
        bytes.push(b);
        i += 1;
    }
    while bytes.len() < cap
        invariant
            take <= bytes@.len(),
            bytes@.len() <= cap,
            take <= cap,
            take <= data@.len(),
            forall|j: int| 0 <= j < take ==> bytes@[j] == data@[j],
            forall|j: int| take <= j < bytes@.len() ==> bytes@[j] == 0u8,
        decreases cap - bytes@.len(),
    {
        bytes.push(0u8);
    }
    proof {
        assert(bytes@ =~= spec_padded_bytes(data@, size));
    }
    let r = bytes_to_blocks(bytes.as_slice());
    r
}

} // verus!

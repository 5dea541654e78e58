//! The in-memory archive façades: an editor and a reader that hold every
//! block of the archive in memory.

use vstd::prelude::*;

use crate::crypt;
use crate::crypt::cipher_blocks;
use crate::crypt::header_ok;
use crate::crypt::spec_decrypt_info;
use crate::crypt::spec_mac;
use crate::directory::Directory;
use crate::records::Block;
use crate::records::DESC_BLOCKS;
use crate::records::Descriptor;
use crate::records::ErrorKind;
use crate::records::HEADER_BLOCKS;
use crate::records::Header;
use crate::records::InfoHeader;
use crate::records::Key;
use crate::records::Section;
use crate::records::bytes_of_words;
use crate::records::blocks_of_words;
use crate::records::descs_from_blocks;
use crate::records::dir_words;
use crate::records::header_from_blocks;
use crate::records::spec_parse_header;
use crate::records::spec_parse_info;
use crate::records::words_of_blocks;
use crate::records::words_of_bytes;

verus! {

/// Decrypting and authenticating a section of a block store: the range is
/// checked, the window is decrypted, and the MAC decides between the
/// plaintext and an integrity error.
pub open spec fn spec_read_section(blocks: Seq<Block>, s: Section, key: Key) -> Result<
    Seq<Block>,
    ErrorKind,
> {
    let lo = s.offset as int;
    let hi = s.offset as int + s.size as int;
    if hi > blocks.len() {
        Err(ErrorKind::InvalidInput)
    } else {
        let window = blocks.subrange(lo, hi);
        if s.mac == spec_mac(window, key, s.nonce) {
            Ok(cipher_blocks(window, key, s.nonce))
        } else {
            Err(ErrorKind::InvalidData)
        }
    }
}

/// Reading a file's data: the section plaintext as bytes, cut to the
/// content size.
pub open spec fn spec_read_data(blocks: Seq<Block>, d: Descriptor, key: Key) -> Result<
    Seq<u8>,
    ErrorKind,
> {
    if d.spec_is_dir() {
        Err(ErrorKind::InvalidInput)
    } else {
        match spec_read_section(blocks, d.section, key) {
            Ok(pt) => {
                let by = bytes_of_words(words_of_blocks(pt));
                Ok(
                    by.take(
                        vstd::math::min(by.len() as int, d.content_size as int),
                    ),
                )
            },
            Err(e) => Err(e),
        }
    }
}

/// Decrypts and authenticates a section of the block store.
///
/// The key is not required to be the same as used to open the archive.
fn read_section_blocks(blocks: &[Block], section: &Section, key: &Key) -> (r: Result<
    Vec<Block>,
    ErrorKind,
>)
    ensures
        match spec_read_section(blocks@, *section, *key) {
            Ok(pt) => r matches Ok(v) && v@ =~= pt,
            Err(e) => r matches Err(x) && x == e,
        },
{
    if (section.offset as u64) + (section.size as u64) > blocks.len() as u64 {
        return Err(ErrorKind::InvalidInput);
    }
    let lo = section.offset as usize;
    let hi = lo + section.size as usize;
    let window = vstd::slice::slice_subrange(blocks, lo, hi);
    let mut v = vstd::slice::slice_to_vec(window);
    proof {
        assert(v@ =~= blocks@.subrange(lo as int, hi as int));
    }
    let ok = crypt::decrypt_section(&mut v, section, key);
    if ok {
        Ok(v)
    } else {
        Err(ErrorKind::InvalidData)
    }
}

/// The header record held in the first blocks of a store.
pub open spec fn open_header(blocks: Seq<Block>) -> Header {
    spec_parse_header(words_of_blocks(blocks.subrange(0, HEADER_BLOCKS as int)))
}

/// The decrypted info header of a store.
pub open spec fn open_info(blocks: Seq<Block>, key: Key) -> InfoHeader {
    spec_parse_info(spec_decrypt_info(open_header(blocks), key))
}

/// Start of the directory region, in blocks.
pub open spec fn open_dir_start(blocks: Seq<Block>, key: Key) -> int {
    open_info(blocks, key).directory.offset as int
}

/// Number of descriptors in the directory.
pub open spec fn open_dir_count(blocks: Seq<Block>, key: Key) -> int {
    open_info(blocks, key).directory.size as int
}

/// End of the directory region, in blocks.
pub open spec fn open_dir_end(blocks: Seq<Block>, key: Key) -> int {
    open_dir_start(blocks, key) + open_dir_count(blocks, key) * (DESC_BLOCKS as int)
}

/// The encrypted directory window of a store.
pub open spec fn open_dir_window(blocks: Seq<Block>, key: Key) -> Seq<Block> {
    blocks.subrange(open_dir_start(blocks, key), open_dir_end(blocks, key))
}

/// The decrypted directory blocks of a store.
pub open spec fn open_dir_plain(blocks: Seq<Block>, key: Key) -> Seq<Block> {
    cipher_blocks(open_dir_window(blocks, key), key, open_info(blocks, key).directory.nonce)
}

/// Whether a store opens under the given key: it holds a header, the
/// header authenticates and carries the version magic, the directory
/// region lies inside the store, and the directory authenticates.
pub open spec fn open_ok(blocks: Seq<Block>, key: Key) -> bool {
    &&& blocks.len() >= HEADER_BLOCKS
    &&& header_ok(open_header(blocks), key)
    &&& open_dir_end(blocks, key) <= blocks.len()
    &&& open_info(blocks, key).directory.mac == spec_mac(
        open_dir_window(blocks, key),
        key,
        open_info(blocks, key).directory.nonce,
    )
}

/// The blocks held after opening: the directory region is decrypted in
/// place, and trimmed away entirely when it sat exactly at the end.
pub open spec fn open_blocks(blocks: Seq<Block>, key: Key) -> Seq<Block> {
    let ds = open_dir_start(blocks, key);
    let de = open_dir_end(blocks, key);
    let replaced = blocks.subrange(0, ds) + open_dir_plain(blocks, key) + blocks.subrange(
        de,
        blocks.len() as int,
    );
    if blocks.len() == de {
        replaced.subrange(0, ds)
    } else {
        replaced
    }
}

/// Decrypts and authenticates the header and the directory.
///
/// Returns the original blocks unchanged on a truncated store, a failed
/// header or directory authentication, a wrong version magic, or a
/// directory region past the end of the store.
pub fn from_blocks(blocks: Vec<Block>, key: &Key) -> (r: Result<(Vec<Block>, Directory), Vec<
    Block,
>>)
    ensures
        open_ok(blocks@, *key) ==> (r matches Ok(p) && {
            &&& p.0@ =~= open_blocks(blocks@, *key)
            &&& p.1@.len() == open_dir_count(blocks@, *key)
            &&& dir_words(p.1@) =~= words_of_blocks(open_dir_plain(blocks@, *key))
        }),
        !open_ok(blocks@, *key) ==> (r matches Err(b) && b@ =~= blocks@),
{
    let ghost orig = blocks@;
    let mut blocks = blocks;
    let n = blocks.len();
    if n < HEADER_BLOCKS {
        return Err(blocks);
    }
    let mut header = header_from_blocks(
        vstd::slice::slice_subrange(blocks.as_slice(), 0, HEADER_BLOCKS),
    );
    let ghost h0 = header;
    let ok = crypt::decrypt_header(&mut header, key);
    if !ok {
        return Err(blocks);
    }
    proof {
        crate::records::lemma_parse_info_inverse(header.info);
        assert(header.info == open_info(orig, *key));
    }

    let ds64 = header.info.directory.offset as u64;
    let dn64 = header.info.directory.size as u64;
    if ds64 + dn64 * (DESC_BLOCKS as u64) > n as u64 {
        return Err(blocks);
    }
    let ds = header.info.directory.offset as usize;
    let dn = header.info.directory.size as usize;
    let dir_end = ds + dn * DESC_BLOCKS;

    let mut window = vstd::slice::slice_to_vec(
        vstd::slice::slice_subrange(blocks.as_slice(), ds, dir_end),
    );
    proof {
        assert(window@ =~= open_dir_window(orig, *key));
    }
    let okd = crypt::decrypt_section(&mut window, &header.info.directory, key);
    if !okd {
        return Err(blocks);
    }
    proof {
        assert(window@ =~= open_dir_plain(orig, *key));
    }
    let descs = descs_from_blocks(window.as_slice(), dn);

    let mut i: usize = 0;
    while i < window.len()
        invariant
            i <= window@.len(),
            window@.len() == dir_end - ds,
            ds + window@.len() <= blocks@.len(),
            blocks@.len() == orig.len(),
            forall|j: int| 0 <= j < i ==> blocks@[ds + j] == window@[j],
            forall|j: int| 0 <= j < blocks@.len() && !(ds <= j < ds + i) ==> blocks@[j] == orig[j],
        decreases window@.len() - i,
    {
        let b = window[i];
        blocks[ds + i] = b;
        i += 1;
    }
    proof {
        assert(blocks@ =~= orig.subrange(0, ds as int) + open_dir_plain(orig, *key)
            + orig.subrange(dir_end as int, orig.len() as int));
    }
    if n == dir_end {
        blocks.truncate(ds);
    }
    proof {
        assert(blocks@ =~= open_blocks(orig, *key));
    }
    Ok((blocks, Directory::from(descs)))
}

/// Memory reader: holds the opened archive's blocks and its directory.
pub struct MemoryReader {
    pub blocks: Vec<Block>,
    pub directory: Directory,
}

impl MemoryReader {
    /// Parses bytes as the archive format for reading.
    ///
    /// Returns `InvalidInput` when the byte length is not a multiple of
    /// the block size, and `InvalidData` on any authentication or version
    /// failure.
    pub fn from_bytes(bytes: &[u8], key: &Key) -> (r: Result<MemoryReader, ErrorKind>)
        ensures
            ({
                let bl = blocks_of_words(words_of_bytes(bytes@));
                if bytes@.len() % 16 != 0 {
                    r matches Err(e) && e == ErrorKind::InvalidInput
                } else if open_ok(bl, *key) {
                    r matches Ok(m) && {
                        &&& m.blocks@ =~= open_blocks(bl, *key)
                        &&& m.directory@.len() == open_dir_count(bl, *key)
                        &&& dir_words(m.directory@) =~= words_of_blocks(open_dir_plain(bl, *key))
                    }
                } else {
                    r matches Err(e) && e == ErrorKind::InvalidData
                }
            }),
    {
        if bytes.len() % 16 != 0 {
            return Err(ErrorKind::InvalidInput);
        }
        let blocks = crate::records::bytes_to_blocks(bytes);
        match from_blocks(blocks, key) {
            Ok((blocks, directory)) => Ok(MemoryReader { blocks, directory }),
            Err(_) => Err(ErrorKind::InvalidData),
        }
    }

    /// Parses blocks as the archive format for reading; on failure the
    /// blocks are handed back unchanged.
    pub fn from_blocks(blocks: Vec<Block>, key: &Key) -> (r: Result<MemoryReader, Vec<Block>>)
        ensures
            open_ok(blocks@, *key) ==> (r matches Ok(m) && {
                &&& m.blocks@ =~= open_blocks(blocks@, *key)
                &&& m.directory@.len() == open_dir_count(blocks@, *key)
                &&& dir_words(m.directory@) =~= words_of_blocks(open_dir_plain(blocks@, *key))
            }),
            !open_ok(blocks@, *key) ==> (r matches Err(b) && b@ =~= blocks@),
    {
        match from_blocks(blocks, key) {
            Ok((blocks, directory)) => Ok(MemoryReader { blocks, directory }),
            Err(b) => Err(b),
        }
    }

    /// The directory of the archive.
    pub fn directory(&self) -> (r: &Directory)
        ensures
            r == &self.directory,
    {
        &self.directory
    }

    /// Finds a descriptor by its path.
    pub fn find_desc(&self, path: &[u8]) -> (r: Option<&Descriptor>)
        ensures
            r is Some == crate::dir::spec_find(self.directory@, path@) is Some,
            r matches Some(d) ==> crate::dir::spec_find(self.directory@, path@) matches Some(range)
                && *d == self.directory@[range.0],
    {
        self.directory.find_desc(path)
    }

    /// Finds a file descriptor by its path.
    pub fn find_file(&self, path: &[u8]) -> (r: Option<&Descriptor>)
        ensures
            r is Some == (crate::dir::spec_find(self.directory@, path@) matches Some(range)
                && !self.directory@[range.0].spec_is_dir()),
            r matches Some(d) ==> crate::dir::spec_find(self.directory@, path@) matches Some(range)
                && *d == self.directory@[range.0],
    {
        self.directory.find_file(path)
    }

    /// Decrypts and authenticates the section.
    ///
    /// The key is not required to be the same as used to open the archive.
    pub fn read_section(&self, section: &Section, key: &Key) -> (r: Result<Vec<Block>, ErrorKind>)
        ensures
            match spec_read_section(self.blocks@, *section, *key) {
                Ok(pt) => r matches Ok(v) && v@ =~= pt,
                Err(e) => r matches Err(x) && x == e,
            },
    {
        read_section_blocks(self.blocks.as_slice(), section, key)
    }

    /// Decrypts the contents of the given file descriptor.
    pub fn read_data(&self, desc: &Descriptor, key: &Key) -> (r: Result<Vec<u8>, ErrorKind>)
        ensures
            match spec_read_data(self.blocks@, *desc, *key) {
                Ok(data) => r matches Ok(v) && v@ =~= data,
                Err(e) => r matches Err(x) && x == e,
            },
    {
        read_data_blocks(self.blocks.as_slice(), desc, key)
    }

    /// Decrypts the contents of the given file descriptor into the
    /// destination buffer, starting at the given byte offset of the
    /// section plaintext.
    pub fn read_into(&self, desc: &Descriptor, key: &Key, byte_offset: usize, dest: &mut Vec<u8>)
        -> (r: Result<(), ErrorKind>)
        ensures
            final(dest)@.len() == old(dest)@.len(),
            match spec_read_into(self.blocks@, *desc, *key, byte_offset as int, old(dest)@.len() as int) {
                Ok(data) => r matches Ok(u) && final(dest)@ =~= data,
                Err(e) => r matches Err(x) && x == e && final(dest)@ =~= old(dest)@,
            },
    {
        read_into_blocks(self.blocks.as_slice(), desc, key, byte_offset, dest)
    }
}

/// Reading a sub-range of a file's data into a buffer of the given
/// length: the section plaintext bytes from `byte_offset` on, exactly
/// `dest_len` of them, or an input error when the range does not fit.
pub open spec fn spec_read_into(
    blocks: Seq<Block>,
    d: Descriptor,
    key: Key,
    byte_offset: int,
    dest_len: int,
) -> Result<Seq<u8>, ErrorKind> {
    if d.spec_is_dir() {
        Err(ErrorKind::InvalidInput)
    } else {
        match spec_read_section(blocks, d.section, key) {
            Ok(pt) => {
                let by = bytes_of_words(words_of_blocks(pt));
                if byte_offset + dest_len > by.len() {
                    Err(ErrorKind::InvalidInput)
                } else {
                    Ok(by.subrange(byte_offset, byte_offset + dest_len))
                }
            },
            Err(e) => Err(e),
        }
    }
}

/// Decrypts the contents of a file descriptor held in a block store.
fn read_data_blocks(blocks: &[Block], desc: &Descriptor, key: &Key) -> (r: Result<
    Vec<u8>,
    ErrorKind,
>)
    ensures
        match spec_read_data(blocks@, *desc, *key) {
            Ok(data) => r matches Ok(v) && v@ =~= data,
            Err(e) => r matches Err(x) && x == e,
        },
{
    if !desc.is_file() {
        return Err(ErrorKind::InvalidInput);
    }
    let pt = match read_section_blocks(blocks, &desc.section, key) {
        Ok(pt) => pt,
        Err(e) => {
            return Err(e);
        },
    };
    let mut data = crate::records::blocks_to_bytes(pt.as_slice());
    let len = if data.len() < desc.content_size as usize {
        data.len()
    } else {
        desc.content_size as usize
    };
    data.truncate(len);
    proof {
        assert(data@ =~= spec_read_data(blocks@, *desc, *key).unwrap());
    }
    Ok(data)
}

/// Decrypts a sub-range of a file descriptor's contents into `dest`.
fn read_into_blocks(
    blocks: &[Block],
    desc: &Descriptor,
    key: &Key,
    byte_offset: usize,
    dest: &mut Vec<u8>,
) -> (r: Result<(), ErrorKind>)
    ensures
        final(dest)@.len() == old(dest)@.len(),
        match spec_read_into(blocks@, *desc, *key, byte_offset as int, old(dest)@.len() as int) {
            Ok(data) => r matches Ok(u) && final(dest)@ =~= data,
            Err(e) => r matches Err(x) && x == e && final(dest)@ =~= old(dest)@,
        },
{
    if !desc.is_file() {
        return Err(ErrorKind::InvalidInput);
    }
    let pt = match read_section_blocks(blocks, &desc.section, key) {
        Ok(pt) => pt,
        Err(e) => {
            return Err(e);
        },
    };
    let data = crate::records::blocks_to_bytes(pt.as_slice());
    if byte_offset > data.len() || dest.len() > data.len() - byte_offset {
        return Err(ErrorKind::InvalidInput);
    }
    let n = dest.len();
    let mut i: usize = 0;
    while i < n
        invariant
            i <= n,
            n == dest@.len(),
            byte_offset + n <= data@.len(),
            data@.len() <= usize::MAX,
            forall|j: int| 0 <= j < i ==> dest@[j] == data@[byte_offset + j],
            forall|j: int| i <= j < n ==> dest@[j] == old(dest)@[j],
        decreases n - i,
    {
        let b = data[byte_offset + i];
        dest[i] = b;
        i += 1;
    }
    proof {
        assert(dest@ =~= data@.subrange(byte_offset as int, byte_offset as int + n as int));
    }
    Ok(())
}

} // verus!

verus! {

/// The all-zero block, as a value.
pub open spec fn zero_block() -> Block {
    [0u64, 0u64]
}

/// A store padded with zero blocks up to the header size.
pub open spec fn pad_header(blocks: Seq<Block>) -> Seq<Block> {
    if blocks.len() >= HEADER_BLOCKS {
        blocks
    } else {
        blocks + Seq::new((HEADER_BLOCKS - blocks.len()) as nat, |i: int| zero_block())
    }
}

/// Whether a section's range lies inside a block store.
pub open spec fn in_range(s: Section, blocks: Seq<Block>) -> bool {
    s.offset as int + s.size as int <= blocks.len()
}

/// Memory editor: holds the whole archive in memory while it is edited.
pub struct MemoryEditor {
    pub blocks: Vec<Block>,
    pub directory: Directory,
}

/// A handle on one descriptor of a memory editor's directory, for editing
/// a single file's metadata and payload.
pub struct MemoryEditFile {
    pub index: usize,
}

impl MemoryEditor {
    /// Creates a new, empty memory editor: room for the header, and an
    /// empty directory.
    pub fn new() -> (r: MemoryEditor)
        ensures
            r.blocks@ =~= Seq::new(HEADER_BLOCKS as nat, |i: int| zero_block()),
            r.directory@ =~= Seq::<Descriptor>::empty(),
    {
        let mut blocks: Vec<Block> = Vec::new();
        let mut i: usize = 0;
        while i < HEADER_BLOCKS
            invariant
                i <= HEADER_BLOCKS,
                blocks@.len() == i,
                forall|j: int| 0 <= j < i ==> blocks@[j] == zero_block(),
            decreases HEADER_BLOCKS - i,
        {
            blocks.push([0u64, 0u64]);
            i += 1;
        }
        MemoryEditor { blocks, directory: Directory::new() }
    }

    /// Parses bytes as the archive format for editing; see
    /// [`MemoryReader::from_bytes`].
    pub fn from_bytes(bytes: &[u8], key: &Key) -> (r: Result<MemoryEditor, ErrorKind>)
        ensures
            ({
                let bl = blocks_of_words(words_of_bytes(bytes@));
                if bytes@.len() % 16 != 0 {
                    r matches Err(e) && e == ErrorKind::InvalidInput
                } else if open_ok(bl, *key) {
                    r matches Ok(m) && {
                        &&& m.blocks@ =~= open_blocks(bl, *key)
                        &&& m.directory@.len() == open_dir_count(bl, *key)
                        &&& dir_words(m.directory@) =~= words_of_blocks(open_dir_plain(bl, *key))
                    }
                } else {
                    r matches Err(e) && e == ErrorKind::InvalidData
                }
            }),
    {
        if bytes.len() % 16 != 0 {
            return Err(ErrorKind::InvalidInput);
        }
        let blocks = crate::records::bytes_to_blocks(bytes);
        match from_blocks(blocks, key) {
            Ok((blocks, directory)) => Ok(MemoryEditor { blocks, directory }),
            Err(_) => Err(ErrorKind::InvalidData),
        }
    }

    /// Parses blocks as the archive format for editing; on failure the
    /// blocks are handed back unchanged.
    pub fn from_blocks(blocks: Vec<Block>, key: &Key) -> (r: Result<MemoryEditor, Vec<Block>>)
        ensures
            open_ok(blocks@, *key) ==> (r matches Ok(m) && {
                &&& m.blocks@ =~= open_blocks(blocks@, *key)
                &&& m.directory@.len() == open_dir_count(blocks@, *key)
                &&& dir_words(m.directory@) =~= words_of_blocks(open_dir_plain(blocks@, *key))
            }),
            !open_ok(blocks@, *key) ==> (r matches Err(b) && b@ =~= blocks@),
    {
        match from_blocks(blocks, key) {
            Ok((blocks, directory)) => Ok(MemoryEditor { blocks, directory }),
            Err(b) => Err(b),
        }
    }

    /// The directory of the archive.
    pub fn directory(&self) -> (r: &Directory)
        ensures
            r == &self.directory,
    {
        &self.directory
    }

    /// Finds a descriptor by its path.
    pub fn find_desc(&self, path: &[u8]) -> (r: Option<&Descriptor>)
        ensures
            r is Some == crate::dir::spec_find(self.directory@, path@) is Some,
            r matches Some(d) ==> crate::dir::spec_find(self.directory@, path@) matches Some(range)
                && *d == self.directory@[range.0],
    {
        self.directory.find_desc(path)
    }

    /// Finds a file descriptor by its path.
    pub fn find_file(&self, path: &[u8]) -> (r: Option<&Descriptor>)
        ensures
            r is Some == (crate::dir::spec_find(self.directory@, path@) matches Some(range)
                && !self.directory@[range.0].spec_is_dir()),
            r matches Some(d) ==> crate::dir::spec_find(self.directory@, path@) matches Some(range)
                && *d == self.directory@[range.0],
    {
        self.directory.find_file(path)
    }

    /// Highest block index containing file data: the next payload
    /// allocation happens here.
    pub fn high_mark(&self) -> (r: u32)
        ensures
            r == self.blocks@.len() as u32,
    {
        #[verifier::truncate] (self.blocks.len() as u32)
    }

    /// Begins editing the descriptor at the given path, creating it and
    /// its missing parents; see [`Directory::create`] for what the
    /// creation does. Returns a handle on the descriptor, or nothing for
    /// a path that names nothing creatable.
    pub fn edit_file(&mut self, path: &[u8]) -> (r: Option<MemoryEditFile>)
        requires
            old(self).directory@.len() + path@.len() < usize::MAX,
            path@.len() < 0xFFFF_FFFFusize,
        ensures
            final(self).blocks@ == old(self).blocks@,
            ({
                let w0 = crate::dir::spec_walk(
                    old(self).directory@,
                    path@,
                    0,
                    old(self).directory@.len() as int,
                    0,
                );
                let inc = crate::dir::spec_components(w0.2);
                if w0.3 {
                    &&& r matches Some(h) && h.index as int == w0.1 && (h.index as int)
                        < final(self).directory@.len()
                    &&& final(self).directory@ =~= old(self).directory@
                } else if inc == 0 {
                    &&& r is None
                    &&& final(self).directory@ =~= old(self).directory@
                } else {
                    let w1 = crate::dir::spec_walk(
                        old(self).directory@,
                        path@,
                        0,
                        old(self).directory@.len() as int,
                        inc as u32,
                    );
                    &&& r matches Some(h) && h.index as int == w0.1 + inc - 1 && (h.index as int)
                        < final(self).directory@.len()
                    &&& final(self).directory@.len() == old(self).directory@.len() + inc
                    &&& final(self).directory@.subrange(0, w0.1) =~= w1.0.subrange(0, w0.1)
                    &&& final(self).directory@.subrange(
                        w0.1 + inc,
                        final(self).directory@.len() as int,
                    ) =~= w1.0.subrange(w0.1, old(self).directory@.len() as int)
                    &&& crate::dir::chain_ok(
                        final(self).directory@.subrange(w0.1, w0.1 + inc),
                        w0.2,
                        inc,
                    )
                }
            }),
    {
        proof {
            crate::dir::lemma_walk_frame(
                self.directory@,
                path@,
                0,
                self.directory@.len() as int,
                0,
            );
        }
        match self.directory.create(path) {
            Some(i) => Some(MemoryEditFile { index: i }),
            None => None,
        }
    }

    /// Decrypts and authenticates the section.
    pub fn read_section(&self, section: &Section, key: &Key) -> (r: Result<Vec<Block>, ErrorKind>)
        ensures
            match spec_read_section(self.blocks@, *section, *key) {
                Ok(pt) => r matches Ok(v) && v@ =~= pt,
                Err(e) => r matches Err(x) && x == e,
            },
    {
        read_section_blocks(self.blocks.as_slice(), section, key)
    }

    /// Decrypts the contents of the given file descriptor.
    pub fn read_data(&self, desc: &Descriptor, key: &Key) -> (r: Result<Vec<u8>, ErrorKind>)
        ensures
            match spec_read_data(self.blocks@, *desc, *key) {
                Ok(data) => r matches Ok(v) && v@ =~= data,
                Err(e) => r matches Err(x) && x == e,
            },
    {
        read_data_blocks(self.blocks.as_slice(), desc, key)
    }

    /// Decrypts part of the given file descriptor's contents into the
    /// destination buffer.
    pub fn read_into(&self, desc: &Descriptor, key: &Key, byte_offset: usize, dest: &mut Vec<u8>)
        -> (r: Result<(), ErrorKind>)
        ensures
            final(dest)@.len() == old(dest)@.len(),
            match spec_read_into(
                self.blocks@,
                *desc,
                *key,
                byte_offset as int,
                old(dest)@.len() as int,
            ) {
                Ok(data) => r matches Ok(u) && final(dest)@ =~= data,
                Err(e) => r matches Err(x) && x == e && final(dest)@ =~= old(dest)@,
            },
    {
        read_into_blocks(self.blocks.as_slice(), desc, key, byte_offset, dest)
    }
}

} // verus!

verus! {

/// The descriptor after `set_content`: the type is forced non-zero, the
/// size is taken as given.
pub open spec fn content_patch(d: Descriptor, content_type: u32, content_size: u32) -> Descriptor {
    Descriptor {
        content_type: if content_type == 0 {
            1u32
        } else {
            content_type
        },
        content_size,
        ..d
    }
}

/// The descriptor after `allocate_data`: its section points at the given
/// offset with room for the content size; nonce and MAC are untouched.
pub open spec fn alloc_patch(d: Descriptor, offset: u32) -> Descriptor {
    Descriptor {
        section: Section {
            offset,
            size: crate::records::spec_bytes2blocks(d.content_size),
            ..d.section
        },
        ..d
    }
}

/// The plaintext blocks that `write_data` seals: the window's old bytes
/// with their prefix replaced by the data.
pub open spec fn write_plain(window: Seq<Block>, data: Seq<u8>) -> Seq<Block> {
    let wbytes = bytes_of_words(words_of_blocks(window));
    let len = vstd::math::min(wbytes.len() as int, data.len() as int);
    blocks_of_words(words_of_bytes(data.take(len) + wbytes.skip(len)))
}

impl MemoryEditFile {
    /// Gets the descriptor as-is.
    pub fn descriptor(&self, ed: &MemoryEditor) -> (r: Descriptor)
        requires
            self.index < ed.directory@.len(),
        ensures
            r == ed.directory@[self.index as int],
    {
        ed.directory.descriptors[self.index]
    }

    /// Sets the content type and size for this descriptor. A content type
    /// of zero is reserved for directories and becomes one.
    pub fn set_content(&self, ed: &mut MemoryEditor, content_type: u32, content_size: u32)
        requires
            self.index < old(ed).directory@.len(),
        ensures
            final(ed).blocks@ == old(ed).blocks@,
            final(ed).directory@ =~= old(ed).directory@.update(
                self.index as int,
                content_patch(old(ed).directory@[self.index as int], content_type, content_size),
            ),
    {
        let d = ed.directory.descriptors[self.index];
        let ty: u32 = if content_type == 0 {
            1
        } else {
            content_type
        };
        let nd = Descriptor { content_type: ty, content_size, ..d };
        ed.directory.descriptors[self.index] = nd;
    }

    /// Assigns an existing section object to this descriptor, so that
    /// several descriptors can share the same contents.
    pub fn set_section(&self, ed: &mut MemoryEditor, section: &Section)
        requires
            self.index < old(ed).directory@.len(),
        ensures
            final(ed).blocks@ == old(ed).blocks@,
            final(ed).directory@ =~= old(ed).directory@.update(
                self.index as int,
                (Descriptor { section: *section, ..old(ed).directory@[self.index as int] }),
            ),
    {
        let d = ed.directory.descriptors[self.index];
        let nd = Descriptor { section: *section, ..d };
        ed.directory.descriptors[self.index] = nd;
    }

    /// Allocates space for the contents at the end of the store: the
    /// section points at the old end with room for the content size. The
    /// allocation is skipped when it cannot fit in memory; writing will
    /// then fail its range check.
    pub fn allocate_data(&self, ed: &mut MemoryEditor)
        requires
            self.index < old(ed).directory@.len(),
        ensures
            ({
                let d = old(ed).directory@[self.index as int];
                let size = crate::records::spec_bytes2blocks(d.content_size);
                &&& final(ed).directory@ =~= old(ed).directory@.update(
                    self.index as int,
                    alloc_patch(d, old(ed).blocks@.len() as u32),
                )
                &&& (old(ed).blocks@.len() + size <= usize::MAX ==> final(ed).blocks@
                    =~= old(ed).blocks@ + Seq::new(size as nat, |i: int| zero_block()))
                &&& (old(ed).blocks@.len() + size > usize::MAX ==> final(ed).blocks@ == old(
                    ed,
                ).blocks@)
            }),
    {
        let d = ed.directory.descriptors[self.index];
        let size = crate::records::bytes2blocks(d.content_size);
        let offset = #[verifier::truncate] (ed.blocks.len() as u32);
        let nd = Descriptor {
            section: Section { offset, size, ..d.section },
            ..d
        };
        ed.directory.descriptors[self.index] = nd;
        if size as usize <= usize::MAX - ed.blocks.len() {
            let ghost before = ed.blocks@;
            let ghost dir_after = ed.directory@;
            let mut z: usize = 0;
            while z < size as usize
                invariant
                    z <= size as usize,
                    ed.directory@ == dir_after,
                    ed.blocks@.len() == before.len() + z,
                    ed.blocks@.subrange(0, before.len() as int) =~= before,
                    forall|j: int|
                        before.len() <= j < ed.blocks@.len() ==> ed.blocks@[j] == zero_block(),
                decreases size as usize - z,
            {
                ed.blocks.push([0u64, 0u64]);
                z += 1;
            }
            proof {
                assert(ed.blocks@ =~= before + Seq::new(
                    crate::records::spec_bytes2blocks(d.content_size) as nat,
                    |i: int| zero_block(),
                ));
            }
        }
    }

    /// Copies the data into the descriptor's section (zero-padding left
    /// from the previous window contents) and encrypts it in place under
    /// a fresh nonce, storing nonce and MAC in the descriptor.
    pub fn write_data(&self, ed: &mut MemoryEditor, data: &[u8], key: &Key)
        requires
            self.index < old(ed).directory@.len(),
            in_range(old(ed).directory@[self.index as int].section, old(ed).blocks@),
        ensures
            ({
                let d = old(ed).directory@[self.index as int];
                let off = d.section.offset as int;
                let sz = d.section.size as int;
                let window = old(ed).blocks@.subrange(off, off + sz);
                let pt = write_plain(window, data@);
                let nonce = final(ed).directory@[self.index as int].section.nonce;
                let ct = cipher_blocks(pt, *key, nonce);
                &&& final(ed).blocks@ =~= old(ed).blocks@.subrange(0, off) + ct + old(
                    ed,
                ).blocks@.subrange(off + sz, old(ed).blocks@.len() as int)
                &&& final(ed).directory@ =~= old(ed).directory@.update(
                    self.index as int,
                    (Descriptor {
                        section: Section { nonce, mac: spec_mac(ct, *key, nonce), ..d.section },
                        ..d
                    }),
                )
            }),
    {
        let d = ed.directory.descriptors[self.index];
        let off = d.section.offset as usize;
        let sz = d.section.size as usize;
        let nblocks = ed.blocks.len();
        proof {
            assert(off as int + sz as int <= nblocks as int);
        }
        let window = vstd::slice::slice_to_vec(
            vstd::slice::slice_subrange(ed.blocks.as_slice(), off, off + sz),
        );
        proof {
            assert(window@ =~= old(ed).blocks@.subrange(off as int, off as int + sz as int));
        }
        let mut wbytes = crate::records::blocks_to_bytes(window.as_slice());
        let len = if data.len() < wbytes.len() {
            data.len()
        } else {
            wbytes.len()
        };
        let ghost wb0 = wbytes@;
        let mut i: usize = 0;
        while i < len
            invariant
                i <= len,
                len <= data@.len(),
                len <= wbytes@.len(),
                forall|j: int| 0 <= j < i ==> wbytes@[j] == data@[j],
                forall|j: int| i <= j < wbytes@.len() ==> wbytes@[j] == wb0[j],
                wbytes@.len() == wb0.len(),
            decreases len - i,
        {
            let b = data[i];
            wbytes[i] = b;
            i += 1;
        }
        let mut pt = crate::records::bytes_to_blocks(wbytes.as_slice());
        proof {
            let w0 = old(ed).blocks@.subrange(off as int, off as int + sz as int);
            let ob = bytes_of_words(words_of_blocks(w0));
            let l = vstd::math::min(ob.len() as int, data@.len() as int);
            assert(wbytes@ =~= data@.take(l) + ob.skip(l));
            assert(pt@ =~= write_plain(w0, data@));
            assert(pt@ == write_plain(w0, data@));
        }
        let ghost p0 = pt@;
        let mut section = d.section;
        crypt::encrypt_section(&mut pt, &mut section, key);
        proof {
            assert(pt@ =~= cipher_blocks(p0, *key, section.nonce));
            assert(pt@ == cipher_blocks(p0, *key, section.nonce));
        }
        let nd = Descriptor { section, ..d };
        ed.directory.descriptors[self.index] = nd;
        let ghost nonce = section.nonce;
        let ghost dir_after = ed.directory@;
        let ghost ct0 = pt@;

        let mut k: usize = 0;
        while k < pt.len()
            invariant
                k <= pt@.len(),
                pt@ == ct0,
                ed.directory@ == dir_after,
                pt@.len() == sz,
                off + sz <= ed.blocks@.len(),
                off + sz <= usize::MAX,
                ed.blocks@.len() == old(ed).blocks@.len(),
                forall|j: int| 0 <= j < k ==> ed.blocks@[off + j] == pt@[j],
                forall|j: int|
                    0 <= j < ed.blocks@.len() && !(off <= j < off + k) ==> ed.blocks@[j] == old(
                        ed,
                    ).blocks@[j],
            decreases pt@.len() - k,
        {
            let b = pt[k];
            ed.blocks[off + k] = b;
            k += 1;
        }
        proof {
            let d0 = old(ed).directory@[self.index as int];
            let w0 = old(ed).blocks@.subrange(off as int, off as int + sz as int);
            let p = write_plain(w0, data@);
            let ct = cipher_blocks(p, *key, nonce);
            assert(ed.blocks@ =~= old(ed).blocks@.subrange(0, off as int) + ct + old(
                ed,
            ).blocks@.subrange(off as int + sz as int, old(ed).blocks@.len() as int));
            assert(ed.directory@ =~= old(ed).directory@.update(
                self.index as int,
                (Descriptor {
                    section: Section { nonce, mac: spec_mac(ct, *key, nonce), ..d0.section },
                    ..d0
                }),
            ));
        }
    }

    /// Overwrites the descriptor's section with encrypted zeroes.
    pub fn zero_data(&self, ed: &mut MemoryEditor, key: &Key)
        requires
            self.index < old(ed).directory@.len(),
            in_range(old(ed).directory@[self.index as int].section, old(ed).blocks@),
        ensures
            ({
                let d = old(ed).directory@[self.index as int];
                let off = d.section.offset as int;
                let sz = d.section.size as int;
                let pt = Seq::new(sz as nat, |i: int| zero_block());
                let nonce = final(ed).directory@[self.index as int].section.nonce;
                let ct = cipher_blocks(pt, *key, nonce);
                &&& final(ed).blocks@ =~= old(ed).blocks@.subrange(0, off) + ct + old(
                    ed,
                ).blocks@.subrange(off + sz, old(ed).blocks@.len() as int)
                &&& final(ed).directory@ =~= old(ed).directory@.update(
                    self.index as int,
                    (Descriptor {
                        section: Section { nonce, mac: spec_mac(ct, *key, nonce), ..d.section },
                        ..d
                    }),
                )
            }),
    {
        let d = ed.directory.descriptors[self.index];
        let off = d.section.offset as usize;
        let sz = d.section.size as usize;
        let nblocks = ed.blocks.len();
        proof {
            assert(off as int + sz as int <= nblocks as int);
        }
        let mut pt: Vec<Block> = Vec::new();
        let mut z: usize = 0;
        while z < sz
            invariant
                z <= sz,
                pt@.len() == z,
                forall|j: int| 0 <= j < z ==> pt@[j] == zero_block(),
            decreases sz - z,
        {
            pt.push([0u64, 0u64]);
            z += 1;
        }
        proof {
            assert(pt@ =~= Seq::new(sz as nat, |i: int| zero_block()));
            assert(pt@ == Seq::new(sz as nat, |i: int| zero_block()));
        }
        let ghost p0 = pt@;
        let mut section = d.section;
        crypt::encrypt_section(&mut pt, &mut section, key);
        proof {
            assert(pt@ =~= cipher_blocks(p0, *key, section.nonce));
            assert(pt@ == cipher_blocks(p0, *key, section.nonce));
        }
        let nd = Descriptor { section, ..d };
        ed.directory.descriptors[self.index] = nd;
        let ghost nonce = section.nonce;
        let ghost dir_after = ed.directory@;
        let ghost ct0 = pt@;

        let mut k: usize = 0;
        while k < pt.len()
            invariant
                k <= pt@.len(),
                pt@ == ct0,
                ed.directory@ == dir_after,
                pt@.len() == sz,
                off + sz <= ed.blocks@.len(),
                off + sz <= usize::MAX,
                ed.blocks@.len() == old(ed).blocks@.len(),
                forall|j: int| 0 <= j < k ==> ed.blocks@[off + j] == pt@[j],
                forall|j: int|
                    0 <= j < ed.blocks@.len() && !(off <= j < off + k) ==> ed.blocks@[j] == old(
                        ed,
                    ).blocks@[j],
            decreases pt@.len() - k,
        {
            let b = pt[k];
            ed.blocks[off + k] = b;
            k += 1;
        }
        proof {
            let d0 = old(ed).directory@[self.index as int];
            let p = Seq::new(d0.section.size as int as nat, |i: int| zero_block());
            assert(p =~= Seq::new(sz as nat, |i: int| zero_block()));
            assert(p == Seq::new(sz as nat, |i: int| zero_block()));
            let ct = cipher_blocks(p, *key, nonce);
            assert(ed.blocks@ =~= old(ed).blocks@.subrange(0, off as int) + ct + old(
                ed,
            ).blocks@.subrange(off as int + sz as int, old(ed).blocks@.len() as int));
            assert(ed.directory@ =~= old(ed).directory@.update(
                self.index as int,
                (Descriptor {
                    section: Section { nonce, mac: spec_mac(ct, *key, nonce), ..d0.section },
                    ..d0
                }),
            ));
        }
    }

    /// Decrypts the section under the old key and encrypts it again under
    /// the new one. If the old MAC does not verify, the ciphertext is
    /// still re-encrypted in place but the stored MAC keeps its old,
    /// invalid value, preserving the evidence of tampering.
    pub fn reencrypt_data(&self, ed: &mut MemoryEditor, old_key: &Key, key: &Key)
        requires
            self.index < old(ed).directory@.len(),
            in_range(old(ed).directory@[self.index as int].section, old(ed).blocks@),
        ensures
            ({
                let d = old(ed).directory@[self.index as int];
                let off = d.section.offset as int;
                let sz = d.section.size as int;
                let window = old(ed).blocks@.subrange(off, off + sz);
                let valid = d.section.mac == spec_mac(window, *old_key, d.section.nonce);
                let pt = cipher_blocks(window, *old_key, d.section.nonce);
                let nonce = final(ed).directory@[self.index as int].section.nonce;
                let ct = cipher_blocks(pt, *key, nonce);
                &&& final(ed).blocks@ =~= old(ed).blocks@.subrange(0, off) + ct + old(
                    ed,
                ).blocks@.subrange(off + sz, old(ed).blocks@.len() as int)
                &&& final(ed).directory@ =~= old(ed).directory@.update(
                    self.index as int,
                    (Descriptor {
                        section: Section {
                            nonce,
                            mac: if valid {
                                spec_mac(ct, *key, nonce)
                            } else {
                                d.section.mac
                            },
                            ..d.section
                        },
                        ..d
                    }),
                )
            }),
    {
        let d = ed.directory.descriptors[self.index];
        let off = d.section.offset as usize;
        let sz = d.section.size as usize;
        let nblocks = ed.blocks.len();
        proof {
            assert(off as int + sz as int <= nblocks as int);
        }
        let mut pt = vstd::slice::slice_to_vec(
            vstd::slice::slice_subrange(ed.blocks.as_slice(), off, off + sz),
        );
        proof {
            assert(pt@ =~= old(ed).blocks@.subrange(off as int, off as int + sz as int));
        }
        let is_valid = crypt::decrypt_section(&mut pt, &d.section, old_key);
        let ghost p0 = pt@;
        let mut section = d.section;
        crypt::encrypt_section(&mut pt, &mut section, key);
        proof {
            assert(p0 == cipher_blocks(
                old(ed).blocks@.subrange(off as int, off as int + sz as int),
                *old_key,
                d.section.nonce,
            ));
            assert(pt@ =~= cipher_blocks(p0, *key, section.nonce));
            assert(pt@ == cipher_blocks(p0, *key, section.nonce));
        }
        if !is_valid {
            section.mac = d.section.mac;
        }
        let nd = Descriptor { section, ..d };
        ed.directory.descriptors[self.index] = nd;
        let ghost nonce = section.nonce;
        let ghost dir_after = ed.directory@;
        let ghost ct0 = pt@;

        let mut k: usize = 0;
        while k < pt.len()
            invariant
                k <= pt@.len(),
                pt@ == ct0,
                ed.directory@ == dir_after,
                pt@.len() == sz,
                off + sz <= ed.blocks@.len(),
                off + sz <= usize::MAX,
                ed.blocks@.len() == old(ed).blocks@.len(),
                forall|j: int| 0 <= j < k ==> ed.blocks@[off + j] == pt@[j],
                forall|j: int|
                    0 <= j < ed.blocks@.len() && !(off <= j < off + k) ==> ed.blocks@[j] == old(
                        ed,
                    ).blocks@[j],
            decreases pt@.len() - k,
        {
            let b = pt[k];
            ed.blocks[off + k] = b;
            k += 1;
        }
        proof {
            let d0 = old(ed).directory@[self.index as int];
            let w0 = old(ed).blocks@.subrange(off as int, off as int + sz as int);
            let valid = d0.section.mac == spec_mac(w0, *old_key, d0.section.nonce);
            let p = cipher_blocks(w0, *old_key, d0.section.nonce);
            let ct = cipher_blocks(p, *key, nonce);
            assert(ed.blocks@ =~= old(ed).blocks@.subrange(0, off as int) + ct + old(
                ed,
            ).blocks@.subrange(off as int + sz as int, old(ed).blocks@.len() as int));
            assert(ed.directory@ =~= old(ed).directory@.update(
                self.index as int,
                (Descriptor {
                    section: Section {
                        nonce,
                        mac: if valid {
                            spec_mac(ct, *key, nonce)
                        } else {
                            d0.section.mac
                        },
                        ..d0.section
                    },
                    ..d0
                }),
            ));
        }
    }
}

} // verus!

verus! {

/// The compacted block store after garbage collection has processed the
/// first `j` descriptors: a fresh header placeholder followed by the
/// payload windows of the in-range files, in directory order.
pub open spec fn gc_blocks(dir: Seq<Descriptor>, blocks: Seq<Block>, j: int) -> Seq<Block>
    decreases j,
{
    if j <= 0 {
        Seq::new(HEADER_BLOCKS as nat, |i: int| zero_block())
    } else {
        let b = gc_blocks(dir, blocks, j - 1);
        let d = dir[j - 1];
        if !d.spec_is_dir() && in_range(d.section, blocks) {
            b + blocks.subrange(
                d.section.offset as int,
                d.section.offset as int + d.section.size as int,
            )
        } else {
            b
        }
    }
}

/// The descriptor at `j` after garbage collection: directories are left
/// alone, in-range files point at their moved window, and files with an
/// invalid section have it zeroed.
pub open spec fn gc_desc(dir: Seq<Descriptor>, blocks: Seq<Block>, j: int) -> Descriptor {
    let d = dir[j];
    if d.spec_is_dir() {
        d
    } else if in_range(d.section, blocks) {
        Descriptor {
            section: Section {
                offset: gc_blocks(dir, blocks, j).len() as u32,
                ..d.section
            },
            ..d
        }
    } else {
        Descriptor { section: crate::records::spec_zero_section(), ..d }
    }
}

impl MemoryEditor {
    /// Compacts the store: payload windows of surviving files move to a
    /// fresh block array behind a header placeholder, with their size,
    /// nonce and MAC intact, so their contents still decrypt. Files with
    /// an out-of-range section get a zeroed section instead.
    pub fn gc(&mut self)
        ensures
            final(self).blocks@ =~= gc_blocks(
                old(self).directory@,
                old(self).blocks@,
                old(self).directory@.len() as int,
            ),
            final(self).directory@.len() == old(self).directory@.len(),
            forall|j: int|
                0 <= j < old(self).directory@.len() ==> final(self).directory@[j] == gc_desc(
                    old(self).directory@,
                    old(self).blocks@,
                    j,
                ),
    {
        let ghost dir0 = self.directory@;
        let ghost blocks0 = self.blocks@;
        let mut new_blocks: Vec<Block> = Vec::new();
        let mut i: usize = 0;
        while i < HEADER_BLOCKS
            invariant
                i <= HEADER_BLOCKS,
                new_blocks@.len() == i,
                forall|j: int| 0 <= j < i ==> new_blocks@[j] == zero_block(),
            decreases HEADER_BLOCKS - i,
        {
            new_blocks.push([0u64, 0u64]);
            i += 1;
        }
        proof {
            assert(new_blocks@ =~= gc_blocks(dir0, blocks0, 0));
        }

        let n = self.directory.len();
        let mut j: usize = 0;
        while j < n
            invariant
                j <= n,
                n == dir0.len(),
                self.blocks@ == blocks0,
                self.directory@.len() == dir0.len(),
                new_blocks@ =~= gc_blocks(dir0, blocks0, j as int),
                forall|m: int| 0 <= m < j ==> self.directory@[m] == gc_desc(dir0, blocks0, m),
                forall|m: int| j <= m < dir0.len() ==> self.directory@[m] == dir0[m],
            decreases n - j,
        {
            let desc = self.directory.descriptors[j];
            if desc.is_file() {
                if (desc.section.offset as u64) + (desc.section.size as u64) <= self.blocks.len()
                    as u64 {
                    let offset = #[verifier::truncate] (new_blocks.len() as u32);
                    let off = desc.section.offset as usize;
                    let sz = desc.section.size as usize;
                    let ghost nb0 = new_blocks@;
                    let ghost dmid = self.directory@;
                    let mut k: usize = 0;
                    while k < sz
                        invariant
                            k <= sz,
                            off + sz <= self.blocks@.len(),
                            off + sz <= usize::MAX,
                            self.blocks@ == blocks0,
                            self.directory@ == dmid,
                            new_blocks@ =~= nb0 + blocks0.subrange(
                                off as int,
                                off as int + k as int,
                            ),
                        decreases sz - k,
                    {
                        let b = self.blocks[off + k];
                        let ghost prev = new_blocks@;
                        new_blocks.push(b);
                        proof {
                            assert(new_blocks@ =~= nb0 + blocks0.subrange(
                                off as int,
                                off as int + k as int + 1,
                            ));
                        }
                        k += 1;
                    }
                    let nd = Descriptor {
                        section: Section { offset, ..desc.section },
                        ..desc
                    };
                    self.directory.descriptors[j] = nd;
                    proof {
                        assert(new_blocks@ =~= gc_blocks(dir0, blocks0, j as int) + blocks0
                            .subrange(off as int, off as int + sz as int));
                        assert(new_blocks@ =~= gc_blocks(dir0, blocks0, j as int + 1));
                        assert(self.directory@[j as int] == gc_desc(dir0, blocks0, j as int));
                    }
                } else {
                    let nd = Descriptor { section: Section::default(), ..desc };
                    self.directory.descriptors[j] = nd;
                    proof {
                        assert(new_blocks@ =~= gc_blocks(dir0, blocks0, j as int + 1));
                        assert(self.directory@[j as int] == gc_desc(dir0, blocks0, j as int));
                    }
                }
            } else {
                proof {
                    assert(new_blocks@ =~= gc_blocks(dir0, blocks0, j as int + 1));
                    assert(self.directory@[j as int] == gc_desc(dir0, blocks0, j as int));
                }
            }
            j += 1;
        }
        self.blocks = new_blocks;
    }
}

} // verus!

verus! {

/// The finished archive: the padded store with its first blocks replaced
/// by the sealed header, followed by the encrypted directory, given the
/// two nonces the sealing drew.
pub open spec fn spec_finish(
    blocks: Seq<Block>,
    dir: Seq<Descriptor>,
    key: Key,
    dir_nonce: Block,
    hdr_nonce: Block,
) -> Seq<Block> {
    let padded = pad_header(blocks);
    let hm = padded.len() as int;
    let dir_ct = cipher_blocks(blocks_of_words(dir_words(dir)), key, dir_nonce);
    let dsec = Section {
        offset: hm as u32,
        size: dir.len() as u32,
        nonce: dir_nonce,
        mac: spec_mac(dir_ct, key, dir_nonce),
    };
    let info = crypt::plain_info(dsec);
    let h_ct = crypt::spec_encrypt_info(info, key, hdr_nonce);
    let header = Header {
        nonce: hdr_nonce,
        mac: spec_mac(h_ct, key, hdr_nonce),
        info: spec_parse_info(words_of_blocks(h_ct)),
    };
    blocks_of_words(crate::records::header_words(header)) + padded.subrange(
        HEADER_BLOCKS as int,
        hm,
    ) + dir_ct
}

impl MemoryEditor {
    /// Finish editing: seals the directory and the header and returns the
    /// whole encrypted archive together with the plain directory.
    ///
    /// The two sealing nonces are drawn from the random source; every
    /// clause holds whatever values were drawn, and the nonces themselves
    /// can be read back out of the result.
    pub fn finish(self, key: &Key) -> (r: (Vec<Block>, Directory))
        ensures
            ({
                let hdr_nonce = [r.0@[0][0], r.0@[0][1]];
                let dsec = spec_parse_info(
                    spec_decrypt_info(open_header(r.0@), *key),
                ).directory;
                r.0@.len() >= HEADER_BLOCKS && r.0@ =~= spec_finish(
                    self.blocks@,
                    self.directory@,
                    *key,
                    dsec.nonce,
                    hdr_nonce,
                )
            }),
            r.1@ == self.directory@,
    {
        let MemoryEditor { mut blocks, directory } = self;
        let ghost blocks0 = blocks@;

        while blocks.len() < HEADER_BLOCKS
            invariant
                blocks@.len() >= blocks0.len(),
                blocks@.len() <= vstd::math::max(blocks0.len() as int, HEADER_BLOCKS as int),
                blocks@.subrange(0, blocks0.len() as int) =~= blocks0,
                forall|j: int| blocks0.len() <= j < blocks@.len() ==> blocks@[j] == zero_block(),
            decreases HEADER_BLOCKS - blocks@.len(),
        {
            let ghost prev = blocks@;
            blocks.push([0u64, 0u64]);
            proof {
                assert(blocks@.subrange(0, blocks0.len() as int) =~= prev.subrange(
                    0,
                    blocks0.len() as int,
                ));
            }
        }
        proof {
            assert(blocks@ =~= pad_header(blocks0));
            assert(blocks@ == pad_header(blocks0));
        }

        let hm = blocks.len();
        let dir_size = directory.len();

        let mut dir_blocks = crate::records::descs_to_blocks(directory.as_ref());
        proof {
            crate::records::lemma_blocks_words_blocks(dir_blocks@);
            assert(dir_blocks@ =~= blocks_of_words(dir_words(directory@)));
            assert(dir_blocks@ == blocks_of_words(dir_words(directory@)));
        }
        let mut dsec = Section {
            offset: #[verifier::truncate] (hm as u32),
            size: #[verifier::truncate] (dir_size as u32),
            nonce: [0u64, 0u64],
            mac: [0u64, 0u64],
        };
        let ghost db0 = dir_blocks@;
        crypt::encrypt_section(&mut dir_blocks, &mut dsec, key);
        let ghost dir_nonce = dsec.nonce;
        proof {
            assert(dir_blocks@ =~= cipher_blocks(db0, *key, dir_nonce));
            assert(dir_blocks@ == cipher_blocks(db0, *key, dir_nonce));
            assert(db0 == blocks_of_words(dir_words(directory@)));
        }

        let mut header = Header {
            nonce: [0u64, 0u64],
            mac: [0u64, 0u64],
            info: InfoHeader { version: crate::records::VERSION, unused: 0, directory: dsec },
        };
        crypt::encrypt_header(&mut header, key);
        let ghost hdr_nonce = header.nonce;

        let hb = crate::records::header_to_blocks(&header);
        let mut i: usize = 0;
        while i < HEADER_BLOCKS
            invariant
                i <= HEADER_BLOCKS,
                hb@.len() == HEADER_BLOCKS,
                blocks@.len() >= HEADER_BLOCKS,
                blocks@.len() == pad_header(blocks0).len(),
                forall|j: int| 0 <= j < i ==> blocks@[j] == hb@[j],
                forall|j: int| i <= j < blocks@.len() ==> blocks@[j] == pad_header(blocks0)[j],
            decreases HEADER_BLOCKS - i,
        {
            let b = hb[i];
            blocks[i] = b;
            i += 1;
        }

        let ghost mid = blocks@;
        let mut k: usize = 0;
        while k < dir_blocks.len()
            invariant
                k <= dir_blocks@.len(),
                blocks@ =~= mid + dir_blocks@.subrange(0, k as int),
            decreases dir_blocks@.len() - k,
        {
            let b = dir_blocks[k];
            blocks.push(b);
            proof {
                assert(blocks@ =~= mid + dir_blocks@.subrange(0, k as int + 1));
            }
            k += 1;
        }

        proof {
            let padded = pad_header(blocks0);
            let hmv = padded.len() as int;

            // The sealed pieces equal the ones spec_finish names.
            let dir_ct = cipher_blocks(blocks_of_words(dir_words(directory@)), *key, dir_nonce);
            assert(dir_blocks@ == dir_ct);
            let spec_dsec = Section {
                offset: hmv as u32,
                size: directory@.len() as u32,
                nonce: dir_nonce,
                mac: spec_mac(dir_ct, *key, dir_nonce),
            };
            assert(dsec == spec_dsec);
            let info = crypt::plain_info(spec_dsec);
            let h_ct = crypt::spec_encrypt_info(info, *key, hdr_nonce);
            crate::records::lemma_parse_info_inverse(header.info);
            assert(crate::records::info_words(header.info) =~= words_of_blocks(h_ct));
            assert(crate::records::info_words(header.info) == words_of_blocks(h_ct));
            assert(header.info == spec_parse_info(words_of_blocks(h_ct)));
            let spec_header = Header {
                nonce: hdr_nonce,
                mac: spec_mac(h_ct, *key, hdr_nonce),
                info: spec_parse_info(words_of_blocks(h_ct)),
            };
            assert(header == spec_header);

            // hb is exactly the block form of the header's words.
            crate::records::lemma_blocks_words_blocks(hb@);
            assert(words_of_blocks(hb@) == crate::records::header_words(header));
            assert(hb@ =~= blocks_of_words(crate::records::header_words(header)));
            assert(hb@ == blocks_of_words(crate::records::header_words(header)));

            let fin = spec_finish(blocks0, directory@, *key, dir_nonce, hdr_nonce);
            assert(blocks@ =~= hb@ + padded.subrange(HEADER_BLOCKS as int, hmv) + dir_blocks@);
            assert(blocks@ =~= fin);

            // The header's nonce and the directory section can be read back.
            assert(blocks@.subrange(0, HEADER_BLOCKS as int) =~= hb@);
            assert(blocks@.subrange(0, HEADER_BLOCKS as int) == hb@);
            crate::records::lemma_parse_header_inverse(header);
            assert(open_header(blocks@) == header);
            assert([blocks@[0][0], blocks@[0][1]] =~= hdr_nonce);

            // Decrypting the sealed info recovers the plain info header.
            crate::records::lemma_blocks_words_blocks(h_ct);
            assert(blocks_of_words(crate::records::info_words(header.info)) =~= h_ct);
            assert(blocks_of_words(crate::records::info_words(header.info)) == h_ct);
            crypt::lemma_cipher_blocks_involution(
                blocks_of_words(crate::records::info_words(info)),
                *key,
                hdr_nonce,
            );
            assert(cipher_blocks(h_ct, *key, hdr_nonce) =~= blocks_of_words(
                crate::records::info_words(info),
            ));
            assert(cipher_blocks(h_ct, *key, hdr_nonce) == blocks_of_words(
                crate::records::info_words(info),
            ));
            crate::records::lemma_words_blocks_words(crate::records::info_words(info));
            assert(crypt::spec_decrypt_info(header, *key) == crate::records::info_words(info));
            crate::records::lemma_parse_info_inverse(info);
            assert(spec_parse_info(crypt::spec_decrypt_info(header, *key)) == info);
        }
        (blocks, directory)
    }
}

} // verus!

verus! {

/// The zero-padded plaintext bytes of a freshly written file: the data,
/// cut or extended with zeroes to fill `size` blocks.
pub open spec fn padded_data(data: Seq<u8>, size: u32) -> Seq<u8> {
    let cap = 16 * (size as int);
    if data.len() >= cap {
        data.take(cap)
    } else {
        data + Seq::new((cap - data.len()) as nat, |i: int| 0u8)
    }
}

impl MemoryEditor {
    /// Creates a file at the given path: missing parents are created, the
    /// descriptor gets content type one and the data's length, a fresh
    /// region is allocated at the end of the store, and the data is
    /// encrypted into it. Returns the finished descriptor, or nothing for
    /// a path that names nothing creatable (the editor is then
    /// unchanged).
    ///
    /// Data longer than 4 GiB is cut off, as its size is stored in 32
    /// bits.
    pub fn create_file(&mut self, path: &[u8], data: &[u8], key: &Key) -> (r: Option<Descriptor>)
        requires
            old(self).directory@.len() + path@.len() < usize::MAX,
            path@.len() < 0xFFFF_FFFFusize,
            old(self).blocks@.len() + crate::records::spec_bytes2blocks(data@.len() as u32)
                < usize::MAX,
            old(self).blocks@.len() < 0x1_0000_0000,
        ensures
            ({
                let w0 = crate::dir::spec_walk(
                    old(self).directory@,
                    path@,
                    0,
                    old(self).directory@.len() as int,
                    0,
                );
                let inc = crate::dir::spec_components(w0.2);
                if !w0.3 && inc == 0 {
                    &&& r is None
                    &&& final(self).directory@ =~= old(self).directory@
                    &&& final(self).blocks@ =~= old(self).blocks@
                } else {
                    let idx = crate::directory::create_index(old(self).directory@, path@);
                    let size = crate::records::spec_bytes2blocks(data@.len() as u32);
                    let pt = blocks_of_words(words_of_bytes(padded_data(data@, size)));
                    r matches Some(d) && {
                        let ct = cipher_blocks(pt, *key, d.section.nonce);
                        &&& d.content_type == 1
                        &&& d.content_size == data@.len() as u32
                        &&& d.section.offset == old(self).blocks@.len() as u32
                        &&& d.section.size == size
                        &&& d.section.mac == spec_mac(ct, *key, d.section.nonce)
                        &&& final(self).blocks@.len() == old(self).blocks@.len() + size
                        &&& final(self).blocks@.subrange(0, old(self).blocks@.len() as int)
                            =~= old(self).blocks@
                        &&& final(self).blocks@.subrange(
                            old(self).blocks@.len() as int,
                            final(self).blocks@.len() as int,
                        ) =~= ct
                        &&& final(self).directory@[idx] == d
                        &&& exists|mid: Seq<Descriptor>|
                            #[trigger] crate::directory::created_shape(
                                old(self).directory@,
                                mid,
                                path@,
                            ) && final(self).directory@ =~= mid.update(idx, d)
                    }
                }
            }),
    {
        let ghost dir0 = self.directory@;
        let ghost blocks0 = self.blocks@;
        let handle = match self.edit_file(path) {
            Some(h) => h,
            None => {
                return None;
            },
        };
        let ghost mid = self.directory@;
        let len32 = #[verifier::truncate] (data.len() as u32);
        handle.set_content(&mut *self, 1, len32);
        handle.allocate_data(&mut *self);
        proof {
            let d1 = mid[handle.index as int];
            let d2 = content_patch(d1, 1, data@.len() as u32);
            assert(self.directory@[handle.index as int] == alloc_patch(d2, blocks0.len() as u32));
            assert(blocks0.len() + crate::records::spec_bytes2blocks(data@.len() as u32)
                <= usize::MAX);
            assert(self.blocks@ =~= blocks0 + Seq::new(
                crate::records::spec_bytes2blocks(data@.len() as u32) as nat,
                |i: int| zero_block(),
            ));
        }
        handle.write_data(&mut *self, data, key);
        let d = self.directory.descriptors[handle.index];
        proof {
            let size = crate::records::spec_bytes2blocks(data@.len() as u32);
            let zeros = Seq::new(size as nat, |i: int| zero_block());
            let window = (blocks0 + zeros).subrange(
                blocks0.len() as int,
                blocks0.len() + size as int,
            );
            assert(window =~= zeros);
            assert(window == zeros);
            lemma_zero_blocks_bytes(size as nat);
            crate::records::lemma_words_of_bytes_len(padded_data(data@, size));
            crate::records::lemma_blocks_of_words_len(words_of_bytes(padded_data(data@, size)));
            let wbytes = bytes_of_words(words_of_blocks(zeros));
            assert(wbytes =~= Seq::new((16 * size) as nat, |i: int| 0u8));
            let l = vstd::math::min(wbytes.len() as int, data@.len() as int);
            assert(data@.take(l) + wbytes.skip(l) =~= padded_data(data@, size));
            assert(data@.take(l) + wbytes.skip(l) == padded_data(data@, size));
            assert(write_plain(window, data@) == blocks_of_words(
                words_of_bytes(padded_data(data@, size)),
            ));
            assert(self.directory@[handle.index as int] == d);
            assert(final(self).blocks@.subrange(0, blocks0.len() as int) =~= blocks0) by {
                assert(self.blocks@.subrange(0, blocks0.len() as int) =~= blocks0);
            }
            assert(self.blocks@.subrange(blocks0.len() as int, self.blocks@.len() as int)
                =~= cipher_blocks(write_plain(window, data@), *key, d.section.nonce));
            assert(crate::directory::created_shape(dir0, mid, path@));
            assert(self.directory@ =~= mid.update(
                crate::directory::create_index(dir0, path@),
                d,
            ));
        }
        Some(d)
    }
}

/// The words of a run of zero blocks are zero words, and their bytes are
/// zero bytes.
pub proof fn lemma_zero_blocks_bytes(n: nat)
    ensures
        bytes_of_words(words_of_blocks(Seq::new(n, |i: int| zero_block()))) =~= Seq::new(
            16 * n,
            |i: int| 0u8,
        ),
    decreases n,
{
    let zs = Seq::new(n, |i: int| zero_block());
    if n == 0 {
        assert(words_of_blocks(zs) =~= Seq::<u64>::empty());
        assert(bytes_of_words(Seq::<u64>::empty()) =~= Seq::<u8>::empty());
    } else {
        let zs1 = Seq::new((n - 1) as nat, |i: int| zero_block());
        assert(zs.skip(1) =~= zs1);
        lemma_zero_blocks_bytes((n - 1) as nat);
        assert(words_of_blocks(zs) =~= seq![0u64, 0u64] + words_of_blocks(zs1));
        assert(words_of_blocks(zs) == seq![0u64, 0u64] + words_of_blocks(zs1));
        lemma_zero_word_bytes();
        let rest = seq![0u64, 0u64] + words_of_blocks(zs1);
        assert(rest[0] == 0u64);
        assert(rest.skip(1)[0] == 0u64);
        assert(rest.skip(1).skip(1) =~= words_of_blocks(zs1));
        assert(rest.skip(1).skip(1) == words_of_blocks(zs1));
        assert(bytes_of_words(rest.skip(1)) == crate::records::spec_bytes_of_word(rest.skip(1)[0])
            + bytes_of_words(rest.skip(1).skip(1)));
        assert(bytes_of_words(rest) == crate::records::spec_bytes_of_word(rest[0])
            + bytes_of_words(rest.skip(1)));
        assert(crate::records::spec_bytes_of_word(0u64) =~= Seq::new(8, |i: int| 0u8));
        assert(bytes_of_words(words_of_blocks(zs)) =~= Seq::new(16 * n, |i: int| 0u8));
    }
}

/// Every byte of the zero word is zero.
proof fn lemma_zero_word_bytes()
    by (bit_vector)
    ensures
        0u64 & 0xFF == 0u64,
        (0u64 >> 8) & 0xFF == 0u64,
        (0u64 >> 16) & 0xFF == 0u64,
        (0u64 >> 24) & 0xFF == 0u64,
        (0u64 >> 32) & 0xFF == 0u64,
        (0u64 >> 40) & 0xFF == 0u64,
        (0u64 >> 48) & 0xFF == 0u64,
        (0u64 >> 56) & 0xFF == 0u64,
{
}

/// Casts the blocks to their little-endian byte string.
pub fn as_bytes(blocks: &[Block]) -> (r: Vec<u8>)
    ensures
        r@ =~= bytes_of_words(words_of_blocks(blocks@)),
{
    crate::records::blocks_to_bytes(blocks)
}

} // verus!

verus! {

/// The compacted store only grows as more descriptors are processed, and
/// what was already placed stays where it is.
proof fn lemma_gc_blocks_prefix(dir: Seq<Descriptor>, blocks: Seq<Block>, j1: int, j2: int)
    requires
        0 <= j1 <= j2,
    ensures
        gc_blocks(dir, blocks, j1).len() <= gc_blocks(dir, blocks, j2).len(),
        gc_blocks(dir, blocks, j1) =~= gc_blocks(dir, blocks, j2).subrange(
            0,
            gc_blocks(dir, blocks, j1).len() as int,
        ),
    decreases j2 - j1,
{
    if j1 < j2 {
        lemma_gc_blocks_prefix(dir, blocks, j1, j2 - 1);
    }
}

/// Garbage collection preserves content: a file descriptor whose section
/// was in range reads back exactly the same data after the collection,
/// because its ciphertext blocks moved verbatim and nonce and MAC moved
/// with them.
pub proof fn lemma_gc_preserves_reads(dir: Seq<Descriptor>, blocks: Seq<Block>, j: int, key: Key)
    requires
        0 <= j < dir.len(),
        !dir[j].spec_is_dir(),
        in_range(dir[j].section, blocks),
        gc_blocks(dir, blocks, dir.len() as int).len() < 0x1_0000_0000,
    ensures
        spec_read_data(
            gc_blocks(dir, blocks, dir.len() as int),
            gc_desc(dir, blocks, j),
            key,
        ) == spec_read_data(blocks, dir[j], key),
{
    let d = dir[j];
    let nd = gc_desc(dir, blocks, j);
    let off = d.section.offset as int;
    let sz = d.section.size as int;
    let total = gc_blocks(dir, blocks, dir.len() as int);
    let placed = gc_blocks(dir, blocks, j);
    let after = gc_blocks(dir, blocks, j + 1);
    assert(after =~= placed + blocks.subrange(off, off + sz));
    lemma_gc_blocks_prefix(dir, blocks, j, dir.len() as int);
    lemma_gc_blocks_prefix(dir, blocks, j + 1, dir.len() as int);
    assert(nd.section.offset as int == placed.len());
    assert(nd.section.size == d.section.size);
    assert(nd.section.nonce == d.section.nonce);
    assert(nd.section.mac == d.section.mac);
    assert(placed.len() + sz <= total.len());
    let new_window = total.subrange(placed.len() as int, placed.len() + sz);
    assert forall|i: int| 0 <= i < sz implies new_window[i] == blocks.subrange(off, off + sz)[i] by {
        assert(total.subrange(0, after.len() as int)[placed.len() + i] == total[placed.len() + i]);
        assert(after[placed.len() + i] == blocks.subrange(off, off + sz)[i]);
    }
    assert(new_window =~= blocks.subrange(off, off + sz));
    assert(new_window == blocks.subrange(off, off + sz));
}

/// A finished archive opens again under its key: the header
/// authenticates and carries the version magic, the directory region is
/// where the header says, and decrypting it gives back exactly the
/// directory that was sealed. This holds for every pair of nonces the
/// sealing may have drawn.
pub proof fn lemma_finish_then_open(
    blocks: Seq<Block>,
    dir: Seq<Descriptor>,
    key: Key,
    dir_nonce: Block,
    hdr_nonce: Block,
)
    requires
        pad_header(blocks).len() + dir.len() * (DESC_BLOCKS as int) < 0x1_0000_0000,
    ensures
        ({
            let fin = spec_finish(blocks, dir, key, dir_nonce, hdr_nonce);
            &&& open_ok(fin, key)
            &&& open_dir_count(fin, key) == dir.len()
            &&& open_dir_plain(fin, key) =~= blocks_of_words(dir_words(dir))
            &&& open_blocks(fin, key) =~= fin.subrange(0, pad_header(blocks).len() as int)
        }),
{
    let padded = pad_header(blocks);
    let hm = padded.len() as int;
    let dir_ct = cipher_blocks(blocks_of_words(dir_words(dir)), key, dir_nonce);
    let dsec = Section {
        offset: hm as u32,
        size: dir.len() as u32,
        nonce: dir_nonce,
        mac: spec_mac(dir_ct, key, dir_nonce),
    };
    let info = crypt::plain_info(dsec);
    let h_ct = crypt::spec_encrypt_info(info, key, hdr_nonce);
    let header = Header {
        nonce: hdr_nonce,
        mac: spec_mac(h_ct, key, hdr_nonce),
        info: spec_parse_info(words_of_blocks(h_ct)),
    };
    let hb = blocks_of_words(crate::records::header_words(header));
    let fin = spec_finish(blocks, dir, key, dir_nonce, hdr_nonce);

    crate::records::lemma_words_of_blocks_len(hb);
    crate::records::lemma_words_blocks_words(crate::records::header_words(header));
    assert(hb.len() == HEADER_BLOCKS);

    crate::records::lemma_dir_words_len(dir);
    crate::records::lemma_blocks_of_words_len(dir_words(dir));
    assert(blocks_of_words(dir_words(dir)).len() == dir.len() * (DESC_BLOCKS as int));
    assert(dir_ct.len() == dir.len() * (DESC_BLOCKS as int));
    assert(fin.len() == hm + dir.len() * (DESC_BLOCKS as int));

    // The header parses back out of the first blocks.
    assert(fin.subrange(0, HEADER_BLOCKS as int) =~= hb);
    assert(fin.subrange(0, HEADER_BLOCKS as int) == hb);
    crate::records::lemma_parse_header_inverse(header);
    assert(open_header(fin) == header);

    // The sealed info decrypts to the plain info, so the MAC matches and
    // the version magic is present.
    crate::records::lemma_blocks_of_words_len(crate::records::info_words(info));
    assert(blocks_of_words(crate::records::info_words(info)).len() == 3);
    assert(h_ct.len() == 3);
    crate::records::lemma_words_of_blocks_len(h_ct);
    crate::records::lemma_info_parse_inverse(words_of_blocks(h_ct));
    assert(crate::records::info_words(header.info) =~= words_of_blocks(h_ct));
    assert(crate::records::info_words(header.info) == words_of_blocks(h_ct));
    crate::records::lemma_blocks_words_blocks(h_ct);
    assert(blocks_of_words(crate::records::info_words(header.info)) =~= h_ct);
    assert(blocks_of_words(crate::records::info_words(header.info)) == h_ct);
    crypt::lemma_cipher_blocks_involution(
        blocks_of_words(crate::records::info_words(info)),
        key,
        hdr_nonce,
    );
    assert(cipher_blocks(h_ct, key, hdr_nonce) =~= blocks_of_words(
        crate::records::info_words(info),
    ));
    assert(cipher_blocks(h_ct, key, hdr_nonce) == blocks_of_words(
        crate::records::info_words(info),
    ));
    crate::records::lemma_words_blocks_words(crate::records::info_words(info));
    assert(crypt::spec_decrypt_info(header, key) == crate::records::info_words(info));
    crate::records::lemma_parse_info_inverse(info);
    assert(open_info(fin, key) == info);
    crate::records::lemma_word_u32s(
        crypt::spec_decrypt_info(header, key)[0],
        crate::records::VERSION,
        0,
    );
    assert(crate::records::spec_word_lo(crypt::spec_decrypt_info(header, key)[0])
        == crate::records::VERSION) by {
        assert(crypt::spec_decrypt_info(header, key)[0] == crate::records::info_words(info)[0]);
        assert(crate::records::info_words(info)[0] == crate::records::spec_word_of_u32s(
            crate::records::VERSION,
            0,
        ));
    }
    assert(crypt::header_ok(header, key));

    // The directory region is exactly the sealed directory ciphertext.
    assert(open_dir_start(fin, key) == hm);
    assert(open_dir_count(fin, key) == dir.len());
    assert(open_dir_end(fin, key) == fin.len());
    assert(open_dir_window(fin, key) =~= dir_ct);
    assert(open_dir_window(fin, key) == dir_ct);
    assert(open_info(fin, key).directory.mac == spec_mac(dir_ct, key, dir_nonce));
    assert(open_ok(fin, key));

    // Decrypting it restores the plain directory blocks.
    crypt::lemma_cipher_blocks_involution(blocks_of_words(dir_words(dir)), key, dir_nonce);
    assert(open_dir_plain(fin, key) =~= blocks_of_words(dir_words(dir)));

    // The opened store trims the directory away.
    assert(open_blocks(fin, key) =~= fin.subrange(0, hm));
}

} // verus!

//! The directory editor: an owned descriptor sequence with lookup,
//! linking, removal and consistency checking.

use vstd::prelude::*;
use vstd::string::StringSliceAdditionalSpecFns;

use crate::dir;
use crate::dir::Art;
use crate::dir::chain_ok;
use crate::dir::component;
use crate::dir::is_chain_desc;
use crate::dir::spec_components;
use crate::dir::spec_find;
use crate::dir::spec_fsck;
use crate::dir::spec_walk;
use crate::records::Descriptor;
use crate::records::Section;
use crate::records::spec_zero_section;

verus! {

/// A descriptor patched to mirror a source file descriptor: content type,
/// content size and section come from the source, name and meta stay.
pub open spec fn link_patch(d: Descriptor, src: Descriptor) -> Descriptor {
    Descriptor {
        content_type: src.content_type,
        content_size: src.content_size,
        section: src.section,
        ..d
    }
}

/// A descriptor patched to an empty directory: zero content type, zero
/// child count, zero section; name and meta stay.
pub open spec fn dir_patch(d: Descriptor) -> Descriptor {
    Descriptor { content_type: 0, content_size: 0, section: spec_zero_section(), ..d }
}

/// The directory after a link was created at `path` to the file
/// descriptor `src`: nothing changes for a directory source or an
/// uncreatable path; an existing descriptor at the path is patched to
/// mirror the source; otherwise the created chain is spliced in with its
/// last element patched to mirror the source.
pub open spec fn link_created(
    pre: Seq<Descriptor>,
    post: Seq<Descriptor>,
    path: Seq<u8>,
    src: Descriptor,
) -> bool {
    let w0 = spec_walk(pre, path, 0, pre.len() as int, 0);
    let inc = spec_components(w0.2);
    if src.spec_is_dir() {
        post =~= pre
    } else if w0.3 {
        post =~= pre.update(w0.1, link_patch(pre[w0.1], src))
    } else if inc == 0 {
        post =~= pre
    } else {
        let w1 = spec_walk(pre, path, 0, pre.len() as int, inc as u32);
        &&& post.len() == pre.len() + inc
        &&& post.subrange(0, w0.1) =~= w1.0.subrange(0, w0.1)
        &&& post.subrange(w0.1 + inc, post.len() as int) =~= w1.0.subrange(
            w0.1,
            pre.len() as int,
        )
        &&& (forall|k: int|
            0 <= k < inc - 1 ==> is_chain_desc(
                #[trigger] post[w0.1 + k],
                component(w0.2, k),
                inc - 1 - k,
            ))
        &&& ({
            let last = post[w0.1 + inc - 1];
            exists|c: Descriptor|
                is_chain_desc(c, component(w0.2, inc - 1), 0) && last == link_patch(c, src)
        })
    }
}

/// The shape of a directory after a create walk: unchanged when the path
/// was already there (or named nothing creatable), else the walked
/// directory with the fresh chain spliced in.
pub open spec fn created_shape(pre: Seq<Descriptor>, post: Seq<Descriptor>, path: Seq<u8>) -> bool {
    let w0 = spec_walk(pre, path, 0, pre.len() as int, 0);
    let inc = spec_components(w0.2);
    if w0.3 || inc == 0 {
        post =~= pre
    } else {
        let w1 = spec_walk(pre, path, 0, pre.len() as int, inc as u32);
        &&& post.len() == pre.len() + inc
        &&& post.subrange(0, w0.1) =~= w1.0.subrange(0, w0.1)
        &&& post.subrange(w0.1 + inc, post.len() as int) =~= w1.0.subrange(
            w0.1,
            pre.len() as int,
        )
        &&& chain_ok(post.subrange(w0.1, w0.1 + inc), w0.2, inc)
    }
}

/// The index of the descriptor that a create walk finds or creates.
pub open spec fn create_index(pre: Seq<Descriptor>, path: Seq<u8>) -> int {
    let w0 = spec_walk(pre, path, 0, pre.len() as int, 0);
    let inc = spec_components(w0.2);
    if w0.3 {
        w0.1
    } else {
        w0.1 + inc - 1
    }
}

/// Directory editor: the flat descriptor sequence of an archive.
#[derive(Clone, Debug)]
pub struct Directory {
    pub descriptors: Vec<Descriptor>,
}

impl View for Directory {
    type V = Seq<Descriptor>;

    open spec fn view(&self) -> Seq<Descriptor> {
        self.descriptors@
    }
}

impl Default for Directory {
    /// The empty directory.
    fn default() -> (r: Directory)
        ensures
            r@ =~= Seq::<Descriptor>::empty(),
    {
        Directory { descriptors: Vec::new() }
    }
}

impl From<Vec<Descriptor>> for Directory {
    fn from(dir: Vec<Descriptor>) -> (r: Directory) {
        Directory { descriptors: dir }
    }
}

impl vstd::std_specs::convert::FromSpecImpl<Vec<Descriptor>> for Directory {
    open spec fn obeys_from_spec() -> bool {
        true
    }

    open spec fn from_spec(dir: Vec<Descriptor>) -> Directory {
        Directory { descriptors: dir }
    }
}

impl From<Directory> for Vec<Descriptor> {
    fn from(this: Directory) -> (r: Vec<Descriptor>) {
        this.descriptors
    }
}

impl vstd::std_specs::convert::FromSpecImpl<Directory> for Vec<Descriptor> {
    open spec fn obeys_from_spec() -> bool {
        true
    }

    open spec fn from_spec(this: Directory) -> Vec<Descriptor> {
        this.descriptors
    }
}

impl Directory {
    /// Creates a new, empty directory.
    pub fn new() -> (r: Directory)
        ensures
            r@ =~= Seq::<Descriptor>::empty(),
    {
        Directory { descriptors: Vec::new() }
    }

    /// The descriptors as a slice.
    pub fn as_ref(&self) -> (r: &[Descriptor])
        ensures
            r@ == self@,
    {
        self.descriptors.as_slice()
    }

    /// Returns whether there are no files or directories.
    pub fn is_empty(&self) -> (r: bool)
        ensures
            r == (self@.len() == 0),
    {
        self.descriptors.is_empty()
    }

    /// Returns the number of descriptors in the directory.
    pub fn len(&self) -> (r: usize)
        ensures
            r == self@.len(),
    {
        self.descriptors.len()
    }

    /// Finds a descriptor by its path.
    pub fn find_desc(&self, path: &[u8]) -> (r: Option<&Descriptor>)
        ensures
            r is Some == spec_find(self@, path@) is Some,
            r matches Some(d) ==> spec_find(self@, path@) matches Some(range) && *d
                == self@[range.0],
    {
        dir::find_desc(self.descriptors.as_slice(), path)
    }

    /// Finds a file descriptor by its path: a path whose first find is a
    /// directory yields nothing.
    pub fn find_file(&self, path: &[u8]) -> (r: Option<&Descriptor>)
        ensures
            r is Some == (spec_find(self@, path@) matches Some(range)
                && !self@[range.0].spec_is_dir()),
            r matches Some(d) ==> spec_find(self@, path@) matches Some(range) && *d
                == self@[range.0],
    {
        match dir::find_desc(self.descriptors.as_slice(), path) {
            Some(desc) => if desc.is_file() {
                Some(desc)
            } else {
                None
            },
            None => None,
        }
    }

    /// Gets the child descriptors of the directory at the given path; the
    /// empty path names the root.
    pub fn get_children(&self, path: &[u8]) -> (r: Option<&[Descriptor]>)
        ensures
            path@.len() == 0 ==> (r matches Some(s) && s@ == self@),
            path@.len() != 0 ==> (match r {
                Some(s) => spec_find(self@, path@) matches Some(range) && s@ == self@.subrange(
                    range.0 + 1,
                    range.1,
                ),
                None => spec_find(self@, path@) is None,
            }),
    {
        dir::find_dir(self.descriptors.as_slice(), path)
    }

    /// Renders the directory as a listing rooted at `.`, using the
    /// box-drawing art.
    pub fn display(&self) -> (r: String)
        ensures
            ({
                let art = dir::spec_art_unicode();
                r@ == dir::spec_display(".", self@, art)
            }),
    {
        let art = dir::art_unicode();
        dir::to_string(".", self.descriptors.as_slice(), &art)
    }

    /// File system consistency check: structural errors are described in
    /// the log and the overall verdict is returned. The high mark is the
    /// lowest block index that no file section may reach.
    pub fn fsck(&self, high_mark: u32, log: &mut String) -> (r: bool)
        ensures
            r == spec_fsck(self@, high_mark),
            old(log)@.is_prefix_of(final(log)@),
    {
        dir::fsck(self.descriptors.as_slice(), high_mark, log)
    }

    /// Creates a descriptor at the given path, for internal use; see
    /// [`dir::create`].
    pub(crate) fn create(&mut self, path: &[u8]) -> (r: Option<usize>)
        requires
            old(self)@.len() + path@.len() < usize::MAX,
            path@.len() < 0xFFFF_FFFFusize,
        ensures
            ({
                let w0 = spec_walk(old(self)@, path@, 0, old(self)@.len() as int, 0);
                let inc = spec_components(w0.2);
                if w0.3 {
                    &&& r matches Some(x) && x as int == w0.1
                    &&& final(self)@ =~= old(self)@
                } else if inc == 0 {
                    &&& r is None
                    &&& final(self)@ =~= old(self)@
                } else {
                    let w1 = spec_walk(old(self)@, path@, 0, old(self)@.len() as int, inc as u32);
                    &&& r matches Some(x) && x as int == w0.1 + inc - 1
                    &&& final(self)@.len() == old(self)@.len() + inc
                    &&& final(self)@.subrange(0, w0.1) =~= w1.0.subrange(0, w0.1)
                    &&& final(self)@.subrange(w0.1 + inc, final(self)@.len() as int)
                        =~= w1.0.subrange(w0.1, old(self)@.len() as int)
                    &&& chain_ok(final(self)@.subrange(w0.1, w0.1 + inc), w0.2, inc)
                }
            }),
    {
        dir::create(&mut self.descriptors, path)
    }

    /// Creates a link at the given path to the given file descriptor:
    /// the new descriptor mirrors the source's content type, size and
    /// section, so both reference the same payload blocks. Missing parent
    /// directories are created. Nothing happens if the source is not a
    /// file descriptor, or the path names nothing creatable.
    pub fn create_link(&mut self, path: &[u8], file_desc: &Descriptor)
        requires
            old(self)@.len() + path@.len() < usize::MAX,
            path@.len() < 0xFFFF_FFFFusize,
        ensures
            link_created(old(self)@, final(self)@, path@, *file_desc),
    {
        if file_desc.is_file() {
            let ghost pre = self@;
            match dir::create(&mut self.descriptors, path) {
                Some(i) => {
                    let ghost smid = self@;
                    proof {
                        dir::lemma_walk_frame(pre, path@, 0, pre.len() as int, 0);
                    }
                    let d = self.descriptors[i];
                    let nd = Descriptor {
                        content_type: file_desc.content_type,
                        content_size: file_desc.content_size,
                        section: file_desc.section,
                        ..d
                    };
                    proof {
                        assert(nd == link_patch(d, *file_desc));
                    }
                    self.descriptors[i] = nd;
                    proof {
                        let w0 = spec_walk(pre, path@, 0, pre.len() as int, 0);
                        let inc = spec_components(w0.2);
                        if w0.3 {
                            assert(smid =~= pre);
                            assert(self@ =~= pre.update(w0.1, link_patch(pre[w0.1], *file_desc)));
                        } else {
                            assert(self@ =~= smid.update(w0.1 + inc - 1, nd));
                            assert(self@.subrange(0, w0.1) =~= smid.subrange(0, w0.1));
                            assert(self@.subrange(w0.1 + inc, self@.len() as int)
                                =~= smid.subrange(w0.1 + inc, smid.len() as int));
                            assert forall|k: int| 0 <= k < inc - 1 implies is_chain_desc(
                                #[trigger] self@[w0.1 + k],
                                component(w0.2, k),
                                inc - 1 - k,
                            ) by {
                                assert(smid.subrange(w0.1, w0.1 + inc)[k] == smid[w0.1 + k]);
                                assert(self@[w0.1 + k] == smid[w0.1 + k]);
                            }
                            assert(smid.subrange(w0.1, w0.1 + inc)[inc - 1] == d);
                            assert(is_chain_desc(d, component(w0.2, inc - 1), 0));
                            assert(self@[w0.1 + inc - 1] == link_patch(d, *file_desc));
                        }
                    }
                },
                None => {},
            }
        }
    }

    /// Creates an empty directory descriptor at the given path. Missing
    /// parent directories are created. An existing descriptor at the
    /// path is reset to an empty directory.
    pub fn create_dir(&mut self, path: &[u8])
        requires
            old(self)@.len() + path@.len() < usize::MAX,
            path@.len() < 0xFFFF_FFFFusize,
        ensures
            ({
                let w0 = spec_walk(old(self)@, path@, 0, old(self)@.len() as int, 0);
                let inc = spec_components(w0.2);
                if w0.3 {
                    final(self)@ =~= old(self)@.update(w0.1, dir_patch(old(self)@[w0.1]))
                } else if inc == 0 {
                    final(self)@ =~= old(self)@
                } else {
                    let w1 = spec_walk(old(self)@, path@, 0, old(self)@.len() as int, inc as u32);
                    &&& final(self)@.len() == old(self)@.len() + inc
                    &&& final(self)@.subrange(0, w0.1) =~= w1.0.subrange(0, w0.1)
                    &&& final(self)@.subrange(w0.1 + inc, final(self)@.len() as int)
                        =~= w1.0.subrange(w0.1, old(self)@.len() as int)
                    &&& forall|k: int|
                        0 <= k < inc - 1 ==> is_chain_desc(
                            #[trigger] final(self)@[w0.1 + k],
                            component(w0.2, k),
                            inc - 1 - k,
                        )
                    &&& ({
                        let pre = final(self)@[w0.1 + inc - 1];
                        exists|c: Descriptor|
                            is_chain_desc(c, component(w0.2, inc - 1), 0) && pre == dir_patch(c)
                    })
                }
            }),
    {
        let ghost pre = self@;
        match dir::create(&mut self.descriptors, path) {
            Some(i) => {
                let ghost smid = self@;
                proof {
                    dir::lemma_walk_frame(pre, path@, 0, pre.len() as int, 0);
                }
                let d = self.descriptors[i];
                let nd = Descriptor {
                    content_type: 0,
                    content_size: 0,
                    section: Section::default(),
                    ..d
                };
                proof {
                    assert(nd == dir_patch(d));
                }
                self.descriptors[i] = nd;
                proof {
                    let w0 = spec_walk(pre, path@, 0, pre.len() as int, 0);
                    let inc = spec_components(w0.2);
                    if w0.3 {
                        assert(smid =~= pre);
                        assert(self@ =~= pre.update(w0.1, dir_patch(pre[w0.1])));
                    } else {
                        assert(self@ =~= smid.update(w0.1 + inc - 1, nd));
                        assert(self@.subrange(0, w0.1) =~= smid.subrange(0, w0.1));
                        assert(self@.subrange(w0.1 + inc, self@.len() as int) =~= smid.subrange(
                            w0.1 + inc,
                            smid.len() as int,
                        ));
                        assert forall|k: int| 0 <= k < inc - 1 implies is_chain_desc(
                            #[trigger] self@[w0.1 + k],
                            component(w0.2, k),
                            inc - 1 - k,
                        ) by {
                            assert(smid.subrange(w0.1, w0.1 + inc)[k] == smid[w0.1 + k]);
                            assert(self@[w0.1 + k] == smid[w0.1 + k]);
                        }
                        assert(smid.subrange(w0.1, w0.1 + inc)[inc - 1] == d);
                        assert(is_chain_desc(d, component(w0.2, inc - 1), 0));
                        assert(self@[w0.1 + inc - 1] == dir_patch(d));
                    }
                }
            },
            None => {},
        }
    }

    /// Removes the descriptor at the given path; see [`dir::remove`].
    /// Removal of a path that is not present is a no-op.
    pub fn remove(&mut self, path: &[u8]) -> (r: Option<Descriptor>)
        ensures
            ({
                let w0 = spec_walk(old(self)@, path@, 0, old(self)@.len() as int, 0);
                if !w0.3 {
                    r is None && final(self)@ =~= old(self)@
                } else {
                    let w1 = spec_walk(
                        old(self)@,
                        path@,
                        0,
                        old(self)@.len() as int,
                        0xFFFF_FFFFu32,
                    );
                    r == Some(old(self)@[w0.1]) && final(self)@ =~= w1.0.remove(w0.1)
                }
            }),
    {
        dir::remove(&mut self.descriptors, path)
    }

    /// Moves a file descriptor from the source path to the destination
    /// path. Directory descriptors cannot be moved; returns whether the
    /// move took place.
    pub fn move_file(&mut self, src_path: &[u8], dest_path: &[u8]) -> (r: bool)
        requires
            old(self)@.len() + dest_path@.len() < usize::MAX,
            dest_path@.len() < 0xFFFF_FFFFusize,
        ensures
            ({
                let found_file = spec_find(old(self)@, src_path@) matches Some(rg) && !old(
                    self,
                )@[rg.0].spec_is_dir();
                let w0 = spec_walk(old(self)@, src_path@, 0, old(self)@.len() as int, 0);
                if !found_file || !w0.3 {
                    !r && final(self)@ =~= old(self)@
                } else {
                    let w1 = spec_walk(
                        old(self)@,
                        src_path@,
                        0,
                        old(self)@.len() as int,
                        0xFFFF_FFFFu32,
                    );
                    let mid = w1.0.remove(w0.1);
                    let deleted = old(self)@[w0.1];
                    &&& r == !deleted.spec_is_dir()
                    &&& link_created(mid, final(self)@, dest_path@, deleted)
                }
            }),
    {
        let is_file = match dir::find_desc(self.descriptors.as_slice(), src_path) {
            Some(src_desc) => src_desc.is_file(),
            None => false,
        };
        if !is_file {
            return false;
        }
        let ghost pre = self@;
        let deleted = match dir::remove(&mut self.descriptors, src_path) {
            Some(deleted) => deleted,
            None => {
                return false;
            },
        };
        proof {
            dir::lemma_walk_frame(pre, src_path@, 0, pre.len() as int, 0);
            dir::lemma_walk_frame(pre, src_path@, 0, pre.len() as int, 0xFFFF_FFFFu32);
        }
        self.create_link(dest_path, &deleted);
        return deleted.content_type != 0;
    }
}

} // verus!

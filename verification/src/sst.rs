//! Reading tables.
//!
//! A table is opened from its end: the footer says where the metaindex block
//! is, that one where the index block is, and the index leads to the data
//! blocks. `SstOpening` says which bytes of the file it needs next, so a
//! caller can fetch them however it likes; `SstReader` is what comes out.

use crate::entry::{
    copy_bytes, lemma_visit_all_concat, same_bytes, visit_all, Entry, EntryVisitor,
};
use crate::error::FormatError;
use crate::format::block::{
    block_contents, block_entries, decode_block_contents, for_each_entry, parse_block, parsed,
    unless_fault, ParsedBlock,
};
use crate::format::footer::{
    decode_block_handle, decode_footer, footer_at, handle_at, BlockHandle, Footer,
    BLOCK_TRAILER_SIZE, FOOTER_TAIL_LEN,
};
use crate::format::index::{
    for_each_index_entry, handles_of, index_block_entries, lemma_collect_handles, HandleList,
};
use crate::format::properties::INDEX_BLOCK_NAME;
use vstd::prelude::*;
use vstd::slice::slice_subrange;
use vstd::string::*;

verus! {

/// The entry bytes and the restart array of a block.
pub type BlockParts = (Seq<u8>, Seq<u32>);

/// The contents of the block at `handle`, whose stored bytes are `raw`, taken
/// apart.
pub open spec fn block_parts(raw: Seq<u8>, footer: Footer, handle: BlockHandle) -> Result<
    BlockParts,
    FormatError,
> {
    match block_contents(raw, handle, footer.checksum_type, footer.base_context_checksum) {
        Err(e) => Err(e),
        Ok(contents) => parsed(contents),
    }
}

/// The handle under `name` in a metaindex: of the first entry of that name
/// whose value is a handle.
pub open spec fn first_named(entries: Seq<Entry>, name: Seq<u8>) -> Option<BlockHandle>
    decreases entries.len(),
{
    if entries.len() == 0 {
        None
    } else {
        match first_named(entries.drop_last(), name) {
            Some(handle) => Some(handle),
            None => if entries.last().0 == name {
                match handle_at(entries.last().1, 0) {
                    Some((handle, _)) => Some(handle),
                    None => None,
                }
            } else {
                None
            },
        }
    }
}

/// Whether no two entries have the key `name`.
pub open spec fn named_once(entries: Seq<Entry>, name: Seq<u8>) -> bool {
    forall|i: int, j: int|
        0 <= i < entries.len() && 0 <= j < entries.len() && #[trigger] entries[i].0 == name
            && #[trigger] entries[j].0 == name ==> i == j
}

/// The handle under `name` in the metaindex block with these entry bytes.
pub open spec fn meta_handle(entry_bytes: Seq<u8>, name: Seq<u8>) -> Result<
    Option<BlockHandle>,
    FormatError,
> {
    let (entries, fault) = block_entries(entry_bytes);
    match fault {
        Some(e) => Err(e),
        None => Ok(first_named(entries, name)),
    }
}

/// Where the index block is: as the footer says, or else the metaindex.
pub open spec fn index_handle_of(footer: Footer, metaindex: BlockParts) -> Result<
    BlockHandle,
    FormatError,
> {
    match footer.index_handle {
        Some(handle) => Ok(handle),
        None => match meta_handle(metaindex.0, INDEX_BLOCK_NAME.spec_bytes()) {
            Err(e) => Err(e),
            Ok(None) => Err(FormatError::IndexHandleMissing),
            Ok(Some(handle)) => Ok(handle),
        },
    }
}

/// A part of a file: `len` bytes from `offset` on.
#[derive(Debug, Clone, Copy, PartialEq, Eq, Structural)]
pub struct ReadRequest {
    pub offset: u64,
    pub len: usize,
}

impl ReadRequest {
    /// The bytes that answer the request.
    pub open spec fn of(self, file: Seq<u8>) -> Seq<u8> {
        file.subrange(self.offset as int, self.offset + self.len)
    }

    /// Whether a file of so many bytes has them.
    pub open spec fn inside(self, file_size: int) -> bool {
        self.offset + self.len <= file_size
    }
}

/// The part of a file of `file_size` bytes that holds a block and its trailer.
pub open spec fn block_request(handle: BlockHandle, file_size: u64) -> Result<
    ReadRequest,
    FormatError,
> {
    if handle.offset + handle.size + BLOCK_TRAILER_SIZE > file_size || handle.size
        + BLOCK_TRAILER_SIZE > usize::MAX {
        Err(FormatError::BlockOutOfFile { offset: handle.offset })
    } else {
        Ok(ReadRequest { offset: handle.offset, len: (handle.size + BLOCK_TRAILER_SIZE) as usize })
    }
}

/// Computes `block_request`.
pub fn request_block(handle: BlockHandle, file_size: u64) -> (r: Result<ReadRequest, FormatError>)
    ensures
        r == block_request(handle, file_size),
{
    let end: u128 = handle.offset as u128 + handle.size as u128 + BLOCK_TRAILER_SIZE as u128;
    let len: u128 = handle.size as u128 + BLOCK_TRAILER_SIZE as u128;
    if end > file_size as u128 || len > usize::MAX as u128 {
        Err(FormatError::BlockOutOfFile { offset: handle.offset })
    } else {
        Ok(ReadRequest { offset: handle.offset, len: len as usize })
    }
}

/// The block at `handle` of a file, taken apart.
pub open spec fn file_block(file: Seq<u8>, footer: Footer, handle: BlockHandle) -> Result<
    BlockParts,
    FormatError,
> {
    match block_request(handle, file.len() as u64) {
        Err(e) => Err(e),
        Ok(request) => block_parts(request.of(file), footer, handle),
    }
}

/// The footer, the metaindex block and the index block of a file.
pub open spec fn opened(file: Seq<u8>) -> Result<(Footer, BlockParts, BlockParts), FormatError> {
    if file.len() < FOOTER_TAIL_LEN {
        Err(FormatError::FileTooShort)
    } else {
        match footer_at(file.skip(file.len() - FOOTER_TAIL_LEN), file.len() as u64) {
            Err(e) => Err(e),
            Ok(footer) => match file_block(file, footer, footer.metaindex_handle) {
                Err(e) => Err(e),
                Ok(metaindex) => match index_handle_of(footer, metaindex) {
                    Err(e) => Err(e),
                    Ok(handle) => match file_block(file, footer, handle) {
                        Err(e) => Err(e),
                        Ok(index) => Ok((footer, metaindex, index)),
                    },
                },
            },
        }
    }
}

/// The handles of the data blocks that an index leads to.
pub open spec fn data_handles_of(index: BlockParts) -> Result<Seq<BlockHandle>, FormatError> {
    let (entries, fault) = index_block_entries(index.0, index.1);
    match fault {
        Some(e) => Err(e),
        None => Ok(handles_of(entries)),
    }
}

/// The entries in a data block whose stored bytes are `raw`, up to the first
/// fault.
pub open spec fn stored_entries(raw: Seq<u8>, footer: Footer, handle: BlockHandle) -> (
    Seq<Entry>,
    Option<FormatError>,
) {
    match block_parts(raw, footer, handle) {
        Err(e) => (Seq::empty(), Some(e)),
        Ok((entry_bytes, _)) => block_entries(entry_bytes),
    }
}

/// The entries in the data block at `handle`, up to the first fault.
pub open spec fn file_block_entries(file: Seq<u8>, footer: Footer, handle: BlockHandle) -> (
    Seq<Entry>,
    Option<FormatError>,
) {
    match block_request(handle, file.len() as u64) {
        Err(e) => (Seq::empty(), Some(e)),
        Ok(request) => stored_entries(request.of(file), footer, handle),
    }
}

/// The entries in some data blocks, up to the first fault.
pub open spec fn file_entries(file: Seq<u8>, footer: Footer, handles: Seq<BlockHandle>) -> (
    Seq<Entry>,
    Option<FormatError>,
)
    decreases handles.len(),
{
    if handles.len() == 0 {
        (Seq::empty(), None)
    } else {
        let before = file_entries(file, footer, handles.drop_last());
        if before.1 is Some {
            before
        } else {
            let found = file_block_entries(file, footer, handles.last());
            (before.0 + found.0, found.1)
        }
    }
}

/// The entries of a table, up to the first fault.
pub open spec fn table_entries(file: Seq<u8>) -> (Seq<Entry>, Option<FormatError>) {
    match opened(file) {
        Err(e) => (Seq::empty(), Some(e)),
        Ok((footer, _, index)) => match data_handles_of(index) {
            Err(e) => (Seq::empty(), Some(e)),
            Ok(handles) => file_entries(file, footer, handles),
        },
    }
}

/// Looks for a name in a metaindex.
struct HandleFinder<'a> {
    name: &'a [u8],
    found: Option<BlockHandle>,
}

impl<'a> EntryVisitor for HandleFinder<'a> {
    type State = (Seq<u8>, Option<BlockHandle>);

    closed spec fn ready(&self) -> bool {
        true
    }

    closed spec fn state(&self) -> (Seq<u8>, Option<BlockHandle>) {
        (self.name@, self.found)
    }

    closed spec fn after(
        state: (Seq<u8>, Option<BlockHandle>),
        key: Seq<u8>,
        value: Seq<u8>,
    ) -> (Seq<u8>, Option<BlockHandle>) {
        (
            state.0,
            match state.1 {
                Some(handle) => Some(handle),
                None => if key == state.0 {
                    match handle_at(value, 0) {
                        Some((handle, _)) => Some(handle),
                        None => None,
                    }
                } else {
                    None
                },
            },
        )
    }

    fn visit(&mut self, key: &[u8], value: &[u8]) {
        if self.found.is_none() && same_bytes(key, self.name) {
            let mut pos: usize = 0;
            self.found = decode_block_handle(value, &mut pos);
        }
    }
}

proof fn lemma_finder_finds<'a>(name: Seq<u8>, entries: Seq<Entry>)
    ensures
        visit_all::<HandleFinder<'a>>((name, None), entries) == (name, first_named(entries, name)),
    decreases entries.len(),
{
    if entries.len() > 0 {
        lemma_finder_finds(name, entries.drop_last());
    }
}

/// Finds the handle under `name` in a metaindex block.
pub fn find_meta_handle(metaindex: &ParsedBlock, name: &str) -> (r: Result<
    Option<BlockHandle>,
    FormatError,
>)
    requires
        metaindex.wf(),
    ensures
        r == meta_handle(metaindex.entry_bytes(), name.spec_bytes()),
{
    let mut scratch: Vec<u8> = Vec::new();
    let mut finder = HandleFinder { name: name.as_bytes(), found: None };
    match for_each_entry(metaindex, &mut scratch, &mut finder) {
        Err(e) => Err(e),
        Ok(_) => {
            proof {
                lemma_finder_finds(
                    name.spec_bytes(),
                    block_entries(metaindex.entry_bytes()).0,
                );
            }
            Ok(finder.found)
        },
    }
}

/// Decodes a stored block and takes it apart.
fn decode_and_parse(raw: Vec<u8>, footer: &Footer, handle: BlockHandle) -> (r: Result<
    ParsedBlock,
    FormatError,
>)
    ensures
        match block_parts(raw@, *footer, handle) {
            Err(e) => r matches Err(f) && f == e,
            Ok(parts) => {
                &&& r matches Ok(block)
                &&& block.wf()
                &&& (block.entry_bytes(), block.restarts@) == parts
            },
        },
{
    match decode_block_contents(raw, handle, footer.checksum_type, footer.base_context_checksum) {
        Err(e) => Err(e),
        Ok(contents) => parse_block(contents),
    }
}

/// A table whose footer, metaindex block and index block have been read.
pub struct SstReader {
    pub footer: Footer,
    pub metaindex: ParsedBlock,
    pub index: ParsedBlock,
}

impl SstReader {
    /// What holds of every reader.
    pub open spec fn inv(&self) -> bool {
        self.metaindex.wf() && self.index.wf()
    }

    pub open spec fn metaindex_parts(&self) -> BlockParts {
        (self.metaindex.entry_bytes(), self.metaindex.restarts@)
    }

    pub open spec fn index_parts(&self) -> BlockParts {
        (self.index.entry_bytes(), self.index.restarts@)
    }

    /// Whether this is the reader of `file`.
    pub open spec fn reads(&self, file: Seq<u8>) -> bool {
        opened(file) == Ok::<_, FormatError>(
            (self.footer, self.metaindex_parts(), self.index_parts()),
        )
    }

    /// Opens a table that is in memory.
    pub fn open(file: &[u8]) -> (r: Result<SstReader, FormatError>)
        ensures
            match opened(file@) {
                Err(e) => r matches Err(f) && f == e,
                Ok(_) => r matches Ok(reader) && reader.inv() && reader.reads(file@),
            },
    {
        let (opening, request) = match SstOpening::start(file.len() as u64) {
            Err(e) => {
                return Err(e);
            },
            Ok(step) => step,
        };
        let tail = slice_at(file, request);
        assert(tail@ =~= file@.skip(file@.len() - FOOTER_TAIL_LEN));
        let (opening, request) = match opening.resume(tail) {
            Err(e) => {
                return Err(e);
            },
            Ok(OpenStep::Opened(reader)) => {
                return Ok(reader);
            },
            Ok(OpenStep::Read(opening, request)) => (opening, request),
        };
        let raw = slice_at(file, request);
        let (opening, request) = match opening.resume(raw) {
            Err(e) => {
                return Err(e);
            },
            Ok(OpenStep::Opened(reader)) => {
                return Ok(reader);
            },
            Ok(OpenStep::Read(opening, request)) => (opening, request),
        };
        let raw = slice_at(file, request);
        match opening.resume(raw) {
            Err(e) => Err(e),
            Ok(OpenStep::Opened(reader)) => Ok(reader),
            Ok(OpenStep::Read(_, _)) => Err(FormatError::IndexHandleMissing),
        }
    }

    /// Finds the handle of a block by its name, such as the properties block.
    pub fn find_meta_block_handle(&self, name: &str) -> (r: Result<
        Option<BlockHandle>,
        FormatError,
    >)
        requires
            self.inv(),
        ensures
            r == meta_handle(self.metaindex_parts().0, name.spec_bytes()),
    {
        find_meta_handle(&self.metaindex, name)
    }

    /// The handles of the data blocks, in order.
    pub fn data_handles(&self) -> (r: Result<Vec<BlockHandle>, FormatError>)
        requires
            self.inv(),
        ensures
            match data_handles_of(self.index_parts()) {
                Err(e) => r matches Err(f) && f == e,
                Ok(handles) => r matches Ok(found) && found@ == handles,
            },
    {
        let mut scratch: Vec<u8> = Vec::new();
        let mut list = HandleList::new();
        match for_each_index_entry(&self.index, &mut scratch, &mut list) {
            Err(e) => Err(e),
            Ok(_) => {
                proof {
                    let entries = index_block_entries(
                        self.index.entry_bytes(),
                        self.index.restarts@,
                    ).0;
                    lemma_collect_handles(Seq::empty(), entries);
                    assert(Seq::<BlockHandle>::empty() + handles_of(entries) =~= handles_of(
                        entries,
                    ));
                }
                Ok(list.handles)
            },
        }
    }

    /// Visits the entries of the data block at `handle`, whose stored bytes
    /// are `raw`.
    pub fn visit_block<V: EntryVisitor>(
        &self,
        raw: Vec<u8>,
        handle: BlockHandle,
        key_scratch: &mut Vec<u8>,
        f: &mut V,
    ) -> (r: Result<(), FormatError>)
        requires
            self.inv(),
            old(f).ready(),
        ensures
            final(f).ready(),
            final(f).state() == visit_all::<V>(
                old(f).state(),
                stored_entries(raw@, self.footer, handle).0,
            ),
            r == unless_fault(stored_entries(raw@, self.footer, handle).1),
    {
        match decode_and_parse(raw, &self.footer, handle) {
            Err(e) => Err(e),
            Ok(block) => for_each_entry(&block, key_scratch, f),
        }
    }

    /// Visits every entry of the table, in file order. `file` holds the whole
    /// file that the table was opened from.
    pub fn for_each_entry<V: EntryVisitor>(&self, file: &[u8], f: &mut V) -> (r: Result<
        (),
        FormatError,
    >)
        requires
            self.inv(),
            self.reads(file@),
            old(f).ready(),
        ensures
            final(f).ready(),
            final(f).state() == visit_all::<V>(old(f).state(), table_entries(file@).0),
            r == unless_fault(table_entries(file@).1),
    {
        let handles = match self.data_handles() {
            Err(e) => {
                return Err(e);
            },
            Ok(handles) => handles,
        };
        let mut key_scratch: Vec<u8> = Vec::new();
        let ghost all = handles@;
        let ghost found = file_entries(file@, self.footer, all);
        let mut i: usize = 0;
        assert(all.take(0) =~= Seq::<BlockHandle>::empty());
        while i < handles.len()
            invariant
                i <= handles@.len(),
                all == handles@,
                self.inv(),
                f.ready(),
                found == file_entries(file@, self.footer, all),
                file_entries(file@, self.footer, all.take(i as int)).1 is None,
                f.state() == visit_all::<V>(
                    old(f).state(),
                    file_entries(file@, self.footer, all.take(i as int)).0,
                ),
                found == table_entries(file@),
            decreases handles@.len() - i,
        {
            let handle = handles[i];
            let ghost before = file_entries(file@, self.footer, all.take(i as int));
            let ghost here = file_block_entries(file@, self.footer, handle);
            proof {
                assert(all.take(i + 1).drop_last() =~= all.take(i as int));
                assert(all.take(i + 1).last() == handle);
                lemma_visit_all_concat::<V>(old(f).state(), before.0, here.0);
                if here.1 is Some {
                    lemma_fault_stays(file@, self.footer, all, i + 1);
                }
                assert(before.0 + Seq::<Entry>::empty() =~= before.0);
            }
            let request = match request_block(handle, file.len() as u64) {
                Err(e) => {
                    return Err(e);
                },
                Ok(request) => request,
            };
            let raw = slice_at(file, request);
            match self.visit_block(raw, handle, &mut key_scratch, f) {
                Err(e) => {
                    return Err(e);
                },
                Ok(_) => {},
            }
            i = i + 1;
        }
        assert(all.take(i as int) =~= all);
        Ok(())
    }
}

/// After a fault no further block is looked at.
proof fn lemma_fault_stays(file: Seq<u8>, footer: Footer, handles: Seq<BlockHandle>, k: int)
    requires
        0 <= k <= handles.len(),
        file_entries(file, footer, handles.take(k)).1 is Some,
    ensures
        file_entries(file, footer, handles) == file_entries(file, footer, handles.take(k)),
    decreases handles.len(),
{
    if k == handles.len() {
        assert(handles.take(k) =~= handles);
    } else {
        assert(handles.drop_last().take(k) =~= handles.take(k));
        lemma_fault_stays(file, footer, handles.drop_last(), k);
    }
}

/// A copy of the bytes that answer a request.
fn slice_at(file: &[u8], request: ReadRequest) -> (r: Vec<u8>)
    requires
        request.inside(file@.len() as int),
    ensures
        r@ == request.of(file@),
{
    assert(file.len() == file@.len());
    let start: usize = request.offset as usize;
    copy_bytes(slice_subrange(file, start, start + request.len))
}

/// A table that is being opened, and what it waits for.
pub enum SstOpening {
    Footer { file_size: u64 },
    Metaindex { file_size: u64, footer: Footer },
    Index { footer: Footer, metaindex: ParsedBlock, handle: BlockHandle },
}

/// What follows from the bytes that were asked for.
pub enum OpenStep {
    /// More bytes are needed.
    Read(SstOpening, ReadRequest),
    /// The table is open.
    Opened(SstReader),
}

impl SstOpening {
    pub open spec fn inv(&self) -> bool {
        match self {
            SstOpening::Footer { .. } | SstOpening::Metaindex { .. } => true,
            SstOpening::Index { metaindex, .. } => metaindex.wf(),
        }
    }

    /// Starts to open a file of `file_size` bytes: its footer is needed first.
    pub fn start(file_size: u64) -> (r: Result<(SstOpening, ReadRequest), FormatError>)
        ensures
            file_size < FOOTER_TAIL_LEN ==> r == Err::<(SstOpening, ReadRequest), FormatError>(
                FormatError::FileTooShort,
            ),
            file_size >= FOOTER_TAIL_LEN ==> r == Ok::<(SstOpening, ReadRequest), FormatError>(
                (
                    SstOpening::Footer { file_size },
                    ReadRequest {
                        offset: (file_size - FOOTER_TAIL_LEN) as u64,
                        len: FOOTER_TAIL_LEN,
                    },
                ),
            ),
    {
        if file_size < FOOTER_TAIL_LEN as u64 {
            return Err(FormatError::FileTooShort);
        }
        Ok(
            (
                SstOpening::Footer { file_size },
                ReadRequest { offset: file_size - FOOTER_TAIL_LEN as u64, len: FOOTER_TAIL_LEN },
            ),
        )
    }

    /// Goes on with the bytes that were asked for.
    pub fn resume(self, bytes: Vec<u8>) -> (r: Result<OpenStep, FormatError>)
        requires
            self.inv(),
        ensures
            match self {
                SstOpening::Footer { file_size } => match footer_at(bytes@, file_size) {
                    Err(e) => r matches Err(f) && f == e,
                    Ok(footer) => match block_request(footer.metaindex_handle, file_size) {
                        Err(e) => r matches Err(f) && f == e,
                        Ok(request) => r == Ok::<OpenStep, FormatError>(
                            OpenStep::Read(SstOpening::Metaindex { file_size, footer }, request),
                        ),
                    },
                },
                SstOpening::Metaindex { file_size, footer } => match block_parts(
                    bytes@,
                    footer,
                    footer.metaindex_handle,
                ) {
                    Err(e) => r matches Err(f) && f == e,
                    Ok(parts) => match index_handle_of(footer, parts) {
                        Err(e) => r matches Err(f) && f == e,
                        Ok(handle) => match block_request(handle, file_size) {
                            Err(e) => r matches Err(f) && f == e,
                            Ok(request) => {
                                &&& r matches Ok(OpenStep::Read(next, asked))
                                &&& asked == request
                                &&& next.inv()
                                &&& next matches SstOpening::Index {
                                    footer: same_footer,
                                    metaindex,
                                    handle: same_handle,
                                }
                                &&& same_footer == footer
                                &&& same_handle == handle
                                &&& (metaindex.entry_bytes(), metaindex.restarts@) == parts
                            },
                        },
                    },
                },
                SstOpening::Index { footer, metaindex, handle } => match block_parts(
                    bytes@,
                    footer,
                    handle,
                ) {
                    Err(e) => r matches Err(f) && f == e,
                    Ok(parts) => {
                        &&& r matches Ok(OpenStep::Opened(reader))
                        &&& reader.inv()
                        &&& reader.footer == footer
                        &&& reader.metaindex_parts() == (
                            metaindex.entry_bytes(),
                            metaindex.restarts@,
                        )
                        &&& reader.index_parts() == parts
                    },
                },
            },
    {
        match self {
            SstOpening::Footer { file_size } => {
                let footer = match decode_footer(bytes.as_slice(), file_size) {
                    Err(e) => {
                        return Err(e);
                    },
                    Ok(footer) => footer,
                };
                match request_block(footer.metaindex_handle, file_size) {
                    Err(e) => Err(e),
                    Ok(request) => Ok(
                        OpenStep::Read(SstOpening::Metaindex { file_size, footer }, request),
                    ),
                }
            },
            SstOpening::Metaindex { file_size, footer } => {
                let metaindex = match decode_and_parse(bytes, &footer, footer.metaindex_handle) {
                    Err(e) => {
                        return Err(e);
                    },
                    Ok(block) => block,
                };
                let handle = match footer.index_handle {
                    Some(handle) => handle,
                    None => match find_meta_handle(&metaindex, INDEX_BLOCK_NAME) {
                        Err(e) => {
                            return Err(e);
                        },
                        Ok(None) => {
                            return Err(FormatError::IndexHandleMissing);
                        },
                        Ok(Some(handle)) => handle,
                    },
                };
                match request_block(handle, file_size) {
                    Err(e) => Err(e),
                    Ok(request) => Ok(
                        OpenStep::Read(SstOpening::Index { footer, metaindex, handle }, request),
                    ),
                }
            },
            SstOpening::Index { footer, metaindex, handle } => {
                match decode_and_parse(bytes, &footer, handle) {
                    Err(e) => Err(e),
                    Ok(index) => Ok(OpenStep::Opened(SstReader { footer, metaindex, index })),
                }
            },
        }
    }
}

} // verus!

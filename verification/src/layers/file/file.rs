//! The single file under every file layer: a header, then the layer's data.
//!
//! The layer works on the bytes of the file. Whoever holds the handle reads
//! the file before opening it and writes the bytes back when they change.
use crate::errors::Error;
use crate::layers::file::header::{
    header, header_of, lemma_header_sound, owner, sound, stated_flags, stated_pid, stated_typ,
    verify, HEADER_SIZE,
};
use crate::types::key::zeros;
use vstd::prelude::*;
use vstd::slice::slice_subrange;

verus! {

/// A layer that keeps its records in a file of its own type.
pub trait FileLayer {
    /// The type that the layer writes into the header of its files.
    const TYPE: u8;
}

/// How opening a file ends.
pub enum Opening {
    /// The file is open, with these bytes, this type and these flags.
    Ready(Seq<u8>, u8, u16),
    /// The file is too short to hold a header.
    Short,
    /// The header is damaged or not the one asked for, or there is neither
    /// a file nor a type to make one with.
    Unsound,
    /// Another process has the file open.
    Foreign,
}

/// How the process `pid` fares with a file of the given bytes whose header
/// is sound: it fails where another process owns the file, and else owns
/// it from now on.
pub open spec fn claimed(bytes: Seq<u8>, typ: u8, flags: u16, pid: u32) -> Opening {
    if stated_pid(bytes) != 0 && stated_pid(bytes) != pid {
        Opening::Foreign
    } else {
        Opening::Ready(header_of(typ, flags, pid) + bytes.skip(HEADER_SIZE as int), typ, flags)
    }
}

/// How opening ends for the process `pid`: with the bytes of the file, if
/// there is one, and the type and flags asked for, if any are.
pub open spec fn opening(image: Option<Seq<u8>>, meta: Option<(u8, u16)>, pid: u32) -> Opening {
    match image {
        Some(bytes) => if bytes.len() < HEADER_SIZE {
            Opening::Short
        } else if !sound(bytes.take(HEADER_SIZE as int), meta) {
            Opening::Unsound
        } else {
            claimed(bytes, stated_typ(bytes), stated_flags(bytes), pid)
        },
        None => match meta {
            Some((typ, flags)) => Opening::Ready(header_of(typ, flags, pid), typ, flags),
            None => Opening::Unsound,
        },
    }
}

/// Whether `e` is the error for an opening that ended as `end`.
pub open spec fn refusal(end: Opening, e: Error) -> bool {
    match end {
        Opening::Ready(_, _, _) => false,
        Opening::Short => e is IOError,
        Opening::Unsound => e is InvalidArgument,
        Opening::Foreign => e is Locked,
    }
}

/// The bytes of a file after `buff` was written at the position `at`: a
/// gap between the end of the file and `at` is filled with NUL bytes, and
/// nothing changes where `buff` is empty.
pub open spec fn written(bytes: Seq<u8>, at: int, buff: Seq<u8>) -> Seq<u8> {
    if buff.len() == 0 {
        bytes
    } else if bytes.len() <= at {
        bytes + zeros((at - bytes.len()) as nat) + buff
    } else if bytes.len() <= at + buff.len() {
        bytes.take(at) + buff
    } else {
        bytes.take(at) + buff + bytes.skip(at + buff.len())
    }
}

/// Whether `count` bytes can be read at the position `at`: none always
/// can, and any other number where the file holds that many from there on.
pub open spec fn readable(bytes: Seq<u8>, at: int, count: nat) -> bool {
    if count == 0 {
        at <= usize::MAX
    } else {
        at + count <= bytes.len()
    }
}

/// The `count` bytes of a file at the position `at`.
pub open spec fn read(bytes: Seq<u8>, at: int, count: nat) -> Seq<u8> {
    if count == 0 {
        Seq::empty()
    } else {
        bytes.subrange(at, at + count)
    }
}

/// The bytes of an optional buffer.
pub open spec fn bytes_of(image: Option<Vec<u8>>) -> Option<Seq<u8>> {
    match image {
        Some(bytes) => Some(bytes@),
        None => None,
    }
}

/// A file handle as a mathematical value.
pub struct FileView {
    /// Where the file is.
    pub path: Seq<char>,
    /// The process that holds the handle.
    pub pid: u32,
    /// The bytes of the file; `None` where there is no file.
    pub image: Option<Seq<u8>>,
    /// Whether the handle is open.
    pub opened: bool,
    /// The type of the file.
    pub typ: u8,
    /// The flags of the file.
    pub flags: u16,
}

impl FileView {
    /// Whether the file is there and its header says that this handle's
    /// process has it open.
    pub open spec fn held(self) -> bool {
        self.image matches Some(bytes) && bytes.len() >= HEADER_SIZE && bytes.take(
            HEADER_SIZE as int,
        ) == header_of(self.typ, self.flags, self.pid)
    }

    /// Whether the file is there and its header says that no process has
    /// it open, with this handle's type and flags.
    pub open spec fn released(self) -> bool {
        self.image matches Some(bytes) && bytes.len() >= HEADER_SIZE && bytes.take(
            HEADER_SIZE as int,
        ) == header_of(self.typ, self.flags, 0)
    }

    /// What holds of every handle: an open one holds its file.
    pub open spec fn inv(self) -> bool {
        self.opened ==> self.held()
    }

    /// The data section: the bytes behind the header.
    pub open spec fn data(self) -> Seq<u8> {
        match self.image {
            Some(bytes) => bytes.skip(HEADER_SIZE as int),
            None => Seq::empty(),
        }
    }

    /// How making sure that the handle is open ends: an open handle stays
    /// as it is, a closed one opens its file with its own type and flags.
    pub open spec fn reopening(self) -> Opening {
        if self.opened {
            Opening::Ready(self.image->0, self.typ, self.flags)
        } else {
            opening(self.image, Some((self.typ, self.flags)), self.pid)
        }
    }

    /// The handle with the given bytes, open.
    pub open spec fn open_with(self, bytes: Seq<u8>) -> FileView {
        FileView { image: Some(bytes), opened: true, ..self }
    }
}

/// The file under a file layer.
///
/// A handle is open or closed. Reading and writing open a closed handle
/// first, making the file anew where it is gone. An open handle has its
/// process written into the header, so that no other process opens the
/// file; closing takes it out again.
#[derive(Debug)]
pub struct FileBaseLayer {
    path: String,
    pid: u32,
    image: Option<Vec<u8>>,
    opened: bool,
    typ: u8,
    flags: u16,
}

impl View for FileBaseLayer {
    type V = FileView;

    closed spec fn view(&self) -> FileView {
        FileView {
            path: self.path@,
            pid: self.pid,
            image: bytes_of(self.image),
            opened: self.opened,
            typ: self.typ,
            flags: self.flags,
        }
    }
}

impl FileBaseLayer {
    /// Opens the file at `path` for the process `pid`. `existing` holds the
    /// bytes of the file, or `None` where there is none yet; `meta` holds
    /// the type and flags that the file must have, and, for a new file,
    /// gets.
    pub fn new(path: &str, existing: Option<Vec<u8>>, meta: Option<(u8, u16)>, pid: u32) -> (r:
        Result<Self, Error>)
        ensures
            match r {
                Ok(layer) => opening(bytes_of(existing), meta, pid) matches Opening::Ready(
                    bytes,
                    typ,
                    flags,
                ) && layer@ == (FileView {
                    path: path@,
                    pid,
                    image: Some(bytes),
                    opened: true,
                    typ,
                    flags,
                }) && layer@.inv(),
                Err(e) => refusal(opening(bytes_of(existing), meta, pid), e),
            },
    {
        let mut layer = Self {
            path: path.to_owned(),
            pid,
            image: existing,
            opened: false,
            typ: 0,
            flags: 0,
        };
        match layer.open(meta) {
            Ok(()) => Ok(layer),
            Err(e) => Err(e),
        }
    }

    /// Where the file is.
    pub fn path(&self) -> (path: &str)
        ensures
            path@ == self@.path,
    {
        self.path.as_str()
    }

    /// The type of the file.
    pub fn typ(&self) -> (typ: u8)
        ensures
            typ == self@.typ,
    {
        self.typ
    }

    /// The flags of the file.
    pub fn flags(&self) -> (flags: u16)
        ensures
            flags == self@.flags,
    {
        self.flags
    }

    /// The process that holds the handle.
    pub fn pid(&self) -> (pid: u32)
        ensures
            pid == self@.pid,
    {
        self.pid
    }

    /// Whether the handle is open.
    pub fn is_open(&self) -> (opened: bool)
        ensures
            opened == self@.opened,
    {
        self.opened
    }

    /// The bytes of the file as they are to be on disk; `None` where the
    /// file is to be gone.
    pub fn image(&self) -> (image: Option<&[u8]>)
        ensures
            match image {
                Some(bytes) => self@.image == Some(bytes@),
                None => self@.image is None,
            },
    {
        match &self.image {
            Some(bytes) => Some(bytes.as_slice()),
            None => None,
        }
    }

    /// Opens the handle where it is closed: checks the header of the file,
    /// or makes the file where there is none, and writes this process into
    /// the header. A handle that fails to open stays as it was.
    pub fn open(&mut self, meta: Option<(u8, u16)>) -> (r: Result<(), Error>)
        requires
            old(self)@.inv(),
        ensures
            final(self)@.inv(),
            old(self)@.opened ==> r is Ok && final(self)@ == old(self)@,
            !old(self)@.opened ==> match r {
                Ok(()) => opening(old(self)@.image, meta, old(self)@.pid) matches Opening::Ready(
                    bytes,
                    typ,
                    flags,
                ) && final(self)@ == (FileView {
                    image: Some(bytes),
                    opened: true,
                    typ,
                    flags,
                    ..old(self)@
                }),
                Err(e) => refusal(opening(old(self)@.image, meta, old(self)@.pid), e)
                    && final(self)@ == old(self)@,
            },
    {
        if self.opened {
            return Ok(());
        }
        let mut taken: Option<Vec<u8>> = None;
        std::mem::swap(&mut self.image, &mut taken);
        match taken {
            Some(bytes) => {
                if bytes.len() < HEADER_SIZE {
                    self.image = Some(bytes);
                    return Err(Error::IOError("failed to fill whole buffer".to_owned()));
                }
                let checked = verify(slice_subrange(bytes.as_slice(), 0, HEADER_SIZE), meta);
                proof {
                    let head = bytes@.take(HEADER_SIZE as int);
                }
                match checked {
                    Ok((_, typ, flags)) => {
                        let holder = owner(bytes.as_slice());
                        if holder != 0 && holder != self.pid {
                            self.image = Some(bytes);
                            return Err(Error::Locked);
                        }
                        let mut image = header(typ, flags, self.pid);
                        image.extend_from_slice(
                            slice_subrange(bytes.as_slice(), HEADER_SIZE, bytes.len()),
                        );
                        proof {
                            let head = header_of(typ, flags, self.pid);
                            assert(image@ =~= head + bytes@.skip(HEADER_SIZE as int));
                            assert(image@.take(HEADER_SIZE as int) =~= head);
                        }
                        self.image = Some(image);
                        self.typ = typ;
                        self.flags = flags;
                        self.opened = true;
                        Ok(())
                    },
                    Err(e) => {
                        self.image = Some(bytes);
                        Err(e)
                    },
                }
            },
            None => match meta {
                Some((typ, flags)) => {
                    let image = header(typ, flags, self.pid);
                    assert(image@.take(HEADER_SIZE as int) =~= image@);
                    self.image = Some(image);
                    self.typ = typ;
                    self.flags = flags;
                    self.opened = true;
                    Ok(())
                },
                None => Err(Error::InvalidArgument),
            },
        }
    }

    /// Whether a process other than `pid` has the file open, as the header
    /// says; `false` where there is no header to say so.
    pub fn locked(&self, pid: u32) -> (r: bool)
        ensures
            r == match self@.image {
                Some(bytes) => bytes.len() >= HEADER_SIZE && stated_pid(bytes) != 0 && stated_pid(
                    bytes,
                ) != pid,
                None => false,
            },
            self@.inv() && self@.opened ==> r == (self@.pid != 0 && self@.pid != pid),
    {
        proof {
            if self@.inv() && self@.opened {
                lemma_held_owner(self@);
            }
        }
        match &self.image {
            Some(bytes) => {
                if bytes.len() < HEADER_SIZE {
                    false
                } else {
                    let holder = owner(bytes.as_slice());
                    !(holder == 0 || pid == holder)
                }
            },
            None => false,
        }
    }

    /// Closes the handle: an open one takes its process out of the header.
    pub fn close(&mut self) -> (r: Result<(), Error>)
        requires
            old(self)@.inv(),
        ensures
            r is Ok,
            final(self)@.inv(),
            final(self)@ == (FileView {
                opened: false,
                image: if old(self)@.opened {
                    Some(header_of(old(self)@.typ, old(self)@.flags, 0) + old(self)@.data())
                } else {
                    old(self)@.image
                },
                ..old(self)@
            }),
            old(self)@.opened ==> final(self)@.released() && stated_pid(final(self)@.image->0) == 0,
    {
        if self.opened {
            proof {
                let zero = header_of(self.typ, self.flags, 0);
                let data = self@.data();
                lemma_header_sound(self.typ, self.flags, 0);
                assert((zero + data).take(HEADER_SIZE as int) =~= zero);
            }
            self.rewrite_header(0);
            self.opened = false;
        }
        Ok(())
    }

    /// Puts the header for the owner `pid` in place of the one there is.
    fn rewrite_header(&mut self, pid: u32)
        requires
            old(self)@.image matches Some(bytes) && bytes.len() >= HEADER_SIZE,
        ensures
            final(self)@ == (FileView {
                image: Some(header_of(old(self)@.typ, old(self)@.flags, pid) + old(self)@.data()),
                ..old(self)@
            }),
    {
        let mut taken: Option<Vec<u8>> = None;
        std::mem::swap(&mut self.image, &mut taken);
        match taken {
            Some(bytes) => {
                let mut image = header(self.typ, self.flags, pid);
                image.extend_from_slice(slice_subrange(bytes.as_slice(), HEADER_SIZE, bytes.len()));
                assert(image@ =~= header_of(self.typ, self.flags, pid) + bytes@.skip(
                    HEADER_SIZE as int,
                ));
                self.image = Some(image);
            },
            None => {},
        }
    }

    /// Removes the file: the handle is closed and has no bytes any more.
    pub fn unlink(&mut self)
        ensures
            final(self)@.inv(),
            final(self)@ == (FileView { image: None, opened: false, ..old(self)@ }),
    {
        self.image = None;
        self.opened = false;
    }

    /// Puts the bytes of another file in place of this one's and opens the
    /// handle on them, with the type and flags that their header states.
    pub fn migrate_from_file(&mut self, other: Vec<u8>) -> (r: Result<(), Error>)
        requires
            old(self)@.inv(),
        ensures
            final(self)@.inv(),
            match opening(Some(other@), None, old(self)@.pid) {
                Opening::Ready(bytes, typ, flags) => r is Ok && final(self)@ == (FileView {
                    image: Some(bytes),
                    opened: true,
                    typ,
                    flags,
                    ..old(self)@
                }),
                end => r matches Err(e) && refusal(end, e) && final(self)@ == (FileView {
                    image: Some(other@),
                    opened: false,
                    ..old(self)@
                }),
            },
    {
        let _ = self.close();
        self.image = Some(other);
        self.open(None)
    }

    /// Makes sure that the handle is open and returns where in the file the
    /// byte `offset` of the data section is.
    fn seek(&mut self, offset: usize) -> (r: Result<usize, Error>)
        requires
            old(self)@.inv(),
        ensures
            final(self)@.inv(),
            match old(self)@.reopening() {
                Opening::Ready(bytes, _, _) => final(self)@ == old(self)@.open_with(bytes) && match r {
                    Ok(at) => at == HEADER_SIZE + offset,
                    Err(e) => HEADER_SIZE + offset > usize::MAX && e is IOError,
                },
                end => r matches Err(e) && refusal(end, e) && final(self)@ == old(self)@,
            },
    {
        let meta = (self.typ, self.flags);
        match self.open(Some(meta)) {
            Ok(()) => {},
            Err(e) => {
                return Err(e);
            },
        }
        if offset > usize::MAX - HEADER_SIZE {
            return Err(Error::IOError("position out of range".to_owned()));
        }
        Ok(HEADER_SIZE + offset)
    }

    /// Reads the whole data section and appends it to `buff`.
    pub fn read_to_end(&mut self, buff: &mut Vec<u8>) -> (r: Result<(), Error>)
        requires
            old(self)@.inv(),
        ensures
            final(self)@.inv(),
            match old(self)@.reopening() {
                Opening::Ready(bytes, _, _) => r is Ok && final(self)@ == old(self)@.open_with(bytes)
                    && final(buff)@ == old(buff)@ + bytes.skip(HEADER_SIZE as int),
                end => r matches Err(e) && refusal(end, e) && final(self)@ == old(self)@
                    && final(buff)@ == old(buff)@,
            },
    {
        match self.seek(0) {
            Ok(_) => {},
            Err(e) => {
                return Err(e);
            },
        }
        match &self.image {
            Some(bytes) => {
                buff.extend_from_slice(slice_subrange(bytes.as_slice(), HEADER_SIZE, bytes.len()));
            },
            None => {},
        }
        Ok(())
    }

    /// Writes `buff` behind the last byte of the file.
    pub fn append(&mut self, buff: &[u8]) -> (r: Result<(), Error>)
        requires
            old(self)@.inv(),
        ensures
            final(self)@.inv(),
            match old(self)@.reopening() {
                Opening::Ready(bytes, _, _) => r is Ok && final(self)@ == old(self)@.open_with(
                    bytes + buff@,
                ),
                end => r matches Err(e) && refusal(end, e) && final(self)@ == old(self)@,
            },
    {
        let meta = (self.typ, self.flags);
        match self.open(Some(meta)) {
            Ok(()) => {},
            Err(e) => {
                return Err(e);
            },
        }
        let ghost before = self@.image->0;
        let mut taken: Option<Vec<u8>> = None;
        std::mem::swap(&mut self.image, &mut taken);
        match taken {
            Some(bytes) => {
                let mut image = bytes;
                image.extend_from_slice(buff);
                assert(image@ == before + buff@);
                assert(image@.take(HEADER_SIZE as int) =~= before.take(HEADER_SIZE as int));
                self.image = Some(image);
            },
            None => {},
        }
        Ok(())
    }

    /// Fills `buff` with the bytes of the data section from `offset` on.
    /// Fails, and leaves `buff` as it is, where the file ends before `buff`
    /// is full.
    pub fn read_at(&mut self, buff: &mut Vec<u8>, offset: usize) -> (r: Result<(), Error>)
        requires
            old(self)@.inv(),
        ensures
            final(self)@.inv(),
            match old(self)@.reopening() {
                Opening::Ready(bytes, _, _) => final(self)@ == old(self)@.open_with(bytes) && (
                if readable(bytes, HEADER_SIZE + offset, old(buff)@.len()) {
                    r is Ok && final(buff)@ == read(bytes, HEADER_SIZE + offset, old(buff)@.len())
                } else {
                    r matches Err(e) && e is IOError && final(buff)@ == old(buff)@
                }),
                end => r matches Err(e) && refusal(end, e) && final(self)@ == old(self)@
                    && final(buff)@ == old(buff)@,
            },
    {
        let at = match self.seek(offset) {
            Ok(at) => at,
            Err(e) => {
                proof {
                    if let Some(bytes) = &self.image {
                        assert(bytes@.len() == bytes.len());
                    }
                }
                return Err(e);
            },
        };
        let n = buff.len();
        if n == 0 {
            return Ok(());
        }
        match &self.image {
            Some(bytes) => {
                if at > bytes.len() || n > bytes.len() - at {
                    return Err(Error::IOError("failed to fill whole buffer".to_owned()));
                }
                buff.clear();
                buff.extend_from_slice(slice_subrange(bytes.as_slice(), at, at + n));
                Ok(())
            },
            None => Ok(()),
        }
    }

    /// Writes `buff` into the data section at `offset`, over what is there
    /// and on behind the end of the file. Fails where the file would grow
    /// beyond what the machine can address.
    pub fn write_at(&mut self, buff: &[u8], offset: usize) -> (r: Result<(), Error>)
        requires
            old(self)@.inv(),
        ensures
            final(self)@.inv(),
            match old(self)@.reopening() {
                Opening::Ready(bytes, _, _) => if HEADER_SIZE + offset + buff@.len()
                    <= usize::MAX {
                    r is Ok && final(self)@ == old(self)@.open_with(
                        written(bytes, HEADER_SIZE + offset, buff@),
                    )
                } else {
                    r matches Err(e) && e is IOError && final(self)@ == old(self)@.open_with(bytes)
                },
                end => r matches Err(e) && refusal(end, e) && final(self)@ == old(self)@,
            },
    {
        let at = match self.seek(offset) {
            Ok(at) => at,
            Err(e) => {
                return Err(e);
            },
        };
        let n = buff.len();
        if n > usize::MAX - at {
            return Err(Error::IOError("file too large".to_owned()));
        }
        if n == 0 {
            return Ok(());
        }
        let ghost before = self@.image->0;
        let mut taken: Option<Vec<u8>> = None;
        std::mem::swap(&mut self.image, &mut taken);
        match taken {
            Some(bytes) => {
                let mut image: Vec<u8> = Vec::new();
                if bytes.len() <= at {
                    image.extend_from_slice(bytes.as_slice());
                    while image.len() < at
                        invariant
                            before.len() <= image.len() <= at,
                            image@ == before + zeros((image.len() - before.len()) as nat),
                        decreases at - image.len(),
                    {
                        image.push(0u8);
                    }
                    image.extend_from_slice(buff);
                } else {
                    image.extend_from_slice(slice_subrange(bytes.as_slice(), 0, at));
                    image.extend_from_slice(buff);
                    if at + n < bytes.len() {
                        image.extend_from_slice(
                            slice_subrange(bytes.as_slice(), at + n, bytes.len()),
                        );
                    }
                }
                assert(image@ =~= written(before, at as int, buff@));
                assert(image@.take(HEADER_SIZE as int) =~= before.take(HEADER_SIZE as int));
                self.image = Some(image);
            },
            None => {},
        }
        Ok(())
    }
}

/// The header of a file that a handle holds states the handle's process
/// as the owner, and the handle's type and flags.
pub proof fn lemma_held_owner(file: FileView)
    requires
        file.held(),
    ensures
        stated_pid(file.image->0) == file.pid,
        stated_typ(file.image->0) == file.typ,
        stated_flags(file.image->0) == file.flags,
{
    lemma_header_sound(file.typ, file.flags, file.pid);
}

/// A file that was made with a type and flags and then closed opens again
/// for any process without a word on type and flags, and is then of that
/// type and has those flags and the data that it had.
pub proof fn lemma_reopen_keeps_meta(typ: u8, flags: u16, data: Seq<u8>, pid: u32)
    ensures
        opening(Some(header_of(typ, flags, 0) + data), None, pid) == Opening::Ready(
            header_of(typ, flags, pid) + data,
            typ,
            flags,
        ),
{
    let closed = header_of(typ, flags, 0);
    let bytes = closed + data;
    lemma_header_sound(typ, flags, 0);
    assert(bytes.take(HEADER_SIZE as int) =~= closed);
    assert(bytes.skip(HEADER_SIZE as int) =~= data);
}

/// A file that one process has open does not open for another, and opens
/// for the same process again.
pub proof fn lemma_held_refuses_others(file: FileView, other: u32)
    requires
        file.held(),
        file.pid != 0,
    ensures
        other != file.pid ==> opening(file.image, None, other) is Foreign,
        opening(file.image, None, file.pid) == Opening::Ready(file.image->0, file.typ, file.flags),
{
    let bytes = file.image->0;
    lemma_held_owner(file);
    lemma_header_sound(file.typ, file.flags, file.pid);
    assert(header_of(file.typ, file.flags, file.pid) + bytes.skip(HEADER_SIZE as int) =~= bytes);
}

/// A file that opens when a type and flags are asked for is of that type
/// and has those flags.
pub proof fn lemma_opening_meta(image: Option<Seq<u8>>, typ: u8, flags: u16, pid: u32)
    ensures
        opening(image, Some((typ, flags)), pid) matches Opening::Ready(_, t, f) ==> t == typ && f
            == flags,
{
}

/// A file that was made with a type and flags and then closed opens again
/// for any process that asks for that type and those flags, with the data
/// that it had.
pub proof fn lemma_reopen_with_meta(typ: u8, flags: u16, data: Seq<u8>, pid: u32)
    ensures
        opening(Some(header_of(typ, flags, 0) + data), Some((typ, flags)), pid) == Opening::Ready(
            header_of(typ, flags, pid) + data,
            typ,
            flags,
        ),
{
    let closed = header_of(typ, flags, 0);
    let bytes = closed + data;
    lemma_header_sound(typ, flags, 0);
    assert(bytes.take(HEADER_SIZE as int) =~= closed);
    assert(bytes.skip(HEADER_SIZE as int) =~= data);
}

} // verus!

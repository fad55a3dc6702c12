//! The write-ahead log: a file to which every record is appended.
//!
//! Nothing is ever changed in place. A key has the value of the last record
//! that was written for it; deleting a key writes a record with the mark
//! `DELETED`. Reading stops at the first byte that starts no record, so a
//! record that was only half written counts for nothing.
use crate::errors::Error;
use crate::layers::file::file::{
    bytes_of, lemma_opening_meta, lemma_reopen_with_meta, opening, refusal, FileBaseLayer,
    FileLayer, FileView, Opening,
};
use crate::layers::file::header::{
    header_of, lemma_header_len, lemma_header_sound, stated_pid, HEADER_SIZE,
};
use crate::layers::sorting::{reversed, sort_records};
use crate::layers::traits::{
    key_view, last_with, on_side, record_views, selected, value_view, Layer, Location,
};
use crate::types::key::{Key, KeyView};
use crate::types::pair::{lemma_appended, whole, Pair, PairView};
use crate::types::traits::{views, Packer};
use crate::types::value::{Value, ValueView};
use vstd::prelude::*;
use vstd::string::StringExecFns;

verus! {

/// The records in a row of pairs.
pub open spec fn pair_records(pairs: Seq<PairView>) -> Seq<(KeyView, ValueView)> {
    Seq::new(pairs.len(), |i: int| (pairs[i].key, pairs[i].value))
}

/// The records that a data section holds, in the order in which they were
/// written.
pub open spec fn log_of(data: Seq<u8>) -> Seq<(KeyView, ValueView)> {
    pair_records(PairView::of_frames(data))
}

/// The layer on a write-ahead log.
#[derive(Debug)]
pub struct WALLayer {
    base: FileBaseLayer,
    initialized: bool,
}

/// The layer on a write-ahead log as a mathematical value.
pub struct WalView {
    /// The file under the layer.
    pub file: FileView,
    /// Whether the file was opened and not removed since.
    pub initialized: bool,
}

impl WalView {
    /// The records of the log, in the order in which they were written.
    pub open spec fn log(self) -> Seq<(KeyView, ValueView)> {
        log_of(self.file.data())
    }

    /// The layer with the given data in its file, open.
    pub open spec fn open_with(self, data: Seq<u8>) -> WalView {
        WalView {
            file: FileView {
                image: Some(header_of(self.file.typ, self.file.flags, self.file.pid) + data),
                opened: true,
                ..self.file
            },
            ..self
        }
    }

    /// The layer with its file closed: the data as it is, no process in
    /// the header. Without a file there is nothing to close.
    pub open spec fn closed(self) -> WalView {
        WalView {
            file: FileView {
                image: match self.file.image {
                    Some(_) => Some(
                        header_of(self.file.typ, self.file.flags, 0) + self.file.data(),
                    ),
                    None => None,
                },
                opened: false,
                ..self.file
            },
            ..self
        }
    }

    /// The layer with its file removed.
    pub open spec fn removed(self) -> WalView {
        WalView {
            file: FileView { image: None, opened: false, ..self.file },
            initialized: false,
        }
    }

    /// What holds of every such layer: its file is a log without flags,
    /// and is open unless it was removed.
    pub open spec fn inv(self) -> bool {
        &&& self.file.inv()
        &&& self.file.opened || self.file.image is None || self.file.released()
        &&& self.file.typ == WALLayer::TYPE
        &&& self.file.flags == 0
    }
}

impl FileLayer for WALLayer {
    const TYPE: u8 = 0x01;
}

impl View for WALLayer {
    type V = WalView;

    closed spec fn view(&self) -> WalView {
        WalView { file: self.base@, initialized: self.initialized }
    }
}

/// The pairs as records, in the same order.
fn into_records(pairs: Vec<Pair>) -> (out: Vec<(Key, Value)>)
    ensures
        record_views(out@) == pair_records(views(pairs@)),
{
    let ghost given = pair_records(views(pairs@));
    let mut rest = reversed(pairs);
    let ghost turned = rest@;
    let n = rest.len();
    let mut out: Vec<(Key, Value)> = Vec::new();
    while rest.len() > 0
        invariant
            n == given.len(),
            n == turned.len(),
            turned == pairs@.reverse(),
            n == pairs@.len(),
            given == pair_records(views(pairs@)),
            rest.len() <= n,
            rest@ == turned.take(rest.len() as int),
            out@.len() + rest@.len() == n,
            forall|i: int| 0 <= i < out@.len() ==> (out@[i].0@, out@[i].1@) == given[i],
        decreases rest.len(),
    {
        match rest.pop() {
            Some(pair) => {
                out.push((pair.key, pair.value));
            },
            None => {},
        }
    }
    out
}

/// The records on the asked side of `base`, in the order in which they stand.
fn keep_side(items: Vec<(Key, Value)>, base: Option<&Key>, up: bool) -> (out: Vec<(Key, Value)>)
    ensures
        record_views(out@) == selected(record_views(items@), key_view(base), up),
{
    let ghost given = record_views(items@);
    let mut rest = reversed(items);
    let ghost turned = rest@;
    let n = rest.len();
    let mut out: Vec<(Key, Value)> = Vec::new();
    while rest.len() > 0
        invariant
            n == given.len(),
            n == turned.len(),
            turned == items@.reverse(),
            given == record_views(items@),
            n == items@.len(),
            rest.len() <= n,
            rest@ == turned.take(rest.len() as int),
            record_views(out@) == selected(given.take(n - rest.len()), key_view(base), up),
        decreases rest.len(),
    {
        let ghost done = n - rest.len();
        match rest.pop() {
            Some(item) => {
                proof {
                    let next = given.take(done + 1);
                    assert(next.drop_last() =~= given.take(done));
                }
                if on_side(base, &item.0, up) {
                    out.push(item);
                }
            },
            None => {},
        }
    }
    assert(given.take(n as int) =~= given);
    out
}

/// The value of the last record with the given key.
fn find_last(items: Vec<(Key, Value)>, key: &Key) -> (r: Option<Value>)
    ensures
        value_view(r) == last_with(record_views(items@), key@),
{
    let ghost given = record_views(items@);
    let mut rest = items;
    assert(given.take(rest.len() as int) =~= given);
    while rest.len() > 0
        invariant
            given == record_views(items@),
            rest.len() <= given.len(),
            record_views(rest@) == given.take(rest.len() as int),
            last_with(given, key@) == last_with(given.take(rest.len() as int), key@),
        decreases rest.len(),
    {
        let ghost front = given.take(rest.len() as int);
        match rest.pop() {
            Some(item) => {
                proof {
                    assert(front.drop_last() =~= given.take(rest.len() as int));
                }
                if item.0.same(key) {
                    return Some(item.1);
                }
            },
            None => {},
        }
    }
    None
}

impl WALLayer {
    /// Where the file of the log is.
    pub fn path(&self) -> (path: &str)
        ensures
            path@ == self@.file.path,
    {
        self.base.path()
    }

    /// The bytes of the file as they are to be on disk; `None` where the
    /// file is to be gone.
    pub fn image(&self) -> (image: Option<&[u8]>)
        ensures
            match image {
                Some(bytes) => self@.file.image == Some(bytes@),
                None => self@.file.image is None,
            },
    {
        self.base.image()
    }

    /// Closes the file: this process is taken out of its header, and the
    /// records stay as they are. The next operation opens the file again.
    pub fn close(&mut self)
        requires
            old(self)@.inv(),
        ensures
            final(self)@.inv(),
            final(self)@ == old(self)@.closed(),
            final(self)@.file.data() == old(self)@.file.data(),
            final(self)@.file.image matches Some(bytes) ==> stated_pid(bytes) == 0,
    {
        let ghost zero = header_of(self@.file.typ, self@.file.flags, 0);
        let ghost data = self@.file.data();
        let _ = self.base.close();
        proof {
            lemma_header_len(self@.file.typ, self@.file.flags, 0);
            lemma_header_sound(self@.file.typ, self@.file.flags, 0);
            if !old(self)@.file.opened {
                if let Some(bytes) = self@.file.image {
                    assert(bytes =~= zero + data);
                }
            }
        }
    }

    /// The records of the log, in the order in which they were written.
    /// Reading opens the file, and makes it anew where it was removed.
    fn replay(&mut self) -> (items: Vec<(Key, Value)>)
        requires
            old(self)@.inv(),
        ensures
            final(self)@.inv(),
            record_views(items@) == old(self)@.log(),
            final(self)@ == old(self)@.open_with(old(self)@.file.data()),
            final(self)@.file.data() == old(self)@.file.data(),
    {
        proof {
            lemma_reopening(self@);
        }
        let mut data: Vec<u8> = Vec::new();
        let _ = self.base.read_to_end(&mut data);
        proof {
            let bytes = old(self)@.file.reopening()->Ready_0;
            assert(bytes =~= bytes.take(HEADER_SIZE as int) + bytes.skip(HEADER_SIZE as int));
        }
        let pairs = Pair::unpack_iter(data.as_slice());
        into_records(pairs)
    }
}

/// In a log layer, making sure that the file is open never fails and
/// leaves the data as it is.
pub proof fn lemma_reopening(layer: WalView)
    requires
        layer.inv(),
    ensures
        layer.file.reopening() matches Opening::Ready(bytes, typ, flags) && bytes.skip(
            HEADER_SIZE as int,
        ) == layer.file.data() && typ == layer.file.typ && flags == layer.file.flags && bytes.len()
            >= HEADER_SIZE && bytes.take(HEADER_SIZE as int) == header_of(
            layer.file.typ,
            layer.file.flags,
            layer.file.pid,
        ),
{
    let file = layer.file;
    lemma_header_len(file.typ, file.flags, file.pid);
    if !file.opened && file.image is Some {
        let bytes = file.image->0;
        let data = bytes.skip(HEADER_SIZE as int);
        assert(bytes =~= header_of(file.typ, file.flags, 0) + data);
        lemma_reopen_with_meta(file.typ, file.flags, data, file.pid);
    }
}

impl Layer for WALLayer {
    open spec fn inv(&self) -> bool {
        self@.inv()
    }

    open spec fn records(&self) -> Seq<(KeyView, ValueView)> {
        self@.log()
    }

    open spec fn keeps(&self, key: KeyView, value: ValueView) -> bool {
        whole(self@.file.data()) && key.exact() && value.exact()
    }

    /// Opens the log in the file whose path is the host of the location
    /// followed by its path.
    fn open(location: &Location, existing: Option<Vec<u8>>, pid: u32) -> (r: Result<Self, Error>)
        ensures
            match r {
                Ok(layer) => opening(bytes_of(existing), Some((WALLayer::TYPE, 0)), pid) matches Opening::Ready(
                    bytes,
                    _,
                    _,
                ) && layer@ == (WalView {
                    file: FileView {
                        path: wal_path(location),
                        pid,
                        image: Some(bytes),
                        opened: true,
                        typ: WALLayer::TYPE,
                        flags: 0,
                    },
                    initialized: true,
                }),
                Err(e) => refusal(opening(bytes_of(existing), Some((WALLayer::TYPE, 0)), pid), e),
            },
    {
        let path: String = file_path(location);
        match FileBaseLayer::new(path.as_str(), existing, Some((Self::TYPE, 0)), pid) {
            Ok(base) => {
                proof {
                    lemma_opening_meta(bytes_of(existing), Self::TYPE, 0, pid);
                }
                Ok(Self { base, initialized: true })
            },
            Err(e) => Err(e),
        }
    }

    /// The value of the last record that was written for the key.
    fn get(&mut self, key: &Key) -> (r: Option<Value>)
        ensures
            final(self)@ == old(self)@.open_with(old(self)@.file.data()),
    {
        let items = self.replay();
        find_last(items, key)
    }

    /// Appends a record that binds `value` to `key`. Always returns `None`:
    /// what the key had is not looked up.
    fn put(&mut self, key: &Key, value: Value) -> (r: Option<Value>)
        ensures
            r is None,
            final(self)@ == old(self)@.open_with(
                old(self)@.file.data() + (PairView { key: key@, value: value@ }).frame(),
            ),
    {
        let ghost pair_view = PairView { key: key@, value: value@ };
        let ghost data = self@.file.data();
        proof {
            lemma_reopening(self@);
            if whole(data) && pair_view.exact() {
                lemma_put_found(data, key@, value@);
            }
        }
        let pair = Pair::new(key.duplicate(), value);
        let bytes = pair.pack();
        let _ = self.base.append(bytes.as_slice());
        proof {
            let bytes_before = old(self)@.file.reopening()->Ready_0;
            let head = header_of(self@.file.typ, self@.file.flags, self@.file.pid);
            lemma_header_len(self@.file.typ, self@.file.flags, self@.file.pid);
            assert(bytes_before + bytes@ =~= head + (data + bytes@));
            assert((head + (data + bytes@)).skip(HEADER_SIZE as int) =~= data + bytes@);
        }
        None
    }

    /// Appends a record that marks `key` as deleted.
    fn del(&mut self, key: &Key)
        ensures
            final(self)@ == old(self)@.open_with(
                old(self)@.file.data() + (PairView { key: key@, value: ValueView::Deleted }).frame(),
            ),
    {
        let ghost data = self@.file.data();
        proof {
            if whole(data) && key@.exact() {
                lemma_put_found(data, key@, ValueView::Deleted);
            }
        }
        let _ = self.put(key, Value::DELETED);
    }

    /// All records, in the order in which they were written: each key as
    /// often as it was written, deletions too.
    fn iter(&mut self) -> (items: Vec<(Key, Value)>)
        ensures
            final(self)@ == old(self)@.open_with(old(self)@.file.data()),
    {
        self.replay()
    }

    fn forward(&mut self, base: Option<&Key>) -> (items: Vec<(Key, Value)>)
        ensures
            final(self)@ == old(self)@.open_with(old(self)@.file.data()),
    {
        let items = self.replay();
        sort_records(keep_side(items, base, true), true)
    }

    fn backward(&mut self, base: Option<&Key>) -> (items: Vec<(Key, Value)>)
        ensures
            final(self)@ == old(self)@.open_with(old(self)@.file.data()),
    {
        let items = self.replay();
        sort_records(keep_side(items, base, false), false)
    }

    /// Removes the file. The next operation makes it anew, empty.
    fn unlink(&mut self)
        ensures
            final(self)@ == old(self)@.removed(),
    {
        self.base.unlink();
        self.initialized = false;
    }

    /// Does nothing: a log keeps every record.
    fn compact(&mut self)
        ensures
            final(self)@ == old(self)@,
    {
    }
}

/// The path of a file from the parts of an address: the host, where it is
/// a domain name, followed by the path.
pub open spec fn path_of(domain: Option<Seq<char>>, path: Seq<char>) -> Seq<char> {
    (match domain {
        Some(d) => d,
        None => Seq::empty(),
    }) + path
}

/// The path of the file of the log at a location.
pub open spec fn wal_path(location: &Location) -> Seq<char> {
    path_of(
        match location.domain {
            Some(d) => Some(d@),
            None => None,
        },
        location.path@,
    )
}

/// The path of the file of a log at a location.
pub fn file_path(location: &Location) -> (path: String)
    ensures
        path@ == wal_path(location),
{
    let domain: String = match &location.domain {
        Some(d) => d.clone(),
        None => String::new(),
    };
    domain.concat(location.path.as_str())
}

/// In a log that is records from front to end, a record that is written
/// is the last one from then on: its key has its value, and every other
/// key has the value that it had.
pub proof fn lemma_put_found(data: Seq<u8>, key: KeyView, value: ValueView)
    requires
        whole(data),
        key.fits(),
        value.fits(),
        key.exact(),
        value.exact(),
    ensures
        ({
            let next = data + (PairView { key, value }).frame();
            &&& whole(next)
            &&& log_of(next) == log_of(data).push((key, value))
            &&& last_with(log_of(next), key) == Some(value)
            &&& forall|k: KeyView| k != key ==> #[trigger] last_with(log_of(next), k) == last_with(
                log_of(data),
                k,
            )
        }),
{
    let pair = PairView { key, value };
    let log = log_of(data);
    let record = (key, value);
    lemma_appended(data, pair);
    assert(log_of(data + pair.frame()) =~= log.push(record));
    assert(log.push(record).drop_last() =~= log);
}

} // verus!

//! From an address to the layer behind it.
//!
//! `mem://` names a layer in memory; `wal://` followed by a path names a
//! write-ahead log in the file at that path.
use crate::errors::Error;
use crate::layers::file::file::{bytes_of, opening, refusal, FileView, Opening};
use crate::layers::file::wal::{file_path, path_of, wal_path, WALLayer, WalView};
use crate::layers::file::FileLayer;
use crate::layers::mem::{retained, MemLayer, MemView};
use crate::layers::traits::{value_view, Layer, Location};
use crate::types::key::{Key, KeyView};
use crate::types::pair::{whole, PairView};
use crate::types::value::{Value, ValueView};
use vstd::prelude::*;

verus! {

/// The scheme, the host where it is a domain name, and the path of an
/// address, as the `url` crate reads them; `None` for a text that it does
/// not read as an address.
pub uninterp spec fn url_parts(text: Seq<char>) -> Option<(Seq<char>, Option<Seq<char>>, Seq<char>)>;

/// The view of an optional text.
pub open spec fn text_view(text: Option<String>) -> Option<Seq<char>> {
    match text {
        Some(t) => Some(t@),
        None => None,
    }
}

/// `url::Url::parse`, with `scheme`, `domain` and `path` of what it
/// returns: the parts of the address, which depend on the text alone;
/// `None` where the text is no address.
#[verifier::external_body]
fn parse_location(url: &str) -> (r: Option<Location>)
    ensures
        match r {
            Some(l) => url_parts(url@) == Some((l.scheme@, text_view(l.domain), l.path@)),
            None => url_parts(url@) is None,
        },
{
    match url::Url::parse(url) {
        Ok(parsed) => Some(
            Location {
                scheme: parsed.scheme().to_string(),
                domain: parsed.domain().map(str::to_string),
                path: parsed.path().to_string(),
            },
        ),
        Err(_) => None,
    }
}

/// A layer of one of the kinds that the library has.
#[derive(Debug)]
pub enum AnyLayer {
    /// A layer in memory.
    Mem(MemLayer),
    /// A write-ahead log.
    Wal(WALLayer),
}

/// A layer of one of the kinds as a mathematical value.
pub enum AnyView {
    Mem(MemView),
    Wal(WalView),
}

impl View for AnyLayer {
    type V = AnyView;

    open spec fn view(&self) -> AnyView {
        match self {
            AnyLayer::Mem(layer) => AnyView::Mem(layer@),
            AnyLayer::Wal(layer) => AnyView::Wal(layer@),
        }
    }
}

/// The schemes that name a layer.
pub enum Scheme {
    /// `mem`: a layer in memory.
    Mem,
    /// `wal`: a write-ahead log in a file.
    Wal,
}

/// The scheme that a text spells, if it spells one that names a layer.
pub open spec fn scheme_of(text: Seq<char>) -> Option<Scheme> {
    if text == "mem"@ {
        Some(Scheme::Mem)
    } else if text == "wal"@ {
        Some(Scheme::Wal)
    } else {
        None
    }
}

/// The scheme that a text spells, if it spells one that names a layer.
pub fn scheme(text: &String) -> (r: Option<Scheme>)
    ensures
        r == scheme_of(text@),
{
    let mem: String = "mem".to_owned();
    let wal: String = "wal".to_owned();
    if *text == mem {
        Some(Scheme::Mem)
    } else if *text == wal {
        Some(Scheme::Wal)
    } else {
        None
    }
}

impl AnyLayer {
    /// The path of the file that the layer keeps its records in, if it
    /// keeps them in one.
    pub fn path(&self) -> (path: Option<&str>)
        ensures
            match self {
                AnyLayer::Mem(_) => path is None,
                AnyLayer::Wal(layer) => path matches Some(p) && p@ == layer@.file.path,
            },
    {
        match self {
            AnyLayer::Mem(_) => None,
            AnyLayer::Wal(layer) => Some(layer.path()),
        }
    }

    /// The bytes of the layer's file as they are to be on disk; `None`
    /// where the layer has no file, or its file is to be gone.
    pub fn image(&self) -> (image: Option<&[u8]>)
        ensures
            match self {
                AnyLayer::Mem(_) => image is None,
                AnyLayer::Wal(layer) => match image {
                    Some(bytes) => layer@.file.image == Some(bytes@),
                    None => layer@.file.image is None,
                },
            },
    {
        match self {
            AnyLayer::Mem(_) => None,
            AnyLayer::Wal(layer) => layer.image(),
        }
    }

    /// Closes the layer's file, if it has one: the records stay, and the
    /// file is free for other processes.
    pub fn close(&mut self)
        requires
            old(self).inv(),
        ensures
            final(self).inv(),
            final(self).records() == old(self).records(),
            match old(self)@ {
                AnyView::Mem(layer) => final(self)@ == old(self)@,
                AnyView::Wal(layer) => final(self)@ == AnyView::Wal(layer.closed()),
            },
    {
        match self {
            AnyLayer::Mem(_) => {},
            AnyLayer::Wal(layer) => layer.close(),
        }
    }
}

impl Layer for AnyLayer {
    open spec fn inv(&self) -> bool {
        match self {
            AnyLayer::Mem(layer) => layer@.ascending(),
            AnyLayer::Wal(layer) => layer@.inv(),
        }
    }

    open spec fn records(&self) -> Seq<(KeyView, ValueView)> {
        match self {
            AnyLayer::Mem(layer) => layer@.listed_down(),
            AnyLayer::Wal(layer) => layer@.log(),
        }
    }

    open spec fn keeps(&self, key: KeyView, value: ValueView) -> bool {
        match self {
            AnyLayer::Mem(layer) => true,
            AnyLayer::Wal(layer) => whole(layer@.file.data()) && key.exact() && value.exact(),
        }
    }

    /// The layer at a location, for the process `pid`: a new layer in
    /// memory for the scheme `mem`; for the scheme `wal` the log in the
    /// file that the location names, of which `existing` holds the bytes
    /// where there is one. `InvalidArgument` for any other scheme.
    fn open(location: &Location, existing: Option<Vec<u8>>, pid: u32) -> (r: Result<Self, Error>)
        ensures
            match scheme_of(location.scheme@) {
                Some(Scheme::Mem) => r matches Ok(AnyLayer::Mem(layer)) && layer@.slots.len() == 0,
                Some(Scheme::Wal) => match r {
                    Ok(any) => any matches AnyLayer::Wal(layer) && opening(
                        bytes_of(existing),
                        Some((WALLayer::TYPE, 0)),
                        pid,
                    ) matches Opening::Ready(bytes, _, _) && layer@ == (WalView {
                        file: FileView {
                            path: wal_path(location),
                            pid,
                            image: Some(bytes),
                            opened: true,
                            typ: WALLayer::TYPE,
                            flags: 0,
                        },
                        initialized: true,
                    }),
                    Err(e) => refusal(
                        opening(bytes_of(existing), Some((WALLayer::TYPE, 0)), pid),
                        e,
                    ),
                },
                None => r matches Err(e) && e is InvalidArgument,
            },
    {
        match scheme(&location.scheme) {
            Some(Scheme::Mem) => match MemLayer::open(location, existing, pid) {
                Ok(layer) => Ok(AnyLayer::Mem(layer)),
                Err(e) => Err(e),
            },
            Some(Scheme::Wal) => match WALLayer::open(location, existing, pid) {
                Ok(layer) => Ok(AnyLayer::Wal(layer)),
                Err(e) => Err(e),
            },
            None => Err(Error::InvalidArgument),
        }
    }

    fn get(&mut self, key: &Key) -> (r: Option<Value>)
        ensures
            match old(self)@ {
                AnyView::Mem(layer) => final(self)@ == old(self)@,
                AnyView::Wal(layer) => final(self)@ == AnyView::Wal(
                    layer.open_with(layer.file.data()),
                ),
            },
    {
        match self {
            AnyLayer::Mem(layer) => layer.get(key),
            AnyLayer::Wal(layer) => layer.get(key),
        }
    }

    fn put(&mut self, key: &Key, value: Value) -> (r: Option<Value>)
        ensures
            match old(self)@ {
                AnyView::Mem(layer) => final(self)@ matches AnyView::Mem(next) && next.state()
                    == layer.state().insert(key@, Some(value@)) && value_view(r) == (
                if layer.live().contains_key(key@) {
                    Some(layer.live()[key@])
                } else {
                    None
                }),
                AnyView::Wal(layer) => r is None && final(self)@ == AnyView::Wal(
                    layer.open_with(
                        layer.file.data() + (PairView { key: key@, value: value@ }).frame(),
                    ),
                ),
            },
    {
        match self {
            AnyLayer::Mem(layer) => layer.put(key, value),
            AnyLayer::Wal(layer) => layer.put(key, value),
        }
    }

    fn del(&mut self, key: &Key)
        ensures
            match old(self)@ {
                AnyView::Mem(layer) => final(self)@ matches AnyView::Mem(next) && next.state() == (
                if layer.state().contains_key(key@) {
                    layer.state().insert(key@, None)
                } else {
                    layer.state()
                }),
                AnyView::Wal(layer) => final(self)@ == AnyView::Wal(
                    layer.open_with(
                        layer.file.data() + (PairView {
                            key: key@,
                            value: ValueView::Deleted,
                        }).frame(),
                    ),
                ),
            },
    {
        match self {
            AnyLayer::Mem(layer) => layer.del(key),
            AnyLayer::Wal(layer) => layer.del(key),
        }
    }

    fn iter(&mut self) -> (items: Vec<(Key, Value)>)
        ensures
            match old(self)@ {
                AnyView::Mem(layer) => final(self)@ == old(self)@,
                AnyView::Wal(layer) => final(self)@ == AnyView::Wal(
                    layer.open_with(layer.file.data()),
                ),
            },
    {
        match self {
            AnyLayer::Mem(layer) => layer.iter(),
            AnyLayer::Wal(layer) => layer.iter(),
        }
    }

    fn forward(&mut self, base: Option<&Key>) -> (items: Vec<(Key, Value)>)
        ensures
            match old(self)@ {
                AnyView::Mem(layer) => final(self)@ == old(self)@,
                AnyView::Wal(layer) => final(self)@ == AnyView::Wal(
                    layer.open_with(layer.file.data()),
                ),
            },
    {
        match self {
            AnyLayer::Mem(layer) => layer.forward(base),
            AnyLayer::Wal(layer) => layer.forward(base),
        }
    }

    fn backward(&mut self, base: Option<&Key>) -> (items: Vec<(Key, Value)>)
        ensures
            match old(self)@ {
                AnyView::Mem(layer) => final(self)@ == old(self)@,
                AnyView::Wal(layer) => final(self)@ == AnyView::Wal(
                    layer.open_with(layer.file.data()),
                ),
            },
    {
        match self {
            AnyLayer::Mem(layer) => layer.backward(base),
            AnyLayer::Wal(layer) => layer.backward(base),
        }
    }

    fn unlink(&mut self)
        ensures
            match old(self)@ {
                AnyView::Mem(layer) => final(self)@ matches AnyView::Mem(next) && next.slots.len()
                    == 0,
                AnyView::Wal(layer) => final(self)@ == AnyView::Wal(layer.removed()),
            },
    {
        match self {
            AnyLayer::Mem(layer) => layer.unlink(),
            AnyLayer::Wal(layer) => layer.unlink(),
        }
    }

    fn compact(&mut self)
        ensures
            match old(self)@ {
                AnyView::Mem(layer) => final(self)@ matches AnyView::Mem(next) && next.slots
                    == retained(layer.slots),
                AnyView::Wal(layer) => final(self)@ == old(self)@,
            },
    {
        match self {
            AnyLayer::Mem(layer) => layer.compact(),
            AnyLayer::Wal(layer) => layer.compact(),
        }
    }
}

/// The layer in a file that a location names, for the process `pid`: the
/// log for the scheme `wal`. `existing` holds the bytes of the file, where
/// it is there. `None` for any other scheme, and for a file that does not
/// open.
pub fn get_file_layer(location: &Location, existing: Option<Vec<u8>>, pid: u32) -> (r: Option<
    AnyLayer,
>)
    ensures
        r matches Some(layer) ==> layer.inv(),
        match scheme_of(location.scheme@) {
            Some(Scheme::Wal) => match opening(bytes_of(existing), Some((WALLayer::TYPE, 0)), pid) {
                Opening::Ready(bytes, _, _) => r matches Some(AnyLayer::Wal(layer)) && layer@
                    == (WalView {
                    file: FileView {
                        path: wal_path(location),
                        pid,
                        image: Some(bytes),
                        opened: true,
                        typ: WALLayer::TYPE,
                        flags: 0,
                    },
                    initialized: true,
                }),
                _ => r is None,
            },
            _ => r is None,
        },
{
    match scheme(&location.scheme) {
        Some(Scheme::Wal) => match WALLayer::open(location, existing, pid) {
            Ok(layer) => Some(AnyLayer::Wal(layer)),
            Err(_) => None,
        },
        _ => None,
    }
}

/// The layer that an address names, for the process `pid`. `existing`
/// holds the bytes of the file that the address names, where it names one
/// and the file is there. `None` where the text is no address, names no
/// kind of layer, or names a file that does not open.
pub fn get_layer(url: &str, existing: Option<Vec<u8>>, pid: u32) -> (r: Option<AnyLayer>)
    ensures
        r matches Some(layer) ==> layer.inv(),
        match url_parts(url@) {
            Some((scheme, domain, path)) => match scheme_of(scheme) {
                Some(Scheme::Mem) => r matches Some(AnyLayer::Mem(layer)) && layer@.slots.len() == 0,
                Some(Scheme::Wal) => match opening(
                    bytes_of(existing),
                    Some((WALLayer::TYPE, 0)),
                    pid,
                ) {
                    Opening::Ready(bytes, _, _) => r matches Some(AnyLayer::Wal(layer)) && layer@
                        == (WalView {
                        file: FileView {
                            path: path_of(domain, path),
                            pid,
                            image: Some(bytes),
                            opened: true,
                            typ: WALLayer::TYPE,
                            flags: 0,
                        },
                        initialized: true,
                    }),
                    _ => r is None,
                },
                None => r is None,
            },
            None => r is None,
        },
{
    match parse_location(url) {
        Some(location) => match scheme(&location.scheme) {
            Some(Scheme::Mem) => match MemLayer::open(&location, existing, pid) {
                Ok(layer) => Some(AnyLayer::Mem(layer)),
                Err(_) => None,
            },
            Some(Scheme::Wal) => get_file_layer(&location, existing, pid),
            None => None,
        },
        None => None,
    }
}

/// The path of the file that an address names: that of the log for the
/// scheme `wal`, and none for an address that names no file.
pub fn layer_path(url: &str) -> (r: Option<String>)
    ensures
        match url_parts(url@) {
            Some((scheme, domain, path)) => match scheme_of(scheme) {
                Some(Scheme::Wal) => r matches Some(p) && p@ == path_of(domain, path),
                _ => r is None,
            },
            None => r is None,
        },
{
    match parse_location(url) {
        Some(location) => match scheme(&location.scheme) {
            Some(Scheme::Wal) => Some(file_path(&location)),
            _ => None,
        },
        None => None,
    }
}

} // verus!

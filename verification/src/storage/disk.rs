//! What the host has to do to its files.
//!
//! The storage layer keeps the image of every file it owns and decides what
//! changes. Each change is also queued as a [`DiskEffect`], in the order in
//! which the host has to carry it out.

use bytes::Bytes;
use vstd::prelude::*;

use crate::buffer::octets;

verus! {

/// One change to a file, named by its path.
#[derive(Debug)]
pub enum DiskEffect {
    /// Make the file, empty.
    Create { file: String },
    /// Add bytes at its end, and make them durable if `sync` is set.
    Append { file: String, data: Vec<u8>, sync: bool },
    /// Make durable what was added so far.
    Sync { file: String },
    /// Cut it down to its first `len` bytes, durably.
    Cut { file: String, len: usize },
    /// Make the file with these bytes, durably and all at once.
    Write { file: String, content: Bytes },
    /// Remove it.
    Remove { file: String },
}

/// What an effect says.
pub enum EffectView {
    Create { file: Seq<char> },
    Append { file: Seq<char>, data: Seq<u8>, sync: bool },
    Sync { file: Seq<char> },
    Cut { file: Seq<char>, len: int },
    Write { file: Seq<char>, content: Seq<u8> },
    Remove { file: Seq<char> },
}

impl DiskEffect {
    pub open spec fn view(&self) -> EffectView {
        match self {
            DiskEffect::Create { file } => EffectView::Create { file: file@ },
            DiskEffect::Append { file, data, sync } => EffectView::Append {
                file: file@,
                data: data@,
                sync: *sync,
            },
            DiskEffect::Sync { file } => EffectView::Sync { file: file@ },
            DiskEffect::Cut { file, len } => EffectView::Cut { file: file@, len: *len as int },
            DiskEffect::Write { file, content } => EffectView::Write {
                file: file@,
                content: octets(*content),
            },
            DiskEffect::Remove { file } => EffectView::Remove { file: file@ },
        }
    }
}

/// What each effect of a list says.
pub open spec fn effect_views(effects: Seq<DiskEffect>) -> Seq<EffectView> {
    Seq::new(effects.len(), |i: int| effects[i]@)
}

/// Files by path.
pub type Files = Map<Seq<char>, Seq<u8>>;

/// The files after one effect.
pub open spec fn performed(files: Files, e: EffectView) -> Files {
    match e {
        EffectView::Create { file } => files.insert(file, Seq::empty()),
        EffectView::Append { file, data, .. } => files.insert(file, files[file] + data),
        EffectView::Sync { .. } => files,
        EffectView::Cut { file, len } => files.insert(file, files[file].take(len)),
        EffectView::Write { file, content } => files.insert(file, content),
        EffectView::Remove { file } => files.remove(file),
    }
}

/// The files after a list of effects, carried out in order.
pub open spec fn performed_all(files: Files, es: Seq<EffectView>) -> Files
    decreases es.len(),
{
    if es.len() == 0 {
        files
    } else {
        performed(performed_all(files, es.drop_last()), es.last())
    }
}

pub proof fn lemma_performed_push(files: Files, es: Seq<EffectView>, e: EffectView)
    ensures
        performed_all(files, es.push(e)) == performed(performed_all(files, es), e),
{
    assert(es.push(e).drop_last() =~= es);
}

pub proof fn lemma_performed_one(files: Files, e: EffectView)
    ensures
        performed_all(files, seq![e]) == performed(files, e),
{
    assert(seq![e].drop_last() =~= Seq::<EffectView>::empty());
    assert(performed_all(files, seq![e].drop_last()) == files);
}

pub proof fn lemma_performed_add(files: Files, a: Seq<EffectView>, b: Seq<EffectView>)
    ensures
        performed_all(files, a + b) == performed_all(performed_all(files, a), b),
    decreases b.len(),
{
    if b.len() == 0 {
        assert(a + b =~= a);
    } else {
        assert((a + b).drop_last() =~= a + b.drop_last());
        lemma_performed_add(files, a, b.drop_last());
    }
}

} // verus!
